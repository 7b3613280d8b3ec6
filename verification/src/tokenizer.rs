//! The Hugging Face tokenizer of a model.
//!
//! Everything the crate takes from the `tokenizers` crate passes through
//! here and [`crate::pipeline`]. [`TextTokenizer`] admits the tokenizers
//! whose calls always return, and return the same for the same input, and
//! has them read control tokens in a text as ordinary text.

use vstd::prelude::*;

use tokenizers::{DecoderWrapper, NormalizerWrapper, PostProcessorWrapper, PreTokenizerWrapper};

use crate::errors::{failure, uncategorized, CauseView, Error};
use crate::pipeline::{
    always_decodes, always_normalizes, always_splits, can_shrink, count_specials,
    decoder_kind_of, decodes, finish_count, finished, finisher_kind_of, normalizes, shrinks,
    specials_counted, splits, splitter_kind_of, MAX_NESTING,
};
use crate::text::{chars_of, texts};

verus! {

/// A loaded tokenizer, kept opaque.
#[verifier::external_type_specification]
#[verifier::external_body]
pub struct ExTokenizer(tokenizers::Tokenizer);

/// The decoder that a tokenizer is configured with. Without one, tokens are
/// joined by spaces.
pub uninterp spec fn decoder_of(tokenizer: tokenizers::Tokenizer) -> Option<DecoderWrapper>;

/// `TokenizerImpl::get_decoder`: the configured decoder.
#[verifier::external_body]
fn decoder(tokenizer: &tokenizers::Tokenizer) -> (r: Option<&DecoderWrapper>)
    ensures
        match r {
            Some(step) => decoder_of(*tokenizer) == Some(*step),
            None => decoder_of(*tokenizer) is None,
        },
{
    tokenizer.get_decoder()
}

/// The normalizer that a tokenizer is configured with.
pub uninterp spec fn normalizer_of(tokenizer: tokenizers::Tokenizer) -> Option<NormalizerWrapper>;

/// `TokenizerImpl::get_normalizer`: the configured normalizer.
#[verifier::external_body]
fn normalizer(tokenizer: &tokenizers::Tokenizer) -> (r: Option<&NormalizerWrapper>)
    ensures
        match r {
            Some(step) => normalizer_of(*tokenizer) == Some(*step),
            None => normalizer_of(*tokenizer) is None,
        },
{
    tokenizer.get_normalizer()
}

/// The splitter that a tokenizer is configured with.
pub uninterp spec fn splitter_of(tokenizer: tokenizers::Tokenizer) -> Option<PreTokenizerWrapper>;

/// `TokenizerImpl::get_pre_tokenizer`: the configured pre-tokenizer.
#[verifier::external_body]
fn splitter(tokenizer: &tokenizers::Tokenizer) -> (r: Option<&PreTokenizerWrapper>)
    ensures
        match r {
            Some(step) => splitter_of(*tokenizer) == Some(*step),
            None => splitter_of(*tokenizer) is None,
        },
{
    tokenizer.get_pre_tokenizer()
}

/// The finisher that a tokenizer is configured with.
pub uninterp spec fn finisher_of(tokenizer: tokenizers::Tokenizer) -> Option<PostProcessorWrapper>;

/// `TokenizerImpl::get_post_processor`: the configured post-processor.
#[verifier::external_body]
fn finisher(tokenizer: &tokenizers::Tokenizer) -> (r: Option<&PostProcessorWrapper>)
    ensures
        match r {
            Some(step) => finisher_of(*tokenizer) == Some(*step),
            None => finisher_of(*tokenizer) is None,
        },
{
    tokenizer.get_post_processor()
}

/// The longest encoding that a tokenizer is configured to give, and how far
/// the parts that it cuts off overlap, where it truncates at all.
pub uninterp spec fn truncation_of(tokenizer: tokenizers::Tokenizer) -> Option<(usize, usize)>;

/// `TokenizerImpl::get_truncation`: the configured length and stride.
#[verifier::external_body]
fn truncation(tokenizer: &tokenizers::Tokenizer) -> (r: Option<(usize, usize)>)
    ensures
        r == truncation_of(*tokenizer),
{
    tokenizer.get_truncation().map(|t| (t.max_length, t.stride))
}

/// How far a tokenizer is configured to pad an encoding, where it pads at
/// all: to a fixed length, if there is one, and to a multiple of a number,
/// if there is one.
pub uninterp spec fn padding_of(tokenizer: tokenizers::Tokenizer) -> Option<
    (Option<usize>, Option<usize>),
>;

/// `TokenizerImpl::get_padding`: the configured strategy and multiple.
#[verifier::external_body]
fn padding(tokenizer: &tokenizers::Tokenizer) -> (r: Option<(Option<usize>, Option<usize>)>)
    ensures
        r == padding_of(*tokenizer),
{
    let params = tokenizer.get_padding()?;
    let length = match params.strategy {
        tokenizers::PaddingStrategy::Fixed(n) => Some(n),
        tokenizers::PaddingStrategy::BatchLongest => None,
    };
    Some((length, params.pad_to_multiple_of))
}

/// How an added token is matched in a text.
#[derive(Clone, Copy, Debug, PartialEq, Eq, Structural)]
pub struct AddedTraits {
    /// Its id.
    pub id: u32,
    /// Whether it is a special token.
    pub special: bool,
    /// Whether it takes the white space before it.
    pub strips_before: bool,
    /// Whether it takes the white space after it.
    pub strips_after: bool,
}

/// How the added tokens of a tokenizer are matched.
pub uninterp spec fn added_traits_of(tokenizer: tokenizers::Tokenizer) -> Set<AddedTraits>;

/// `TokenizerImpl::get_added_tokens_decoder`: the id and the flags of every
/// added token, in no particular order.
#[verifier::external_body]
fn added_traits(tokenizer: &tokenizers::Tokenizer) -> (r: Vec<AddedTraits>)
    ensures
        r@.to_set() == added_traits_of(*tokenizer),
{
    let added = tokenizer.get_added_tokens_decoder();
    added.into_iter().map(|(id, t)| AddedTraits {
        id,
        special: t.special,
        strips_before: t.lstrip,
        strips_after: t.rstrip,
    }).collect()
}

/// The texts of the added tokens of a tokenizer.
pub uninterp spec fn added_texts_of(tokenizer: tokenizers::Tokenizer) -> Set<Seq<char>>;

/// `TokenizerImpl::get_added_vocabulary` and its `get_vocab`: the text of
/// every added token, in no particular order.
#[verifier::external_body]
fn added_texts(tokenizer: &tokenizers::Tokenizer) -> (r: Vec<String>)
    ensures
        texts(r@).to_set() == added_texts_of(*tokenizer),
{
    tokenizer.get_added_vocabulary().get_vocab().keys().cloned().collect()
}

/// The bits of the probability with which a tokenizer drops merges while it
/// encodes, where one is configured.
pub uninterp spec fn dropout_of(tokenizer: tokenizers::Tokenizer) -> Option<u32>;

/// `TokenizerImpl::get_model`: the `dropout` of a byte-pair encoding, by
/// its bits.
#[verifier::external_body]
fn dropout(tokenizer: &tokenizers::Tokenizer) -> (r: Option<u32>)
    ensures
        r == dropout_of(*tokenizer),
{
    match tokenizer.get_model() {
        tokenizers::ModelWrapper::BPE(model) => model.dropout.map(|p| p.to_bits()),
        _ => None,
    }
}

/// Whether merges are dropped at random: with any probability but zero,
/// whose bits are zero but for the sign.
pub open spec fn drops_merges(dropout: Option<u32>) -> bool {
    dropout matches Some(bits) && bits != 0 && bits != 0x8000_0000
}

/// Whether decoding returns on every list of ids.
pub open spec fn total_decoder(tokenizer: tokenizers::Tokenizer) -> bool {
    decoder_of(tokenizer) matches Some(step) ==> decodes(step, MAX_NESTING as nat)
}

/// The tokens a tokenizer knows, added and special ones included, each with
/// its id.
pub uninterp spec fn vocabulary(tokenizer: tokenizers::Tokenizer) -> Map<Seq<char>, u32>;

/// The id of `token`, where the vocabulary has it.
pub open spec fn id_of(tokenizer: tokenizers::Tokenizer, token: Seq<char>) -> Option<u32> {
    if vocabulary(tokenizer).dom().contains(token) {
        Some(vocabulary(tokenizer)[token])
    } else {
        None
    }
}

/// `TokenizerImpl::token_to_id`: a lookup in the vocabulary.
#[verifier::external_body]
fn token_to_id(tokenizer: &tokenizers::Tokenizer, token: &str) -> (r: Option<u32>)
    ensures
        r is Some <==> vocabulary(*tokenizer).dom().contains(token@),
        r is Some ==> r->0 == vocabulary(*tokenizer)[token@],
{
    tokenizer.token_to_id(token)
}

/// The text that a list of ids decodes to with special tokens left out, or
/// the tokenizer's complaint.
pub uninterp spec fn decoded(
    tokenizer: tokenizers::Tokenizer,
    ids: Seq<u32>,
) -> Result<Seq<char>, Seq<char>>;

/// What a textual result holds.
pub open spec fn text_result(r: Result<String, String>) -> Result<Seq<char>, Seq<char>> {
    match r {
        Ok(text) => Ok(text@),
        Err(reason) => Err(reason@),
    }
}

/// `TokenizerImpl::decode` with special tokens left out. Its result depends
/// on the tokenizer and the ids alone; how tokens become text is the
/// decoder's affair and is not spelled out here.
#[verifier::external_body]
fn decode(tokenizer: &tokenizers::Tokenizer, ids: &[u32]) -> (r: Result<String, String>)
    requires
        total_decoder(*tokenizer),
    ensures
        text_result(r) == decoded(*tokenizer, ids@),
{
    tokenizer.decode(ids, true).map_err(|e| e.to_string())
}

/// The tokens that a text encodes to with no special token added, or the
/// tokenizer's complaint.
pub uninterp spec fn encoded(
    tokenizer: tokenizers::Tokenizer,
    text: Seq<char>,
) -> Result<Seq<Seq<char>>, Seq<char>>;

/// What a result with a list of texts holds.
pub open spec fn texts_result(r: Result<Vec<String>, String>) -> Result<
    Seq<Seq<char>>,
    Seq<char>,
> {
    match r {
        Ok(list) => Ok(texts(list@)),
        Err(reason) => Err(reason@),
    }
}

/// Whether truncation returns: to cut to `n` tokens with a stride of `n` or
/// more panics.
pub open spec fn truncates(truncation: Option<(usize, usize)>) -> bool {
    truncation matches Some((max_length, stride)) ==> max_length == 0 || stride < max_length
}

/// The longest padding that is let pass. A list that is padded much further
/// exceeds what can be allocated, which panics.
pub const MAX_PADDING: usize = 0x100_0000;

/// Whether a number, if there is one, is a length that can be padded to.
pub open spec fn paddable(length: Option<usize>) -> bool {
    length matches Some(n) ==> n <= MAX_PADDING
}

/// Whether padding returns.
pub open spec fn pads(padding: Option<(Option<usize>, Option<usize>)>) -> bool {
    padding matches Some((length, multiple)) ==> paddable(length) && paddable(multiple)
}

/// Whether a text holds a visible ASCII character, which every normalizer
/// leaves a character of.
pub open spec fn has_visible_ascii(s: Seq<char>) -> bool {
    exists|i: int| 0 <= i < s.len() && '!' <= #[trigger] s[i] <= '~'
}

/// Whether the white space around added tokens is taken without a panic. A
/// token that takes the space before it can end before it starts, where
/// another one took the space it consists of. Special tokens are not looked
/// for.
pub open spec fn strips_one_way(added: Set<AddedTraits>) -> bool {
    (forall|t: AddedTraits| #[trigger]
        added.contains(t) ==> t.special || !t.strips_before) || (forall|t: AddedTraits| #[trigger]
        added.contains(t) ==> t.special || !t.strips_after)
}

/// Whether something is left of every added token when it is normalized.
/// One of which nothing is left would be found between the bytes of a
/// character, which panics.
pub open spec fn none_vanishes(added: Set<Seq<char>>) -> bool {
    forall|text: Seq<char>| #[trigger] added.contains(text) ==> has_visible_ascii(text)
}

/// Whether a tokenizer's normalizer can leave nothing of a text.
pub open spec fn shrinking(tokenizer: tokenizers::Tokenizer) -> bool {
    normalizer_of(tokenizer) matches Some(step) && shrinks(step, MAX_NESTING as nat)
}

/// Whether the special tokens that are counted before truncation are few
/// enough to be counted.
pub open spec fn counts_specials(tokenizer: tokenizers::Tokenizer) -> bool {
    (truncation_of(tokenizer), finisher_of(tokenizer)) matches (Some(_), Some(step))
        ==> specials_counted(step, MAX_NESTING as nat) <= usize::MAX
}

/// Whether encoding returns on every text, once added tokens are looked for
/// as the normalizer leaves them.
pub open spec fn total_encoder(tokenizer: tokenizers::Tokenizer) -> bool {
    &&& strips_one_way(added_traits_of(tokenizer))
    &&& shrinking(tokenizer) ==> none_vanishes(added_texts_of(tokenizer))
    &&& normalizer_of(tokenizer) matches Some(step) ==> normalizes(step, MAX_NESTING as nat)
    &&& splitter_of(tokenizer) matches Some(step) ==> splits(step, MAX_NESTING as nat)
    &&& truncates(truncation_of(tokenizer))
    &&& counts_specials(tokenizer)
    &&& finisher_of(tokenizer) matches Some(step) ==> finished(step, 1, MAX_NESTING as nat) is Some
    &&& pads(padding_of(tokenizer))
}

/// Whether the special tokens of a tokenizer are ordinary text to `encode`,
/// not tokens to be found in it.
pub uninterp spec fn control_tokens_are_text(tokenizer: tokenizers::Tokenizer) -> bool;

/// A tokenizer as it is once special tokens are ordinary text to it.
pub uninterp spec fn with_plain_control_tokens(
    tokenizer: tokenizers::Tokenizer,
) -> tokenizers::Tokenizer;

/// `TokenizerImpl::set_encode_special_tokens` with `true`: it sets the flag
/// of the added vocabulary that `get_encode_special_tokens` reports, and
/// nothing else. Steps, limits, vocabulary and decoded texts stay.
#[verifier::external_body]
fn read_control_tokens_as_text(tokenizer: &mut tokenizers::Tokenizer)
    ensures
        *final(tokenizer) == with_plain_control_tokens(*old(tokenizer)),
        control_tokens_are_text(*final(tokenizer)),
        patterns_are_current(*final(tokenizer)) == patterns_are_current(*old(tokenizer)),
        decoder_of(*final(tokenizer)) == decoder_of(*old(tokenizer)),
        normalizer_of(*final(tokenizer)) == normalizer_of(*old(tokenizer)),
        splitter_of(*final(tokenizer)) == splitter_of(*old(tokenizer)),
        finisher_of(*final(tokenizer)) == finisher_of(*old(tokenizer)),
        truncation_of(*final(tokenizer)) == truncation_of(*old(tokenizer)),
        padding_of(*final(tokenizer)) == padding_of(*old(tokenizer)),
        added_traits_of(*final(tokenizer)) == added_traits_of(*old(tokenizer)),
        added_texts_of(*final(tokenizer)) == added_texts_of(*old(tokenizer)),
        dropout_of(*final(tokenizer)) == dropout_of(*old(tokenizer)),
        vocabulary(*final(tokenizer)) == vocabulary(*old(tokenizer)),
        forall|ids: Seq<u32>| #[trigger]
            decoded(*final(tokenizer), ids) == decoded(*old(tokenizer), ids),
{
    tokenizer.set_encode_special_tokens(true);
}

/// Whether no added token has the last id, which is followed by none.
pub open spec fn last_id_is_free(added: Set<AddedTraits>) -> bool {
    forall|t: AddedTraits| #[trigger] added.contains(t) ==> t.id < u32::MAX
}

/// Whether the added tokens of a tokenizer are looked for as its normalizer
/// leaves them, not as one that it had before did.
pub uninterp spec fn patterns_are_current(tokenizer: tokenizers::Tokenizer) -> bool;

/// A tokenizer as it is once its added tokens are looked for as its
/// normalizer leaves them.
pub uninterp spec fn with_current_patterns(
    tokenizer: tokenizers::Tokenizer,
) -> tokenizers::Tokenizer;

/// `TokenizerImpl::add_tokens` with no token: it makes the patterns that
/// added tokens are found by anew, with the normalizer that is configured,
/// and adds nothing. Steps, limits, vocabulary, decoded texts and the
/// reading of control tokens stay. It takes the id after the last added
/// one, and a normalizer that fails would make it panic.
#[verifier::external_body]
fn refresh_patterns(tokenizer: &mut tokenizers::Tokenizer)
    requires
        normalizer_of(*old(tokenizer)) matches Some(step) ==> normalizes(step, MAX_NESTING as nat),
        last_id_is_free(added_traits_of(*old(tokenizer))),
    ensures
        *final(tokenizer) == with_current_patterns(*old(tokenizer)),
        patterns_are_current(*final(tokenizer)),
        control_tokens_are_text(*final(tokenizer)) == control_tokens_are_text(*old(tokenizer)),
        decoder_of(*final(tokenizer)) == decoder_of(*old(tokenizer)),
        normalizer_of(*final(tokenizer)) == normalizer_of(*old(tokenizer)),
        splitter_of(*final(tokenizer)) == splitter_of(*old(tokenizer)),
        finisher_of(*final(tokenizer)) == finisher_of(*old(tokenizer)),
        truncation_of(*final(tokenizer)) == truncation_of(*old(tokenizer)),
        padding_of(*final(tokenizer)) == padding_of(*old(tokenizer)),
        added_traits_of(*final(tokenizer)) == added_traits_of(*old(tokenizer)),
        added_texts_of(*final(tokenizer)) == added_texts_of(*old(tokenizer)),
        dropout_of(*final(tokenizer)) == dropout_of(*old(tokenizer)),
        vocabulary(*final(tokenizer)) == vocabulary(*old(tokenizer)),
        forall|ids: Seq<u32>| #[trigger]
            decoded(*final(tokenizer), ids) == decoded(*old(tokenizer), ids),
{
    tokenizer.add_tokens(&[]);
}

/// `TokenizerImpl::encode` with no special token added, and the tokens of
/// the encoding. Special tokens in the text are not looked for, as they are
/// text; other added tokens are. Without merge dropout the result depends
/// on the tokenizer and the text alone; how text becomes tokens is not
/// spelled out here, so not either that no special token comes out: a model
/// may know the text of one as a word of its own.
#[verifier::external_body]
fn encode(tokenizer: &tokenizers::Tokenizer, text: &str) -> (r: Result<Vec<String>, String>)
    requires
        total_encoder(*tokenizer),
        !drops_merges(dropout_of(*tokenizer)),
        control_tokens_are_text(*tokenizer),
        patterns_are_current(*tokenizer),
    ensures
        texts_result(r) == encoded(*tokenizer, text@),
{
    let encoding = tokenizer.encode(text, false).map_err(|e| e.to_string())?;
    Ok(encoding.get_tokens().to_vec())
}

/// Whether decoding and encoding always return, and return the same for
/// the same input, and control tokens in a text are not interpreted.
pub open spec fn well_behaved(tokenizer: tokenizers::Tokenizer) -> bool {
    &&& total_decoder(tokenizer)
    &&& total_encoder(tokenizer)
    &&& !drops_merges(dropout_of(tokenizer))
    &&& control_tokens_are_text(tokenizer)
    &&& patterns_are_current(tokenizer)
}

/// A tokenizer whose calls always return, and return the same for the same
/// input, and to which control tokens in a text are ordinary text.
#[derive(Debug)]
pub struct TextTokenizer {
    inner: tokenizers::Tokenizer,
}

impl View for TextTokenizer {
    type V = tokenizers::Tokenizer;

    closed spec fn view(&self) -> tokenizers::Tokenizer {
        self.inner
    }
}

/// Why a tokenizer is not admitted, if it is not.
pub open spec fn admission(tokenizer: tokenizers::Tokenizer) -> Result<(), Seq<CauseView>> {
    if !total_decoder(tokenizer) {
        Err(uncategorized("tokenizer can fail to decode tokens"@))
    } else if !total_encoder(tokenizer) {
        Err(uncategorized("tokenizer can fail to encode text"@))
    } else if drops_merges(dropout_of(tokenizer)) {
        Err(uncategorized("tokenizer must not drop merges at random"@))
    } else if !last_id_is_free(added_traits_of(tokenizer)) {
        Err(uncategorized("no token id is left after the added tokens"@))
    } else {
        Ok(())
    }
}

/// Whether a text holds a visible ASCII character.
fn shows_ascii(text: &str) -> (r: bool)
    ensures
        r == has_visible_ascii(text@),
{
    let cs = chars_of(text);
    for i in 0..cs.len()
        invariant
            cs@ == text@,
            forall|j: int| 0 <= j < i ==> !('!' <= #[trigger] cs@[j] <= '~'),
    {
        if '!' <= cs[i] && cs[i] <= '~' {
            assert('!' <= text@[i as int] <= '~');
            return true;
        }
    }
    false
}

/// Whether something is left of every added token when it is normalized.
fn all_show_ascii(added: &Vec<String>) -> (r: bool)
    ensures
        r == none_vanishes(texts(added@).to_set()),
{
    for i in 0..added.len()
        invariant
            forall|j: int| 0 <= j < i ==> has_visible_ascii(#[trigger] texts(added@)[j]),
    {
        assert(texts(added@)[i as int] == added@[i as int]@);
        if !shows_ascii(added[i].as_str()) {
            assert(texts(added@).to_set().contains(texts(added@)[i as int]));
            return false;
        }
    }
    true
}

/// Whether the white space around added tokens is taken without a panic.
fn strip_one_way(added: &Vec<AddedTraits>) -> (r: bool)
    ensures
        r == strips_one_way(added@.to_set()),
{
    let mut before = false;
    let mut after = false;
    for i in 0..added.len()
        invariant
            before == exists|j: int|
                0 <= j < i && !(#[trigger] added@[j]).special && added@[j].strips_before,
            after == exists|j: int|
                0 <= j < i && !(#[trigger] added@[j]).special && added@[j].strips_after,
    {
        let t = added[i];
        if !t.special && t.strips_before {
            before = true;
        }
        if !t.special && t.strips_after {
            after = true;
        }
    }
    assert(forall|j: int|
        0 <= j < added@.len() ==> added@.to_set().contains(#[trigger] added@[j]));
    !before || !after
}

/// Whether no added token has the last id.
fn leaves_last_id(added: &Vec<AddedTraits>) -> (r: bool)
    ensures
        r == last_id_is_free(added@.to_set()),
{
    for i in 0..added.len()
        invariant
            forall|j: int| 0 <= j < i ==> (#[trigger] added@[j]).id < u32::MAX,
    {
        if added[i].id == u32::MAX {
            assert(added@.to_set().contains(added@[i as int]));
            return false;
        }
    }
    true
}

/// Whether a number, if there is one, is a length that can be padded to.
fn can_pad_to(length: Option<usize>) -> (r: bool)
    ensures
        r == paddable(length),
{
    match length {
        Some(n) => n <= MAX_PADDING,
        None => true,
    }
}

/// Whether encoding returns on every text.
fn always_encodes(tokenizer: &tokenizers::Tokenizer) -> (r: bool)
    ensures
        r == total_encoder(*tokenizer),
{
    let (normalized, shrinking) = match normalizer(tokenizer) {
        Some(step) => (always_normalizes(step, MAX_NESTING), can_shrink(step, MAX_NESTING)),
        None => (true, false),
    };
    let kept = !shrinking || all_show_ascii(&added_texts(tokenizer));
    let stripped = strip_one_way(&added_traits(tokenizer));
    let split = match splitter(tokenizer) {
        Some(step) => always_splits(step, MAX_NESTING),
        None => true,
    };
    let truncated = match truncation(tokenizer) {
        Some((max_length, stride)) => max_length == 0 || stride < max_length,
        None => true,
    };
    let (done, counted) = match finisher(tokenizer) {
        Some(step) => (
            finish_count(step, 1, MAX_NESTING).is_some(),
            count_specials(step, MAX_NESTING).is_some(),
        ),
        None => (true, true),
    };
    let counted = counted || truncation(tokenizer).is_none();
    let padded = match padding(tokenizer) {
        Some((length, multiple)) => can_pad_to(length) && can_pad_to(multiple),
        None => true,
    };
    stripped && kept && normalized && split && truncated && counted && done && padded
}

impl TextTokenizer {
    #[verifier::type_invariant]
    spec fn inner_is_well_behaved(&self) -> bool {
        well_behaved(self.inner)
    }

    /// Admits a tokenizer whose calls always return, and return the same
    /// for the same input, and no other. To the admitted one control tokens
    /// are ordinary text, and added tokens are what its normalizer makes of
    /// them.
    pub fn new(inner: tokenizers::Tokenizer) -> (r: Result<TextTokenizer, Error>)
        ensures
            match r {
                Ok(tokenizer) => {
                    &&& admission(inner) is Ok
                    &&& tokenizer@ == with_current_patterns(with_plain_control_tokens(inner))
                    &&& control_tokens_are_text(tokenizer@)
                    &&& patterns_are_current(tokenizer@)
                    &&& vocabulary(tokenizer@) == vocabulary(inner)
                    &&& forall|ids: Seq<u32>| #[trigger]
                        decoded(tokenizer@, ids) == decoded(inner, ids)
                },
                Err(e) => admission(inner) == Err::<(), Seq<CauseView>>(e@),
            },
    {
        let mut tokenizer = inner;
        read_control_tokens_as_text(&mut tokenizer);
        let decodable = match decoder(&tokenizer) {
            Some(step) => always_decodes(step, MAX_NESTING),
            None => true,
        };
        if !decodable {
            return Err(failure("tokenizer can fail to decode tokens".to_owned()));
        }
        if !always_encodes(&tokenizer) {
            return Err(failure("tokenizer can fail to encode text".to_owned()));
        }
        if let Some(bits) = dropout(&tokenizer) {
            if bits != 0 && bits != 0x8000_0000 {
                return Err(failure("tokenizer must not drop merges at random".to_owned()));
            }
        }
        if !leaves_last_id(&added_traits(&tokenizer)) {
            return Err(failure("no token id is left after the added tokens".to_owned()));
        }
        refresh_patterns(&mut tokenizer);
        Ok(TextTokenizer { inner: tokenizer })
    }

    /// The id of `token`, where the vocabulary has it.
    pub fn token_to_id(&self, token: &str) -> (r: Option<u32>)
        ensures
            r == id_of(self@, token@),
    {
        token_to_id(&self.inner, token)
    }

    /// The text that `ids` decode to, special tokens left out.
    pub fn decode(&self, ids: &[u32]) -> (r: Result<String, String>)
        ensures
            text_result(r) == decoded(self@, ids@),
    {
        proof {
            use_type_invariant(self);
        }
        decode(&self.inner, ids)
    }

    /// The tokens that `text` encodes to, with no special token added and
    /// none found in it.
    pub fn encode(&self, text: &str) -> (r: Result<Vec<String>, String>)
        ensures
            texts_result(r) == encoded(self@, text@),
    {
        proof {
            use_type_invariant(self);
        }
        encode(&self.inner, text)
    }
}

/// A tokenizer that works on bytes, as those of the models do, is admitted:
/// it needs no normalizer, its decoder and its splitter are byte-level, its
/// finisher is byte-level or absent, and it neither cuts, pads nor drops
/// merges.
pub proof fn law_byte_level_tokenizers_are_admitted(tokenizer: tokenizers::Tokenizer)
    requires
        decoder_of(tokenizer) matches Some(step) && decoder_kind_of(step) is ByteLevel,
        normalizer_of(tokenizer) is None,
        splitter_of(tokenizer) matches Some(step) && splitter_kind_of(step) is ByteLevel,
        finisher_of(tokenizer) matches Some(step) ==> finisher_kind_of(step) is ByteLevel,
        truncation_of(tokenizer) is None,
        padding_of(tokenizer) is None,
        dropout_of(tokenizer) is None,
        forall|t: AddedTraits| #[trigger]
            added_traits_of(tokenizer).contains(t) ==> !t.strips_before && t.id < 0xffff_ffff,
    ensures
        admission(tokenizer) is Ok,
{
}

/// Merges are dropped at random with every probability but zero, whose sign
/// does not matter, and not at all where no probability is set.
pub proof fn law_only_zero_keeps_every_merge(bits: u32)
    ensures
        !drops_merges(None),
        drops_merges(Some(bits)) <==> bits % 0x8000_0000 != 0,
{
}

} // verus!
