//! The steps that a tokenizer takes, and which of them always return.
//!
//! A text is normalized, split, encoded by the model and finished; ids are
//! decoded. Each of the four configurable steps can be a chain of others.
//! The steps themselves stay opaque; what is read of a step is its kind and
//! the few numbers that decide whether it can panic.

use vstd::prelude::*;
use vstd::string::*;

use tokenizers::{DecoderWrapper, NormalizerWrapper, PostProcessorWrapper, PreTokenizerWrapper};

use crate::text::{chars_of, optional_text};

verus! {

/// A step that decodes tokens, kept opaque.
#[verifier::external_type_specification]
#[verifier::external_body]
pub struct ExDecoder(tokenizers::DecoderWrapper);

/// A step that normalizes text, kept opaque.
#[verifier::external_type_specification]
#[verifier::external_body]
pub struct ExNormalizer(tokenizers::NormalizerWrapper);

/// A step that splits text, kept opaque.
#[verifier::external_type_specification]
#[verifier::external_body]
pub struct ExPreTokenizer(tokenizers::PreTokenizerWrapper);

/// A step that finishes an encoded text, kept opaque.
#[verifier::external_type_specification]
#[verifier::external_body]
pub struct ExPostProcessor(tokenizers::PostProcessorWrapper);

/// How deep chains of steps may be nested. A tokenizer that was read from a
/// JSON file stays below: the reader gives up at this depth of brackets.
pub const MAX_NESTING: usize = 128;

/// The kinds of decoders.
pub enum DecoderKind<'a> {
    Bpe,
    ByteLevel,
    WordPiece,
    Metaspace,
    Ctc,
    /// One after the other.
    Chain(&'a [DecoderWrapper]),
    Replace,
    Fuse,
    /// Strips up to so many characters from the end of a token.
    Strip(usize),
    ByteFallback,
}

/// The kind of a decoder.
pub uninterp spec fn decoder_kind_of(step: DecoderWrapper) -> DecoderKind<'static>;

/// The variant of a `DecoderWrapper`, with `Strip::stop` and
/// `Sequence::get_decoders`.
#[verifier::external_body]
fn decoder_kind(step: &DecoderWrapper) -> (r: DecoderKind<'_>)
    ensures
        r == decoder_kind_of(*step),
{
    match step {
        DecoderWrapper::BPE(_) => DecoderKind::Bpe,
        DecoderWrapper::ByteLevel(_) => DecoderKind::ByteLevel,
        DecoderWrapper::WordPiece(_) => DecoderKind::WordPiece,
        DecoderWrapper::Metaspace(_) => DecoderKind::Metaspace,
        DecoderWrapper::CTC(_) => DecoderKind::Ctc,
        DecoderWrapper::Sequence(s) => DecoderKind::Chain(s.get_decoders()),
        DecoderWrapper::Replace(_) => DecoderKind::Replace,
        DecoderWrapper::Fuse(_) => DecoderKind::Fuse,
        DecoderWrapper::Strip(s) => DecoderKind::Strip(s.stop),
        DecoderWrapper::ByteFallback(_) => DecoderKind::ByteFallback,
    }
}

/// Whether a decoder returns on every list of tokens. `BPEDecoder` takes
/// the length of the list minus one, `Strip` with a `stop` indexes past the
/// front of short tokens, and `Replace` searches with a regex engine that
/// panics where a search exceeds its limits.
pub open spec fn decodes(step: DecoderWrapper, depth: nat) -> bool
    decreases depth, 0nat,
{
    match decoder_kind_of(step) {
        DecoderKind::Bpe => false,
        DecoderKind::Replace => false,
        DecoderKind::Strip(stop) => stop == 0,
        DecoderKind::Chain(steps) => depth > 0 && all_decode(steps@, (depth - 1) as nat),
        _ => true,
    }
}

/// Whether decoders, one after the other, return on every list of tokens.
pub open spec fn all_decode(steps: Seq<DecoderWrapper>, depth: nat) -> bool
    decreases depth, steps.len(),
{
    steps.len() == 0 || (decodes(steps[0], depth) && all_decode(steps.skip(1), depth))
}

/// Whether a decoder returns on every list of tokens.
pub(crate) fn always_decodes(step: &DecoderWrapper, depth: usize) -> (r: bool)
    ensures
        r == decodes(*step, depth as nat),
    decreases depth,
{
    match decoder_kind(step) {
        DecoderKind::Bpe => false,
        DecoderKind::Replace => false,
        DecoderKind::Strip(stop) => stop == 0,
        DecoderKind::Chain(steps) => {
            if depth == 0 {
                return false;
            }
            assert(steps@.skip(0) =~= steps@);
            for i in 0..steps.len()
                invariant
                    depth > 0,
                    decoder_kind_of(*step) == DecoderKind::Chain(steps),
                    all_decode(steps@, (depth - 1) as nat) == all_decode(
                        steps@.skip(i as int),
                        (depth - 1) as nat,
                    ),
            {
                assert(steps@.skip(i as int)[0] == steps@[i as int]);
                assert(steps@.skip(i as int).skip(1) =~= steps@.skip(i + 1));
                if !always_decodes(&steps[i], depth - 1) {
                    return false;
                }
            }
            true
        },
        _ => true,
    }
}

/// The kinds of normalizers.
pub enum NormalizerKind<'a> {
    Bert,
    Strip,
    StripAccents,
    Nfc,
    Nfd,
    Nfkc,
    Nfkd,
    /// One after the other.
    Chain(&'a [NormalizerWrapper]),
    Lowercase,
    Nmt,
    Precompiled,
    Replace,
    /// Puts a text in front.
    Prepend(&'a str),
    ByteLevel,
}

/// The kind of a normalizer.
pub uninterp spec fn normalizer_kind_of(step: NormalizerWrapper) -> NormalizerKind<'static>;

/// The variant of a `NormalizerWrapper`, with `Prepend::prepend` and the
/// members of a `Sequence`.
#[verifier::external_body]
fn normalizer_kind(step: &NormalizerWrapper) -> (r: NormalizerKind<'_>)
    ensures
        r == normalizer_kind_of(*step),
{
    match step {
        NormalizerWrapper::BertNormalizer(_) => NormalizerKind::Bert,
        NormalizerWrapper::StripNormalizer(_) => NormalizerKind::Strip,
        NormalizerWrapper::StripAccents(_) => NormalizerKind::StripAccents,
        NormalizerWrapper::NFC(_) => NormalizerKind::Nfc, NormalizerWrapper::NFD(_) => NormalizerKind::Nfd,
        NormalizerWrapper::NFKC(_) => NormalizerKind::Nfkc,
        NormalizerWrapper::NFKD(_) => NormalizerKind::Nfkd,
        NormalizerWrapper::Sequence(s) => NormalizerKind::Chain(s.as_ref()),
        NormalizerWrapper::Lowercase(_) => NormalizerKind::Lowercase,
        NormalizerWrapper::Nmt(_) => NormalizerKind::Nmt,
        NormalizerWrapper::Precompiled(_) => NormalizerKind::Precompiled,
        NormalizerWrapper::Replace(_) => NormalizerKind::Replace,
        NormalizerWrapper::Prepend(p) => NormalizerKind::Prepend(p.prepend.as_str()),
        NormalizerWrapper::ByteLevel(_) => NormalizerKind::ByteLevel,
    }
}

/// Whether a normalizer returns on every text, and without an error.
/// `Replace` searches with a
/// regex engine that panics where a search exceeds its limits,
/// `Precompiled` indexes a table of its file unchecked, and `Prepend` of
/// nothing leaves a character without an origin, on which the steps after
/// it index past the end.
pub open spec fn normalizes(step: NormalizerWrapper, depth: nat) -> bool
    decreases depth, 0nat,
{
    match normalizer_kind_of(step) {
        NormalizerKind::Precompiled => false,
        NormalizerKind::Replace => false,
        NormalizerKind::Prepend(text) => text@.len() > 0,
        NormalizerKind::Chain(steps) => depth > 0 && all_normalize(steps@, (depth - 1) as nat),
        _ => true,
    }
}

/// Whether normalizers, one after the other, return on every text.
pub open spec fn all_normalize(steps: Seq<NormalizerWrapper>, depth: nat) -> bool
    decreases depth, steps.len(),
{
    steps.len() == 0 || (normalizes(steps[0], depth) && all_normalize(steps.skip(1), depth))
}

/// Whether a normalizer returns on every text.
pub(crate) fn always_normalizes(step: &NormalizerWrapper, depth: usize) -> (r: bool)
    ensures
        r == normalizes(*step, depth as nat),
    decreases depth,
{
    match normalizer_kind(step) {
        NormalizerKind::Precompiled => false,
        NormalizerKind::Replace => false,
        NormalizerKind::Prepend(text) => !text.is_empty(),
        NormalizerKind::Chain(steps) => {
            if depth == 0 {
                return false;
            }
            assert(steps@.skip(0) =~= steps@);
            for i in 0..steps.len()
                invariant
                    depth > 0,
                    normalizer_kind_of(*step) == NormalizerKind::Chain(steps),
                    all_normalize(steps@, (depth - 1) as nat) == all_normalize(
                        steps@.skip(i as int),
                        (depth - 1) as nat,
                    ),
            {
                assert(steps@.skip(i as int)[0] == steps@[i as int]);
                assert(steps@.skip(i as int).skip(1) =~= steps@.skip(i + 1));
                if !always_normalizes(&steps[i], depth - 1) {
                    return false;
                }
            }
            true
        },
        _ => true,
    }
}

/// Whether a normalizer can leave nothing of a text: white space, accents
/// and control characters.
pub open spec fn shrinks(step: NormalizerWrapper, depth: nat) -> bool
    decreases depth, 0nat,
{
    match normalizer_kind_of(step) {
        NormalizerKind::Bert => true,
        NormalizerKind::Strip => true,
        NormalizerKind::StripAccents => true,
        NormalizerKind::Nmt => true,
        NormalizerKind::Chain(steps) => depth == 0 || any_shrinks(steps@, (depth - 1) as nat),
        _ => false,
    }
}

/// Whether one of several normalizers can leave nothing of a text.
pub open spec fn any_shrinks(steps: Seq<NormalizerWrapper>, depth: nat) -> bool
    decreases depth, steps.len(),
{
    steps.len() > 0 && (shrinks(steps[0], depth) || any_shrinks(steps.skip(1), depth))
}

/// Whether a normalizer can leave nothing of a text.
pub(crate) fn can_shrink(step: &NormalizerWrapper, depth: usize) -> (r: bool)
    ensures
        r == shrinks(*step, depth as nat),
    decreases depth,
{
    match normalizer_kind(step) {
        NormalizerKind::Bert => true,
        NormalizerKind::Strip => true,
        NormalizerKind::StripAccents => true,
        NormalizerKind::Nmt => true,
        NormalizerKind::Chain(steps) => {
            if depth == 0 {
                return true;
            }
            assert(steps@.skip(0) =~= steps@);
            for i in 0..steps.len()
                invariant
                    depth > 0,
                    normalizer_kind_of(*step) == NormalizerKind::Chain(steps),
                    any_shrinks(steps@, (depth - 1) as nat) == any_shrinks(
                        steps@.skip(i as int),
                        (depth - 1) as nat,
                    ),
            {
                assert(steps@.skip(i as int)[0] == steps@[i as int]);
                assert(steps@.skip(i as int).skip(1) =~= steps@.skip(i + 1));
                if can_shrink(&steps[i], depth - 1) {
                    return true;
                }
            }
            false
        },
        _ => false,
    }
}

/// The kinds of splitters.
pub enum SplitterKind<'a> {
    Bert,
    ByteLevel,
    Delimiter,
    Metaspace,
    Whitespace,
    /// One after the other.
    Chain(&'a [PreTokenizerWrapper]),
    Split,
    Punctuation,
    WhitespaceSplit,
    Digits,
    UnicodeScripts,
    /// Cuts pieces of so many characters.
    FixedLength(usize),
}

/// The kind of a splitter.
pub uninterp spec fn splitter_kind_of(step: PreTokenizerWrapper) -> SplitterKind<'static>;

/// The variant of a `PreTokenizerWrapper`, with `FixedLength::length` and
/// the members of a `Sequence`.
#[verifier::external_body]
fn splitter_kind(step: &PreTokenizerWrapper) -> (r: SplitterKind<'_>)
    ensures
        r == splitter_kind_of(*step),
{
    match step {
        PreTokenizerWrapper::BertPreTokenizer(_) => SplitterKind::Bert,
        PreTokenizerWrapper::ByteLevel(_) => SplitterKind::ByteLevel,
        PreTokenizerWrapper::Delimiter(_) => SplitterKind::Delimiter,
        PreTokenizerWrapper::Metaspace(_) => SplitterKind::Metaspace,
        PreTokenizerWrapper::Whitespace(_) => SplitterKind::Whitespace,
        PreTokenizerWrapper::Sequence(s) => SplitterKind::Chain(s.as_ref()),
        PreTokenizerWrapper::Split(_) => SplitterKind::Split,
        PreTokenizerWrapper::Punctuation(_) => SplitterKind::Punctuation,
        PreTokenizerWrapper::WhitespaceSplit(_) => SplitterKind::WhitespaceSplit,
        PreTokenizerWrapper::Digits(_) => SplitterKind::Digits,
        PreTokenizerWrapper::UnicodeScripts(_) => SplitterKind::UnicodeScripts,
        PreTokenizerWrapper::FixedLength(f) => SplitterKind::FixedLength(f.length),
    }
}

/// Whether a splitter returns on every text. `Split` searches with a regex
/// engine that panics where a search exceeds its limits (and which regex it
/// searches for is set apart from the pattern that it shows), and
/// `FixedLength` cannot cut pieces of no length.
pub open spec fn splits(step: PreTokenizerWrapper, depth: nat) -> bool
    decreases depth, 0nat,
{
    match splitter_kind_of(step) {
        SplitterKind::Split => false,
        SplitterKind::FixedLength(length) => length > 0,
        SplitterKind::Chain(steps) => depth > 0 && all_split(steps@, (depth - 1) as nat),
        _ => true,
    }
}

/// Whether splitters, one after the other, return on every text.
pub open spec fn all_split(steps: Seq<PreTokenizerWrapper>, depth: nat) -> bool
    decreases depth, steps.len(),
{
    steps.len() == 0 || (splits(steps[0], depth) && all_split(steps.skip(1), depth))
}

/// Whether a splitter returns on every text.
pub(crate) fn always_splits(step: &PreTokenizerWrapper, depth: usize) -> (r: bool)
    ensures
        r == splits(*step, depth as nat),
    decreases depth,
{
    match splitter_kind(step) {
        SplitterKind::Split => false,
        SplitterKind::FixedLength(length) => length > 0,
        SplitterKind::Chain(steps) => {
            if depth == 0 {
                return false;
            }
            assert(steps@.skip(0) =~= steps@);
            for i in 0..steps.len()
                invariant
                    depth > 0,
                    splitter_kind_of(*step) == SplitterKind::Chain(steps),
                    all_split(steps@, (depth - 1) as nat) == all_split(
                        steps@.skip(i as int),
                        (depth - 1) as nat,
                    ),
            {
                assert(steps@.skip(i as int)[0] == steps@[i as int]);
                assert(steps@.skip(i as int).skip(1) =~= steps@.skip(i + 1));
                if !always_splits(&steps[i], depth - 1) {
                    return false;
                }
            }
            true
        },
        _ => true,
    }
}

/// The kinds of finishers.
pub enum FinisherKind<'a> {
    Roberta,
    Bert,
    ByteLevel,
    Template,
    /// One after the other.
    Chain(&'a [PostProcessorWrapper]),
}

/// The kind of a finisher.
pub uninterp spec fn finisher_kind_of(step: PostProcessorWrapper) -> FinisherKind<'static>;

/// The variant of a `PostProcessorWrapper`, with the members of a
/// `Sequence`.
#[verifier::external_body]
fn finisher_kind(step: &PostProcessorWrapper) -> (r: FinisherKind<'_>)
    ensures
        r == finisher_kind_of(*step),
{
    match step {
        PostProcessorWrapper::Roberta(_) => FinisherKind::Roberta,
        PostProcessorWrapper::Bert(_) => FinisherKind::Bert,
        PostProcessorWrapper::ByteLevel(_) => FinisherKind::ByteLevel,
        PostProcessorWrapper::Template(_) => FinisherKind::Template,
        PostProcessorWrapper::Sequence(s) => FinisherKind::Chain(s.as_ref()),
    }
}

/// The `Debug` form of the template that a finisher applies to a single
/// text, where it applies one.
pub uninterp spec fn single_template_of(step: PostProcessorWrapper) -> Option<Seq<char>>;

/// `TemplateProcessing::get_single`: the `Debug` form of the list of pieces
/// that a single text is put together from.
#[verifier::external_body]
fn single_template(step: &PostProcessorWrapper) -> (r: Option<String>)
    ensures
        optional_text(r) == single_template_of(*step),
{
    match step {
        PostProcessorWrapper::Template(t) => Some(t.get_single()),
        _ => None,
    }
}

/// The `Debug` form of the template that a finisher applies to two texts,
/// where it applies one.
pub uninterp spec fn pair_template_of(step: PostProcessorWrapper) -> Option<Seq<char>>;

/// `TemplateProcessing::get_pair`: the list of pieces that two texts are
/// put together from, in its `Debug` form.
#[verifier::external_body]
fn pair_template(step: &PostProcessorWrapper) -> (r: Option<String>)
    ensures
        optional_text(r) == pair_template_of(*step),
{
    match step {
        PostProcessorWrapper::Template(t) => Some(format!("{:?}", t.get_pair())),
        _ => None,
    }
}

/// How many special tokens a finisher counts for the template that it
/// applies to a single text, where it applies one.
pub uninterp spec fn added_single_of(step: PostProcessorWrapper) -> Option<usize>;

/// `TemplateProcessing::get_added_single`: the number of special tokens
/// that a single text gets.
#[verifier::external_body]
fn added_single(step: &PostProcessorWrapper) -> (r: Option<usize>)
    ensures
        r == added_single_of(*step),
{
    match step {
        PostProcessorWrapper::Template(t) => Some(t.get_added_single()),
        _ => None,
    }
}

/// The characters of a `Debug` form that stand outside its string literals.
/// `quoted` says whether `s` starts inside one.
pub open spec fn outside_quotes(s: Seq<char>, quoted: bool) -> Seq<char>
    decreases s.len(),
{
    if s.len() == 0 {
        Seq::empty()
    } else if s[0] == '"' {
        outside_quotes(s.skip(1), !quoted)
    } else if !quoted {
        seq![s[0]] + outside_quotes(s.skip(1), false)
    } else if s[0] == '\\' && s.len() > 1 {
        outside_quotes(s.skip(2), true)
    } else {
        outside_quotes(s.skip(1), true)
    }
}

/// The characters of a `Debug` form that stand outside its string literals.
pub fn drop_quoted(text: &str) -> (r: Vec<char>)
    ensures
        r@ == outside_quotes(text@, false),
{
    let cs = chars_of(text);
    let mut out: Vec<char> = Vec::new();
    let mut quoted = false;
    let mut i: usize = 0;
    assert(cs@.skip(0) =~= cs@);
    assert(out@ + outside_quotes(cs@, false) =~= outside_quotes(cs@, false));
    while i < cs.len()
        invariant
            i <= cs@.len(),
            cs@ == text@,
            out@ + outside_quotes(cs@.skip(i as int), quoted) == outside_quotes(text@, false),
        decreases cs@.len() - i,
    {
        let c = cs[i];
        let ghost before = out@;
        assert(cs@.skip(i as int).skip(1) =~= cs@.skip(i + 1));
        if c == '"' {
            quoted = !quoted;
        } else if !quoted {
            out.push(c);
            assert(before + (seq![c] + outside_quotes(cs@.skip(i + 1), false)) =~= out@
                + outside_quotes(cs@.skip(i + 1), false));
        } else if c == '\\' && i + 1 < cs.len() {
            assert(cs@.skip(i as int).skip(2) =~= cs@.skip(i + 2));
            i = i + 1;
        }
        i = i + 1;
    }
    assert(out@ + Seq::empty() =~= out@);
    out
}

/// How often `part` stands in `s`.
pub open spec fn occurrences(s: Seq<char>, part: Seq<char>) -> nat
    decreases s.len(),
{
    if s.len() == 0 {
        0
    } else {
        (if part.is_prefix_of(s) {
            1nat
        } else {
            0
        }) + occurrences(s.skip(1), part)
    }
}

/// Whether `part` stands in `cs` at `at`.
fn stands_at(cs: &Vec<char>, at: usize, part: &Vec<char>) -> (r: bool)
    requires
        at <= cs@.len(),
    ensures
        r == part@.is_prefix_of(cs@.skip(at as int)),
{
    if part.len() > cs.len() - at {
        return false;
    }
    for k in 0..part.len()
        invariant
            at + part@.len() <= cs@.len(),
            cs@.len() == cs.len(),
            forall|j: int| 0 <= j < k ==> part@[j] == cs@[at + j],
    {
        if part[k] != cs[at + k] {
            assert(cs@.skip(at as int).take(part@.len() as int)[k as int] != part@[k as int]);
            return false;
        }
    }
    assert(cs@.skip(at as int).take(part@.len() as int) =~= part@);
    true
}

/// How often `part` stands in `cs`.
pub fn count_occurrences(cs: &Vec<char>, part: &str) -> (r: usize)
    ensures
        r == occurrences(cs@, part@),
{
    let part = chars_of(part);
    let mut n: usize = 0;
    assert(cs@.skip(0) =~= cs@);
    for i in 0..cs.len()
        invariant
            n <= i,
            n + occurrences(cs@.skip(i as int), part@) == occurrences(cs@, part@),
    {
        assert(cs@.skip(i as int).skip(1) =~= cs@.skip(i + 1));
        if stands_at(cs, i, &part) {
            n = n + 1;
        }
    }
    n
}

/// How a `Debug` form shows a piece that stands for a text.
pub const ANY_TEXT: &'static str = "Sequence { id: ";

/// How a `Debug` form shows a piece that stands for the first text.
pub const FIRST_TEXT: &'static str = "Sequence { id: A";

/// How a `Debug` form shows a piece that stands for the second text.
pub const SECOND_TEXT: &'static str = "Sequence { id: B";

/// How many encodings a template makes of one: one for each piece that
/// stands for the text. None where a piece stands for a second text, which
/// there is not.
pub open spec fn copies(template: Seq<char>) -> Option<nat> {
    let pieces = outside_quotes(template, false);
    if occurrences(pieces, SECOND_TEXT@) > 0 {
        None
    } else {
        Some(occurrences(pieces, FIRST_TEXT@))
    }
}

/// How many encodings a template makes of one.
pub fn template_copies(template: &str) -> (r: Option<usize>)
    ensures
        match r {
            Some(n) => copies(template@) == Some(n as nat),
            None => copies(template@) is None,
        },
{
    let pieces = drop_quoted(template);
    if count_occurrences(&pieces, SECOND_TEXT) > 0 {
        None
    } else {
        Some(count_occurrences(&pieces, FIRST_TEXT))
    }
}

/// How many encodings a finisher makes of `n`, when no special tokens are
/// to be added. None where it can panic: a template that is handed anything
/// but one encoding, or two, is not implemented, and one for a single text
/// may ask for a second.
pub open spec fn finished(step: PostProcessorWrapper, n: nat, depth: nat) -> Option<nat>
    decreases depth, 0nat,
{
    match finisher_kind_of(step) {
        FinisherKind::Template => match (single_template_of(step), pair_template_of(step)) {
            (Some(single), Some(pair)) => if n == 1 {
                copies(single)
            } else if n == 2 {
                Some(occurrences(outside_quotes(pair, false), ANY_TEXT@))
            } else {
                None
            },
            _ => None,
        },
        FinisherKind::Chain(steps) => if depth > 0 {
            all_finished(steps@, n, (depth - 1) as nat)
        } else {
            None
        },
        _ => Some(n),
    }
}

/// How many encodings finishers, one after the other, make of `n`.
pub open spec fn all_finished(steps: Seq<PostProcessorWrapper>, n: nat, depth: nat) -> Option<nat>
    decreases depth, steps.len(),
{
    if steps.len() == 0 {
        Some(n)
    } else {
        match finished(steps[0], n, depth) {
            Some(m) => all_finished(steps.skip(1), m, depth),
            None => None,
        }
    }
}

/// How many encodings a finisher makes of `n`.
pub(crate) fn finish_count(step: &PostProcessorWrapper, n: usize, depth: usize) -> (r: Option<
    usize,
>)
    ensures
        match r {
            Some(m) => finished(*step, n as nat, depth as nat) == Some(m as nat),
            None => finished(*step, n as nat, depth as nat) is None,
        },
    decreases depth,
{
    match finisher_kind(step) {
        FinisherKind::Template => match (single_template(step), pair_template(step)) {
            (Some(single), Some(pair)) => if n == 1 {
                template_copies(single.as_str())
            } else if n == 2 {
                Some(count_occurrences(&drop_quoted(pair.as_str()), ANY_TEXT))
            } else {
                None
            },
            _ => None,
        },
        FinisherKind::Chain(steps) => {
            if depth == 0 {
                return None;
            }
            let mut m: usize = n;
            assert(steps@.skip(0) =~= steps@);
            for i in 0..steps.len()
                invariant
                    depth > 0,
                    finisher_kind_of(*step) == FinisherKind::Chain(steps),
                    all_finished(steps@.skip(i as int), m as nat, (depth - 1) as nat)
                        == all_finished(steps@, n as nat, (depth - 1) as nat),
            {
                assert(steps@.skip(i as int)[0] == steps@[i as int]);
                assert(steps@.skip(i as int).skip(1) =~= steps@.skip(i + 1));
                match finish_count(&steps[i], m, depth - 1) {
                    Some(next) => {
                        m = next;
                    },
                    None => {
                        return None;
                    },
                }
            }
            Some(m)
        },
        _ => Some(n),
    }
}

/// How many special tokens a finisher counts for a single text. To add the
/// counts of a chain panics where the sum has no room.
pub open spec fn specials_counted(step: PostProcessorWrapper, depth: nat) -> nat
    decreases depth, 0nat,
{
    match finisher_kind_of(step) {
        FinisherKind::Roberta => 2,
        FinisherKind::Bert => 2,
        FinisherKind::ByteLevel => 0,
        FinisherKind::Template => match added_single_of(step) {
            Some(n) => n as nat,
            None => 0,
        },
        FinisherKind::Chain(steps) => if depth > 0 {
            all_specials_counted(steps@, (depth - 1) as nat)
        } else {
            0
        },
    }
}

/// How many special tokens finishers count together for a single text.
pub open spec fn all_specials_counted(steps: Seq<PostProcessorWrapper>, depth: nat) -> nat
    decreases depth, steps.len(),
{
    if steps.len() == 0 {
        0
    } else {
        specials_counted(steps[0], depth) + all_specials_counted(steps.skip(1), depth)
    }
}

/// How many special tokens a finisher counts for a single text. None where
/// there is no room for the number.
pub(crate) fn count_specials(step: &PostProcessorWrapper, depth: usize) -> (r: Option<usize>)
    ensures
        match r {
            Some(n) => specials_counted(*step, depth as nat) == n,
            None => specials_counted(*step, depth as nat) > usize::MAX,
        },
    decreases depth,
{
    match finisher_kind(step) {
        FinisherKind::Roberta => Some(2),
        FinisherKind::Bert => Some(2),
        FinisherKind::ByteLevel => Some(0),
        FinisherKind::Template => match added_single(step) {
            Some(n) => Some(n),
            None => Some(0),
        },
        FinisherKind::Chain(steps) => {
            if depth == 0 {
                return Some(0);
            }
            let mut sum: usize = 0;
            assert(steps@.skip(0) =~= steps@);
            for i in 0..steps.len()
                invariant
                    depth > 0,
                    finisher_kind_of(*step) == FinisherKind::Chain(steps),
                    sum + all_specials_counted(steps@.skip(i as int), (depth - 1) as nat)
                        == all_specials_counted(steps@, (depth - 1) as nat),
            {
                assert(steps@.skip(i as int)[0] == steps@[i as int]);
                assert(steps@.skip(i as int).skip(1) =~= steps@.skip(i + 1));
                match count_specials(&steps[i], depth - 1) {
                    Some(n) => match sum.checked_add(n) {
                        Some(next) => {
                            sum = next;
                        },
                        None => {
                            return None;
                        },
                    },
                    None => {
                        return None;
                    },
                }
            }
            Some(sum)
        },
    }
}

/// A chain of steps is as safe as its steps: it decodes, normalizes or
/// splits everything exactly where each of its steps does, one level of
/// nesting further in, and it can leave nothing of a text where one of them
/// can. A chain that is nested too deep is not let pass.
pub proof fn law_chains_are_as_safe_as_their_steps(
    decoder: DecoderWrapper,
    normalizer: NormalizerWrapper,
    splitter: PreTokenizerWrapper,
    depth: nat,
)
    ensures
        decoder_kind_of(decoder) matches DecoderKind::Chain(steps) ==> {
            &&& !decodes(decoder, 0)
            &&& decodes(decoder, depth + 1) <==> forall|i: int|
                0 <= i < steps@.len() ==> decodes(#[trigger] steps@[i], depth)
        },
        normalizer_kind_of(normalizer) matches NormalizerKind::Chain(steps) ==> {
            &&& !normalizes(normalizer, 0)
            &&& shrinks(normalizer, 0)
            &&& normalizes(normalizer, depth + 1) <==> forall|i: int|
                0 <= i < steps@.len() ==> normalizes(#[trigger] steps@[i], depth)
            &&& shrinks(normalizer, depth + 1) <==> exists|i: int|
                0 <= i < steps@.len() && shrinks(#[trigger] steps@[i], depth)
        },
        splitter_kind_of(splitter) matches SplitterKind::Chain(steps) ==> {
            &&& !splits(splitter, 0)
            &&& splits(splitter, depth + 1) <==> forall|i: int|
                0 <= i < steps@.len() ==> splits(#[trigger] steps@[i], depth)
        },
{
    if let DecoderKind::Chain(steps) = decoder_kind_of(decoder) {
        lemma_all_decode(steps@, depth);
    }
    if let NormalizerKind::Chain(steps) = normalizer_kind_of(normalizer) {
        lemma_all_normalize(steps@, depth);
    }
    if let SplitterKind::Chain(steps) = splitter_kind_of(splitter) {
        lemma_all_split(steps@, depth);
    }
}

/// Decoders decode everything where each does.
proof fn lemma_all_decode(steps: Seq<DecoderWrapper>, depth: nat)
    ensures
        all_decode(steps, depth) <==> forall|i: int|
            0 <= i < steps.len() ==> decodes(#[trigger] steps[i], depth),
    decreases steps.len(),
{
    if steps.len() > 0 {
        let rest = steps.skip(1);
        lemma_all_decode(rest, depth);
        assert forall|i: int| 0 <= i < rest.len() implies #[trigger] rest[i] == steps[i + 1] by {}
        if all_decode(steps, depth) {
            assert forall|i: int| 0 <= i < steps.len() implies decodes(
                #[trigger] steps[i],
                depth,
            ) by {
                if i > 0 {
                    assert(decodes(rest[i - 1], depth));
                }
            }
        }
    }
}

/// Normalizers normalize everything where each does, and can leave nothing
/// where one can.
proof fn lemma_all_normalize(steps: Seq<NormalizerWrapper>, depth: nat)
    ensures
        all_normalize(steps, depth) <==> forall|i: int|
            0 <= i < steps.len() ==> normalizes(#[trigger] steps[i], depth),
        any_shrinks(steps, depth) <==> exists|i: int|
            0 <= i < steps.len() && shrinks(#[trigger] steps[i], depth),
    decreases steps.len(),
{
    if steps.len() > 0 {
        let rest = steps.skip(1);
        lemma_all_normalize(rest, depth);
        assert forall|i: int| 0 <= i < rest.len() implies #[trigger] rest[i] == steps[i + 1] by {}
        if all_normalize(steps, depth) {
            assert forall|i: int| 0 <= i < steps.len() implies normalizes(
                #[trigger] steps[i],
                depth,
            ) by {
                if i > 0 {
                    assert(normalizes(rest[i - 1], depth));
                }
            }
        }
        if exists|i: int| 0 <= i < steps.len() && shrinks(#[trigger] steps[i], depth) {
            let i = choose|i: int| 0 <= i < steps.len() && shrinks(#[trigger] steps[i], depth);
            if i > 0 {
                assert(shrinks(rest[i - 1], depth));
            }
        }
        if any_shrinks(rest, depth) {
            let i = choose|i: int| 0 <= i < rest.len() && shrinks(#[trigger] rest[i], depth);
            assert(shrinks(steps[i + 1], depth));
        }
    }
}

/// Splitters split everything where each does.
proof fn lemma_all_split(steps: Seq<PreTokenizerWrapper>, depth: nat)
    ensures
        all_split(steps, depth) <==> forall|i: int|
            0 <= i < steps.len() ==> splits(#[trigger] steps[i], depth),
    decreases steps.len(),
{
    if steps.len() > 0 {
        let rest = steps.skip(1);
        lemma_all_split(rest, depth);
        assert forall|i: int| 0 <= i < rest.len() implies #[trigger] rest[i] == steps[i + 1] by {}
        if all_split(steps, depth) {
            assert forall|i: int| 0 <= i < steps.len() implies splits(
                #[trigger] steps[i],
                depth,
            ) by {
                if i > 0 {
                    assert(splits(rest[i - 1], depth));
                }
            }
        }
    }
}

/// What stands outside string literals is kept and what stands inside is
/// dropped: plain text in front of a literal stays, the literal goes with
/// its quotes, and what is behind it is read on its own. Escaped characters
/// do not end a literal.
pub proof fn law_literals_are_dropped(
    plain: Seq<char>,
    inner: Seq<char>,
    behind: Seq<char>,
    c: char,
)
    requires
        !plain.contains('"'),
        !inner.contains('"'),
        !inner.contains('\\'),
    ensures
        outside_quotes(plain + behind, false) == plain + outside_quotes(behind, false),
        outside_quotes(seq!['"'] + inner + seq!['"'] + behind, false) == outside_quotes(
            behind,
            false,
        ),
        outside_quotes(inner + seq!['\\', c] + behind, true) == outside_quotes(behind, true),
{
    lemma_plain_is_kept(plain, behind);
    let literal = seq!['"'] + inner + seq!['"'] + behind;
    assert(literal.skip(1) =~= inner + (seq!['"'] + behind));
    lemma_inner_is_dropped(inner, seq!['"'] + behind);
    assert((seq!['"'] + behind).skip(1) =~= behind);
    let escaped = seq!['\\', c] + behind;
    assert(inner + seq!['\\', c] + behind =~= inner + escaped);
    lemma_inner_is_dropped(inner, escaped);
    assert(escaped.skip(2) =~= behind);
}

/// Text without quotes outside a literal is kept.
proof fn lemma_plain_is_kept(plain: Seq<char>, behind: Seq<char>)
    requires
        !plain.contains('"'),
    ensures
        outside_quotes(plain + behind, false) == plain + outside_quotes(behind, false),
    decreases plain.len(),
{
    let all = plain + behind;
    if plain.len() == 0 {
        assert(all =~= behind);
        assert(plain + outside_quotes(behind, false) =~= outside_quotes(behind, false));
    } else {
        let rest = plain.skip(1);
        assert(plain.contains(plain[0]));
        assert(!rest.contains('"')) by {
            if rest.contains('"') {
                let i = choose|i: int| 0 <= i < rest.len() && rest[i] == '"';
                assert(plain[i + 1] == '"');
            }
        }
        assert(all.skip(1) =~= rest + behind);
        lemma_plain_is_kept(rest, behind);
        assert(outside_quotes(all, false) =~= plain + outside_quotes(behind, false));
    }
}

/// Text without quotes or escapes inside a literal is dropped.
proof fn lemma_inner_is_dropped(inner: Seq<char>, behind: Seq<char>)
    requires
        !inner.contains('"'),
        !inner.contains('\\'),
    ensures
        outside_quotes(inner + behind, true) == outside_quotes(behind, true),
    decreases inner.len(),
{
    let all = inner + behind;
    if inner.len() == 0 {
        assert(all =~= behind);
    } else {
        let rest = inner.skip(1);
        assert(inner.contains(inner[0]));
        assert(!rest.contains('"') && !rest.contains('\\')) by {
            if rest.contains('"') {
                let i = choose|i: int| 0 <= i < rest.len() && rest[i] == '"';
                assert(inner[i + 1] == '"');
            }
            if rest.contains('\\') {
                let i = choose|i: int| 0 <= i < rest.len() && rest[i] == '\\';
                assert(inner[i + 1] == '\\');
            }
        }
        assert(all.skip(1) =~= rest + behind);
        lemma_inner_is_dropped(rest, behind);
    }
}

/// A part is counted wherever it stands, and nowhere else.
pub proof fn law_parts_are_counted_where_they_stand(s: Seq<char>, part: Seq<char>)
    ensures
        occurrences(s, part) <= s.len(),
        occurrences(s, part) > 0 <==> exists|i: int|
            0 <= i < s.len() && part.is_prefix_of(#[trigger] s.skip(i)),
        s.len() > 0 ==> occurrences(s, part) - occurrences(s.skip(1), part) == if s.take(
            part.len() as int,
        ) == part && part.len() <= s.len() {
            1int
        } else {
            0
        },
    decreases s.len(),
{
    if s.len() > 0 {
        let rest = s.skip(1);
        law_parts_are_counted_where_they_stand(rest, part);
        assert(s.skip(0) =~= s);
        if exists|i: int| 0 <= i < s.len() && part.is_prefix_of(#[trigger] s.skip(i)) {
            let i = choose|i: int| 0 <= i < s.len() && part.is_prefix_of(#[trigger] s.skip(i));
            if i > 0 {
                assert(rest.skip(i - 1) =~= s.skip(i));
                assert(part.is_prefix_of(rest.skip(i - 1)));
            }
        }
        if occurrences(rest, part) > 0 {
            let i = choose|i: int|
                0 <= i < rest.len() && part.is_prefix_of(#[trigger] rest.skip(i));
            assert(rest.skip(i) =~= s.skip(i + 1));
            assert(part.is_prefix_of(s.skip(i + 1)));
        }
        if part.is_prefix_of(s) {
            assert(part.is_prefix_of(s.skip(0)));
            assert(s.take(part.len() as int) =~= part);
        }
    }
}

/// Finishers run one after the other, each on as many encodings as the ones
/// before it made, and the special tokens that they count add up.
pub proof fn law_finishers_run_in_order(
    a: Seq<PostProcessorWrapper>,
    b: Seq<PostProcessorWrapper>,
    n: nat,
    depth: nat,
)
    ensures
        all_finished(a + b, n, depth) == match all_finished(a, n, depth) {
            Some(m) => all_finished(b, m, depth),
            None => None,
        },
        all_specials_counted(a + b, depth) == all_specials_counted(a, depth)
            + all_specials_counted(b, depth),
    decreases a.len(),
{
    let all = a + b;
    if a.len() == 0 {
        assert(all =~= b);
    } else {
        assert(all.skip(1) =~= a.skip(1) + b);
        match finished(a[0], n, depth) {
            Some(m) => {
                law_finishers_run_in_order(a.skip(1), b, m, depth);
            },
            None => {
                law_finishers_run_in_order(a.skip(1), b, n, depth);
            },
        }
    }
}

/// A finisher that adds nothing by itself leaves as many encodings as it is
/// given; two special tokens are counted for those that frame a text.
pub proof fn law_plain_finishers_keep_encodings(step: PostProcessorWrapper, n: nat, depth: nat)
    ensures
        finisher_kind_of(step) is ByteLevel ==> finished(step, n, depth) == Some(n)
            && specials_counted(step, depth) == 0,
        finisher_kind_of(step) is Bert || finisher_kind_of(step) is Roberta ==> finished(
            step,
            n,
            depth,
        ) == Some(n) && specials_counted(step, depth) == 2,
        finisher_kind_of(step) is Template && n != 1 && n != 2 ==> finished(step, n, depth) is None,
{
}

} // verus!
