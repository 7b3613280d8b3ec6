//! Word-level alignment.
//!
//! The model aligns the text tokens of a chunk with encoder frames. From
//! that, tokens are merged into the smallest runs that decode to complete
//! characters, runs are grouped into words on leading spaces and isolated
//! punctuation (or kept one per word for languages written without spaces),
//! and the raw boundaries are corrected:
//!
//! 1. Words that absorbed silence are capped at twice the median word
//!    duration where they border a sentence-end mark.
//! 2. Standalone punctuation is folded into the adjacent word.
//! 3. The first and last word of a sub-segment are snapped to its own
//!    timestamps where they clearly overshoot.
//!
//! The type of a token's probability is left open; probabilities are only
//! carried along.

use vstd::prelude::*;
use vstd::string::*;

use crate::errors::{
    after, lemma_after_all, lemma_after_more, lemma_after_nothing, lemma_after_push,
    uncategorized, CauseView, Error,
};
use crate::text::{
    chars_of, has_char, leads_with_space, same_text, sole_char, sole_char_of, starts_with_space,
};
use crate::tokenizer::{decoded, TextTokenizer};
use crate::tokens::{
    decode_ids, language_code, language_code_of, law_language_code_round_trip, lemma_narrowed,
    narrow_ids, narrowed, plain_text,
};

verus! {

/// One step of the alignment path: a token and the encoder frame it falls
/// on.
#[derive(Clone, Copy, Debug)]
pub struct TokenAlignment {
    pub token_x: i64,
    pub frame_x: i64,
}

/// The frame of a step; negative frames count as the first.
pub open spec fn frame_at(step: TokenAlignment) -> u64 {
    if step.frame_x < 0 {
        0
    } else {
        step.frame_x as u64
    }
}

/// The frame of the first step on token `k`, where the path has one.
pub open spec fn entry_frame(path: Seq<TokenAlignment>, k: int) -> Option<u64>
    decreases path.len(),
{
    if path.len() == 0 {
        None
    } else if path[0].token_x == k {
        Some(frame_at(path[0]))
    } else {
        entry_frame(path.skip(1), k)
    }
}

/// The frame of token `k`. A token that the path misses takes the frame of
/// the token before it.
pub open spec fn token_frame(path: Seq<TokenAlignment>, k: int) -> u64
    decreases k,
{
    match entry_frame(path, k) {
        Some(frame) => frame,
        None => if k <= 0 {
            0
        } else {
            token_frame(path, k - 1)
        },
    }
}

/// The least frame among the steps on token `k`, where the path has one.
pub open spec fn least_frame(path: Seq<TokenAlignment>, k: int) -> Option<u64>
    decreases path.len(),
{
    if path.len() == 0 {
        None
    } else {
        let earlier = least_frame(path.drop_last(), k);
        if path.last().token_x != k {
            earlier
        } else {
            match earlier {
                Some(frame) if frame <= frame_at(path.last()) => Some(frame),
                _ => Some(frame_at(path.last())),
            }
        }
    }
}

/// A step added to a path gives a token its frame only where it had none.
proof fn lemma_entry_frame_push(path: Seq<TokenAlignment>, step: TokenAlignment, k: int)
    ensures
        entry_frame(path.push(step), k) == match entry_frame(path, k) {
            Some(frame) => Some(frame),
            None => if step.token_x == k {
                Some(frame_at(step))
            } else {
                None
            },
        },
    decreases path.len(),
{
    if path.len() == 0 {
        assert(path.push(step).skip(1) =~= path);
    } else {
        assert(path.push(step).skip(1) =~= path.skip(1).push(step));
        lemma_entry_frame_push(path.skip(1), step, k);
    }
}

/// The frame on which a path enters a token is that of a step.
proof fn lemma_entry_frame_bound(path: Seq<TokenAlignment>, k: int)
    ensures
        entry_frame(path, k) matches Some(frame) ==> frame <= i64::MAX,
    decreases path.len(),
{
    if path.len() > 0 {
        lemma_entry_frame_bound(path.skip(1), k);
    }
}

/// The frame of a token is that of a step.
proof fn lemma_token_frame_bound(path: Seq<TokenAlignment>, k: int)
    ensures
        token_frame(path, k) <= i64::MAX,
    decreases k,
{
    lemma_entry_frame_bound(path, k);
    if k > 0 {
        lemma_token_frame_bound(path, k - 1);
    }
}

/// For each of `n_tokens` text tokens, the first encoder frame the path
/// assigns to it. Tokens missing from the path inherit the frame of the
/// token before.
///
/// The second value is the first frame of the row after the last token:
/// the end-of-text token is aligned too, and where the path enters its row
/// the last word ends. Later rows are padding and are ignored.
pub fn token_first_frames(alignments: &[TokenAlignment], n_tokens: usize) -> (r: (
    Vec<u64>,
    Option<u64>,
))
    ensures
        r.0@.len() == n_tokens,
        forall|k: int| 0 <= k < n_tokens ==> #[trigger] r.0@[k] == token_frame(alignments@, k),
        forall|k: int| 0 <= k < n_tokens ==> #[trigger] r.0@[k] <= i64::MAX,
        r.1 == least_frame(alignments@, n_tokens as int),
{
    let mut found: Vec<Option<u64>> = Vec::new();
    for i in 0..n_tokens
        invariant
            found@.len() == i,
            forall|k: int| 0 <= k < i ==> #[trigger] found@[k] == None::<u64>,
    {
        found.push(None);
    }
    let mut eot_frame: Option<u64> = None;
    assert(alignments@.take(0) =~= Seq::empty());
    for i in 0..alignments.len()
        invariant
            found@.len() == n_tokens,
            forall|k: int|
                0 <= k < n_tokens ==> #[trigger] found@[k] == entry_frame(
                    alignments@.take(i as int),
                    k,
                ),
            eot_frame == least_frame(alignments@.take(i as int), n_tokens as int),
    {
        let step = alignments[i];
        let frame: u64 = if step.frame_x < 0 {
            0
        } else {
            step.frame_x as u64
        };
        let ghost before = found@;
        assert(alignments@.take(i + 1) =~= alignments@.take(i as int).push(step));
        assert(alignments@.take(i + 1).drop_last() =~= alignments@.take(i as int));
        if step.token_x >= 0 {
            let row: u64 = step.token_x as u64;
            if row < n_tokens as u64 {
                let at: usize = row as usize;
                if found[at].is_none() {
                    found.set(at, Some(frame));
                }
            } else if row == n_tokens as u64 {
                eot_frame = match eot_frame {
                    Some(earlier) if earlier <= frame => Some(earlier),
                    _ => Some(frame),
                };
            }
        }
        assert forall|k: int| 0 <= k < n_tokens implies #[trigger] found@[k] == entry_frame(
            alignments@.take(i + 1),
            k,
        ) by {
            lemma_entry_frame_push(alignments@.take(i as int), step, k);
            assert(before[k] == entry_frame(alignments@.take(i as int), k));
        }
    }
    assert(alignments@.take(alignments@.len() as int) =~= alignments@);
    let mut out: Vec<u64> = Vec::new();
    let mut last: u64 = 0;
    for i in 0..n_tokens
        invariant
            found@.len() == n_tokens,
            forall|k: int|
                0 <= k < n_tokens ==> #[trigger] found@[k] == entry_frame(alignments@, k),
            out@.len() == i,
            forall|k: int| 0 <= k < i ==> #[trigger] out@[k] == token_frame(alignments@, k),
            forall|k: int| 0 <= k < i ==> #[trigger] out@[k] <= i64::MAX,
            last == if i == 0 {
                0
            } else {
                token_frame(alignments@, i - 1)
            },
    {
        assert(found@[i as int] == entry_frame(alignments@, i as int));
        if let Some(frame) = found[i] {
            last = frame;
        }
        proof {
            lemma_token_frame_bound(alignments@, i as int);
        }
        out.push(last);
    }
    (out, eot_frame)
}

/// Whether words of a language are split on characters alone: it is
/// written without spaces between words.
pub open spec fn spaceless(code: Seq<char>) -> bool {
    ||| code == "zh"@
    ||| code == "ja"@
    ||| code == "th"@
    ||| code == "lo"@
    ||| code == "my"@
    ||| code == "yue"@
}

/// Whether words of a language are split on characters alone, by the
/// language's token.
pub fn splits_words_on_unicode_only(language_token: &str) -> (r: bool)
    ensures
        r == spaceless(language_code_of(language_token@)),
{
    let code = language_code(language_token);
    same_text(code, "zh") || same_text(code, "ja") || same_text(code, "th") || same_text(code, "lo")
        || same_text(code, "my") || same_text(code, "yue")
}

/// The punctuation characters of ASCII.
pub open spec fn ascii_punctuation(c: char) -> bool {
    ||| '!' <= c <= '/'
    ||| ':' <= c <= '@'
    ||| '[' <= c <= '`'
    ||| '{' <= c <= '~'
}

/// Whether a text is one ASCII punctuation character, white space aside.
pub open spec fn isolated_punct(text: Seq<char>) -> bool {
    match sole_char_of(text) {
        Some(c) => ascii_punctuation(c),
        None => false,
    }
}

/// Whether a text is one ASCII punctuation character, white space aside.
pub fn is_isolated_punct(s: &str) -> (r: bool)
    ensures
        r == isolated_punct(s@),
{
    match sole_char(s) {
        Some(c) => ('!' <= c && c <= '/') || (':' <= c && c <= '@') || ('[' <= c && c <= '`') || (
        '{' <= c && c <= '~'),
        None => false,
    }
}

/// Whether a text is one character of `set`, white space aside.
pub open spec fn single_member(text: Seq<char>, set: Seq<char>) -> bool {
    match sole_char_of(text) {
        Some(c) => set.contains(c),
        None => false,
    }
}

/// Whether a text is one character of `set`, white space aside.
pub fn is_single_char_member(s: &str, set: &str) -> (r: bool)
    ensures
        r == single_member(s@, set@),
{
    match sole_char(s) {
        Some(c) => has_char(set, c),
        None => false,
    }
}

/// What a decoder shows for bytes that are no character.
pub const REPLACEMENT_CHAR: char = '\u{FFFD}';

/// The smallest run of tokens that decodes to complete characters: its
/// text, and the range of its tokens in the chunk.
#[derive(Debug)]
pub struct SubWord {
    pub text: String,
    pub start: usize,
    pub end: usize,
}

/// What a [`SubWord`] holds.
#[verifier::ext_equal]
pub struct SubWordView {
    pub text: Seq<char>,
    pub start: nat,
    pub end: nat,
}

impl View for SubWord {
    type V = SubWordView;

    open spec fn view(&self) -> SubWordView {
        SubWordView { text: self.text@, start: self.start as nat, end: self.end as nat }
    }
}

/// The contents of a list of runs.
pub open spec fn runs_of(list: Seq<SubWord>) -> Seq<SubWordView> {
    list.map_values(|s: SubWord| s@)
}

/// Whether the text of the tokens so far ends inside a character: it shows
/// a replacement character where the text of the whole sub-segment, whose
/// first `offset` characters are done with, has none.
pub open spec fn dangling(text: Seq<char>, full: Seq<char>, offset: nat) -> bool {
    match text.index_of_first(REPLACEMENT_CHAR) {
        Some(at) => !(offset + at < full.len() && full[offset + at] == REPLACEMENT_CHAR),
        None => false,
    }
}

/// Whether the text of the tokens so far ends inside a character.
pub fn is_dangling(text: &str, full: &Vec<char>, offset: usize) -> (r: bool)
    ensures
        r == dangling(text@, full@, offset as nat),
{
    let cs = chars_of(text);
    proof {
        text@.index_of_first_ensures(REPLACEMENT_CHAR);
    }
    for at in 0..cs.len()
        invariant
            cs@ == text@,
            forall|j: int| 0 <= j < at ==> cs@[j] != REPLACEMENT_CHAR,
    {
        if cs[at] == REPLACEMENT_CHAR {
            proof {
                text@.index_of_first_ensures(REPLACEMENT_CHAR);
                assert(text@.contains(REPLACEMENT_CHAR)) by {
                    assert(text@[at as int] == REPLACEMENT_CHAR);
                }
            }
            return !(offset < full.len() && at < full.len() - offset && full[offset + at]
                == REPLACEMENT_CHAR);
        }
    }
    false
}

/// The runs of `ids` from `from` on, with the ids from `from` to `pos`
/// already seen to end inside a character. `decode` says what ids decode
/// to, `full` is the text of all of them, `offset` how many of its
/// characters earlier runs took, and `base` where the ids stand in their
/// chunk. Ids that never complete a character are a run of their own.
pub open spec fn runs(
    decode: spec_fn(Seq<u32>) -> Result<Seq<char>, Seq<char>>,
    full: Seq<char>,
    ids: Seq<u32>,
    base: nat,
    from: nat,
    pos: nat,
    offset: nat,
) -> Result<Seq<SubWordView>, Seq<CauseView>>
    decreases ids.len() - pos,
{
    if pos >= ids.len() {
        if from >= ids.len() {
            Ok(Seq::empty())
        } else {
            match plain_text(decode(ids.skip(from as int))) {
                Ok(text) => Ok(
                    seq![SubWordView { text, start: base + from, end: base + ids.len() }],
                ),
                Err(e) => Err(e),
            }
        }
    } else {
        match plain_text(decode(ids.subrange(from as int, pos as int + 1))) {
            Ok(text) => if dangling(text, full, offset) {
                runs(decode, full, ids, base, from, pos + 1, offset)
            } else {
                after(
                    seq![SubWordView { text, start: base + from, end: base + pos + 1 }],
                    runs(decode, full, ids, base, pos + 1, pos + 1, offset + text.len()),
                )
            },
            Err(e) => Err(e),
        }
    }
}

/// What the tokenizer decodes ids to.
pub open spec fn decoder(tokenizer: tokenizers::Tokenizer) -> spec_fn(Seq<u32>) -> Result<
    Seq<char>,
    Seq<char>,
> {
    |ids: Seq<u32>| decoded(tokenizer, ids)
}

/// The runs of the tokens `start` to `end`.
pub open spec fn span_runs(
    decode: spec_fn(Seq<u32>) -> Result<Seq<char>, Seq<char>>,
    token_ids: Seq<usize>,
    start: nat,
    end: nat,
) -> Result<Seq<SubWordView>, Seq<CauseView>> {
    match narrowed(token_ids.subrange(start as int, end as int)) {
        Err(e) => Err(e),
        Ok(ids) => match plain_text(decode(ids)) {
            Err(e) => Err(e),
            Ok(full) => runs(decode, full, ids, start, 0, 0, 0),
        },
    }
}

/// Splits the tokens `start` to `end` into the smallest runs that decode to
/// complete characters: tokens are taken in until their text no longer ends
/// inside a character.
pub fn split_tokens_on_unicode(
    tokenizer: &TextTokenizer,
    token_ids: &[usize],
    start: usize,
    end: usize,
) -> (r: Result<Vec<SubWord>, Error>)
    requires
        start <= end <= token_ids@.len(),
    ensures
        match r {
            Ok(list) => span_runs(decoder(tokenizer@), token_ids@, start as nat, end as nat)
                == Ok::<_, Seq<CauseView>>(runs_of(list@)),
            Err(e) => span_runs(decoder(tokenizer@), token_ids@, start as nat, end as nat) == Err::<
                Seq<SubWordView>,
                _,
            >(e@),
        },
{
    let ids = narrow_ids(vstd::slice::slice_subrange(token_ids, start, end))?;
    let full = chars_of(decode_ids(tokenizer, ids.as_slice())?.as_str());
    proof {
        lemma_narrowed(token_ids@.subrange(start as int, end as int));
    }
    let ghost decode = decoder(tokenizer@);
    let ghost whole = runs(decode, full@, ids@, start as nat, 0, 0, 0);
    let mut out: Vec<SubWord> = Vec::new();
    let mut from: usize = 0;
    let mut offset: usize = 0;
    let ghost mut taken: nat = 0;
    proof {
        lemma_after_nothing(runs_of(out@), whole);
    }
    for pos in 0..ids.len()
        invariant
            from <= pos,
            ids@.len() == end - start,
            start <= end,
            decode == decoder(tokenizer@),
            offset == if taken <= usize::MAX {
                taken as int
            } else {
                usize::MAX as int
            },
            whole == after(
                runs_of(out@),
                runs(decode, full@, ids@, start as nat, from as nat, pos as nat, taken),
            ),
            span_runs(decoder(tokenizer@), token_ids@, start as nat, end as nat) == whole,
    {
        let current = vstd::slice::slice_subrange(ids.as_slice(), from, pos + 1);
        let text = decode_ids(tokenizer, current)?;
        proof {
            text@.index_of_first_ensures(REPLACEMENT_CHAR);
            assert(full@.len() == full.len());
            assert(dangling(text@, full@, offset as nat) == dangling(text@, full@, taken));
        }
        if !is_dangling(text.as_str(), &full, offset) {
            let taken_chars: usize = text.as_str().unicode_len();
            let ghost found = runs_of(out@);
            let ghost later = runs(
                decode,
                full@,
                ids@,
                start as nat,
                pos as nat + 1,
                pos as nat + 1,
                taken + text@.len(),
            );
            proof {
                taken = taken + text@.len();
            }
            offset = offset.saturating_add(taken_chars);
            out.push(SubWord { text, start: start + from, end: start + pos + 1 });
            assert(runs_of(out@) =~= found.push(out@.last()@));
            proof {
                lemma_after_push(found, out@.last()@, later);
            }
            from = pos + 1;
        }
    }
    if from < ids.len() {
        let current = vstd::slice::slice_subrange(ids.as_slice(), from, ids.len());
        assert(current@ =~= ids@.skip(from as int));
        let text = decode_ids(tokenizer, current)?;
        let ghost found = runs_of(out@);
        out.push(SubWord { text, start: start + from, end });
        assert(runs_of(out@) =~= found.push(out@.last()@));
        assert(found + seq![out@.last()@] =~= runs_of(out@));
    } else {
        proof {
            lemma_after_all(runs_of(out@));
        }
    }
    Ok(out)
}

/// One word before punctuation is merged. Frames are encoder frames of the
/// chunk.
#[derive(Debug)]
pub struct PreWord<P> {
    pub text: String,
    pub tokens: Vec<u32>,
    pub probs: Vec<P>,
    pub start_frame: u64,
    /// Where the next word starts, or where the text ends.
    pub end_frame: u64,
    pub subsegment_idx: usize,
}

/// What a [`PreWord`] holds.
#[verifier::ext_equal]
pub struct PreWordView<P> {
    pub text: Seq<char>,
    pub tokens: Seq<u32>,
    pub probs: Seq<P>,
    pub start: u64,
    pub end: u64,
    pub sub: usize,
}

impl<P> View for PreWord<P> {
    type V = PreWordView<P>;

    open spec fn view(&self) -> PreWordView<P> {
        PreWordView {
            text: self.text@,
            tokens: self.tokens@,
            probs: self.probs@,
            start: self.start_frame,
            end: self.end_frame,
            sub: self.subsegment_idx,
        }
    }
}

impl<P> PreWordView<P> {
    /// The frames the word lasts.
    pub open spec fn duration(self) -> u64 {
        if self.end >= self.start {
            (self.end - self.start) as u64
        } else {
            0
        }
    }
}

impl<P> PreWord<P> {
    /// The frames the word lasts.
    pub fn duration_frames(&self) -> (r: u64)
        ensures
            r == self@.duration(),
    {
        self.end_frame.saturating_sub(self.start_frame)
    }
}

/// The contents of a list of words.
pub open spec fn pre_words_of<P>(list: Seq<PreWord<P>>) -> Seq<PreWordView<P>> {
    list.map_values(|w: PreWord<P>| w@)
}

/// One part of each word, put together in order.
pub open spec fn gathered<P, T>(
    words: Seq<PreWordView<P>>,
    part: spec_fn(PreWordView<P>) -> Seq<T>,
) -> Seq<T> {
    words.map_values(part).flatten()
}

/// The text of all words together.
pub open spec fn text_of<P>(words: Seq<PreWordView<P>>) -> Seq<char> {
    gathered(words, |w: PreWordView<P>| w.text)
}

/// The tokens of all words together.
pub open spec fn tokens_of<P>(words: Seq<PreWordView<P>>) -> Seq<u32> {
    gathered(words, |w: PreWordView<P>| w.tokens)
}

/// The probabilities of all tokens of all words together.
pub open spec fn probs_of<P>(words: Seq<PreWordView<P>>) -> Seq<P> {
    gathered(words, |w: PreWordView<P>| w.probs)
}

/// What two lists of words have together is what the one has, then what the
/// other has.
pub proof fn lemma_gathered_concat<P, T>(
    a: Seq<PreWordView<P>>,
    b: Seq<PreWordView<P>>,
    part: spec_fn(PreWordView<P>) -> Seq<T>,
)
    ensures
        gathered(a + b, part) == gathered(a, part) + gathered(b, part),
{
    assert((a + b).map_values(part) =~= a.map_values(part) + b.map_values(part));
    vstd::seq_lib::lemma_flatten_concat(a.map_values(part), b.map_values(part));
}

/// What a single word has.
pub proof fn lemma_gathered_one<P, T>(
    word: PreWordView<P>,
    part: spec_fn(PreWordView<P>) -> Seq<T>,
)
    ensures
        gathered(seq![word], part) == part(word),
{
    let one = seq![word].map_values(part);
    assert(one[0] == part(word));
    one.lemma_flatten_one_element();
}

/// What the tokens of a chunk come with: their ids, their probabilities,
/// and the frames they start on.
pub struct Aligned<'a, P> {
    pub ids: &'a [usize],
    pub probs: &'a [P],
    pub frames: &'a [u64],
}

/// What an [`Aligned`] holds.
#[verifier::ext_equal]
pub struct AlignedView<P> {
    pub ids: Seq<usize>,
    pub probs: Seq<P>,
    pub frames: Seq<u64>,
}

impl<P> View for Aligned<'_, P> {
    type V = AlignedView<P>;

    open spec fn view(&self) -> AlignedView<P> {
        AlignedView { ids: self.ids@, probs: self.probs@, frames: self.frames@ }
    }
}

impl<P> AlignedView<P> {
    /// Each token has a probability and a frame, and no frame is the last
    /// that can be counted.
    pub open spec fn wf(self) -> bool {
        &&& self.probs.len() >= self.ids.len()
        &&& self.frames.len() >= self.ids.len()
        &&& forall|i: int| 0 <= i < self.frames.len() ==> #[trigger] self.frames[i] < u64::MAX
    }

    /// The ids of the tokens of a run.
    pub open spec fn run_ids(self, run: SubWordView) -> Seq<u32> {
        self.ids.subrange(run.start as int, run.end as int).map_values(|id: usize| id as u32)
    }

    /// The probabilities of the tokens of a run.
    pub open spec fn run_probs(self, run: SubWordView) -> Seq<P> {
        self.probs.subrange(run.start as int, run.end as int)
    }

    /// The word that a run alone makes up.
    pub open spec fn new_word(self, run: SubWordView, sub: usize) -> PreWordView<P> {
        PreWordView {
            text: run.text,
            tokens: self.run_ids(run),
            probs: self.run_probs(run),
            start: self.frames[run.start as int],
            end: self.frames[run.start as int],
            sub,
        }
    }

    /// A word with a further run added.
    pub open spec fn longer_word(self, word: PreWordView<P>, run: SubWordView) -> PreWordView<P> {
        PreWordView {
            text: word.text + run.text,
            tokens: word.tokens + self.run_ids(run),
            probs: word.probs + self.run_probs(run),
            ..word
        }
    }

    /// The words that the runs of sub-segment `sub` make up.
    pub open spec fn grouped(
        self,
        runs: Seq<SubWordView>,
        sub: usize,
        unicode_only: bool,
    ) -> Seq<PreWordView<P>>
        decreases runs.len(),
    {
        if runs.len() == 0 {
            Seq::empty()
        } else {
            let words = self.grouped(runs.drop_last(), sub, unicode_only);
            let run = runs.last();
            if words.len() > 0 && !starts_word(run.text, unicode_only) {
                words.drop_last().push(self.longer_word(words.last(), run))
            } else {
                words.push(self.new_word(run, sub))
            }
        }
    }
}

/// Whether a run starts a new word: always where words are split on
/// characters alone, and otherwise when it has a leading space or is an
/// isolated punctuation mark.
pub open spec fn starts_word(text: Seq<char>, unicode_only: bool) -> bool {
    unicode_only || leads_with_space(text) || isolated_punct(text)
}

/// The tokens of one sub-segment.
#[derive(Clone, Copy, Debug)]
pub struct Span {
    pub start: usize,
    pub end: usize,
}

/// Whether every run lies inside the first `n` tokens.
pub open spec fn runs_within(runs: Seq<SubWordView>, n: nat) -> bool {
    forall|i: int|
        0 <= i < runs.len() ==> (#[trigger] runs[i]).start < runs[i].end && runs[i].end <= n
}

/// Appends the token ids and probabilities of a run.
fn append_tokens<P: Copy>(
    aligned: &Aligned<'_, P>,
    run: &SubWord,
    tokens: &mut Vec<u32>,
    probs: &mut Vec<P>,
)
    requires
        aligned@.wf(),
        run.start <= run.end <= aligned.ids@.len(),
    ensures
        final(tokens)@ == old(tokens)@ + aligned@.run_ids(run@),
        final(probs)@ == old(probs)@ + aligned@.run_probs(run@),
{
    assert(tokens@ =~= old(tokens)@ + aligned@.run_ids(run@).take(0));
    assert(probs@ =~= old(probs)@ + aligned@.run_probs(run@).take(0));
    for i in run.start..run.end
        invariant
            aligned@.wf(),
            run.start <= i <= run.end <= aligned.ids@.len(),
            tokens@ == old(tokens)@ + aligned@.run_ids(run@).take(i - run.start),
            probs@ == old(probs)@ + aligned@.run_probs(run@).take(i - run.start),
    {
        tokens.push(aligned.ids[i] as u32);
        probs.push(aligned.probs[i]);
        let ghost n = i - run.start;
        assert(aligned@.run_ids(run@).take(n + 1) =~= aligned@.run_ids(run@).take(n).push(
            aligned.ids@[i as int] as u32,
        ));
        assert(aligned@.run_probs(run@).take(n + 1) =~= aligned@.run_probs(run@).take(n).push(
            aligned.probs@[i as int],
        ));
        assert(tokens@ =~= old(tokens)@ + aligned@.run_ids(run@).take(n + 1));
        assert(probs@ =~= old(probs)@ + aligned@.run_probs(run@).take(n + 1));
    }
    assert(aligned@.run_ids(run@).take(run.end - run.start) =~= aligned@.run_ids(run@));
    assert(aligned@.run_probs(run@).take(run.end - run.start) =~= aligned@.run_probs(run@));
}

/// Groups the runs of one sub-segment into words, which go to the end of
/// `words`.
pub fn group_runs<P: Copy>(
    aligned: &Aligned<'_, P>,
    runs: &Vec<SubWord>,
    sub: usize,
    unicode_only: bool,
    words: &mut Vec<PreWord<P>>,
)
    requires
        aligned@.wf(),
        runs_within(runs_of(runs@), aligned.ids@.len()),
    ensures
        pre_words_of(final(words)@) == pre_words_of(old(words)@) + aligned@.grouped(
            runs_of(runs@),
            sub,
            unicode_only,
        ),
{
    let ghost before = pre_words_of(words@);
    let ghost all = runs_of(runs@);
    let mut current: Option<PreWord<P>> = None;
    let ghost mut done: Seq<PreWordView<P>> = Seq::empty();
    assert(pre_words_of(words@) =~= before + done);
    for i in 0..runs.len()
        invariant
            aligned@.wf(),
            all == runs_of(runs@),
            runs_within(all, aligned.ids@.len()),
            pre_words_of(words@) == before + done,
            aligned@.grouped(all.take(i as int), sub, unicode_only) == match current {
                Some(w) => done.push(w@),
                None => done,
            },
            current is None ==> done.len() == 0,
    {
        let run = &runs[i];
        assert(all[i as int] == run@);
        assert(all.take(i + 1).drop_last() =~= all.take(i as int));
        let starts = unicode_only || starts_with_space(run.text.as_str()) || is_isolated_punct(
            run.text.as_str(),
        );
        let ghost so_far = aligned@.grouped(all.take(i as int), sub, unicode_only);
        match current {
            Some(word) if !starts => {
                let ghost old_word = word@;
                let mut word = word;
                word.text.append(run.text.as_str());
                append_tokens(aligned, run, &mut word.tokens, &mut word.probs);
                assert(word@ =~= aligned@.longer_word(old_word, run@));
                assert(so_far.drop_last() =~= done);
                current = Some(word);
            },
            pending => {
                if let Some(word) = pending {
                    let ghost held = words@;
                    proof {
                        done = done.push(word@);
                    }
                    words.push(word);
                    assert(pre_words_of(words@) =~= pre_words_of(held).push(words@.last()@));
                    assert(pre_words_of(words@) =~= before + done);
                }
                let mut tokens: Vec<u32> = Vec::new();
                let mut probs: Vec<P> = Vec::new();
                append_tokens(aligned, run, &mut tokens, &mut probs);
                let frame: u64 = aligned.frames[run.start];
                let word = PreWord {
                    text: run.text.clone(),
                    tokens,
                    probs,
                    start_frame: frame,
                    end_frame: frame,
                    subsegment_idx: sub,
                };
                assert(word@ =~= aligned@.new_word(run@, sub));
                current = Some(word);
            },
        }
    }
    assert(all.take(all.len() as int) =~= all);
    if let Some(word) = current {
        let ghost held = words@;
        words.push(word);
        assert(pre_words_of(words@) =~= pre_words_of(held).push(words@.last()@));
        assert(pre_words_of(words@) =~= before + done.push(words@.last()@));
    }
}

/// Runs are never empty and stay inside their ids.
proof fn lemma_runs_within(
    decode: spec_fn(Seq<u32>) -> Result<Seq<char>, Seq<char>>,
    full: Seq<char>,
    ids: Seq<u32>,
    base: nat,
    from: nat,
    pos: nat,
    offset: nat,
)
    requires
        from <= pos,
    ensures
        runs(decode, full, ids, base, from, pos, offset) matches Ok(list) ==> runs_within(
            list,
            base + ids.len(),
        ),
    decreases ids.len() - pos,
{
    if pos < ids.len() {
        if let Ok(text) = plain_text(decode(ids.subrange(from as int, pos as int + 1))) {
            if dangling(text, full, offset) {
                lemma_runs_within(decode, full, ids, base, from, pos + 1, offset);
            } else {
                lemma_runs_within(
                    decode,
                    full,
                    ids,
                    base,
                    pos + 1,
                    pos + 1,
                    offset + text.len(),
                );
            }
        }
    }
}

/// The runs of a span stay inside the span's end.
proof fn lemma_span_runs_within(
    decode: spec_fn(Seq<u32>) -> Result<Seq<char>, Seq<char>>,
    token_ids: Seq<usize>,
    start: nat,
    end: nat,
)
    requires
        start <= end <= token_ids.len(),
    ensures
        span_runs(decode, token_ids, start, end) matches Ok(list) ==> runs_within(list, end),
{
    lemma_narrowed(token_ids.subrange(start as int, end as int));
    if let Ok(ids) = narrowed(token_ids.subrange(start as int, end as int)) {
        if let Ok(full) = plain_text(decode(ids)) {
            lemma_runs_within(decode, full, ids, start, 0, 0, 0);
        }
    }
}

/// Whether every span lies inside the first `n` tokens.
pub open spec fn spans_within(spans: Seq<Span>, n: nat) -> bool {
    forall|i: int|
        0 <= i < spans.len() ==> (#[trigger] spans[i]).start <= spans[i].end && spans[i].end <= n
}

impl<P> AlignedView<P> {
    /// The words of the spans from number `k` on, one sub-segment each. No
    /// word reaches from one sub-segment into the next.
    pub open spec fn span_words(
        self,
        decode: spec_fn(Seq<u32>) -> Result<Seq<char>, Seq<char>>,
        spans: Seq<Span>,
        k: nat,
        unicode_only: bool,
    ) -> Result<Seq<PreWordView<P>>, Seq<CauseView>>
        decreases spans.len() - k,
    {
        if k >= spans.len() {
            Ok(Seq::empty())
        } else {
            let span = spans[k as int];
            match span_runs(decode, self.ids, span.start as nat, span.end as nat) {
                Err(e) => Err(e),
                Ok(runs) => after(
                    self.grouped(runs, k as usize, unicode_only),
                    self.span_words(decode, spans, k + 1, unicode_only),
                ),
            }
        }
    }

    /// The words of a chunk.
    pub open spec fn words(
        self,
        decode: spec_fn(Seq<u32>) -> Result<Seq<char>, Seq<char>>,
        spans: Seq<Span>,
        eot_frame: Option<u64>,
        unicode_only: bool,
    ) -> Result<Seq<PreWordView<P>>, Seq<CauseView>> {
        match self.span_words(decode, spans, 0, unicode_only) {
            Err(e) => Err(e),
            Ok(words) => Ok(with_ends(words, eot_frame)),
        }
    }

    /// Every word starts on the frame of a token.
    proof fn lemma_grouped_starts(self, runs: Seq<SubWordView>, sub: usize, unicode_only: bool)
        requires
            self.wf(),
            runs_within(runs, self.ids.len()),
        ensures
            countable(self.grouped(runs, sub, unicode_only)),
        decreases runs.len(),
    {
        if runs.len() > 0 {
            assert(runs_within(runs.drop_last(), self.ids.len())) by {
                assert forall|i: int| 0 <= i < runs.drop_last().len() implies (
                #[trigger] runs.drop_last()[i]).start < runs.drop_last()[i].end
                    && runs.drop_last()[i].end <= self.ids.len() by {
                    assert(runs[i] == runs.drop_last()[i]);
                }
            }
            self.lemma_grouped_starts(runs.drop_last(), sub, unicode_only);
            let words = self.grouped(runs.drop_last(), sub, unicode_only);
            let all = self.grouped(runs, sub, unicode_only);
            assert(runs.last() == runs[runs.len() - 1]);
            assert forall|i: int| 0 <= i < all.len() implies (#[trigger] all[i]).start < u64::MAX by {
                if i < words.len() {
                    assert(words[i].start < u64::MAX);
                }
            }
        }
    }
}

/// Whether each word starts on a frame that another one follows.
pub open spec fn countable<P>(words: Seq<PreWordView<P>>) -> bool {
    forall|i: int| 0 <= i < words.len() ==> (#[trigger] words[i]).start < u64::MAX
}

/// Where word `i` ends: where the next one starts, and for the last one
/// where the path enters the end of the text, or else one frame on. Never
/// before it starts.
pub open spec fn end_of<P>(words: Seq<PreWordView<P>>, eot_frame: Option<u64>, i: int) -> u64 {
    let next = if i + 1 < words.len() {
        words[i + 1].start
    } else {
        match eot_frame {
            Some(frame) => frame,
            None => (words[i].start + 1) as u64,
        }
    };
    if next >= words[i].start {
        next
    } else {
        words[i].start
    }
}

/// The words with their ends set.
pub open spec fn with_ends<P>(words: Seq<PreWordView<P>>, eot_frame: Option<u64>) -> Seq<
    PreWordView<P>,
> {
    Seq::new(
        words.len(),
        |i: int| PreWordView { end: end_of(words, eot_frame, i), ..words[i] },
    )
}

/// Sets the end of each word.
fn set_ends<P>(words: &mut Vec<PreWord<P>>, eot_frame: Option<u64>)
    requires
        countable(pre_words_of(old(words)@)),
    ensures
        pre_words_of(final(words)@) == with_ends(pre_words_of(old(words)@), eot_frame),
{
    let ghost all = pre_words_of(words@);
    let n: usize = words.len();
    for i in 0..n
        invariant
            all == pre_words_of(old(words)@),
            countable(all),
            words@.len() == all.len(),
            n == all.len(),
            forall|k: int| 0 <= k < i ==> (#[trigger] words@[k])@ == with_ends(all, eot_frame)[k],
            forall|k: int| i <= k < all.len() ==> (#[trigger] words@[k])@ == all[k],
    {
        assert(words@[i as int]@ == all[i as int]);
        let start: u64 = words[i].start_frame;
        let next: u64 = if i + 1 < n {
            assert(words@[i + 1]@ == all[i + 1]);
            words[i + 1].start_frame
        } else {
            match eot_frame {
                Some(frame) => frame,
                None => start + 1,
            }
        };
        words[i].end_frame = if next >= start {
            next
        } else {
            start
        };
    }
    assert(pre_words_of(words@) =~= with_ends(all, eot_frame));
}

/// Groups the tokens of a chunk into words.
pub fn group_pre_words<P: Copy>(
    tokenizer: &TextTokenizer,
    aligned: &Aligned<'_, P>,
    spans: &[Span],
    eot_frame: Option<u64>,
    unicode_only: bool,
) -> (r: Result<Vec<PreWord<P>>, Error>)
    requires
        aligned@.wf(),
        spans_within(spans@, aligned.ids@.len()),
    ensures
        match r {
            Ok(words) => aligned@.words(decoder(tokenizer@), spans@, eot_frame, unicode_only)
                == Ok::<_, Seq<CauseView>>(pre_words_of(words@)),
            Err(e) => aligned@.words(decoder(tokenizer@), spans@, eot_frame, unicode_only) == Err::<
                Seq<PreWordView<P>>,
                _,
            >(e@),
        },
{
    let ghost decode = decoder(tokenizer@);
    let ghost whole = aligned@.span_words(decode, spans@, 0, unicode_only);
    let mut words: Vec<PreWord<P>> = Vec::new();
    proof {
        lemma_after_nothing(pre_words_of(words@), whole);
    }
    for k in 0..spans.len()
        invariant
            aligned@.wf(),
            spans_within(spans@, aligned.ids@.len()),
            decode == decoder(tokenizer@),
            whole == aligned@.span_words(decode, spans@, 0, unicode_only),
            whole == after(
                pre_words_of(words@),
                aligned@.span_words(decode, spans@, k as nat, unicode_only),
            ),
            countable(pre_words_of(words@)),
    {
        let span = spans[k];
        let runs = split_tokens_on_unicode(tokenizer, aligned.ids, span.start, span.end)?;
        let ghost found = pre_words_of(words@);
        let ghost group = aligned@.grouped(runs_of(runs@), k, unicode_only);
        proof {
            lemma_span_runs_within(decode, aligned.ids@, span.start as nat, span.end as nat);
            aligned@.lemma_grouped_starts(runs_of(runs@), k, unicode_only);
        }
        group_runs(aligned, &runs, k, unicode_only, &mut words);
        proof {
            assert forall|i: int| 0 <= i < pre_words_of(words@).len() implies (
            #[trigger] pre_words_of(words@)[i]).start < u64::MAX by {
                if i < found.len() {
                    assert(found[i].start < u64::MAX);
                } else {
                    assert(group[i - found.len()].start < u64::MAX);
                }
            }
            lemma_after_more(
                found,
                group,
                aligned@.span_words(decode, spans@, k as nat + 1, unicode_only),
            );
        }
    }
    proof {
        lemma_after_all(pre_words_of(words@));
    }
    set_ends(&mut words, eot_frame);
    Ok(words)
}

/// Whether the runs stand end to end from `start` to `end`.
pub open spec fn runs_tile(runs: Seq<SubWordView>, start: nat, end: nat) -> bool
    decreases runs.len(),
{
    if runs.len() == 0 {
        start == end
    } else {
        &&& runs.last().end == end
        &&& runs.last().start < end
        &&& runs_tile(runs.drop_last(), start, runs.last().start)
    }
}

/// A run in front of runs that tile a range, and what they tile together.
proof fn lemma_tiles_from(first: SubWordView, later: Seq<SubWordView>, end: nat)
    requires
        first.start < first.end,
        runs_tile(later, first.end, end),
    ensures
        runs_tile(seq![first] + later, first.start, end),
    decreases later.len(),
{
    let all = seq![first] + later;
    reveal_with_fuel(runs_tile, 2);
    if later.len() == 0 {
        assert(all.drop_last() =~= Seq::empty());
    } else {
        assert(all.drop_last() =~= seq![first] + later.drop_last());
        lemma_tiles_from(first, later.drop_last(), later.last().start);
    }
}

/// The runs from a position on tile the rest of the tokens.
proof fn lemma_runs_tile(
    decode: spec_fn(Seq<u32>) -> Result<Seq<char>, Seq<char>>,
    full: Seq<char>,
    ids: Seq<u32>,
    base: nat,
    from: nat,
    pos: nat,
    offset: nat,
)
    requires
        from <= pos <= ids.len(),
    ensures
        runs(decode, full, ids, base, from, pos, offset) matches Ok(list) ==> runs_tile(
            list,
            base + from,
            base + ids.len(),
        ),
    decreases ids.len() - pos,
{
    reveal_with_fuel(runs_tile, 2);
    if pos >= ids.len() {
        if let Ok(list) = runs(decode, full, ids, base, from, pos, offset) {
            if list.len() > 0 {
                assert(list.drop_last() =~= Seq::empty());
            }
        }
    } else if let Ok(text) = plain_text(decode(ids.subrange(from as int, pos as int + 1))) {
        if dangling(text, full, offset) {
            lemma_runs_tile(decode, full, ids, base, from, pos + 1, offset);
        } else {
            lemma_runs_tile(decode, full, ids, base, pos + 1, pos + 1, offset + text.len());
            if let Ok(later) = runs(
                decode,
                full,
                ids,
                base,
                pos + 1,
                pos + 1,
                offset + text.len(),
            ) {
                let first = SubWordView { text, start: base + from, end: base + pos + 1 };
                lemma_tiles_from(first, later, base + ids.len());
            }
        }
    }
}

/// Every token of a span is in exactly one run, and runs keep the order of
/// the tokens.
pub proof fn law_runs_cover_the_span(
    decode: spec_fn(Seq<u32>) -> Result<Seq<char>, Seq<char>>,
    token_ids: Seq<usize>,
    start: nat,
    end: nat,
)
    requires
        start <= end <= token_ids.len(),
    ensures
        span_runs(decode, token_ids, start, end) matches Ok(list) ==> runs_tile(list, start, end),
{
    lemma_narrowed(token_ids.subrange(start as int, end as int));
    if let Ok(ids) = narrowed(token_ids.subrange(start as int, end as int)) {
        if let Ok(full) = plain_text(decode(ids)) {
            lemma_runs_tile(decode, full, ids, start, 0, 0, 0);
        }
    }
}

/// The text of all runs together.
pub open spec fn runs_text(runs: Seq<SubWordView>) -> Seq<char> {
    runs.map_values(|r: SubWordView| r.text).flatten()
}

/// Grouping runs into words keeps every character, token id and
/// probability, in order.
pub proof fn law_grouping_keeps_everything<P>(
    aligned: AlignedView<P>,
    runs: Seq<SubWordView>,
    sub: usize,
    unicode_only: bool,
    start: nat,
    end: nat,
)
    requires
        aligned.wf(),
        start <= end <= aligned.ids.len(),
        runs_tile(runs, start, end),
    ensures
        text_of(aligned.grouped(runs, sub, unicode_only)) == runs_text(runs),
        tokens_of(aligned.grouped(runs, sub, unicode_only)) == aligned.ids.subrange(
            start as int,
            end as int,
        ).map_values(|id: usize| id as u32),
        probs_of(aligned.grouped(runs, sub, unicode_only)) == aligned.probs.subrange(
            start as int,
            end as int,
        ),
        start <= end,
    decreases runs.len(),
{
    let words = aligned.grouped(runs, sub, unicode_only);
    let narrow = |id: usize| id as u32;
    if runs.len() == 0 {
        assert(runs_text(runs) =~= text_of(words));
        assert(aligned.ids.subrange(start as int, end as int).map_values(narrow) =~= tokens_of(
            words,
        ));
        assert(aligned.probs.subrange(start as int, end as int) =~= probs_of(words));
    } else {
        let head = runs.drop_last();
        let run = runs.last();
        let earlier = aligned.grouped(head, sub, unicode_only);
        lemma_tile_order(head, start, run.start);
        law_grouping_keeps_everything(aligned, head, sub, unicode_only, start, run.start);
        lemma_added_run(aligned, earlier, words, run, sub, |w: PreWordView<P>| w.text, run.text);
        lemma_added_run(
            aligned,
            earlier,
            words,
            run,
            sub,
            |w: PreWordView<P>| w.tokens,
            aligned.run_ids(run),
        );
        lemma_added_run(
            aligned,
            earlier,
            words,
            run,
            sub,
            |w: PreWordView<P>| w.probs,
            aligned.run_probs(run),
        );
        let of_run = |r: SubWordView| r.text;
        assert(runs.map_values(of_run) =~= head.map_values(of_run).push(run.text));
        head.map_values(of_run).lemma_flatten_push(run.text);
        assert(aligned.ids.subrange(start as int, end as int).map_values(narrow)
            =~= aligned.ids.subrange(start as int, run.start as int).map_values(narrow)
            + aligned.run_ids(run));
        assert(aligned.probs.subrange(start as int, end as int) =~= aligned.probs.subrange(
            start as int,
            run.start as int,
        ) + aligned.run_probs(run));
    }
}

/// A tiled range does not end before it starts.
proof fn lemma_tile_order(runs: Seq<SubWordView>, start: nat, end: nat)
    requires
        runs_tile(runs, start, end),
    ensures
        start <= end,
    decreases runs.len(),
{
    if runs.len() > 0 {
        lemma_tile_order(runs.drop_last(), start, runs.last().start);
    }
}

/// What one more run adds to a part of the words, whether it starts a word
/// or goes to the last one.
proof fn lemma_added_run<P, T>(
    aligned: AlignedView<P>,
    earlier: Seq<PreWordView<P>>,
    words: Seq<PreWordView<P>>,
    run: SubWordView,
    sub: usize,
    part: spec_fn(PreWordView<P>) -> Seq<T>,
    added: Seq<T>,
)
    requires
        ({
            ||| words == earlier.push(aligned.new_word(run, sub))
            ||| earlier.len() > 0 && words == earlier.drop_last().push(
                aligned.longer_word(earlier.last(), run),
            )
        }),
        part(aligned.new_word(run, sub)) == added,
        earlier.len() > 0 ==> part(aligned.longer_word(earlier.last(), run)) == part(earlier.last())
            + added,
    ensures
        gathered(words, part) == gathered(earlier, part) + added,
{
    if words == earlier.push(aligned.new_word(run, sub)) {
        let word = aligned.new_word(run, sub);
        assert(words =~= earlier + seq![word]);
        lemma_gathered_concat(earlier, seq![word], part);
        lemma_gathered_one(word, part);
    } else {
        let word = aligned.longer_word(earlier.last(), run);
        let kept = earlier.drop_last();
        assert(words =~= kept + seq![word]);
        assert(earlier =~= kept + seq![earlier.last()]);
        lemma_gathered_concat(kept, seq![word], part);
        lemma_gathered_concat(kept, seq![earlier.last()], part);
        lemma_gathered_one(word, part);
        lemma_gathered_one(earlier.last(), part);
        assert(gathered(words, part) =~= gathered(earlier, part) + added);
    }
}

/// No word ends before it starts, and words whose starts are in order meet:
/// each ends where the next one starts.
pub proof fn law_words_meet<P>(words: Seq<PreWordView<P>>, eot_frame: Option<u64>, i: int)
    requires
        countable(words),
        0 <= i < words.len(),
    ensures
        with_ends(words, eot_frame)[i].start <= with_ends(words, eot_frame)[i].end,
        i + 1 < words.len() && words[i].start <= words[i + 1].start ==> with_ends(
            words,
            eot_frame,
        )[i].end == with_ends(words, eot_frame)[i + 1].start,
{
}

/// A token starts on the frame of the first step that the path takes on it,
/// whatever later steps say. A negative frame counts as the first one.
pub proof fn law_first_step_places_the_token(path: Seq<TokenAlignment>, k: int, i: int)
    requires
        0 <= i < path.len(),
        path[i].token_x == k,
        forall|j: int| 0 <= j < i ==> (#[trigger] path[j]).token_x != k,
    ensures
        path[i].frame_x >= 0 ==> token_frame(path, k) == path[i].frame_x,
        path[i].frame_x < 0 ==> token_frame(path, k) == 0,
    decreases path.len(),
{
    if i > 0 {
        let rest = path.skip(1);
        assert(path[0].token_x != k);
        assert forall|j: int| 0 <= j < i - 1 implies (#[trigger] rest[j]).token_x != k by {
            assert(path[j + 1].token_x != k);
        }
        law_first_step_places_the_token(rest, k, i - 1);
        lemma_entry_frame_met(rest, k, i - 1);
    }
}

/// A token that the path has a step on has a frame of its own.
proof fn lemma_entry_frame_met(path: Seq<TokenAlignment>, k: int, i: int)
    requires
        0 <= i < path.len(),
        path[i].token_x == k,
    ensures
        entry_frame(path, k) is Some,
    decreases path.len(),
{
    if path[0].token_x != k {
        lemma_entry_frame_met(path.skip(1), k, i - 1);
    }
}

/// A token that the path misses starts with the token before it, and the
/// first one with the chunk.
pub proof fn law_missed_tokens_inherit_their_frame(path: Seq<TokenAlignment>, k: int)
    requires
        forall|j: int| 0 <= j < path.len() ==> (#[trigger] path[j]).token_x != k,
    ensures
        k > 0 ==> token_frame(path, k) == token_frame(path, k - 1),
        k <= 0 ==> token_frame(path, k) == 0,
{
    lemma_entry_frame_missed(path, k);
}

/// A token that the path misses has no frame of its own.
proof fn lemma_entry_frame_missed(path: Seq<TokenAlignment>, k: int)
    requires
        forall|j: int| 0 <= j < path.len() ==> (#[trigger] path[j]).token_x != k,
    ensures
        entry_frame(path, k) is None,
    decreases path.len(),
{
    if path.len() > 0 {
        let rest = path.skip(1);
        assert(path[0].token_x != k);
        assert forall|j: int| 0 <= j < rest.len() implies (#[trigger] rest[j]).token_x != k by {
            assert(path[j + 1].token_x != k);
        }
        lemma_entry_frame_missed(rest, k);
    }
}

/// The text ends on the earliest of all frames that the path has for the
/// row after the last token, wherever on the path it stands, and there is
/// none exactly where the path never gets there.
pub proof fn law_text_ends_on_the_earliest_frame(path: Seq<TokenAlignment>, n: int)
    ensures
        least_frame(path, n) is None <==> forall|j: int|
            0 <= j < path.len() ==> (#[trigger] path[j]).token_x != n,
        least_frame(path, n) matches Some(frame) ==> {
            &&& forall|j: int|
                0 <= j < path.len() && (#[trigger] path[j]).token_x == n ==> frame == 0 || frame
                    <= path[j].frame_x
            &&& exists|j: int|
                0 <= j < path.len() && (#[trigger] path[j]).token_x == n && (frame
                    == path[j].frame_x || frame == 0 && path[j].frame_x < 0)
        },
    decreases path.len(),
{
    if path.len() > 0 {
        let head = path.drop_last();
        law_text_ends_on_the_earliest_frame(head, n);
        assert forall|j: int| 0 <= j < head.len() implies #[trigger] path[j] == head[j] by {}
        if least_frame(head, n) is None {
            assert forall|j: int| 0 <= j < path.len() - 1 implies (#[trigger] path[j]).token_x
                != n by {
                assert(head[j].token_x != n);
            }
        } else {
            let j = choose|j: int| 0 <= j < head.len() && (#[trigger] head[j]).token_x == n;
            assert(path[j].token_x == n);
        }
        if let Some(frame) = least_frame(path, n) {
            if path.last().token_x == n && frame == frame_at(path.last()) {
                assert(path[path.len() - 1].token_x == n);
            } else {
                let j = choose|j: int|
                    0 <= j < head.len() && (#[trigger] head[j]).token_x == n && (frame
                        == head[j].frame_x || frame == 0 && head[j].frame_x < 0);
                assert(path[j].token_x == n);
            }
            assert forall|j: int|
                0 <= j < path.len() && (#[trigger] path[j]).token_x == n implies frame == 0
                || frame <= path[j].frame_x by {
                if j < head.len() {
                    assert(head[j].token_x == n);
                }
            }
        }
    }
}

/// Tokens whose text shows no replacement character end on a whole
/// character. Where the first one shows, they end inside a character unless
/// the text of all tokens has a replacement character in that very place.
pub proof fn law_tokens_end_inside_a_character(
    head: Seq<char>,
    tail: Seq<char>,
    full: Seq<char>,
    offset: nat,
)
    requires
        !head.contains('\u{FFFD}'),
    ensures
        !dangling(head, full, offset),
        dangling(head + seq!['\u{FFFD}'] + tail, full, offset) <==> !(offset + head.len()
            < full.len() && full[offset + head.len() as int] == '\u{FFFD}'),
{
    let text = head + seq!['\u{FFFD}'] + tail;
    let at = head.len() as int;
    head.index_of_first_ensures('\u{FFFD}');
    text.index_of_first_ensures('\u{FFFD}');
    assert(text[at] == '\u{FFFD}');
    assert(text.contains('\u{FFFD}'));
    let found = text.index_of_first('\u{FFFD}')->0;
    if found < at {
        assert(head[found] == '\u{FFFD}');
        assert(head.contains('\u{FFFD}'));
    }
}

/// Whether the ids `from` to `to` decode to a text that ends inside a
/// character.
pub open spec fn ends_inside(
    decode: spec_fn(Seq<u32>) -> Result<Seq<char>, Seq<char>>,
    full: Seq<char>,
    ids: Seq<u32>,
    from: int,
    to: int,
    offset: nat,
) -> bool {
    decode(ids.subrange(from, to)) matches Ok(text) && dangling(text, full, offset)
}

/// Whether the ids `from` to `to` are a run: they decode to `text`, end
/// inside a character wherever they are cut off earlier, and do not at
/// their own end, unless they are the last. Earlier runs took `done`
/// characters.
pub open spec fn is_smallest_run(
    decode: spec_fn(Seq<u32>) -> Result<Seq<char>, Seq<char>>,
    full: Seq<char>,
    ids: Seq<u32>,
    from: int,
    to: int,
    done: nat,
    text: Seq<char>,
) -> bool {
    &&& 0 <= from < to <= ids.len()
    &&& decode(ids.subrange(from, to)) == Ok::<_, Seq<char>>(text)
    &&& forall|p: int|
        from < p < to ==> #[trigger] ends_inside(decode, full, ids, from, p, done)
    &&& to < ids.len() ==> !ends_inside(decode, full, ids, from, to, done)
}

/// The runs from a position on are as short as can be.
proof fn lemma_runs_are_smallest(
    decode: spec_fn(Seq<u32>) -> Result<Seq<char>, Seq<char>>,
    full: Seq<char>,
    ids: Seq<u32>,
    base: nat,
    from: nat,
    pos: nat,
    offset: nat,
    i: int,
)
    requires
        from <= pos <= ids.len(),
        forall|p: int|
            from < p <= pos ==> #[trigger] ends_inside(decode, full, ids, from as int, p, offset),
    ensures
        runs(decode, full, ids, base, from, pos, offset) matches Ok(list) ==> 0 <= i < list.len()
            ==> is_smallest_run(
            decode,
            full,
            ids,
            list[i].start - base,
            list[i].end - base,
            offset + runs_text(list.take(i)).len(),
            list[i].text,
        ),
    decreases ids.len() - pos,
{
    let of_run = |r: SubWordView| r.text;
    if pos >= ids.len() {
        if let Ok(list) = runs(decode, full, ids, base, from, pos, offset) {
            if 0 <= i < list.len() {
                assert(list.take(0).map_values(of_run) =~= Seq::empty());
                assert(ids.skip(from as int) =~= ids.subrange(from as int, ids.len() as int));
                assert(runs_text(list.take(i)).len() == 0);
            }
        }
    } else if let Ok(text) = plain_text(decode(ids.subrange(from as int, pos as int + 1))) {
        assert(decode(ids.subrange(from as int, pos as int + 1)) == Ok::<_, Seq<char>>(text));
        if dangling(text, full, offset) {
            assert(ends_inside(decode, full, ids, from as int, pos as int + 1, offset));
            lemma_runs_are_smallest(decode, full, ids, base, from, pos + 1, offset, i);
        } else {
            let now = offset + text.len();
            lemma_runs_are_smallest(decode, full, ids, base, pos + 1, pos + 1, now, i - 1);
            if let Ok(list) = runs(decode, full, ids, base, from, pos, offset) {
                let later = runs(decode, full, ids, base, pos + 1, pos + 1, now)->Ok_0;
                if i == 0 {
                    assert(list.take(0).map_values(of_run) =~= Seq::empty());
                    assert(runs_text(list.take(i)).len() == 0);
                    assert(list[0] == (SubWordView {
                        text,
                        start: base + from,
                        end: base + pos + 1,
                    }));
                } else if 0 < i < list.len() {
                    assert(list[i] == later[i - 1]);
                    let first = seq![text];
                    let some = later.take(i - 1).map_values(of_run);
                    assert(list.take(i).map_values(of_run) =~= first + some);
                    vstd::seq_lib::lemma_flatten_concat(first, some);
                    first.lemma_flatten_one_element();
                    assert(runs_text(list.take(i)).len() == text.len() + runs_text(
                        later.take(i - 1),
                    ).len());
                }
            }
        }
    }
}

/// The text of a run is what its own tokens decode to, and runs are as
/// short as can be: cut off anywhere earlier, a run would end inside a
/// character, and only the last one may still do so at its own end.
pub proof fn law_runs_are_the_smallest(
    decode: spec_fn(Seq<u32>) -> Result<Seq<char>, Seq<char>>,
    token_ids: Seq<usize>,
    start: nat,
    end: nat,
    i: int,
)
    requires
        start <= end <= token_ids.len(),
    ensures
        span_runs(decode, token_ids, start, end) matches Ok(list) ==> 0 <= i < list.len() ==> {
            let ids = narrowed(token_ids.subrange(start as int, end as int))->Ok_0;
            is_smallest_run(
                decode,
                decode(ids)->Ok_0,
                ids,
                list[i].start - start,
                list[i].end - start,
                runs_text(list.take(i)).len(),
                list[i].text,
            )
        },
{
    lemma_narrowed(token_ids.subrange(start as int, end as int));
    if let Ok(ids) = narrowed(token_ids.subrange(start as int, end as int)) {
        if let Ok(full) = plain_text(decode(ids)) {
            assert(decode(ids) == Ok::<_, Seq<char>>(full));
            lemma_runs_are_smallest(decode, full, ids, start, 0, 0, 0, i);
        }
    }
}

/// Where words are split on characters alone, every run is a word of its
/// own: as many words as runs, each with the text, the tokens, the
/// probabilities and the first frame of its run.
pub proof fn law_characters_alone_are_words<P>(
    aligned: AlignedView<P>,
    runs: Seq<SubWordView>,
    sub: usize,
    i: int,
)
    requires
        0 <= i < runs.len(),
    ensures
        aligned.grouped(runs, sub, true).len() == runs.len(),
        ({
            let word = aligned.grouped(runs, sub, true)[i];
            let start = runs[i].start as int;
            let end = runs[i].end as int;
            &&& word.text == runs[i].text
            &&& word.tokens == aligned.ids.subrange(start, end).map_values(|id: usize| id as u32)
            &&& word.probs == aligned.probs.subrange(start, end)
            &&& word.start == aligned.frames[start]
            &&& word.sub == sub
        }),
    decreases runs.len(),
{
    let head = runs.drop_last();
    if head.len() > 0 {
        law_characters_alone_are_words(
            aligned,
            head,
            sub,
            if i < head.len() {
                i
            } else {
                0
            },
        );
    } else {
        assert(aligned.grouped(head, sub, true).len() == 0);
    }
}

/// The punctuation characters of ASCII are these thirty-two.
proof fn lemma_ascii_punctuation(c: char)
    ensures
        ascii_punctuation(c) <==> "!\"#$%&'()*+,-./:;<=>?@[\\]^_`{|}~"@.contains(c),
{
    reveal_strlit("!\"#$%&'()*+,-./:;<=>?@[\\]^_`{|}~");
    let all = "!\"#$%&'()*+,-./:;<=>?@[\\]^_`{|}~"@;
    if ascii_punctuation(c) {
        let at = if c <= '/' {
            c as int - '!' as int
        } else if c <= '@' {
            c as int - ':' as int + 15
        } else if c <= '`' {
            c as int - '[' as int + 22
        } else {
            c as int - '{' as int + 28
        };
        assert(all[at] == c);
    }
}

/// Elsewhere a run starts a new word exactly where it leads with a space,
/// or is a single punctuation character, white space aside; any other run
/// goes to the word before it. The first run always starts a word. A word
/// starts on the frame of its first token, and runs that join it later do
/// not move it.
pub proof fn law_words_start_at_spaces_and_marks<P>(
    aligned: AlignedView<P>,
    runs: Seq<SubWordView>,
    run: SubWordView,
    sub: usize,
)
    ensures
        ({
            let words = aligned.grouped(runs, sub, false);
            let more = aligned.grouped(runs.push(run), sub, false);
            let leads = run.text.len() > 0 && run.text[0] == ' ';
            let mark = sole_char_of(run.text) matches Some(c)
                && "!\"#$%&'()*+,-./:;<=>?@[\\]^_`{|}~"@.contains(c);
            &&& runs.len() == 0 <==> words.len() == 0
            &&& leads || mark || runs.len() == 0 ==> {
                &&& more.len() == words.len() + 1
                &&& more.drop_last() == words
                &&& more.last().text == run.text
                &&& more.last().start == aligned.frames[run.start as int]
                &&& more.last().sub == sub
            }
            &&& !leads && !mark && runs.len() > 0 ==> {
                &&& more.len() == words.len()
                &&& more.drop_last() == words.drop_last()
                &&& more.last().text == words.last().text + run.text
                &&& more.last().start == words.last().start
                &&& more.last().sub == words.last().sub
            }
        }),
    decreases runs.len(),
{
    let words = aligned.grouped(runs, sub, false);
    let more = aligned.grouped(runs.push(run), sub, false);
    assert(runs.push(run).drop_last() =~= runs);
    if let Some(c) = sole_char_of(run.text) {
        lemma_ascii_punctuation(c);
    }
    if runs.len() > 0 {
        assert(runs =~= runs.drop_last().push(runs.last()));
        law_words_start_at_spaces_and_marks(aligned, runs.drop_last(), runs.last(), sub);
    }
    if words.len() > 0 && !starts_word(run.text, false) {
        assert(more.drop_last() =~= words.drop_last());
    } else {
        assert(more.drop_last() =~= words);
    }
}

/// Ends are all that is set: each word keeps its text, its tokens, its
/// probabilities, its start and its sub-segment. The last word ends where
/// the text does, or one frame after its start where that is not known, and
/// never before it starts.
pub proof fn law_last_word_ends_with_the_text<P>(
    words: Seq<PreWordView<P>>,
    eot_frame: Option<u64>,
    i: int,
)
    requires
        countable(words),
        0 <= i < words.len(),
    ensures
        ({
            let all = with_ends(words, eot_frame);
            &&& all.len() == words.len()
            &&& all[i].text == words[i].text
            &&& all[i].tokens == words[i].tokens
            &&& all[i].probs == words[i].probs
            &&& all[i].start == words[i].start
            &&& all[i].sub == words[i].sub
            &&& eot_frame is None ==> all.last().end == words.last().start + 1
            &&& eot_frame matches Some(frame) ==> all.last().end == if frame >= words.last().start {
                frame
            } else {
                words.last().start
            }
            &&& i + 1 < words.len() && words[i].start > words[i + 1].start ==> all[i].end
                == words[i].start
        }),
{
}

/// The words of a chunk are those of its sub-segments, one sub-segment
/// after the other: those of the first come first, and each belongs to the
/// sub-segment it was grouped for.
pub proof fn law_sub_segments_do_not_share_words<P>(
    aligned: AlignedView<P>,
    decode: spec_fn(Seq<u32>) -> Result<Seq<char>, Seq<char>>,
    spans: Seq<Span>,
    k: nat,
    unicode_only: bool,
)
    requires
        k < spans.len() <= usize::MAX,
    ensures
        aligned.span_words(decode, spans, k, unicode_only) matches Ok(words) ==> {
            &&& span_runs(
                decode,
                aligned.ids,
                spans[k as int].start as nat,
                spans[k as int].end as nat,
            ) matches Ok(runs) && aligned.span_words(decode, spans, k + 1, unicode_only) matches Ok(
                later,
            ) && {
                let own = aligned.grouped(runs, k as usize, unicode_only);
                &&& words == own + later
                &&& forall|i: int| 0 <= i < own.len() ==> (#[trigger] own[i]).sub == k
            }
        },
{
    if let Ok(runs) = span_runs(
        decode,
        aligned.ids,
        spans[k as int].start as nat,
        spans[k as int].end as nat,
    ) {
        lemma_grouped_for(aligned, runs, k as usize, unicode_only);
    }
}

/// Words belong to the sub-segment they were grouped for.
pub proof fn lemma_grouped_for<P>(
    aligned: AlignedView<P>,
    runs: Seq<SubWordView>,
    sub: usize,
    unicode_only: bool,
)
    ensures
        forall|i: int|
            0 <= i < aligned.grouped(runs, sub, unicode_only).len() ==> (#[trigger] aligned.grouped(
                runs,
                sub,
                unicode_only,
            )[i]).sub == sub,
    decreases runs.len(),
{
    if runs.len() > 0 {
        lemma_grouped_for(aligned, runs.drop_last(), sub, unicode_only);
        let words = aligned.grouped(runs.drop_last(), sub, unicode_only);
        let all = aligned.grouped(runs, sub, unicode_only);
        assert forall|i: int| 0 <= i < all.len() implies (#[trigger] all[i]).sub == sub by {
            if i < words.len() {
                assert(words[i].sub == sub);
            }
        }
    }
}

/// Words are split on characters alone in Chinese, Japanese, Thai, Lao,
/// Burmese and Cantonese, and in no other language, by the language's code.
pub proof fn law_spaceless_languages(code: Seq<char>)
    requires
        forall|i: int|
            0 <= i < code.len() ==> (#[trigger] code[i]) != '<' && code[i] != '|' && code[i] != '>',
    ensures
        spaceless(language_code_of("<|"@ + code + "|>"@)) <==> (code == "zh"@ || code == "ja"@
            || code == "th"@ || code == "lo"@ || code == "my"@ || code == "yue"@),
{
    reveal_strlit("<|");
    reveal_strlit("|>");
    let open = code + "|>"@;
    assert(code.len() >= 2 ==> code[code.len() - 1] != '>');
    assert(open.len() >= 2 && (code.len() > 0 ==> open[0] == code[0]));
    law_language_code_round_trip(code);
}

/// A span that cannot be decoded, as a whole or in one of its runs, has no
/// runs: the failure is passed on with the tokenizer's reason. A span whose
/// ids all decode has them.
pub proof fn law_decoding_failures_are_passed_on(
    decode: spec_fn(Seq<u32>) -> Result<Seq<char>, Seq<char>>,
    token_ids: Seq<usize>,
    start: nat,
    end: nat,
)
    requires
        start <= end <= token_ids.len(),
    ensures
        narrowed(token_ids.subrange(start as int, end as int)) matches Ok(ids) ==> {
            &&& decode(ids) matches Err(reason) ==> span_runs(decode, token_ids, start, end)
                == Err::<Seq<SubWordView>, _>(
                uncategorized("failed to decode tokens: "@ + reason),
            )
            &&& (forall|part: Seq<u32>| #[trigger] decode(part) is Ok) ==> span_runs(
                decode,
                token_ids,
                start,
                end,
            ) is Ok
        },
        narrowed(token_ids.subrange(start as int, end as int)) matches Err(e) ==> span_runs(
            decode,
            token_ids,
            start,
            end,
        ) == Err::<Seq<SubWordView>, _>(e),
{
    if let Ok(ids) = narrowed(token_ids.subrange(start as int, end as int)) {
        if forall|part: Seq<u32>| #[trigger] decode(part) is Ok {
            assert(decode(ids) is Ok);
            lemma_runs_are_owed(decode, decode(ids)->Ok_0, ids, start, 0, 0, 0);
        }
    }
}

/// Where everything decodes, there are runs.
proof fn lemma_runs_are_owed(
    decode: spec_fn(Seq<u32>) -> Result<Seq<char>, Seq<char>>,
    full: Seq<char>,
    ids: Seq<u32>,
    base: nat,
    from: nat,
    pos: nat,
    offset: nat,
)
    requires
        forall|part: Seq<u32>| #[trigger] decode(part) is Ok,
    ensures
        runs(decode, full, ids, base, from, pos, offset) is Ok,
    decreases ids.len() - pos,
{
    if pos < ids.len() {
        let part = ids.subrange(from as int, pos as int + 1);
        assert(decode(part) is Ok);
        let text = decode(part)->Ok_0;
        lemma_runs_are_owed(decode, full, ids, base, from, pos + 1, offset);
        lemma_runs_are_owed(decode, full, ids, base, pos + 1, pos + 1, offset + text.len());
    } else {
        assert(decode(ids.skip(from as int)) is Ok);
    }
}

} // verus!
