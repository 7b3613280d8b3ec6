//! Words with times, per sub-segment.

use vstd::prelude::*;
use vstd::string::*;

use crate::align::{
    decoder, group_pre_words, law_first_step_places_the_token, least_frame, pre_words_of,
    probs_of, span_runs, spans_within, text_of, token_first_frames, token_frame, Aligned,
    AlignedView, PreWord, PreWordView, Span, SubWordView, TokenAlignment,
};
use crate::errors::{
    after, failure, lemma_after_all, lemma_after_nothing, lemma_after_push, uncategorized,
    CauseView, Error,
};
use crate::preprocessor::MAX_FEATURE_BUFFER_BYTES;
use crate::text::{decimal, decimal_of, trim_start, trim_start_of};
use crate::time::{frame_of, frame_time, second_of, units_per_second, FAR};
use crate::tokenizer::TextTokenizer;
use crate::tokens::{smaller, sub_segments_of, SubSegment, SubSegmentView};
use crate::words::{
    clamp_sentence_boundaries, clamped, compute_max_duration_frames, is_fold,
    law_merge_folds_marks_into_their_hosts, law_merge_leaves_no_blank_word,
    lemma_marks_backward_len, lemma_marks_forward_len, marks_backward, marks_forward,
    max_duration, median_cap_of, merge_punctuations, merged, with_text, Fold,
};

verus! {

/// One word with its time span. The probability of the word is the mean of
/// the probabilities of its tokens.
#[derive(Debug)]
pub struct Word<P> {
    pub text: String,
    pub start: u128,
    pub end: u128,
    pub probs: Vec<P>,
}

/// What a [`Word`] holds.
#[verifier::ext_equal]
pub struct WordView<P> {
    pub text: Seq<char>,
    pub start: nat,
    pub end: nat,
    pub probs: Seq<P>,
}

impl<P> View for Word<P> {
    type V = WordView<P>;

    open spec fn view(&self) -> WordView<P> {
        WordView {
            text: self.text@,
            start: self.start as nat,
            end: self.end as nat,
            probs: self.probs@,
        }
    }
}

/// The contents of a list of words.
pub open spec fn words_of<P>(list: Seq<Word<P>>) -> Seq<WordView<P>> {
    list.map_values(|w: Word<P>| w@)
}

/// The contents of lists of words.
pub open spec fn word_lists_of<P>(lists: Seq<Vec<Word<P>>>) -> Seq<Seq<WordView<P>>> {
    lists.map_values(|list: Vec<Word<P>>| words_of(list@))
}

/// The larger of two numbers.
pub open spec fn larger(a: nat, b: nat) -> nat {
    if a >= b {
        a
    } else {
        b
    }
}

/// A word with its frames turned into times. `offset` is where its chunk
/// starts. The text loses its leading space.
pub open spec fn timed<P>(pre: PreWordView<P>, offset: nat, hop_length: nat) -> WordView<P> {
    let start = offset + pre.start as nat * frame_of(hop_length);
    let end = offset + pre.end as nat * frame_of(hop_length);
    WordView { text: trim_start_of(pre.text), start, end: larger(start, end), probs: pre.probs }
}

/// The time of a number of frames.
fn frames_time(frames: u64, hop_length: usize) -> (r: u128)
    requires
        hop_length <= MAX_FEATURE_BUFFER_BYTES,
    ensures
        r == frames as nat * frame_of(hop_length as nat),
        r <= 0x80_0000_0000_0000_0000_0000_0000,
{
    let frame: u128 = frame_time(hop_length);
    assert(0 <= frames * frame <= 0x80_0000_0000_0000_0000_0000_0000) by (nonlinear_arith)
        requires
            0 <= frames <= 0xffff_ffff_ffff_ffff,
            0 <= frame <= 200 * 0x8000_0000,
    ;
    (frames as u128) * frame
}

/// Turns a word's frames into times.
pub fn materialise_word<P>(pre: PreWord<P>, offset: u128, hop_length: usize) -> (r: Word<P>)
    requires
        hop_length <= MAX_FEATURE_BUFFER_BYTES,
        offset <= FAR,
    ensures
        r@ == timed(pre@, offset as nat, hop_length as nat),
{
    let start: u128 = offset + frames_time(pre.start_frame, hop_length);
    let end: u128 = offset + frames_time(pre.end_frame, hop_length);
    Word {
        text: trim_start(pre.text.as_str()).to_owned(),
        start,
        end: if start >= end {
            start
        } else {
            end
        },
        probs: pre.probs,
    }
}

/// What the first and the last word of a sub-segment are held against: the
/// sub-segment's own start and end, the median word duration, and how far
/// off a word may be.
#[verifier::ext_equal]
pub struct Bounds {
    pub start: nat,
    pub end: nat,
    pub median: nat,
    pub slack: nat,
}

/// The start of the first word. Where it comes too early, it moves to the
/// sub-segment's start, or the median duration before the word's end if
/// that is earlier.
pub open spec fn snapped_start<P>(first: WordView<P>, b: Bounds) -> nat {
    if b.start < first.end && first.start + b.slack < b.start {
        smaller(
            if first.end >= b.median {
                (first.end - b.median) as nat
            } else {
                0
            },
            b.start,
        )
    } else {
        first.start
    }
}

/// The end of the last word. Where it comes too late, it moves to the
/// sub-segment's end, or the median duration after the word's start if that
/// is later.
pub open spec fn snapped_end<P>(last: WordView<P>, b: Bounds) -> nat {
    if b.end > last.start && b.end + b.slack < last.end {
        larger(last.start + b.median, b.end)
    } else {
        last.end
    }
}

/// The words with the first start snapped.
pub open spec fn first_snapped<P>(words: Seq<WordView<P>>, b: Bounds) -> Seq<WordView<P>> {
    words.update(0, WordView { start: snapped_start(words[0], b), ..words[0] })
}

/// The words of a sub-segment with the first start and the last end
/// snapped, in this order.
pub open spec fn snapped<P>(words: Seq<WordView<P>>, b: Bounds) -> Seq<WordView<P>> {
    if words.len() == 0 {
        words
    } else {
        let half = first_snapped(words, b);
        half.update(
            words.len() - 1,
            WordView { end: snapped_end(half.last(), b), ..half.last() },
        )
    }
}

/// Snaps the first and the last word of a sub-segment to its own
/// timestamps, where they clearly overshoot.
pub fn snap_subsegment_boundaries<P>(
    words: &mut Vec<Word<P>>,
    subseg_start: u128,
    subseg_end: u128,
    median_duration: u128,
    slack: u128,
)
    requires
        subseg_start <= 4 * FAR,
        subseg_end <= 4 * FAR,
        median_duration <= 4 * FAR,
        slack <= 4 * FAR,
        forall|i: int| 0 <= i < old(words)@.len() ==> (#[trigger] old(words)@[i]).start <= 4 * FAR,
    ensures
        words_of(final(words)@) == snapped(
            words_of(old(words)@),
            (Bounds {
                start: subseg_start as nat,
                end: subseg_end as nat,
                median: median_duration as nat,
                slack: slack as nat,
            }),
        ),
{
    let ghost b = Bounds {
        start: subseg_start as nat,
        end: subseg_end as nat,
        median: median_duration as nat,
        slack: slack as nat,
    };
    let ghost all = words_of(words@);
    if words.len() == 0 {
        return;
    }
    assert(words@[0]@ == all[0]);
    if subseg_start < words[0].end && words[0].start + slack < subseg_start {
        let back: u128 = words[0].end.saturating_sub(median_duration);
        words[0].start = if back <= subseg_start {
            back
        } else {
            subseg_start
        };
    }
    assert(words_of(words@) =~= first_snapped(all, b));
    let last: usize = words.len() - 1;
    let ghost half = words_of(words@);
    assert(words@[last as int]@ == half.last());
    if subseg_end > words[last].start && subseg_end + slack < words[last].end {
        let ahead: u128 = words[last].start + median_duration;
        words[last].end = if ahead >= subseg_end {
            ahead
        } else {
            subseg_end
        };
    }
    assert(words_of(words@) =~= snapped(all, b));
}

/// Snapping moves the start of the first word and the end of the last one
/// and nothing else, and no word ends before it starts after it if none did
/// before.
pub proof fn law_snap_moves_only_the_outer_boundaries<P>(
    words: Seq<WordView<P>>,
    b: Bounds,
    i: int,
)
    requires
        0 <= i < words.len(),
    ensures
        snapped(words, b).len() == words.len(),
        snapped(words, b)[i].text == words[i].text,
        snapped(words, b)[i].probs == words[i].probs,
        i > 0 ==> snapped(words, b)[i].start == words[i].start,
        i < words.len() - 1 ==> snapped(words, b)[i].end == words[i].end,
        words[i].start <= words[i].end ==> snapped(words, b)[i].start <= snapped(words, b)[i].end,
{
}

/// The words of sub-segment `sub` that have a text, with times.
pub open spec fn sub_words<P>(
    words: Seq<PreWordView<P>>,
    sub: int,
    offset: nat,
    hop_length: nat,
) -> Seq<WordView<P>> {
    words.filter(|w: PreWordView<P>| w.text.len() > 0 && w.sub == sub).map_values(
        |w: PreWordView<P>| timed(w, offset, hop_length),
    )
}

/// A word added to a list goes to its own sub-segment.
proof fn lemma_sub_words_push<P>(
    words: Seq<PreWordView<P>>,
    word: PreWordView<P>,
    sub: int,
    offset: nat,
    hop_length: nat,
)
    ensures
        sub_words(words.push(word), sub, offset, hop_length) == if word.text.len() > 0 && word.sub
            == sub {
            sub_words(words, sub, offset, hop_length).push(timed(word, offset, hop_length))
        } else {
            sub_words(words, sub, offset, hop_length)
        },
{
    let here = |w: PreWordView<P>| w.text.len() > 0 && w.sub == sub;
    words.lemma_filter_push(word, here);
    if here(word) {
        assert(sub_words(words.push(word), sub, offset, hop_length) =~= sub_words(
            words,
            sub,
            offset,
            hop_length,
        ).push(timed(word, offset, hop_length)));
    }
}

/// Whether every word belongs to one of the first `n` sub-segments.
pub open spec fn subs_below<P>(words: Seq<PreWordView<P>>, n: nat) -> bool {
    forall|i: int| 0 <= i < words.len() ==> (#[trigger] words[i]).sub < n
}

/// Hands the words out to the `n` sub-segments they came from.
fn by_sub_segment<P>(
    words: Vec<PreWord<P>>,
    n: usize,
    offset: u128,
    hop_length: usize,
) -> (r: Vec<Vec<Word<P>>>)
    requires
        subs_below(pre_words_of(words@), n as nat),
        hop_length <= MAX_FEATURE_BUFFER_BYTES,
        offset <= FAR,
    ensures
        r@.len() == n,
        forall|s: int|
            0 <= s < n ==> words_of((#[trigger] r@[s])@) == sub_words(
                pre_words_of(words@),
                s,
                offset as nat,
                hop_length as nat,
            ),
{
    let ghost all = pre_words_of(words@);
    let ghost hop = hop_length as nat;
    let ghost off = offset as nat;
    let mut out: Vec<Vec<Word<P>>> = empty_lists(n);
    proof {
        reveal(Seq::filter);
        assert forall|s: int| 0 <= s < n implies words_of((#[trigger] out@[s])@) == sub_words(
            all.take(0),
            s,
            off,
            hop,
        ) by {
            assert(words_of(out@[s]@) =~= sub_words(all.take(0), s, off, hop));
        }
    }
    for word in it: words
        invariant
            all == pre_words_of(words@),
            it.seq() == words@,
            subs_below(all, n as nat),
            hop_length <= MAX_FEATURE_BUFFER_BYTES,
            offset <= FAR,
            hop == hop_length,
            off == offset,
            out@.len() == n,
            forall|s: int|
                0 <= s < n ==> words_of((#[trigger] out@[s])@) == sub_words(
                    all.take(it.index()),
                    s,
                    off,
                    hop,
                ),
    {
        let ghost before = out@;
        let ghost seen = all.take(it.index());
        let ghost pre = word@;
        assert(word@ == all[it.index()]);
        assert(all.take(it.index() + 1) =~= seen.push(pre));
        let sub: usize = word.subsegment_idx;
        assert(sub < n);
        if !word.text.as_str().is_empty() {
            let done = materialise_word(word, offset, hop_length);
            out[sub].push(done);
            assert(words_of(out@[sub as int]@) =~= words_of(before[sub as int]@).push(done@));
        }
        assert forall|s: int| 0 <= s < n implies words_of((#[trigger] out@[s])@) == sub_words(
            all.take(it.index() + 1),
            s,
            off,
            hop,
        ) by {
            lemma_sub_words_push(seen, pre, s, off, hop);
            assert(words_of(before[s]@) == sub_words(seen, s, off, hop));
        }
    }
    assert(all.take(all.len() as int) =~= all);
    out
}

/// The token ids of the sub-segments, one after the other.
pub open spec fn flat_ids(subs: Seq<SubSegmentView>) -> Seq<usize>
    decreases subs.len(),
{
    if subs.len() == 0 {
        Seq::empty()
    } else {
        flat_ids(subs.drop_last()) + subs.last().ids.map_values(|id: u32| id as usize)
    }
}

/// Where the ids of each sub-segment stand among the ids of all.
pub open spec fn spans_of(subs: Seq<SubSegmentView>) -> Seq<Span> {
    Seq::new(
        subs.len(),
        |i: int| Span {
            start: flat_ids(subs.take(i)).len() as usize,
            end: flat_ids(subs.take(i + 1)).len() as usize,
        },
    )
}

/// Puts the token ids of the sub-segments one after the other.
fn flatten(subs: &[SubSegment]) -> (r: (Vec<usize>, Vec<Span>))
    ensures
        r.0@ == flat_ids(sub_segments_of(subs@)),
        r.1@ == spans_of(sub_segments_of(subs@)),
        spans_within(r.1@, r.0@.len()),
{
    let ghost all = sub_segments_of(subs@);
    let mut flat: Vec<usize> = Vec::new();
    let mut spans: Vec<Span> = Vec::new();
    assert(all.take(0) =~= Seq::empty());
    for i in 0..subs.len()
        invariant
            all == sub_segments_of(subs@),
            flat@ == flat_ids(all.take(i as int)),
            spans@ == spans_of(all).take(i as int),
            spans_within(spans@, flat@.len()),
    {
        let ghost before = flat@;
        let ghost old_spans = spans@;
        let start: usize = flat.len();
        let ids = &subs[i].text_token_ids;
        let ghost wide = ids@.map_values(|id: u32| id as usize);
        assert(flat@ =~= before + wide.take(0));
        for k in 0..ids.len()
            invariant
                wide == ids@.map_values(|id: u32| id as usize),
                flat@ == before + wide.take(k as int),
        {
            flat.push(ids[k] as usize);
            assert(wide.take(k + 1) =~= wide.take(k as int).push(ids@[k as int] as usize));
            assert(flat@ =~= before + wide.take(k + 1));
        }
        assert(wide.take(ids@.len() as int) =~= wide);
        assert(all[i as int] == subs@[i as int]@);
        assert(all.take(i + 1).drop_last() =~= all.take(i as int));
        assert(flat@ == flat_ids(all.take(i + 1)));
        assert(flat@.len() == flat.len());
        assert(before.len() == start);
        spans.push(Span { start, end: flat.len() });
        assert(spans@ =~= spans_of(all).take(i + 1));
        assert(spans_within(spans@, flat@.len())) by {
            assert forall|k: int| 0 <= k < spans@.len() implies (#[trigger] spans@[k]).start
                <= spans@[k].end && spans@[k].end <= flat@.len() by {
                if k < i {
                    assert(spans@[k] == old_spans[k]);
                }
            }
        }
    }
    assert(all.take(all.len() as int) =~= all);
    assert(spans_of(all).take(all.len() as int) =~= spans_of(all));
    (flat, spans)
}

/// `n` empty lists of words.
fn empty_lists<P>(n: usize) -> (r: Vec<Vec<Word<P>>>)
    ensures
        r@.len() == n,
        forall|k: int| 0 <= k < n ==> (#[trigger] r@[k])@.len() == 0,
{
    let mut out: Vec<Vec<Word<P>>> = Vec::new();
    for s in 0..n
        invariant
            out@.len() == s,
            forall|k: int| 0 <= k < s ==> (#[trigger] out@[k])@.len() == 0,
    {
        out.push(Vec::new());
    }
    out
}

/// What the model found for the tokens of one chunk.
#[derive(Debug)]
pub struct ChunkAlignment<P> {
    pub alignments: Vec<TokenAlignment>,
    pub text_token_probs: Vec<P>,
}

/// What word timing depends on besides the tokens: the length of a frame,
/// the sampling rate, and whether words are split on characters alone.
#[derive(Clone, Copy, Debug)]
pub struct WordRules {
    pub hop_length: usize,
    pub sampling_rate: usize,
    pub unicode_only: bool,
}

impl WordRules {
    /// A frame has a length, and not an absurd one.
    pub open spec fn wf(&self) -> bool {
        0 < self.hop_length <= MAX_FEATURE_BUFFER_BYTES
    }

    /// How far a word may be off its sub-segment: half a second.
    pub open spec fn slack(&self) -> nat {
        second_of(self.sampling_rate as nat) / 2
    }

    /// The median word duration: half of the most frames a word may last,
    /// and no more than 0.7 seconds.
    pub open spec fn median(&self, max_frames: nat) -> nat {
        smaller(
            second_of(self.sampling_rate as nat) * 7 / 10,
            max_frames * frame_of(self.hop_length as nat) / 2,
        )
    }
}

/// The tokens of a chunk as the model aligned them.
pub open spec fn aligned_of<P>(
    subs: Seq<SubSegmentView>,
    path: Seq<TokenAlignment>,
    probs: Seq<P>,
) -> AlignedView<P> {
    AlignedView {
        ids: flat_ids(subs),
        probs,
        frames: Seq::new(flat_ids(subs).len(), |k: int| token_frame(path, k)),
    }
}

/// The words of each sub-segment, from the corrected words of the chunk.
pub open spec fn handed_out<P>(
    words: Seq<PreWordView<P>>,
    subs: Seq<SubSegmentView>,
    offset: nat,
    max_frames: nat,
    rules: WordRules,
) -> Seq<Seq<WordView<P>>> {
    Seq::new(
        subs.len(),
        |s: int|
            snapped(
                sub_words(words, s, offset, rules.hop_length as nat),
                Bounds {
                    start: offset + subs[s].start,
                    end: offset + subs[s].end,
                    median: rules.median(max_frames),
                    slack: rules.slack(),
                },
            ),
    )
}

/// The words of each sub-segment of a chunk that starts at `offset`.
pub open spec fn chunk_words<P>(
    decode: spec_fn(Seq<u32>) -> Result<Seq<char>, Seq<char>>,
    subs: Seq<SubSegmentView>,
    offset: nat,
    path: Seq<TokenAlignment>,
    probs: Seq<P>,
    rules: WordRules,
) -> Result<Seq<Seq<WordView<P>>>, Seq<CauseView>> {
    let n = flat_ids(subs).len();
    if n == 0 {
        Ok(Seq::new(subs.len(), |s: int| Seq::empty()))
    } else {
        match aligned_of(subs, path, probs).words(
            decode,
            spans_of(subs),
            least_frame(path, n as int),
            rules.unicode_only,
        ) {
            Err(e) => Err(e),
            Ok(words) => {
                let cap = median_cap_of(rules.hop_length as nat, rules.sampling_rate as nat);
                let max = max_duration(words, cap);
                Ok(handed_out(merged(clamped(words, max as u64)), subs, offset, max, rules))
            },
        }
    }
}

/// Grouped words belong to the sub-segment they were grouped for.
proof fn lemma_grouped_subs<P>(
    aligned: AlignedView<P>,
    runs: Seq<SubWordView>,
    sub: usize,
    unicode_only: bool,
    n: nat,
)
    requires
        sub < n,
    ensures
        subs_below(aligned.grouped(runs, sub, unicode_only), n),
    decreases runs.len(),
{
    if runs.len() > 0 {
        lemma_grouped_subs(aligned, runs.drop_last(), sub, unicode_only, n);
    }
}

/// The words of all spans belong to one of the spans.
proof fn lemma_span_words_subs<P>(
    aligned: AlignedView<P>,
    decode: spec_fn(Seq<u32>) -> Result<Seq<char>, Seq<char>>,
    spans: Seq<Span>,
    k: nat,
    unicode_only: bool,
)
    requires
        spans.len() <= usize::MAX,
    ensures
        aligned.span_words(decode, spans, k, unicode_only) matches Ok(words) ==> subs_below(
            words,
            spans.len(),
        ),
    decreases spans.len() - k,
{
    if k < spans.len() {
        lemma_span_words_subs(aligned, decode, spans, k + 1, unicode_only);
        let span = spans[k as int];
        if let Ok(runs) = span_runs(decode, aligned.ids, span.start as nat, span.end as nat) {
            lemma_grouped_subs(aligned, runs, k as usize, unicode_only, spans.len());
        }
    }
}

/// Folding marks forward leaves every word in its sub-segment.
proof fn lemma_forward_subs<P>(words: Seq<PreWordView<P>>, n: nat)
    requires
        subs_below(words, n),
    ensures
        subs_below(marks_forward(words), n),
    decreases words.len(),
{
    if words.len() >= 2 {
        lemma_forward_subs(words.skip(1), n);
        lemma_marks_forward_len(words.skip(1));
    }
}

/// Folding marks backward leaves every word in its sub-segment.
proof fn lemma_backward_subs<P>(words: Seq<PreWordView<P>>, n: nat)
    requires
        subs_below(words, n),
    ensures
        subs_below(marks_backward(words), n),
    decreases words.len(),
{
    if words.len() >= 2 {
        lemma_backward_subs(words.drop_last(), n);
        lemma_marks_backward_len(words.drop_last());
    }
}

/// Leaving words out leaves the others in their sub-segment.
proof fn lemma_with_text_subs<P>(words: Seq<PreWordView<P>>, n: nat)
    requires
        subs_below(words, n),
    ensures
        subs_below(with_text(words), n),
    decreases words.len(),
{
    let has_text = |w: PreWordView<P>| w.text.len() > 0;
    reveal(Seq::filter);
    if words.len() > 0 {
        lemma_with_text_subs(words.drop_last(), n);
        assert(words =~= words.drop_last().push(words.last()));
        words.drop_last().lemma_filter_push(words.last(), has_text);
    }
}

/// The corrections leave every word in its sub-segment.
proof fn lemma_corrected_subs<P>(words: Seq<PreWordView<P>>, max: u64, n: nat)
    requires
        subs_below(words, n),
    ensures
        subs_below(merged(clamped(words, max)), n),
{
    let all = clamped(words, max);
    assert(subs_below(all, n));
    lemma_forward_subs(all, n);
    lemma_backward_subs(marks_forward(all), n);
    lemma_with_text_subs(marks_backward(marks_forward(all)), n);
}

impl WordRules {
    /// The median word duration.
    fn median_time(&self, max_frames: u64) -> (r: u128)
        requires
            self.wf(),
        ensures
            r == self.median(max_frames as nat),
            r <= FAR,
    {
        let cap: u128 = units_per_second(self.sampling_rate) * 7 / 10;
        let half: u128 = frames_time(max_frames, self.hop_length) / 2;
        if cap <= half {
            cap
        } else {
            half
        }
    }
}

/// The words of a sub-segment start at instants of an audio.
proof fn lemma_sub_words_fit<P>(
    words: Seq<PreWordView<P>>,
    sub: int,
    offset: nat,
    hop_length: nat,
)
    requires
        offset <= FAR,
        hop_length <= MAX_FEATURE_BUFFER_BYTES,
    ensures
        forall|i: int|
            0 <= i < sub_words(words, sub, offset, hop_length).len() ==> (#[trigger] sub_words(
                words,
                sub,
                offset,
                hop_length,
            )[i]).start <= 2 * FAR,
{
    let here = words.filter(|w: PreWordView<P>| w.text.len() > 0 && w.sub == sub);
    assert forall|i: int| 0 <= i < here.len() implies (#[trigger] sub_words(
        words,
        sub,
        offset,
        hop_length,
    )[i]).start <= 2 * FAR by {
        let frames = here[i].start as nat;
        let frame = frame_of(hop_length);
        assert(frames * frame <= FAR) by (nonlinear_arith)
            requires
                0 <= frames <= 0xffff_ffff_ffff_ffff,
                0 <= frame <= 200 * 0x8000_0000,
                FAR == 0x1_0000_0000_0000_0000_0000_0000_0000,
        ;
    }
}

/// Whether the times of the sub-segments are instants of an audio.
pub open spec fn subs_fit(subs: Seq<SubSegmentView>) -> bool {
    forall|i: int|
        0 <= i < subs.len() ==> (#[trigger] subs[i]).start <= FAR && subs[i].end <= FAR
}

/// Turns what the model found for one chunk into the words of each of its
/// sub-segments. `offset` is where the chunk starts.
pub fn align_chunk<P: Copy>(
    tokenizer: &TextTokenizer,
    sub_segments: &[SubSegment],
    offset: u128,
    alignment: &ChunkAlignment<P>,
    rules: &WordRules,
) -> (r: Result<Vec<Vec<Word<P>>>, Error>)
    requires
        rules.wf(),
        offset <= FAR,
        subs_fit(sub_segments_of(sub_segments@)),
        alignment.text_token_probs@.len() >= flat_ids(sub_segments_of(sub_segments@)).len(),
    ensures
        match r {
            Ok(lists) => chunk_words(
                decoder(tokenizer@),
                sub_segments_of(sub_segments@),
                offset as nat,
                alignment.alignments@,
                alignment.text_token_probs@,
                *rules,
            ) == Ok::<_, Seq<CauseView>>(word_lists_of(lists@)),
            Err(e) => chunk_words(
                decoder(tokenizer@),
                sub_segments_of(sub_segments@),
                offset as nat,
                alignment.alignments@,
                alignment.text_token_probs@,
                *rules,
            ) == Err::<Seq<Seq<WordView<P>>>, _>(e@),
        },
{
    let ghost subs = sub_segments_of(sub_segments@);
    let n: usize = sub_segments.len();
    let (flat, spans) = flatten(sub_segments);
    if flat.len() == 0 {
        let lists = empty_lists(n);
        assert(word_lists_of(lists@) =~~= Seq::new(
            subs.len(),
            |s: int| Seq::<WordView<P>>::empty(),
        ));
        return Ok(lists);
    }
    let (frames, eot_frame) = token_first_frames(alignment.alignments.as_slice(), flat.len());
    let aligned = Aligned {
        ids: flat.as_slice(),
        probs: alignment.text_token_probs.as_slice(),
        frames: frames.as_slice(),
    };
    assert(aligned@ =~= aligned_of(subs, alignment.alignments@, alignment.text_token_probs@));
    let mut words = group_pre_words(
        tokenizer,
        &aligned,
        spans.as_slice(),
        eot_frame,
        rules.unicode_only,
    )?;
    let ghost pre = pre_words_of(words@);
    let max_frames: u64 = compute_max_duration_frames(
        &words,
        rules.hop_length,
        rules.sampling_rate,
    );
    clamp_sentence_boundaries(&mut words, max_frames);
    merge_punctuations(&mut words);
    proof {
        lemma_span_words_subs(aligned@, decoder(tokenizer@), spans@, 0, rules.unicode_only);
        assert(subs_below(pre, n as nat));
        lemma_corrected_subs(pre, max_frames, n as nat);
    }
    let ghost corrected = pre_words_of(words@);
    let mut lists = by_sub_segment(words, n, offset, rules.hop_length);
    let slack: u128 = units_per_second(rules.sampling_rate) / 2;
    let median: u128 = rules.median_time(max_frames);
    let ghost out = handed_out(corrected, subs, offset as nat, max_frames as nat, *rules);
    for s in 0..n
        invariant
            n == subs.len(),
            n == sub_segments@.len(),
            subs == sub_segments_of(sub_segments@),
            subs_fit(subs),
            rules.wf(),
            offset <= FAR,
            slack == rules.slack(),
            median == rules.median(max_frames as nat),
            median <= FAR,
            out == handed_out(corrected, subs, offset as nat, max_frames as nat, *rules),
            lists@.len() == n,
            forall|k: int| 0 <= k < s ==> words_of((#[trigger] lists@[k])@) == out[k],
            forall|k: int|
                s <= k < n ==> words_of((#[trigger] lists@[k])@) == sub_words(
                    corrected,
                    k,
                    offset as nat,
                    rules.hop_length as nat,
                ),
    {
        let sub = &sub_segments[s];
        assert(subs[s as int] == sub@);
        assert(words_of(lists@[s as int]@) == sub_words(
            corrected,
            s as int,
            offset as nat,
            rules.hop_length as nat,
        ));
        proof {
            lemma_sub_words_fit(corrected, s as int, offset as nat, rules.hop_length as nat);
            let list = lists@[s as int]@;
            assert forall|i: int| 0 <= i < list.len() implies (#[trigger] list[i]).start <= 4
                * FAR by {
                assert(words_of(list)[i] == list[i]@);
            }
        }
        snap_subsegment_boundaries(
            &mut lists[s],
            offset + sub.start_in_chunk,
            offset + sub.end_in_chunk,
            median,
            slack,
        );
    }
    assert(word_lists_of(lists@) =~= out);
    Ok(lists)
}

/// The width of the median filter over the attention weights.
pub const DEFAULT_MEDIAN_FILTER_WIDTH: i64 = 7;

/// One chunk of a batch: its sub-segments, where it starts in its audio,
/// and how many frames of it are audio.
#[derive(Debug)]
pub struct ChunkState {
    pub sub_segments: Vec<SubSegment>,
    pub offset: u128,
    pub num_frames: usize,
}

/// What a [`ChunkState`] holds.
#[verifier::ext_equal]
pub struct ChunkView {
    pub subs: Seq<SubSegmentView>,
    pub offset: nat,
    pub num_frames: nat,
}

impl View for ChunkState {
    type V = ChunkView;

    open spec fn view(&self) -> ChunkView {
        ChunkView {
            subs: sub_segments_of(self.sub_segments@),
            offset: self.offset as nat,
            num_frames: self.num_frames as nat,
        }
    }
}

/// The contents of a list of chunks.
pub open spec fn chunks_of(list: Seq<ChunkState>) -> Seq<ChunkView> {
    list.map_values(|c: ChunkState| c@)
}

/// The contents of the words of each chunk.
pub open spec fn chunk_lists_of<P>(lists: Seq<Vec<Vec<Word<P>>>>) -> Seq<Seq<Seq<WordView<P>>>> {
    lists.map_values(|list: Vec<Vec<Word<P>>>| word_lists_of(list@))
}

/// What the model is asked to align: the tokens that open the transcript,
/// the text tokens and the number of frames of each chunk.
#[derive(Debug)]
pub struct AlignRequest {
    pub start_sequence: Vec<usize>,
    pub text_tokens: Vec<Vec<usize>>,
    pub num_frames: Vec<usize>,
    pub median_filter_width: i64,
}

/// How the alignment of a batch starts: there is nothing to align, and the
/// words are known, or the model has to be asked.
pub enum AlignmentStart<P> {
    Done(Vec<Vec<Vec<Word<P>>>>),
    Ask(AlignRequest),
}

/// Whether no chunk has a text token.
pub open spec fn all_silent(chunks: Seq<ChunkView>) -> bool {
    forall|i: int| 0 <= i < chunks.len() ==> flat_ids((#[trigger] chunks[i]).subs).len() == 0
}

/// No words for any sub-segment.
pub open spec fn no_words<P>(chunks: Seq<ChunkView>) -> Seq<Seq<Seq<WordView<P>>>> {
    chunks.map_values(|c: ChunkView| Seq::new(c.subs.len(), |s: int| Seq::empty()))
}

/// Whether the model is asked for the text tokens and the frames of every
/// chunk.
pub open spec fn asks_for(request: AlignRequest, chunks: Seq<ChunkView>) -> bool {
    &&& request.text_tokens@.len() == chunks.len()
    &&& request.num_frames@.len() == chunks.len()
    &&& forall|i: int|
        0 <= i < chunks.len() ==> (#[trigger] request.text_tokens@[i])@ == flat_ids(chunks[i].subs)
    &&& forall|i: int|
        0 <= i < chunks.len() ==> #[trigger] request.num_frames@[i] == chunks[i].num_frames
    &&& request.median_filter_width == DEFAULT_MEDIAN_FILTER_WIDTH
}

/// Starts the alignment of a batch.
pub fn begin_alignment<P>(chunks: &Vec<ChunkState>, start_sequence: Vec<usize>) -> (r:
    AlignmentStart<P>)
    ensures
        match r {
            AlignmentStart::Done(lists) => all_silent(chunks_of(chunks@)) && chunk_lists_of(
                lists@,
            ) == no_words::<P>(chunks_of(chunks@)),
            AlignmentStart::Ask(request) => {
                &&& !all_silent(chunks_of(chunks@))
                &&& request.start_sequence@ == start_sequence@
                &&& asks_for(request, chunks_of(chunks@))
            },
        },
{
    let ghost all = chunks_of(chunks@);
    let mut text_tokens: Vec<Vec<usize>> = Vec::new();
    let mut num_frames: Vec<usize> = Vec::new();
    let mut silent: bool = true;
    for i in 0..chunks.len()
        invariant
            all == chunks_of(chunks@),
            text_tokens@.len() == i,
            num_frames@.len() == i,
            forall|k: int|
                0 <= k < i ==> (#[trigger] text_tokens@[k])@ == flat_ids(chunks@[k]@.subs),
            forall|k: int| 0 <= k < i ==> #[trigger] num_frames@[k] == chunks@[k].num_frames,
            silent <==> (forall|k: int|
                0 <= k < i ==> flat_ids((#[trigger] all[k]).subs).len() == 0),
    {
        let (flat, _) = flatten(chunks[i].sub_segments.as_slice());
        assert(all[i as int] == chunks@[i as int]@);
        if flat.len() > 0 {
            silent = false;
        }
        text_tokens.push(flat);
        num_frames.push(chunks[i].num_frames);
    }
    if silent {
        let mut lists: Vec<Vec<Vec<Word<P>>>> = Vec::new();
        for i in 0..chunks.len()
            invariant
                all == chunks_of(chunks@),
                lists@.len() == i,
                forall|k: int|
                    0 <= k < i ==> word_lists_of((#[trigger] lists@[k])@) == no_words::<P>(all)[k],
        {
            let list = empty_lists(chunks[i].sub_segments.len());
            assert(word_lists_of(list@) =~~= no_words::<P>(all)[i as int]);
            lists.push(list);
        }
        assert(chunk_lists_of(lists@) =~= no_words::<P>(all));
        return AlignmentStart::Done(lists);
    }
    AlignmentStart::Ask(
        AlignRequest {
            start_sequence,
            text_tokens,
            num_frames,
            median_filter_width: DEFAULT_MEDIAN_FILTER_WIDTH,
        },
    )
}

/// Whether the model gave each text token a probability.
pub open spec fn covered<P>(chunks: Seq<ChunkView>, results: Seq<ChunkAlignment<P>>) -> bool {
    forall|i: int|
        0 <= i < chunks.len() && i < results.len() ==> (#[trigger] results[i]).text_token_probs@.len()
            >= flat_ids(chunks[i].subs).len()
}

/// Whether the model gave each text token a probability.
pub fn is_covered<P>(chunks: &Vec<ChunkState>, results: &Vec<ChunkAlignment<P>>) -> (r: bool)
    ensures
        r == covered(chunks_of(chunks@), results@),
{
    let ghost all = chunks_of(chunks@);
    let mut i: usize = 0;
    while i < chunks.len() && i < results.len()
        invariant
            all == chunks_of(chunks@),
            i <= chunks@.len(),
            i <= results@.len(),
            forall|k: int|
                0 <= k < i ==> (#[trigger] results@[k]).text_token_probs@.len() >= flat_ids(
                    all[k].subs,
                ).len(),
        decreases chunks@.len() - i,
    {
        let (flat, _) = flatten(chunks[i].sub_segments.as_slice());
        assert(all[i as int] == chunks@[i as int]@);
        if results[i].text_token_probs.len() < flat.len() {
            assert(results@[i as int].text_token_probs@.len() < flat_ids(all[i as int].subs).len());
            return false;
        }
        i = i + 1;
    }
    true
}

/// Whether the times of every chunk are instants of an audio.
pub open spec fn chunks_fit(chunks: Seq<ChunkView>) -> bool {
    forall|i: int|
        0 <= i < chunks.len() ==> (#[trigger] chunks[i]).offset <= FAR && subs_fit(chunks[i].subs)
}

/// The words of the chunks from number `k` on.
pub open spec fn batch_words<P>(
    decode: spec_fn(Seq<u32>) -> Result<Seq<char>, Seq<char>>,
    chunks: Seq<ChunkView>,
    results: Seq<ChunkAlignment<P>>,
    rules: WordRules,
    k: nat,
) -> Result<Seq<Seq<Seq<WordView<P>>>>, Seq<CauseView>>
    decreases chunks.len() - k,
{
    if k >= chunks.len() {
        Ok(Seq::empty())
    } else {
        match chunk_words(
            decode,
            chunks[k as int].subs,
            chunks[k as int].offset,
            results[k as int].alignments@,
            results[k as int].text_token_probs@,
            rules,
        ) {
            Err(e) => Err(e),
            Ok(lists) => after(seq![lists], batch_words(decode, chunks, results, rules, k + 1)),
        }
    }
}

/// The chain for a wrong number of alignment results.
pub open spec fn alignment_count(expected: nat, got: nat) -> Seq<CauseView> {
    uncategorized(
        "expected "@ + decimal_of(expected) + " alignment results, got "@ + decimal_of(got),
    )
}

/// The words of a batch, given what the model found for it.
pub open spec fn aligned_words<P>(
    decode: spec_fn(Seq<u32>) -> Result<Seq<char>, Seq<char>>,
    chunks: Seq<ChunkView>,
    results: Seq<ChunkAlignment<P>>,
    rules: WordRules,
) -> Result<Seq<Seq<Seq<WordView<P>>>>, Seq<CauseView>> {
    if results.len() != chunks.len() {
        Err(alignment_count(chunks.len(), results.len()))
    } else {
        batch_words(decode, chunks, results, rules, 0)
    }
}

/// Turns what the model found for a batch into the words of each
/// sub-segment of each chunk.
pub fn align_batch<P: Copy>(
    tokenizer: &TextTokenizer,
    chunks: &Vec<ChunkState>,
    results: &Vec<ChunkAlignment<P>>,
    rules: &WordRules,
) -> (r: Result<Vec<Vec<Vec<Word<P>>>>, Error>)
    requires
        rules.wf(),
        chunks_fit(chunks_of(chunks@)),
        covered(chunks_of(chunks@), results@),
    ensures
        match r {
            Ok(lists) => aligned_words(
                decoder(tokenizer@),
                chunks_of(chunks@),
                results@,
                *rules,
            ) == Ok::<_, Seq<CauseView>>(chunk_lists_of(lists@)),
            Err(e) => aligned_words(
                decoder(tokenizer@),
                chunks_of(chunks@),
                results@,
                *rules,
            ) == Err::<Seq<Seq<Seq<WordView<P>>>>, _>(e@),
        },
{
    let ghost all = chunks_of(chunks@);
    let ghost decode = decoder(tokenizer@);
    if results.len() != chunks.len() {
        let mut message = "expected ".to_owned();
        message.append(decimal(chunks.len() as u128).as_str());
        message.append(" alignment results, got ");
        message.append(decimal(results.len() as u128).as_str());
        return Err(failure(message));
    }
    let ghost whole = batch_words(decode, all, results@, *rules, 0);
    let mut lists: Vec<Vec<Vec<Word<P>>>> = Vec::new();
    proof {
        lemma_after_nothing(chunk_lists_of(lists@), whole);
    }
    for k in 0..chunks.len()
        invariant
            rules.wf(),
            all == chunks_of(chunks@),
            decode == decoder(tokenizer@),
            chunks_fit(all),
            covered(all, results@),
            results@.len() == chunks@.len(),
            whole == batch_words(decode, all, results@, *rules, 0),
            whole == after(
                chunk_lists_of(lists@),
                batch_words(decode, all, results@, *rules, k as nat),
            ),
    {
        assert(all[k as int] == chunks@[k as int]@);
        let list = align_chunk(
            tokenizer,
            chunks[k].sub_segments.as_slice(),
            chunks[k].offset,
            &results[k],
            rules,
        )?;
        let ghost found = chunk_lists_of(lists@);
        let ghost added = word_lists_of(list@);
        lists.push(list);
        assert(chunk_lists_of(lists@) =~= found.push(added));
        proof {
            lemma_after_push(
                found,
                added,
                batch_words(decode, all, results@, *rules, k as nat + 1),
            );
        }
    }
    proof {
        lemma_after_all(chunk_lists_of(lists@));
    }
    Ok(lists)
}

/// Each sub-segment of an aligned chunk gets a list of words, none of which
/// ends before it starts.
pub proof fn law_word_spans_are_valid<P>(
    decode: spec_fn(Seq<u32>) -> Result<Seq<char>, Seq<char>>,
    subs: Seq<SubSegmentView>,
    offset: nat,
    path: Seq<TokenAlignment>,
    probs: Seq<P>,
    rules: WordRules,
)
    ensures
        chunk_words(decode, subs, offset, path, probs, rules) matches Ok(lists) ==> {
            &&& lists.len() == subs.len()
            &&& forall|s: int, i: int|
                0 <= s < lists.len() && 0 <= i < lists[s].len() ==> (#[trigger] lists[s][i]).start
                    <= lists[s][i].end
        },
{
    if let Ok(lists) = chunk_words(decode, subs, offset, path, probs, rules) {
        if flat_ids(subs).len() > 0 {
            let pre = aligned_of(subs, path, probs).words(
                decode,
                spans_of(subs),
                least_frame(path, flat_ids(subs).len() as int),
                rules.unicode_only,
            )->Ok_0;
            let cap = median_cap_of(rules.hop_length as nat, rules.sampling_rate as nat);
            let max = max_duration(pre, cap);
            let words = merged(clamped(pre, max as u64));
            assert forall|s: int, i: int|
                0 <= s < lists.len() && 0 <= i < lists[s].len() implies (#[trigger] lists[s][i]).start
                <= lists[s][i].end by {
                let raw = sub_words(words, s, offset, rules.hop_length as nat);
                let b = Bounds {
                    start: offset + subs[s].start,
                    end: offset + subs[s].end,
                    median: rules.median(max),
                    slack: rules.slack(),
                };
                assert(lists[s] == snapped(raw, b));
                law_snap_moves_only_the_outer_boundaries(raw, b, i);
            }
        }
    }
}

/// An aligned batch has a list of words for every sub-segment of every
/// chunk.
pub proof fn law_every_sub_segment_is_aligned<P>(
    decode: spec_fn(Seq<u32>) -> Result<Seq<char>, Seq<char>>,
    chunks: Seq<ChunkView>,
    results: Seq<ChunkAlignment<P>>,
    rules: WordRules,
    k: nat,
)
    requires
        k <= chunks.len(),
    ensures
        batch_words(decode, chunks, results, rules, k) matches Ok(lists) ==> {
            &&& lists.len() == chunks.len() - k
            &&& forall|i: int|
                0 <= i < lists.len() ==> (#[trigger] lists[i]).len() == chunks[k + i].subs.len()
        },
    decreases chunks.len() - k,
{
    if k < chunks.len() {
        law_every_sub_segment_is_aligned(decode, chunks, results, rules, k + 1);
        law_word_spans_are_valid(
            decode,
            chunks[k as int].subs,
            chunks[k as int].offset,
            results[k as int].alignments@,
            results[k as int].text_token_probs@,
            rules,
        );
        if let Ok(lists) = batch_words(decode, chunks, results, rules, k) {
            let later = batch_words(decode, chunks, results, rules, k + 1)->Ok_0;
            assert forall|i: int| 0 <= i < lists.len() implies (#[trigger] lists[i]).len()
                == chunks[k + i].subs.len() by {
                if i > 0 {
                    assert(lists[i] == later[i - 1]);
                }
            }
        }
    }
}

/// The chunks of a batch are aligned one by one: the words of a chunk
/// depend on the chunk and on what the model found for it alone.
pub proof fn law_chunks_are_aligned_one_by_one<P>(
    decode: spec_fn(Seq<u32>) -> Result<Seq<char>, Seq<char>>,
    chunks: Seq<ChunkView>,
    results: Seq<ChunkAlignment<P>>,
    rules: WordRules,
    k: nat,
)
    requires
        k <= chunks.len(),
    ensures
        batch_words(decode, chunks, results, rules, k) matches Ok(lists) ==> {
            &&& lists.len() == chunks.len() - k
            &&& forall|i: int|
                0 <= i < lists.len() ==> chunk_words(
                    decode,
                    chunks[k + i].subs,
                    chunks[k + i].offset,
                    results[k + i].alignments@,
                    results[k + i].text_token_probs@,
                    rules,
                ) == Ok::<_, Seq<CauseView>>(#[trigger] lists[i])
        },
    decreases chunks.len() - k,
{
    if k < chunks.len() {
        law_chunks_are_aligned_one_by_one(decode, chunks, results, rules, k + 1);
        if let Ok(lists) = batch_words(decode, chunks, results, rules, k) {
            let later = batch_words(decode, chunks, results, rules, k + 1)->Ok_0;
            assert forall|i: int| 0 <= i < lists.len() implies chunk_words(
                decode,
                chunks[k + i].subs,
                chunks[k + i].offset,
                results[k + i].alignments@,
                results[k + i].text_token_probs@,
                rules,
            ) == Ok::<_, Seq<CauseView>>(#[trigger] lists[i]) by {
                if i > 0 {
                    assert(lists[i] == later[i - 1]);
                }
            }
        }
    }
}

/// The first start moves only where it comes more than the slack before the
/// sub-segment, and the word reaches into it. It then moves to the
/// sub-segment's start, or further back, so that the word lasts the median
/// duration where there is room for it. The last end moves only where it
/// comes more than the slack after the sub-segment, and the word starts
/// inside it. It then moves to the sub-segment's end, or further on, so
/// that the word lasts the median duration.
pub proof fn law_snap_meets_the_sub_segment<P>(words: Seq<WordView<P>>, b: Bounds)
    requires
        words.len() > 0,
    ensures
        ({
            let before = words[0];
            let start = snapped(words, b)[0].start;
            let early = before.start + b.slack < b.start && b.start < before.end;
            &&& !early ==> start == before.start
            &&& early ==> {
                &&& start <= b.start
                &&& start == b.start || start + b.median == before.end || start == 0
                &&& b.median <= before.end ==> start + b.median <= before.end
                &&& b.median > before.end ==> start == 0
            }
        }),
        ({
            let before = words.last();
            let from = snapped(words, b).last().start;
            let end = snapped(words, b).last().end;
            let late = b.end + b.slack < before.end && from < b.end;
            &&& !late ==> end == before.end
            &&& late ==> {
                &&& end >= b.end
                &&& end >= from + b.median
                &&& end == b.end || end == from + b.median
            }
        }),
{
}

/// A word may be half a second off its sub-segment, no less and no more.
pub proof fn law_slack_is_half_a_second(rules: WordRules)
    ensures
        2 * rules.slack() == second_of(rules.sampling_rate as nat),
{
}

/// The median word duration is half of the most time that a word next to
/// the end of a sentence may last, or 0.7 seconds if that is less, to the
/// unit.
pub proof fn law_median_is_half_the_cap(rules: WordRules, max_frames: nat)
    ensures
        ({
            let median = rules.median(max_frames);
            let second = second_of(rules.sampling_rate as nat);
            let cap = max_frames * (200 * rules.hop_length as nat);
            &&& 10 * median <= 7 * second
            &&& 2 * median <= cap
            &&& 10 * median == 7 * second || 2 * median + 1 >= cap
        }),
{
    assert(second_of(rules.sampling_rate as nat) * 7 / 10 == 70 * rules.sampling_rate);
}

/// The words of a sub-segment are the words of the chunk that belong to it
/// and have a text, in order: with the same probabilities, the text without
/// its leading white space, and the frames turned into times that count
/// from the start of the audio. A frame lasts two hops. The result tells
/// which word of the chunk each one is.
pub proof fn law_words_go_to_their_sub_segment<P>(
    words: Seq<PreWordView<P>>,
    sub: int,
    offset: nat,
    hop_length: nat,
) -> (at: Seq<int>)
    ensures
        ({
            let own = sub_words(words, sub, offset, hop_length);
            &&& at.len() == own.len()
            &&& forall|i: int, j: int|
                0 <= i < j < at.len() ==> (#[trigger] at[i]) < (#[trigger] at[j])
            &&& forall|i: int| 0 <= i < at.len() ==> 0 <= #[trigger] at[i] < words.len()
            &&& forall|i: int|
                0 <= i < own.len() ==> is_timed(
                    words[at[i]],
                    sub,
                    offset,
                    hop_length,
                    #[trigger] own[i],
                )
            &&& forall|j: int|
                0 <= j < words.len() && (#[trigger] words[j]).sub == sub && words[j].text.len() > 0
                    ==> at.contains(j)
        }),
    decreases words.len(),
{
    let own = sub_words(words, sub, offset, hop_length);
    reveal(Seq::filter);
    if words.len() == 0 {
        assert(own =~= Seq::empty());
        Seq::empty()
    } else {
        let head = words.drop_last();
        let last = words.last();
        let n = head.len() as int;
        let old = law_words_go_to_their_sub_segment(head, sub, offset, hop_length);
        assert(words =~= head.push(last));
        lemma_sub_words_push(head, last, sub, offset, hop_length);
        let earlier = sub_words(head, sub, offset, hop_length);
        let at = if last.text.len() > 0 && last.sub == sub {
            old.push(n)
        } else {
            old
        };
        assert forall|i: int| 0 <= i < own.len() implies is_timed(
            words[at[i]],
            sub,
            offset,
            hop_length,
            #[trigger] own[i],
        ) by {
            if i < earlier.len() {
                assert(own[i] == earlier[i]);
                assert(head[old[i]] == words[old[i]]);
            }
        }
        assert forall|j: int|
            0 <= j < words.len() && (#[trigger] words[j]).sub == sub && words[j].text.len()
                > 0 implies at.contains(j) by {
            if j < n {
                assert(head[j] == words[j]);
                assert(old.contains(j));
                let i = choose|i: int| 0 <= i < old.len() && old[i] == j;
                assert(at[i] == j);
            } else {
                assert(at[at.len() - 1] == j);
            }
        }
        at
    }
}

/// Whether `word` is `pre`, a word of sub-segment `sub`, in times.
pub open spec fn is_timed<P>(
    pre: PreWordView<P>,
    sub: int,
    offset: nat,
    hop_length: nat,
    word: WordView<P>,
) -> bool {
    let start = offset + pre.start as nat * (200 * hop_length);
    let end = offset + pre.end as nat * (200 * hop_length);
    &&& pre.sub == sub
    &&& pre.text.len() > 0
    &&& word.text == trim_start_of(pre.text)
    &&& word.probs == pre.probs
    &&& word.start == start
    &&& word.end >= start
    &&& end >= start ==> word.end == end
    &&& end < start ==> word.end == start
}

/// The span of a sub-segment holds that sub-segment's ids, and spans follow
/// each other without a gap.
pub proof fn law_spans_hold_their_ids(subs: Seq<SubSegmentView>, s: int)
    requires
        0 <= s < subs.len(),
        flat_ids(subs).len() <= usize::MAX,
    ensures
        ({
            let span = spans_of(subs)[s];
            &&& spans_of(subs).len() == subs.len()
            &&& span.start <= span.end <= flat_ids(subs).len()
            &&& span.end - span.start == subs[s].ids.len()
            &&& forall|i: int|
                0 <= i < subs[s].ids.len() ==> flat_ids(subs)[span.start + i] == (
                #[trigger] subs[s].ids[i]) as usize
            &&& s == 0 ==> span.start == 0
            &&& s + 1 < subs.len() ==> spans_of(subs)[s + 1].start == span.end
            &&& s + 1 == subs.len() ==> span.end == flat_ids(subs).len()
        }),
{
    let head = subs.take(s);
    let upto = subs.take(s + 1);
    assert(upto.drop_last() =~= head);
    lemma_flat_ids_prefix(subs, s);
    lemma_flat_ids_prefix(subs, s + 1);
    let own = subs[s].ids.map_values(|id: u32| id as usize);
    assert(flat_ids(upto) == flat_ids(head) + own);
    assert forall|i: int| 0 <= i < subs[s].ids.len() implies flat_ids(subs)[flat_ids(head).len()
        + i] == (#[trigger] subs[s].ids[i]) as usize by {
        assert(flat_ids(subs)[flat_ids(head).len() + i] == flat_ids(upto)[flat_ids(head).len()
            + i]);
    }
    assert(subs.take(subs.len() as int) =~= subs);
    assert(subs.take(0) =~= Seq::empty());
}

/// The ids of the first sub-segments come first among the ids of all.
proof fn lemma_flat_ids_prefix(subs: Seq<SubSegmentView>, n: int)
    requires
        0 <= n <= subs.len(),
    ensures
        flat_ids(subs.take(n)).len() <= flat_ids(subs).len(),
        flat_ids(subs).take(flat_ids(subs.take(n)).len() as int) == flat_ids(subs.take(n)),
        forall|i: int|
            0 <= i < flat_ids(subs.take(n)).len() ==> #[trigger] flat_ids(subs)[i] == flat_ids(
                subs.take(n),
            )[i],
    decreases subs.len(),
{
    if n < subs.len() {
        lemma_flat_ids_prefix(subs.drop_last(), n);
        assert(subs.drop_last().take(n) =~= subs.take(n));
        let part = flat_ids(subs.take(n));
        let most = flat_ids(subs.drop_last());
        assert forall|i: int| 0 <= i < part.len() implies #[trigger] flat_ids(subs)[i]
            == part[i] by {
            assert(most[i] == part[i]);
        }
        assert(flat_ids(subs).take(part.len() as int) =~= part);
    } else {
        assert(subs.take(n) =~= subs);
        assert(flat_ids(subs).take(flat_ids(subs).len() as int) =~= flat_ids(subs));
    }
}

/// The median word duration of a chunk, in time.
pub open spec fn typical_duration<P>(
    decode: spec_fn(Seq<u32>) -> Result<Seq<char>, Seq<char>>,
    subs: Seq<SubSegmentView>,
    path: Seq<TokenAlignment>,
    probs: Seq<P>,
    rules: WordRules,
) -> nat {
    let words = aligned_of(subs, path, probs).words(
        decode,
        spans_of(subs),
        least_frame(path, flat_ids(subs).len() as int),
        rules.unicode_only,
    )->Ok_0;
    rules.median(
        max_duration(
            words,
            median_cap_of(rules.hop_length as nat, rules.sampling_rate as nat),
        ),
    )
}

/// The words of a sub-segment stay near it, wherever in the audio its chunk
/// is. A last word that starts before the sub-segment ends reaches past its
/// end by half a second or the median word duration at most, whichever is
/// more, and a first word that ends after the sub-segment starts comes that
/// much before its start at most. Both are counted in the audio: the
/// sub-segment's times start with the chunk.
pub proof fn law_words_stay_near_their_sub_segment<P>(
    decode: spec_fn(Seq<u32>) -> Result<Seq<char>, Seq<char>>,
    subs: Seq<SubSegmentView>,
    offset: nat,
    path: Seq<TokenAlignment>,
    probs: Seq<P>,
    rules: WordRules,
    s: int,
)
    requires
        0 <= s < subs.len(),
    ensures
        chunk_words(decode, subs, offset, path, probs, rules) matches Ok(lists) ==> {
            let list = lists[s];
            let start = offset + subs[s].start;
            let end = offset + subs[s].end;
            let half = 50 * rules.sampling_rate;
            let median = typical_duration(decode, subs, path, probs, rules);
            &&& list.len() > 0 && list.last().start < end ==> list.last().end <= end + half
                || list.last().end <= end + median
            &&& list.len() > 0 && list[0].end > start ==> start <= list[0].start + half || start
                <= list[0].start + median
            &&& 10 * median <= 700 * rules.sampling_rate
        },
{
    if let Ok(lists) = chunk_words(decode, subs, offset, path, probs, rules) {
        if flat_ids(subs).len() > 0 {
            let pre = aligned_of(subs, path, probs).words(
                decode,
                spans_of(subs),
                least_frame(path, flat_ids(subs).len() as int),
                rules.unicode_only,
            )->Ok_0;
            let cap = median_cap_of(rules.hop_length as nat, rules.sampling_rate as nat);
            let max = max_duration(pre, cap);
            let words = merged(clamped(pre, max as u64));
            let raw = sub_words(words, s, offset, rules.hop_length as nat);
            let b = Bounds {
                start: offset + subs[s].start,
                end: offset + subs[s].end,
                median: rules.median(max),
                slack: rules.slack(),
            };
            assert(lists[s] == snapped(raw, b));
            law_median_is_half_the_cap(rules, max);
            if raw.len() > 0 {
                law_snap_meets_the_sub_segment(raw, b);
            }
        }
    }
}

/// Whether a word is another one moved by `offset`.
pub open spec fn is_moved<P>(word: WordView<P>, other: WordView<P>, offset: nat) -> bool {
    &&& word.start == other.start + offset
    &&& word.end == other.end + offset
    &&& word.text == other.text
    &&& word.probs == other.probs
}

/// Where a chunk starts moves its words and does nothing else: a chunk that
/// starts at `offset` has the words it would have at the start of an audio,
/// each with its start and its end moved by `offset`. The one exception is
/// a first word that starts with the audio although its sub-segment starts
/// more than half a second in: there was no room before it.
pub proof fn law_offsets_move_words<P>(
    decode: spec_fn(Seq<u32>) -> Result<Seq<char>, Seq<char>>,
    subs: Seq<SubSegmentView>,
    offset: nat,
    path: Seq<TokenAlignment>,
    probs: Seq<P>,
    rules: WordRules,
)
    ensures
        match (
            chunk_words(decode, subs, offset, path, probs, rules),
            chunk_words(decode, subs, 0, path, probs, rules),
        ) {
            (Ok(there), Ok(here)) => {
                &&& there.len() == here.len() == subs.len()
                &&& forall|s: int|
                    0 <= s < subs.len() ==> (#[trigger] there[s]).len() == here[s].len()
                &&& forall|s: int, i: int|
                    0 <= s < subs.len() && 0 <= i < there[s].len() && (i > 0 || here[s][0].start > 0
                        || subs[s].start <= 50 * rules.sampling_rate) ==> is_moved(
                        #[trigger] there[s][i],
                        here[s][i],
                        offset,
                    )
            },
            (Err(there), Err(here)) => there == here,
            _ => false,
        },
{
    if flat_ids(subs).len() > 0 {
        if let Ok(pre) = aligned_of(subs, path, probs).words(
            decode,
            spans_of(subs),
            least_frame(path, flat_ids(subs).len() as int),
            rules.unicode_only,
        ) {
            let cap = median_cap_of(rules.hop_length as nat, rules.sampling_rate as nat);
            let max = max_duration(pre, cap);
            let words = merged(clamped(pre, max as u64));
            let there = handed_out(words, subs, offset, max, rules);
            let here = handed_out(words, subs, 0, max, rules);
            assert forall|s: int| 0 <= s < subs.len() implies (#[trigger] there[s]).len()
                == here[s].len() && forall|i: int|
                0 <= i < there[s].len() && (i > 0 || here[s][0].start > 0 || subs[s].start <= 50
                    * rules.sampling_rate) ==> is_moved(
                    #[trigger] there[s][i],
                    here[s][i],
                    offset,
                ) by {
                lemma_snap_moves(words, subs[s], s, offset, max, rules);
            }
        }
    }
}

/// Moving a chunk moves the words of a sub-segment.
proof fn lemma_snap_moves<P>(
    words: Seq<PreWordView<P>>,
    sub: SubSegmentView,
    s: int,
    offset: nat,
    max_frames: nat,
    rules: WordRules,
)
    ensures
        ({
            let hop = rules.hop_length as nat;
            let median = rules.median(max_frames);
            let slack = rules.slack();
            let there = snapped(
                sub_words(words, s, offset, hop),
                Bounds { start: offset + sub.start, end: offset + sub.end, median, slack },
            );
            let here = snapped(
                sub_words(words, s, 0, hop),
                Bounds { start: 0 + sub.start, end: 0 + sub.end, median, slack },
            );
            &&& there.len() == here.len()
            &&& forall|i: int|
                0 <= i < there.len() && (i > 0 || here[0].start > 0 || sub.start <= 50
                    * rules.sampling_rate) ==> is_moved(#[trigger] there[i], here[i], offset)
        }),
{
    let hop = rules.hop_length as nat;
    let median = rules.median(max_frames);
    let slack = rules.slack();
    let far = sub_words(words, s, offset, hop);
    let near = sub_words(words, s, 0, hop);
    let there = snapped(
        far,
        Bounds { start: offset + sub.start, end: offset + sub.end, median, slack },
    );
    let here = snapped(near, Bounds { start: 0 + sub.start, end: 0 + sub.end, median, slack });
    assert forall|i: int| 0 <= i < far.len() implies is_moved(
        #[trigger] far[i],
        near[i],
        offset,
    ) by {
        let pre = words.filter(|w: PreWordView<P>| w.text.len() > 0 && w.sub == s)[i];
        assert(far[i] == timed(pre, offset, hop));
        assert(near[i] == timed(pre, 0, hop));
    }
    assert forall|i: int|
        0 <= i < there.len() && (i > 0 || here[0].start > 0 || sub.start <= 50
            * rules.sampling_rate) implies is_moved(#[trigger] there[i], here[i], offset) by {
        assert(is_moved(far[i], near[i], offset));
        assert(is_moved(far[0], near[0], offset));
    }
}

/// Where a word of a chunk comes from. The words before any correction are
/// `raw`; each word that comes out is one of them, its host, together with
/// the marks around it. It has their texts and probabilities in order, is
/// listed for the host's own sub-segment, and has the host's times after
/// the clamp, but for the first start and the last end of its sub-segment,
/// which may be snapped. The result tells which words it is made of.
pub proof fn law_words_have_hosts<P>(
    decode: spec_fn(Seq<u32>) -> Result<Seq<char>, Seq<char>>,
    subs: Seq<SubSegmentView>,
    offset: nat,
    path: Seq<TokenAlignment>,
    probs: Seq<P>,
    rules: WordRules,
    raw: Seq<PreWordView<P>>,
    lists: Seq<Seq<WordView<P>>>,
    s: int,
    i: int,
) -> (fold: Fold)
    requires
        flat_ids(subs).len() > 0,
        aligned_of(subs, path, probs).words(
            decode,
            spans_of(subs),
            least_frame(path, flat_ids(subs).len() as int),
            rules.unicode_only,
        ) == Ok::<_, Seq<CauseView>>(raw),
        forall|k: int| 0 <= k < raw.len() ==> (#[trigger] raw[k]).text.len() > 0,
        chunk_words(decode, subs, offset, path, probs, rules) == Ok::<_, Seq<CauseView>>(lists),
        0 <= s < subs.len(),
        0 <= i < lists[s].len(),
    ensures
        ({
            let max = max_duration(
                raw,
                median_cap_of(rules.hop_length as nat, rules.sampling_rate as nat),
            );
            let host = clamped(raw, max as u64)[fold.host];
            let frame = 200 * rules.hop_length as nat;
            &&& 0 <= fold.first <= fold.host < fold.end <= raw.len()
            &&& lists[s][i].text == trim_start_of(text_of(raw.subrange(fold.first, fold.end)))
            &&& lists[s][i].probs == probs_of(raw.subrange(fold.first, fold.end))
            &&& raw[fold.host].sub == s
            &&& i > 0 ==> lists[s][i].start == offset + host.start * frame
            &&& i < lists[s].len() - 1 && host.start <= host.end ==> lists[s][i].end == offset
                + host.end * frame
        }),
{
    let max = max_duration(
        raw,
        median_cap_of(rules.hop_length as nat, rules.sampling_rate as nat),
    );
    let capped = clamped(raw, max as u64);
    let words = merged(capped);
    let hop = rules.hop_length as nat;
    let own = sub_words(words, s, offset, hop);
    let b = Bounds {
        start: offset + subs[s].start,
        end: offset + subs[s].end,
        median: rules.median(max),
        slack: rules.slack(),
    };
    assert(lists[s] == snapped(own, b));
    law_snap_moves_only_the_outer_boundaries(own, b, i);
    let at = law_words_go_to_their_sub_segment(words, s, offset, hop);
    assert(is_timed(words[at[i]], s, offset, hop, own[i]));
    assert forall|k: int| 0 <= k < capped.len() implies (#[trigger] capped[k]).text.len() > 0 by {
        assert(raw[k].text.len() > 0);
    }
    let folds = law_merge_folds_marks_into_their_hosts(capped);
    let fold = folds[at[i]];
    assert(is_fold(capped, fold, words[at[i]]));
    let one = raw.subrange(fold.first, fold.end);
    let other = capped.subrange(fold.first, fold.end);
    assert(one.map_values(|w: PreWordView<P>| w.text) =~= other.map_values(
        |w: PreWordView<P>| w.text,
    ));
    assert(one.map_values(|w: PreWordView<P>| w.probs) =~= other.map_values(
        |w: PreWordView<P>| w.probs,
    ));
    assert(capped[fold.host].sub == raw[fold.host].sub);
    let host = capped[fold.host];
    if host.start <= host.end {
        assert(host.start * (200 * hop) <= host.end * (200 * hop)) by (nonlinear_arith)
            requires
                host.start <= host.end,
        ;
    }
    fold
}

/// A token of a chunk has its own id, its own probability and its own
/// frame: the one of the first step that the path takes on it.
pub proof fn law_tokens_have_their_own_frames<P>(
    subs: Seq<SubSegmentView>,
    path: Seq<TokenAlignment>,
    probs: Seq<P>,
    k: int,
    i: int,
)
    requires
        0 <= k < flat_ids(subs).len(),
        0 <= i < path.len(),
        path[i].token_x == k,
        forall|j: int| 0 <= j < i ==> (#[trigger] path[j]).token_x != k,
    ensures
        ({
            let aligned = aligned_of(subs, path, probs);
            &&& aligned.frames.len() == aligned.ids.len() == flat_ids(subs).len()
            &&& aligned.ids[k] == flat_ids(subs)[k]
            &&& aligned.probs[k] == probs[k]
            &&& path[i].frame_x >= 0 ==> aligned.frames[k] == path[i].frame_x
            &&& path[i].frame_x < 0 ==> aligned.frames[k] == 0
        }),
{
    law_first_step_places_the_token(path, k, i);
}

/// A batch is aligned only where there is one result for each chunk, and
/// then every chunk is.
pub proof fn law_every_chunk_needs_its_result<P>(
    decode: spec_fn(Seq<u32>) -> Result<Seq<char>, Seq<char>>,
    chunks: Seq<ChunkView>,
    results: Seq<ChunkAlignment<P>>,
    rules: WordRules,
)
    ensures
        results.len() != chunks.len() ==> aligned_words(decode, chunks, results, rules) == Err::<
            Seq<Seq<Seq<WordView<P>>>>,
            _,
        >(
            uncategorized(
                "expected "@ + decimal_of(chunks.len()) + " alignment results, got "@ + decimal_of(
                    results.len(),
                ),
            ),
        ),
        aligned_words(decode, chunks, results, rules) matches Ok(lists) ==> {
            &&& results.len() == chunks.len() == lists.len()
            &&& forall|g: int|
                0 <= g < chunks.len() ==> chunk_words(
                    decode,
                    chunks[g].subs,
                    chunks[g].offset,
                    results[g].alignments@,
                    results[g].text_token_probs@,
                    rules,
                ) == Ok::<_, Seq<CauseView>>(#[trigger] lists[g])
        },
{
    law_chunks_are_aligned_one_by_one(decode, chunks, results, rules, 0);
    if let Ok(lists) = aligned_words(decode, chunks, results, rules) {
        assert forall|g: int| 0 <= g < chunks.len() implies chunk_words(
            decode,
            chunks[g].subs,
            chunks[g].offset,
            results[g].alignments@,
            results[g].text_token_probs@,
            rules,
        ) == Ok::<_, Seq<CauseView>>(#[trigger] lists[g]) by {
            assert(chunks[0 + g] == chunks[g]);
        }
    }
}

/// The probabilities that the model gives suffice exactly where no chunk
/// has more text tokens than its result has probabilities.
pub proof fn law_every_token_needs_a_probability<P>(
    chunks: Seq<ChunkView>,
    results: Seq<ChunkAlignment<P>>,
    i: int,
)
    requires
        0 <= i < chunks.len(),
        i < results.len(),
    ensures
        flat_ids(chunks[i].subs).len() > results[i].text_token_probs@.len() ==> !covered(
            chunks,
            results,
        ),
        (forall|k: int|
            0 <= k < chunks.len() && k < results.len() ==> flat_ids(chunks[k].subs).len() <= (
            #[trigger] results[k]).text_token_probs@.len()) ==> covered(chunks, results),
{
    if covered(chunks, results) {
        assert(results[i].text_token_probs@.len() >= flat_ids(chunks[i].subs).len());
    }
}

/// No word is lost on the way to its sub-segment: each word that merging
/// leaves is listed for the sub-segment it belongs to, with its text and
/// its probabilities. The result tells where.
pub proof fn law_every_word_is_listed<P>(
    decode: spec_fn(Seq<u32>) -> Result<Seq<char>, Seq<char>>,
    subs: Seq<SubSegmentView>,
    offset: nat,
    path: Seq<TokenAlignment>,
    probs: Seq<P>,
    rules: WordRules,
    raw: Seq<PreWordView<P>>,
    lists: Seq<Seq<WordView<P>>>,
    j: int,
) -> (at: (int, int))
    requires
        flat_ids(subs).len() > 0,
        subs.len() <= usize::MAX,
        aligned_of(subs, path, probs).words(
            decode,
            spans_of(subs),
            least_frame(path, flat_ids(subs).len() as int),
            rules.unicode_only,
        ) == Ok::<_, Seq<CauseView>>(raw),
        chunk_words(decode, subs, offset, path, probs, rules) == Ok::<_, Seq<CauseView>>(lists),
        raw.len() >= 2,
        0 <= j < merged(
            clamped(
                raw,
                max_duration(
                    raw,
                    median_cap_of(rules.hop_length as nat, rules.sampling_rate as nat),
                ) as u64,
            ),
        ).len(),
    ensures
        ({
            let max = max_duration(
                raw,
                median_cap_of(rules.hop_length as nat, rules.sampling_rate as nat),
            );
            let word = merged(clamped(raw, max as u64))[j];
            &&& at.0 == word.sub
            &&& 0 <= at.0 < lists.len()
            &&& 0 <= at.1 < lists[at.0].len()
            &&& lists[at.0][at.1].text == trim_start_of(word.text)
            &&& lists[at.0][at.1].probs == word.probs
        }),
{
    let max = max_duration(
        raw,
        median_cap_of(rules.hop_length as nat, rules.sampling_rate as nat),
    );
    let capped = clamped(raw, max as u64);
    let words = merged(capped);
    let word = words[j];
    let s = word.sub as int;
    let hop = rules.hop_length as nat;
    let spans = spans_of(subs);
    lemma_span_words_subs(aligned_of(subs, path, probs), decode, spans, 0, rules.unicode_only);
    let aligned = aligned_of(subs, path, probs);
    let plain = aligned.span_words(decode, spans, 0, rules.unicode_only)->Ok_0;
    assert(subs_below(raw, subs.len())) by {
        assert forall|k: int| 0 <= k < raw.len() implies (#[trigger] raw[k]).sub
            < subs.len() by {
            assert(plain[k].sub < subs.len());
        }
    }
    lemma_corrected_subs(raw, max as u64, subs.len());
    law_merge_leaves_no_blank_word(capped, j);
    let own = sub_words(words, s, offset, hop);
    let places = law_words_go_to_their_sub_segment(words, s, offset, hop);
    assert(places.contains(j));
    let i = choose|i: int| 0 <= i < places.len() && places[i] == j;
    assert(is_timed(words[places[i]], s, offset, hop, own[i]));
    let b = Bounds {
        start: offset + subs[s].start,
        end: offset + subs[s].end,
        median: rules.median(max),
        slack: rules.slack(),
    };
    assert(lists[s] == snapped(own, b));
    law_snap_moves_only_the_outer_boundaries(own, b, i);
    (s, i)
}

} // verus!
