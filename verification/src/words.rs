//! Corrections to the raw boundaries of words.

use vstd::prelude::*;
use vstd::relations::{sorted_by, total_ordering};
use vstd::string::*;

use crate::align::{
    gathered, is_single_char_member, lemma_gathered_concat, lemma_gathered_one, pre_words_of,
    probs_of, single_member, text_of, tokens_of, PreWord, PreWordView,
};
use crate::text::{
    blank, ends_with_space, law_sole_character_stands_alone, law_trim_leaves_the_visible_stretch,
    leads_with_space, sole_char_of, starts_with_space, white_space,
};
use crate::tokens::smaller;

verus! {

/// Marks that are folded into the word after them.
pub const PREPEND_PUNCT: &'static str = "\"'\u{201C}\u{00BF}([{-";

/// Marks that are folded into the word before them.
pub const APPEND_PUNCT: &'static str =
    "\"'.\u{3002},\u{FF0C}!\u{FF01}?\u{FF1F}:\u{FF1A}\u{201D})]}\u{3001}";

/// Marks that end a sentence.
pub const SENTENCE_END_MARKS: &'static str = ".\u{3002}!\u{FF01}?\u{FF1F}";

/// The most frames the median word duration counts for: 0.7 seconds, in
/// whole frames. A frame lasts two hops.
pub open spec fn median_cap_of(hop_length: nat, sampling_rate: nat) -> nat {
    (7 * sampling_rate + 10 * hop_length) / (20 * hop_length)
}

/// The most frames the median word duration counts for.
pub fn median_cap_frames(hop_length: usize, sampling_rate: usize) -> (r: u64)
    requires
        hop_length > 0,
    ensures
        r == median_cap_of(hop_length as nat, sampling_rate as nat),
        r <= 0x6000_0000_0000_0000,
{
    let over: u128 = 7 * (sampling_rate as u128) + 10 * (hop_length as u128);
    let by: u128 = 20 * (hop_length as u128);
    assert(over / by <= 0x6000_0000_0000_0000) by (nonlinear_arith)
        requires
            over == 7 * sampling_rate + 10 * hop_length,
            by == 20 * hop_length,
            1 <= hop_length,
            0 <= sampling_rate <= 0xffff_ffff_ffff_ffff,
    ;
    (over / by) as u64
}

/// The order of durations.
pub open spec fn at_most() -> spec_fn(u64, u64) -> bool {
    |a: u64, b: u64| a <= b
}

/// The durations of the words that last at all.
pub open spec fn durations<P>(words: Seq<PreWordView<P>>) -> Seq<u64> {
    words.map_values(|w: PreWordView<P>| w.duration()).filter(|d: u64| d > 0)
}

/// Twice the median.
pub open spec fn twice_median(values: Seq<u64>) -> nat {
    let sorted = values.sort_by(at_most());
    let mid = (values.len() / 2) as int;
    if values.len() % 2 == 1 {
        2 * sorted[mid] as nat
    } else {
        (sorted[mid - 1] + sorted[mid]) as nat
    }
}

/// How many frames a word next to the end of a sentence may last: twice the
/// median duration, which counts for `cap` frames at most. 0 where no word
/// lasts at all.
pub open spec fn max_duration<P>(words: Seq<PreWordView<P>>, cap: nat) -> nat {
    let lasting = durations(words);
    if lasting.len() == 0 {
        0
    } else {
        smaller(twice_median(lasting), 2 * cap)
    }
}

/// Puts `value` in its place among sorted values.
fn insert_sorted(sorted: &mut Vec<u64>, value: u64)
    requires
        sorted_by(old(sorted)@, at_most()),
    ensures
        sorted_by(final(sorted)@, at_most()),
        final(sorted)@.to_multiset() == old(sorted)@.to_multiset().insert(value),
        final(sorted)@.len() == old(sorted)@.len() + 1,
{
    let ghost before = sorted@;
    let mut at: usize = sorted.len();
    while at > 0 && sorted[at - 1] > value
        invariant
            sorted@ == before,
            at <= before.len(),
            sorted_by(before, at_most()),
            forall|k: int| at <= k < before.len() ==> value < #[trigger] before[k],
        decreases at,
    {
        at = at - 1;
    }
    proof {
        before.to_multiset_ensures();
        vstd::seq_lib::to_multiset_insert(before, at as int, value);
        let le = at_most();
        assert forall|i: int, j: int| 0 <= i < j < before.len() implies #[trigger] before[i]
            <= #[trigger] before[j] by {
            assert(le(before[i], before[j]));
        }
    }
    sorted.insert(at, value);
    proof {
        let le = at_most();
        assert forall|i: int, j: int| 0 <= i < j < sorted@.len() implies #[trigger] le(
            sorted@[i],
            sorted@[j],
        ) by {
            if at > 0 {
                assert(before[at - 1] <= value);
            }
        }
    }
}

/// The durations of the words that last at all, in order.
fn sorted_durations<P>(words: &Vec<PreWord<P>>) -> (r: Vec<u64>)
    ensures
        r@ == durations(pre_words_of(words@)).sort_by(at_most()),
        r@.len() == durations(pre_words_of(words@)).len(),
{
    let ghost all = pre_words_of(words@).map_values(|w: PreWordView<P>| w.duration());
    let ghost lasts = |d: u64| d > 0;
    let mut out: Vec<u64> = Vec::new();
    proof {
        assert(all.take(0) =~= Seq::empty());
        reveal(Seq::filter);
        assert(all.take(0).filter(lasts) =~= Seq::empty());
    }
    for i in 0..words.len()
        invariant
            all == pre_words_of(words@).map_values(|w: PreWordView<P>| w.duration()),
            lasts == (|d: u64| d > 0),
            sorted_by(out@, at_most()),
            out@.to_multiset() == all.take(i as int).filter(lasts).to_multiset(),
            out@.len() == all.take(i as int).filter(lasts).len(),
    {
        let d: u64 = words[i].duration_frames();
        assert(d == all[i as int]);
        assert(all.take(i + 1) =~= all.take(i as int).push(d));
        proof {
            all.take(i as int).lemma_filter_push(d, lasts);
            vstd::seq_lib::to_multiset_build(all.take(i as int).filter(lasts), d);
        }
        if d > 0 {
            insert_sorted(&mut out, d);
        }
    }
    proof {
        assert(all.take(all.len() as int) =~= all);
        let found = all.filter(lasts);
        assert(total_ordering(at_most()));
        found.lemma_sort_by_ensures(at_most());
        vstd::seq_lib::lemma_sorted_unique(out@, found.sort_by(at_most()), at_most());
    }
    out
}

/// How many frames a word next to the end of a sentence may last.
pub fn compute_max_duration_frames<P>(
    words: &Vec<PreWord<P>>,
    hop_length: usize,
    sampling_rate: usize,
) -> (r: u64)
    requires
        hop_length > 0,
    ensures
        r == max_duration(
            pre_words_of(words@),
            median_cap_of(hop_length as nat, sampling_rate as nat),
        ),
{
    let sorted = sorted_durations(words);
    if sorted.len() == 0 {
        return 0;
    }
    let mid: usize = sorted.len() / 2;
    let twice: u128 = if sorted.len() % 2 == 1 {
        2 * (sorted[mid] as u128)
    } else {
        (sorted[mid - 1] as u128) + (sorted[mid] as u128)
    };
    let cap: u64 = 2 * median_cap_frames(hop_length, sampling_rate);
    if twice <= cap as u128 {
        twice as u64
    } else {
        cap
    }
}

/// Word `i` after the clamp. A word that lasts longer than `max` frames has
/// absorbed silence where it borders the end of a sentence: a sentence-end
/// mark gives up its end, and the word after one its start. The first word
/// is left alone, and `max == 0` leaves every word alone.
pub open spec fn clamped_word<P>(words: Seq<PreWordView<P>>, max: u64, i: int) -> PreWordView<P> {
    let word = words[i];
    if max == 0 || i == 0 || word.duration() <= max {
        word
    } else if single_member(word.text, SENTENCE_END_MARKS@) {
        PreWordView { end: (word.start + max) as u64, ..word }
    } else if single_member(words[i - 1].text, SENTENCE_END_MARKS@) {
        PreWordView { start: (word.end - max) as u64, ..word }
    } else {
        word
    }
}

/// The words after the clamp.
pub open spec fn clamped<P>(words: Seq<PreWordView<P>>, max: u64) -> Seq<PreWordView<P>> {
    Seq::new(words.len(), |i: int| clamped_word(words, max, i))
}

/// Caps the words that border the end of a sentence.
pub fn clamp_sentence_boundaries<P>(words: &mut Vec<PreWord<P>>, max_duration_frames: u64)
    ensures
        pre_words_of(final(words)@) == clamped(pre_words_of(old(words)@), max_duration_frames),
{
    let ghost all = pre_words_of(words@);
    let n: usize = words.len();
    if max_duration_frames == 0 || n == 0 {
        assert(pre_words_of(words@) =~= clamped(all, max_duration_frames));
        return;
    }
    for i in 1..n
        invariant
            max_duration_frames > 0,
            all == pre_words_of(old(words)@),
            words@.len() == all.len(),
            n == all.len(),
            1 <= i <= n,
            forall|k: int|
                0 <= k < i ==> (#[trigger] words@[k])@ == clamped_word(all, max_duration_frames, k),
            forall|k: int| i <= k < n ==> (#[trigger] words@[k])@ == all[k],
    {
        assert(words@[i as int]@ == all[i as int]);
        assert(words@[i - 1]@ == clamped_word(all, max_duration_frames, i - 1));
        if words[i].duration_frames() > max_duration_frames {
            if is_single_char_member(words[i].text.as_str(), SENTENCE_END_MARKS) {
                words[i].end_frame = words[i].start_frame + max_duration_frames;
            } else if is_single_char_member(words[i - 1].text.as_str(), SENTENCE_END_MARKS) {
                words[i].start_frame = words[i].end_frame - max_duration_frames;
            }
        }
    }
    assert(pre_words_of(words@) =~= clamped(all, max_duration_frames));
}

/// The clamp keeps each word's text and tokens, never moves a boundary
/// outward, never turns a word round, and leaves every word next to the end
/// of a sentence, but for the first, no longer than the cap.
pub proof fn law_clamp_only_shortens<P>(words: Seq<PreWordView<P>>, max: u64, i: int)
    requires
        0 <= i < words.len(),
    ensures
        clamped(words, max).len() == words.len(),
        ({
            let before = words[i];
            let after = clamped(words, max)[i];
            &&& after.text == before.text
            &&& after.tokens == before.tokens
            &&& after.probs == before.probs
            &&& after.sub == before.sub
            &&& before.start <= after.start
            &&& after.end <= before.end
            &&& before.start <= before.end ==> after.start <= after.end
            &&& max > 0 && i > 0 && (single_member(words[i].text, SENTENCE_END_MARKS@)
                || single_member(words[i - 1].text, SENTENCE_END_MARKS@)) ==> after.duration()
                <= max
        }),
{
}

/// Whether a word is a mark that belongs to the word after it.
pub open spec fn opens(text: Seq<char>) -> bool {
    single_member(text, PREPEND_PUNCT@) && leads_with_space(text)
}

/// Whether a word is a mark that belongs to the word before it.
pub open spec fn closes(text: Seq<char>) -> bool {
    single_member(text, APPEND_PUNCT@) && !leads_with_space(text)
}

/// Whether a mark can be folded into a word: it has a text, which does not
/// end with a space.
pub open spec fn takes_marks(text: Seq<char>) -> bool {
    text.len() > 0 && text.last() != ' '
}

/// A word with the mark before it. Its start and its end are left alone.
pub open spec fn with_mark_before<P>(mark: PreWordView<P>, word: PreWordView<P>) -> PreWordView<
    P,
> {
    PreWordView {
        text: mark.text + word.text,
        tokens: mark.tokens + word.tokens,
        probs: mark.probs + word.probs,
        ..word
    }
}

/// A word with the mark after it. Its start and its end are left alone: it
/// ends where the mark started.
pub open spec fn with_mark_after<P>(word: PreWordView<P>, mark: PreWordView<P>) -> PreWordView<P> {
    PreWordView {
        text: word.text + mark.text,
        tokens: word.tokens + mark.tokens,
        probs: word.probs + mark.probs,
        ..word
    }
}

/// The words with opening marks folded into the words after them. The last
/// word has none after it and stays.
pub open spec fn marks_forward<P>(words: Seq<PreWordView<P>>) -> Seq<PreWordView<P>>
    decreases words.len(),
{
    if words.len() < 2 {
        words
    } else {
        let later = marks_forward(words.skip(1));
        if opens(words[0].text) {
            seq![with_mark_before(words[0], later[0])] + later.skip(1)
        } else {
            seq![words[0]] + later
        }
    }
}

/// The words with closing marks folded into the words before them.
pub open spec fn marks_backward<P>(words: Seq<PreWordView<P>>) -> Seq<PreWordView<P>>
    decreases words.len(),
{
    if words.len() < 2 {
        words
    } else {
        let earlier = marks_backward(words.drop_last());
        if takes_marks(earlier.last().text) && closes(words.last().text) {
            earlier.drop_last().push(with_mark_after(earlier.last(), words.last()))
        } else {
            earlier.push(words.last())
        }
    }
}

/// The words that have a text.
pub open spec fn with_text<P>(words: Seq<PreWordView<P>>) -> Seq<PreWordView<P>> {
    words.filter(|w: PreWordView<P>| w.text.len() > 0)
}

/// The words with standalone punctuation folded into its neighbours. Words
/// that are left without a text go; a single word is left alone.
pub open spec fn merged<P>(words: Seq<PreWordView<P>>) -> Seq<PreWordView<P>> {
    if words.len() < 2 {
        words
    } else {
        with_text(marks_backward(marks_forward(words)))
    }
}

/// Folding never empties a list of words.
pub proof fn lemma_marks_forward_len<P>(words: Seq<PreWordView<P>>)
    ensures
        words.len() > 0 ==> marks_forward(words).len() > 0,
        marks_forward(words).len() <= words.len(),
    decreases words.len(),
{
    if words.len() >= 2 {
        lemma_marks_forward_len(words.skip(1));
    }
}

/// Folding never empties a list of words.
pub proof fn lemma_marks_backward_len<P>(words: Seq<PreWordView<P>>)
    ensures
        words.len() > 0 ==> marks_backward(words).len() > 0,
        marks_backward(words).len() <= words.len(),
    decreases words.len(),
{
    if words.len() >= 2 {
        lemma_marks_backward_len(words.drop_last());
    }
}

/// A word put at the end of a list comes first in the list read backward.
proof fn lemma_reversed_push<P>(held: Seq<PreWord<P>>, word: PreWord<P>, done: Seq<PreWordView<P>>)
    requires
        pre_words_of(held) == done.reverse(),
    ensures
        pre_words_of(held.push(word)) == (seq![word@] + done).reverse(),
{
    let both = seq![word@] + done;
    assert(pre_words_of(held).len() == held.len());
    assert(done.reverse().len() == done.len());
    assert forall|i: int| 0 <= i < both.len() implies #[trigger] pre_words_of(held.push(word))[i]
        == both.reverse()[i] by {
        if i < held.len() {
            assert(pre_words_of(held)[i] == done.reverse()[i]);
        }
    }
    assert(pre_words_of(held.push(word)) =~= both.reverse());
}

/// Folds opening marks into the words after them. The result runs from the
/// last word to the first.
fn fold_forward<P>(words: Vec<PreWord<P>>) -> (r: Vec<PreWord<P>>)
    ensures
        pre_words_of(r@) == marks_forward(pre_words_of(words@)).reverse(),
{
    let ghost all = pre_words_of(words@);
    let mut left = words;
    let mut kept: Vec<PreWord<P>> = Vec::new();
    assert(all.skip(all.len() as int) =~= Seq::empty());
    assert(pre_words_of(kept@) =~= marks_forward(all.skip(all.len() as int)).reverse());
    while left.len() > 0
        invariant
            left@.len() <= all.len(),
            pre_words_of(left@) == all.take(left@.len() as int),
            pre_words_of(kept@) == marks_forward(all.skip(left@.len() as int)).reverse(),
        decreases left@.len(),
    {
        let ghost done = marks_forward(all.skip(left@.len() as int));
        let ghost rest = all.skip(left@.len() - 1);
        let ghost held = kept@;
        let ghost before = left@;
        proof {
            lemma_marks_forward_len(all.skip(left@.len() as int));
            assert(before.last()@ == pre_words_of(before)[before.len() - 1]);
            assert(rest.skip(1) =~= all.skip(left@.len() as int));
            assert(rest[0] == before.last()@);
        }
        let Some(word) = left.pop() else {
            return kept;
        };
        assert(pre_words_of(left@) =~= all.take(left@.len() as int));
        if is_single_char_member(word.text.as_str(), PREPEND_PUNCT) && starts_with_space(
            word.text.as_str(),
        ) {
            match kept.pop() {
                Some(next) => {
                    proof {
                        assert(pre_words_of(held).len() == done.reverse().len());
                        assert(pre_words_of(held)[held.len() - 1] == done.reverse()[held.len() - 1]);
                        assert(next@ == done[0]);
                    }
                    let mut mark = word;
                    let mut next = next;
                    let ghost old_mark = mark@;
                    let ghost old_next = next@;
                    mark.text.append(next.text.as_str());
                    mark.tokens.append(&mut next.tokens);
                    mark.probs.append(&mut next.probs);
                    let joint = PreWord {
                        text: mark.text,
                        tokens: mark.tokens,
                        probs: mark.probs,
                        start_frame: next.start_frame,
                        end_frame: next.end_frame,
                        subsegment_idx: next.subsegment_idx,
                    };
                    assert(joint@ =~= with_mark_before(old_mark, old_next));
                    kept.push(joint);
                    proof {
                        assert forall|i: int| 0 <= i < held.len() - 1 implies (
                        #[trigger] pre_words_of(held.drop_last())[i]) == done.skip(
                            1,
                        ).reverse()[i] by {
                            assert(pre_words_of(held)[i] == done.reverse()[i]);
                        }
                        assert(pre_words_of(held.drop_last()) =~= done.skip(1).reverse());
                        lemma_reversed_push(held.drop_last(), kept@.last(), done.skip(1));
                    }
                },
                None => {
                    kept.push(word);
                    proof {
                        assert(pre_words_of(held).len() == done.reverse().len());
                        lemma_reversed_push(held, kept@.last(), done);
                        assert(seq![kept@.last()@] + done =~= rest);
                    }
                },
            }
        } else {
            kept.push(word);
            proof {
                lemma_reversed_push(held, kept@.last(), done);
                if rest.len() < 2 {
                    assert(seq![kept@.last()@] + done =~= rest);
                }
            }
        }
    }
    assert(all.skip(0) =~= all);
    kept
}

/// Folds closing marks into the words before them. `words` runs from the
/// last word to the first.
fn fold_backward<P>(words: Vec<PreWord<P>>) -> (r: Vec<PreWord<P>>)
    ensures
        pre_words_of(r@) == marks_backward(pre_words_of(words@).reverse()),
{
    let ghost all = pre_words_of(words@).reverse();
    let mut left = words;
    let mut kept: Vec<PreWord<P>> = Vec::new();
    let ghost mut seen: int = 0;
    assert(all.take(0) =~= Seq::empty());
    assert(pre_words_of(kept@) =~= marks_backward(all.take(0)));
    while left.len() > 0
        invariant
            left@.len() + seen == all.len(),
            0 <= seen,
            pre_words_of(left@) == all.skip(seen).reverse(),
            pre_words_of(kept@) == marks_backward(all.take(seen)),
        decreases left@.len(),
    {
        let ghost done = marks_backward(all.take(seen));
        let ghost upto = all.take(seen + 1);
        let ghost held = kept@;
        let ghost before = left@;
        proof {
            lemma_marks_backward_len(all.take(seen));
            assert(pre_words_of(before)[before.len() - 1] == all.skip(seen).reverse()[before.len()
                - 1]);
            assert(before.last()@ == all[seen]);
            assert(upto.drop_last() =~= all.take(seen));
            assert(pre_words_of(held).len() == held.len());
        }
        let Some(word) = left.pop() else {
            return kept;
        };
        assert forall|i: int| 0 <= i < left@.len() implies #[trigger] pre_words_of(left@)[i]
            == all.skip(seen + 1).reverse()[i] by {
            assert(pre_words_of(before)[i] == all.skip(seen).reverse()[i]);
        }
        assert(pre_words_of(left@) =~= all.skip(seen + 1).reverse());
        match kept.pop() {
            Some(last) => {
                assert(last@ == done.last()) by {
                    assert(pre_words_of(held)[held.len() - 1] == done[held.len() - 1]);
                }
                let mut last = last;
                assert(pre_words_of(kept@) =~= done.drop_last());
                if !last.text.as_str().is_empty() && !ends_with_space(last.text.as_str())
                    && is_single_char_member(word.text.as_str(), APPEND_PUNCT)
                    && !starts_with_space(word.text.as_str()) {
                    let ghost old_last = last@;
                    let ghost mark = word@;
                    let mut word = word;
                    last.text.append(word.text.as_str());
                    last.tokens.append(&mut word.tokens);
                    last.probs.append(&mut word.probs);
                    assert(last@ =~= with_mark_after(old_last, mark));
                    kept.push(last);
                } else {
                    kept.push(last);
                    kept.push(word);
                }
            },
            None => {
                kept.push(word);
                assert(upto.len() == 1);
            },
        }
        assert(pre_words_of(kept@) =~= marks_backward(upto));
        proof {
            seen = seen + 1;
        }
    }
    assert(all.take(all.len() as int) =~= all);
    kept
}

/// Keeps the words that have a text.
fn keep_with_text<P>(words: Vec<PreWord<P>>) -> (r: Vec<PreWord<P>>)
    ensures
        pre_words_of(r@) == with_text(pre_words_of(words@)),
{
    let ghost all = pre_words_of(words@);
    let ghost has_text = |w: PreWordView<P>| w.text.len() > 0;
    let mut out: Vec<PreWord<P>> = Vec::new();
    proof {
        reveal(Seq::filter);
        assert(all.take(0).filter(has_text) =~= pre_words_of(out@));
    }
    for word in it: words
        invariant
            has_text == (|w: PreWordView<P>| w.text.len() > 0),
            all == pre_words_of(words@),
            it.seq() == words@,
            pre_words_of(out@) == all.take(it.index()).filter(has_text),
    {
        let ghost held = out@;
        assert(word@ == all[it.index()]);
        assert(all.take(it.index() + 1) =~= all.take(it.index()).push(word@));
        proof {
            all.take(it.index()).lemma_filter_push(word@, has_text);
        }
        if !word.text.as_str().is_empty() {
            out.push(word);
            assert(pre_words_of(out@) =~= pre_words_of(held).push(out@.last()@));
        }
    }
    assert(all.take(all.len() as int) =~= all);
    out
}

/// Folds standalone punctuation into the adjacent words.
pub fn merge_punctuations<P>(words: &mut Vec<PreWord<P>>)
    ensures
        pre_words_of(final(words)@) == merged(pre_words_of(old(words)@)),
{
    if words.len() < 2 {
        return;
    }
    let mut all: Vec<PreWord<P>> = Vec::new();
    all.append(words);
    assert(all@ =~= old(words)@);
    let forward = fold_forward(all);
    let ghost folded = marks_forward(pre_words_of(old(words)@));
    assert(folded.reverse().reverse() =~= folded);
    let backward = fold_backward(forward);
    *words = keep_with_text(backward);
}

/// Whether a part of a word with a mark is that part of the mark and of the
/// word, in order.
spec fn is_joined<P, T>(part: spec_fn(PreWordView<P>) -> Seq<T>) -> bool {
    &&& forall|a: PreWordView<P>, b: PreWordView<P>| #[trigger]
        part(with_mark_before(a, b)) == part(a) + part(b)
    &&& forall|a: PreWordView<P>, b: PreWordView<P>| #[trigger]
        part(with_mark_after(a, b)) == part(a) + part(b)
}

/// Folding marks forward loses nothing.
proof fn lemma_forward_gathers<P, T>(
    words: Seq<PreWordView<P>>,
    part: spec_fn(PreWordView<P>) -> Seq<T>,
)
    requires
        is_joined(part),
    ensures
        gathered(marks_forward(words), part) == gathered(words, part),
    decreases words.len(),
{
    if words.len() >= 2 {
        let rest = words.skip(1);
        let later = marks_forward(rest);
        lemma_forward_gathers(rest, part);
        lemma_marks_forward_len(rest);
        assert(words =~= seq![words[0]] + rest);
        lemma_gathered_concat(seq![words[0]], rest, part);
        lemma_gathered_one(words[0], part);
        if opens(words[0].text) {
            let joint = with_mark_before(words[0], later[0]);
            assert(part(joint) == part(words[0]) + part(later[0]));
            assert(later =~= seq![later[0]] + later.skip(1));
            lemma_gathered_concat(seq![later[0]], later.skip(1), part);
            lemma_gathered_one(later[0], part);
            lemma_gathered_concat(seq![joint], later.skip(1), part);
            lemma_gathered_one(joint, part);
        } else {
            lemma_gathered_concat(seq![words[0]], later, part);
        }
        assert(gathered(marks_forward(words), part) =~= gathered(words, part));
    }
}

/// Folding marks backward loses nothing.
proof fn lemma_backward_gathers<P, T>(
    words: Seq<PreWordView<P>>,
    part: spec_fn(PreWordView<P>) -> Seq<T>,
)
    requires
        is_joined(part),
    ensures
        gathered(marks_backward(words), part) == gathered(words, part),
    decreases words.len(),
{
    if words.len() >= 2 {
        let rest = words.drop_last();
        let mark = words.last();
        let earlier = marks_backward(rest);
        lemma_backward_gathers(rest, part);
        lemma_marks_backward_len(rest);
        assert(words =~= rest + seq![mark]);
        lemma_gathered_concat(rest, seq![mark], part);
        lemma_gathered_one(mark, part);
        if takes_marks(earlier.last().text) && closes(mark.text) {
            let joint = with_mark_after(earlier.last(), mark);
            assert(part(joint) == part(earlier.last()) + part(mark));
            assert(earlier =~= earlier.drop_last() + seq![earlier.last()]);
            lemma_gathered_concat(earlier.drop_last(), seq![earlier.last()], part);
            lemma_gathered_one(earlier.last(), part);
            assert(earlier.drop_last().push(joint) =~= earlier.drop_last() + seq![joint]);
            lemma_gathered_concat(earlier.drop_last(), seq![joint], part);
            lemma_gathered_one(joint, part);
        } else {
            assert(earlier.push(mark) =~= earlier + seq![mark]);
            lemma_gathered_concat(earlier, seq![mark], part);
        }
        assert(gathered(marks_backward(words), part) =~= gathered(words, part));
    }
}

/// Where the words without a text have nothing else either, leaving them
/// out loses nothing.
proof fn lemma_with_text_gathers<P, T>(
    words: Seq<PreWordView<P>>,
    part: spec_fn(PreWordView<P>) -> Seq<T>,
)
    requires
        forall|i: int|
            0 <= i < words.len() && (#[trigger] words[i]).text.len() == 0 ==> part(words[i]).len()
                == 0,
    ensures
        gathered(with_text(words), part) == gathered(words, part),
    decreases words.len(),
{
    let has_text = |w: PreWordView<P>| w.text.len() > 0;
    reveal(Seq::filter);
    if words.len() > 0 {
        let rest = words.drop_last();
        let last = words.last();
        lemma_with_text_gathers(rest, part);
        assert(words =~= rest.push(last));
        assert(words =~= rest + seq![last]);
        rest.lemma_filter_push(last, has_text);
        lemma_gathered_concat(rest, seq![last], part);
        lemma_gathered_one(last, part);
        if last.text.len() > 0 {
            assert(with_text(rest).push(last) =~= with_text(rest) + seq![last]);
            lemma_gathered_concat(with_text(rest), seq![last], part);
        } else {
            assert(part(last).len() == 0);
            assert(gathered(rest, part) + part(last) =~= gathered(rest, part));
        }
    } else {
        assert(with_text(words) =~= words);
    }
}

/// Folding punctuation loses no character and changes no order: the words
/// spell the same text before and after.
pub proof fn law_merge_keeps_text<P>(words: Seq<PreWordView<P>>)
    ensures
        text_of(merged(words)) == text_of(words),
{
    let part = |w: PreWordView<P>| w.text;
    lemma_forward_gathers(words, part);
    lemma_backward_gathers(marks_forward(words), part);
    lemma_with_text_gathers(marks_backward(marks_forward(words)), part);
}

/// Whether every word without a text is without tokens and probabilities
/// too.
pub open spec fn blank_words_are_bare<P>(words: Seq<PreWordView<P>>) -> bool {
    forall|i: int|
        0 <= i < words.len() && (#[trigger] words[i]).text.len() == 0 ==> words[i].tokens.len() == 0
            && words[i].probs.len() == 0
}

/// Folding marks leaves blank words bare: a word that a mark was folded into
/// is not blank.
proof fn lemma_folding_keeps_blank_words_bare<P>(words: Seq<PreWordView<P>>)
    requires
        blank_words_are_bare(words),
    ensures
        blank_words_are_bare(marks_forward(words)),
        blank_words_are_bare(marks_backward(words)),
    decreases words.len(),
{
    if words.len() >= 2 {
        lemma_folding_keeps_blank_words_bare(words.skip(1));
        lemma_marks_forward_len(words.skip(1));
        lemma_folding_keeps_blank_words_bare(words.drop_last());
        lemma_marks_backward_len(words.drop_last());
    }
}

/// Where words without a text have no tokens either, folding punctuation
/// loses no token and no probability.
pub proof fn law_merge_keeps_tokens<P>(words: Seq<PreWordView<P>>)
    requires
        blank_words_are_bare(words),
    ensures
        tokens_of(merged(words)) == tokens_of(words),
        probs_of(merged(words)) == probs_of(words),
{
    if words.len() >= 2 {
        let tokens = |w: PreWordView<P>| w.tokens;
        let probs = |w: PreWordView<P>| w.probs;
        let folded = marks_backward(marks_forward(words));
        lemma_folding_keeps_blank_words_bare(words);
        lemma_folding_keeps_blank_words_bare(marks_forward(words));
        lemma_forward_gathers(words, tokens);
        lemma_backward_gathers(marks_forward(words), tokens);
        lemma_with_text_gathers(folded, tokens);
        lemma_forward_gathers(words, probs);
        lemma_backward_gathers(marks_forward(words), probs);
        lemma_with_text_gathers(folded, probs);
    }
}

/// The marks, character by character.
pub proof fn law_mark_characters(c: char)
    ensures
        PREPEND_PUNCT@.contains(c) <==> (c == '"' || c == '\'' || c == '\u{201C}' || c
            == '\u{00BF}' || c == '(' || c == '[' || c == '{' || c == '-'),
        APPEND_PUNCT@.contains(c) <==> (c == '"' || c == '\'' || c == '.' || c == '\u{3002}' || c
            == ',' || c == '\u{FF0C}' || c == '!' || c == '\u{FF01}' || c == '?' || c == '\u{FF1F}'
            || c == ':' || c == '\u{FF1A}' || c == '\u{201D}' || c == ')' || c == ']' || c == '}'
            || c == '\u{3001}'),
        SENTENCE_END_MARKS@.contains(c) <==> (c == '.' || c == '\u{3002}' || c == '!' || c
            == '\u{FF01}' || c == '?' || c == '\u{FF1F}'),
{
    reveal_strlit("\"'\u{201C}\u{00BF}([{-");
    reveal_strlit("\"'.\u{3002},\u{FF0C}!\u{FF01}?\u{FF1F}:\u{FF1A}\u{201D})]}\u{3001}");
    reveal_strlit(".\u{3002}!\u{FF01}?\u{FF1F}");
    let before = PREPEND_PUNCT@;
    assert(before[0] == '"' && before[1] == '\'' && before[2] == '\u{201C}');
    assert(before[3] == '\u{00BF}' && before[4] == '(' && before[5] == '[');
    assert(before[6] == '{' && before[7] == '-');
    let behind = APPEND_PUNCT@;
    assert(behind[0] == '"' && behind[1] == '\'' && behind[2] == '.');
    assert(behind[3] == '\u{3002}' && behind[4] == ',' && behind[5] == '\u{FF0C}');
    assert(behind[6] == '!' && behind[7] == '\u{FF01}' && behind[8] == '?');
    assert(behind[9] == '\u{FF1F}' && behind[10] == ':' && behind[11] == '\u{FF1A}');
    assert(behind[12] == '\u{201D}' && behind[13] == ')' && behind[14] == ']');
    assert(behind[15] == '}' && behind[16] == '\u{3001}');
    let ends = SENTENCE_END_MARKS@;
    assert(ends[0] == '.' && ends[1] == '\u{3002}' && ends[2] == '!');
    assert(ends[3] == '\u{FF01}' && ends[4] == '?' && ends[5] == '\u{FF1F}');
}

/// A word next to the end of a sentence that lasts longer than the cap is
/// cut to it: a mark that ends a sentence keeps its start, the word after
/// one keeps its end. No other word is touched, nor is the first one.
pub proof fn law_clamp_cuts_to_the_cap<P>(words: Seq<PreWordView<P>>, max: u64, i: int)
    requires
        0 <= i < words.len(),
    ensures
        ({
            let before = words[i];
            let after = clamped(words, max)[i];
            let is_end = |text: Seq<char>|
                sole_char_of(text) matches Some(c) && (c == '.' || c == '\u{3002}' || c == '!' || c
                    == '\u{FF01}' || c == '?' || c == '\u{FF1F}');
            let long = max > 0 && i > 0 && before.end > before.start + max;
            &&& long && is_end(before.text) ==> after.start == before.start && after.end
                == before.start + max
            &&& long && !is_end(before.text) && is_end(words[i - 1].text) ==> after.end
                == before.end && after.start == before.end - max
            &&& !long || !is_end(before.text) && !is_end(words[i - 1].text) ==> after == before
        }),
{
    if let Some(c) = sole_char_of(words[i].text) {
        law_mark_characters(c);
    }
    if let Some(c) = sole_char_of(words[i - 1].text) {
        law_mark_characters(c);
    }
}

/// The cap on the median is 0.7 seconds in whole frames, rounded to the
/// nearest.
pub proof fn law_median_cap_is_rounded(hop_length: nat, sampling_rate: nat)
    requires
        hop_length > 0,
    ensures
        ({
            let cap = median_cap_of(hop_length, sampling_rate);
            &&& 10 * (cap * (2 * hop_length)) <= 7 * sampling_rate + 10 * hop_length
            &&& 7 * sampling_rate < 10 * (cap * (2 * hop_length)) + 10 * hop_length
        }),
{
    let over = (7 * sampling_rate + 10 * hop_length) as int;
    let by = 20 * hop_length as int;
    let cap = median_cap_of(hop_length, sampling_rate) as int;
    vstd::arithmetic::div_mod::lemma_fundamental_div_mod(over, by);
    assert(by * cap == 10 * (cap * (2 * hop_length))) by (nonlinear_arith)
        requires
            by == 20 * hop_length,
    ;
    assert(0 <= over % by < by);
}

/// A list that is in order is sorted as it is.
proof fn lemma_sorted_already(values: Seq<u64>)
    requires
        forall|i: int, j: int|
            0 <= i < j < values.len() ==> (#[trigger] values[i]) <= (#[trigger] values[j]),
    ensures
        values.sort_by(at_most()) == values,
{
    let le = at_most();
    assert(total_ordering(le));
    assert(sorted_by(values, le));
    values.lemma_sort_by_ensures(le);
    vstd::seq_lib::lemma_sorted_unique(values, values.sort_by(le), le);
}

/// The durations of words that all last.
proof fn lemma_durations_all<P>(words: Seq<PreWordView<P>>)
    requires
        forall|i: int| 0 <= i < words.len() ==> (#[trigger] words[i]).start < words[i].end,
    ensures
        durations(words) == words.map_values(|w: PreWordView<P>| w.duration()),
    decreases words.len(),
{
    let all = words.map_values(|w: PreWordView<P>| w.duration());
    let lasts = |d: u64| d > 0;
    reveal(Seq::filter);
    if words.len() > 0 {
        let head = words.drop_last();
        assert forall|i: int| 0 <= i < head.len() implies (#[trigger] head[i]).start
            < head[i].end by {
            assert(head[i] == words[i]);
        }
        lemma_durations_all(head);
        let some = head.map_values(|w: PreWordView<P>| w.duration());
        assert(words.last() == words[words.len() - 1]);
        assert(all =~= some.push(words.last().duration()));
        some.lemma_filter_push(words.last().duration(), lasts);
    } else {
        assert(durations(words) =~= all);
    }
}

/// The cap of words that all last, listed from the shortest to the longest,
/// is twice the duration of the one in the middle, or what the two in the
/// middle last together, and never more than twice the median's own cap.
pub proof fn law_cap_is_twice_the_median<P>(words: Seq<PreWordView<P>>, cap: nat)
    requires
        words.len() > 0,
        forall|i: int| 0 <= i < words.len() ==> (#[trigger] words[i]).start < words[i].end,
        forall|i: int, j: int|
            0 <= i < j < words.len() ==> (#[trigger] words[i]).end - words[i].start <= (
            #[trigger] words[j]).end - words[j].start,
    ensures
        ({
            let n = words.len() as int;
            let upper = words[n / 2].end - words[n / 2].start;
            let lower = words[(n - 1) / 2].end - words[(n - 1) / 2].start;
            &&& upper + lower <= 2 * cap ==> max_duration(words, cap) == upper + lower
            &&& upper + lower > 2 * cap ==> max_duration(words, cap) == 2 * cap
        }),
{
    let n = words.len() as int;
    let all = words.map_values(|w: PreWordView<P>| w.duration());
    lemma_durations_all(words);
    assert forall|i: int, j: int| 0 <= i < j < all.len() implies (#[trigger] all[i]) <= (
    #[trigger] all[j]) by {
        assert(words[i].start < words[i].end && words[j].start < words[j].end);
    }
    lemma_sorted_already(all);
    assert(words[n / 2].start < words[n / 2].end);
    assert(words[(n - 1) / 2].start < words[(n - 1) / 2].end);
    assert(all[n / 2] == words[n / 2].end - words[n / 2].start);
    assert(all[(n - 1) / 2] == words[(n - 1) / 2].end - words[(n - 1) / 2].start);
    if n % 2 == 1 {
        assert((n - 1) / 2 == n / 2);
    } else {
        assert((n - 1) / 2 == n / 2 - 1);
    }
}

/// The order of the words does not matter to the cap, and words that do not
/// last do not count. Where none lasts, there is no cap.
pub proof fn law_cap_depends_on_lasting_words_alone<P>(
    a: Seq<PreWordView<P>>,
    b: Seq<PreWordView<P>>,
    c: Seq<PreWordView<P>>,
    brief: PreWordView<P>,
    cap: nat,
)
    requires
        brief.end <= brief.start,
    ensures
        max_duration(a + b + c, cap) == max_duration(a + c + b, cap),
        max_duration(a.push(brief), cap) == max_duration(a, cap),
        max_duration(Seq::<PreWordView<P>>::empty(), cap) == 0,
{
    let of_word = |w: PreWordView<P>| w.duration();
    let lasts = |d: u64| d > 0;
    lemma_durations_concat(a, b);
    lemma_durations_concat(a + b, c);
    lemma_durations_concat(a, c);
    lemma_durations_concat(a + c, b);
    let one = durations(a) + durations(b) + durations(c);
    let other = durations(a) + durations(c) + durations(b);
    vstd::seq_lib::lemma_multiset_commutative(durations(a), durations(b));
    vstd::seq_lib::lemma_multiset_commutative(durations(a) + durations(b), durations(c));
    vstd::seq_lib::lemma_multiset_commutative(durations(a), durations(c));
    vstd::seq_lib::lemma_multiset_commutative(durations(a) + durations(c), durations(b));
    assert(one.to_multiset() =~= other.to_multiset());
    let le = at_most();
    assert(total_ordering(le));
    one.lemma_sort_by_ensures(le);
    other.lemma_sort_by_ensures(le);
    vstd::seq_lib::lemma_sorted_unique(one.sort_by(le), other.sort_by(le), le);
    one.to_multiset_ensures();
    other.to_multiset_ensures();
    assert(one.len() == other.len());
    assert(a.push(brief).map_values(of_word) =~= a.map_values(of_word).push(0));
    a.map_values(of_word).lemma_filter_push(0, lasts);
    reveal(Seq::filter);
    assert(Seq::<PreWordView<P>>::empty().map_values(of_word) =~= Seq::empty());
}

/// The durations of two lists of words are those of the one, then those of
/// the other.
proof fn lemma_durations_concat<P>(a: Seq<PreWordView<P>>, b: Seq<PreWordView<P>>)
    ensures
        durations(a + b) == durations(a) + durations(b),
{
    let of_word = |w: PreWordView<P>| w.duration();
    let lasts = |d: u64| d > 0;
    assert((a + b).map_values(of_word) =~= a.map_values(of_word) + b.map_values(of_word));
    Seq::filter_distributes_over_add(a.map_values(of_word), b.map_values(of_word), lasts);
}

/// Whether a text is a mark that belongs to the word after it: it leads
/// with a space and is one of the opening marks, white space aside.
pub open spec fn opening_mark(text: Seq<char>) -> bool {
    text.len() > 0 && text[0] == ' ' && (sole_char_of(text) matches Some(c)
        && PREPEND_PUNCT@.contains(c))
}

/// Whether a text is a mark that belongs to the word before it: it does not
/// lead with a space and is one of the closing marks, white space aside.
pub open spec fn closing_mark(text: Seq<char>) -> bool {
    text.len() > 0 && text[0] != ' ' && (sole_char_of(text) matches Some(c)
        && APPEND_PUNCT@.contains(c))
}

/// Which words became one: those from `first` up to but not including
/// `end`, all marks but for the one at `host`.
pub struct Fold {
    pub first: int,
    pub host: int,
    pub end: int,
}

/// Whether `word` is the words of a fold put together: their texts, tokens
/// and probabilities in order, with the times and the sub-segment of the
/// host. The marks before the host open, those behind it close, and nothing
/// that a mark is put behind ends with a space.
pub open spec fn is_fold<P>(words: Seq<PreWordView<P>>, fold: Fold, word: PreWordView<P>) -> bool {
    let part = words.subrange(fold.first, fold.end);
    &&& 0 <= fold.first <= fold.host < fold.end <= words.len()
    &&& word.text == text_of(part)
    &&& word.tokens == tokens_of(part)
    &&& word.probs == probs_of(part)
    &&& word.start == words[fold.host].start
    &&& word.end == words[fold.host].end
    &&& word.sub == words[fold.host].sub
    &&& forall|j: int| fold.first <= j < fold.host ==> opening_mark((#[trigger] words[j]).text)
    &&& forall|j: int| fold.host < j < fold.end ==> closing_mark((#[trigger] words[j]).text)
    &&& forall|j: int| fold.host <= j < fold.end - 1 ==> !has_space_behind(#[trigger] words[j])
}

/// Whether the text of a word ends with a space.
pub open spec fn has_space_behind<P>(word: PreWordView<P>) -> bool {
    word.text.len() > 0 && word.text.last() == ' '
}

/// Whether folds follow each other without a gap from word 0 to word `n`.
pub open spec fn folds_tile(folds: Seq<Fold>, n: int) -> bool {
    &&& folds.len() == 0 <==> n == 0
    &&& folds.len() > 0 ==> folds[0].first == 0 && folds.last().end == n
    &&& forall|i: int, j: int|
        0 <= i && i + 1 == j && j < folds.len() ==> (#[trigger] folds[i]).end == (
        #[trigger] folds[j]).first
}

/// Whether the words of `folded` are folds of `words`, end to end.
pub open spec fn is_folded<P>(
    words: Seq<PreWordView<P>>,
    folds: Seq<Fold>,
    folded: Seq<PreWordView<P>>,
) -> bool {
    &&& folds.len() == folded.len()
    &&& folds_tile(folds, words.len() as int)
    &&& forall|i: int| 0 <= i < folds.len() ==> is_fold(words, #[trigger] folds[i], folded[i])
}

/// A word on its own is a fold.
proof fn lemma_fold_of_one<P>(words: Seq<PreWordView<P>>, i: int)
    requires
        0 <= i < words.len(),
    ensures
        is_fold(words, (Fold { first: i, host: i, end: i + 1 }), words[i]),
{
    assert(words.subrange(i, i + 1) =~= seq![words[i]]);
    lemma_gathered_one(words[i], |w: PreWordView<P>| w.text);
    lemma_gathered_one(words[i], |w: PreWordView<P>| w.tokens);
    lemma_gathered_one(words[i], |w: PreWordView<P>| w.probs);
}

/// A fold of the words from the second one on, counted from the first one.
proof fn lemma_fold_shifted<P>(words: Seq<PreWordView<P>>, fold: Fold, word: PreWordView<P>)
    requires
        words.len() > 0,
        is_fold(words.skip(1), fold, word),
    ensures
        is_fold(
            words,
            (Fold { first: fold.first + 1, host: fold.host + 1, end: fold.end + 1 }),
            word,
        ),
{
    let rest = words.skip(1);
    assert(rest.subrange(fold.first, fold.end) =~= words.subrange(fold.first + 1, fold.end + 1));
    assert forall|j: int| fold.first + 1 <= j < fold.host + 1 implies opening_mark(
        (#[trigger] words[j]).text,
    ) by {
        assert(rest[j - 1] == words[j]);
    }
    assert forall|j: int| fold.host + 1 < j < fold.end + 1 implies closing_mark(
        (#[trigger] words[j]).text,
    ) by {
        assert(rest[j - 1] == words[j]);
    }
    assert forall|j: int| fold.host + 1 <= j < fold.end implies !has_space_behind(
        #[trigger] words[j],
    ) by {
        assert(rest[j - 1] == words[j]);
    }
}

/// Folding opening marks forward gives folds that end with their hosts.
proof fn lemma_forward_folds<P>(words: Seq<PreWordView<P>>) -> (folds: Seq<Fold>)
    ensures
        is_folded(words, folds, marks_forward(words)),
        forall|i: int| 0 <= i < folds.len() ==> (#[trigger] folds[i]).end == folds[i].host + 1,
    decreases words.len(),
{
    if words.len() == 0 {
        Seq::empty()
    } else if words.len() == 1 {
        lemma_fold_of_one(words, 0);
        seq![Fold { first: 0, host: 0, end: 1 }]
    } else {
        let rest = words.skip(1);
        let later = marks_forward(rest);
        let old = lemma_forward_folds(rest);
        lemma_marks_forward_len(rest);
        let moved = old.map_values(
            |f: Fold| Fold { first: f.first + 1, host: f.host + 1, end: f.end + 1 },
        );
        assert forall|i: int| 0 <= i < moved.len() implies is_fold(
            words,
            #[trigger] moved[i],
            later[i],
        ) && moved[i].end == moved[i].host + 1 by {
            assert(is_fold(rest, old[i], later[i]));
            lemma_fold_shifted(words, old[i], later[i]);
        }
        assert forall|i: int, j: int| 0 <= i && i + 1 == j && j < moved.len() implies (
        #[trigger] moved[i]).end == (#[trigger] moved[j]).first by {
            assert(old[i].end == old[j].first);
        }
        let all = marks_forward(words);
        if opens(words[0].text) {
            let folds = seq![Fold { first: 0, ..moved[0] }] + moved.skip(1);
            let head = words.subrange(0, 1);
            let tail = words.subrange(1, moved[0].end);
            assert(is_fold(words, moved[0], later[0]));
            assert(head =~= seq![words[0]]);
            assert(words.subrange(0, moved[0].end) =~= head + tail);
            let text = |w: PreWordView<P>| w.text;
            let tokens = |w: PreWordView<P>| w.tokens;
            let probs = |w: PreWordView<P>| w.probs;
            lemma_gathered_concat(head, tail, text);
            lemma_gathered_one(words[0], text);
            lemma_gathered_concat(head, tail, tokens);
            lemma_gathered_one(words[0], tokens);
            lemma_gathered_concat(head, tail, probs);
            lemma_gathered_one(words[0], probs);
            assert(is_fold(words, folds[0], all[0]));
            assert forall|i: int| 0 <= i < folds.len() implies is_fold(
                words,
                #[trigger] folds[i],
                all[i],
            ) && folds[i].end == folds[i].host + 1 by {
                if i > 0 {
                    assert(folds[i] == moved[i]);
                    assert(all[i] == later[i]);
                }
            }
            assert forall|i: int, j: int| 0 <= i && i + 1 == j && j < folds.len() implies (
            #[trigger] folds[i]).end == (#[trigger] folds[j]).first by {
                assert(moved[i].end == moved[j].first);
            }
            folds
        } else {
            let folds = seq![Fold { first: 0, host: 0, end: 1 }] + moved;
            lemma_fold_of_one(words, 0);
            assert forall|i: int| 0 <= i < folds.len() implies is_fold(
                words,
                #[trigger] folds[i],
                all[i],
            ) && folds[i].end == folds[i].host + 1 by {
                if i > 0 {
                    assert(folds[i] == moved[i - 1]);
                    assert(all[i] == later[i - 1]);
                }
            }
            assert forall|i: int, j: int| 0 <= i && i + 1 == j && j < folds.len() implies (
            #[trigger] folds[i]).end == (#[trigger] folds[j]).first by {
                if i > 0 {
                    assert(moved[i - 1].end == moved[j - 1].first);
                }
            }
            folds
        }
    }
}

/// A fold of all words but the last one is a fold of all words.
proof fn lemma_fold_of_more<P>(words: Seq<PreWordView<P>>, fold: Fold, word: PreWordView<P>)
    requires
        words.len() > 0,
        is_fold(words.drop_last(), fold, word),
    ensures
        is_fold(words, fold, word),
{
    let head = words.drop_last();
    assert(head.subrange(fold.first, fold.end) =~= words.subrange(fold.first, fold.end));
    assert forall|j: int| fold.first <= j < fold.host implies opening_mark(
        (#[trigger] words[j]).text,
    ) by {
        assert(head[j] == words[j]);
    }
    assert forall|j: int| fold.host < j < fold.end implies closing_mark((#[trigger] words[j]).text)
        by {
        assert(head[j] == words[j]);
    }
    assert forall|j: int| fold.host <= j < fold.end - 1 implies !has_space_behind(
        #[trigger] words[j],
    ) by {
        assert(head[j] == words[j]);
    }
}

/// Folding closing marks backward gives folds that start with their hosts.
proof fn lemma_backward_folds<P>(words: Seq<PreWordView<P>>) -> (folds: Seq<Fold>)
    ensures
        is_folded(words, folds, marks_backward(words)),
        forall|i: int| 0 <= i < folds.len() ==> (#[trigger] folds[i]).first == folds[i].host,
    decreases words.len(),
{
    if words.len() == 0 {
        Seq::empty()
    } else if words.len() == 1 {
        lemma_fold_of_one(words, 0);
        seq![Fold { first: 0, host: 0, end: 1 }]
    } else {
        let head = words.drop_last();
        let n = head.len() as int;
        let mark = words.last();
        let earlier = marks_backward(head);
        let old = lemma_backward_folds(head);
        lemma_marks_backward_len(head);
        assert forall|i: int| 0 <= i < old.len() implies is_fold(
            words,
            #[trigger] old[i],
            earlier[i],
        ) by {
            assert(is_fold(head, old[i], earlier[i]));
            lemma_fold_of_more(words, old[i], earlier[i]);
        }
        let all = marks_backward(words);
        let last = old.last();
        assert(last == old[old.len() - 1]);
        if takes_marks(earlier.last().text) && closes(mark.text) {
            let joint = Fold { end: n + 1, ..last };
            let folds = old.drop_last().push(joint);
            let text = |w: PreWordView<P>| w.text;
            let tokens = |w: PreWordView<P>| w.tokens;
            let probs = |w: PreWordView<P>| w.probs;
            let part = words.subrange(last.first, n);
            assert(words.subrange(last.first, n + 1) =~= part + seq![mark]);
            lemma_gathered_concat(part, seq![mark], text);
            lemma_gathered_one(mark, text);
            lemma_gathered_concat(part, seq![mark], tokens);
            lemma_gathered_one(mark, tokens);
            lemma_gathered_concat(part, seq![mark], probs);
            lemma_gathered_one(mark, probs);
            assert(is_fold(words, last, earlier.last()));
            assert(!has_space_behind(words[n - 1])) by {
                let most = words.subrange(last.first, n - 1);
                assert(part =~= most + seq![words[n - 1]]);
                lemma_gathered_concat(most, seq![words[n - 1]], text);
                lemma_gathered_one(words[n - 1], text);
                assert(earlier.last().text == text_of(most) + words[n - 1].text);
            }
            assert(words[n] == mark);
            assert(closing_mark(mark.text)) by {
                if mark.text.len() == 0 {
                    law_trim_leaves_the_visible_stretch(mark.text);
                }
            }
            assert(is_fold(words, joint, all.last()));
            assert forall|i: int| 0 <= i < folds.len() implies is_fold(
                words,
                #[trigger] folds[i],
                all[i],
            ) && folds[i].first == folds[i].host by {
                if i < folds.len() - 1 {
                    assert(folds[i] == old[i]);
                    assert(all[i] == earlier[i]);
                }
            }
            assert forall|i: int, j: int| 0 <= i && i + 1 == j && j < folds.len() implies (
            #[trigger] folds[i]).end == (#[trigger] folds[j]).first by {
                assert(old[i].end == old[j].first);
            }
            folds
        } else {
            let folds = old.push(Fold { first: n, host: n, end: n + 1 });
            lemma_fold_of_one(words, n);
            assert forall|i: int| 0 <= i < folds.len() implies is_fold(
                words,
                #[trigger] folds[i],
                all[i],
            ) && folds[i].first == folds[i].host by {
                if i < folds.len() - 1 {
                    assert(folds[i] == old[i]);
                    assert(all[i] == earlier[i]);
                }
            }
            assert forall|i: int, j: int| 0 <= i && i + 1 == j && j < folds.len() implies (
            #[trigger] folds[i]).end == (#[trigger] folds[j]).first by {
                if j < old.len() {
                    assert(old[i].end == old[j].first);
                }
            }
            folds
        }
    }
}

/// A part of folded words is that part of the words that were folded.
proof fn lemma_folds_gather<P, T>(
    words: Seq<PreWordView<P>>,
    folds: Seq<Fold>,
    folded: Seq<PreWordView<P>>,
    from: int,
    to: int,
    part: spec_fn(PreWordView<P>) -> Seq<T>,
)
    requires
        is_folded(words, folds, folded),
        0 <= from < to <= folds.len(),
        forall|i: int|
            0 <= i < folds.len() ==> part(#[trigger] folded[i]) == gathered(
                words.subrange(folds[i].first, folds[i].end),
                part,
            ),
    ensures
        folds[from].first <= folds[to - 1].first < folds[to - 1].end,
        gathered(folded.subrange(from, to), part) == gathered(
            words.subrange(folds[from].first, folds[to - 1].end),
            part,
        ),
    decreases to - from,
{
    assert(is_fold(words, folds[to - 1], folded[to - 1]));
    lemma_gathered_one(folded[to - 1], part);
    if to - from == 1 {
        assert(folded.subrange(from, to) =~= seq![folded[from]]);
        assert(part(folded[from]) == gathered(
            words.subrange(folds[from].first, folds[from].end),
            part,
        ));
    } else {
        lemma_folds_gather(words, folds, folded, from, to - 1, part);
        assert(is_fold(words, folds[to - 2], folded[to - 2]));
        assert(folds[to - 2].end == folds[to - 1].first);
        let head = words.subrange(folds[from].first, folds[to - 2].end);
        let tail = words.subrange(folds[to - 1].first, folds[to - 1].end);
        assert(words.subrange(folds[from].first, folds[to - 1].end) =~= head + tail);
        lemma_gathered_concat(head, tail, part);
        assert(folded.subrange(from, to) =~= folded.subrange(from, to - 1) + seq![
            folded[to - 1],
        ]);
        lemma_gathered_concat(folded.subrange(from, to - 1), seq![folded[to - 1]], part);
        assert(part(folded[to - 1]) == gathered(tail, part));
    }
}

/// A fold of folds is a fold of the words themselves: opening marks first,
/// then closing ones.
proof fn lemma_fold_of_folds<P>(
    words: Seq<PreWordView<P>>,
    forward: Seq<Fold>,
    folded: Seq<PreWordView<P>>,
    back: Fold,
    word: PreWordView<P>,
)
    requires
        is_folded(words, forward, folded),
        forall|i: int|
            0 <= i < forward.len() ==> (#[trigger] forward[i]).end == forward[i].host + 1,
        is_fold(folded, back, word),
        back.first == back.host,
    ensures
        is_fold(
            words,
            (Fold {
                first: forward[back.first].first,
                host: forward[back.first].host,
                end: forward[back.end - 1].end,
            }),
            word,
        ),
{
    let from = back.first;
    let to = back.end;
    let text = |w: PreWordView<P>| w.text;
    let tokens = |w: PreWordView<P>| w.tokens;
    let probs = |w: PreWordView<P>| w.probs;
    assert forall|i: int| 0 <= i < forward.len() implies text(#[trigger] folded[i]) == gathered(
        words.subrange(forward[i].first, forward[i].end),
        text,
    ) && tokens(folded[i]) == gathered(
        words.subrange(forward[i].first, forward[i].end),
        tokens,
    ) && probs(folded[i]) == gathered(
        words.subrange(forward[i].first, forward[i].end),
        probs,
    ) by {
        assert(is_fold(words, forward[i], folded[i]));
    }
    lemma_folds_gather(words, forward, folded, from, to, text);
    lemma_folds_gather(words, forward, folded, from, to, tokens);
    lemma_folds_gather(words, forward, folded, from, to, probs);
    assert(is_fold(words, forward[from], folded[from]));
    assert(is_fold(words, forward[to - 1], folded[to - 1]));
    let whole = Fold {
        first: forward[from].first,
        host: forward[from].host,
        end: forward[to - 1].end,
    };
    lemma_marks_stay_apart(words, forward, folded, back, word, to);
    assert(is_fold(words, whole, word));
}

/// The closing marks that a word has behind it are words of their own until
/// then.
proof fn lemma_marks_stay_apart<P>(
    words: Seq<PreWordView<P>>,
    forward: Seq<Fold>,
    folded: Seq<PreWordView<P>>,
    back: Fold,
    word: PreWordView<P>,
    to: int,
)
    requires
        is_folded(words, forward, folded),
        forall|i: int|
            0 <= i < forward.len() ==> (#[trigger] forward[i]).end == forward[i].host + 1,
        is_fold(folded, back, word),
        back.first == back.host,
        back.first < to <= back.end,
    ensures
        forall|j: int|
            forward[back.first].host < j < forward[to - 1].end ==> closing_mark(
                (#[trigger] words[j]).text,
            ),
        forall|j: int|
            forward[back.first].host <= j < forward[to - 1].end - 1 ==> !has_space_behind(
                #[trigger] words[j],
            ),
    decreases to,
{
    let from = back.first;
    assert(forward[from].end == forward[from].host + 1);
    if to - 1 > from {
        lemma_marks_stay_apart(words, forward, folded, back, word, to - 1);
        let fold = forward[to - 1];
        let before = forward[to - 2];
        assert(is_fold(words, fold, folded[to - 1]));
        assert(is_fold(words, before, folded[to - 2]));
        assert(before.end == fold.first);
        assert(before.end == before.host + 1);
        assert(closing_mark(folded[to - 1].text) && !has_space_behind(folded[to - 2]));
        if fold.first < fold.host {
            let part = words.subrange(fold.first, fold.end);
            let text = |w: PreWordView<P>| w.text;
            let rest = words.subrange(fold.first + 1, fold.end);
            assert(part =~= seq![words[fold.first]] + rest);
            lemma_gathered_concat(seq![words[fold.first]], rest, text);
            lemma_gathered_one(words[fold.first], text);
            assert(opening_mark(words[fold.first].text));
            assert(folded[to - 1].text[0] == ' ');
        }
        assert(fold.host == fold.first && fold.end == fold.first + 1);
        assert(words.subrange(fold.first, fold.end) =~= seq![words[fold.first]]);
        lemma_gathered_one(words[fold.first], |w: PreWordView<P>| w.text);
        assert(!has_space_behind(words[before.host])) by {
            let text = |w: PreWordView<P>| w.text;
            let most = words.subrange(before.first, before.host);
            assert(words.subrange(before.first, before.end) =~= most + seq![words[before.host]]);
            lemma_gathered_concat(most, seq![words[before.host]], text);
            lemma_gathered_one(words[before.host], text);
            assert(folded[to - 2].text == text_of(most) + words[before.host].text);
        }
    }
}

/// Where every word has a text, leaving out those without one leaves out
/// none.
proof fn lemma_with_text_all<P>(words: Seq<PreWordView<P>>)
    requires
        forall|i: int| 0 <= i < words.len() ==> (#[trigger] words[i]).text.len() > 0,
    ensures
        with_text(words) == words,
    decreases words.len(),
{
    let has_text = |w: PreWordView<P>| w.text.len() > 0;
    reveal(Seq::filter);
    if words.len() > 0 {
        let head = words.drop_last();
        assert forall|i: int| 0 <= i < head.len() implies (#[trigger] head[i]).text.len() > 0 by {
            assert(head[i] == words[i]);
        }
        lemma_with_text_all(head);
        assert(words.last() == words[words.len() - 1]);
        assert(words =~= head.push(words.last()));
        head.lemma_filter_push(words.last(), has_text);
    } else {
        assert(with_text(words) =~= words);
    }
}

/// A fold of words that have a text has a text.
proof fn lemma_fold_has_text<P>(words: Seq<PreWordView<P>>, fold: Fold, word: PreWordView<P>)
    requires
        is_fold(words, fold, word),
        words[fold.host].text.len() > 0,
    ensures
        word.text.len() > 0,
{
    let text = |w: PreWordView<P>| w.text;
    let head = words.subrange(fold.first, fold.host);
    let tail = words.subrange(fold.host + 1, fold.end);
    let host = seq![words[fold.host]];
    assert(words.subrange(fold.first, fold.end) =~= head + host + tail);
    lemma_gathered_concat(head + host, tail, text);
    lemma_gathered_concat(head, host, text);
    lemma_gathered_one(words[fold.host], text);
}

/// Folding punctuation puts neighbours together and does nothing else: each
/// word that comes out is one word that went in, its host, with the opening
/// marks right before it and the closing marks right behind it. It has the
/// host's times and sub-segment, and the texts, tokens and probabilities of
/// all of them in order. Words that are no marks are never put together.
/// The result tells which words each one is made of.
pub proof fn law_merge_folds_marks_into_their_hosts<P>(words: Seq<PreWordView<P>>) -> (folds: Seq<
    Fold,
>)
    requires
        forall|i: int| 0 <= i < words.len() ==> (#[trigger] words[i]).text.len() > 0,
    ensures
        is_folded(words, folds, merged(words)),
{
    let ahead = marks_forward(words);
    let forward = lemma_forward_folds(words);
    let back = lemma_backward_folds(ahead);
    let out = marks_backward(ahead);
    let folds = Seq::new(
        back.len(),
        |i: int| Fold {
            first: forward[back[i].first].first,
            host: forward[back[i].first].host,
            end: forward[back[i].end - 1].end,
        },
    );
    assert forall|i: int| 0 <= i < folds.len() implies is_fold(words, #[trigger] folds[i], out[i])
        by {
        assert(is_fold(ahead, back[i], out[i]));
        lemma_fold_of_folds(words, forward, ahead, back[i], out[i]);
    }
    assert forall|i: int, j: int| 0 <= i && i + 1 == j && j < folds.len() implies (
    #[trigger] folds[i]).end == (#[trigger] folds[j]).first by {
        assert(is_fold(ahead, back[i], out[i]));
        assert(is_fold(ahead, back[j], out[j]));
        assert(back[i].end == back[j].first);
        let at = back[j].first;
        assert(forward[at - 1].end == forward[at].first);
    }
    if words.len() > 0 {
        lemma_marks_forward_len(words);
        lemma_marks_backward_len(ahead);
        assert(back[0].first == 0);
        assert(back[back.len() - 1].end == ahead.len());
    }
    assert forall|i: int| 0 <= i < out.len() implies (#[trigger] out[i]).text.len() > 0 by {
        assert(is_fold(words, folds[i], out[i]));
        lemma_fold_has_text(words, folds[i], out[i]);
    }
    lemma_with_text_all(out);
    if words.len() < 2 {
        assert(out =~= words);
    }
    folds
}

/// Two texts that each show something show more than one character
/// together.
proof fn lemma_two_show_more(a: Seq<char>, b: Seq<char>)
    requires
        !blank(a),
        !blank(b),
    ensures
        sole_char_of(a + b) is None,
        !blank(a + b),
{
    let s = a + b;
    let i = choose|i: int| 0 <= i < a.len() && !white_space(#[trigger] a[i]);
    let j = choose|j: int| 0 <= j < b.len() && !white_space(#[trigger] b[j]);
    let k = a.len() + j;
    assert(s[i] == a[i]);
    assert(s[k] == b[j]);
    if sole_char_of(s) is Some {
        let at = law_sole_character_stands_alone(s);
        if i < at {
            assert(white_space(s.take(at)[i]));
        } else if k > at {
            assert(white_space(s.skip(at + 1)[k - at - 1]));
        }
    }
}

/// Whether every word shows something.
pub open spec fn all_show<P>(words: Seq<PreWordView<P>>) -> bool {
    forall|i: int| 0 <= i < words.len() ==> !blank((#[trigger] words[i]).text)
}

/// A list whose words show something still does without its first word, or
/// without its last.
proof fn lemma_parts_show<P>(words: Seq<PreWordView<P>>)
    requires
        all_show(words),
        words.len() > 0,
    ensures
        all_show(words.skip(1)),
        all_show(words.drop_last()),
        !blank(words[0].text),
        !blank(words.last().text),
{
    assert forall|i: int| 0 <= i < words.skip(1).len() implies !blank(
        (#[trigger] words.skip(1)[i]).text,
    ) by {
        assert(words.skip(1)[i] == words[i + 1]);
    }
    assert forall|i: int| 0 <= i < words.drop_last().len() implies !blank(
        (#[trigger] words.drop_last()[i]).text,
    ) by {
        assert(words.drop_last()[i] == words[i]);
    }
    assert(words.last() == words[words.len() - 1]);
}

/// After opening marks have gone forward, none is left but in last place.
proof fn lemma_forward_leaves_no_opening_mark<P>(words: Seq<PreWordView<P>>)
    requires
        all_show(words),
    ensures
        all_show(marks_forward(words)),
        forall|i: int|
            0 <= i < marks_forward(words).len() - 1 ==> !opening_mark(
                (#[trigger] marks_forward(words)[i]).text,
            ),
    decreases words.len(),
{
    if words.len() >= 2 {
        let rest = words.skip(1);
        let later = marks_forward(rest);
        let all = marks_forward(words);
        lemma_parts_show(words);
        lemma_forward_leaves_no_opening_mark(rest);
        lemma_marks_forward_len(rest);
        assert(!blank(later[0].text));
        lemma_two_show_more(words[0].text, later[0].text);
        let joins = opens(words[0].text);
        assert forall|i: int| 0 <= i < all.len() implies !blank((#[trigger] all[i]).text) && (i
            < all.len() - 1 ==> !opening_mark(all[i].text)) by {
            if i > 0 {
                let k = if joins {
                    i
                } else {
                    i - 1
                };
                assert(all[i] == later[k]);
            }
        }
    }
}

/// After closing marks have gone backward, each that is left follows a
/// space, and no opening mark has appeared.
proof fn lemma_backward_leaves_no_closing_mark<P>(words: Seq<PreWordView<P>>)
    requires
        all_show(words),
        forall|i: int| 0 <= i < words.len() - 1 ==> !opening_mark((#[trigger] words[i]).text),
    ensures
        all_show(marks_backward(words)),
        forall|i: int, j: int|
            0 <= i && i + 1 == j && j < marks_backward(words).len() && closing_mark(
                (#[trigger] marks_backward(words)[j]).text,
            ) ==> (#[trigger] marks_backward(words)[i]).text.last() == ' ',
        forall|i: int|
            0 <= i < marks_backward(words).len() - 1 ==> !opening_mark(
                (#[trigger] marks_backward(words)[i]).text,
            ),
        words.len() > 0 ==> {
            let last = marks_backward(words).last();
            last.text == words.last().text || sole_char_of(last.text) is None
        },
    decreases words.len(),
{
    if words.len() >= 2 {
        let head = words.drop_last();
        let mark = words.last();
        let earlier = marks_backward(head);
        let all = marks_backward(words);
        lemma_parts_show(words);
        assert forall|i: int| 0 <= i < head.len() - 1 implies !opening_mark(
            (#[trigger] head[i]).text,
        ) by {
            assert(head[i] == words[i]);
        }
        lemma_backward_leaves_no_closing_mark(head);
        lemma_marks_backward_len(head);
        let n = earlier.len() as int;
        assert(!blank(earlier[n - 1].text));
        assert(earlier.last() == earlier[n - 1]);
        lemma_two_show_more(earlier.last().text, mark.text);
        assert(!opening_mark(words[words.len() - 2].text));
        assert(head.last() == words[words.len() - 2]);
        assert(!opening_mark(earlier.last().text));
        assert(earlier.last().text.len() > 0);
        if takes_marks(earlier.last().text) && closes(mark.text) {
            assert forall|i: int| 0 <= i < n - 1 implies #[trigger] all[i] == earlier[i] by {}
        } else {
            assert forall|i: int| 0 <= i < n implies #[trigger] all[i] == earlier[i] by {}
            assert(closing_mark(mark.text) ==> closes(mark.text));
        }
        assert forall|i: int| 0 <= i < all.len() implies !blank((#[trigger] all[i]).text) by {
            if i < n - 1 {
                assert(!blank(earlier[i].text));
            }
        }
        assert forall|i: int, j: int|
            0 <= i && i + 1 == j && j < all.len() && closing_mark(
                (#[trigger] all[j]).text,
            ) implies (#[trigger] all[i]).text.last() == ' ' by {
            if j < n - 1 {
                assert(all[i] == earlier[i] && all[j] == earlier[j]);
            } else if j < all.len() - 1 {
                assert(all[i] == earlier[i] && all[j] == earlier[j]);
            }
        }
        assert forall|i: int| 0 <= i < all.len() - 1 implies !opening_mark(
            (#[trigger] all[i]).text,
        ) by {
            if i < n - 1 {
                assert(all[i] == earlier[i]);
            }
        }
    }
}

/// Every mark finds its word. After merging, a closing mark stands alone
/// only where it comes first or the word before it ends with a space, and
/// an opening mark only where no word follows. A mark is one character of
/// its list, white space aside; closing marks do not lead with a space, and
/// opening marks do.
pub proof fn law_no_mark_is_left_alone<P>(words: Seq<PreWordView<P>>, i: int, c: char)
    requires
        all_show(words),
        0 <= i < merged(words).len(),
        sole_char_of(merged(words)[i].text) == Some(c),
    ensures
        i > 0 && APPEND_PUNCT@.contains(c) && merged(words)[i].text[0] != ' ' ==> merged(
            words,
        )[i - 1].text.last() == ' ',
        i < merged(words).len() - 1 && PREPEND_PUNCT@.contains(c) ==> merged(words)[i].text[0]
            != ' ',
{
    let ahead = marks_forward(words);
    let out = marks_backward(ahead);
    lemma_forward_leaves_no_opening_mark(words);
    lemma_backward_leaves_no_closing_mark(ahead);
    assert forall|k: int| 0 <= k < out.len() implies (#[trigger] out[k]).text.len() > 0 by {
        assert(!blank(out[k].text));
    }
    lemma_with_text_all(out);
    if words.len() >= 2 {
        assert(merged(words) == out);
        assert(!blank(out[i].text));
        assert(out[i].text.len() > 0);
        if i > 0 && APPEND_PUNCT@.contains(c) && out[i].text[0] != ' ' {
            assert(closing_mark(out[i].text));
            assert(out[i - 1].text.last() == ' ');
        }
        if i < out.len() - 1 && PREPEND_PUNCT@.contains(c) && out[i].text[0] == ' ' {
            assert(opening_mark(out[i].text));
        }
    }
}

/// One more word at the end is folded into the last one exactly where it is
/// a closing mark without a leading space and the last word has a text that
/// does not end with a space; otherwise it stays a word of its own. This
/// holds of any words, blank ones too.
pub proof fn law_closing_marks_join_the_word_before<P>(
    words: Seq<PreWordView<P>>,
    word: PreWordView<P>,
)
    requires
        words.len() > 0,
    ensures
        ({
            let kept = marks_backward(words);
            let more = marks_backward(words.push(word));
            let mark = word.text.len() > 0 && word.text[0] != ' ' && (sole_char_of(
                word.text,
            ) matches Some(c) && (c == '"' || c == '\'' || c == '.' || c == '\u{3002}' || c == ','
                || c == '\u{FF0C}' || c == '!' || c == '\u{FF01}' || c == '?' || c == '\u{FF1F}'
                || c == ':' || c == '\u{FF1A}' || c == '\u{201D}' || c == ')' || c == ']' || c
                == '}' || c == '\u{3001}'));
            let open = kept.last().text.len() > 0 && kept.last().text.last() != ' ';
            &&& kept.len() > 0
            &&& mark && open ==> {
                &&& more.len() == kept.len()
                &&& more.drop_last() == kept.drop_last()
                &&& more.last().text == kept.last().text + word.text
                &&& more.last().start == kept.last().start
                &&& more.last().end == kept.last().end
                &&& more.last().sub == kept.last().sub
            }
            &&& !(mark && open) ==> more == kept.push(word)
        }),
{
    let kept = marks_backward(words);
    let more = marks_backward(words.push(word));
    lemma_marks_backward_len(words);
    assert(words.push(word).drop_last() =~= words);
    if let Some(c) = sole_char_of(word.text) {
        law_mark_characters(c);
        if word.text.len() == 0 {
            law_trim_leaves_the_visible_stretch(word.text);
        }
    }
    if takes_marks(kept.last().text) && closes(word.text) {
        assert(more.drop_last() =~= kept.drop_last());
    }
}

/// One more word at the front is folded into the next one exactly where it
/// is an opening mark with a leading space; otherwise it stays a word of
/// its own. The next word keeps its times. This holds of any words, blank
/// ones too.
pub proof fn law_opening_marks_join_the_word_after<P>(
    word: PreWordView<P>,
    words: Seq<PreWordView<P>>,
)
    requires
        words.len() > 0,
    ensures
        ({
            let kept = marks_forward(words);
            let more = marks_forward(seq![word] + words);
            let mark = word.text.len() > 0 && word.text[0] == ' ' && (sole_char_of(
                word.text,
            ) matches Some(c) && (c == '"' || c == '\'' || c == '\u{201C}' || c == '\u{00BF}' || c
                == '(' || c == '[' || c == '{' || c == '-'));
            &&& kept.len() > 0
            &&& mark ==> {
                &&& more.len() == kept.len()
                &&& more.skip(1) == kept.skip(1)
                &&& more[0].text == word.text + kept[0].text
                &&& more[0].start == kept[0].start
                &&& more[0].end == kept[0].end
                &&& more[0].sub == kept[0].sub
            }
            &&& !mark ==> more == seq![word] + kept
        }),
{
    let all = seq![word] + words;
    lemma_marks_forward_len(words);
    assert(all.skip(1) =~= words);
    if let Some(c) = sole_char_of(word.text) {
        law_mark_characters(c);
    }
    let kept = marks_forward(words);
    if opens(word.text) {
        assert(marks_forward(all).skip(1) =~= kept.skip(1));
    }
}

/// Of two words or more, none that comes out of merging is without a text,
/// and fewer than two are left as they are.
pub proof fn law_merge_leaves_no_blank_word<P>(words: Seq<PreWordView<P>>, i: int)
    requires
        0 <= i < merged(words).len(),
    ensures
        words.len() >= 2 ==> merged(words)[i].text.len() > 0,
        words.len() < 2 ==> merged(words) == words,
{
    let out = marks_backward(marks_forward(words));
    let has_text = |w: PreWordView<P>| w.text.len() > 0;
    if words.len() >= 2 {
        out.lemma_filter_contains_rev(has_text, merged(words)[i]);
        assert(has_text(merged(words)[i]));
    }
}

} // verus!
