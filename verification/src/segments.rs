//! The segments of a transcript.

use vstd::prelude::*;
use vstd::string::*;

use crate::align::decoder;
use crate::batch::{counts_of, lemma_places_len, lemma_sum_grows, Batch, Place};
use crate::errors::{
    after, categorized, failure, first_kind, lemma_after_all, lemma_after_more,
    lemma_after_nothing, lemma_after_push, runtime_error, uncategorized, CauseView, Error,
};
use crate::preprocessor::Preprocessor;
use crate::text::{
    blank, decimal, decimal_of, law_trim_leaves_the_visible_stretch, texts, trim, trim_of,
};
use crate::time::{sample_time, samples_of, FAR};
use crate::timing::{
    chunk_lists_of, chunks_fit, chunks_of, subs_fit, word_lists_of, words_of, ChunkState,
    ChunkView, Word, WordView,
};
use crate::tokenizer::TextTokenizer;
use crate::tokens::{
    copy_ids, decode_ids, language_code, language_code_of, plain_text, sub_segments_of,
    SpecialTokens, SubSegmentView,
};
use crate::transcribe::{batch_states, states_from, Generated};

verus! {

/// One segment of a transcript. Times count from the start of its audio.
#[derive(Debug)]
pub struct SegmentResult<P, S> {
    /// The text, with the spacing that the tokenizer gives it.
    pub text: String,
    pub start: u128,
    pub end: u128,
    pub no_speech_prob: S,
    /// The score of the hypothesis that the segment is part of.
    pub score: S,
    /// How many tokens that hypothesis has.
    pub hypothesis_len: usize,
    pub tokens: Vec<u32>,
    pub words: Option<Vec<Word<P>>>,
}

/// What a [`SegmentResult`] holds.
#[verifier::ext_equal]
pub struct SegmentView<P, S> {
    pub text: Seq<char>,
    pub start: nat,
    pub end: nat,
    pub no_speech_prob: S,
    pub score: S,
    pub hypothesis_len: nat,
    pub tokens: Seq<u32>,
    pub words: Option<Seq<WordView<P>>>,
}

impl<P, S> View for SegmentResult<P, S> {
    type V = SegmentView<P, S>;

    open spec fn view(&self) -> SegmentView<P, S> {
        SegmentView {
            text: self.text@,
            start: self.start as nat,
            end: self.end as nat,
            no_speech_prob: self.no_speech_prob,
            score: self.score,
            hypothesis_len: self.hypothesis_len as nat,
            tokens: self.tokens@,
            words: match self.words {
                Some(list) => Some(words_of(list@)),
                None => None,
            },
        }
    }
}

/// The contents of a list of segments.
pub open spec fn segments_of<P, S>(list: Seq<SegmentResult<P, S>>) -> Seq<SegmentView<P, S>> {
    list.map_values(|s: SegmentResult<P, S>| s@)
}

/// The transcript of one audio.
#[derive(Debug)]
pub struct TranscriptionResult<P, S> {
    pub language: String,
    pub duration: u128,
    pub segments: Vec<SegmentResult<P, S>>,
}

/// What a [`TranscriptionResult`] holds.
#[verifier::ext_equal]
pub struct TranscriptionView<P, S> {
    pub language: Seq<char>,
    pub duration: nat,
    pub segments: Seq<SegmentView<P, S>>,
}

impl<P, S> View for TranscriptionResult<P, S> {
    type V = TranscriptionView<P, S>;

    open spec fn view(&self) -> TranscriptionView<P, S> {
        TranscriptionView {
            language: self.language@,
            duration: self.duration as nat,
            segments: segments_of(self.segments@),
        }
    }
}

/// The contents of a list of transcripts.
pub open spec fn transcripts_of<P, S>(list: Seq<TranscriptionResult<P, S>>) -> Seq<
    TranscriptionView<P, S>,
> {
    list.map_values(|t: TranscriptionResult<P, S>| t@)
}

/// The words of every sub-segment of every chunk of a batch, where word
/// times were asked for.
pub open spec fn batch_words_in<P>(words: Option<Vec<Vec<Vec<Word<P>>>>>) -> Option<
    Seq<Seq<Seq<WordView<P>>>>,
> {
    match words {
        Some(lists) => Some(chunk_lists_of(lists@)),
        None => None,
    }
}

/// The chain for a chunk without an alignment.
pub open spec fn no_chunk_alignment(chunk: nat, expected: nat, got: nat) -> Seq<CauseView> {
    uncategorized(
        "word_timestamps: alignment result missing for chunk "@ + decimal_of(chunk)
            + " (expected "@ + decimal_of(expected) + " chunks, got "@ + decimal_of(got) + ")"@,
    )
}

/// The chain for a sub-segment without an alignment.
pub open spec fn no_sub_alignment(sub: nat, chunk: nat, got: nat) -> Seq<CauseView> {
    uncategorized(
        "word_timestamps: alignment result missing for sub-segment "@ + decimal_of(sub)
            + " of chunk "@ + decimal_of(chunk) + " ("@ + decimal_of(got)
            + " sub-segments aligned)"@,
    )
}

/// The words of sub-segment `sub` of chunk `chunk`, of `total` chunks.
pub open spec fn words_at<P>(
    words: Option<Seq<Seq<Seq<WordView<P>>>>>,
    total: nat,
    chunk: nat,
    sub: nat,
) -> Result<Option<Seq<WordView<P>>>, Seq<CauseView>> {
    match words {
        None => Ok(None),
        Some(lists) => if chunk >= lists.len() {
            Err(no_chunk_alignment(chunk, total, lists.len()))
        } else if sub >= lists[chunk as int].len() {
            Err(no_sub_alignment(sub, chunk, lists[chunk as int].len()))
        } else {
            Ok(Some(lists[chunk as int][sub as int]))
        },
    }
}

/// A copy of a list of words.
fn copy_words<P: Copy>(list: &Vec<Word<P>>) -> (r: Vec<Word<P>>)
    ensures
        words_of(r@) == words_of(list@),
{
    let mut out: Vec<Word<P>> = Vec::new();
    let ghost all = words_of(list@);
    for i in 0..list.len()
        invariant
            all == words_of(list@),
            words_of(out@) == all.take(i as int),
    {
        let w = &list[i];
        let ghost before = out@;
        let mut probs: Vec<P> = Vec::new();
        for k in 0..w.probs.len()
            invariant
                probs@ == w.probs@.take(k as int),
        {
            probs.push(w.probs[k]);
            assert(w.probs@.take(k + 1) =~= w.probs@.take(k as int).push(w.probs@[k as int]));
        }
        assert(w.probs@.take(w.probs@.len() as int) =~= w.probs@);
        out.push(Word { text: w.text.clone(), start: w.start, end: w.end, probs });
        assert(all[i as int] == list@[i as int]@);
        assert(words_of(out@) =~= words_of(before).push(all[i as int]));
        assert(all.take(i + 1) =~= all.take(i as int).push(all[i as int]));
    }
    assert(all.take(all.len() as int) =~= all);
    out
}

/// The words of a sub-segment.
fn words_for<P: Copy>(
    words: &Option<Vec<Vec<Vec<Word<P>>>>>,
    total: usize,
    chunk: usize,
    sub: usize,
) -> (r: Result<Option<Vec<Word<P>>>, Error>)
    ensures
        match r {
            Ok(None) => words_at(
                batch_words_in(*words),
                total as nat,
                chunk as nat,
                sub as nat,
            ) == Ok::<Option<Seq<WordView<P>>>, Seq<CauseView>>(None),
            Ok(Some(list)) => words_at(
                batch_words_in(*words),
                total as nat,
                chunk as nat,
                sub as nat,
            ) == Ok::<_, Seq<CauseView>>(Some(words_of(list@))),
            Err(e) => words_at(
                batch_words_in(*words),
                total as nat,
                chunk as nat,
                sub as nat,
            ) == Err::<Option<Seq<WordView<P>>>, _>(e@),
        },
{
    match words {
        None => Ok(None),
        Some(lists) => {
            if chunk >= lists.len() {
                let mut message =
                    "word_timestamps: alignment result missing for chunk ".to_owned();
                message.append(decimal(chunk as u128).as_str());
                message.append(" (expected ");
                message.append(decimal(total as u128).as_str());
                message.append(" chunks, got ");
                message.append(decimal(lists.len() as u128).as_str());
                message.append(")");
                return Err(failure(message));
            }
            assert(chunk_lists_of(lists@)[chunk as int] == word_lists_of(lists@[chunk as int]@));
            if sub >= lists[chunk].len() {
                let mut message =
                    "word_timestamps: alignment result missing for sub-segment ".to_owned();
                message.append(decimal(sub as u128).as_str());
                message.append(" of chunk ");
                message.append(decimal(chunk as u128).as_str());
                message.append(" (");
                message.append(decimal(lists[chunk].len() as u128).as_str());
                message.append(" sub-segments aligned)");
                return Err(failure(message));
            }
            Ok(Some(copy_words(&lists[chunk][sub])))
        },
    }
}

/// What the segments of a chunk have in common: the batch it is part of,
/// its number in it, where it starts, and what the model generated for it.
#[verifier::ext_equal]
pub struct ChunkContext<P, S> {
    pub words: Option<Seq<Seq<Seq<WordView<P>>>>>,
    pub total: nat,
    pub chunk: nat,
    pub offset: nat,
    pub no_speech_prob: S,
    pub score: S,
    pub hypothesis_len: nat,
}

/// Whether a text shows anything: it is not blank.
pub open spec fn visible(text: Seq<char>) -> bool {
    trim_of(text).len() > 0
}

/// Whether a text shows anything.
pub fn is_visible(text: &str) -> (r: bool)
    ensures
        r == visible(text@),
{
    !trim(text).is_empty()
}

/// The segment of a sub-segment with the given text and words.
pub open spec fn segment_of<P, S>(
    text: Seq<char>,
    sub: SubSegmentView,
    context: ChunkContext<P, S>,
    words: Option<Seq<WordView<P>>>,
) -> SegmentView<P, S> {
    SegmentView {
        text,
        start: context.offset + sub.start,
        end: context.offset + sub.end,
        no_speech_prob: context.no_speech_prob,
        score: context.score,
        hypothesis_len: context.hypothesis_len,
        tokens: sub.ids,
        words,
    }
}

/// The segments of the sub-segments from number `k` on. A sub-segment
/// without visible text is left out.
pub open spec fn sub_results<P, S>(
    decode: spec_fn(Seq<u32>) -> Result<Seq<char>, Seq<char>>,
    subs: Seq<SubSegmentView>,
    context: ChunkContext<P, S>,
    k: nat,
) -> Result<Seq<SegmentView<P, S>>, Seq<CauseView>>
    decreases subs.len() - k,
{
    if k >= subs.len() {
        Ok(Seq::empty())
    } else {
        match plain_text(decode(subs[k as int].ids)) {
            Err(e) => Err(e),
            Ok(text) => if !visible(text) {
                sub_results(decode, subs, context, k + 1)
            } else {
                match words_at(context.words, context.total, context.chunk, k) {
                    Err(e) => Err(e),
                    Ok(words) => after(
                        seq![segment_of(text, subs[k as int], context, words)],
                        sub_results(decode, subs, context, k + 1),
                    ),
                }
            },
        }
    }
}

/// The segments of chunk `g` of a batch.
pub open spec fn chunk_results<P, S>(
    decode: spec_fn(Seq<u32>) -> Result<Seq<char>, Seq<char>>,
    chunks: Seq<ChunkView>,
    generated: Seq<Generated<S>>,
    words: Option<Seq<Seq<Seq<WordView<P>>>>>,
    g: nat,
) -> Result<Seq<SegmentView<P, S>>, Seq<CauseView>> {
    let found = generated[g as int];
    if found.scores@.len() == 0 {
        Err(
            uncategorized(
                "ct2 generation result is missing scores despite return_scores=true"@,
            ),
        )
    } else {
        sub_results(
            decode,
            chunks[g as int].subs,
            ChunkContext {
                words,
                total: chunks.len(),
                chunk: g,
                offset: chunks[g as int].offset,
                no_speech_prob: found.no_speech_prob,
                score: found.scores@[0],
                hypothesis_len: found.sequences_ids@[0]@.len(),
            },
            0,
        )
    }
}

/// The segments of chunk `g` of a batch.
fn chunk_segments<P: Copy, S: Copy>(
    tokenizer: &TextTokenizer,
    chunks: &Vec<ChunkState>,
    generated: &Vec<Generated<S>>,
    words: &Option<Vec<Vec<Vec<Word<P>>>>>,
    g: usize,
) -> (r: Result<Vec<SegmentResult<P, S>>, Error>)
    requires
        g < chunks@.len(),
        generated@.len() == chunks@.len(),
        generated@[g as int].sequences_ids@.len() > 0,
        chunks_fit(chunks_of(chunks@)),
    ensures
        match r {
            Ok(list) => chunk_results(
                decoder(tokenizer@),
                chunks_of(chunks@),
                generated@,
                batch_words_in(*words),
                g as nat,
            ) == Ok::<_, Seq<CauseView>>(segments_of(list@)),
            Err(e) => chunk_results(
                decoder(tokenizer@),
                chunks_of(chunks@),
                generated@,
                batch_words_in(*words),
                g as nat,
            ) == Err::<Seq<SegmentView<P, S>>, _>(e@),
        },
{
    let found = &generated[g];
    if found.scores.len() == 0 {
        return Err(
            failure(
                "ct2 generation result is missing scores despite return_scores=true".to_owned(),
            ),
        );
    }
    let chunk = &chunks[g];
    let total: usize = chunks.len();
    let score: S = found.scores[0];
    let no_speech_prob: S = found.no_speech_prob;
    let hypothesis_len: usize = found.sequences_ids[0].len();
    let ghost decode = decoder(tokenizer@);
    let ghost subs = sub_segments_of(chunk.sub_segments@);
    let ghost context = ChunkContext {
        words: batch_words_in(*words),
        total: total as nat,
        chunk: g as nat,
        offset: chunk.offset as nat,
        no_speech_prob,
        score,
        hypothesis_len: hypothesis_len as nat,
    };
    assert(chunks_of(chunks@)[g as int] == chunk@);
    let ghost whole = sub_results(decode, subs, context, 0);
    let ghost listed = batch_words_in(*words);
    assert(chunk_results(decode, chunks_of(chunks@), generated@, listed, g as nat) == whole);
    let mut out: Vec<SegmentResult<P, S>> = Vec::new();
    proof {
        lemma_after_nothing(segments_of(out@), whole);
    }
    for k in 0..chunk.sub_segments.len()
        invariant
            decode == decoder(tokenizer@),
            subs == sub_segments_of(chunk.sub_segments@),
            chunk.offset <= FAR,
            subs_fit(subs),
            context == (ChunkContext {
                words: batch_words_in(*words),
                total: total as nat,
                chunk: g as nat,
                offset: chunk.offset as nat,
                no_speech_prob,
                score,
                hypothesis_len: hypothesis_len as nat,
            }),
            listed == batch_words_in(*words),
            whole == chunk_results(decode, chunks_of(chunks@), generated@, listed, g as nat),
            whole == after(segments_of(out@), sub_results(decode, subs, context, k as nat)),
    {
        let sub = &chunk.sub_segments[k];
        assert(subs[k as int] == sub@);
        let text = decode_ids(tokenizer, sub.text_token_ids.as_slice())?;
        if is_visible(text.as_str()) {
            let sub_words = words_for(words, total, g, k)?;
            let tokens = copy_ids(
                sub.text_token_ids.as_slice(),
                0,
                sub.text_token_ids.len(),
            );
            assert(tokens@ =~= sub.text_token_ids@);
            let segment = SegmentResult {
                text,
                start: chunk.offset + sub.start_in_chunk,
                end: chunk.offset + sub.end_in_chunk,
                no_speech_prob,
                score,
                hypothesis_len,
                tokens,
                words: sub_words,
            };
            let ghost before = segments_of(out@);
            let ghost added = segment@;
            out.push(segment);
            assert(segments_of(out@) =~= before.push(added));
            proof {
                lemma_after_push(before, added, sub_results(decode, subs, context, k as nat + 1));
            }
        }
    }
    proof {
        lemma_after_all(segments_of(out@));
    }
    Ok(out)
}

/// The segments of the chunks `from` to `to` of a batch.
pub open spec fn range_results<P, S>(
    decode: spec_fn(Seq<u32>) -> Result<Seq<char>, Seq<char>>,
    chunks: Seq<ChunkView>,
    generated: Seq<Generated<S>>,
    words: Option<Seq<Seq<Seq<WordView<P>>>>>,
    from: nat,
    to: nat,
) -> Result<Seq<SegmentView<P, S>>, Seq<CauseView>>
    decreases to - from,
{
    if from >= to {
        Ok(Seq::empty())
    } else {
        match chunk_results(decode, chunks, generated, words, from) {
            Err(e) => Err(e),
            Ok(list) => after(
                list,
                range_results(decode, chunks, generated, words, from + 1, to),
            ),
        }
    }
}

/// The segments of chunks `from` to `to`.
fn range_segments<P: Copy, S: Copy>(
    tokenizer: &TextTokenizer,
    chunks: &Vec<ChunkState>,
    generated: &Vec<Generated<S>>,
    words: &Option<Vec<Vec<Vec<Word<P>>>>>,
    from: usize,
    to: usize,
) -> (r: Result<Vec<SegmentResult<P, S>>, Error>)
    requires
        from <= to <= chunks@.len(),
        generated@.len() == chunks@.len(),
        all_generated(generated@),
        chunks_fit(chunks_of(chunks@)),
    ensures
        match r {
            Ok(list) => range_results(
                decoder(tokenizer@),
                chunks_of(chunks@),
                generated@,
                batch_words_in(*words),
                from as nat,
                to as nat,
            ) == Ok::<_, Seq<CauseView>>(segments_of(list@)),
            Err(e) => range_results(
                decoder(tokenizer@),
                chunks_of(chunks@),
                generated@,
                batch_words_in(*words),
                from as nat,
                to as nat,
            ) == Err::<Seq<SegmentView<P, S>>, _>(e@),
        },
{
    let ghost decode = decoder(tokenizer@);
    let ghost all = chunks_of(chunks@);
    let ghost listed = batch_words_in(*words);
    let ghost whole = range_results(decode, all, generated@, listed, from as nat, to as nat);
    let mut out: Vec<SegmentResult<P, S>> = Vec::new();
    proof {
        lemma_after_nothing(segments_of(out@), whole);
    }
    for g in from..to
        invariant
            from <= g <= to <= chunks@.len(),
            generated@.len() == chunks@.len(),
            all_generated(generated@),
            decode == decoder(tokenizer@),
            all == chunks_of(chunks@),
            listed == batch_words_in(*words),
            chunks_fit(all),
            whole == range_results(decode, all, generated@, listed, from as nat, to as nat),
            whole == after(
                segments_of(out@),
                range_results(decode, all, generated@, listed, g as nat, to as nat),
            ),
    {
        assert(generated@[g as int].sequences_ids@.len() > 0);
        let mut list = chunk_segments(tokenizer, chunks, generated, words, g)?;
        let ghost before = segments_of(out@);
        let ghost added = segments_of(list@);
        out.append(&mut list);
        assert(segments_of(out@) =~= before + added);
        proof {
            lemma_after_more(
                before,
                added,
                range_results(decode, all, generated@, listed, g as nat + 1, to as nat),
            );
        }
    }
    proof {
        lemma_after_all(segments_of(out@));
    }
    Ok(out)
}

/// Whether the model generated something for every chunk.
pub open spec fn all_generated<S>(generated: Seq<Generated<S>>) -> bool {
    forall|i: int| 0 <= i < generated.len() ==> (#[trigger] generated[i]).sequences_ids@.len() > 0
}

/// The transcripts of the audios from number `a` on.
pub open spec fn transcripts_from<P, S>(
    decode: spec_fn(Seq<u32>) -> Result<Seq<char>, Seq<char>>,
    lengths: Seq<usize>,
    offsets: Seq<usize>,
    languages: Seq<Seq<char>>,
    chunks: Seq<ChunkView>,
    generated: Seq<Generated<S>>,
    words: Option<Seq<Seq<Seq<WordView<P>>>>>,
    a: nat,
) -> Result<Seq<TranscriptionView<P, S>>, Seq<CauseView>>
    decreases lengths.len() - a,
{
    if a >= lengths.len() {
        Ok(Seq::empty())
    } else {
        match range_results(
            decode,
            chunks,
            generated,
            words,
            offsets[a as int] as nat,
            offsets[a as int + 1] as nat,
        ) {
            Err(e) => Err(e),
            Ok(segments) => after(
                seq![
                    TranscriptionView {
                        language: language_code_of(languages[a as int]),
                        duration: samples_of(lengths[a as int] as nat),
                        segments,
                    },
                ],
                transcripts_from(
                    decode,
                    lengths,
                    offsets,
                    languages,
                    chunks,
                    generated,
                    words,
                    a + 1,
                ),
            ),
        }
    }
}

/// Puts the transcripts of a batch together. `words` are the words of every
/// chunk, where word times were asked for.
pub fn build_transcripts<P: Copy, S: Copy>(
    tokenizer: &TextTokenizer,
    batch: &Batch,
    languages: &Vec<String>,
    chunks: &Vec<ChunkState>,
    generated: &Vec<Generated<S>>,
    words: &Option<Vec<Vec<Vec<Word<P>>>>>,
) -> (r: Result<Vec<TranscriptionResult<P, S>>, Error>)
    requires
        languages@.len() == batch.lengths@.len(),
        batch.offsets@.len() == batch.lengths@.len() + 1,
        in_order(batch.offsets@, chunks@.len()),
        generated@.len() == chunks@.len(),
        all_generated(generated@),
        chunks_fit(chunks_of(chunks@)),
    ensures
        match r {
            Ok(list) => transcripts_from(
                decoder(tokenizer@),
                batch.lengths@,
                batch.offsets@,
                texts(languages@),
                chunks_of(chunks@),
                generated@,
                batch_words_in(*words),
                0,
            ) == Ok::<_, Seq<CauseView>>(transcripts_of(list@)),
            Err(e) => transcripts_from(
                decoder(tokenizer@),
                batch.lengths@,
                batch.offsets@,
                texts(languages@),
                chunks_of(chunks@),
                generated@,
                batch_words_in(*words),
                0,
            ) == Err::<Seq<TranscriptionView<P, S>>, _>(e@),
        },
{
    let ghost decode = decoder(tokenizer@);
    let ghost all = chunks_of(chunks@);
    let ghost listed = batch_words_in(*words);
    let ghost langs = texts(languages@);
    let ghost whole = transcripts_from(
        decode,
        batch.lengths@,
        batch.offsets@,
        langs,
        all,
        generated@,
        listed,
        0,
    );
    let mut out: Vec<TranscriptionResult<P, S>> = Vec::new();
    proof {
        lemma_after_nothing(transcripts_of(out@), whole);
    }
    for a in 0..batch.lengths.len()
        invariant
            languages@.len() == batch.lengths@.len(),
            batch.offsets@.len() == batch.lengths@.len() + 1,
            in_order(batch.offsets@, chunks@.len()),
            generated@.len() == chunks@.len(),
            all_generated(generated@),
            decode == decoder(tokenizer@),
            all == chunks_of(chunks@),
            listed == batch_words_in(*words),
            langs == texts(languages@),
            chunks_fit(all),
            whole == transcripts_from(
                decode,
                batch.lengths@,
                batch.offsets@,
                langs,
                all,
                generated@,
                listed,
                0,
            ),
            whole == after(
                transcripts_of(out@),
                transcripts_from(
                    decode,
                    batch.lengths@,
                    batch.offsets@,
                    langs,
                    all,
                    generated@,
                    listed,
                    a as nat,
                ),
            ),
    {
        assert(batch.offsets@[a as int] <= batch.offsets@[a + 1] <= chunks@.len());
        let segments = range_segments(
            tokenizer,
            chunks,
            generated,
            words,
            batch.offsets[a],
            batch.offsets[a + 1],
        )?;
        assert(langs[a as int] == languages@[a as int]@);
        let transcript = TranscriptionResult {
            language: language_code(languages[a].as_str()).to_owned(),
            duration: sample_time(batch.lengths[a]),
            segments,
        };
        let ghost before = transcripts_of(out@);
        let ghost added = transcript@;
        out.push(transcript);
        assert(transcripts_of(out@) =~= before.push(added));
        proof {
            lemma_after_push(
                before,
                added,
                transcripts_from(
                    decode,
                    batch.lengths@,
                    batch.offsets@,
                    langs,
                    all,
                    generated@,
                    listed,
                    a as nat + 1,
                ),
            );
        }
    }
    proof {
        lemma_after_all(transcripts_of(out@));
    }
    Ok(out)
}

/// Whether offsets rise and stay within `n` chunks.
pub open spec fn in_order(offsets: Seq<usize>, n: nat) -> bool {
    forall|i: int, j: int|
        0 <= i <= j < offsets.len() ==> (#[trigger] offsets[i]) <= (#[trigger] offsets[j])
            && offsets[j] <= n
}

/// Chunks that could be read are all there, and each has a hypothesis.
proof fn lemma_states_listed<S>(
    generated: Seq<Generated<S>>,
    lengths: Seq<usize>,
    places: Seq<Place>,
    specials: SpecialTokens,
    p: Preprocessor,
    k: nat,
)
    requires
        k <= places.len(),
    ensures
        states_from(generated, lengths, places, specials, p, k) matches Ok(chunks) ==> {
            &&& chunks.len() == places.len() - k
            &&& forall|i: int|
                k <= i < places.len() ==> (#[trigger] generated[i]).sequences_ids@.len() > 0
        },
    decreases places.len() - k,
{
    if k < places.len() {
        lemma_states_listed(generated, lengths, places, specials, p, k + 1);
    }
}

/// Whatever the model generates for a batch, if it can be read, its
/// transcripts can be put together: each audio's chunks are a range of the
/// batch, and each chunk has a hypothesis.
pub proof fn law_read_batches_can_be_put_together<S>(
    batch: Batch,
    generated: Seq<Generated<S>>,
    chunks: Seq<ChunkView>,
    specials: SpecialTokens,
    p: Preprocessor,
)
    requires
        batch.cut(p.n_samples as nat),
        batch_states(generated, batch.lengths@, batch.places@, specials, p) == Ok::<
            _,
            Seq<CauseView>,
        >(chunks),
    ensures
        chunks.len() == batch.places@.len(),
        generated.len() == chunks.len(),
        all_generated(generated),
        in_order(batch.offsets@, chunks.len()),
{
    lemma_states_listed(generated, batch.lengths@, batch.places@, specials, p, 0);
    let counts = counts_of(batch.lengths@, p.n_samples as nat);
    lemma_places_len(counts);
    assert forall|i: int, j: int| 0 <= i <= j < batch.offsets@.len() implies (
    #[trigger] batch.offsets@[i]) <= (#[trigger] batch.offsets@[j]) && batch.offsets@[j]
        <= chunks.len() by {
        lemma_sum_grows(counts.take(j), i);
        assert(counts.take(j).take(i) =~= counts.take(i));
        lemma_sum_grows(counts, j);
    }
}

/// The transcript of a batch of one.
pub fn only_transcript<P, S>(list: Vec<TranscriptionResult<P, S>>) -> (r: Result<
    TranscriptionResult<P, S>,
    Error,
>)
    ensures
        match r {
            Ok(transcript) => list@.len() > 0 && transcript == list@[0],
            Err(e) => list@.len() == 0 && e@ == categorized(
                "runtime_error"@,
                "transcribe_many returned no results"@,
            ),
        },
{
    let mut list = list;
    if list.len() == 0 {
        return Err(runtime_error("transcribe_many returned no results".to_owned()));
    }
    Ok(list.swap_remove(0))
}

/// Every segment has visible text, starts no earlier than its chunk, and
/// lists words exactly where word times were asked for.
pub proof fn law_segments_are_sound<P, S>(
    decode: spec_fn(Seq<u32>) -> Result<Seq<char>, Seq<char>>,
    subs: Seq<SubSegmentView>,
    context: ChunkContext<P, S>,
    k: nat,
)
    ensures
        sub_results(decode, subs, context, k) matches Ok(list) ==> {
            &&& list.len() + k <= subs.len() || list.len() == 0
            &&& forall|i: int|
                0 <= i < list.len() ==> {
                    &&& visible((#[trigger] list[i]).text)
                    &&& list[i].start >= context.offset
                    &&& list[i].words is Some <==> context.words is Some
                }
        },
    decreases subs.len() - k,
{
    if k < subs.len() {
        law_segments_are_sound(decode, subs, context, k + 1);
        if let Ok(list) = sub_results(decode, subs, context, k) {
            if let Ok(text) = plain_text(decode(subs[k as int].ids)) {
                if visible(text) {
                    let later = sub_results(decode, subs, context, k + 1)->Ok_0;
                    assert forall|i: int| 0 <= i < list.len() implies {
                        &&& visible((#[trigger] list[i]).text)
                        &&& list[i].start >= context.offset
                        &&& list[i].words is Some <==> context.words is Some
                    } by {
                        if i > 0 {
                            assert(list[i] == later[i - 1]);
                        }
                    }
                }
            }
        }
    }
}

/// A transcribed batch has one transcript per audio, in order, each with
/// the language and the length of its audio.
pub proof fn law_one_transcript_per_audio<P, S>(
    decode: spec_fn(Seq<u32>) -> Result<Seq<char>, Seq<char>>,
    lengths: Seq<usize>,
    offsets: Seq<usize>,
    languages: Seq<Seq<char>>,
    chunks: Seq<ChunkView>,
    generated: Seq<Generated<S>>,
    words: Option<Seq<Seq<Seq<WordView<P>>>>>,
    a: nat,
)
    requires
        a <= lengths.len(),
    ensures
        transcripts_from(
            decode,
            lengths,
            offsets,
            languages,
            chunks,
            generated,
            words,
            a,
        ) matches Ok(list) ==> {
            &&& list.len() == lengths.len() - a
            &&& forall|i: int|
                0 <= i < list.len() ==> {
                    &&& (#[trigger] list[i]).language == language_code_of(languages[a + i])
                    &&& list[i].duration == samples_of(lengths[a + i] as nat)
                }
        },
    decreases lengths.len() - a,
{
    if a < lengths.len() {
        law_one_transcript_per_audio(
            decode,
            lengths,
            offsets,
            languages,
            chunks,
            generated,
            words,
            a + 1,
        );
        if let Ok(list) = transcripts_from(
            decode,
            lengths,
            offsets,
            languages,
            chunks,
            generated,
            words,
            a,
        ) {
            let later = transcripts_from(
                decode,
                lengths,
                offsets,
                languages,
                chunks,
                generated,
                words,
                a + 1,
            )->Ok_0;
            assert forall|i: int| 0 <= i < list.len() implies {
                &&& (#[trigger] list[i]).language == language_code_of(languages[a + i])
                &&& list[i].duration == samples_of(lengths[a + i] as nat)
            } by {
                if i > 0 {
                    assert(list[i] == later[i - 1]);
                }
            }
        }
    }
}

/// The words of some chunks of a batch.
pub open spec fn words_between<P>(
    words: Option<Seq<Seq<Seq<WordView<P>>>>>,
    from: int,
    to: int,
) -> Option<Seq<Seq<Seq<WordView<P>>>>> {
    match words {
        Some(lists) => Some(lists.subrange(from, to)),
        None => None,
    }
}

/// The segments of a sub-segment come out the same whatever else is in the
/// batch.
proof fn lemma_same_context<P, S>(
    decode: spec_fn(Seq<u32>) -> Result<Seq<char>, Seq<char>>,
    subs: Seq<SubSegmentView>,
    one: ChunkContext<P, S>,
    other: ChunkContext<P, S>,
    k: nat,
)
    requires
        one.offset == other.offset,
        one.no_speech_prob == other.no_speech_prob,
        one.score == other.score,
        one.hypothesis_len == other.hypothesis_len,
        match (one.words, other.words) {
            (None, None) => true,
            (Some(a), Some(b)) => one.chunk < a.len() && other.chunk < b.len()
                && a[one.chunk as int] == b[other.chunk as int],
            _ => false,
        },
        sub_results(decode, subs, one, k) is Ok,
    ensures
        sub_results(decode, subs, other, k) == sub_results(decode, subs, one, k),
    decreases subs.len() - k,
{
    if k < subs.len() {
        if let Ok(text) = plain_text(decode(subs[k as int].ids)) {
            lemma_same_context(decode, subs, one, other, k + 1);
        }
    }
}

/// An audio is transcribed in a batch as it is on its own: the segments of
/// its chunks are the same as if they were the whole batch.
pub proof fn law_audios_do_not_influence_each_other<P, S>(
    decode: spec_fn(Seq<u32>) -> Result<Seq<char>, Seq<char>>,
    chunks: Seq<ChunkView>,
    generated: Seq<Generated<S>>,
    words: Option<Seq<Seq<Seq<WordView<P>>>>>,
    from: nat,
    at: nat,
    to: nat,
)
    requires
        from <= at <= to <= chunks.len(),
        generated.len() == chunks.len(),
        words matches Some(lists) ==> lists.len() == chunks.len(),
        range_results(decode, chunks, generated, words, at, to) is Ok,
    ensures
        range_results(
            decode,
            chunks.subrange(from as int, to as int),
            generated.subrange(from as int, to as int),
            words_between(words, from as int, to as int),
            (at - from) as nat,
            (to - from) as nat,
        ) == range_results(decode, chunks, generated, words, at, to),
    decreases to - at,
{
    let own_chunks = chunks.subrange(from as int, to as int);
    let own_generated = generated.subrange(from as int, to as int);
    let own_words = words_between(words, from as int, to as int);
    if at < to {
        law_audios_do_not_influence_each_other(
            decode,
            chunks,
            generated,
            words,
            from,
            at + 1,
            to,
        );
        let found = generated[at as int];
        let own = (at - from) as nat;
        assert(own_generated[own as int] == found);
        assert(own_chunks[own as int] == chunks[at as int]);
        let one = ChunkContext {
            words,
            total: chunks.len(),
            chunk: at,
            offset: chunks[at as int].offset,
            no_speech_prob: found.no_speech_prob,
            score: found.scores@[0],
            hypothesis_len: found.sequences_ids@[0]@.len(),
        };
        let other = ChunkContext {
            words: own_words,
            total: own_chunks.len(),
            chunk: own,
            ..one
        };
        if found.scores@.len() > 0 {
            lemma_same_context(decode, chunks[at as int].subs, one, other, 0);
        }
    }
}

/// Each segment is one of the chunk's sub-segments, in order: it has that
/// sub-segment's tokens, the text they decode to, its times counted from
/// the start of the audio, and, where word times were asked for, the words
/// that were aligned for it and for no other. Every sub-segment with
/// visible text has its segment. The result tells which sub-segment each
/// segment is.
pub proof fn law_segments_are_sub_segments<P, S>(
    decode: spec_fn(Seq<u32>) -> Result<Seq<char>, Seq<char>>,
    subs: Seq<SubSegmentView>,
    context: ChunkContext<P, S>,
    k: nat,
) -> (at: Seq<int>)
    ensures
        sub_results(decode, subs, context, k) matches Ok(list) ==> {
            &&& at.len() == list.len()
            &&& forall|i: int| 0 <= i < at.len() ==> k <= #[trigger] at[i] < subs.len()
            &&& forall|i: int, j: int|
                0 <= i < j < at.len() ==> (#[trigger] at[i]) < (#[trigger] at[j])
            &&& forall|i: int|
                0 <= i < list.len() ==> {
                    &&& (#[trigger] list[i]).tokens == subs[at[i]].ids
                    &&& decode(subs[at[i]].ids) == Ok::<_, Seq<char>>(list[i].text)
                    &&& !blank(list[i].text)
                    &&& list[i].start == context.offset + subs[at[i]].start
                    &&& list[i].end == context.offset + subs[at[i]].end
                    &&& list[i].no_speech_prob == context.no_speech_prob
                    &&& list[i].score == context.score
                    &&& list[i].hypothesis_len == context.hypothesis_len
                    &&& context.words is None ==> list[i].words is None
                    &&& context.words matches Some(words) ==> {
                        &&& context.chunk < words.len()
                        &&& at[i] < words[context.chunk as int].len()
                        &&& list[i].words == Some(words[context.chunk as int][at[i]])
                    }
                }
            &&& forall|j: int, text: Seq<char>|
                k <= j < subs.len() && #[trigger] decode(subs[j].ids) == Ok::<_, Seq<char>>(text)
                    && !(#[trigger] blank(text)) ==> at.contains(j)
        },
    decreases subs.len() - k,
{
    if k >= subs.len() {
        Seq::empty()
    } else {
        let later_at = law_segments_are_sub_segments(decode, subs, context, k + 1);
        match plain_text(decode(subs[k as int].ids)) {
            Err(_) => Seq::empty(),
            Ok(text) => {
                law_trim_leaves_the_visible_stretch(text);
                if !visible(text) {
                    later_at
                } else {
                    let at = seq![k as int] + later_at;
                    if let Ok(list) = sub_results(decode, subs, context, k) {
                        let later = sub_results(decode, subs, context, k + 1)->Ok_0;
                        assert forall|i: int| 0 < i < list.len() implies #[trigger] list[i]
                            == later[i - 1] && at[i] == later_at[i - 1] by {}
                        assert(at[0] == k);
                        assert forall|j: int, text: Seq<char>|
                            k <= j < subs.len() && #[trigger] decode(subs[j].ids) == Ok::<
                                _,
                                Seq<char>,
                            >(text) && !(#[trigger] blank(text)) implies at.contains(j) by {
                            if j > k {
                                assert(later_at.contains(j));
                                let i = choose|i: int|
                                    0 <= i < later_at.len() && later_at[i] == j;
                                assert(at[i + 1] == j);
                            }
                        }
                    }
                    at
                }
            },
        }
    }
}

/// The segments of a chunk carry what the model said of that chunk: the
/// score and the length of its first hypothesis, and the chance that nobody
/// speaks. Their times count from the start of the chunk, and they list the
/// words of that chunk's sub-segments. The result tells which sub-segment
/// each segment is.
pub proof fn law_segments_belong_to_their_chunk<P, S>(
    decode: spec_fn(Seq<u32>) -> Result<Seq<char>, Seq<char>>,
    chunks: Seq<ChunkView>,
    generated: Seq<Generated<S>>,
    words: Option<Seq<Seq<Seq<WordView<P>>>>>,
    g: nat,
) -> (at: Seq<int>)
    ensures
        chunk_results(decode, chunks, generated, words, g) matches Ok(list) ==> {
            let chunk = chunks[g as int];
            let found = generated[g as int];
            &&& found.scores@.len() > 0
            &&& at.len() == list.len()
            &&& forall|i: int, j: int|
                0 <= i < j < at.len() ==> (#[trigger] at[i]) < (#[trigger] at[j])
            &&& forall|i: int|
                0 <= i < list.len() ==> {
                    &&& 0 <= at[i] < chunk.subs.len()
                    &&& (#[trigger] list[i]).tokens == chunk.subs[at[i]].ids
                    &&& list[i].start == chunk.offset + chunk.subs[at[i]].start
                    &&& list[i].end == chunk.offset + chunk.subs[at[i]].end
                    &&& list[i].score == found.scores@[0]
                    &&& list[i].no_speech_prob == found.no_speech_prob
                    &&& list[i].hypothesis_len == found.sequences_ids@[0]@.len()
                    &&& words is None ==> list[i].words is None
                    &&& words matches Some(lists) ==> list[i].words == Some(
                        lists[g as int][at[i]],
                    )
                }
        },
{
    let found = generated[g as int];
    law_segments_are_sub_segments(
        decode,
        chunks[g as int].subs,
        ChunkContext {
            words,
            total: chunks.len(),
            chunk: g,
            offset: chunks[g as int].offset,
            no_speech_prob: found.no_speech_prob,
            score: found.scores@[0],
            hypothesis_len: found.sequences_ids@[0]@.len(),
        },
        0,
    )
}

/// The segments of a range of chunks are those of each chunk, one chunk
/// after the other: a range can be cut anywhere.
pub proof fn law_ranges_can_be_cut<P, S>(
    decode: spec_fn(Seq<u32>) -> Result<Seq<char>, Seq<char>>,
    chunks: Seq<ChunkView>,
    generated: Seq<Generated<S>>,
    words: Option<Seq<Seq<Seq<WordView<P>>>>>,
    from: nat,
    at: nat,
    to: nat,
)
    requires
        from <= at <= to,
    ensures
        range_results(decode, chunks, generated, words, from, from) == Ok::<_, Seq<CauseView>>(
            Seq::<SegmentView<P, S>>::empty(),
        ),
        chunk_results(decode, chunks, generated, words, from) matches Ok(list) ==> range_results(
            decode,
            chunks,
            generated,
            words,
            from,
            from + 1,
        ) == Ok::<_, Seq<CauseView>>(list),
        range_results(decode, chunks, generated, words, from, to) matches Ok(list) ==> {
            &&& range_results(decode, chunks, generated, words, from, at) matches Ok(head)
                && range_results(decode, chunks, generated, words, at, to) matches Ok(tail)
                && list == head + tail
        },
    decreases at - from,
{
    reveal_with_fuel(range_results, 2);
    if let Ok(list) = chunk_results(decode, chunks, generated, words, from) {
        lemma_after_all(list);
    }
    if from < at {
        law_ranges_can_be_cut(decode, chunks, generated, words, from + 1, at, to);
        if let Ok(list) = range_results(decode, chunks, generated, words, from, to) {
            let first = chunk_results(decode, chunks, generated, words, from)->Ok_0;
            let head = range_results(decode, chunks, generated, words, from + 1, at)->Ok_0;
            let tail = range_results(decode, chunks, generated, words, at, to)->Ok_0;
            assert(list =~= first + head + tail);
        }
    } else if let Ok(list) = range_results(decode, chunks, generated, words, from, to) {
        assert(Seq::<SegmentView<P, S>>::empty() + list =~= list);
    }
}

/// Each transcript holds the segments of its own audio's chunks: those that
/// the batch lists from the audio's offset up to the next one's.
pub proof fn law_transcripts_hold_their_own_segments<P, S>(
    decode: spec_fn(Seq<u32>) -> Result<Seq<char>, Seq<char>>,
    lengths: Seq<usize>,
    offsets: Seq<usize>,
    languages: Seq<Seq<char>>,
    chunks: Seq<ChunkView>,
    generated: Seq<Generated<S>>,
    words: Option<Seq<Seq<Seq<WordView<P>>>>>,
    a: nat,
)
    requires
        a <= lengths.len(),
    ensures
        transcripts_from(
            decode,
            lengths,
            offsets,
            languages,
            chunks,
            generated,
            words,
            a,
        ) matches Ok(list) ==> {
            &&& list.len() == lengths.len() - a
            &&& forall|i: int|
                0 <= i < list.len() ==> range_results(
                    decode,
                    chunks,
                    generated,
                    words,
                    offsets[a + i] as nat,
                    offsets[a + i + 1] as nat,
                ) == Ok::<_, Seq<CauseView>>((#[trigger] list[i]).segments)
        },
    decreases lengths.len() - a,
{
    if a < lengths.len() {
        law_transcripts_hold_their_own_segments(
            decode,
            lengths,
            offsets,
            languages,
            chunks,
            generated,
            words,
            a + 1,
        );
        if let Ok(list) = transcripts_from(
            decode,
            lengths,
            offsets,
            languages,
            chunks,
            generated,
            words,
            a,
        ) {
            let later = transcripts_from(
                decode,
                lengths,
                offsets,
                languages,
                chunks,
                generated,
                words,
                a + 1,
            )->Ok_0;
            assert forall|i: int| 0 <= i < list.len() implies range_results(
                decode,
                chunks,
                generated,
                words,
                offsets[a + i] as nat,
                offsets[a + i + 1] as nat,
            ) == Ok::<_, Seq<CauseView>>((#[trigger] list[i]).segments) by {
                if i > 0 {
                    assert(list[i] == later[i - 1]);
                }
            }
        }
    }
}

/// Segments are owed: where every sub-segment can be decoded, and words
/// were aligned for all of them if for any, nothing fails.
pub proof fn law_segments_are_owed<P, S>(
    decode: spec_fn(Seq<u32>) -> Result<Seq<char>, Seq<char>>,
    subs: Seq<SubSegmentView>,
    context: ChunkContext<P, S>,
    k: nat,
)
    requires
        forall|j: int| 0 <= j < subs.len() ==> decode((#[trigger] subs[j]).ids) is Ok,
        context.words matches Some(words) ==> context.chunk < words.len()
            && words[context.chunk as int].len() == subs.len(),
    ensures
        sub_results(decode, subs, context, k) is Ok,
    decreases subs.len() - k,
{
    if k < subs.len() {
        assert(decode(subs[k as int].ids) is Ok);
        law_segments_are_owed(decode, subs, context, k + 1);
    }
}

/// A batch of one has the transcript it has: the first of the list, and an
/// internal fault where the list is empty.
pub proof fn law_first_transcript_is_the_only_one<P, S>(
    list: Vec<TranscriptionResult<P, S>>,
    r: Result<TranscriptionResult<P, S>, Error>,
)
    requires
        call_ensures(only_transcript::<P, S>, (list,), r),
    ensures
        list@.len() > 0 <==> r is Ok,
        r matches Ok(transcript) ==> transcript == list@[0],
        r matches Err(e) ==> first_kind(e@) == Some("runtime_error"@),
{
}

/// A sub-segment that cannot be decoded fails its chunk, and so does one
/// with visible text that no words were aligned for where words were asked
/// for.
pub proof fn law_failing_sub_segments_fail<P, S>(
    decode: spec_fn(Seq<u32>) -> Result<Seq<char>, Seq<char>>,
    subs: Seq<SubSegmentView>,
    context: ChunkContext<P, S>,
    k: nat,
    j: int,
)
    requires
        k <= j < subs.len(),
        ({
            ||| decode(subs[j].ids) is Err
            ||| (decode(subs[j].ids) matches Ok(text) && !blank(text)) && (
            context.words matches Some(words) && (context.chunk >= words.len() || j
                >= words[context.chunk as int].len()))
        }),
    ensures
        sub_results(decode, subs, context, k) is Err,
    decreases subs.len() - k,
{
    if let Ok(text) = decode(subs[k as int].ids) {
        law_trim_leaves_the_visible_stretch(text);
    }
    if k < j {
        law_failing_sub_segments_fail(decode, subs, context, k + 1, j);
    }
}

/// Where words were asked for and none were aligned for a chunk or for one
/// of its sub-segments, the report counts what is missing and what is there.
pub proof fn law_missing_alignments_are_counted<P>(
    words: Seq<Seq<Seq<WordView<P>>>>,
    total: nat,
    chunk: nat,
    sub: nat,
)
    ensures
        chunk >= words.len() ==> words_at(Some(words), total, chunk, sub) == Err::<
            Option<Seq<WordView<P>>>,
            _,
        >(
            uncategorized(
                "word_timestamps: alignment result missing for chunk "@ + decimal_of(chunk)
                    + " (expected "@ + decimal_of(total) + " chunks, got "@ + decimal_of(
                    words.len(),
                ) + ")"@,
            ),
        ),
        chunk < words.len() && sub >= words[chunk as int].len() ==> words_at(
            Some(words),
            total,
            chunk,
            sub,
        ) == Err::<Option<Seq<WordView<P>>>, _>(
            uncategorized(
                "word_timestamps: alignment result missing for sub-segment "@ + decimal_of(sub)
                    + " of chunk "@ + decimal_of(chunk) + " ("@ + decimal_of(
                    words[chunk as int].len(),
                ) + " sub-segments aligned)"@,
            ),
        ),
{
}

} // verus!
