//! The course of a transcription.
//!
//! A job alternates between decisions, which are made here, and calls into
//! the model, which its owner makes:
//!
//! 1. [`open_job`] settles the languages, or asks for their detection.
//! 2. [`with_detected`] goes on with the detected languages.
//! 3. The owner has the model generate from the prompts.
//! 4. [`read_generated`] reads what was generated. It either finishes the
//!    transcripts or asks for an alignment.
//! 5. [`read_aligned`] finishes the transcripts with the aligned words.

use vstd::prelude::*;
use vstd::string::*;

use crate::align::decoder;
use crate::batch::Batch;
use crate::errors::{
    after, lemma_after_all, lemma_after_nothing, lemma_after_push, uncategorized, CauseView,
    Error,
};
use crate::language::{
    detected_language, languages_for, plan_languages, start_sequence, LanguagePlan,
};
use crate::preprocessor::Preprocessor;
use crate::segments::{
    batch_words_in, build_transcripts, law_one_transcript_per_audio,
    law_read_batches_can_be_put_together, transcripts_from, transcripts_of, TranscriptionResult,
    TranscriptionView,
};
use crate::text::{optional_text, texts};
use crate::time::samples_of;
use crate::timing::{
    align_batch, aligned_words, all_silent, asks_for, chunks_fit, chunks_of, covered, flat_ids,
    no_words, AlignRequest, AlignmentStart, ChunkAlignment, ChunkState, ChunkView, Word, WordView,
};
use crate::tokenizer::TextTokenizer;
use crate::tokens::{language_code_of, SpecialTokens, SubSegmentView};
use crate::transcribe::{
    batch_states, build_prompts, parse_batch, plan_words, prompts_for, prompts_of, rules_for,
    word_rules, Generated, TranscribeRequest,
};

verus! {

/// A batch to transcribe, and what it is transcribed with.
#[derive(Debug)]
pub struct Job<F> {
    pub batch: Batch,
    pub request: TranscribeRequest<F>,
    pub multilingual: bool,
    pub specials: SpecialTokens,
    pub preprocessor: Preprocessor,
}

impl<F> Job<F> {
    /// The batch is cut into the windows of the preprocessor.
    pub open spec fn wf(&self) -> bool {
        &&& self.preprocessor.wf()
        &&& self.batch.cut(self.preprocessor.n_samples as nat)
        &&& self.batch.listed()
    }

    /// The prompts of the chunks in the given languages.
    pub open spec fn prompts(
        &self,
        tokenizer: tokenizers::Tokenizer,
        languages: Seq<Seq<char>>,
    ) -> Result<Seq<Seq<Seq<char>>>, Seq<CauseView>> {
        prompts_for(tokenizer, self.batch.places@, languages, self.multilingual, self.request)
    }
}

/// A job whose languages are known, with the prompts to generate from.
#[derive(Debug)]
pub struct Prompted<F> {
    pub job: Job<F>,
    pub languages: Vec<String>,
    pub prompts: Vec<Vec<String>>,
}

impl<F> Prompted<F> {
    /// Each audio has a language.
    pub open spec fn wf(&self) -> bool {
        &&& self.job.wf()
        &&& self.languages@.len() == self.job.batch.lengths@.len()
    }
}

/// What a job needs first.
#[derive(Debug)]
pub enum Opening<F> {
    /// There is no audio, and no transcript.
    Nothing,
    /// The model has to detect the language of each audio.
    Detect(Job<F>),
    /// The model has to generate from the prompts.
    Generate(Prompted<F>),
}

/// Opens a job.
pub fn open_job<F>(tokenizer: &TextTokenizer, job: Job<F>) -> (r: Result<Opening<F>, Error>)
    requires
        job.wf(),
    ensures
        ({
            let n = job.batch.lengths@.len();
            let languages = languages_for(
                tokenizer@,
                optional_text(job.request.language),
                job.multilingual,
                n,
            );
            match r {
                Ok(Opening::Nothing) => n == 0,
                Ok(Opening::Detect(same)) => n > 0 && languages == Ok::<_, Seq<CauseView>>(
                    None::<Seq<Seq<char>>>,
                ) && same == job,
                Ok(Opening::Generate(prompted)) => {
                    &&& n > 0
                    &&& languages == Ok::<_, Seq<CauseView>>(Some(texts(prompted.languages@)))
                    &&& prompted.job == job
                    &&& prompted.wf()
                    &&& job.prompts(tokenizer@, texts(prompted.languages@)) == Ok::<
                        _,
                        Seq<CauseView>,
                    >(prompts_of(prompted.prompts@))
                },
                Err(e) => n > 0 && match languages {
                    Err(chain) => e@ == chain,
                    Ok(Some(list)) => job.prompts(tokenizer@, list) == Err::<
                        Seq<Seq<Seq<char>>>,
                        _,
                    >(e@),
                    Ok(None) => false,
                },
            }
        }),
{
    let n: usize = job.batch.lengths.len();
    if n == 0 {
        return Ok(Opening::Nothing);
    }
    match plan_languages(tokenizer, &job.request.language, job.multilingual, n)? {
        LanguagePlan::Detect => Ok(Opening::Detect(job)),
        LanguagePlan::Known(languages) => {
            assert(texts(languages@).len() == languages@.len());
            let prompts = build_prompts(
                tokenizer,
                &job.batch,
                &languages,
                job.multilingual,
                &job.request,
            )?;
            Ok(Opening::Generate(Prompted { job, languages, prompts }))
        },
    }
}

/// The languages of the audios from number `a` on, by what the model found
/// for each: for each chunk, the language tokens, best first.
pub open spec fn detected_from(candidates: Seq<Vec<Vec<String>>>, a: nat) -> Result<
    Seq<Seq<char>>,
    Seq<CauseView>,
>
    decreases candidates.len() - a,
{
    if a >= candidates.len() {
        Ok(Seq::empty())
    } else if candidates[a as int]@.len() == 0 || candidates[a as int]@[0]@.len() == 0 {
        Err(uncategorized("detect_language returned no candidates"@))
    } else {
        after(seq![candidates[a as int]@[0]@[0]@], detected_from(candidates, a + 1))
    }
}

/// Picks the language of each audio.
fn pick_languages(candidates: Vec<Vec<Vec<String>>>) -> (r: Result<Vec<String>, Error>)
    ensures
        match r {
            Ok(list) => {
                &&& detected_from(candidates@, 0) == Ok::<_, Seq<CauseView>>(texts(list@))
                &&& list@.len() == candidates@.len()
            },
            Err(e) => detected_from(candidates@, 0) == Err::<Seq<Seq<char>>, _>(e@),
        },
{
    let ghost whole = detected_from(candidates@, 0);
    let mut languages: Vec<String> = Vec::new();
    proof {
        lemma_after_nothing(texts(languages@), whole);
    }
    for found in it: candidates
        invariant
            it.seq() == candidates@,
            languages@.len() == it.index(),
            whole == detected_from(candidates@, 0),
            whole == after(texts(languages@), detected_from(candidates@, it.index() as nat)),
    {
        let token = detected_language(found)?;
        let ghost before = texts(languages@);
        let ghost added = token@;
        languages.push(token);
        assert(texts(languages@) =~= before.push(added));
        proof {
            lemma_after_push(before, added, detected_from(candidates@, it.index() as nat + 1));
        }
    }
    proof {
        lemma_after_all(texts(languages@));
    }
    Ok(languages)
}

/// Goes on with the languages that the model detected. `candidates` holds
/// what it found for each audio.
pub fn with_detected<F>(
    tokenizer: &TextTokenizer,
    job: Job<F>,
    candidates: Vec<Vec<Vec<String>>>,
) -> (r: Result<Prompted<F>, Error>)
    requires
        job.wf(),
        candidates@.len() == job.batch.lengths@.len(),
    ensures
        match r {
            Ok(prompted) => {
                &&& detected_from(candidates@, 0) == Ok::<_, Seq<CauseView>>(
                    texts(prompted.languages@),
                )
                &&& prompted.job == job
                &&& prompted.wf()
                &&& job.prompts(tokenizer@, texts(prompted.languages@)) == Ok::<_, Seq<CauseView>>(
                    prompts_of(prompted.prompts@),
                )
            },
            Err(e) => match detected_from(candidates@, 0) {
                Err(chain) => e@ == chain,
                Ok(list) => job.prompts(tokenizer@, list) == Err::<Seq<Seq<Seq<char>>>, _>(e@),
            },
        },
{
    let languages = pick_languages(candidates)?;
    let prompts = build_prompts(
        tokenizer,
        &job.batch,
        &languages,
        job.multilingual,
        &job.request,
    )?;
    Ok(Prompted { job, languages, prompts })
}

/// A job whose generated tokens have been read.
#[derive(Debug)]
pub struct Parsed<S, F> {
    pub prompted: Prompted<F>,
    pub generated: Vec<Generated<S>>,
    pub chunks: Vec<ChunkState>,
}

impl<F> Prompted<F> {
    /// What the generated tokens say.
    pub open spec fn states<S>(&self, generated: Seq<Generated<S>>) -> Result<
        Seq<ChunkView>,
        Seq<CauseView>,
    > {
        batch_states(
            generated,
            self.job.batch.lengths@,
            self.job.batch.places@,
            self.job.specials,
            self.job.preprocessor,
        )
    }

    /// The transcripts, given what the generated tokens say and the words
    /// of each chunk.
    pub open spec fn transcripts<P, S>(
        &self,
        tokenizer: tokenizers::Tokenizer,
        generated: Seq<Generated<S>>,
        chunks: Seq<ChunkView>,
        words: Option<Seq<Seq<Seq<WordView<P>>>>>,
    ) -> Result<Seq<TranscriptionView<P, S>>, Seq<CauseView>> {
        transcripts_from(
            decoder(tokenizer),
            self.job.batch.lengths@,
            self.job.batch.offsets@,
            texts(self.languages@),
            chunks,
            generated,
            words,
            0,
        )
    }

    /// The tokens that open the transcript for an alignment.
    pub open spec fn alignment_start(&self, tokenizer: tokenizers::Tokenizer) -> Result<
        Seq<usize>,
        Seq<CauseView>,
    > {
        start_sequence(
            tokenizer,
            self.job.specials,
            self.job.multilingual,
            texts(self.languages@),
        )
    }

    /// Puts the transcripts together.
    fn finish<P: Copy, S: Copy>(
        &self,
        tokenizer: &TextTokenizer,
        generated: &Vec<Generated<S>>,
        chunks: &Vec<ChunkState>,
        words: &Option<Vec<Vec<Vec<Word<P>>>>>,
    ) -> (r: Result<Vec<TranscriptionResult<P, S>>, Error>)
        requires
            self.wf(),
            self.states(generated@) == Ok::<_, Seq<CauseView>>(chunks_of(chunks@)),
            chunks_fit(chunks_of(chunks@)),
        ensures
            match r {
                Ok(list) => self.transcripts(
                    tokenizer@,
                    generated@,
                    chunks_of(chunks@),
                    batch_words_in(*words),
                ) == Ok::<_, Seq<CauseView>>(transcripts_of(list@)),
                Err(e) => self.transcripts(
                    tokenizer@,
                    generated@,
                    chunks_of(chunks@),
                    batch_words_in(*words),
                ) == Err::<Seq<TranscriptionView<P, S>>, _>(e@),
            },
    {
        proof {
            law_read_batches_can_be_put_together(
                self.job.batch,
                generated@,
                chunks_of(chunks@),
                self.job.specials,
                self.job.preprocessor,
            );
        }
        build_transcripts(tokenizer, &self.job.batch, &self.languages, chunks, generated, words)
    }
}

impl<S, F> Parsed<S, F> {
    /// The chunks are what the generated tokens say.
    pub open spec fn wf(&self) -> bool {
        &&& self.prompted.wf()
        &&& self.prompted.states(self.generated@) == Ok::<_, Seq<CauseView>>(
            chunks_of(self.chunks@),
        )
        &&& chunks_fit(chunks_of(self.chunks@))
    }
}

/// What a job needs after the model has generated.
pub enum Reading<P, S, F> {
    /// The transcripts are complete.
    Finished(Vec<TranscriptionResult<P, S>>),
    /// The model has to align the text tokens.
    Align(Parsed<S, F>, AlignRequest),
}

/// The words that a batch has without an alignment: none are asked for, or
/// there is no text to align.
pub open spec fn words_without_alignment<P>(asked: bool, chunks: Seq<ChunkView>) -> Option<
    Seq<Seq<Seq<WordView<P>>>>,
> {
    if asked {
        Some(no_words(chunks))
    } else {
        None
    }
}

/// Whether the words of a batch have to be aligned.
pub open spec fn needs_alignment(asked: bool, chunks: Seq<ChunkView>) -> bool {
    asked && !all_silent(chunks)
}

/// Reads what the model generated.
pub fn read_generated<P: Copy, S: Copy, F>(
    tokenizer: &TextTokenizer,
    prompted: Prompted<F>,
    generated: Vec<Generated<S>>,
) -> (r: Result<Reading<P, S, F>, Error>)
    requires
        prompted.wf(),
    ensures
        ({
            let asked = prompted.job.request.word_timestamps;
            let start = prompted.alignment_start(tokenizer@);
            match r {
                Ok(Reading::Finished(list)) => prompted.states(generated@) matches Ok(chunks) && {
                    &&& !needs_alignment(asked, chunks)
                    &&& asked ==> start is Ok
                    &&& prompted.transcripts(
                        tokenizer@,
                        generated@,
                        chunks,
                        words_without_alignment::<P>(asked, chunks),
                    ) == Ok::<_, Seq<CauseView>>(transcripts_of(list@))
                },
                Ok(Reading::Align(parsed, request)) => {
                    &&& parsed.prompted == prompted
                    &&& parsed.generated == generated
                    &&& parsed.wf()
                    &&& needs_alignment(asked, chunks_of(parsed.chunks@))
                    &&& start == Ok::<_, Seq<CauseView>>(request.start_sequence@)
                    &&& asks_for(request, chunks_of(parsed.chunks@))
                },
                Err(e) => match prompted.states(generated@) {
                    Err(chain) => e@ == chain,
                    Ok(chunks) => if asked && start is Err {
                        start == Err::<Seq<usize>, _>(e@)
                    } else {
                        &&& !needs_alignment(asked, chunks)
                        &&& prompted.transcripts(
                            tokenizer@,
                            generated@,
                            chunks,
                            words_without_alignment::<P>(asked, chunks),
                        ) == Err::<Seq<TranscriptionView<P, S>>, _>(e@)
                    },
                },
            }
        }),
{
    let chunks = parse_batch(
        &generated,
        &prompted.job.batch,
        &prompted.job.specials,
        &prompted.job.preprocessor,
    )?;
    let start: Option<AlignmentStart<P>> = plan_words(
        tokenizer,
        &prompted.job.specials,
        prompted.job.multilingual,
        &prompted.languages,
        &prompted.job.request,
        &chunks,
    )?;
    let words = match start {
        Some(AlignmentStart::Ask(request)) => {
            return Ok(Reading::Align(Parsed { prompted, generated, chunks }, request));
        },
        Some(AlignmentStart::Done(lists)) => Some(lists),
        None => None,
    };
    let list = prompted.finish(tokenizer, &generated, &chunks, &words)?;
    Ok(Reading::Finished(list))
}

/// Finishes the transcripts with what the model aligned.
pub fn read_aligned<P: Copy, S: Copy, F>(
    tokenizer: &TextTokenizer,
    parsed: Parsed<S, F>,
    results: Vec<ChunkAlignment<P>>,
) -> (r: Result<Vec<TranscriptionResult<P, S>>, Error>)
    requires
        parsed.wf(),
        covered(chunks_of(parsed.chunks@), results@),
    ensures
        ({
            let words = aligned_words(
                decoder(tokenizer@),
                chunks_of(parsed.chunks@),
                results@,
                rules_for(texts(parsed.prompted.languages@), parsed.prompted.job.preprocessor),
            );
            match r {
                Ok(list) => words matches Ok(lists) && parsed.prompted.transcripts(
                    tokenizer@,
                    parsed.generated@,
                    chunks_of(parsed.chunks@),
                    Some(lists),
                ) == Ok::<_, Seq<CauseView>>(transcripts_of(list@)),
                Err(e) => match words {
                    Err(chain) => e@ == chain,
                    Ok(lists) => parsed.prompted.transcripts(
                        tokenizer@,
                        parsed.generated@,
                        chunks_of(parsed.chunks@),
                        Some(lists),
                    ) == Err::<Seq<TranscriptionView<P, S>>, _>(e@),
                },
            }
        }),
{
    let rules = word_rules(&parsed.prompted.languages, &parsed.prompted.job.preprocessor);
    let lists = align_batch(tokenizer, &parsed.chunks, &results, &rules)?;
    let words = Some(lists);
    parsed.prompted.finish(tokenizer, &parsed.generated, &parsed.chunks, &words)
}

/// The language of each audio is the best candidate of its first chunk.
/// Languages are found exactly where every audio has one.
pub proof fn law_best_candidates_win(candidates: Seq<Vec<Vec<String>>>, a: nat)
    requires
        a <= candidates.len(),
    ensures
        detected_from(candidates, a) is Ok <==> forall|i: int|
            a <= i < candidates.len() ==> (#[trigger] candidates[i])@.len() > 0
                && candidates[i]@[0]@.len() > 0,
        detected_from(candidates, a) matches Ok(list) ==> {
            &&& list.len() == candidates.len() - a
            &&& forall|i: int|
                0 <= i < list.len() ==> #[trigger] list[i] == candidates[a + i]@[0]@[0]@
        },
    decreases candidates.len() - a,
{
    if a < candidates.len() {
        law_best_candidates_win(candidates, a + 1);
        if let Ok(list) = detected_from(candidates, a) {
            let later = detected_from(candidates, a + 1)->Ok_0;
            assert forall|i: int| 0 <= i < list.len() implies #[trigger] list[i] == candidates[a
                + i]@[0]@[0]@ by {
                if i > 0 {
                    assert(list[i] == later[i - 1]);
                }
            }
            assert forall|i: int| a <= i < candidates.len() implies (
            #[trigger] candidates[i])@.len() > 0 && candidates[i]@[0]@.len() > 0 by {}
        } else {
            assert(candidates[a as int]@.len() == 0 || candidates[a as int]@[0]@.len() == 0
                || detected_from(candidates, a + 1) is Err);
        }
    }
}

/// The model is asked to align exactly where words are asked for and some
/// sub-segment has a token. Without that, each sub-segment has an empty
/// list of words where words are asked for, and none at all where they are
/// not.
pub proof fn law_alignment_is_asked_for_text<P>(asked: bool, chunks: Seq<ChunkView>)
    ensures
        needs_alignment(asked, chunks) <==> asked && exists|g: int, s: int|
            0 <= g < chunks.len() && 0 <= s < chunks[g].subs.len() && (
            #[trigger] chunks[g].subs[s]).ids.len() > 0,
        !asked ==> words_without_alignment::<P>(asked, chunks) is None,
        asked ==> (words_without_alignment::<P>(asked, chunks) matches Some(lists) && lists.len()
            == chunks.len() && forall|g: int|
            0 <= g < chunks.len() ==> (#[trigger] lists[g]).len() == chunks[g].subs.len()
                && forall|s: int|
                0 <= s < lists[g].len() ==> (#[trigger] lists[g][s]).len() == 0),
{
    if !all_silent(chunks) {
        let g = choose|g: int|
            0 <= g < chunks.len() && flat_ids((#[trigger] chunks[g]).subs).len() > 0;
        lemma_some_text(chunks[g].subs);
        let s = choose|s: int|
            0 <= s < chunks[g].subs.len() && (#[trigger] chunks[g].subs[s]).ids.len() > 0;
        assert(chunks[g].subs[s].ids.len() > 0);
    } else {
        assert forall|g: int, s: int|
            0 <= g < chunks.len() && 0 <= s < chunks[g].subs.len() implies (
        #[trigger] chunks[g].subs[s]).ids.len() == 0 by {
            lemma_some_text(chunks[g].subs);
        }
    }
}

/// Sub-segments have ids together exactly where one of them has some.
proof fn lemma_some_text(subs: Seq<SubSegmentView>)
    ensures
        flat_ids(subs).len() > 0 <==> exists|s: int|
            0 <= s < subs.len() && (#[trigger] subs[s]).ids.len() > 0,
    decreases subs.len(),
{
    if subs.len() > 0 {
        let head = subs.drop_last();
        lemma_some_text(head);
        let n = head.len() as int;
        assert(subs[n] == subs.last());
        if flat_ids(head).len() > 0 {
            let s = choose|s: int| 0 <= s < head.len() && (#[trigger] head[s]).ids.len() > 0;
            assert(subs[s].ids.len() > 0);
        } else {
            assert forall|s: int| 0 <= s < n implies (#[trigger] subs[s]).ids.len() == 0 by {
                assert(head[s] == subs[s]);
            }
        }
    }
}

/// A job without audios needs nothing. Otherwise the model is asked to
/// detect languages exactly where none is pinned and it knows several, and
/// else to generate, from one prompt per chunk.
pub proof fn law_jobs_are_opened<F>(
    tokenizer: TextTokenizer,
    job: Job<F>,
    r: Result<Opening<F>, Error>,
)
    requires
        job.wf(),
        call_ensures(open_job::<F>, (&tokenizer, job), r),
    ensures
        job.batch.lengths@.len() == 0 <==> (r matches Ok(Opening::Nothing)),
        r matches Ok(Opening::Detect(same)) ==> {
            &&& same == job
            &&& job.multilingual
            &&& job.request.language is None
        },
        job.batch.lengths@.len() > 0 && job.multilingual && job.request.language is None ==> (
        r matches Ok(Opening::Detect(_))),
        r matches Ok(Opening::Generate(prompted)) ==> {
            &&& prompted.job == job
            &&& prompted.languages@.len() == job.batch.lengths@.len()
            &&& prompted.prompts@.len() == job.batch.places@.len()
        },
{
    if let Ok(Opening::Generate(prompted)) = r {
        assert(prompts_of(prompted.prompts@).len() == prompted.prompts@.len());
    }
}

/// Finished jobs have one transcript per audio, each with the language and
/// the length of its audio. Where words were not asked for, the job is
/// finished without an alignment.
pub proof fn law_jobs_are_finished<P: Copy, S: Copy, F>(
    tokenizer: TextTokenizer,
    prompted: Prompted<F>,
    generated: Vec<Generated<S>>,
    r: Result<Reading<P, S, F>, Error>,
)
    requires
        prompted.wf(),
        call_ensures(read_generated::<P, S, F>, (&tokenizer, prompted, generated), r),
    ensures
        r matches Ok(Reading::Align(parsed, request)) ==> {
            &&& prompted.job.request.word_timestamps
            &&& parsed.prompted == prompted
            &&& parsed.generated == generated
            &&& request.text_tokens@.len() == parsed.chunks@.len()
        },
        r matches Ok(Reading::Finished(list)) ==> {
            &&& list@.len() == prompted.job.batch.lengths@.len()
            &&& forall|a: int|
                0 <= a < list@.len() ==> {
                    &&& (#[trigger] list@[a])@.language == language_code_of(
                        prompted.languages@[a]@,
                    )
                    &&& list@[a]@.duration == samples_of(prompted.job.batch.lengths@[a] as nat)
                }
        },
{
    if let Ok(Reading::Finished(list)) = r {
        let chunks = prompted.states(generated@)->Ok_0;
        let asked = prompted.job.request.word_timestamps;
        lemma_one_transcript_each(
            tokenizer,
            prompted,
            generated@,
            chunks,
            words_without_alignment::<P>(asked, chunks),
            list@,
        );
    }
}

/// Aligned jobs have one transcript per audio, each with the language and
/// the length of its audio.
pub proof fn law_aligned_jobs_are_finished<P: Copy, S: Copy, F>(
    tokenizer: TextTokenizer,
    parsed: Parsed<S, F>,
    results: Vec<ChunkAlignment<P>>,
    r: Result<Vec<TranscriptionResult<P, S>>, Error>,
)
    requires
        parsed.wf(),
        covered(chunks_of(parsed.chunks@), results@),
        call_ensures(read_aligned::<P, S, F>, (&tokenizer, parsed, results), r),
    ensures
        r matches Ok(list) ==> {
            &&& results@.len() == parsed.chunks@.len()
            &&& list@.len() == parsed.prompted.job.batch.lengths@.len()
            &&& forall|a: int|
                0 <= a < list@.len() ==> {
                    &&& (#[trigger] list@[a])@.language == language_code_of(
                        parsed.prompted.languages@[a]@,
                    )
                    &&& list@[a]@.duration == samples_of(
                        parsed.prompted.job.batch.lengths@[a] as nat,
                    )
                }
        },
{
    if let Ok(list) = r {
        let lists = aligned_words(
            decoder(tokenizer@),
            chunks_of(parsed.chunks@),
            results@,
            rules_for(texts(parsed.prompted.languages@), parsed.prompted.job.preprocessor),
        )->Ok_0;
        lemma_one_transcript_each(
            tokenizer,
            parsed.prompted,
            parsed.generated@,
            chunks_of(parsed.chunks@),
            Some(lists),
            list@,
        );
    }
}

/// Transcripts that were put together are one per audio.
proof fn lemma_one_transcript_each<P, S, F>(
    tokenizer: TextTokenizer,
    prompted: Prompted<F>,
    generated: Seq<Generated<S>>,
    chunks: Seq<ChunkView>,
    words: Option<Seq<Seq<Seq<WordView<P>>>>>,
    list: Seq<TranscriptionResult<P, S>>,
)
    requires
        prompted.wf(),
        prompted.transcripts(tokenizer@, generated, chunks, words) == Ok::<_, Seq<CauseView>>(
            transcripts_of(list),
        ),
    ensures
        list.len() == prompted.job.batch.lengths@.len(),
        forall|a: int|
            0 <= a < list.len() ==> {
                &&& (#[trigger] list[a])@.language == language_code_of(prompted.languages@[a]@)
                &&& list[a]@.duration == samples_of(prompted.job.batch.lengths@[a] as nat)
            },
{
    law_one_transcript_per_audio(
        decoder(tokenizer@),
        prompted.job.batch.lengths@,
        prompted.job.batch.offsets@,
        texts(prompted.languages@),
        chunks,
        generated,
        words,
        0,
    );
    assert(transcripts_of(list).len() == list.len());
    assert forall|a: int| 0 <= a < list.len() implies {
        &&& (#[trigger] list[a])@.language == language_code_of(prompted.languages@[a]@)
        &&& list[a]@.duration == samples_of(prompted.job.batch.lengths@[a] as nat)
    } by {
        assert(transcripts_of(list)[a] == list[a]@);
        assert(texts(prompted.languages@)[0 + a] == prompted.languages@[a]@);
    }
}

} // verus!
