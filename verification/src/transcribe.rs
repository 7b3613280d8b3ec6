//! The transcription of a batch, around the calls into the model: the
//! prompts that go in, and the segments that the generated tokens make up.
//!
//! The types of probabilities and scores are left open; they are only
//! carried along.

use vstd::prelude::*;
use vstd::string::*;

use crate::align::{
    law_characters_alone_are_words, law_spaceless_languages, spaceless,
    splits_words_on_unicode_only, AlignedView, SubWordView,
};
use crate::batch::{
    counts_of, encoder_frames_for_chunk, frames_in_window, law_places_are_windows,
    law_windows_start_inside, samples_in_window, window_samples, window_start,
    window_start_time, Batch, Place,
};
use crate::errors::{
    after, failure, lemma_after_all, lemma_after_nothing, lemma_after_push, uncategorized,
    CauseView, Error,
};
use crate::language::{build_align_start_sequence, start_sequence};
use crate::options::WhisperOptions;
use crate::preprocessor::{window_count_of, Preprocessor, MAX_FEATURE_BUFFER_BYTES};
use crate::text::{
    blank, decimal, decimal_of, law_trim_leaves_the_visible_stretch, optional_text, texts, trim_of,
};
use crate::time::{sample_time, samples_of, FAR};
use crate::timing::{
    all_silent, asks_for, begin_alignment, chunk_lists_of, chunks_fit, chunks_of, flat_ids,
    no_words, subs_fit, AlignmentStart, ChunkState, ChunkView, WordRules,
};
use crate::tokenizer::{encoded, TextTokenizer};
use crate::tokens::{
    encode_plain, first_of, is_closed, keep_first, keep_last, language_code_of, last_of,
    law_closed_pieces_start_inside, law_ids_are_narrowed_or_named, law_pieces_are_sound,
    law_prompt_text_is_trimmed, lemma_text_len, narrow_ids, narrowed, optional_part, pieces,
    pieces_after, plain_tokens, prompt_budget, prompt_budget_of, prompt_text, prompt_text_of,
    sound_piece, split_sub_segments, sub_segments_of, text_len, token_time_of, PromptParts,
    SpecialTokens, NO_TIMESTAMPS, SOT, STARTOFPREV, TRANSCRIBE,
};

verus! {

/// What is asked of one transcription. It holds for every audio of a batch.
#[derive(Debug)]
pub struct TranscribeRequest<F> {
    /// The language code; none has the model detect it.
    pub language: Option<String>,
    /// Whether segments have timestamps of their own.
    pub with_timestamps: bool,
    /// Text that the transcript is taken to continue.
    pub initial_prompt: Option<String>,
    /// Text that the transcript has to start with.
    pub prefix: Option<String>,
    /// Whether segments list their words with times.
    pub word_timestamps: bool,
    pub options: WhisperOptions<F>,
}

/// The tokens of an optional text. Blank text has none.
pub open spec fn optional_tokens(
    tokenizer: tokenizers::Tokenizer,
    text: Option<Seq<char>>,
) -> Result<Seq<Seq<char>>, Seq<CauseView>> {
    match text {
        None => Ok(Seq::empty()),
        Some(text) => match prompt_text_of(text) {
            None => Ok(Seq::empty()),
            Some(led) => plain_tokens(encoded(tokenizer, led)),
        },
    }
}

/// The tokens of a text that may be absent.
fn tokenize_optional(tokenizer: &TextTokenizer, text: &Option<String>) -> (r: Result<
    Vec<String>,
    Error,
>)
    ensures
        match r {
            Ok(list) => optional_tokens(tokenizer@, optional_text(*text)) == Ok::<
                _,
                Seq<CauseView>,
            >(texts(list@)),
            Err(e) => optional_tokens(tokenizer@, optional_text(*text)) == Err::<
                Seq<Seq<char>>,
                _,
            >(e@),
        },
{
    let none: Vec<String> = Vec::new();
    assert(texts(none@) =~= Seq::empty());
    match text {
        None => Ok(none),
        Some(text) => match prompt_text(text.as_str()) {
            None => Ok(none),
            Some(led) => encode_plain(tokenizer, led.as_str()),
        },
    }
}

/// The prompt of a chunk.
pub open spec fn chunk_prompt(
    initial: Seq<Seq<char>>,
    language: Seq<char>,
    prefix: Seq<Seq<char>>,
    timestamps: bool,
    multilingual: bool,
) -> Seq<Seq<char>> {
    optional_part(initial.len() > 0, seq![STARTOFPREV@] + initial) + seq![SOT@] + optional_part(
        multilingual,
        seq![language, TRANSCRIBE@],
    ) + optional_part(!timestamps, seq![NO_TIMESTAMPS@]) + prefix
}

/// The prompt of each chunk of a batch. An initial prompt keeps its last
/// tokens and a prefix its first, as many as fit beside the transcript.
/// Word times need timestamps, asked for or not.
pub open spec fn prompts_for<F>(
    tokenizer: tokenizers::Tokenizer,
    places: Seq<Place>,
    languages: Seq<Seq<char>>,
    multilingual: bool,
    request: TranscribeRequest<F>,
) -> Result<Seq<Seq<Seq<char>>>, Seq<CauseView>> {
    match (
        optional_tokens(tokenizer, optional_text(request.initial_prompt)),
        optional_tokens(tokenizer, optional_text(request.prefix)),
    ) {
        (Err(e), _) => Err(e),
        (_, Err(e)) => Err(e),
        (Ok(initial), Ok(prefix)) => {
            let budget = prompt_budget_of(request.options.max_length as nat);
            Ok(
                Seq::new(
                    places.len(),
                    |g: int|
                        chunk_prompt(
                            last_of(initial, budget),
                            languages[places[g].audio as int],
                            first_of(prefix, budget),
                            request.with_timestamps || request.word_timestamps,
                            multilingual,
                        ),
                ),
            )
        },
    }
}

/// The contents of a list of prompts.
pub open spec fn prompts_of(list: Seq<Vec<String>>) -> Seq<Seq<Seq<char>>> {
    list.map_values(|p: Vec<String>| texts(p@))
}

/// Builds the prompt of each chunk of a batch.
pub fn build_prompts<F>(
    tokenizer: &TextTokenizer,
    batch: &Batch,
    languages: &Vec<String>,
    multilingual: bool,
    request: &TranscribeRequest<F>,
) -> (r: Result<Vec<Vec<String>>, Error>)
    requires
        batch.listed(),
        languages@.len() == batch.lengths@.len(),
    ensures
        match r {
            Ok(prompts) => prompts_for(
                tokenizer@,
                batch.places@,
                texts(languages@),
                multilingual,
                *request,
            ) == Ok::<_, Seq<CauseView>>(prompts_of(prompts@)),
            Err(e) => prompts_for(
                tokenizer@,
                batch.places@,
                texts(languages@),
                multilingual,
                *request,
            ) == Err::<Seq<Seq<Seq<char>>>, _>(e@),
        },
{
    let budget: usize = prompt_budget(request.options.max_length);
    let initial = tokenize_optional(tokenizer, &request.initial_prompt)?;
    let prefix = tokenize_optional(tokenizer, &request.prefix)?;
    let initial = keep_last(initial, budget);
    let prefix = keep_first(prefix, budget);
    let timestamps = request.with_timestamps || request.word_timestamps;
    let ghost all = prompts_for(tokenizer@, batch.places@, texts(languages@), multilingual, *request)->Ok_0;
    let mut prompts: Vec<Vec<String>> = Vec::new();
    for g in 0..batch.places.len()
        invariant
            batch.listed(),
            languages@.len() == batch.lengths@.len(),
            all.len() == batch.places@.len(),
            forall|k: int|
                0 <= k < batch.places@.len() ==> #[trigger] all[k] == chunk_prompt(
                    texts(initial@),
                    texts(languages@)[batch.places@[k].audio as int],
                    texts(prefix@),
                    timestamps,
                    multilingual,
                ),
            prompts_of(prompts@) == all.take(g as int),
    {
        let language = &languages[batch.places[g].audio];
        let parts = PromptParts {
            sot: SOT,
            startofprev: STARTOFPREV,
            language_token: language.as_str(),
            transcribe: TRANSCRIBE,
            no_timestamps: NO_TIMESTAMPS,
            initial_prompt: initial.as_slice(),
            prefix: prefix.as_slice(),
            with_timestamps: timestamps,
            multilingual,
        };
        let prompt = parts.build();
        let ghost before = prompts@;
        prompts.push(prompt);
        assert(texts(initial@).len() == initial@.len());
        assert(texts(languages@)[batch.places@[g as int].audio as int] == language@);
        assert(texts(prompts@.last()@) == all[g as int]);
        assert(prompts_of(prompts@) =~= prompts_of(before).push(texts(prompts@.last()@)));
        assert(all.take(g + 1) =~= all.take(g as int).push(all[g as int]));
    }
    assert(all.take(all.len() as int) =~= all);
    Ok(prompts)
}

/// What the model generated for one chunk: the token ids of each
/// hypothesis, their scores, and the probability that nobody speaks.
#[derive(Debug)]
pub struct Generated<S> {
    pub sequences_ids: Vec<Vec<usize>>,
    pub scores: Vec<S>,
    pub no_speech_prob: S,
}

/// What the first hypothesis for window `window` of an audio of `len`
/// samples says.
pub open spec fn chunk_state<S>(
    generated: Generated<S>,
    len: nat,
    window: nat,
    specials: SpecialTokens,
    p: Preprocessor,
) -> Result<ChunkView, Seq<CauseView>> {
    if generated.sequences_ids@.len() == 0 {
        Err(uncategorized("generation result missing first hypothesis"@))
    } else {
        match narrowed(generated.sequences_ids@[0]@) {
            Err(e) => Err(e),
            Ok(ids) => Ok(
                ChunkView {
                    subs: pieces(
                        ids,
                        specials.timestamp_begin,
                        p.sampling_rate as nat,
                        samples_of(samples_in_window(len, p.n_samples as nat, window)),
                    ),
                    offset: window_start(p.n_samples as nat, window),
                    num_frames: frames_in_window(len, window, p),
                },
            ),
        }
    }
}

/// What the first hypotheses for the chunks from number `k` on say.
pub open spec fn states_from<S>(
    generated: Seq<Generated<S>>,
    lengths: Seq<usize>,
    places: Seq<Place>,
    specials: SpecialTokens,
    p: Preprocessor,
    k: nat,
) -> Result<Seq<ChunkView>, Seq<CauseView>>
    decreases places.len() - k,
{
    if k >= places.len() {
        Ok(Seq::empty())
    } else {
        let place = places[k as int];
        match chunk_state(
            generated[k as int],
            lengths[place.audio as int] as nat,
            place.window as nat,
            specials,
            p,
        ) {
            Err(e) => Err(e),
            Ok(chunk) => after(
                seq![chunk],
                states_from(generated, lengths, places, specials, p, k + 1),
            ),
        }
    }
}

/// The chain for a wrong number of generation results.
pub open spec fn generation_count(expected: nat, got: nat) -> Seq<CauseView> {
    uncategorized(
        "expected "@ + decimal_of(expected) + " generation results, got "@ + decimal_of(got),
    )
}

/// What the model generated for a batch says.
pub open spec fn batch_states<S>(
    generated: Seq<Generated<S>>,
    lengths: Seq<usize>,
    places: Seq<Place>,
    specials: SpecialTokens,
    p: Preprocessor,
) -> Result<Seq<ChunkView>, Seq<CauseView>> {
    if generated.len() != places.len() {
        Err(generation_count(places.len(), generated.len()))
    } else {
        states_from(generated, lengths, places, specials, p, 0)
    }
}

/// The times of the sub-segments after a timestamp are instants of an audio.
proof fn lemma_pieces_after_fit(
    start: nat,
    ids: Seq<u32>,
    timestamp_begin: u32,
    sampling_rate: nat,
    chunk_duration: nat,
)
    requires
        start <= FAR,
        sampling_rate <= 0xffff_ffff_ffff_ffff,
        chunk_duration <= FAR,
    ensures
        subs_fit(pieces_after(start, ids, timestamp_begin, sampling_rate, chunk_duration)),
    decreases ids.len(),
{
    let body = text_len(ids, timestamp_begin);
    if body < ids.len() {
        lemma_text_len(ids, timestamp_begin);
        lemma_token_time_fits(ids[body as int], timestamp_begin, sampling_rate);
        lemma_pieces_after_fit(
            token_time_of(ids[body as int], timestamp_begin, sampling_rate),
            ids.skip(body as int + 1),
            timestamp_begin,
            sampling_rate,
            chunk_duration,
        );
    }
}

/// The times of sub-segments are instants of an audio.
proof fn lemma_pieces_fit(
    ids: Seq<u32>,
    timestamp_begin: u32,
    sampling_rate: nat,
    chunk_duration: nat,
)
    requires
        sampling_rate <= 0xffff_ffff_ffff_ffff,
        chunk_duration <= FAR,
    ensures
        subs_fit(pieces(ids, timestamp_begin, sampling_rate, chunk_duration)),
{
    let lead = text_len(ids, timestamp_begin);
    if lead < ids.len() {
        lemma_text_len(ids, timestamp_begin);
        lemma_token_time_fits(ids[lead as int], timestamp_begin, sampling_rate);
        lemma_pieces_after_fit(
            token_time_of(ids[lead as int], timestamp_begin, sampling_rate),
            ids.skip(lead as int + 1),
            timestamp_begin,
            sampling_rate,
            chunk_duration,
        );
    }
}

/// The time of a timestamp token is within reach.
proof fn lemma_token_time_fits(id: u32, timestamp_begin: u32, sampling_rate: nat)
    requires
        sampling_rate <= 0xffff_ffff_ffff_ffff,
        id >= timestamp_begin,
    ensures
        token_time_of(id, timestamp_begin, sampling_rate) <= FAR,
{
    let n = (id - timestamp_begin) as nat;
    let step = 2 * sampling_rate;
    assert(n * step <= 0xffff_ffff * 0x1_ffff_ffff_ffff_fffe) by (nonlinear_arith)
        requires
            0 <= n <= 0xffff_ffff,
            0 <= step <= 0x1_ffff_ffff_ffff_fffe,
    ;
}

/// Reads what the model generated for a batch.
pub fn parse_batch<S>(
    generated: &Vec<Generated<S>>,
    batch: &Batch,
    specials: &SpecialTokens,
    preprocessor: &Preprocessor,
) -> (r: Result<Vec<ChunkState>, Error>)
    requires
        preprocessor.wf(),
        batch.cut(preprocessor.n_samples as nat),
    ensures
        match r {
            Ok(chunks) => {
                &&& batch_states(
                    generated@,
                    batch.lengths@,
                    batch.places@,
                    *specials,
                    *preprocessor,
                ) == Ok::<_, Seq<CauseView>>(chunks_of(chunks@))
                &&& chunks_fit(chunks_of(chunks@))
            },
            Err(e) => batch_states(
                generated@,
                batch.lengths@,
                batch.places@,
                *specials,
                *preprocessor,
            ) == Err::<Seq<ChunkView>, _>(e@),
        },
{
    let n: usize = batch.places.len();
    if generated.len() != n {
        let mut message = "expected ".to_owned();
        message.append(decimal(n as u128).as_str());
        message.append(" generation results, got ");
        message.append(decimal(generated.len() as u128).as_str());
        return Err(failure(message));
    }
    let ghost whole = states_from(
        generated@,
        batch.lengths@,
        batch.places@,
        *specials,
        *preprocessor,
        0,
    );
    let mut chunks: Vec<ChunkState> = Vec::new();
    proof {
        lemma_after_nothing(chunks_of(chunks@), whole);
    }
    for k in 0..n
        invariant
            preprocessor.wf(),
            batch.cut(preprocessor.n_samples as nat),
            n == batch.places@.len(),
            generated@.len() == n,
            chunks_fit(chunks_of(chunks@)),
            whole == states_from(
                generated@,
                batch.lengths@,
                batch.places@,
                *specials,
                *preprocessor,
                0,
            ),
            whole == after(
                chunks_of(chunks@),
                states_from(
                    generated@,
                    batch.lengths@,
                    batch.places@,
                    *specials,
                    *preprocessor,
                    k as nat,
                ),
            ),
    {
        let place = batch.places[k];
        proof {
            let counts = counts_of(batch.lengths@, preprocessor.n_samples as nat);
            assert(batch.lengths@.len() == batch.lengths.len());
            law_places_are_windows(counts, k as int);
            lemma_count_fits(
                batch.lengths@[place.audio as int] as nat,
                preprocessor.n_samples as nat,
            );
            law_windows_start_inside(
                batch.lengths@[place.audio as int] as nat,
                preprocessor.n_samples as nat,
                place.window as nat,
            );
        }
        let len: usize = batch.lengths[place.audio];
        if generated[k].sequences_ids.len() == 0 {
            return Err(failure("generation result missing first hypothesis".to_owned()));
        }
        let ids = narrow_ids(generated[k].sequences_ids[0].as_slice())?;
        let duration: u128 = sample_time(
            window_samples(len, preprocessor.n_samples, place.window),
        );
        let sub_segments = split_sub_segments(
            ids.as_slice(),
            specials.timestamp_begin,
            preprocessor.sampling_rate,
            duration,
        );
        let chunk = ChunkState {
            sub_segments,
            offset: window_start_time(preprocessor.n_samples, place.window),
            num_frames: encoder_frames_for_chunk(len, place.window, preprocessor),
        };
        proof {
            lemma_pieces_fit(
                ids@,
                specials.timestamp_begin,
                preprocessor.sampling_rate as nat,
                duration as nat,
            );
        }
        let ghost found = chunks_of(chunks@);
        chunks.push(chunk);
        proof {
            assert(chunks_of(chunks@) =~= found.push(chunk@));
            assert(chunks_fit(chunks_of(chunks@))) by {
                assert forall|i: int| 0 <= i < chunks_of(chunks@).len() implies (
                #[trigger] chunks_of(chunks@)[i]).offset <= FAR && subs_fit(
                    chunks_of(chunks@)[i].subs,
                ) by {
                    if i < found.len() {
                        assert(found[i].offset <= FAR);
                    }
                }
            }
            lemma_after_push(
                found,
                chunk@,
                states_from(
                    generated@,
                    batch.lengths@,
                    batch.places@,
                    *specials,
                    *preprocessor,
                    k as nat + 1,
                ),
            );
        }
    }
    proof {
        lemma_after_all(chunks_of(chunks@));
    }
    Ok(chunks)
}

/// An audio has no more windows than samples.
proof fn lemma_count_fits(len: nat, n_samples: nat)
    requires
        n_samples > 0,
    ensures
        window_count_of(len, n_samples) <= len,
{
    let top = len + n_samples - 1;
    let count = window_count_of(len, n_samples);
    vstd::arithmetic::div_mod::lemma_fundamental_div_mod(top as int, n_samples as int);
    assert(count <= len) by (nonlinear_arith)
        requires
            n_samples * count <= top,
            top == len + n_samples - 1,
            n_samples > 0,
            count >= 0,
            len >= 0,
    ;
}

/// What the words of a batch are timed by. Words of a language written
/// without spaces are split on characters alone.
pub open spec fn rules_for(languages: Seq<Seq<char>>, p: Preprocessor) -> WordRules {
    WordRules {
        hop_length: p.hop_length,
        sampling_rate: p.sampling_rate,
        unicode_only: languages.len() > 0 && spaceless(language_code_of(languages[0])),
    }
}

/// What the words of a batch are timed by.
pub fn word_rules(languages: &Vec<String>, preprocessor: &Preprocessor) -> (r: WordRules)
    requires
        preprocessor.wf(),
    ensures
        r == rules_for(texts(languages@), *preprocessor),
        r.wf(),
{
    proof {
        lemma_hop_fits(*preprocessor);
    }
    assert(languages@.len() > 0 ==> texts(languages@)[0] == languages@[0]@);
    WordRules {
        hop_length: preprocessor.hop_length,
        sampling_rate: preprocessor.sampling_rate,
        unicode_only: languages.len() > 0 && splits_words_on_unicode_only(languages[0].as_str()),
    }
}

/// A hop is no longer than a window.
proof fn lemma_hop_fits(p: Preprocessor)
    requires
        p.wf(),
    ensures
        p.hop_length <= MAX_FEATURE_BUFFER_BYTES,
{
    if p.hop_length > p.n_samples {
        vstd::arithmetic::div_mod::lemma_basic_div(p.n_samples as int, p.hop_length as int);
    }
}

/// Starts the timing of the words of a batch, where it is asked for.
pub fn plan_words<P, F>(
    tokenizer: &TextTokenizer,
    specials: &SpecialTokens,
    multilingual: bool,
    languages: &Vec<String>,
    request: &TranscribeRequest<F>,
    chunks: &Vec<ChunkState>,
) -> (r: Result<Option<AlignmentStart<P>>, Error>)
    ensures
        match r {
            Ok(None) => !request.word_timestamps,
            Ok(Some(AlignmentStart::Done(lists))) => {
                &&& request.word_timestamps
                &&& start_sequence(tokenizer@, *specials, multilingual, texts(languages@)) is Ok
                &&& all_silent(chunks_of(chunks@))
                &&& chunk_lists_of(lists@) == no_words::<P>(chunks_of(chunks@))
            },
            Ok(Some(AlignmentStart::Ask(ask))) => {
                &&& request.word_timestamps
                &&& start_sequence(tokenizer@, *specials, multilingual, texts(languages@)) == Ok::<
                    _,
                    Seq<CauseView>,
                >(ask.start_sequence@)
                &&& !all_silent(chunks_of(chunks@))
                &&& asks_for(ask, chunks_of(chunks@))
            },
            Err(e) => request.word_timestamps && start_sequence(
                tokenizer@,
                *specials,
                multilingual,
                texts(languages@),
            ) == Err::<Seq<usize>, _>(e@),
        },
{
    if !request.word_timestamps {
        return Ok(None);
    }
    let start = build_align_start_sequence(
        tokenizer,
        specials,
        multilingual,
        languages.as_slice(),
    )?;
    Ok(Some(begin_alignment(chunks, start)))
}

/// No segment ends after its audio does, and none that a timestamp closes
/// starts after it.
pub proof fn law_segments_stay_inside_the_audio<S>(
    generated: Generated<S>,
    len: nat,
    window: nat,
    specials: SpecialTokens,
    p: Preprocessor,
)
    requires
        p.wf(),
        window < window_count_of(len, p.n_samples as nat),
    ensures
        chunk_state(generated, len, window, specials, p) matches Ok(chunk) ==> {
            let ids = narrowed(generated.sequences_ids@[0]@)->Ok_0;
            forall|i: int|
                0 <= i < chunk.subs.len() ==> {
                    &&& chunk.offset + (#[trigger] chunk.subs[i]).end <= samples_of(len)
                    &&& is_closed(ids, specials.timestamp_begin, chunk.subs.len(), i)
                        ==> chunk.offset + chunk.subs[i].start <= samples_of(len)
                }
        },
{
    if let Ok(chunk) = chunk_state(generated, len, window, specials, p) {
        let ids = narrowed(generated.sequences_ids@[0]@)->Ok_0;
        let duration = samples_of(samples_in_window(len, p.n_samples as nat, window));
        law_pieces_are_sound(ids, specials.timestamp_begin, p.sampling_rate as nat, duration);
        law_closed_pieces_start_inside(
            ids,
            specials.timestamp_begin,
            p.sampling_rate as nat,
            duration,
        );
        law_windows_start_inside(len, p.n_samples as nat, window);
        assert forall|i: int| 0 <= i < chunk.subs.len() implies {
            &&& chunk.offset + (#[trigger] chunk.subs[i]).end <= samples_of(len)
            &&& is_closed(ids, specials.timestamp_begin, chunk.subs.len(), i) ==> chunk.offset
                + chunk.subs[i].start <= samples_of(len)
        } by {
            assert(sound_piece(chunk.subs[i], specials.timestamp_begin, duration));
        }
    }
}

/// However long an initial prompt and a prefix are, the prompt of a chunk
/// is no longer than two budgets and the five tokens around them.
pub proof fn law_prompts_are_bounded(
    initial: Seq<Seq<char>>,
    language: Seq<char>,
    prefix: Seq<Seq<char>>,
    timestamps: bool,
    multilingual: bool,
    max_length: nat,
)
    ensures
        ({
            let budget = prompt_budget_of(max_length);
            chunk_prompt(
                last_of(initial, budget),
                language,
                first_of(prefix, budget),
                timestamps,
                multilingual,
            ).len() <= 2 * budget + 5
        }),
{
}

/// The chunks of a batch are read one by one: what a chunk says depends on
/// what was generated for it, its audio's length and its place in the audio
/// alone.
pub proof fn law_chunks_are_read_one_by_one<S>(
    generated: Seq<Generated<S>>,
    lengths: Seq<usize>,
    places: Seq<Place>,
    specials: SpecialTokens,
    p: Preprocessor,
    k: nat,
)
    requires
        k <= places.len(),
    ensures
        states_from(generated, lengths, places, specials, p, k) matches Ok(chunks) ==> {
            &&& chunks.len() == places.len() - k
            &&& forall|i: int|
                0 <= i < chunks.len() ==> chunk_state(
                    generated[k + i],
                    lengths[places[k + i].audio as int] as nat,
                    places[k + i].window as nat,
                    specials,
                    p,
                ) == Ok::<_, Seq<CauseView>>(#[trigger] chunks[i])
        },
    decreases places.len() - k,
{
    if k < places.len() {
        law_chunks_are_read_one_by_one(generated, lengths, places, specials, p, k + 1);
        if let Ok(chunks) = states_from(generated, lengths, places, specials, p, k) {
            let later = states_from(generated, lengths, places, specials, p, k + 1)->Ok_0;
            assert forall|i: int| 0 <= i < chunks.len() implies chunk_state(
                generated[k + i],
                lengths[places[k + i].audio as int] as nat,
                places[k + i].window as nat,
                specials,
                p,
            ) == Ok::<_, Seq<CauseView>>(#[trigger] chunks[i]) by {
                if i > 0 {
                    assert(chunks[i] == later[i - 1]);
                }
            }
        }
    }
}

/// The language of a batch decides how its words are split: on characters
/// alone in Chinese, Japanese, Thai, Lao, Burmese and Cantonese, and in no
/// other language, however many audios the batch has. The times are those
/// of the preprocessor.
pub proof fn law_word_rules_follow_the_language(
    languages: Seq<Seq<char>>,
    code: Seq<char>,
    p: Preprocessor,
)
    requires
        languages.len() > 0,
        forall|i: int| 0 <= i < languages.len() ==> #[trigger] languages[i] == "<|"@ + code + "|>"@,
        forall|i: int|
            0 <= i < code.len() ==> (#[trigger] code[i]) != '<' && code[i] != '|' && code[i] != '>',
    ensures
        rules_for(languages, p).unicode_only <==> (code == "zh"@ || code == "ja"@ || code == "th"@
            || code == "lo"@ || code == "my"@ || code == "yue"@),
        rules_for(languages, p).hop_length == p.hop_length,
        rules_for(languages, p).sampling_rate == p.sampling_rate,
{
    law_spaceless_languages(code);
    assert(languages[0] == "<|"@ + code + "|>"@);
}

/// A batch of any size in one of the six languages is split on characters
/// alone, and a batch in English is not.
pub proof fn law_spaceless_batches(n: nat, p: Preprocessor)
    requires
        n > 0,
    ensures
        rules_for(Seq::new(n, |i: int| "<|zh|>"@), p).unicode_only,
        rules_for(Seq::new(n, |i: int| "<|ja|>"@), p).unicode_only,
        rules_for(Seq::new(n, |i: int| "<|th|>"@), p).unicode_only,
        rules_for(Seq::new(n, |i: int| "<|lo|>"@), p).unicode_only,
        rules_for(Seq::new(n, |i: int| "<|my|>"@), p).unicode_only,
        rules_for(Seq::new(n, |i: int| "<|yue|>"@), p).unicode_only,
        !rules_for(Seq::new(n, |i: int| "<|en|>"@), p).unicode_only,
{
    reveal_strlit("<|");
    reveal_strlit("|>");
    reveal_strlit("zh");
    reveal_strlit("ja");
    reveal_strlit("th");
    reveal_strlit("lo");
    reveal_strlit("my");
    reveal_strlit("yue");
    reveal_strlit("en");
    reveal_strlit("<|zh|>");
    reveal_strlit("<|ja|>");
    reveal_strlit("<|th|>");
    reveal_strlit("<|lo|>");
    reveal_strlit("<|my|>");
    reveal_strlit("<|yue|>");
    reveal_strlit("<|en|>");
    assert("<|zh|>"@ =~= "<|"@ + "zh"@ + "|>"@);
    assert("<|ja|>"@ =~= "<|"@ + "ja"@ + "|>"@);
    assert("<|th|>"@ =~= "<|"@ + "th"@ + "|>"@);
    assert("<|lo|>"@ =~= "<|"@ + "lo"@ + "|>"@);
    assert("<|my|>"@ =~= "<|"@ + "my"@ + "|>"@);
    assert("<|yue|>"@ =~= "<|"@ + "yue"@ + "|>"@);
    assert("<|en|>"@ =~= "<|"@ + "en"@ + "|>"@);
    law_word_rules_follow_the_language(Seq::new(n, |i: int| "<|zh|>"@), "zh"@, p);
    law_word_rules_follow_the_language(Seq::new(n, |i: int| "<|ja|>"@), "ja"@, p);
    law_word_rules_follow_the_language(Seq::new(n, |i: int| "<|th|>"@), "th"@, p);
    law_word_rules_follow_the_language(Seq::new(n, |i: int| "<|lo|>"@), "lo"@, p);
    law_word_rules_follow_the_language(Seq::new(n, |i: int| "<|my|>"@), "my"@, p);
    law_word_rules_follow_the_language(Seq::new(n, |i: int| "<|yue|>"@), "yue"@, p);
    law_word_rules_follow_the_language(Seq::new(n, |i: int| "<|en|>"@), "en"@, p);
    assert("en"@[0] != "zh"@[0] && "en"@[0] != "ja"@[0] && "en"@[0] != "th"@[0]);
    assert("en"@[0] != "lo"@[0] && "en"@[0] != "my"@[0] && "en"@[0] != "yue"@[0]);
}

/// In a language written without spaces each run of tokens that makes up
/// whole characters is a word of its own, in a batch of any size.
pub proof fn law_spaceless_words_are_single_runs<P>(
    languages: Seq<Seq<char>>,
    code: Seq<char>,
    p: Preprocessor,
    aligned: AlignedView<P>,
    runs: Seq<SubWordView>,
    sub: usize,
    i: int,
)
    requires
        languages.len() > 0,
        forall|k: int| 0 <= k < languages.len() ==> #[trigger] languages[k] == "<|"@ + code + "|>"@,
        code == "zh"@ || code == "ja"@ || code == "th"@ || code == "lo"@ || code == "my"@ || code
            == "yue"@,
        0 <= i < runs.len(),
    ensures
        ({
            let words = aligned.grouped(runs, sub, rules_for(languages, p).unicode_only);
            &&& words.len() == runs.len()
            &&& words[i].text == runs[i].text
            &&& words[i].start == aligned.frames[runs[i].start as int]
        }),
{
    reveal_strlit("zh");
    reveal_strlit("ja");
    reveal_strlit("th");
    reveal_strlit("lo");
    reveal_strlit("my");
    reveal_strlit("yue");
    law_word_rules_follow_the_language(languages, code, p);
    law_characters_alone_are_words(aligned, runs, sub, i);
}

/// Each chunk has a prompt of its own, in the language of its own audio:
/// the last tokens of the initial prompt, the first of the prefix, no more
/// of either than the budget allows, and no `<|notimestamps|>` where
/// segments or words are to be timed.
pub proof fn law_prompts_follow_the_request<F>(
    tokenizer: tokenizers::Tokenizer,
    places: Seq<Place>,
    languages: Seq<Seq<char>>,
    multilingual: bool,
    request: TranscribeRequest<F>,
    g: int,
)
    requires
        0 <= g < places.len(),
    ensures
        prompts_for(tokenizer, places, languages, multilingual, request) matches Ok(prompts) ==> {
            let before = optional_tokens(tokenizer, optional_text(request.initial_prompt))->Ok_0;
            let behind = optional_tokens(tokenizer, optional_text(request.prefix))->Ok_0;
            let budget = prompt_budget_of(request.options.max_length as nat);
            let initial = last_of(before, budget);
            let prefix = first_of(behind, budget);
            let timed = request.with_timestamps || request.word_timestamps;
            let prompt = prompts[g];
            let sot = if initial.len() > 0 {
                initial.len() as int + 1
            } else {
                0
            };
            let task = if multilingual {
                sot + 2
            } else {
                sot
            };
            let end = if timed {
                task + 1
            } else {
                task + 2
            };
            &&& prompts.len() == places.len()
            &&& prompt.len() == end + prefix.len()
            &&& initial.len() > 0 ==> prompt[0] == "<|startofprev|>"@ && prompt.subrange(1, sot)
                == initial
            &&& prompt[sot] == "<|startoftranscript|>"@
            &&& multilingual ==> prompt[sot + 1] == languages[places[g].audio as int] && prompt[sot
                + 2] == "<|transcribe|>"@
            &&& !timed ==> prompt[task + 1] == "<|notimestamps|>"@
            &&& prompt.skip(end) == prefix
        },
{
    if let Ok(prompts) = prompts_for(tokenizer, places, languages, multilingual, request) {
        let before = optional_tokens(tokenizer, optional_text(request.initial_prompt))->Ok_0;
        let behind = optional_tokens(tokenizer, optional_text(request.prefix))->Ok_0;
        let budget = prompt_budget_of(request.options.max_length as nat);
        let initial = last_of(before, budget);
        let prefix = first_of(behind, budget);
        let prompt = prompts[g];
        let timed = request.with_timestamps || request.word_timestamps;
        assert(prompt == chunk_prompt(
            initial,
            languages[places[g].audio as int],
            prefix,
            timed,
            multilingual,
        ));
        assert(initial.len() > 0 ==> prompt.subrange(1, initial.len() as int + 1) =~= initial);
        assert(prompt.skip(prompt.len() - prefix.len()) =~= prefix);
    }
}

/// Prompts are built exactly where both texts can be tokenised; a text that
/// is absent or blank has no tokens.
pub proof fn law_prompts_need_their_texts<F>(
    tokenizer: tokenizers::Tokenizer,
    places: Seq<Place>,
    languages: Seq<Seq<char>>,
    multilingual: bool,
    request: TranscribeRequest<F>,
    text: Seq<char>,
)
    ensures
        prompts_for(tokenizer, places, languages, multilingual, request) is Ok <==> (
        optional_tokens(tokenizer, optional_text(request.initial_prompt)) is Ok && optional_tokens(
            tokenizer,
            optional_text(request.prefix),
        ) is Ok),
        optional_tokens(tokenizer, None) == Ok::<_, Seq<CauseView>>(Seq::<Seq<char>>::empty()),
        blank(text) ==> optional_tokens(tokenizer, Some(text)) == Ok::<_, Seq<CauseView>>(
            Seq::<Seq<char>>::empty(),
        ),
        !blank(text) ==> match encoded(tokenizer, " "@ + trim_of(text)) {
            Ok(list) => optional_tokens(tokenizer, Some(text)) == Ok::<_, Seq<CauseView>>(list),
            Err(_) => optional_tokens(tokenizer, Some(text)) is Err,
        },
{
    law_prompt_text_is_trimmed(text);
    law_trim_leaves_the_visible_stretch(text);
}

/// A chunk is read from the first hypothesis for its window: its text is
/// found in those ids, its times start with the window, which starts after
/// all windows before it, and its frames are those of the window.
pub proof fn law_chunks_are_read_from_their_window<S>(
    generated: Generated<S>,
    len: nat,
    window: nat,
    specials: SpecialTokens,
    p: Preprocessor,
)
    ensures
        generated.sequences_ids@.len() == 0 ==> chunk_state(generated, len, window, specials, p)
            == Err::<ChunkView, _>(
            uncategorized("generation result missing first hypothesis"@),
        ),
        chunk_state(generated, len, window, specials, p) is Ok <==> {
            let found = generated.sequences_ids@;
            &&& found.len() > 0
            &&& forall|i: int|
                0 <= i < found[0]@.len() ==> #[trigger] found[0]@[i] <= 0xffff_ffff
        },
        chunk_state(generated, len, window, specials, p) matches Ok(chunk) ==> {
            let ids = generated.sequences_ids@[0]@.map_values(|id: usize| id as u32);
            &&& chunk.offset == window * samples_of(p.n_samples as nat)
            &&& chunk.subs == pieces(
                ids,
                specials.timestamp_begin,
                p.sampling_rate as nat,
                samples_of(samples_in_window(len, p.n_samples as nat, window)),
            )
            &&& chunk.num_frames == frames_in_window(len, window, p)
        },
{
    assert(100 * (window * p.n_samples as nat) == window * (100 * p.n_samples as nat))
        by (nonlinear_arith);
    if generated.sequences_ids@.len() > 0 {
        let wide = generated.sequences_ids@[0]@;
        law_ids_are_narrowed_or_named(wide);
        if let Ok(ids) = narrowed(wide) {
            assert(ids =~= wide.map_values(|id: usize| id as u32)) by {
                assert forall|i: int| 0 <= i < wide.len() implies ids[i] == wide[i] as u32 by {
                    assert(ids[i] == wide[i]);
                }
            }
            assert forall|i: int| 0 <= i < wide.len() implies #[trigger] wide[i]
                <= 0xffff_ffff by {
                assert(ids[i] == wide[i]);
            }
        }
    }
}

/// Words are planned exactly as asked: none where none are asked for, and
/// otherwise the model is asked to align the text of every chunk, unless no
/// chunk has any.
pub proof fn law_words_are_planned_as_asked<P, F>(
    tokenizer: TextTokenizer,
    specials: SpecialTokens,
    multilingual: bool,
    languages: Vec<String>,
    request: TranscribeRequest<F>,
    chunks: Vec<ChunkState>,
    r: Result<Option<AlignmentStart<P>>, Error>,
)
    requires
        call_ensures(
            plan_words::<P, F>,
            (&tokenizer, &specials, multilingual, &languages, &request, &chunks),
            r,
        ),
    ensures
        !request.word_timestamps <==> r matches Ok(None),
        r matches Ok(Some(AlignmentStart::Ask(ask))) ==> {
            &&& ask.text_tokens@.len() == chunks@.len()
            &&& ask.num_frames@.len() == chunks@.len()
            &&& forall|i: int|
                0 <= i < chunks@.len() ==> #[trigger] ask.num_frames@[i] == chunks@[i].num_frames
            &&& forall|i: int|
                0 <= i < chunks@.len() ==> (#[trigger] ask.text_tokens@[i])@ == flat_ids(
                    sub_segments_of(chunks@[i].sub_segments@),
                )
            &&& ask.median_filter_width == 7
            &&& exists|i: int| 0 <= i < chunks@.len() && (#[trigger] ask.text_tokens@[i])@.len() > 0
        },
{
    if let Ok(Some(AlignmentStart::Ask(ask))) = r {
        let all = chunks_of(chunks@);
        let i = choose|i: int| 0 <= i < all.len() && flat_ids((#[trigger] all[i]).subs).len() > 0;
        assert(ask.text_tokens@[i]@ == flat_ids(all[i].subs));
    }
}

/// A batch is read only where the model generated for every chunk, and then
/// every chunk is, each from what was generated for it and by the length of
/// its own audio.
pub proof fn law_every_chunk_needs_its_hypothesis<S>(
    generated: Seq<Generated<S>>,
    lengths: Seq<usize>,
    places: Seq<Place>,
    specials: SpecialTokens,
    p: Preprocessor,
)
    ensures
        generated.len() != places.len() ==> batch_states(
            generated,
            lengths,
            places,
            specials,
            p,
        ) == Err::<Seq<ChunkView>, _>(
            uncategorized(
                "expected "@ + decimal_of(places.len()) + " generation results, got "@ + decimal_of(
                    generated.len(),
                ),
            ),
        ),
        batch_states(generated, lengths, places, specials, p) matches Ok(chunks) ==> {
            &&& generated.len() == places.len() == chunks.len()
            &&& forall|g: int|
                0 <= g < chunks.len() ==> chunk_state(
                    generated[g],
                    lengths[places[g].audio as int] as nat,
                    places[g].window as nat,
                    specials,
                    p,
                ) == Ok::<_, Seq<CauseView>>(#[trigger] chunks[g])
        },
{
    law_chunks_are_read_one_by_one(generated, lengths, places, specials, p, 0);
    if let Ok(chunks) = batch_states(generated, lengths, places, specials, p) {
        assert forall|g: int| 0 <= g < chunks.len() implies chunk_state(
            generated[g],
            lengths[places[g].audio as int] as nat,
            places[g].window as nat,
            specials,
            p,
        ) == Ok::<_, Seq<CauseView>>(#[trigger] chunks[g]) by {
            assert(generated[0 + g] == generated[g]);
        }
    }
}

/// The rules that a batch of audios in one language is timed by split its
/// words on characters alone exactly where that language is written without
/// spaces, for one audio as for many.
pub proof fn law_batches_are_split_by_their_language(
    languages: Vec<String>,
    p: Preprocessor,
    r: WordRules,
    code: Seq<char>,
)
    requires
        p.wf(),
        call_ensures(word_rules, (&languages, &p), r),
        languages@.len() > 0,
        forall|i: int|
            0 <= i < languages@.len() ==> (#[trigger] languages@[i])@ == "<|"@ + code + "|>"@,
        forall|i: int|
            0 <= i < code.len() ==> (#[trigger] code[i]) != '<' && code[i] != '|' && code[i] != '>',
    ensures
        r.unicode_only <==> (code == "zh"@ || code == "ja"@ || code == "th"@ || code == "lo"@
            || code == "my"@ || code == "yue"@),
        r.hop_length == p.hop_length,
        r.sampling_rate == p.sampling_rate,
{
    let tokens = texts(languages@);
    assert(tokens.len() == languages@.len());
    assert forall|i: int| 0 <= i < tokens.len() implies #[trigger] tokens[i] == "<|"@ + code
        + "|>"@ by {
        assert(tokens[i] == languages@[i]@);
    }
    law_word_rules_follow_the_language(tokens, code, p);
}

} // verus!
