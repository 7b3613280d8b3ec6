//! The knobs of a transcription.
//!
//! The type of the decoding knobs that are real numbers is left open; they
//! are only carried along.

use vstd::prelude::*;

use crate::device::given;

verus! {

/// The options of the decoder.
#[derive(Debug)]
pub struct WhisperOptions<F> {
    pub beam_size: usize,
    pub patience: F,
    pub length_penalty: F,
    pub repetition_penalty: F,
    pub no_repeat_ngram_size: usize,
    pub max_length: usize,
    pub sampling_topk: usize,
    pub sampling_temperature: F,
    pub num_hypotheses: usize,
    pub return_scores: bool,
    pub return_logits_vocab: bool,
    pub return_no_speech_prob: bool,
    pub max_initial_timestamp_index: usize,
    pub suppress_blank: bool,
    pub suppress_tokens: Vec<i32>,
}

/// What a caller sets of the options of the decoder.
#[derive(Debug)]
pub struct TranscribeOpts<F> {
    pub beam_size: Option<u32>,
    pub patience: Option<F>,
    pub length_penalty: Option<F>,
    pub repetition_penalty: Option<F>,
    pub no_repeat_ngram_size: Option<u32>,
    pub sampling_temperature: Option<F>,
    pub sampling_topk: Option<u32>,
    pub suppress_blank: Option<bool>,
    pub max_length: Option<u32>,
    pub num_hypotheses: Option<u32>,
    pub return_scores: Option<bool>,
    pub return_logits_vocab: Option<bool>,
    pub return_no_speech_prob: Option<bool>,
    pub max_initial_timestamp_index: Option<u32>,
    pub suppress_tokens: Option<Vec<i32>>,
}

/// The number that was given, or else the default.
pub open spec fn given_size(value: Option<u32>, default: usize) -> usize {
    match value {
        Some(v) => v as usize,
        None => default,
    }
}

/// The given size, or the default.
fn size_or(value: Option<u32>, default: usize) -> (r: usize)
    ensures
        r == given_size(value, default),
{
    match value {
        Some(v) => v as usize,
        None => default,
    }
}

/// The given value, or the default.
fn value_or<T: Copy>(value: Option<T>, default: T) -> (r: T)
    ensures
        r == given(value, default),
{
    match value {
        Some(v) => v,
        None => default,
    }
}

/// The options of the decoder: what the caller set, over the defaults.
pub fn build_whisper_options<F: Copy>(
    opts: TranscribeOpts<F>,
    defaults: WhisperOptions<F>,
) -> (r: WhisperOptions<F>)
    ensures
        r.beam_size == given_size(opts.beam_size, defaults.beam_size),
        r.patience == given(opts.patience, defaults.patience),
        r.length_penalty == given(opts.length_penalty, defaults.length_penalty),
        r.repetition_penalty == given(opts.repetition_penalty, defaults.repetition_penalty),
        r.no_repeat_ngram_size == given_size(
            opts.no_repeat_ngram_size,
            defaults.no_repeat_ngram_size,
        ),
        r.max_length == given_size(opts.max_length, defaults.max_length),
        r.sampling_topk == given_size(opts.sampling_topk, defaults.sampling_topk),
        r.sampling_temperature == given(opts.sampling_temperature, defaults.sampling_temperature),
        r.num_hypotheses == given_size(opts.num_hypotheses, defaults.num_hypotheses),
        r.return_scores == given(opts.return_scores, defaults.return_scores),
        r.return_logits_vocab == given(opts.return_logits_vocab, defaults.return_logits_vocab),
        r.return_no_speech_prob == given(
            opts.return_no_speech_prob,
            defaults.return_no_speech_prob,
        ),
        r.max_initial_timestamp_index == given_size(
            opts.max_initial_timestamp_index,
            defaults.max_initial_timestamp_index,
        ),
        r.suppress_blank == given(opts.suppress_blank, defaults.suppress_blank),
        r.suppress_tokens@ == match opts.suppress_tokens {
            Some(tokens) => tokens@,
            None => defaults.suppress_tokens@,
        },
{
    WhisperOptions {
        beam_size: size_or(opts.beam_size, defaults.beam_size),
        patience: value_or(opts.patience, defaults.patience),
        length_penalty: value_or(opts.length_penalty, defaults.length_penalty),
        repetition_penalty: value_or(opts.repetition_penalty, defaults.repetition_penalty),
        no_repeat_ngram_size: size_or(opts.no_repeat_ngram_size, defaults.no_repeat_ngram_size),
        max_length: size_or(opts.max_length, defaults.max_length),
        sampling_topk: size_or(opts.sampling_topk, defaults.sampling_topk),
        sampling_temperature: value_or(opts.sampling_temperature, defaults.sampling_temperature),
        num_hypotheses: size_or(opts.num_hypotheses, defaults.num_hypotheses),
        return_scores: value_or(opts.return_scores, defaults.return_scores),
        return_logits_vocab: value_or(opts.return_logits_vocab, defaults.return_logits_vocab),
        return_no_speech_prob: value_or(
            opts.return_no_speech_prob,
            defaults.return_no_speech_prob,
        ),
        max_initial_timestamp_index: size_or(
            opts.max_initial_timestamp_index,
            defaults.max_initial_timestamp_index,
        ),
        suppress_blank: value_or(opts.suppress_blank, defaults.suppress_blank),
        suppress_tokens: match opts.suppress_tokens {
            Some(tokens) => tokens,
            None => defaults.suppress_tokens,
        },
    }
}

/// What a caller sets is what the decoder gets, whatever the value is, and
/// what a caller leaves open stays at its default. No option touches
/// another.
pub proof fn law_set_options_are_kept<F: Copy>(
    opts: TranscribeOpts<F>,
    defaults: WhisperOptions<F>,
    r: WhisperOptions<F>,
)
    requires
        call_ensures(build_whisper_options::<F>, (opts, defaults), r),
    ensures
        forall|v: u32| opts.beam_size == Some(v) ==> r.beam_size == v,
        forall|v: u32| opts.no_repeat_ngram_size == Some(v) ==> r.no_repeat_ngram_size == v,
        forall|v: u32| opts.max_length == Some(v) ==> r.max_length == v,
        forall|v: u32| opts.sampling_topk == Some(v) ==> r.sampling_topk == v,
        forall|v: u32| opts.num_hypotheses == Some(v) ==> r.num_hypotheses == v,
        forall|v: u32|
            opts.max_initial_timestamp_index == Some(v) ==> r.max_initial_timestamp_index == v,
        forall|v: F| opts.patience == Some(v) ==> r.patience == v,
        forall|v: F| opts.length_penalty == Some(v) ==> r.length_penalty == v,
        forall|v: F| opts.repetition_penalty == Some(v) ==> r.repetition_penalty == v,
        forall|v: F| opts.sampling_temperature == Some(v) ==> r.sampling_temperature == v,
        forall|v: bool| opts.return_scores == Some(v) ==> r.return_scores == v,
        forall|v: bool| opts.return_logits_vocab == Some(v) ==> r.return_logits_vocab == v,
        forall|v: bool| opts.return_no_speech_prob == Some(v) ==> r.return_no_speech_prob == v,
        forall|v: bool| opts.suppress_blank == Some(v) ==> r.suppress_blank == v,
        forall|v: Vec<i32>| opts.suppress_tokens == Some(v) ==> r.suppress_tokens@ == v@,
        opts.beam_size is None ==> r.beam_size == defaults.beam_size,
        opts.no_repeat_ngram_size is None ==> r.no_repeat_ngram_size
            == defaults.no_repeat_ngram_size,
        opts.max_length is None ==> r.max_length == defaults.max_length,
        opts.sampling_topk is None ==> r.sampling_topk == defaults.sampling_topk,
        opts.num_hypotheses is None ==> r.num_hypotheses == defaults.num_hypotheses,
        opts.max_initial_timestamp_index is None ==> r.max_initial_timestamp_index
            == defaults.max_initial_timestamp_index,
        opts.patience is None ==> r.patience == defaults.patience,
        opts.length_penalty is None ==> r.length_penalty == defaults.length_penalty,
        opts.repetition_penalty is None ==> r.repetition_penalty == defaults.repetition_penalty,
        opts.sampling_temperature is None ==> r.sampling_temperature
            == defaults.sampling_temperature,
        opts.return_scores is None ==> r.return_scores == defaults.return_scores,
        opts.return_logits_vocab is None ==> r.return_logits_vocab == defaults.return_logits_vocab,
        opts.return_no_speech_prob is None ==> r.return_no_speech_prob
            == defaults.return_no_speech_prob,
        opts.suppress_blank is None ==> r.suppress_blank == defaults.suppress_blank,
        opts.suppress_tokens is None ==> r.suppress_tokens@ == defaults.suppress_tokens@,
{
}

impl<F: Copy> WhisperOptions<F> {
    /// The options that a batch is generated with. Segments always carry a
    /// score and a no-speech probability, so the decoder always returns
    /// them.
    pub fn for_generation(&self) -> (r: WhisperOptions<F>)
        ensures
            r.return_scores,
            r.return_no_speech_prob,
            r.suppress_tokens@ == self.suppress_tokens@,
            r == (WhisperOptions {
                return_scores: true,
                return_no_speech_prob: true,
                suppress_tokens: r.suppress_tokens,
                ..*self
            }),
    {
        let mut suppress_tokens: Vec<i32> = Vec::new();
        for i in 0..self.suppress_tokens.len()
            invariant
                suppress_tokens@ == self.suppress_tokens@.take(i as int),
        {
            suppress_tokens.push(self.suppress_tokens[i]);
            assert(self.suppress_tokens@.take(i + 1) =~= self.suppress_tokens@.take(i as int).push(
                self.suppress_tokens@[i as int],
            ));
        }
        assert(self.suppress_tokens@.take(self.suppress_tokens@.len() as int)
            =~= self.suppress_tokens@);
        WhisperOptions {
            beam_size: self.beam_size,
            patience: self.patience,
            length_penalty: self.length_penalty,
            repetition_penalty: self.repetition_penalty,
            no_repeat_ngram_size: self.no_repeat_ngram_size,
            max_length: self.max_length,
            sampling_topk: self.sampling_topk,
            sampling_temperature: self.sampling_temperature,
            num_hypotheses: self.num_hypotheses,
            return_scores: true,
            return_logits_vocab: self.return_logits_vocab,
            return_no_speech_prob: true,
            max_initial_timestamp_index: self.max_initial_timestamp_index,
            suppress_blank: self.suppress_blank,
            suppress_tokens,
        }
    }
}

/// A batch is generated with the caller's own options but for two: scores
/// and no-speech probabilities always come back.
pub proof fn law_generation_changes_two_options<F: Copy>(
    asked: WhisperOptions<F>,
    used: WhisperOptions<F>,
)
    requires
        call_ensures(WhisperOptions::<F>::for_generation, (&asked,), used),
    ensures
        used.return_scores && used.return_no_speech_prob,
        used.beam_size == asked.beam_size,
        used.patience == asked.patience,
        used.length_penalty == asked.length_penalty,
        used.repetition_penalty == asked.repetition_penalty,
        used.no_repeat_ngram_size == asked.no_repeat_ngram_size,
        used.max_length == asked.max_length,
        used.sampling_topk == asked.sampling_topk,
        used.sampling_temperature == asked.sampling_temperature,
        used.num_hypotheses == asked.num_hypotheses,
        used.return_logits_vocab == asked.return_logits_vocab,
        used.max_initial_timestamp_index == asked.max_initial_timestamp_index,
        used.suppress_blank == asked.suppress_blank,
        used.suppress_tokens@ == asked.suppress_tokens@,
{
}

} // verus!
