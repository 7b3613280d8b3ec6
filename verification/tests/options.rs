use whisper_ct2::options::{build_whisper_options, TranscribeOpts, WhisperOptions};

fn defaults() -> WhisperOptions<f32> {
    WhisperOptions {
        beam_size: 5,
        patience: 1.0,
        length_penalty: 1.0,
        repetition_penalty: 1.0,
        no_repeat_ngram_size: 0,
        max_length: 448,
        sampling_topk: 1,
        sampling_temperature: 1.0,
        num_hypotheses: 1,
        return_scores: false,
        return_logits_vocab: false,
        return_no_speech_prob: false,
        max_initial_timestamp_index: 50,
        suppress_blank: true,
        suppress_tokens: vec![-1],
    }
}

fn unset() -> TranscribeOpts<f32> {
    TranscribeOpts {
        beam_size: None,
        patience: None,
        length_penalty: None,
        repetition_penalty: None,
        no_repeat_ngram_size: None,
        sampling_temperature: None,
        sampling_topk: None,
        suppress_blank: None,
        max_length: None,
        num_hypotheses: None,
        return_scores: None,
        return_logits_vocab: None,
        return_no_speech_prob: None,
        max_initial_timestamp_index: None,
        suppress_tokens: None,
    }
}

#[test]
fn unset_options_are_the_defaults() {
    let options = build_whisper_options(unset(), defaults());
    assert_eq!(format!("{options:?}"), format!("{:?}", defaults()));
}

#[test]
fn set_options_replace_the_defaults() {
    let opts = TranscribeOpts {
        beam_size: Some(2),
        patience: Some(2.5),
        length_penalty: Some(0.5),
        repetition_penalty: Some(1.5),
        no_repeat_ngram_size: Some(3),
        sampling_temperature: Some(0.25),
        sampling_topk: Some(9),
        suppress_blank: Some(false),
        max_length: Some(100),
        num_hypotheses: Some(4),
        return_scores: Some(true),
        return_logits_vocab: Some(true),
        return_no_speech_prob: Some(true),
        max_initial_timestamp_index: Some(u32::MAX),
        suppress_tokens: Some(vec![7, 8]),
    };
    let options = build_whisper_options(opts, defaults());
    let expected = WhisperOptions {
        beam_size: 2,
        patience: 2.5_f32,
        length_penalty: 0.5,
        repetition_penalty: 1.5,
        no_repeat_ngram_size: 3,
        max_length: 100,
        sampling_topk: 9,
        sampling_temperature: 0.25,
        num_hypotheses: 4,
        return_scores: true,
        return_logits_vocab: true,
        return_no_speech_prob: true,
        max_initial_timestamp_index: u32::MAX as usize,
        suppress_blank: false,
        suppress_tokens: vec![7, 8],
    };
    assert_eq!(format!("{options:?}"), format!("{expected:?}"));
}

#[test]
fn generation_always_returns_scores_and_no_speech_probabilities() {
    let options = defaults().for_generation();
    let expected = WhisperOptions {
        return_scores: true,
        return_no_speech_prob: true,
        ..defaults()
    };
    assert_eq!(format!("{options:?}"), format!("{expected:?}"));
}
