use tokenizers::decoders::byte_level::ByteLevel as ByteLevelDecoder;
use tokenizers::models::bpe::{Vocab, BPE};
use tokenizers::pre_tokenizers::byte_level::ByteLevel;
use tokenizers::utils::truncation::TruncationParams;
use tokenizers::{AddedToken, DecoderWrapper, PreTokenizerWrapper, Tokenizer};

use whisper_ct2::align::TokenAlignment;
use whisper_ct2::batch::plan_batch;
use whisper_ct2::errors::kind_from_chain;
use whisper_ct2::job::{open_job, read_aligned, read_generated, with_detected, Job, Opening, Reading};
use whisper_ct2::options::WhisperOptions;
use whisper_ct2::preprocessor::Preprocessor;
use whisper_ct2::segments::{is_visible, only_transcript, TranscriptionResult};
use whisper_ct2::timing::ChunkAlignment;
use whisper_ct2::tokenizer::TextTokenizer;
use whisper_ct2::tokens::{encode_plain, SpecialTokens, NO_TIMESTAMPS, SOT, STARTOFPREV, TRANSCRIBE};
use whisper_ct2::transcribe::{Generated, TranscribeRequest};

const SECOND: u128 = 1_600_000;

const ENTRIES: [(&str, u32); 8] = [
    ("\u{120}", 0),
    ("h", 1),
    ("i", 2),
    ("\u{120}hi", 3),
    (",", 4),
    ("\u{120}you", 5),
    (".", 6),
    ("\u{120}\u{120}", 7),
];

const SPECIALS: [&str; 6] = [
    "<|startoftranscript|>",
    "<|en|>",
    "<|de|>",
    "<|transcribe|>",
    "<|startofprev|>",
    "<|notimestamps|>",
];

/// The first timestamp: eight tokens, six special ones, and the last of
/// these is `<|notimestamps|>`.
const BEGIN: usize = 14;

fn plain() -> Tokenizer {
    let vocab: Vocab = ENTRIES
        .iter()
        .map(|(surface, id)| ((*surface).to_owned(), *id))
        .collect();
    let bpe = BPE::builder()
        .vocab_and_merges(vocab, Vec::new())
        .build()
        .expect("valid test vocab");
    let mut tokenizer = Tokenizer::new(bpe);
    tokenizer.with_pre_tokenizer(Some(PreTokenizerWrapper::ByteLevel(ByteLevel::default())));
    tokenizer.with_decoder(Some(DecoderWrapper::ByteLevel(ByteLevelDecoder::default())));
    let added: Vec<AddedToken> = SPECIALS
        .iter()
        .map(|t| AddedToken::from((*t).to_owned(), true))
        .collect();
    tokenizer.add_special_tokens(&added);
    tokenizer
}

fn tokenizer() -> TextTokenizer {
    TextTokenizer::new(plain()).expect("admitted")
}

fn preprocessor() -> Preprocessor {
    Preprocessor {
        feature_size: 80,
        hop_length: 160,
        n_fft: 400,
        n_samples: 480_000,
        nb_max_frames: 3_000,
        sampling_rate: 16_000,
    }
}

fn request() -> TranscribeRequest<f32> {
    TranscribeRequest {
        language: None,
        with_timestamps: true,
        initial_prompt: None,
        prefix: None,
        word_timestamps: false,
        options: WhisperOptions {
            beam_size: 5,
            patience: 1.0,
            length_penalty: 1.0,
            repetition_penalty: 1.0,
            no_repeat_ngram_size: 0,
            max_length: 448,
            sampling_topk: 1,
            sampling_temperature: 1.0,
            num_hypotheses: 1,
            return_scores: false,
            return_logits_vocab: false,
            return_no_speech_prob: false,
            max_initial_timestamp_index: 50,
            suppress_blank: true,
            suppress_tokens: vec![-1],
        },
    }
}

fn job(lengths: &[usize], multilingual: bool, request: TranscribeRequest<f32>) -> Job<f32> {
    Job {
        batch: plan_batch(lengths.to_vec(), &preprocessor()).expect("small batch"),
        request,
        multilingual,
        specials: SpecialTokens::resolve(&tokenizer()).expect("all there"),
        preprocessor: preprocessor(),
    }
}

fn generated(ids: &[usize], score: f32) -> Generated<f32> {
    Generated { sequences_ids: vec![ids.to_vec()], scores: vec![score], no_speech_prob: 0.125 }
}

type Prompts = Vec<Vec<String>>;

fn prompts(lengths: &[usize], multilingual: bool, request: TranscribeRequest<f32>) -> Prompts {
    match open_job(&tokenizer(), job(lengths, multilingual, request)).expect("opens") {
        Opening::Generate(prompted) => prompted.prompts,
        _ => panic!("languages are known"),
    }
}

#[test]
fn a_batch_without_audio_is_done_at_once() {
    assert!(matches!(
        open_job(&tokenizer(), job(&[], true, request())).expect("opens"),
        Opening::Nothing
    ));
}

#[test]
fn every_chunk_gets_a_prompt_in_its_language() {
    let pinned = TranscribeRequest { language: Some("de".to_owned()), ..request() };
    let found = prompts(&[480_001, 5], true, pinned);
    assert_eq!(found, vec![vec![SOT, "<|de|>", TRANSCRIBE]; 3]);

    let found = prompts(&[5], false, request());
    assert_eq!(found, vec![vec![SOT]]);
}

#[test]
fn detected_languages_go_into_the_prompts() {
    let opened = open_job(&tokenizer(), job(&[480_001, 5], true, request())).expect("opens");
    let Opening::Detect(waiting) = opened else {
        panic!("languages are not known");
    };
    let candidates = vec![
        vec![vec!["<|en|>".to_owned()]],
        vec![vec!["<|de|>".to_owned(), "<|en|>".to_owned()]],
    ];
    let prompted = with_detected(&tokenizer(), waiting, candidates).expect("detected");
    assert_eq!(prompted.languages, vec!["<|en|>", "<|de|>"]);
    assert_eq!(prompted.prompts[1][1], "<|en|>");
    assert_eq!(prompted.prompts[2][1], "<|de|>");
}

#[test]
fn a_failed_detection_fails_the_job() {
    let waiting = job(&[5], true, request());
    let err = with_detected(&tokenizer(), waiting, vec![Vec::new()]).expect_err("nothing found");
    assert_eq!(err.message(), "detect_language returned no candidates");
}

#[test]
fn word_times_need_timestamps() {
    let silent = TranscribeRequest { with_timestamps: false, ..request() };
    assert_eq!(prompts(&[5], false, silent), vec![vec![SOT, NO_TIMESTAMPS]]);
    let words = TranscribeRequest { with_timestamps: false, word_timestamps: true, ..request() };
    assert_eq!(prompts(&[5], false, words), vec![vec![SOT]]);
}

#[test]
fn plain_text_is_encoded_without_special_tokens() {
    let tokens = encode_plain(&tokenizer(), " hi").expect("encodes");
    assert_eq!(tokens, vec!["\u{120}", "h", "i"]);
}

#[test]
fn initial_prompt_and_prefix_are_tokenised_and_cut() {
    let mut asked = TranscribeRequest {
        initial_prompt: Some("  hih ".to_owned()),
        prefix: Some("hi".to_owned()),
        ..request()
    };
    let found = prompts(&[5], false, asked);
    assert_eq!(
        found,
        vec![vec![STARTOFPREV, "\u{120}", "h", "i", "h", SOT, "\u{120}", "h", "i"]]
    );

    // A budget of two tokens each.
    asked = TranscribeRequest {
        initial_prompt: Some("hih".to_owned()),
        prefix: Some("hi".to_owned()),
        ..request()
    };
    asked.options.max_length = 6;
    let found = prompts(&[5], false, asked);
    assert_eq!(found, vec![vec![STARTOFPREV, "i", "h", SOT, "\u{120}", "h"]]);

    let blank = TranscribeRequest { initial_prompt: Some(" \n".to_owned()), ..request() };
    assert_eq!(prompts(&[5], false, blank), vec![vec![SOT]]);
}

fn finish(
    lengths: &[usize],
    request: TranscribeRequest<f32>,
    results: Vec<Generated<f32>>,
) -> Result<Vec<TranscriptionResult<f32, f32>>, String> {
    let Opening::Generate(prompted) =
        open_job(&tokenizer(), job(lengths, false, request)).expect("opens")
    else {
        panic!("English only");
    };
    match read_generated::<f32, f32, f32>(&tokenizer(), prompted, results) {
        Ok(Reading::Finished(list)) => Ok(list),
        Ok(Reading::Align(..)) => panic!("no words were asked for"),
        Err(e) => Err(e.message()),
    }
}

#[test]
fn segments_are_placed_in_their_audio() {
    let results = vec![
        generated(&[BEGIN, 3, 4, BEGIN + 50, BEGIN + 50, 5, 6, BEGIN + 1500], -0.5),
        generated(&[BEGIN + 25, 5, BEGIN + 100], -0.25),
        generated(&[3], -1.0),
    ];
    let list = finish(&[496_000, 8_000], request(), results).expect("reads");
    assert_eq!(list.len(), 2);
    assert_eq!(list[0].language, "en");
    assert_eq!(list[0].duration, 31 * SECOND);
    let found: Vec<(&str, u128, u128, f32)> = list[0]
        .segments
        .iter()
        .map(|s| (s.text.as_str(), s.start, s.end, s.score))
        .collect();
    assert_eq!(
        found,
        vec![
            (" hi,", 0, SECOND, -0.5),
            (" you.", SECOND, 30 * SECOND, -0.5),
            // The last window has one second of audio.
            (" you", 30 * SECOND + SECOND / 2, 31 * SECOND, -0.25),
        ]
    );
    assert_eq!(list[0].segments[0].tokens, vec![3, 4]);
    assert_eq!(list[0].segments[0].hypothesis_len, 8);
    assert_eq!(list[0].segments[0].no_speech_prob, 0.125);
    assert!(list[0].segments[0].words.is_none());
    assert_eq!(list[1].segments.len(), 1);
    assert_eq!(list[1].segments[0].end, SECOND / 2);
}

#[test]
fn segments_without_visible_text_are_left_out() {
    let results = vec![generated(&[BEGIN, 7, BEGIN + 5, BEGIN + 5, 3, BEGIN + 9], 0.0)];
    let list = finish(&[16_000], request(), results).expect("reads");
    assert_eq!(list[0].segments.len(), 1);
    assert_eq!(list[0].segments[0].text, " hi");
}

#[test]
fn what_the_model_leaves_out_is_an_error() {
    let err = finish(&[5], request(), Vec::new()).expect_err("no result");
    assert_eq!(err, "expected 1 generation results, got 0");

    let empty = Generated { sequences_ids: Vec::new(), scores: vec![0.0], no_speech_prob: 0.0 };
    let err = finish(&[5], request(), vec![empty]).expect_err("no hypothesis");
    assert_eq!(err, "generation result missing first hypothesis");

    let unscored = Generated {
        sequences_ids: vec![vec![3]],
        scores: Vec::new(),
        no_speech_prob: 0.0,
    };
    let err = finish(&[5], request(), vec![unscored]).expect_err("no score");
    assert_eq!(err, "ct2 generation result is missing scores despite return_scores=true");

    let wide = generated(&[u32::MAX as usize + 7], 0.0);
    let err = finish(&[5], request(), vec![wide]).expect_err("no token id");
    assert_eq!(err, "token id 4294967302 exceeds u32");
}

#[test]
fn words_are_attached_to_their_segments() {
    let asked = TranscribeRequest { word_timestamps: true, ..request() };
    let Opening::Generate(prompted) =
        open_job(&tokenizer(), job(&[16_000], false, asked)).expect("opens")
    else {
        panic!("English only");
    };
    let results = vec![generated(&[BEGIN, 3, 4, 5, 6, BEGIN + 50], -0.5)];
    let Ok(Reading::Align(parsed, ask)) = read_generated::<f32, f32, f32>(&tokenizer(), prompted, results)
    else {
        panic!("words have to be aligned");
    };
    assert_eq!(ask.start_sequence, vec![8]);
    assert_eq!(ask.text_tokens, vec![vec![3, 4, 5, 6]]);
    assert_eq!(ask.num_frames, vec![100]);
    let steps = [(0, 0), (1, 10), (2, 12), (3, 30), (4, 32)];
    let alignment = ChunkAlignment {
        alignments: steps
            .iter()
            .map(|&(token_x, frame_x)| TokenAlignment { token_x, frame_x })
            .collect(),
        text_token_probs: vec![0.5_f32, 0.25, 1.0, 0.75],
    };
    let list = read_aligned(&tokenizer(), parsed, vec![alignment]).expect("aligned");
    let words = list[0].segments[0].words.as_ref().expect("words were asked for");
    let found: Vec<(&str, u128, u128)> = words
        .iter()
        .map(|w| (w.text.as_str(), w.start, w.end))
        .collect();
    assert_eq!(found, vec![("hi,", 0, 320_000), ("you.", 384_000, 960_000)]);
    assert_eq!(words[0].probs, vec![0.5, 0.25]);
}

#[test]
fn words_of_silence_need_no_alignment() {
    let asked = TranscribeRequest { word_timestamps: true, ..request() };
    let results = vec![generated(&[BEGIN, BEGIN + 50], -0.5)];
    let list = finish(&[16_000], asked, results).expect("reads");
    assert!(list[0].segments.is_empty());
}

#[test]
fn words_of_several_languages_cannot_be_aligned() {
    let asked = TranscribeRequest { word_timestamps: true, ..request() };
    let waiting = job(&[5, 5], true, asked);
    let candidates = vec![
        vec![vec!["<|en|>".to_owned()]],
        vec![vec!["<|de|>".to_owned()]],
    ];
    let prompted = with_detected(&tokenizer(), waiting, candidates).expect("detected");
    let results = vec![generated(&[3], 0.0), generated(&[3], 0.0)];
    let err = match read_generated::<f32, f32, f32>(&tokenizer(), prompted, results) {
        Err(e) => e,
        Ok(_) => panic!("languages differ"),
    };
    assert_eq!(kind_from_chain(&err), Some("invalid_request"));
}

#[test]
fn the_transcript_of_one_audio_is_the_only_one() {
    let list = finish(&[16_000], request(), vec![generated(&[3], 0.0)]).expect("reads");
    let one = only_transcript(list).expect("there is one");
    assert_eq!(one.segments[0].text, " hi");
    let none: Vec<TranscriptionResult<f32, f32>> = Vec::new();
    let err = only_transcript(none).expect_err("there is none");
    assert_eq!(kind_from_chain(&err), Some("runtime_error"));
    assert_eq!(err.message(), "transcribe_many returned no results");
}

#[test]
fn special_tokens_do_not_show_in_decoded_text() {
    let decoded = tokenizer().decode(&[8, 3, 9, 6]).expect("decodes");
    assert_eq!(decoded, " hi.");
}

#[test]
fn tokenizers_that_can_fail_are_not_admitted() {
    let mut cut = plain();
    let stride = TruncationParams { max_length: 4, stride: 4, ..TruncationParams::default() };
    cut.with_truncation(Some(stride)).expect("configures");
    assert_eq!(
        TextTokenizer::new(cut).expect_err("stride").message(),
        "tokenizer can fail to encode text"
    );

    let mut short = plain();
    let fine = TruncationParams { max_length: 2, stride: 1, ..TruncationParams::default() };
    short.with_truncation(Some(fine)).expect("configures");
    let short = TextTokenizer::new(short).expect("admitted");
    assert_eq!(encode_plain(&short, " hih").expect("encodes"), vec!["\u{120}", "h"]);

    let vocab: Vocab = [("a".to_owned(), 0_u32)].into_iter().collect();
    let random = BPE::builder()
        .vocab_and_merges(vocab, Vec::new())
        .dropout(0.5)
        .build()
        .expect("valid test vocab");
    assert_eq!(
        TextTokenizer::new(Tokenizer::new(random)).expect_err("dropout").message(),
        "tokenizer must not drop merges at random"
    );

    let mut strict = plain();
    strict.with_decoder(Some(DecoderWrapper::BPE(
        tokenizers::decoders::bpe::BPEDecoder::default(),
    )));
    assert_eq!(
        TextTokenizer::new(strict).expect_err("decoder").message(),
        "tokenizer can fail to decode tokens"
    );
}

#[test]
fn blank_text_is_not_visible() {
    assert!(is_visible(" hi "));
    assert!(!is_visible(" \t\u{3000}"));
    assert!(!is_visible(""));
}
