use tokenizers::decoders::byte_level::ByteLevel;
use tokenizers::models::bpe::{Vocab, BPE};
use tokenizers::{DecoderWrapper, Tokenizer};

use whisper_ct2::align::{PreWord, TokenAlignment};
use whisper_ct2::time::{frame_time, sample_time, units_per_second};
use whisper_ct2::timing::{
    align_batch, align_chunk, begin_alignment, is_covered, materialise_word,
    snap_subsegment_boundaries, AlignmentStart, ChunkAlignment, ChunkState, Word, WordRules,
    DEFAULT_MEDIAN_FILTER_WIDTH,
};
use whisper_ct2::tokenizer::TextTokenizer;
use whisper_ct2::tokens::SubSegment;

const HOP: usize = 160;
const RATE: usize = 16_000;
const SECOND: u128 = 1_600_000;
const FRAME: u128 = 32_000;

fn tokenizer() -> TextTokenizer {
    let entries = [
        ("Das", 0_u32),
        ("\u{120}ist", 1),
        (",", 2),
        ("\u{120}gut", 3),
        (".", 4),
        ("\u{120}Ja", 5),
    ];
    let vocab: Vocab = entries
        .iter()
        .map(|(surface, id)| ((*surface).to_owned(), *id))
        .collect();
    let bpe = BPE::builder()
        .vocab_and_merges(vocab, Vec::new())
        .build()
        .expect("valid test vocab");
    let mut tokenizer = Tokenizer::new(bpe);
    tokenizer.with_decoder(Some(DecoderWrapper::ByteLevel(ByteLevel::default())));
    TextTokenizer::new(tokenizer).expect("admitted")
}

fn rules() -> WordRules {
    WordRules { hop_length: HOP, sampling_rate: RATE, unicode_only: false }
}

fn word(start: u128, end: u128) -> Word<f32> {
    Word { text: "w".to_owned(), start, end, probs: vec![1.0] }
}

fn sub(ids: &[u32], start: u128, end: u128) -> SubSegment {
    SubSegment { text_token_ids: ids.to_vec(), start_in_chunk: start, end_in_chunk: end }
}

fn path(steps: &[(i64, i64)]) -> Vec<TokenAlignment> {
    steps
        .iter()
        .map(|&(token_x, frame_x)| TokenAlignment { token_x, frame_x })
        .collect()
}

#[test]
fn times_are_counted_in_hundredths_of_a_sample() {
    assert_eq!(units_per_second(RATE), SECOND);
    assert_eq!(frame_time(HOP), FRAME);
    assert_eq!(sample_time(RATE), SECOND);
}

#[test]
fn a_word_is_placed_after_the_offset_of_its_chunk() {
    let pre = PreWord {
        text: "  so".to_owned(),
        tokens: vec![1, 2],
        probs: vec![0.5_f32, 0.25],
        start_frame: 50,
        end_frame: 75,
        subsegment_idx: 0,
    };
    let done = materialise_word(pre, 30 * SECOND, HOP);
    assert_eq!(done.text, "so");
    assert_eq!(done.start, 31 * SECOND);
    assert_eq!(done.end, 31 * SECOND + SECOND / 2);
    assert_eq!(done.probs, vec![0.5, 0.25]);
}

#[test]
fn a_word_never_ends_before_it_starts() {
    let pre = PreWord {
        text: "x".to_owned(),
        tokens: vec![1],
        probs: vec![1.0_f32],
        start_frame: 10,
        end_frame: 4,
        subsegment_idx: 0,
    };
    let done = materialise_word(pre, 0, HOP);
    assert_eq!((done.start, done.end), (10 * FRAME, 10 * FRAME));
}

fn snapped(words: &mut Vec<Word<f32>>, start: u128, end: u128, median: u128) -> Vec<(u128, u128)> {
    snap_subsegment_boundaries(words, start, end, median, SECOND / 2);
    words.iter().map(|w| (w.start, w.end)).collect()
}

#[test]
fn a_first_word_that_comes_too_early_is_snapped() {
    // The median before its end comes before the sub-segment's start.
    let mut words = vec![word(0, 3 * SECOND), word(3 * SECOND, 4 * SECOND)];
    let found = snapped(&mut words, 2 * SECOND, 4 * SECOND, 3 * SECOND / 2);
    assert_eq!(found, vec![(3 * SECOND / 2, 3 * SECOND), (3 * SECOND, 4 * SECOND)]);

    // It comes after it.
    let mut words = vec![word(0, 3 * SECOND)];
    let found = snapped(&mut words, SECOND, 3 * SECOND, SECOND / 10);
    assert_eq!(found, vec![(SECOND, 3 * SECOND)]);

    // Half a second is not too early, and a later sub-segment is none of its.
    let mut words = vec![word(0, 3 * SECOND)];
    assert_eq!(snapped(&mut words, SECOND / 2, 3 * SECOND, 1), vec![(0, 3 * SECOND)]);
    let mut words = vec![word(0, SECOND)];
    assert_eq!(snapped(&mut words, SECOND, SECOND, 1), vec![(0, SECOND)]);
}

#[test]
fn a_last_word_that_comes_too_late_is_snapped() {
    let mut words = vec![word(0, SECOND), word(SECOND, 5 * SECOND)];
    let found = snapped(&mut words, 0, 2 * SECOND, SECOND / 2);
    assert_eq!(found, vec![(0, SECOND), (SECOND, 2 * SECOND)]);

    let mut words = vec![word(SECOND, 5 * SECOND)];
    let found = snapped(&mut words, SECOND, 2 * SECOND, 3 * SECOND / 2);
    assert_eq!(found, vec![(SECOND, 5 * SECOND / 2)]);

    let mut words = vec![word(SECOND, 5 * SECOND)];
    assert_eq!(snapped(&mut words, SECOND, 9 * SECOND / 2, 0), vec![(SECOND, 5 * SECOND)]);
    let mut none: Vec<Word<f32>> = Vec::new();
    assert!(snapped(&mut none, 0, SECOND, 0).is_empty());
}

#[test]
fn a_chunk_is_aligned_word_by_word() {
    let subs = [sub(&[0, 1, 2], 0, 2 * SECOND), sub(&[3, 4], 2 * SECOND, 4 * SECOND)];
    let alignment = ChunkAlignment {
        alignments: path(&[(0, 0), (1, 30), (2, 50), (3, 100), (4, 120), (5, 140)]),
        text_token_probs: vec![0.1_f32, 0.2, 0.3, 0.4, 0.5],
    };
    let lists = align_chunk(&tokenizer(), &subs, 30 * SECOND, &alignment, &rules()).unwrap();
    let found: Vec<Vec<(&str, u128, u128)>> = lists
        .iter()
        .map(|l| l.iter().map(|w| (w.text.as_str(), w.start, w.end)).collect())
        .collect();
    let at = |frames: u128| 30 * SECOND + frames * FRAME;
    assert_eq!(
        found,
        vec![
            vec![("Das", at(0), at(30)), ("ist,", at(30), at(50))],
            vec![("gut.", at(100), at(120))],
        ]
    );
    assert_eq!(lists[0][1].probs, vec![0.2, 0.3]);
    assert_eq!(lists[1][0].probs, vec![0.4, 0.5]);
}

#[test]
fn silence_after_a_sentence_is_not_given_to_the_next_word() {
    // Durations 10, 10, 10, 200: twice the median is 20 frames.
    let subs = [sub(&[0, 3, 4, 5], 0, 5 * SECOND)];
    let alignment = ChunkAlignment {
        alignments: path(&[(0, 0), (1, 10), (2, 20), (3, 30), (4, 230)]),
        text_token_probs: vec![1.0_f32; 4],
    };
    let lists = align_chunk(&tokenizer(), &subs, 0, &alignment, &rules()).unwrap();
    let last = &lists[0][2];
    assert_eq!(last.text, "Ja");
    assert_eq!((last.start, last.end), (210 * FRAME, 230 * FRAME));
}

#[test]
fn a_chunk_without_text_tokens_has_no_words() {
    let alignment = ChunkAlignment { alignments: Vec::new(), text_token_probs: Vec::<f32>::new() };
    let lists = align_chunk(&tokenizer(), &[sub(&[], 0, 1)], 0, &alignment, &rules()).unwrap();
    assert_eq!(lists.len(), 1);
    assert!(lists[0].is_empty());
}

fn chunk(ids: &[u32], num_frames: usize) -> ChunkState {
    let sub_segments = if ids.is_empty() {
        Vec::new()
    } else {
        vec![sub(&ids[..1], 0, SECOND), sub(&ids[1..], SECOND, 2 * SECOND)]
    };
    ChunkState { sub_segments, offset: 0, num_frames }
}

#[test]
fn a_batch_with_text_asks_for_an_alignment() {
    let chunks = vec![chunk(&[], 10), chunk(&[0, 1, 2], 77)];
    match begin_alignment::<f32>(&chunks, vec![9, 8]) {
        AlignmentStart::Ask(request) => {
            assert_eq!(request.start_sequence, vec![9, 8]);
            assert_eq!(request.text_tokens, vec![vec![], vec![0, 1, 2]]);
            assert_eq!(request.num_frames, vec![10, 77]);
            assert_eq!(request.median_filter_width, DEFAULT_MEDIAN_FILTER_WIDTH);
            assert_eq!(request.median_filter_width, 7);
        }
        AlignmentStart::Done(_) => panic!("there is text to align"),
    }
}

#[test]
fn a_batch_without_text_asks_for_none() {
    let silent = ChunkState {
        sub_segments: vec![sub(&[], 0, 1), sub(&[], 1, 2)],
        offset: 0,
        num_frames: 3,
    };
    match begin_alignment::<f32>(&vec![silent, chunk(&[], 1)], vec![9]) {
        AlignmentStart::Done(lists) => {
            assert_eq!(lists.len(), 2);
            assert_eq!(lists[0].len(), 2);
            assert!(lists[0].iter().all(Vec::is_empty));
            assert!(lists[1].is_empty());
        }
        AlignmentStart::Ask(_) => panic!("there is nothing to align"),
    }
}

#[test]
fn a_wrong_number_of_alignments_is_an_error() {
    let chunks = vec![chunk(&[], 10), chunk(&[0, 1], 77)];
    let results: Vec<ChunkAlignment<f32>> = Vec::new();
    let err = align_batch(&tokenizer(), &chunks, &results, &rules()).expect_err("none came");
    assert_eq!(err.message(), "expected 2 alignment results, got 0");
}

#[test]
fn missing_probabilities_are_noticed() {
    let chunks = vec![chunk(&[0, 1], 77)];
    let of = |n: usize| {
        vec![ChunkAlignment { alignments: Vec::new(), text_token_probs: vec![1.0_f32; n] }]
    };
    assert!(!is_covered(&chunks, &of(1)));
    assert!(is_covered(&chunks, &of(2)));
    assert!(is_covered(&chunks, &Vec::<ChunkAlignment<f32>>::new()));
}

#[test]
fn every_sub_segment_of_a_batch_gets_a_list() {
    let chunks = vec![chunk(&[0, 1], 50), chunk(&[], 10)];
    let results = vec![
        ChunkAlignment {
            alignments: path(&[(0, 0), (1, 10), (2, 20)]),
            text_token_probs: vec![1.0_f32; 2],
        },
        ChunkAlignment { alignments: Vec::new(), text_token_probs: Vec::new() },
    ];
    let lists = align_batch(&tokenizer(), &chunks, &results, &rules()).unwrap();
    assert_eq!(lists.len(), 2);
    assert_eq!(lists[0].len(), 2);
    assert_eq!(lists[0][0][0].text, "Das");
    assert_eq!(lists[0][1][0].text, "ist");
    assert!(lists[1].is_empty());
}
