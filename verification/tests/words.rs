use whisper_ct2::align::PreWord;
use whisper_ct2::words::{
    clamp_sentence_boundaries, compute_max_duration_frames, median_cap_frames, merge_punctuations,
};

const HOP: usize = 160;
const RATE: usize = 16_000;

fn make_pre_word(start: u64, end: u64, text: &str) -> PreWord<f32> {
    PreWord {
        text: text.to_owned(),
        tokens: vec![1],
        probs: vec![1.0],
        start_frame: start,
        end_frame: end,
        subsegment_idx: 0,
    }
}

fn numbered(start: u64, end: u64, text: &str, token: u32, sub: usize) -> PreWord<u8> {
    PreWord {
        text: text.to_owned(),
        tokens: vec![token],
        probs: vec![token as u8],
        start_frame: start,
        end_frame: end,
        subsegment_idx: sub,
    }
}

#[test]
fn compute_max_duration_frames_returns_2x_median() {
    let words = vec![
        make_pre_word(0, 10, "a"),
        make_pre_word(0, 20, "b"),
        make_pre_word(0, 30, "c"),
    ];
    assert_eq!(compute_max_duration_frames(&words, HOP, RATE), 40);
}

#[test]
fn compute_max_duration_frames_caps_at_median_duration_cap() {
    let words = vec![
        make_pre_word(0, 80, "a"),
        make_pre_word(0, 100, "b"),
        make_pre_word(0, 120, "c"),
    ];
    assert_eq!(compute_max_duration_frames(&words, HOP, RATE), 70);
}

#[test]
fn compute_max_duration_frames_returns_zero_with_no_nonzero_durations() {
    let words = vec![make_pre_word(5, 5, "a"), make_pre_word(7, 7, "b")];
    assert_eq!(compute_max_duration_frames(&words, HOP, RATE), 0);
}

#[test]
fn an_even_number_of_words_has_the_mean_of_the_middle_ones_as_median() {
    let words = vec![
        make_pre_word(0, 13, "a"),
        make_pre_word(0, 4, "b"),
        make_pre_word(9, 9, "c"),
        make_pre_word(0, 10, "d"),
        make_pre_word(0, 30, "e"),
    ];
    // The lasting words take 4, 10, 13 and 30 frames.
    assert_eq!(compute_max_duration_frames(&words, HOP, RATE), 23);
}

#[test]
fn the_median_cap_is_rounded_to_whole_frames() {
    assert_eq!(median_cap_frames(160, 16_000), 35);
    // 0.7 s are 17.5 frames of 40 ms.
    assert_eq!(median_cap_frames(320, 16_000), 18);
    assert_eq!(median_cap_frames(1, usize::MAX), 6_456_360_425_798_343_065);
}

#[test]
fn clamp_sentence_boundaries_caps_word_after_sentence_end() {
    let mut words = vec![make_pre_word(0, 10, "."), make_pre_word(10, 200, "bar")];
    clamp_sentence_boundaries(&mut words, 40);
    assert_eq!(words[1].start_frame, 160);
    assert_eq!(words[1].end_frame, 200);
}

#[test]
fn clamp_sentence_boundaries_caps_sentence_end_word_itself() {
    let mut words = vec![make_pre_word(0, 50, "foo"), make_pre_word(50, 250, ".")];
    clamp_sentence_boundaries(&mut words, 40);
    assert_eq!(words[1].start_frame, 50);
    assert_eq!(words[1].end_frame, 90);
}

#[test]
fn clamp_sentence_boundaries_is_a_noop_with_zero_threshold() {
    let mut words = vec![make_pre_word(0, 10, "foo."), make_pre_word(10, 200, "bar")];
    clamp_sentence_boundaries(&mut words, 0);
    assert_eq!(words[1].start_frame, 10);
    assert_eq!(words[1].end_frame, 200);
}

#[test]
fn clamp_leaves_the_first_word_and_words_inside_sentences_alone() {
    let mut words = vec![
        make_pre_word(0, 300, "\u{3002}"),
        make_pre_word(300, 340, "a"),
        make_pre_word(340, 900, "b"),
    ];
    clamp_sentence_boundaries(&mut words, 40);
    let spans: Vec<(u64, u64)> = words.iter().map(|w| (w.start_frame, w.end_frame)).collect();
    assert_eq!(spans, vec![(0, 300), (300, 340), (340, 900)]);
}

#[test]
fn every_sentence_end_mark_clamps() {
    for mark in [".", "\u{3002}", "!", "\u{FF01}", "?", " \u{FF1F} "] {
        let mut words = vec![make_pre_word(0, 5, "x"), make_pre_word(5, 100, mark)];
        clamp_sentence_boundaries(&mut words, 20);
        assert_eq!(words[1].end_frame, 25, "{mark}");
    }
}

#[test]
fn closing_marks_join_the_word_before_and_keep_its_times() {
    let mut words = vec![
        numbered(0, 10, " so", 1, 0),
        numbered(10, 40, ",", 2, 0),
        numbered(40, 50, " he", 3, 0),
        numbered(50, 55, ".", 4, 0),
        numbered(55, 60, "\"", 5, 0),
    ];
    merge_punctuations(&mut words);
    let texts: Vec<&str> = words.iter().map(|w| w.text.as_str()).collect();
    assert_eq!(texts, vec![" so,", " he.\""]);
    assert_eq!((words[0].start_frame, words[0].end_frame), (0, 10));
    assert_eq!((words[1].start_frame, words[1].end_frame), (40, 50));
    assert_eq!(words[1].tokens, vec![3, 4, 5]);
    assert_eq!(words[1].probs, vec![3, 4, 5]);
}

#[test]
fn opening_marks_join_the_word_after_and_keep_its_times() {
    let mut words = vec![
        numbered(0, 5, "He", 1, 0),
        numbered(5, 8, " (", 2, 0),
        numbered(8, 9, " \"", 3, 0),
        numbered(9, 20, "it", 4, 1),
    ];
    merge_punctuations(&mut words);
    let texts: Vec<&str> = words.iter().map(|w| w.text.as_str()).collect();
    assert_eq!(texts, vec!["He", " ( \"it"]);
    assert_eq!((words[1].start_frame, words[1].end_frame), (9, 20));
    assert_eq!(words[1].tokens, vec![2, 3, 4]);
    assert_eq!(words[1].subsegment_idx, 1);
}

#[test]
fn an_opening_mark_at_the_end_stays() {
    let mut words = vec![numbered(0, 5, "a", 1, 0), numbered(5, 8, " (", 2, 0)];
    merge_punctuations(&mut words);
    assert_eq!(words.len(), 2);
    assert_eq!(words[1].text, " (");
}

#[test]
fn merging_drops_words_without_text_but_not_a_single_word() {
    let mut words = vec![numbered(0, 5, "", 1, 0), numbered(5, 8, "a", 2, 0)];
    merge_punctuations(&mut words);
    assert_eq!(words.len(), 1);
    assert_eq!(words[0].text, "a");

    let mut single = vec![numbered(0, 5, "", 1, 0)];
    merge_punctuations(&mut single);
    assert_eq!(single.len(), 1);
}

#[test]
fn merging_keeps_the_text_of_all_words() {
    let texts = [" -", "Ja", ",", " \u{201C}", "so", "!", "\u{201D}", " (", ")", " ."];
    let mut words: Vec<PreWord<u8>> = texts
        .iter()
        .enumerate()
        .map(|(i, t)| numbered(i as u64, i as u64 + 1, t, i as u32, 0))
        .collect();
    merge_punctuations(&mut words);
    let before: String = texts.concat();
    let after: String = words.iter().map(|w| w.text.as_str()).collect();
    assert_eq!(after, before);
    let tokens: Vec<u32> = words.iter().flat_map(|w| w.tokens.clone()).collect();
    assert_eq!(tokens, (0..10).collect::<Vec<u32>>());
}
