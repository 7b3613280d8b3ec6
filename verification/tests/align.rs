use tokenizers::decoders::byte_level::ByteLevel;
use tokenizers::models::bpe::{Vocab, BPE};
use tokenizers::{DecoderWrapper, Tokenizer};

use whisper_ct2::align::{
    group_pre_words, group_runs, is_dangling, is_isolated_punct, is_single_char_member,
    split_tokens_on_unicode, splits_words_on_unicode_only, token_first_frames, Aligned, PreWord,
    Span, SubWord, TokenAlignment,
};
use whisper_ct2::errors::kind_from_chain;
use whisper_ct2::tokenizer::TextTokenizer;

fn step(token_x: i64, frame_x: i64) -> TokenAlignment {
    TokenAlignment { token_x, frame_x }
}

/// A byte-level tokenizer: vocabulary surfaces are in the byte alphabet
/// (`Ġ` is a space, `Ã¶` the two bytes of `ö`), which the decoder maps back.
fn byte_level_tokenizer(entries: &[(&str, u32)]) -> TextTokenizer {
    let vocab: Vocab = entries
        .iter()
        .map(|(surface, id)| ((*surface).to_owned(), *id))
        .collect();
    let bpe = BPE::builder()
        .vocab_and_merges(vocab, Vec::new())
        .build()
        .expect("valid test vocab");
    let mut tokenizer = Tokenizer::new(bpe);
    tokenizer.with_decoder(Some(DecoderWrapper::ByteLevel(ByteLevel::default())));
    TextTokenizer::new(tokenizer).expect("admitted")
}

/// `"Das ist schön, oder?"` in the byte alphabet. Ids 6 and 7 are the two
/// bytes of `ö` on their own.
fn german_vocab() -> Vec<(&'static str, u32)> {
    vec![
        ("Das", 0),
        ("\u{120}ist", 1),
        ("\u{120}sch\u{c3}\u{b6}n", 2),
        (",", 3),
        ("\u{120}oder", 4),
        ("?", 5),
        ("\u{c3}", 6),
        ("\u{b6}", 7),
        ("\u{120}f", 8),
        ("\u{ef}\u{bf}\u{bd}", 9),
    ]
}

fn group(
    tokenizer: &TextTokenizer,
    token_ids: &[usize],
    eot_frame: Option<u64>,
    unicode_only: bool,
) -> Vec<PreWord<f32>> {
    let probs = vec![1.0_f32; token_ids.len()];
    let frames: Vec<u64> = (0..token_ids.len() as u64).map(|i| i * 10).collect();
    let span = Span { start: 0, end: token_ids.len() };
    let aligned = Aligned { ids: token_ids, probs: &probs, frames: &frames };
    group_pre_words(tokenizer, &aligned, &[span], eot_frame, unicode_only)
        .expect("grouping succeeds")
}

fn texts(words: &[PreWord<f32>]) -> Vec<&str> {
    words.iter().map(|w| w.text.as_str()).collect()
}

#[test]
fn token_first_frames_fills_missing_with_previous() {
    let alignments = vec![step(0, 5), step(2, 30)];
    let (frames, eot_frame) = token_first_frames(&alignments, 4);
    assert_eq!(frames, vec![5, 5, 30, 30]);
    assert_eq!(eot_frame, None);
}

#[test]
fn token_first_frames_ignores_out_of_range_token_x() {
    let alignments = vec![step(100, 7)];
    let (frames, eot_frame) = token_first_frames(&alignments, 3);
    assert_eq!(frames, vec![0, 0, 0]);
    assert_eq!(eot_frame, None);
}

#[test]
fn token_first_frames_captures_eot_row_entry() {
    let alignments = vec![step(0, 5), step(1, 9), step(2, 30), step(2, 45)];
    let (frames, eot_frame) = token_first_frames(&alignments, 2);
    assert_eq!(frames, vec![5, 9]);
    assert_eq!(eot_frame, Some(30));
}

#[test]
fn token_first_frames_takes_the_least_frame_of_the_eot_row() {
    let alignments = vec![step(1, 45), step(1, 30), step(1, 60)];
    let (_, eot_frame) = token_first_frames(&alignments, 1);
    assert_eq!(eot_frame, Some(30));
}

#[test]
fn token_first_frames_counts_negative_frames_as_the_first() {
    let alignments = vec![step(-1, 9), step(0, -4), step(0, 8), step(1, 12)];
    let (frames, eot_frame) = token_first_frames(&alignments, 2);
    assert_eq!(frames, vec![0, 12]);
    assert_eq!(eot_frame, None);
}

#[test]
fn is_isolated_punct_matches_single_ascii_punct() {
    assert!(is_isolated_punct(","));
    assert!(is_isolated_punct(" ."));
    assert!(!is_isolated_punct("hello"));
    assert!(!is_isolated_punct(",,"));
    assert!(!is_isolated_punct(""));
}

#[test]
fn isolated_punctuation_is_ascii_punctuation() {
    for code in 0_u32..0x250 {
        let c = char::from_u32(code).expect("no surrogates here");
        let expected = c.is_ascii_punctuation();
        assert_eq!(is_isolated_punct(&c.to_string()), expected, "{code:#x}");
    }
    assert!(!is_isolated_punct("\u{3002}"));
}

#[test]
fn single_char_members_are_found_between_white_space() {
    assert!(is_single_char_member(" ( ", "([{"));
    assert!(!is_single_char_member("((", "([{"));
    assert!(!is_single_char_member(")", "([{"));
    assert!(!is_single_char_member("  ", "([{ "));
}

#[test]
fn splits_words_on_unicode_only_for_spaceless_languages() {
    assert!(splits_words_on_unicode_only("<|zh|>"));
    assert!(splits_words_on_unicode_only("<|ja|>"));
    assert!(!splits_words_on_unicode_only("<|en|>"));
    assert!(!splits_words_on_unicode_only("<|de|>"));
}

#[test]
fn all_spaceless_languages_are_known() {
    for code in ["zh", "ja", "th", "lo", "my", "yue"] {
        assert!(splits_words_on_unicode_only(&format!("<|{code}|>")), "{code}");
        assert!(splits_words_on_unicode_only(code), "{code}");
    }
    assert!(!splits_words_on_unicode_only("<|zhx|>"));
}

#[test]
fn a_replacement_char_dangles_unless_the_whole_text_has_it_there() {
    let full: Vec<char> = "a\u{FFFD}b".chars().collect();
    assert!(!is_dangling("\u{FFFD}", &full, 1));
    assert!(is_dangling("\u{FFFD}", &full, 0));
    assert!(is_dangling("\u{FFFD}", &full, 3));
    assert!(!is_dangling("b", &full, 0));
}

#[test]
fn runs_keep_characters_whole() {
    let tokenizer = byte_level_tokenizer(&german_vocab());
    let runs = split_tokens_on_unicode(&tokenizer, &[0, 8, 6, 7, 1], 1, 5).expect("runs");
    let found: Vec<(&str, usize, usize)> = runs
        .iter()
        .map(|r| (r.text.as_str(), r.start, r.end))
        .collect();
    assert_eq!(found, vec![(" f", 1, 2), ("ö", 2, 4), (" ist", 4, 5)]);
}

#[test]
fn a_token_id_that_is_too_wide_is_an_error() {
    let tokenizer = byte_level_tokenizer(&german_vocab());
    let wide = u32::MAX as usize + 1;
    let err = split_tokens_on_unicode(&tokenizer, &[0, wide], 0, 2).expect_err("too wide");
    assert_eq!(err.message(), "token id 4294967296 exceeds u32");
    assert_eq!(kind_from_chain(&err), None);
}

#[test]
fn group_pre_words_decodes_byte_level_bpe_to_real_text() {
    let tokenizer = byte_level_tokenizer(&german_vocab());
    let words = group(&tokenizer, &[0, 1, 2, 3, 4, 5], Some(60), false);
    assert_eq!(texts(&words), vec!["Das", " ist", " schön", ",", " oder", "?"]);
}

#[test]
fn group_pre_words_joins_codepoints_split_across_tokens() {
    let tokenizer = byte_level_tokenizer(&german_vocab());
    let words = group(&tokenizer, &[8, 6, 7], Some(40), false);
    assert_eq!(words.len(), 1);
    assert_eq!(words[0].text, " fö");
    assert_eq!(words[0].tokens, vec![8, 6, 7]);
    assert_eq!(words[0].probs.len(), 3);
}

#[test]
fn group_pre_words_keeps_genuine_replacement_chars() {
    let tokenizer = byte_level_tokenizer(&german_vocab());
    let words = group(&tokenizer, &[9, 1], Some(30), false);
    assert_eq!(texts(&words), vec!["\u{FFFD}", " ist"]);
}

#[test]
fn group_pre_words_flushes_trailing_incomplete_bytes() {
    let tokenizer = byte_level_tokenizer(&german_vocab());
    let words = group(&tokenizer, &[0, 6], Some(30), false);
    assert_eq!(words.len(), 1);
    assert_eq!(words[0].text, "Das\u{FFFD}");
}

#[test]
fn group_pre_words_unicode_only_makes_every_run_a_word() {
    let tokenizer = byte_level_tokenizer(&german_vocab());
    let words = group(&tokenizer, &[0, 0], Some(30), true);
    assert_eq!(texts(&words), vec!["Das", "Das"]);
}

#[test]
fn group_pre_words_last_word_ends_at_eot_frame() {
    let tokenizer = byte_level_tokenizer(&german_vocab());
    let words = group(&tokenizer, &[0, 1], Some(42), false);
    assert_eq!(words.len(), 2);
    assert_eq!(words[1].start_frame, 10);
    assert_eq!(words[1].end_frame, 42);
}

#[test]
fn group_pre_words_without_eot_falls_back_to_one_frame() {
    let tokenizer = byte_level_tokenizer(&german_vocab());
    let words = group(&tokenizer, &[0, 1], None, false);
    assert_eq!(words[1].start_frame, 10);
    assert_eq!(words[1].end_frame, 11);
}

#[test]
fn words_never_cross_a_sub_segment() {
    let tokenizer = byte_level_tokenizer(&german_vocab());
    let ids = [8_usize, 0, 0];
    let probs = [0.5_f32, 0.25, 0.75];
    let frames = [3_u64, 9, 4];
    let aligned = Aligned { ids: &ids, probs: &probs, frames: &frames };
    let spans = [Span { start: 0, end: 2 }, Span { start: 2, end: 3 }];
    let words = group_pre_words(&tokenizer, &aligned, &spans, Some(2), false).expect("words");
    assert_eq!(texts(&words), vec![" fDas", "Das"]);
    assert_eq!(words[0].tokens, vec![8, 0]);
    assert_eq!(words[0].probs, vec![0.5, 0.25]);
    assert_eq!((words[0].start_frame, words[0].end_frame), (3, 4));
    assert_eq!((words[1].start_frame, words[1].end_frame), (4, 4));
    assert_eq!((words[0].subsegment_idx, words[1].subsegment_idx), (0, 1));
}

#[test]
fn grouping_keeps_every_token_and_every_character() {
    let tokenizer = byte_level_tokenizer(&german_vocab());
    let ids = [8_usize, 6, 7, 3, 0, 4, 5];
    let words = group(&tokenizer, &ids, Some(90), false);
    let tokens: Vec<u32> = words.iter().flat_map(|w| w.tokens.clone()).collect();
    assert_eq!(tokens, vec![8, 6, 7, 3, 0, 4, 5]);
    let text: String = words.iter().map(|w| w.text.as_str()).collect();
    assert_eq!(text, " fö,Das oder?");
    for pair in words.windows(2) {
        assert_eq!(pair[0].end_frame, pair[1].start_frame);
    }
}

#[test]
fn runs_are_grouped_into_words_on_spaces_and_marks() {
    let ids = [1, 2, 3, 4];
    let probs = [10_u8, 20, 30, 40];
    let frames = [0, 5, 9, 12];
    let aligned = Aligned { ids: &ids, probs: &probs, frames: &frames };
    let run = |text: &str, start: usize, end: usize| SubWord { text: text.to_owned(), start, end };
    let runs = vec![run("in", 0, 1), run("ter", 1, 2), run(",", 2, 3), run(" na", 3, 4)];

    let mut words = Vec::new();
    group_runs(&aligned, &runs, 6, false, &mut words);
    let texts: Vec<&str> = words.iter().map(|w| w.text.as_str()).collect();
    assert_eq!(texts, vec!["inter", ",", " na"]);
    assert_eq!(words[0].tokens, vec![1, 2]);
    assert_eq!(words[0].probs, vec![10, 20]);
    assert_eq!((words[0].start_frame, words[1].start_frame, words[2].start_frame), (0, 9, 12));
    assert!(words.iter().all(|w| w.subsegment_idx == 6));

    group_runs(&aligned, &runs, 7, true, &mut words);
    assert_eq!(words.len(), 3 + 4);
    assert_eq!(words[4].text, "ter");
    assert_eq!(words[4].subsegment_idx, 7);
}
