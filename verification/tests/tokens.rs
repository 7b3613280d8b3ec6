use whisper_ct2::time::units_per_second;
use whisper_ct2::tokens::{
    keep_first, keep_last, language_code, narrow_ids, prompt_budget, prompt_text,
    split_sub_segments, text_from, token_time, tokens_from, PromptParts, SubSegment,
    NO_TIMESTAMPS, SOT, STARTOFPREV, TRANSCRIBE,
};

const BEGIN: u32 = 50_000;
const CHUNK_S: f64 = 30.0;
const RATE: usize = 16_000;

fn ts(offset: u32) -> u32 {
    BEGIN + offset
}

fn split(ids: &[u32]) -> Vec<SubSegment> {
    split_sub_segments(ids, BEGIN, RATE, 30 * units_per_second(RATE))
}

fn seconds(t: u128) -> f64 {
    t as f64 / units_per_second(RATE) as f64
}

#[test]
fn split_sub_segments_returns_empty_for_no_tokens() {
    assert!(split(&[]).is_empty());
}

#[test]
fn split_sub_segments_discards_preamble_before_first_timestamp() {
    let out = split(&[10, 20, ts(0), 100, 101, ts(100)]);
    assert_eq!(out.len(), 1);
    assert_eq!(out[0].text_token_ids, vec![100, 101]);
    assert!((seconds(out[0].start_in_chunk) - 0.0).abs() < 1e-6);
    assert!((seconds(out[0].end_in_chunk) - 2.0).abs() < 1e-6);
}

#[test]
fn split_sub_segments_handles_back_to_back_pairs() {
    let out = split(&[ts(0), 100, ts(50), ts(50), 200, ts(150)]);
    assert_eq!(out.len(), 2);
    assert_eq!(out[0].text_token_ids, vec![100]);
    assert!((seconds(out[0].end_in_chunk) - 1.0).abs() < 1e-6);
    assert_eq!(out[1].text_token_ids, vec![200]);
    assert!((seconds(out[1].start_in_chunk) - 1.0).abs() < 1e-6);
    assert!((seconds(out[1].end_in_chunk) - 3.0).abs() < 1e-6);
}

#[test]
fn split_sub_segments_skips_pairs_with_empty_text() {
    let out = split(&[ts(0), ts(50)]);
    assert!(out.is_empty());
}

#[test]
fn split_sub_segments_flushes_all_text_when_no_timestamps_emitted() {
    let out = split(&[100, 101, 102, 103]);
    assert_eq!(out.len(), 1);
    assert_eq!(out[0].text_token_ids, vec![100, 101, 102, 103]);
    assert!((seconds(out[0].start_in_chunk) - 0.0).abs() < 1e-6);
    assert!((seconds(out[0].end_in_chunk) - CHUNK_S).abs() < 1e-6);
}

#[test]
fn split_sub_segments_flushes_text_after_unclosed_start_timestamp() {
    let out = split(&[ts(0), 100, 101, 102]);
    assert_eq!(out.len(), 1);
    assert_eq!(out[0].text_token_ids, vec![100, 101, 102]);
    assert!((seconds(out[0].start_in_chunk) - 0.0).abs() < 1e-6);
    assert!((seconds(out[0].end_in_chunk) - CHUNK_S).abs() < 1e-6);
}

#[test]
fn split_sub_segments_flushes_trailing_text_after_closed_pair() {
    let out = split(&[ts(0), 100, ts(50), ts(60), 200, 201]);
    assert_eq!(out.len(), 2);
    assert_eq!(out[0].text_token_ids, vec![100]);
    assert_eq!(out[1].text_token_ids, vec![200, 201]);
    assert!((seconds(out[1].start_in_chunk) - 1.2).abs() < 1e-6);
    assert!((seconds(out[1].end_in_chunk) - CHUNK_S).abs() < 1e-6);
}

#[test]
fn split_sub_segments_drops_lone_dangling_start_timestamp() {
    let out = split(&[ts(0)]);
    assert!(out.is_empty());
}

#[test]
fn timestamp_seconds_uses_two_centisecond_step() {
    assert!((seconds(token_time(BEGIN, BEGIN, RATE)) - 0.0).abs() < 1e-6);
    assert!((seconds(token_time(BEGIN + 1, BEGIN, RATE)) - 0.02).abs() < 1e-6);
    assert!((seconds(token_time(BEGIN + 1500, BEGIN, RATE)) - 30.0).abs() < 1e-4);
}

#[test]
fn timestamps_past_the_audio_are_held_back_in_closed_pairs() {
    let two_seconds = 2 * units_per_second(RATE);
    let out = split_sub_segments(&[ts(50), 7, ts(400), ts(500), 8, ts(600)], BEGIN, RATE, two_seconds);
    let spans: Vec<(u128, u128)> = out.iter().map(|s| (s.start_in_chunk, s.end_in_chunk)).collect();
    let one_second = units_per_second(RATE);
    assert_eq!(spans, vec![(one_second, two_seconds), (two_seconds, two_seconds)]);
}

#[test]
fn text_between_lone_timestamps_is_a_piece_of_its_own() {
    let out = split(&[1, ts(0), 100, ts(50), 200, ts(60), 300, ts(80), 400, 401]);
    let pieces: Vec<(u128, &[u32], u128)> = out
        .iter()
        .map(|s| (s.start_in_chunk, s.text_token_ids.as_slice(), s.end_in_chunk))
        .collect();
    let step = 2 * RATE as u128;
    assert_eq!(
        pieces,
        vec![
            (0, &[100][..], 50 * step),
            (50 * step, &[200][..], 60 * step),
            (60 * step, &[300][..], 80 * step),
            (80 * step, &[400, 401][..], 30 * units_per_second(RATE)),
        ]
    );
}

#[test]
fn marked_text_is_read_back() {
    let texts: [(u32, &[u32], u32); 3] = [(0, &[1, 2], 40), (40, &[3], 55), (70, &[4, 5, 6], 1500)];
    let mut ids: Vec<u32> = Vec::new();
    for (start, text, end) in texts {
        ids.push(ts(start));
        ids.extend_from_slice(text);
        ids.push(ts(end));
    }
    let out = split(&ids);
    assert_eq!(out.len(), 3);
    for (piece, (start, text, end)) in out.iter().zip(texts) {
        assert_eq!(piece.text_token_ids, text);
        assert_eq!(piece.start_in_chunk, u128::from(start) * 2 * RATE as u128);
        assert_eq!(piece.end_in_chunk, u128::from(end) * 2 * RATE as u128);
    }
}

fn parts<'a>(
    initial_prompt: &'a [String],
    prefix: &'a [String],
    with_timestamps: bool,
    multilingual: bool,
    lang: &'a str,
) -> PromptParts<'a> {
    PromptParts {
        sot: SOT,
        startofprev: STARTOFPREV,
        language_token: lang,
        transcribe: TRANSCRIBE,
        no_timestamps: NO_TIMESTAMPS,
        initial_prompt,
        prefix,
        with_timestamps,
        multilingual,
    }
}

#[test]
fn prompt_english_only_no_timestamps() {
    let p = parts(&[], &[], false, false, "<|en|>");
    assert_eq!(p.build(), vec![SOT.to_owned(), NO_TIMESTAMPS.to_owned()]);
}

#[test]
fn prompt_multilingual_with_timestamps() {
    let p = parts(&[], &[], true, true, "<|de|>");
    assert_eq!(
        p.build(),
        vec![SOT.to_owned(), "<|de|>".to_owned(), TRANSCRIBE.to_owned()]
    );
}

#[test]
fn prompt_with_initial_prompt_prepends_startofprev() {
    let initial = vec!["hello".to_owned(), "world".to_owned()];
    let p = parts(&initial, &[], false, true, "<|en|>");
    assert_eq!(
        p.build(),
        vec![
            STARTOFPREV.to_owned(),
            "hello".to_owned(),
            "world".to_owned(),
            SOT.to_owned(),
            "<|en|>".to_owned(),
            TRANSCRIBE.to_owned(),
            NO_TIMESTAMPS.to_owned(),
        ]
    );
}

#[test]
fn prompt_with_prefix_appended_after_sot_block() {
    let prefix = vec!["The".to_owned(), "topic".to_owned()];
    let p = parts(&[], &prefix, false, true, "<|en|>");
    assert_eq!(
        p.build(),
        vec![
            SOT.to_owned(),
            "<|en|>".to_owned(),
            TRANSCRIBE.to_owned(),
            NO_TIMESTAMPS.to_owned(),
            "The".to_owned(),
            "topic".to_owned(),
        ]
    );
}

#[test]
fn the_prompt_budget_is_half_the_context_but_one() {
    assert_eq!(prompt_budget(448), 223);
    assert_eq!(prompt_budget(10_000), 223);
    assert_eq!(prompt_budget(100), 49);
    assert_eq!(prompt_budget(3), 0);
    assert_eq!(prompt_budget(1), 0);
    assert_eq!(prompt_budget(0), 0);
}

#[test]
fn an_initial_prompt_keeps_its_end_and_a_prefix_its_start() {
    let tokens = || vec!["a".to_owned(), "b".to_owned(), "c".to_owned()];
    assert_eq!(keep_last(tokens(), 2), vec!["b".to_owned(), "c".to_owned()]);
    assert_eq!(keep_first(tokens(), 2), vec!["a".to_owned(), "b".to_owned()]);
    assert_eq!(keep_last(tokens(), 0), Vec::<String>::new());
    assert_eq!(keep_first(tokens(), 3).len(), 3);
    assert_eq!(keep_last(tokens(), 9).len(), 3);
}

#[test]
fn prompt_text_is_trimmed_and_led_by_one_space() {
    assert_eq!(prompt_text("  Hello you \n"), Some(" Hello you".to_owned()));
    assert_eq!(prompt_text(" \t\u{a0}"), None);
    assert_eq!(prompt_text(""), None);
}

#[test]
fn language_codes_lose_their_brackets() {
    assert_eq!(language_code("<|en|>"), "en");
    assert_eq!(language_code("<|<|en|>|>"), "en");
    assert_eq!(language_code("en"), "en");
    assert_eq!(language_code("<||>"), "");
    assert_eq!(language_code("<|"), "");
    assert_eq!(language_code("<|>"), ">");
}

#[test]
fn complaints_of_the_tokenizer_are_passed_on() {
    assert_eq!(text_from(Ok(" hi".to_owned())).unwrap(), " hi");
    let err = text_from(Err("bad id".to_owned())).unwrap_err();
    assert_eq!(err.message(), "failed to decode tokens: bad id");
    assert_eq!(tokens_from(Ok(vec!["a".to_owned()])).unwrap(), vec!["a".to_owned()]);
    let err = tokens_from(Err("bad text".to_owned())).unwrap_err();
    assert_eq!(err.message(), "failed to tokenize prompt text: bad text");
}

#[test]
fn wide_token_ids_are_refused() {
    assert_eq!(narrow_ids(&[0, 7, u32::MAX as usize]).unwrap(), vec![0, 7, u32::MAX]);
    let err = narrow_ids(&[1, 4_294_967_296, 4_294_967_297]).unwrap_err();
    assert_eq!(err.message(), "token id 4294967296 exceeds u32");
}
