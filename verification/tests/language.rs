use tokenizers::models::bpe::{Vocab, BPE};
use tokenizers::{AddedToken, Tokenizer};

use whisper_ct2::errors::kind_from_chain;
use whisper_ct2::language::{
    build_align_start_sequence, detected_language, open_transcript, pin_language, plan_languages,
    reject_non_english_on_en_checkpoint, uniform_align_language, LanguagePlan,
};
use whisper_ct2::tokenizer::TextTokenizer;
use whisper_ct2::tokens::{language_token, token_id, SpecialTokens};

fn tokenizer(tokens: &[&str]) -> TextTokenizer {
    let vocab: Vocab = [("a".to_owned(), 0_u32)].into_iter().collect();
    let bpe = BPE::builder()
        .vocab_and_merges(vocab, Vec::new())
        .build()
        .expect("valid test vocab");
    let mut tokenizer = Tokenizer::new(bpe);
    let added: Vec<AddedToken> = tokens
        .iter()
        .map(|t| AddedToken::from((*t).to_owned(), true))
        .collect();
    tokenizer.add_special_tokens(&added);
    TextTokenizer::new(tokenizer).expect("admitted")
}

fn whisper() -> TextTokenizer {
    tokenizer(&[
        "<|startoftranscript|>",
        "<|en|>",
        "<|de|>",
        "<|transcribe|>",
        "<|startofprev|>",
        "<|notimestamps|>",
    ])
}

#[test]
fn uniform_align_language_passes_through_matching_batch() {
    let langs = vec!["<|en|>".to_owned(), "<|en|>".to_owned()];
    assert_eq!(uniform_align_language(&langs).unwrap(), "<|en|>");
}

#[test]
fn uniform_align_language_rejects_mixed_languages_as_invalid_request() {
    let langs = vec!["<|en|>".to_owned(), "<|de|>".to_owned()];
    let err = uniform_align_language(&langs).unwrap_err();
    assert_eq!(kind_from_chain(&err), Some("invalid_request"));
    let msg = err.message();
    assert!(msg.contains("word_timestamps"), "got: {msg}");
    assert!(
        msg.contains("<|en|>") && msg.contains("<|de|>"),
        "got: {msg}"
    );
}

#[test]
fn mixed_languages_are_listed_in_the_message() {
    let langs = vec!["<|en|>".to_owned(), "<|\"|>".to_owned()];
    let err = uniform_align_language(&langs).unwrap_err();
    assert_eq!(
        err.message(),
        format!(
            "word_timestamps requires every audio in a batch to share the same resolved \
             language; got {langs:?}. Pin :language or split the batch."
        )
    );
}

#[test]
fn reject_non_english_on_en_checkpoint_allows_en() {
    assert!(reject_non_english_on_en_checkpoint(false, "en").is_ok());
}

#[test]
fn reject_non_english_on_en_checkpoint_allows_anything_on_multilingual() {
    assert!(reject_non_english_on_en_checkpoint(true, "de").is_ok());
    assert!(reject_non_english_on_en_checkpoint(true, "fr").is_ok());
}

#[test]
fn reject_non_english_on_en_checkpoint_rejects_non_en_as_invalid_request() {
    let err = reject_non_english_on_en_checkpoint(false, "de").unwrap_err();
    assert_eq!(kind_from_chain(&err), Some("invalid_request"));
    let msg = err.message();
    assert!(msg.contains("English-only"), "got: {msg}");
    assert!(msg.contains("\"de\""), "got: {msg}");
}

#[test]
fn a_refused_language_is_quoted_with_escapes() {
    let err = reject_non_english_on_en_checkpoint(false, "d\"e\n").unwrap_err();
    assert!(err.message().starts_with("language \"d\\\"e\\n\" requested"));
}

#[test]
fn uniform_align_language_empty_batch_is_runtime_error() {
    let langs: Vec<String> = Vec::new();
    let err = uniform_align_language(&langs).unwrap_err();
    assert_eq!(kind_from_chain(&err), Some("runtime_error"));
}

#[test]
fn special_tokens_are_looked_up_and_timestamps_follow() {
    let specials = SpecialTokens::resolve(&whisper()).expect("all there");
    assert_eq!(specials.sot, 1);
    assert_eq!(specials.transcribe, 4);
    assert_eq!(specials.no_timestamps, 6);
    assert_eq!(specials.timestamp_begin, 7);
}

#[test]
fn a_missing_special_token_fails_the_lookup() {
    let all = [
        "<|notimestamps|>",
        "<|startofprev|>",
        "<|startoftranscript|>",
        "<|transcribe|>",
    ];
    for missing in all {
        let rest: Vec<&str> = all.into_iter().filter(|t| *t != missing).collect();
        let err = SpecialTokens::resolve(&tokenizer(&rest)).expect_err("one is missing");
        assert_eq!(
            err.message(),
            format!("special token {missing} missing from tokenizer vocab")
        );
    }
    let err = SpecialTokens::resolve(&tokenizer(&[])).expect_err("all are missing");
    assert!(err.message().contains("<|notimestamps|>"));
}

#[test]
fn language_tokens_are_checked_against_the_vocabulary() {
    let tokenizer = whisper();
    assert_eq!(language_token(&tokenizer, "de").unwrap(), "<|de|>");
    let err = language_token(&tokenizer, "xx").unwrap_err();
    assert_eq!(err.message(), "language token <|xx|> not in vocab");
    assert_eq!(token_id(&tokenizer, "<|de|>").unwrap(), 3);
    let err = token_id(&tokenizer, "<|xx|>").unwrap_err();
    assert_eq!(err.message(), "token <|xx|> missing from tokenizer vocab");
}

#[test]
fn a_pinned_language_holds_for_every_audio() {
    let plan = plan_languages(&whisper(), &Some("de".to_owned()), true, 2).unwrap();
    match plan {
        LanguagePlan::Known(list) => assert_eq!(list, vec!["<|de|>", "<|de|>"]),
        LanguagePlan::Detect => panic!("pinned"),
    }
}

#[test]
fn an_english_checkpoint_needs_no_detection() {
    let plan = plan_languages(&whisper(), &None, false, 3).unwrap();
    match plan {
        LanguagePlan::Known(list) => assert_eq!(list, vec!["<|en|>"; 3]),
        LanguagePlan::Detect => panic!("English only"),
    }
    assert!(matches!(
        plan_languages(&whisper(), &None, true, 3).unwrap(),
        LanguagePlan::Detect
    ));
}

#[test]
fn an_unknown_language_is_an_invalid_request() {
    let err = plan_languages(&whisper(), &Some("xx".to_owned()), true, 1).unwrap_err();
    assert_eq!(kind_from_chain(&err), Some("invalid_request"));
    assert_eq!(err.message(), "invalid language code: xx");
    let err = plan_languages(&whisper(), &Some("xx".to_owned()), false, 1).unwrap_err();
    assert!(err.message().contains("English-only"));
}

#[test]
fn the_best_candidate_is_detected() {
    let found = vec![vec!["<|de|>".to_owned(), "<|en|>".to_owned()], Vec::new()];
    assert_eq!(detected_language(found).unwrap(), "<|de|>");
    for none in [Vec::new(), vec![Vec::new()]] {
        let err = detected_language(none).unwrap_err();
        assert_eq!(err.message(), "detect_language returned no candidates");
        assert_eq!(kind_from_chain(&err), None);
    }
}

#[test]
fn alignment_starts_as_generation_did() {
    let tokenizer = whisper();
    let specials = SpecialTokens::resolve(&tokenizer).unwrap();
    let german = vec!["<|de|>".to_owned()];
    let english = build_align_start_sequence(&tokenizer, &specials, false, &german).unwrap();
    assert_eq!(english, vec![1]);
    let multilingual = build_align_start_sequence(&tokenizer, &specials, true, &german).unwrap();
    assert_eq!(multilingual, vec![1, 3, 4]);
    let unknown = vec!["<|xx|>".to_owned()];
    assert!(build_align_start_sequence(&tokenizer, &specials, true, &unknown).is_err());
}

#[test]
fn a_language_is_pinned_where_the_vocabulary_has_its_token() {
    match pin_language("de", true, true, 2).unwrap() {
        LanguagePlan::Known(list) => assert_eq!(list, vec!["<|de|>", "<|de|>"]),
        LanguagePlan::Detect => panic!("pinned"),
    }
    let err = pin_language("de", false, true, 2).unwrap_err();
    assert_eq!(err.message(), "invalid language code: de");
    let err = pin_language("de", true, false, 2).unwrap_err();
    assert!(err.message().contains("English-only"));
}

#[test]
fn special_tokens_come_from_their_ids() {
    let specials = SpecialTokens::from_ids(Some(6), Some(5), Some(1), Some(4)).expect("all there");
    assert_eq!(specials.sot, 1);
    assert_eq!(specials.transcribe, 4);
    assert_eq!(specials.timestamp_begin, 7);
    assert_eq!(open_transcript(&specials, None), vec![1]);
    assert_eq!(open_transcript(&specials, Some(9)), vec![1, 9, 4]);

    let err = SpecialTokens::from_ids(Some(6), None, None, Some(4)).unwrap_err();
    assert_eq!(err.message(), "special token <|startofprev|> missing from tokenizer vocab");
    let err = SpecialTokens::from_ids(Some(u32::MAX), Some(5), Some(1), Some(4)).unwrap_err();
    assert_eq!(err.message(), "no token id is left for timestamps");
}
