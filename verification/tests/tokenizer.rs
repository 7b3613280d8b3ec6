use tokenizers::decoders::bpe::BPEDecoder;
use tokenizers::decoders::byte_fallback::ByteFallback;
use tokenizers::decoders::byte_level::ByteLevel as ByteLevelDecoder;
use tokenizers::decoders::fuse::Fuse;
use tokenizers::decoders::sequence::Sequence as DecoderChain;
use tokenizers::decoders::strip::Strip as StripDecoder;
use tokenizers::models::bpe::{Vocab, BPE};
use tokenizers::normalizers::{
    Lowercase, Prepend, Replace, Sequence as NormalizerChain, Strip, NFC,
};
use tokenizers::pre_tokenizers::byte_level::ByteLevel;
use tokenizers::pre_tokenizers::digits::Digits;
use tokenizers::pre_tokenizers::fixed_length::FixedLength;
use tokenizers::pre_tokenizers::sequence::Sequence as SplitterChain;
use tokenizers::pre_tokenizers::split::{Split, SplitPattern};
use tokenizers::processors::sequence::Sequence as FinisherChain;
use tokenizers::processors::template::TemplateProcessing;
use tokenizers::{
    AddedToken, DecoderWrapper, NormalizerWrapper, PaddingParams, PaddingStrategy,
    PostProcessorWrapper, PreTokenizerWrapper, SplitDelimiterBehavior, Tokenizer,
    TruncationParams,
};

use whisper_ct2::pipeline::{count_occurrences, drop_quoted, template_copies};
use whisper_ct2::tokenizer::TextTokenizer;
use whisper_ct2::tokens::encode_plain;

const SURFACES: [&str; 10] = ["<", "|", ">", "d", "e", "h", "i", "\u{120}", "0", "1"];

fn bpe(dropout: Option<f32>) -> BPE {
    let vocab: Vocab = SURFACES
        .iter()
        .enumerate()
        .map(|(i, s)| ((*s).to_owned(), i as u32))
        .collect();
    let builder = BPE::builder().vocab_and_merges(vocab, Vec::new());
    match dropout {
        Some(p) => builder.dropout(p).build(),
        None => builder.build(),
    }
    .expect("valid test vocab")
}

fn plain() -> Tokenizer {
    let mut tokenizer = Tokenizer::new(bpe(None));
    tokenizer.with_pre_tokenizer(Some(ByteLevel::new(false, true, true)));
    tokenizer.with_decoder(Some(DecoderWrapper::ByteLevel(ByteLevelDecoder::default())));
    tokenizer.add_special_tokens(&[AddedToken::from("<|de|>", true)]);
    tokenizer
}

fn tokens(tokenizer: Tokenizer, text: &str) -> Vec<String> {
    let admitted = TextTokenizer::new(tokenizer).expect("admitted");
    encode_plain(&admitted, text).expect("encodes")
}

fn refusal(tokenizer: Tokenizer) -> String {
    TextTokenizer::new(tokenizer).expect_err("refused").message()
}

const NO_ENCODING: &str = "tokenizer can fail to encode text";
const NO_DECODING: &str = "tokenizer can fail to decode tokens";

#[test]
fn control_tokens_in_a_text_are_ordinary_text() {
    assert_eq!(
        tokens(plain(), " hi<|de|>"),
        vec!["\u{120}", "h", "i", "<", "|", "d", "e", "|", ">"]
    );
    // Outside, the same text holds the control token.
    let found = plain().encode(" hi<|de|>", false).expect("encodes");
    assert_eq!(found.get_tokens(), ["\u{120}", "h", "i", "<|de|>"]);
}

#[test]
fn control_tokens_keep_their_ids_and_stay_out_of_decoded_text() {
    let admitted = TextTokenizer::new(plain()).expect("admitted");
    assert_eq!(admitted.token_to_id("<|de|>"), Some(10));
    assert_eq!(admitted.token_to_id("<|fr|>"), None);
    assert_eq!(admitted.decode(&[10, 7, 5, 6, 10]).expect("decodes"), " hi");
}

#[test]
fn added_words_are_still_found() {
    let mut tokenizer = plain();
    tokenizer.add_tokens(&[AddedToken::from("hihi", false)]);
    assert_eq!(tokens(tokenizer, " hihi"), vec!["\u{120}", "hihi"]);
}

#[test]
fn added_words_must_not_strip_both_ways() {
    let mut tokenizer = plain();
    let before = AddedToken::from(" ", false).lstrip(true);
    let after = AddedToken::from("hihi", false).rstrip(true);
    tokenizer.add_tokens(&[before.clone()]);
    assert!(TextTokenizer::new(tokenizer.clone()).is_ok());
    tokenizer.add_tokens(&[after]);
    assert_eq!(refusal(tokenizer), NO_ENCODING);

    // Special tokens are not looked for, so they may.
    let mut tokenizer = plain();
    let mask = AddedToken::from("<mask>", true).lstrip(true).rstrip(true);
    tokenizer.add_special_tokens(&[mask]);
    assert_eq!(tokens(tokenizer, "hi"), vec!["h", "i"]);
}

#[test]
fn merge_dropout_is_refused_unless_it_is_zero() {
    let mut still = Tokenizer::new(bpe(Some(0.0)));
    still.with_pre_tokenizer(Some(ByteLevel::default()));
    assert_eq!(tokens(still, "hi"), vec!["\u{120}", "h", "i"]);
    assert_eq!(
        refusal(Tokenizer::new(bpe(Some(0.5)))),
        "tokenizer must not drop merges at random"
    );
}

fn decoder(step: DecoderWrapper) -> Tokenizer {
    let mut tokenizer = plain();
    tokenizer.with_decoder(Some(step));
    tokenizer
}

#[test]
fn decoders_are_looked_into() {
    let bpe = || DecoderWrapper::BPE(BPEDecoder::default());
    let strip = |stop: usize| DecoderWrapper::Strip(StripDecoder::new(' ', 1, stop));
    let replace = || DecoderWrapper::Replace(Replace::new("a", "b").expect("pattern"));
    let chain = |steps: Vec<DecoderWrapper>| DecoderWrapper::Sequence(DecoderChain::new(steps));
    let fine = || {
        chain(vec![
            DecoderWrapper::ByteFallback(ByteFallback::new()),
            DecoderWrapper::Fuse(Fuse::new()),
            strip(0),
        ])
    };
    for refused in [bpe(), strip(1), replace(), chain(vec![fine(), chain(vec![replace()])])] {
        assert_eq!(refusal(decoder(refused)), NO_DECODING);
    }
    let admitted = TextTokenizer::new(decoder(chain(vec![fine(), fine()]))).expect("admitted");
    assert_eq!(admitted.decode(&[5, 6]).expect("decodes"), "hi");
    let mut absent = plain();
    absent.with_decoder(None::<DecoderWrapper>);
    let admitted = TextTokenizer::new(absent).expect("admitted");
    assert_eq!(admitted.decode(&[5, 6]).expect("decodes"), "h i");
}

fn normalizer(step: NormalizerWrapper) -> Tokenizer {
    let mut tokenizer = plain();
    tokenizer.with_normalizer(Some(step));
    tokenizer
}

#[test]
fn normalizers_are_looked_into() {
    let replace = || NormalizerWrapper::Replace(Replace::new("a", "b").expect("pattern"));
    let prepend = |text: &str| NormalizerWrapper::Prepend(Prepend::new(text.to_owned()));
    let chain = |steps: Vec<NormalizerWrapper>| {
        NormalizerWrapper::Sequence(NormalizerChain::new(steps))
    };
    let lower = || NormalizerWrapper::Lowercase(Lowercase);
    for refused in [replace(), prepend(""), chain(vec![lower(), chain(vec![replace()])])] {
        assert_eq!(refusal(normalizer(refused)), NO_ENCODING);
    }
    let steps = vec![
        NormalizerWrapper::NFC(NFC),
        NormalizerWrapper::StripNormalizer(Strip::new(true, true)),
        chain(vec![lower(), prepend("e")]),
    ];
    assert_eq!(tokens(normalizer(chain(steps)), " HI "), vec!["e", "h", "i"]);
}

fn splitter(step: PreTokenizerWrapper) -> Tokenizer {
    let mut tokenizer = plain();
    tokenizer.with_pre_tokenizer(Some(step));
    tokenizer
}

#[test]
fn splitters_are_looked_into() {
    let pattern = SplitPattern::Regex(r"\d+".to_owned());
    let split = Split::new(pattern, SplitDelimiterBehavior::Isolated, false).expect("pattern");
    let fixed = |n: usize| PreTokenizerWrapper::FixedLength(FixedLength::new(n));
    let chain = |steps: Vec<PreTokenizerWrapper>| {
        PreTokenizerWrapper::Sequence(SplitterChain::new(steps))
    };
    let refused = [
        PreTokenizerWrapper::Split(split),
        fixed(0),
        chain(vec![fixed(2), chain(vec![fixed(0)])]),
    ];
    for step in refused {
        assert_eq!(refusal(splitter(step)), NO_ENCODING);
    }
    let steps = vec![
        PreTokenizerWrapper::Digits(Digits::new(true)),
        chain(vec![fixed(2)]),
        PreTokenizerWrapper::ByteLevel(ByteLevel::new(false, true, true)),
    ];
    assert_eq!(tokens(splitter(chain(steps)), "hi01"), vec!["h", "i", "0", "1"]);
}

fn template(single: &str) -> PostProcessorWrapper {
    let mut builder = TemplateProcessing::builder();
    builder.try_single(single).expect("template");
    builder.special_tokens(vec![("[X]", 0), ("Sequence{id:B", 1)]);
    PostProcessorWrapper::Template(builder.build().expect("builds"))
}

fn finisher(step: PostProcessorWrapper) -> Tokenizer {
    let mut tokenizer = plain();
    tokenizer.with_post_processor(Some(step));
    tokenizer
}

#[test]
fn finishers_are_looked_into() {
    let chain = |steps: Vec<PostProcessorWrapper>| {
        PostProcessorWrapper::Sequence(FinisherChain::new(steps))
    };
    let twice = || chain(vec![template("[X] $A"), template("$A")]);
    let refused = [
        template("[X] $B"),
        template("$A $B"),
        chain(vec![template("[X]"), template("$A")]),
        chain(vec![template("$A $A $A"), template("$A")]),
        chain(vec![twice(), chain(vec![template("$B")])]),
    ];
    for step in refused {
        assert_eq!(refusal(finisher(step)), NO_ENCODING);
    }
    assert_eq!(tokens(finisher(template("[X] $A [X]")), "hi"), vec!["h", "i"]);
    assert_eq!(tokens(finisher(template("$A $0")), "hi"), vec!["h", "i", "h", "i"]);
    assert!(tokens(finisher(template("[X]")), "hi").is_empty());
    // Two encodings go through the template for two texts.
    let doubled = chain(vec![template("$A $A"), template("[X]"), template("$A")]);
    assert_eq!(tokens(finisher(doubled), "hi"), vec!["h", "i", "h", "i"]);
    assert_eq!(
        tokens(finisher(chain(vec![twice(), chain(vec![twice()])])), "hi"),
        vec!["h", "i"]
    );
}

#[test]
fn special_tokens_that_cannot_be_counted_are_refused() {
    let counting = |n: usize| {
        let mut processing = TemplateProcessing::default();
        processing.set_added_single(n);
        PostProcessorWrapper::Template(processing)
    };
    let chain = |n: usize| {
        let steps = vec![counting(n), counting(1)];
        let mut tokenizer = plain();
        let limits = TruncationParams { max_length: 1, ..TruncationParams::default() };
        tokenizer.with_truncation(Some(limits)).expect("configures");
        let step = PostProcessorWrapper::Sequence(FinisherChain::new(steps));
        tokenizer.with_post_processor(Some(step));
        tokenizer
    };
    assert_eq!(tokens(chain(7), "hi"), vec!["h"]);
    assert_eq!(refusal(chain(usize::MAX)), NO_ENCODING);
}

#[test]
fn templates_are_read_outside_their_literals() {
    let text = r#"Template([SpecialToken { id: "a \" Sequence { id: B", type_id: 0 }, Sequence { id: A, type_id: 1 }])"#;
    assert_eq!(template_copies(text), Some(1));
    assert_eq!(template_copies("Template([Sequence { id: B, type_id: 0 }])"), None);
    assert_eq!(template_copies("Template([])"), Some(0));
    let bare: String = drop_quoted(r#"a "b\\" c "d" e"#).into_iter().collect();
    assert_eq!(bare, "a  c  e");
    assert_eq!(count_occurrences(&"abababa".chars().collect(), "aba"), 3);
    assert_eq!(count_occurrences(&"ab".chars().collect(), "abc"), 0);
}

#[test]
fn padding_is_bounded() {
    let pad = |strategy: PaddingStrategy, multiple: Option<usize>| {
        let mut tokenizer = plain();
        tokenizer.with_padding(Some(PaddingParams {
            strategy,
            pad_to_multiple_of: multiple,
            pad_token: "p".to_owned(),
            ..PaddingParams::default()
        }));
        tokenizer
    };
    assert_eq!(tokens(pad(PaddingStrategy::Fixed(3), None), "hi"), vec!["h", "i", "p"]);
    assert_eq!(
        tokens(pad(PaddingStrategy::BatchLongest, Some(4)), "hi"),
        vec!["h", "i", "p", "p"]
    );
    assert_eq!(refusal(pad(PaddingStrategy::Fixed(usize::MAX), None)), NO_ENCODING);
    assert_eq!(refusal(pad(PaddingStrategy::BatchLongest, Some(usize::MAX))), NO_ENCODING);
}

#[test]
fn added_tokens_must_not_vanish_when_they_are_normalized() {
    let with = |step: NormalizerWrapper, word: &str| {
        let mut tokenizer = normalizer(step);
        tokenizer.add_tokens(&[AddedToken::from(word, false)]);
        tokenizer
    };
    let strip = || NormalizerWrapper::StripNormalizer(Strip::new(true, true));
    assert_eq!(refusal(with(strip(), "  ")), NO_ENCODING);
    let nested = NormalizerWrapper::Sequence(NormalizerChain::new(vec![strip()]));
    assert_eq!(refusal(with(nested, "  ")), NO_ENCODING);
    assert_eq!(tokens(with(strip(), "hihi"), "hihi"), vec!["hihi"]);
    let lower = NormalizerWrapper::Lowercase(Lowercase);
    assert_eq!(tokens(with(lower, "  "), "HI"), vec!["h", "i"]);
}

#[test]
fn added_tokens_are_looked_for_as_the_present_normalizer_leaves_them() {
    let mut tokenizer = plain();
    let strip = NormalizerWrapper::StripNormalizer(Strip::new(true, true));
    tokenizer.with_normalizer(Some(strip));
    tokenizer.add_tokens(&[AddedToken::from(" ", false)]);
    tokenizer.with_normalizer(None::<NormalizerWrapper>);
    assert!(tokens(tokenizer.clone(), "\u{e9}").is_empty());
    assert_eq!(tokens(tokenizer, "h i"), vec!["h", " ", "i"]);

    let mut tokenizer = plain();
    let erase = NormalizerWrapper::Replace(Replace::new("hihi", "").expect("pattern"));
    tokenizer.with_normalizer(Some(erase));
    tokenizer.add_tokens(&[AddedToken::from("hihi", false)]);
    tokenizer.with_normalizer(Some(NormalizerWrapper::Lowercase(Lowercase)));
    assert_eq!(tokens(tokenizer, "\u{e9}HIHI"), vec!["hihi"]);
}

#[test]
fn an_added_token_must_leave_an_id() {
    let vocab: Vocab = [("h".to_owned(), u32::MAX)].into_iter().collect();
    let model = BPE::builder()
        .vocab_and_merges(vocab, Vec::new())
        .build()
        .expect("valid test vocab");
    let mut tokenizer = Tokenizer::new(model);
    tokenizer.add_tokens(&[AddedToken::from("h", false)]);
    assert_eq!(refusal(tokenizer), "no token id is left after the added tokens");
}
