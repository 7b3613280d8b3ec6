//! The languages of a batch.

use vstd::prelude::*;
use vstd::string::*;

use crate::errors::{
    categorized, failure, first_kind, invalid_request, runtime_error, uncategorized, CauseView,
    Error,
};
use crate::text::{debug_form, debug_list, optional_text, quoted, quoted_list, same_text, texts};
use crate::tokenizer::{id_of, TextTokenizer};
use crate::tokens::{language_token, language_token_of, token_id, token_missing, SpecialTokens};

verus! {

/// The chain for a language that an English-only checkpoint cannot
/// transcribe.
pub open spec fn not_english(lang: Seq<char>) -> Seq<CauseView> {
    categorized(
        "invalid_request"@,
        "language "@ + debug_form(lang)
            + " requested on an English-only checkpoint; only \"en\" is valid (or omit :language). Use a multilingual checkpoint to transcribe other languages."@,
    )
}

/// Refuses a language other than English on an English-only checkpoint. The
/// checkpoint would transcribe English and report the other language.
pub fn reject_non_english_on_en_checkpoint(multilingual: bool, lang: &str) -> (r: Result<
    (),
    Error,
>)
    ensures
        match r {
            Ok(_) => multilingual || lang@ == "en"@,
            Err(e) => !multilingual && lang@ != "en"@ && e@ == not_english(lang@),
        },
{
    if !multilingual && !same_text(lang, "en") {
        let mut message = "language ".to_owned();
        message.append(quoted(lang).as_str());
        message.append(
            " requested on an English-only checkpoint; only \"en\" is valid (or omit :language). Use a multilingual checkpoint to transcribe other languages.",
        );
        return Err(invalid_request(message));
    }
    Ok(())
}

/// How the languages of a batch become known.
#[derive(Debug)]
pub enum LanguagePlan {
    /// The language token of each audio is known.
    Known(Vec<String>),
    /// The model has to detect the language of each audio.
    Detect,
}

/// What a [`LanguagePlan`] says: the language token of each audio, if they
/// are known.
pub open spec fn known_languages(plan: LanguagePlan) -> Option<Seq<Seq<char>>> {
    match plan {
        LanguagePlan::Known(list) => Some(texts(list@)),
        LanguagePlan::Detect => None,
    }
}

/// `n` times the same text.
pub open spec fn repeated(text: Seq<char>, n: nat) -> Seq<Seq<char>> {
    Seq::new(n, |i: int| text)
}

/// The languages of a batch of `n` audios with a pinned language, given
/// whether the vocabulary has its token.
pub open spec fn pinned_for(lang: Seq<char>, known: bool, multilingual: bool, n: nat) -> Result<
    Option<Seq<Seq<char>>>,
    Seq<CauseView>,
> {
    if !multilingual && lang != "en"@ {
        Err(not_english(lang))
    } else if !known {
        Err(categorized("invalid_request"@, "invalid language code: "@ + lang))
    } else {
        Ok(Some(repeated(language_token_of(lang), n)))
    }
}

/// The languages of a batch of `n` audios. A pinned language holds for
/// every audio, and an English-only checkpoint only knows English;
/// otherwise the model has to detect them.
pub open spec fn languages_for(
    tokenizer: tokenizers::Tokenizer,
    pinned: Option<Seq<char>>,
    multilingual: bool,
    n: nat,
) -> Result<Option<Seq<Seq<char>>>, Seq<CauseView>> {
    match pinned {
        Some(lang) => pinned_for(
            lang,
            id_of(tokenizer, language_token_of(lang)) is Some,
            multilingual,
            n,
        ),
        None => if multilingual {
            Ok(None)
        } else {
            Ok(Some(repeated("<|en|>"@, n)))
        },
    }
}

/// `n` copies of `text`.
fn repeat(text: &str, n: usize) -> (r: Vec<String>)
    ensures
        texts(r@) == repeated(text@, n as nat),
{
    let mut out: Vec<String> = Vec::new();
    for i in 0..n
        invariant
            out@.len() == i,
            forall|k: int| 0 <= k < i ==> (#[trigger] out@[k])@ == text@,
    {
        out.push(text.to_owned());
    }
    assert(texts(out@) =~= repeated(text@, n as nat));
    out
}

/// The languages of a batch of `n` audios with a pinned language, given
/// whether the vocabulary has its token.
pub fn pin_language(lang: &str, known: bool, multilingual: bool, n: usize) -> (r: Result<
    LanguagePlan,
    Error,
>)
    ensures
        match r {
            Ok(plan) => pinned_for(lang@, known, multilingual, n as nat) == Ok::<
                _,
                Seq<CauseView>,
            >(known_languages(plan)),
            Err(e) => pinned_for(lang@, known, multilingual, n as nat) == Err::<
                Option<Seq<Seq<char>>>,
                _,
            >(e@),
        },
{
    reject_non_english_on_en_checkpoint(multilingual, lang)?;
    if !known {
        let mut message = "invalid language code: ".to_owned();
        message.append(lang);
        return Err(invalid_request(message));
    }
    let mut token = "<|".to_owned();
    token.append(lang);
    token.append("|>");
    Ok(LanguagePlan::Known(repeat(token.as_str(), n)))
}

/// Settles the languages of a batch of `n` audios as far as the model is
/// not needed.
pub fn plan_languages(
    tokenizer: &TextTokenizer,
    pinned: &Option<String>,
    multilingual: bool,
    n: usize,
) -> (r: Result<LanguagePlan, Error>)
    ensures
        match r {
            Ok(plan) => languages_for(tokenizer@, optional_text(*pinned), multilingual, n as nat)
                == Ok::<_, Seq<CauseView>>(known_languages(plan)),
            Err(e) => languages_for(tokenizer@, optional_text(*pinned), multilingual, n as nat)
                == Err::<Option<Seq<Seq<char>>>, _>(e@),
        },
{
    match pinned {
        Some(lang) => {
            let known = language_token(tokenizer, lang.as_str()).is_ok();
            pin_language(lang.as_str(), known, multilingual, n)
        },
        None => if multilingual {
            Ok(LanguagePlan::Detect)
        } else {
            Ok(LanguagePlan::Known(repeat("<|en|>", n)))
        },
    }
}

/// The detected language of an audio: the best candidate of its first
/// chunk. `candidates` holds, for each chunk, the language tokens the model
/// found, best first.
pub fn detected_language(candidates: Vec<Vec<String>>) -> (r: Result<String, Error>)
    ensures
        match r {
            Ok(token) => candidates@.len() > 0 && candidates@[0]@.len() > 0 && token@
                == candidates@[0]@[0]@,
            Err(e) => (candidates@.len() == 0 || candidates@[0]@.len() == 0) && e@ == uncategorized(
                "detect_language returned no candidates"@,
            ),
        },
{
    if candidates.len() == 0 || candidates[0].len() == 0 {
        return Err(failure("detect_language returned no candidates".to_owned()));
    }
    Ok(candidates[0][0].clone())
}

/// Whether all languages are the first one.
pub open spec fn uniform(languages: Seq<Seq<char>>) -> bool {
    forall|i: int| 0 <= i < languages.len() ==> #[trigger] languages[i] == languages[0]
}

/// The common language of a batch. Words are aligned for the whole batch at
/// once, in one language.
pub open spec fn common_language(languages: Seq<Seq<char>>) -> Result<Seq<char>, Seq<CauseView>> {
    if languages.len() == 0 {
        Err(categorized("runtime_error"@, "align: no audios in batch"@))
    } else if !uniform(languages) {
        Err(
            categorized(
                "invalid_request"@,
                "word_timestamps requires every audio in a batch to share the same resolved language; got "@
                    + debug_list(languages) + ". Pin :language or split the batch."@,
            ),
        )
    } else {
        Ok(languages[0])
    }
}

/// The common language of a batch.
pub fn uniform_align_language(per_audio_languages: &[String]) -> (r: Result<&str, Error>)
    ensures
        match r {
            Ok(token) => common_language(texts(per_audio_languages@)) == Ok::<_, Seq<CauseView>>(
                token@,
            ),
            Err(e) => common_language(texts(per_audio_languages@)) == Err::<Seq<char>, _>(e@),
        },
{
    let ghost languages = texts(per_audio_languages@);
    if per_audio_languages.len() == 0 {
        return Err(runtime_error("align: no audios in batch".to_owned()));
    }
    for i in 0..per_audio_languages.len()
        invariant
            languages == texts(per_audio_languages@),
            languages.len() > 0,
            forall|k: int| 0 <= k < i ==> #[trigger] languages[k] == languages[0],
    {
        assert(languages[i as int] == per_audio_languages@[i as int]@);
        assert(languages[0] == per_audio_languages@[0]@);
        if !same_text(per_audio_languages[i].as_str(), per_audio_languages[0].as_str()) {
            let mut message =
                "word_timestamps requires every audio in a batch to share the same resolved language; got ".to_owned();
            message.append(quoted_list(per_audio_languages).as_str());
            message.append(". Pin :language or split the batch.");
            assert(languages[i as int] != languages[0]);
            return Err(invalid_request(message));
        }
    }
    Ok(per_audio_languages[0].as_str())
}

/// The tokens that open the transcript for alignment, as they did for
/// generation: the start token, and on a multilingual checkpoint the
/// language and the task. The aligner itself adds `<|notimestamps|>`.
pub open spec fn opening_tokens(specials: SpecialTokens, language: Option<u32>) -> Seq<usize> {
    match language {
        None => seq![specials.sot as usize],
        Some(id) => seq![specials.sot as usize, id as usize, specials.transcribe as usize],
    }
}

/// The tokens that open the transcript for alignment, given the id of the
/// language's token on a multilingual checkpoint.
pub fn open_transcript(specials: &SpecialTokens, language: Option<u32>) -> (r: Vec<usize>)
    ensures
        r@ == opening_tokens(*specials, language),
{
    let list: Vec<usize> = match language {
        None => vec![specials.sot as usize],
        Some(id) => vec![specials.sot as usize, id as usize, specials.transcribe as usize],
    };
    assert(list@ =~= opening_tokens(*specials, language));
    list
}

/// The tokens that open the transcript of a batch for alignment.
pub open spec fn start_sequence(
    tokenizer: tokenizers::Tokenizer,
    specials: SpecialTokens,
    multilingual: bool,
    languages: Seq<Seq<char>>,
) -> Result<Seq<usize>, Seq<CauseView>> {
    if !multilingual {
        Ok(opening_tokens(specials, None))
    } else {
        match common_language(languages) {
            Err(e) => Err(e),
            Ok(token) => match id_of(tokenizer, token) {
                None => Err(token_missing(token)),
                Some(id) => Ok(opening_tokens(specials, Some(id))),
            },
        }
    }
}

/// The tokens that open the transcript of a batch for alignment.
pub fn build_align_start_sequence(
    tokenizer: &TextTokenizer,
    specials: &SpecialTokens,
    multilingual: bool,
    per_audio_languages: &[String],
) -> (r: Result<Vec<usize>, Error>)
    ensures
        match r {
            Ok(list) => start_sequence(
                tokenizer@,
                *specials,
                multilingual,
                texts(per_audio_languages@),
            ) == Ok::<_, Seq<CauseView>>(list@),
            Err(e) => start_sequence(
                tokenizer@,
                *specials,
                multilingual,
                texts(per_audio_languages@),
            ) == Err::<Seq<usize>, _>(e@),
        },
{
    if !multilingual {
        return Ok(open_transcript(specials, None));
    }
    let token = uniform_align_language(per_audio_languages)?;
    let id: u32 = token_id(tokenizer, token)?;
    Ok(open_transcript(specials, Some(id)))
}

/// A pinned language is the language of every audio, so a batch with a
/// pinned language can always be aligned.
pub proof fn law_pinned_batches_are_uniform(
    tokenizer: tokenizers::Tokenizer,
    specials: SpecialTokens,
    lang: Seq<char>,
    multilingual: bool,
    n: nat,
)
    requires
        n > 0,
    ensures
        languages_for(tokenizer, Some(lang), multilingual, n) matches Ok(Some(languages)) ==> {
            &&& languages.len() == n
            &&& start_sequence(tokenizer, specials, multilingual, languages) is Ok
        },
{
    if let Ok(Some(languages)) = languages_for(tokenizer, Some(lang), multilingual, n) {
        assert(uniform(languages));
    }
}

/// A pinned language is accepted exactly where the vocabulary has its token
/// and the checkpoint can transcribe it, and is then the language of every
/// audio. A refusal is the caller's fault. Without a pinned language a
/// multilingual checkpoint has to detect it, and an English-only one
/// transcribes English.
pub proof fn law_languages_are_pinned_or_detected(
    tokenizer: tokenizers::Tokenizer,
    lang: Seq<char>,
    multilingual: bool,
    n: nat,
)
    ensures
        languages_for(tokenizer, Some(lang), multilingual, n) is Ok <==> (multilingual || lang
            == "en"@) && id_of(tokenizer, "<|"@ + lang + "|>"@) is Some,
        languages_for(tokenizer, Some(lang), multilingual, n) matches Ok(found) ==> {
            &&& found matches Some(list) && list.len() == n && forall|i: int|
                0 <= i < n ==> #[trigger] list[i] == "<|"@ + lang + "|>"@
        },
        languages_for(tokenizer, Some(lang), multilingual, n) matches Err(e) ==> first_kind(e)
            == Some("invalid_request"@) && (multilingual || lang == "en"@ ==> e[0].message
            == "invalid language code: "@ + lang),
        multilingual ==> languages_for(tokenizer, None, multilingual, n) == Ok::<
            _,
            Seq<CauseView>,
        >(None::<Seq<Seq<char>>>),
        !multilingual ==> (languages_for(tokenizer, None, multilingual, n) matches Ok(Some(list))
            && list.len() == n && forall|i: int| 0 <= i < n ==> #[trigger] list[i] == "<|en|>"@),
{
}

/// A batch has a common language exactly where it has audios and all of
/// them are in the same language, which is then that one. A batch of mixed
/// languages is the caller's fault.
pub proof fn law_batches_have_one_language(languages: Seq<Seq<char>>, token: Seq<char>)
    ensures
        common_language(languages) == Ok::<_, Seq<CauseView>>(token) <==> languages.len() > 0
            && forall|i: int| 0 <= i < languages.len() ==> #[trigger] languages[i] == token,
        common_language(languages) is Err <==> languages.len() == 0 || exists|i: int, j: int|
            0 <= i < languages.len() && 0 <= j < languages.len() && #[trigger] languages[i]
                != #[trigger] languages[j],
        common_language(languages) matches Err(e) ==> first_kind(e) == Some(
            if languages.len() == 0 {
                "runtime_error"@
            } else {
                "invalid_request"@
            },
        ),
{
    if languages.len() > 0 {
        if uniform(languages) {
            assert forall|i: int, j: int| 0 <= i < languages.len() && 0 <= j
                < languages.len() implies #[trigger] languages[i] == #[trigger] languages[j] by {}
        } else {
            let i = choose|i: int|
                0 <= i < languages.len() && #[trigger] languages[i] != languages[0];
            assert(languages[i] != languages[0]);
        }
    }
}

/// The transcript is opened for alignment as it was for generation: by the
/// start token alone on an English-only checkpoint, whatever the languages
/// are called, and otherwise by the start token, the language and the task,
/// in this order. A batch without a common language is not aligned, nor one
/// whose language the vocabulary lacks.
pub proof fn law_alignment_opens_like_generation(
    tokenizer: tokenizers::Tokenizer,
    specials: SpecialTokens,
    languages: Seq<Seq<char>>,
    token: Seq<char>,
)
    requires
        languages.len() > 0,
        forall|i: int| 0 <= i < languages.len() ==> #[trigger] languages[i] == token,
    ensures
        start_sequence(tokenizer, specials, false, languages) == Ok::<_, Seq<CauseView>>(
            seq![specials.sot as usize],
        ),
        start_sequence(tokenizer, specials, true, languages) is Ok <==> id_of(
            tokenizer,
            token,
        ) is Some,
        id_of(tokenizer, token) matches Some(id) ==> start_sequence(
            tokenizer,
            specials,
            true,
            languages,
        ) == Ok::<_, Seq<CauseView>>(
            seq![specials.sot as usize, id as usize, specials.transcribe as usize],
        ),
{
    law_batches_have_one_language(languages, token);
}

/// A batch of mixed languages is refused for alignment on a multilingual
/// checkpoint, and only there.
pub proof fn law_mixed_batches_are_not_aligned(
    tokenizer: tokenizers::Tokenizer,
    specials: SpecialTokens,
    languages: Seq<Seq<char>>,
    i: int,
    j: int,
)
    requires
        0 <= i < languages.len(),
        0 <= j < languages.len(),
        languages[i] != languages[j],
    ensures
        start_sequence(tokenizer, specials, true, languages) matches Err(e) && first_kind(e)
            == Some("invalid_request"@),
        start_sequence(tokenizer, specials, false, languages) is Ok,
{
    law_batches_have_one_language(languages, languages[0]);
}

/// The detected language is the best candidate of the first chunk, whatever
/// the other chunks say, and there is one exactly where that chunk has a
/// candidate.
pub proof fn law_first_chunk_decides(candidates: Vec<Vec<String>>, r: Result<String, Error>)
    requires
        call_ensures(detected_language, (candidates,), r),
    ensures
        r is Ok <==> candidates@.len() > 0 && candidates@[0]@.len() > 0,
        r matches Ok(token) ==> token@ == candidates@[0]@[0]@,
{
}

/// An English-only checkpoint refuses every language but English, as the
/// caller's fault, and a multilingual one refuses none.
pub proof fn law_english_checkpoints_know_english(
    multilingual: bool,
    lang: &str,
    r: Result<(), Error>,
)
    requires
        call_ensures(reject_non_english_on_en_checkpoint, (multilingual, lang), r),
    ensures
        r is Err <==> !multilingual && lang@ != "en"@,
        r matches Err(e) ==> first_kind(e@) == Some("invalid_request"@),
{
}

} // verus!
