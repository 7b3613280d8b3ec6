//! Special tokens, prompts, and the timestamped pieces of a generated
//! token sequence.

use vstd::prelude::*;
use vstd::string::*;

use crate::errors::{failure, uncategorized, CauseView, Error};
use crate::text::{
    blank, chars_of, decimal, decimal_of, law_trim_leaves_the_visible_stretch, texts, trim,
    trim_of, white_space,
};
use crate::time::{second_of, timestamp_of, timestamp_time};
use crate::tokenizer::{decoded, encoded, id_of, text_result, texts_result, TextTokenizer};

verus! {

/// The token that opens a transcript.
pub const SOT: &'static str = "<|startoftranscript|>";

/// The token that opens the text an initial prompt conditions on.
pub const STARTOFPREV: &'static str = "<|startofprev|>";

/// The token that selects transcription.
pub const TRANSCRIBE: &'static str = "<|transcribe|>";

/// The token that switches timestamps off.
pub const NO_TIMESTAMPS: &'static str = "<|notimestamps|>";

/// Ids of the special tokens needed to read a generated sequence.
#[derive(Clone, Copy, Debug)]
pub struct SpecialTokens {
    /// `<|startoftranscript|>`
    pub sot: u32,
    /// `<|transcribe|>`
    pub transcribe: u32,
    /// `<|notimestamps|>`
    pub no_timestamps: u32,
    /// `<|0.00|>`, the first of the timestamp tokens. Any id from here on
    /// is a timestamp, 20 ms further on per id.
    pub timestamp_begin: u32,
}

/// The chain of the failed lookup of a special token.
pub open spec fn special_missing(token: Seq<char>) -> Seq<CauseView> {
    uncategorized("special token "@ + token + " missing from tokenizer vocab"@)
}

/// The special tokens, given the ids that a vocabulary has for them.
/// Timestamp tokens are not part of a vocabulary: they follow
/// `<|notimestamps|>` in the model's output. The vocabulary must also have
/// `<|startofprev|>`, for initial prompts.
pub open spec fn specials_from(
    no_timestamps: Option<u32>,
    startofprev: Option<u32>,
    sot: Option<u32>,
    transcribe: Option<u32>,
) -> Result<SpecialTokens, Seq<CauseView>> {
    match (no_timestamps, startofprev, sot, transcribe) {
        (None, _, _, _) => Err(special_missing(NO_TIMESTAMPS@)),
        (_, None, _, _) => Err(special_missing(STARTOFPREV@)),
        (_, _, None, _) => Err(special_missing(SOT@)),
        (_, _, _, None) => Err(special_missing(TRANSCRIBE@)),
        (Some(no_timestamps), Some(_), Some(sot), Some(transcribe)) => if no_timestamps
            == u32::MAX {
            Err(uncategorized("no token id is left for timestamps"@))
        } else {
            Ok(
                SpecialTokens {
                    sot,
                    transcribe,
                    no_timestamps,
                    timestamp_begin: (no_timestamps + 1) as u32,
                },
            )
        },
    }
}

/// The special tokens of a tokenizer.
pub open spec fn specials_of(tokenizer: tokenizers::Tokenizer) -> Result<
    SpecialTokens,
    Seq<CauseView>,
> {
    specials_from(
        id_of(tokenizer, NO_TIMESTAMPS@),
        id_of(tokenizer, STARTOFPREV@),
        id_of(tokenizer, SOT@),
        id_of(tokenizer, TRANSCRIBE@),
    )
}

/// The id of a special token, or the failure of its lookup.
fn found(id: Option<u32>, token: &str) -> (r: Result<u32, Error>)
    ensures
        match r {
            Ok(n) => id == Some(n),
            Err(e) => id is None && e@ == special_missing(token@),
        },
{
    match id {
        Some(n) => Ok(n),
        None => {
            let mut message = "special token ".to_owned();
            message.append(token);
            message.append(" missing from tokenizer vocab");
            Err(failure(message))
        },
    }
}

impl SpecialTokens {
    /// The special tokens, given the ids that a vocabulary has for them.
    pub fn from_ids(
        no_timestamps: Option<u32>,
        startofprev: Option<u32>,
        sot: Option<u32>,
        transcribe: Option<u32>,
    ) -> (r: Result<SpecialTokens, Error>)
        ensures
            match r {
                Ok(specials) => specials_from(no_timestamps, startofprev, sot, transcribe) == Ok::<
                    _,
                    Seq<CauseView>,
                >(specials),
                Err(e) => specials_from(no_timestamps, startofprev, sot, transcribe) == Err::<
                    SpecialTokens,
                    _,
                >(e@),
            },
    {
        let no_timestamps: u32 = found(no_timestamps, NO_TIMESTAMPS)?;
        found(startofprev, STARTOFPREV)?;
        let sot: u32 = found(sot, SOT)?;
        let transcribe: u32 = found(transcribe, TRANSCRIBE)?;
        if no_timestamps == u32::MAX {
            return Err(failure("no token id is left for timestamps".to_owned()));
        }
        Ok(SpecialTokens { sot, transcribe, no_timestamps, timestamp_begin: no_timestamps + 1 })
    }

    /// Looks up the special tokens of a tokenizer.
    pub fn resolve(tokenizer: &TextTokenizer) -> (r: Result<SpecialTokens, Error>)
        ensures
            match r {
                Ok(specials) => specials_of(tokenizer@) == Ok::<_, Seq<CauseView>>(specials),
                Err(e) => specials_of(tokenizer@) == Err::<SpecialTokens, _>(e@),
            },
    {
        SpecialTokens::from_ids(
            tokenizer.token_to_id(NO_TIMESTAMPS),
            tokenizer.token_to_id(STARTOFPREV),
            tokenizer.token_to_id(SOT),
            tokenizer.token_to_id(TRANSCRIBE),
        )
    }
}

/// The token of a language code.
pub open spec fn language_token_of(code: Seq<char>) -> Seq<char> {
    "<|"@ + code + "|>"@
}

/// The token of a language code, where the vocabulary has it.
pub fn language_token(tokenizer: &TextTokenizer, code: &str) -> (r: Result<String, Error>)
    ensures
        match r {
            Ok(token) => token@ == language_token_of(code@) && id_of(tokenizer@, token@) is Some,
            Err(e) => id_of(tokenizer@, language_token_of(code@)) is None && e@ == uncategorized(
                "language token "@ + language_token_of(code@) + " not in vocab"@,
            ),
        },
{
    let mut token = "<|".to_owned();
    token.append(code);
    token.append("|>");
    if tokenizer.token_to_id(token.as_str()).is_none() {
        let mut message = "language token ".to_owned();
        message.append(token.as_str());
        message.append(" not in vocab");
        return Err(failure(message));
    }
    Ok(token)
}

/// `s` without any `<|` in front.
pub open spec fn without_open(s: Seq<char>) -> Seq<char>
    decreases s.len(),
{
    if s.len() >= 2 && s[0] == '<' && s[1] == '|' {
        without_open(s.skip(2))
    } else {
        s
    }
}

/// `s` without any `|>` at the end.
pub open spec fn without_close(s: Seq<char>) -> Seq<char>
    decreases s.len(),
{
    if s.len() >= 2 && s[s.len() - 2] == '|' && s[s.len() - 1] == '>' {
        without_close(s.take(s.len() - 2))
    } else {
        s
    }
}

/// The code of a language token.
pub open spec fn language_code_of(token: Seq<char>) -> Seq<char> {
    without_close(without_open(token))
}

/// The code of a language token.
pub fn language_code(token: &str) -> (r: &str)
    ensures
        r@ == language_code_of(token@),
{
    let cs = chars_of(token);
    let mut start: usize = 0;
    assert(cs@.skip(0) =~= cs@);
    while cs.len() - start >= 2 && cs[start] == '<' && cs[start + 1] == '|'
        invariant
            cs@ == token@,
            start <= cs@.len(),
            without_open(cs@.skip(start as int)) == without_open(token@),
        decreases cs@.len() - start,
    {
        assert(cs@.skip(start as int).skip(2) =~= cs@.skip(start + 2));
        start = start + 2;
    }
    let mut end: usize = cs.len();
    assert(cs@.subrange(start as int, end as int) =~= cs@.skip(start as int));
    while end - start >= 2 && cs[end - 2] == '|' && cs[end - 1] == '>'
        invariant
            cs@ == token@,
            start <= end <= cs@.len(),
            without_close(cs@.subrange(start as int, end as int)) == language_code_of(token@),
        decreases end,
    {
        assert(cs@.subrange(start as int, end as int).take(end - start - 2) =~= cs@.subrange(
            start as int,
            end - 2,
        ));
        end = end - 2;
    }
    token.substring_char(start, end)
}

/// The code of a language's token is the code the token was made from,
/// unless the code itself begins or ends like a token.
pub proof fn law_language_code_round_trip(code: Seq<char>)
    requires
        without_close(code) == code,
        without_open(code + "|>"@) == code + "|>"@,
    ensures
        language_code_of(language_token_of(code)) == code,
{
    reveal_strlit("<|");
    reveal_strlit("|>");
    let token = language_token_of(code);
    assert(token.skip(2) =~= code + "|>"@);
    let open = code + "|>"@;
    assert(open.take(open.len() - 2) =~= code);
}

/// The chain of the failed lookup of a token.
pub open spec fn token_missing(token: Seq<char>) -> Seq<CauseView> {
    uncategorized("token "@ + token + " missing from tokenizer vocab"@)
}

/// The id of a token, where the vocabulary has it.
pub fn token_id(tokenizer: &TextTokenizer, token: &str) -> (r: Result<u32, Error>)
    ensures
        match r {
            Ok(id) => id_of(tokenizer@, token@) == Some(id),
            Err(e) => id_of(tokenizer@, token@) is None && e@ == token_missing(token@),
        },
{
    match tokenizer.token_to_id(token) {
        Some(id) => Ok(id),
        None => {
            let mut message = "token ".to_owned();
            message.append(token);
            message.append(" missing from tokenizer vocab");
            Err(failure(message))
        },
    }
}

/// The tokens of a plain text, given what the tokenizer made of it.
pub open spec fn plain_tokens(encoding: Result<Seq<Seq<char>>, Seq<char>>) -> Result<
    Seq<Seq<char>>,
    Seq<CauseView>,
> {
    match encoding {
        Ok(list) => Ok(list),
        Err(reason) => Err(uncategorized("failed to tokenize prompt text: "@ + reason)),
    }
}

/// The tokens of a plain text, given what the tokenizer made of it.
pub fn tokens_from(outcome: Result<Vec<String>, String>) -> (r: Result<Vec<String>, Error>)
    ensures
        match r {
            Ok(list) => plain_tokens(texts_result(outcome)) == Ok::<_, Seq<CauseView>>(texts(list@)),
            Err(e) => plain_tokens(texts_result(outcome)) == Err::<Seq<Seq<char>>, _>(e@),
        },
{
    match outcome {
        Ok(list) => Ok(list),
        Err(reason) => {
            let mut message = "failed to tokenize prompt text: ".to_owned();
            message.append(reason.as_str());
            Err(failure(message))
        },
    }
}

/// The tokens of a plain text. Control tokens inside it are not
/// interpreted: they are ordinary text to a [`TextTokenizer`].
pub fn encode_plain(tokenizer: &TextTokenizer, text: &str) -> (r: Result<Vec<String>, Error>)
    ensures
        match r {
            Ok(list) => plain_tokens(encoded(tokenizer@, text@)) == Ok::<_, Seq<CauseView>>(
                texts(list@),
            ),
            Err(e) => plain_tokens(encoded(tokenizer@, text@)) == Err::<Seq<Seq<char>>, _>(e@),
        },
{
    tokens_from(tokenizer.encode(text))
}

/// The text of a list of ids, given what the tokenizer made of it.
pub open spec fn plain_text(decoding: Result<Seq<char>, Seq<char>>) -> Result<
    Seq<char>,
    Seq<CauseView>,
> {
    match decoding {
        Ok(text) => Ok(text),
        Err(reason) => Err(uncategorized("failed to decode tokens: "@ + reason)),
    }
}

/// The text of a list of ids, given what the tokenizer made of it.
pub fn text_from(outcome: Result<String, String>) -> (r: Result<String, Error>)
    ensures
        match r {
            Ok(text) => plain_text(text_result(outcome)) == Ok::<_, Seq<CauseView>>(text@),
            Err(e) => plain_text(text_result(outcome)) == Err::<Seq<char>, _>(e@),
        },
{
    match outcome {
        Ok(text) => Ok(text),
        Err(reason) => {
            let mut message = "failed to decode tokens: ".to_owned();
            message.append(reason.as_str());
            Err(failure(message))
        },
    }
}

/// The text of a list of text token ids.
pub fn decode_ids(tokenizer: &TextTokenizer, ids: &[u32]) -> (r: Result<String, Error>)
    ensures
        match r {
            Ok(text) => plain_text(decoded(tokenizer@, ids@)) == Ok::<_, Seq<CauseView>>(text@),
            Err(e) => plain_text(decoded(tokenizer@, ids@)) == Err::<Seq<char>, _>(e@),
        },
{
    text_from(tokenizer.decode(ids))
}

/// The parts of the prompt of one chunk.
///
/// ```text
/// [<|startofprev|> <initial_prompt_tokens>]? <|startoftranscript|>
///   [<|lang|> <|transcribe|>]? [<|notimestamps|>]? <prefix_tokens>*
/// ```
pub struct PromptParts<'a> {
    pub sot: &'a str,
    pub startofprev: &'a str,
    pub language_token: &'a str,
    pub transcribe: &'a str,
    pub no_timestamps: &'a str,
    pub initial_prompt: &'a [String],
    pub prefix: &'a [String],
    /// Whether the model is to emit timestamp tokens; `<|notimestamps|>`
    /// is in the prompt where it is not.
    pub with_timestamps: bool,
    /// Whether the checkpoint is multilingual; English-only ones take no
    /// language and no task token.
    pub multilingual: bool,
}

/// A part of a prompt that is there only on a condition.
pub open spec fn optional_part(condition: bool, part: Seq<Seq<char>>) -> Seq<Seq<char>> {
    if condition {
        part
    } else {
        Seq::empty()
    }
}

impl PromptParts<'_> {
    /// The prompt that the parts make up.
    pub open spec fn prompt(&self) -> Seq<Seq<char>> {
        optional_part(
            self.initial_prompt@.len() > 0,
            seq![self.startofprev@] + texts(self.initial_prompt@),
        ) + seq![self.sot@] + optional_part(
            self.multilingual,
            seq![self.language_token@, self.transcribe@],
        ) + optional_part(!self.with_timestamps, seq![self.no_timestamps@]) + texts(self.prefix@)
    }

    /// Builds the prompt.
    pub fn build(&self) -> (r: Vec<String>)
        ensures
            texts(r@) == self.prompt(),
    {
        let mut out: Vec<String> = Vec::new();
        if self.initial_prompt.len() > 0 {
            push_text(&mut out, self.startofprev);
            push_texts(&mut out, self.initial_prompt);
        }
        assert(texts(out@) =~= optional_part(
            self.initial_prompt@.len() > 0,
            seq![self.startofprev@] + texts(self.initial_prompt@),
        ));
        push_text(&mut out, self.sot);
        if self.multilingual {
            push_text(&mut out, self.language_token);
            push_text(&mut out, self.transcribe);
        }
        if !self.with_timestamps {
            push_text(&mut out, self.no_timestamps);
        }
        push_texts(&mut out, self.prefix);
        assert(texts(out@) =~= self.prompt());
        out
    }
}

/// Adds a copy of `text` to `out`.
fn push_text(out: &mut Vec<String>, text: &str)
    ensures
        texts(final(out)@) == texts(old(out)@).push(text@),
{
    out.push(text.to_owned());
    assert(texts(out@) =~= texts(old(out)@).push(text@));
}

/// Adds copies of `list` to `out`.
fn push_texts(out: &mut Vec<String>, list: &[String])
    ensures
        texts(final(out)@) == texts(old(out)@) + texts(list@),
{
    assert(texts(out@) =~= texts(old(out)@) + texts(list@).take(0));
    for i in 0..list.len()
        invariant
            texts(out@) == texts(old(out)@) + texts(list@).take(i as int),
    {
        push_text(out, list[i].as_str());
        assert(texts(list@).take(i + 1) =~= texts(list@).take(i as int).push(list@[i as int]@));
        assert(texts(out@) =~= texts(old(out)@) + texts(list@).take(i + 1));
    }
    assert(texts(list@).take(list@.len() as int) =~= texts(list@));
}

/// The longest context the decoder takes.
pub const MAX_CONTEXT: usize = 448;

/// How many tokens an initial prompt, and how many a prefix, may put into
/// the prompt.
pub open spec fn prompt_budget_of(max_length: nat) -> nat {
    let limit = if max_length < MAX_CONTEXT {
        max_length
    } else {
        MAX_CONTEXT as nat
    };
    if limit / 2 >= 1 {
        (limit / 2 - 1) as nat
    } else {
        0
    }
}

/// How many tokens an initial prompt, and how many a prefix, may put into
/// the prompt.
pub fn prompt_budget(max_length: usize) -> (r: usize)
    ensures
        r == prompt_budget_of(max_length as nat),
{
    let limit: usize = if max_length < MAX_CONTEXT {
        max_length
    } else {
        MAX_CONTEXT
    };
    if limit / 2 >= 1 {
        limit / 2 - 1
    } else {
        0
    }
}

/// The last `n` elements, or all where there are fewer.
pub open spec fn last_of<T>(s: Seq<T>, n: nat) -> Seq<T> {
    if s.len() <= n {
        s
    } else {
        s.skip(s.len() - n)
    }
}

/// The first `n` elements, or all where there are fewer.
pub open spec fn first_of<T>(s: Seq<T>, n: nat) -> Seq<T> {
    if s.len() <= n {
        s
    } else {
        s.take(n as int)
    }
}

/// Keeps the last `n` tokens of an initial prompt.
pub fn keep_last(tokens: Vec<String>, n: usize) -> (r: Vec<String>)
    ensures
        texts(r@) == last_of(texts(tokens@), n as nat),
{
    if tokens.len() <= n {
        return tokens;
    }
    let mut tokens = tokens;
    let ghost all = tokens@;
    let at: usize = tokens.len() - n;
    let tail = tokens.split_off(at);
    assert(texts(tail@) =~= texts(all).skip(at as int));
    tail
}

/// Keeps the first `n` tokens of a prefix.
pub fn keep_first(tokens: Vec<String>, n: usize) -> (r: Vec<String>)
    ensures
        texts(r@) == first_of(texts(tokens@), n as nat),
{
    if tokens.len() <= n {
        return tokens;
    }
    let mut tokens = tokens;
    let ghost all = tokens@;
    tokens.truncate(n);
    assert(texts(tokens@) =~= texts(all).take(n as int));
    tokens
}

/// The text that is tokenised for an initial prompt or a prefix: trimmed,
/// and led by one space, so that the first token carries the word
/// boundary. Blank text gives none.
pub open spec fn prompt_text_of(text: Seq<char>) -> Option<Seq<char>> {
    if trim_of(text).len() == 0 {
        None
    } else {
        Some(" "@ + trim_of(text))
    }
}

/// The text that is tokenised for an initial prompt or a prefix.
pub fn prompt_text(text: &str) -> (r: Option<String>)
    ensures
        match r {
            Some(s) => prompt_text_of(text@) == Some(s@),
            None => prompt_text_of(text@) is None,
        },
{
    let trimmed = trim(text);
    if trimmed.is_empty() {
        return None;
    }
    let mut out = " ".to_owned();
    out.append(trimmed);
    Some(out)
}

/// The chain for an id that is no token id.
pub open spec fn wide_id(id: nat) -> Seq<CauseView> {
    uncategorized("token id "@ + decimal_of(id) + " exceeds u32"@)
}

/// Token ids in their own width, or the first that does not fit it.
pub open spec fn narrowed(ids: Seq<usize>) -> Result<Seq<u32>, Seq<CauseView>>
    decreases ids.len(),
{
    if ids.len() == 0 {
        Ok(Seq::empty())
    } else {
        match narrowed(ids.drop_last()) {
            Err(e) => Err(e),
            Ok(head) => if ids.last() > u32::MAX {
                Err(wide_id(ids.last() as nat))
            } else {
                Ok(head.push(ids.last() as u32))
            },
        }
    }
}

/// Where all ids fit, they are kept as they are.
pub proof fn lemma_narrowed(ids: Seq<usize>)
    ensures
        narrowed(ids) matches Ok(narrow) ==> narrow.len() == ids.len() && forall|i: int|
            0 <= i < ids.len() ==> #[trigger] narrow[i] == ids[i],
    decreases ids.len(),
{
    if ids.len() > 0 {
        lemma_narrowed(ids.drop_last());
    }
}

/// An id that does not fit spoils every longer list.
proof fn lemma_narrowed_prefix(ids: Seq<usize>, n: int)
    requires
        0 <= n <= ids.len(),
        narrowed(ids.take(n)) is Err,
    ensures
        narrowed(ids) == narrowed(ids.take(n)),
    decreases ids.len(),
{
    if n < ids.len() {
        assert(ids.drop_last().take(n) =~= ids.take(n));
        lemma_narrowed_prefix(ids.drop_last(), n);
    } else {
        assert(ids.take(n) =~= ids);
    }
}

/// Converts token ids to their own width.
pub fn narrow_ids(ids: &[usize]) -> (r: Result<Vec<u32>, Error>)
    ensures
        match r {
            Ok(narrow) => narrowed(ids@) == Ok::<_, Seq<CauseView>>(narrow@),
            Err(e) => narrowed(ids@) == Err::<Seq<u32>, _>(e@),
        },
{
    let mut out: Vec<u32> = Vec::new();
    for i in 0..ids.len()
        invariant
            narrowed(ids@.take(i as int)) == Ok::<_, Seq<CauseView>>(out@),
    {
        let id: usize = ids[i];
        assert(ids@.take(i + 1).drop_last() =~= ids@.take(i as int));
        if id > u32::MAX as usize {
            let mut message = "token id ".to_owned();
            message.append(decimal(id as u128).as_str());
            message.append(" exceeds u32");
            proof {
                lemma_narrowed_prefix(ids@, i + 1);
            }
            return Err(failure(message));
        }
        out.push(id as u32);
    }
    assert(ids@.take(ids@.len() as int) =~= ids@);
    Ok(out)
}

/// A piece of text between timestamps, carved out of a chunk's generated
/// token ids. Times count from the start of the chunk.
#[derive(Debug)]
pub struct SubSegment {
    pub text_token_ids: Vec<u32>,
    pub start_in_chunk: u128,
    pub end_in_chunk: u128,
}

/// What a [`SubSegment`] holds.
#[verifier::ext_equal]
pub struct SubSegmentView {
    pub ids: Seq<u32>,
    pub start: nat,
    pub end: nat,
}

impl View for SubSegment {
    type V = SubSegmentView;

    open spec fn view(&self) -> SubSegmentView {
        SubSegmentView {
            ids: self.text_token_ids@,
            start: self.start_in_chunk as nat,
            end: self.end_in_chunk as nat,
        }
    }
}

/// The contents of a list of sub-segments.
pub open spec fn sub_segments_of(list: Seq<SubSegment>) -> Seq<SubSegmentView> {
    list.map_values(|s: SubSegment| s@)
}

/// How many ids stand before the first timestamp.
pub open spec fn text_len(ids: Seq<u32>, timestamp_begin: u32) -> nat
    decreases ids.len(),
{
    if ids.len() == 0 || ids[0] >= timestamp_begin {
        0
    } else {
        1 + text_len(ids.skip(1), timestamp_begin)
    }
}

/// The time a timestamp token stands for.
pub open spec fn token_time_of(id: u32, timestamp_begin: u32, sampling_rate: nat) -> nat {
    timestamp_of((id - timestamp_begin) as nat, sampling_rate)
}

/// The time a timestamp token stands for.
pub fn token_time(id: u32, timestamp_begin: u32, sampling_rate: usize) -> (r: u128)
    requires
        id >= timestamp_begin,
    ensures
        r == token_time_of(id, timestamp_begin, sampling_rate as nat),
{
    timestamp_time(id - timestamp_begin, sampling_rate)
}

/// The smaller of two numbers.
pub open spec fn smaller(a: nat, b: nat) -> nat {
    if a <= b {
        a
    } else {
        b
    }
}

/// The sub-segments of the ids that follow a timestamp at time `start`.
///
/// A text between two timestamps is a sub-segment that spans the time
/// between them, cut off at the end of the chunk. A text after the last
/// timestamp ends with the chunk.
pub open spec fn pieces_after(
    start: nat,
    ids: Seq<u32>,
    timestamp_begin: u32,
    sampling_rate: nat,
    chunk_duration: nat,
) -> Seq<SubSegmentView>
    decreases ids.len(),
{
    let body = text_len(ids, timestamp_begin);
    if body >= ids.len() {
        if ids.len() > 0 {
            seq![SubSegmentView { ids, start, end: chunk_duration }]
        } else {
            Seq::empty()
        }
    } else {
        let end = token_time_of(ids[body as int], timestamp_begin, sampling_rate);
        let piece = SubSegmentView {
            ids: ids.take(body as int),
            start: smaller(start, chunk_duration),
            end: smaller(end, chunk_duration),
        };
        let later = pieces_after(
            end,
            ids.skip(body as int + 1),
            timestamp_begin,
            sampling_rate,
            chunk_duration,
        );
        if body > 0 {
            seq![piece] + later
        } else {
            later
        }
    }
}

/// The sub-segments of a chunk's generated ids.
///
/// Text before the first timestamp is preamble and is left out; ids without
/// any timestamp are one piece that spans the chunk.
pub open spec fn pieces(
    ids: Seq<u32>,
    timestamp_begin: u32,
    sampling_rate: nat,
    chunk_duration: nat,
) -> Seq<SubSegmentView> {
    let lead = text_len(ids, timestamp_begin);
    if lead >= ids.len() {
        if ids.len() > 0 {
            seq![SubSegmentView { ids, start: 0, end: chunk_duration }]
        } else {
            Seq::empty()
        }
    } else {
        pieces_after(
            token_time_of(ids[lead as int], timestamp_begin, sampling_rate),
            ids.skip(lead as int + 1),
            timestamp_begin,
            sampling_rate,
            chunk_duration,
        )
    }
}

/// The end of the text that starts at `from`.
fn text_end(ids: &[u32], timestamp_begin: u32, from: usize) -> (end: usize)
    requires
        from <= ids@.len(),
    ensures
        from <= end <= ids@.len(),
        end - from == text_len(ids@.skip(from as int), timestamp_begin),
        end < ids@.len() ==> ids@[end as int] >= timestamp_begin,
{
    let mut i: usize = from;
    while i < ids.len() && ids[i] < timestamp_begin
        invariant
            from <= i <= ids@.len(),
            i - from + text_len(ids@.skip(i as int), timestamp_begin) == text_len(
                ids@.skip(from as int),
                timestamp_begin,
            ),
        decreases ids@.len() - i,
    {
        assert(ids@.skip(i as int).skip(1) =~= ids@.skip(i + 1));
        i = i + 1;
    }
    i
}

/// Copies `ids[from..to]`.
pub(crate) fn copy_ids(ids: &[u32], from: usize, to: usize) -> (r: Vec<u32>)
    requires
        from <= to <= ids@.len(),
    ensures
        r@ == ids@.subrange(from as int, to as int),
{
    let mut out: Vec<u32> = Vec::new();
    for i in from..to
        invariant
            from <= i <= to <= ids@.len(),
            out@ == ids@.subrange(from as int, i as int),
    {
        out.push(ids[i]);
        assert(ids@.subrange(from as int, i + 1) =~= ids@.subrange(from as int, i as int).push(
            ids@[i as int],
        ));
    }
    out
}

/// Parses a chunk's generated ids into its sub-segments. `chunk_duration`
/// is the length of the chunk's audio.
pub fn split_sub_segments(
    token_ids: &[u32],
    timestamp_begin: u32,
    sampling_rate: usize,
    chunk_duration: u128,
) -> (r: Vec<SubSegment>)
    ensures
        sub_segments_of(r@) == pieces(
            token_ids@,
            timestamp_begin,
            sampling_rate as nat,
            chunk_duration as nat,
        ),
{
    let mut out: Vec<SubSegment> = Vec::new();
    assert(token_ids@.skip(0) =~= token_ids@);
    let first = text_end(token_ids, timestamp_begin, 0);
    if first >= token_ids.len() {
        if token_ids.len() > 0 {
            let text_token_ids = copy_ids(token_ids, 0, token_ids.len());
            assert(text_token_ids@ =~= token_ids@);
            out.push(
                SubSegment { text_token_ids, start_in_chunk: 0, end_in_chunk: chunk_duration },
            );
        }
        assert(sub_segments_of(out@) =~= pieces(
            token_ids@,
            timestamp_begin,
            sampling_rate as nat,
            chunk_duration as nat,
        ));
        return out;
    }
    let mut start = token_time(token_ids[first], timestamp_begin, sampling_rate);
    let mut i: usize = first + 1;
    let ghost whole = pieces(
        token_ids@,
        timestamp_begin,
        sampling_rate as nat,
        chunk_duration as nat,
    );
    assert(whole =~= sub_segments_of(out@) + whole);
    loop
        invariant_except_break
            i <= token_ids@.len(),
            whole == sub_segments_of(out@) + pieces_after(
                start as nat,
                token_ids@.skip(i as int),
                timestamp_begin,
                sampling_rate as nat,
                chunk_duration as nat,
            ),
        ensures
            whole == sub_segments_of(out@),
        decreases token_ids@.len() - i,
    {
        let ghost ids = token_ids@.skip(i as int);
        let ghost found = sub_segments_of(out@);
        let close = text_end(token_ids, timestamp_begin, i);
        if close >= token_ids.len() {
            if i < token_ids.len() {
                let text_token_ids = copy_ids(token_ids, i, token_ids.len());
                assert(text_token_ids@ =~= ids);
                out.push(
                    SubSegment {
                        text_token_ids,
                        start_in_chunk: start,
                        end_in_chunk: chunk_duration,
                    },
                );
                assert(sub_segments_of(out@) =~= found.push(out@.last()@));
            }
            assert(whole =~= sub_segments_of(out@));
            break;
        }
        let end = token_time(token_ids[close], timestamp_begin, sampling_rate);
        assert(ids.skip(close - i + 1) =~= token_ids@.skip(close + 1));
        if i < close {
            let text_token_ids = copy_ids(token_ids, i, close);
            assert(text_token_ids@ =~= ids.take(close - i));
            out.push(
                SubSegment {
                    text_token_ids,
                    start_in_chunk: if start <= chunk_duration {
                        start
                    } else {
                        chunk_duration
                    },
                    end_in_chunk: if end <= chunk_duration {
                        end
                    } else {
                        chunk_duration
                    },
                },
            );
            assert(sub_segments_of(out@) =~= found.push(out@.last()@));
        }
        start = end;
        i = close + 1;
        assert(whole =~= sub_segments_of(out@) + pieces_after(
            start as nat,
            token_ids@.skip(i as int),
            timestamp_begin,
            sampling_rate as nat,
            chunk_duration as nat,
        ));
    }
    out
}

/// Whether every id is a text token.
pub open spec fn all_text(ids: Seq<u32>, timestamp_begin: u32) -> bool {
    forall|i: int| 0 <= i < ids.len() ==> #[trigger] ids[i] < timestamp_begin
}

/// The ids before the first timestamp are text, and a timestamp follows
/// unless they are all.
pub proof fn lemma_text_len(ids: Seq<u32>, timestamp_begin: u32)
    ensures
        text_len(ids, timestamp_begin) <= ids.len(),
        all_text(ids.take(text_len(ids, timestamp_begin) as int), timestamp_begin),
        text_len(ids, timestamp_begin) < ids.len() ==> ids[text_len(ids, timestamp_begin) as int]
            >= timestamp_begin,
    decreases ids.len(),
{
    if ids.len() > 0 && ids[0] < timestamp_begin {
        let rest = ids.skip(1);
        lemma_text_len(rest, timestamp_begin);
        let n = text_len(ids, timestamp_begin) as int;
        assert forall|i: int| 0 <= i < ids.take(n).len() implies #[trigger] ids.take(n)[i]
            < timestamp_begin by {
            if i > 0 {
                assert(rest.take(n - 1)[i - 1] < timestamp_begin);
            }
        }
    }
}

/// Text up to the end is as long as it is.
proof fn lemma_text_len_all(ids: Seq<u32>, timestamp_begin: u32)
    requires
        all_text(ids, timestamp_begin),
    ensures
        text_len(ids, timestamp_begin) == ids.len(),
    decreases ids.len(),
{
    if ids.len() > 0 {
        assert(ids[0] < timestamp_begin);
        assert forall|i: int| 0 <= i < ids.skip(1).len() implies #[trigger] ids.skip(1)[i]
            < timestamp_begin by {
            assert(ids[i + 1] < timestamp_begin);
        }
        lemma_text_len_all(ids.skip(1), timestamp_begin);
    }
}

/// Text up to a timestamp is as long as it is.
proof fn lemma_text_len_upto(ids: Seq<u32>, mark: u32, later: Seq<u32>, timestamp_begin: u32)
    requires
        all_text(ids, timestamp_begin),
        mark >= timestamp_begin,
    ensures
        text_len(ids + seq![mark] + later, timestamp_begin) == ids.len(),
    decreases ids.len(),
{
    let all = ids + seq![mark] + later;
    if ids.len() > 0 {
        assert(ids[0] < timestamp_begin);
        assert(all[0] == ids[0]);
        assert forall|i: int| 0 <= i < ids.skip(1).len() implies #[trigger] ids.skip(1)[i]
            < timestamp_begin by {
            assert(ids[i + 1] < timestamp_begin);
        }
        assert(all.skip(1) =~= ids.skip(1) + seq![mark] + later);
        lemma_text_len_upto(ids.skip(1), mark, later, timestamp_begin);
    } else {
        assert(all[0] == mark);
    }
}

/// A sub-segment has text, and nothing but text, and ends with the chunk at
/// the latest.
pub open spec fn sound_piece(
    piece: SubSegmentView,
    timestamp_begin: u32,
    chunk_duration: nat,
) -> bool {
    &&& piece.ids.len() > 0
    &&& all_text(piece.ids, timestamp_begin)
    &&& piece.end <= chunk_duration
}

/// The sub-segments after a timestamp have text, and nothing but text, and
/// end with the chunk at the latest.
proof fn lemma_pieces_after_are_sound(
    start: nat,
    ids: Seq<u32>,
    timestamp_begin: u32,
    sampling_rate: nat,
    chunk_duration: nat,
)
    ensures
        forall|i: int|
            0 <= i < pieces_after(
                start,
                ids,
                timestamp_begin,
                sampling_rate,
                chunk_duration,
            ).len() ==> sound_piece(
                #[trigger] pieces_after(
                    start,
                    ids,
                    timestamp_begin,
                    sampling_rate,
                    chunk_duration,
                )[i],
                timestamp_begin,
                chunk_duration,
            ),
    decreases ids.len(),
{
    let all = pieces_after(start, ids, timestamp_begin, sampling_rate, chunk_duration);
    let body = text_len(ids, timestamp_begin);
    lemma_text_len(ids, timestamp_begin);
    if body >= ids.len() {
        assert(ids.take(body as int) =~= ids);
    } else {
        let end = token_time_of(ids[body as int], timestamp_begin, sampling_rate);
        let rest = ids.skip(body as int + 1);
        lemma_pieces_after_are_sound(end, rest, timestamp_begin, sampling_rate, chunk_duration);
        let later = pieces_after(end, rest, timestamp_begin, sampling_rate, chunk_duration);
        assert forall|i: int| 0 <= i < all.len() implies sound_piece(
            #[trigger] all[i],
            timestamp_begin,
            chunk_duration,
        ) by {
            if body == 0 {
                assert(all[i] == later[i]);
            } else if i > 0 {
                assert(all[i] == later[i - 1]);
            }
        }
    }
}

/// Every sub-segment of a chunk has text, and nothing but text, and ends
/// with the chunk's audio at the latest.
pub proof fn law_pieces_are_sound(
    ids: Seq<u32>,
    timestamp_begin: u32,
    sampling_rate: nat,
    chunk_duration: nat,
)
    ensures
        forall|i: int|
            0 <= i < pieces(ids, timestamp_begin, sampling_rate, chunk_duration).len()
                ==> sound_piece(
                #[trigger] pieces(ids, timestamp_begin, sampling_rate, chunk_duration)[i],
                timestamp_begin,
                chunk_duration,
            ),
{
    let lead = text_len(ids, timestamp_begin);
    lemma_text_len(ids, timestamp_begin);
    if lead >= ids.len() {
        assert(ids.take(lead as int) =~= ids);
    } else {
        lemma_pieces_after_are_sound(
            token_time_of(ids[lead as int], timestamp_begin, sampling_rate),
            ids.skip(lead as int + 1),
            timestamp_begin,
            sampling_rate,
            chunk_duration,
        );
    }
}

/// Whether a timestamp closes sub-segment `i` of `n`: another one follows
/// it, or the ids end with a timestamp.
pub open spec fn is_closed(ids: Seq<u32>, timestamp_begin: u32, n: nat, i: int) -> bool {
    i + 1 < n || (ids.len() > 0 && ids.last() >= timestamp_begin)
}

/// The sub-segments after a timestamp that another one closes start inside
/// the chunk.
proof fn lemma_closed_pieces_after_start_inside(
    start: nat,
    ids: Seq<u32>,
    timestamp_begin: u32,
    sampling_rate: nat,
    chunk_duration: nat,
)
    ensures
        ({
            let all = pieces_after(start, ids, timestamp_begin, sampling_rate, chunk_duration);
            forall|i: int|
                0 <= i < all.len() && is_closed(ids, timestamp_begin, all.len(), i) ==> (
                #[trigger] all[i]).start <= chunk_duration
        }),
    decreases ids.len(),
{
    let all = pieces_after(start, ids, timestamp_begin, sampling_rate, chunk_duration);
    let body = text_len(ids, timestamp_begin);
    lemma_text_len(ids, timestamp_begin);
    if body >= ids.len() {
        if ids.len() > 0 {
            assert(ids.take(body as int)[ids.len() - 1] < timestamp_begin);
        }
    } else {
        let end = token_time_of(ids[body as int], timestamp_begin, sampling_rate);
        let rest = ids.skip(body as int + 1);
        lemma_closed_pieces_after_start_inside(
            end,
            rest,
            timestamp_begin,
            sampling_rate,
            chunk_duration,
        );
        let later = pieces_after(end, rest, timestamp_begin, sampling_rate, chunk_duration);
        assert forall|i: int|
            0 <= i < all.len() && is_closed(ids, timestamp_begin, all.len(), i) implies (
        #[trigger] all[i]).start <= chunk_duration by {
            let k = if body == 0 {
                i
            } else {
                i - 1
            };
            if k >= 0 {
                assert(all[i] == later[k]);
                assert(rest.len() > 0);
                assert(is_closed(rest, timestamp_begin, later.len(), k));
            }
        }
    }
}

/// A sub-segment that a timestamp closes starts inside the chunk's audio,
/// and so does one that spans it all.
pub proof fn law_closed_pieces_start_inside(
    ids: Seq<u32>,
    timestamp_begin: u32,
    sampling_rate: nat,
    chunk_duration: nat,
)
    ensures
        ({
            let all = pieces(ids, timestamp_begin, sampling_rate, chunk_duration);
            forall|i: int|
                0 <= i < all.len() && (is_closed(ids, timestamp_begin, all.len(), i) || all_text(
                    ids,
                    timestamp_begin,
                )) ==> (#[trigger] all[i]).start <= chunk_duration
        }),
{
    let lead = text_len(ids, timestamp_begin);
    lemma_text_len(ids, timestamp_begin);
    if lead < ids.len() {
        assert(ids[lead as int] >= timestamp_begin);
        lemma_closed_pieces_after_start_inside(
            token_time_of(ids[lead as int], timestamp_begin, sampling_rate),
            ids.skip(lead as int + 1),
            timestamp_begin,
            sampling_rate,
            chunk_duration,
        );
    }
}

/// The text of sub-segments, one after the other.
pub open spec fn pieces_text(list: Seq<SubSegmentView>) -> Seq<u32> {
    list.map_values(|piece: SubSegmentView| piece.ids).flatten()
}

/// The ids that are no timestamps.
pub open spec fn text_ids(ids: Seq<u32>, timestamp_begin: u32) -> Seq<u32> {
    ids.filter(|id: u32| id < timestamp_begin)
}

/// Ids that are all text are kept.
proof fn lemma_text_ids_all(ids: Seq<u32>, timestamp_begin: u32)
    requires
        all_text(ids, timestamp_begin),
    ensures
        text_ids(ids, timestamp_begin) == ids,
    decreases ids.len(),
{
    let is_text = |id: u32| id < timestamp_begin;
    reveal(Seq::filter);
    if ids.len() > 0 {
        let rest = ids.drop_last();
        assert forall|i: int| 0 <= i < rest.len() implies #[trigger] rest[i] < timestamp_begin by {
            assert(rest[i] == ids[i]);
        }
        lemma_text_ids_all(rest, timestamp_begin);
        assert(ids =~= rest.push(ids.last()));
        rest.lemma_filter_push(ids.last(), is_text);
    } else {
        assert(text_ids(ids, timestamp_begin) =~= ids);
    }
}

/// A timestamp is no text.
proof fn lemma_text_ids_split(ids: Seq<u32>, mark: int, timestamp_begin: u32)
    requires
        0 <= mark < ids.len(),
        ids[mark] >= timestamp_begin,
    ensures
        text_ids(ids, timestamp_begin) == text_ids(ids.take(mark), timestamp_begin) + text_ids(
            ids.skip(mark + 1),
            timestamp_begin,
        ),
{
    let is_text = |id: u32| id < timestamp_begin;
    let head = ids.take(mark);
    let tail = ids.skip(mark + 1);
    assert(ids =~= head.push(ids[mark]) + tail);
    Seq::filter_distributes_over_add(head.push(ids[mark]), tail, is_text);
    head.lemma_filter_push(ids[mark], is_text);
}

/// No text after a timestamp is lost.
proof fn lemma_pieces_after_keep_text(
    start: nat,
    ids: Seq<u32>,
    timestamp_begin: u32,
    sampling_rate: nat,
    chunk_duration: nat,
)
    ensures
        pieces_text(pieces_after(start, ids, timestamp_begin, sampling_rate, chunk_duration))
            == text_ids(ids, timestamp_begin),
    decreases ids.len(),
{
    let part = |piece: SubSegmentView| piece.ids;
    let all = pieces_after(start, ids, timestamp_begin, sampling_rate, chunk_duration);
    let body = text_len(ids, timestamp_begin);
    lemma_text_len(ids, timestamp_begin);
    if body >= ids.len() {
        assert(ids.take(body as int) =~= ids);
        lemma_text_ids_all(ids, timestamp_begin);
        if ids.len() > 0 {
            let one = all.map_values(part);
            assert(one[0] == ids);
            one.lemma_flatten_one_element();
        } else {
            assert(all.map_values(part) =~= Seq::empty());
        }
    } else {
        let end = token_time_of(ids[body as int], timestamp_begin, sampling_rate);
        let text = ids.take(body as int);
        let rest = ids.skip(body as int + 1);
        lemma_pieces_after_keep_text(end, rest, timestamp_begin, sampling_rate, chunk_duration);
        lemma_text_ids_split(ids, body as int, timestamp_begin);
        lemma_text_ids_all(text, timestamp_begin);
        let later = pieces_after(end, rest, timestamp_begin, sampling_rate, chunk_duration);
        if body > 0 {
            let first = seq![all[0]].map_values(part);
            assert(all =~= seq![all[0]] + later);
            assert(all.map_values(part) =~= first + later.map_values(part));
            vstd::seq_lib::lemma_flatten_concat(first, later.map_values(part));
            assert(first[0] == text);
            first.lemma_flatten_one_element();
        } else {
            assert(text + pieces_text(later) =~= pieces_text(later));
        }
    }
}

/// From the first timestamp on, no text is lost: the sub-segments hold all
/// of it, in order, whether or not its timestamps come in pairs.
pub proof fn law_text_after_a_timestamp_is_kept(
    preamble: Seq<u32>,
    mark: u32,
    ids: Seq<u32>,
    timestamp_begin: u32,
    sampling_rate: nat,
    chunk_duration: nat,
)
    requires
        all_text(preamble, timestamp_begin),
        mark >= timestamp_begin,
    ensures
        pieces_text(
            pieces(
                preamble + seq![mark] + ids,
                timestamp_begin,
                sampling_rate,
                chunk_duration,
            ),
        ) == text_ids(ids, timestamp_begin),
{
    let all = preamble + seq![mark] + ids;
    lemma_text_len_upto(preamble, mark, ids, timestamp_begin);
    assert(all.skip(preamble.len() as int + 1) =~= ids);
    lemma_pieces_after_keep_text(
        token_time_of(all[preamble.len() as int], timestamp_begin, sampling_rate),
        ids,
        timestamp_begin,
        sampling_rate,
        chunk_duration,
    );
}

/// Text without any timestamp is never lost: it is one sub-segment that
/// spans the chunk's audio.
pub proof fn law_unmarked_text_is_kept(
    ids: Seq<u32>,
    timestamp_begin: u32,
    sampling_rate: nat,
    chunk_duration: nat,
)
    requires
        ids.len() > 0,
        all_text(ids, timestamp_begin),
    ensures
        pieces(ids, timestamp_begin, sampling_rate, chunk_duration) == seq![
            SubSegmentView { ids, start: 0, end: chunk_duration },
        ],
{
    lemma_text_len_all(ids, timestamp_begin);
}

/// A text between two timestamps, counted in steps.
pub struct Marked {
    pub start: u32,
    pub ids: Seq<u32>,
    pub end: u32,
}

/// The ids of texts between timestamps.
pub open spec fn written(list: Seq<Marked>, timestamp_begin: u32) -> Seq<u32>
    decreases list.len(),
{
    if list.len() == 0 {
        Seq::empty()
    } else {
        seq![(timestamp_begin + list[0].start) as u32] + list[0].ids + seq![
            (timestamp_begin + list[0].end) as u32,
        ] + written(list.skip(1), timestamp_begin)
    }
}

/// What texts between timestamps mean.
pub open spec fn marked_pieces(list: Seq<Marked>, sampling_rate: nat) -> Seq<SubSegmentView> {
    list.map_values(
        |m: Marked| SubSegmentView {
            ids: m.ids,
            start: timestamp_of(m.start as nat, sampling_rate),
            end: timestamp_of(m.end as nat, sampling_rate),
        },
    )
}

/// Whether a text can be written between its timestamps: there is text, and
/// the timestamps exist and lie inside the chunk.
pub open spec fn writable(
    m: Marked,
    timestamp_begin: u32,
    sampling_rate: nat,
    chunk_duration: nat,
) -> bool {
    &&& m.ids.len() > 0
    &&& all_text(m.ids, timestamp_begin)
    &&& timestamp_begin + m.start <= u32::MAX
    &&& timestamp_begin + m.end <= u32::MAX
    &&& timestamp_of(m.start as nat, sampling_rate) <= chunk_duration
    &&& timestamp_of(m.end as nat, sampling_rate) <= chunk_duration
}

/// What is written between timestamps is read back after any timestamp.
proof fn lemma_marked_text_after(
    start: nat,
    list: Seq<Marked>,
    timestamp_begin: u32,
    sampling_rate: nat,
    chunk_duration: nat,
)
    requires
        forall|i: int|
            0 <= i < list.len() ==> writable(
                #[trigger] list[i],
                timestamp_begin,
                sampling_rate,
                chunk_duration,
            ),
    ensures
        pieces_after(
            start,
            written(list, timestamp_begin),
            timestamp_begin,
            sampling_rate,
            chunk_duration,
        ) == marked_pieces(list, sampling_rate),
    decreases list.len(),
{
    let all = written(list, timestamp_begin);
    if list.len() == 0 {
        assert(marked_pieces(list, sampling_rate) =~= Seq::empty());
    } else {
        let m = list[0];
        let rest = list.skip(1);
        assert(writable(m, timestamp_begin, sampling_rate, chunk_duration));
        assert forall|i: int| 0 <= i < rest.len() implies writable(
            #[trigger] rest[i],
            timestamp_begin,
            sampling_rate,
            chunk_duration,
        ) by {
            assert(rest[i] == list[i + 1]);
        }
        let open = (timestamp_begin + m.start) as u32;
        let close = (timestamp_begin + m.end) as u32;
        let later = written(rest, timestamp_begin);
        assert(all[0] == open);
        let body = all.skip(1);
        assert(body =~= m.ids + seq![close] + later);
        lemma_text_len_upto(m.ids, close, later, timestamp_begin);
        assert(body.take(m.ids.len() as int) =~= m.ids);
        assert(body.skip(m.ids.len() as int + 1) =~= later);
        assert(body[m.ids.len() as int] == close);
        lemma_marked_text_after(
            token_time_of(close, timestamp_begin, sampling_rate),
            rest,
            timestamp_begin,
            sampling_rate,
            chunk_duration,
        );
        reveal_with_fuel(pieces_after, 2);
        assert(marked_pieces(list, sampling_rate) =~= seq![
            SubSegmentView {
                ids: m.ids,
                start: timestamp_of(m.start as nat, sampling_rate),
                end: timestamp_of(m.end as nat, sampling_rate),
            },
        ] + marked_pieces(rest, sampling_rate));
    }
}

/// What is written between timestamps is read back as it is: each text with
/// its times, in order.
pub proof fn law_marked_text_is_read_back(
    list: Seq<Marked>,
    timestamp_begin: u32,
    sampling_rate: nat,
    chunk_duration: nat,
)
    requires
        forall|i: int|
            0 <= i < list.len() ==> writable(
                #[trigger] list[i],
                timestamp_begin,
                sampling_rate,
                chunk_duration,
            ),
    ensures
        pieces(
            written(list, timestamp_begin),
            timestamp_begin,
            sampling_rate,
            chunk_duration,
        ) == marked_pieces(list, sampling_rate),
{
    let all = written(list, timestamp_begin);
    lemma_marked_text_after(0, list, timestamp_begin, sampling_rate, chunk_duration);
    if list.len() > 0 {
        assert(writable(list[0], timestamp_begin, sampling_rate, chunk_duration));
        assert(all[0] >= timestamp_begin);
        assert(all.take(0) =~= Seq::empty());
    }
}

/// What stands between two timestamps stands there whatever is around it:
/// ids can be cut at any timestamp, which then closes the one half and
/// opens the other.
pub proof fn law_ids_can_be_cut_at_timestamps(
    head: Seq<u32>,
    mark: u32,
    tail: Seq<u32>,
    timestamp_begin: u32,
    sampling_rate: nat,
    chunk_duration: nat,
)
    requires
        mark >= timestamp_begin,
    ensures
        pieces(head + seq![mark] + tail, timestamp_begin, sampling_rate, chunk_duration) == pieces(
            head + seq![mark],
            timestamp_begin,
            sampling_rate,
            chunk_duration,
        ) + pieces(seq![mark] + tail, timestamp_begin, sampling_rate, chunk_duration),
{
    let all = head + seq![mark] + tail;
    let front = head + seq![mark];
    let back = seq![mark] + tail;
    let time = token_time_of(mark, timestamp_begin, sampling_rate);
    assert(back.skip(1) =~= tail);
    assert(text_len(back, timestamp_begin) == 0);
    let lead = text_len(head, timestamp_begin);
    lemma_text_len(head, timestamp_begin);
    if lead >= head.len() {
        assert(head.take(lead as int) =~= head);
        lemma_text_len_upto(head, mark, tail, timestamp_begin);
        lemma_text_len_upto(head, mark, Seq::empty(), timestamp_begin);
        assert(head + seq![mark] + Seq::empty() =~= front);
        assert(all.skip(lead as int + 1) =~= tail);
        assert(front.skip(lead as int + 1) =~= Seq::empty());
        assert(pieces(front, timestamp_begin, sampling_rate, chunk_duration).len() == 0);
        assert(pieces(all, timestamp_begin, sampling_rate, chunk_duration) =~= pieces(
            front,
            timestamp_begin,
            sampling_rate,
            chunk_duration,
        ) + pieces(back, timestamp_begin, sampling_rate, chunk_duration));
    } else {
        let first = head[lead as int];
        let rest = head.skip(lead as int + 1);
        let start = token_time_of(first, timestamp_begin, sampling_rate);
        let preamble = head.take(lead as int);
        assert(all =~= preamble + seq![first] + (rest + seq![mark] + tail));
        assert(front =~= preamble + seq![first] + (rest + seq![mark]));
        lemma_text_len_upto(preamble, first, rest + seq![mark] + tail, timestamp_begin);
        lemma_text_len_upto(preamble, first, rest + seq![mark], timestamp_begin);
        assert(all.skip(lead as int + 1) =~= rest + seq![mark] + tail);
        assert(front.skip(lead as int + 1) =~= rest + seq![mark]);
        lemma_cut_after(start, rest, mark, tail, timestamp_begin, sampling_rate, chunk_duration);
    }
}

/// Ids that follow a timestamp can be cut at any other.
proof fn lemma_cut_after(
    start: nat,
    head: Seq<u32>,
    mark: u32,
    tail: Seq<u32>,
    timestamp_begin: u32,
    sampling_rate: nat,
    chunk_duration: nat,
)
    requires
        mark >= timestamp_begin,
    ensures
        pieces_after(
            start,
            head + seq![mark] + tail,
            timestamp_begin,
            sampling_rate,
            chunk_duration,
        ) == pieces_after(
            start,
            head + seq![mark],
            timestamp_begin,
            sampling_rate,
            chunk_duration,
        ) + pieces_after(
            token_time_of(mark, timestamp_begin, sampling_rate),
            tail,
            timestamp_begin,
            sampling_rate,
            chunk_duration,
        ),
    decreases head.len(),
{
    let all = head + seq![mark] + tail;
    let front = head + seq![mark];
    let time = token_time_of(mark, timestamp_begin, sampling_rate);
    let body = text_len(head, timestamp_begin);
    let later = pieces_after(time, tail, timestamp_begin, sampling_rate, chunk_duration);
    lemma_text_len(head, timestamp_begin);
    reveal_with_fuel(pieces_after, 2);
    if body >= head.len() {
        assert(head.take(body as int) =~= head);
        lemma_text_len_upto(head, mark, tail, timestamp_begin);
        lemma_text_len_upto(head, mark, Seq::empty(), timestamp_begin);
        assert(head + seq![mark] + Seq::empty() =~= front);
        assert(all.skip(body as int + 1) =~= tail);
        assert(front.skip(body as int + 1) =~= Seq::empty());
        assert(all.take(body as int) =~= head);
        assert(front.take(body as int) =~= head);
        assert(all[body as int] == mark && front[body as int] == mark);
        let none = pieces_after(
            time,
            Seq::empty(),
            timestamp_begin,
            sampling_rate,
            chunk_duration,
        );
        assert(none.len() == 0);
        assert(none + later =~= later);
        assert(pieces_after(start, all, timestamp_begin, sampling_rate, chunk_duration)
            =~= pieces_after(start, front, timestamp_begin, sampling_rate, chunk_duration)
            + later);
    } else {
        let first = head[body as int];
        let rest = head.skip(body as int + 1);
        let text = head.take(body as int);
        let end = token_time_of(first, timestamp_begin, sampling_rate);
        assert(all =~= text + seq![first] + (rest + seq![mark] + tail));
        assert(front =~= text + seq![first] + (rest + seq![mark]));
        lemma_text_len_upto(text, first, rest + seq![mark] + tail, timestamp_begin);
        lemma_text_len_upto(text, first, rest + seq![mark], timestamp_begin);
        assert(all.skip(body as int + 1) =~= rest + seq![mark] + tail);
        assert(front.skip(body as int + 1) =~= rest + seq![mark]);
        assert(all.take(body as int) =~= text);
        assert(front.take(body as int) =~= text);
        lemma_cut_after(end, rest, mark, tail, timestamp_begin, sampling_rate, chunk_duration);
        assert(pieces_after(start, all, timestamp_begin, sampling_rate, chunk_duration)
            =~= pieces_after(start, front, timestamp_begin, sampling_rate, chunk_duration)
            + later);
    }
}

/// Text between two timestamps is one sub-segment from the one to the
/// other, and neither time lies past the end of the chunk. Text after the
/// last timestamp starts there and ends with the chunk. Text before the
/// first one is left out, and so is a timestamp with no text. A timestamp
/// token counts 20 ms per id from the first.
pub proof fn law_timestamps_bound_the_text(
    start: u32,
    text: Seq<u32>,
    end: u32,
    timestamp_begin: u32,
    sampling_rate: nat,
    chunk_duration: nat,
)
    requires
        start >= timestamp_begin,
        end >= timestamp_begin,
        text.len() > 0,
        all_text(text, timestamp_begin),
    ensures
        ({
            let step = 2 * sampling_rate;
            let from = (start - timestamp_begin) as nat * step;
            let to = (end - timestamp_begin) as nat * step;
            let read = |ids: Seq<u32>|
                pieces(ids, timestamp_begin, sampling_rate, chunk_duration);
            let between = read(seq![start] + text + seq![end]);
            &&& 50 * step == second_of(sampling_rate)
            &&& between.len() == 1
            &&& between[0].ids == text
            &&& between[0].start == if from <= chunk_duration {
                from
            } else {
                chunk_duration
            }
            &&& between[0].end == if to <= chunk_duration {
                to
            } else {
                chunk_duration
            }
            &&& read(seq![start] + text) == seq![
                SubSegmentView { ids: text, start: from, end: chunk_duration },
            ]
            &&& read(text + seq![end]).len() == 0
            &&& read(seq![start]).len() == 0
            &&& read(seq![start] + seq![end]).len() == 0
        }),
{
    let read = |ids: Seq<u32>| pieces(ids, timestamp_begin, sampling_rate, chunk_duration);
    let body = text + seq![end];
    reveal_with_fuel(pieces_after, 2);
    lemma_text_len_all(text, timestamp_begin);
    lemma_text_len_upto(text, end, Seq::empty(), timestamp_begin);
    assert(text + seq![end] + Seq::empty() =~= body);
    assert((seq![start] + text + seq![end]).skip(1) =~= body);
    assert(body.take(text.len() as int) =~= text);
    assert(body.skip(text.len() as int + 1) =~= Seq::empty());
    assert((seq![start] + text).skip(1) =~= text);
    assert(seq![start].skip(1) =~= Seq::empty());
    let both = seq![start] + seq![end];
    assert(both.skip(1) =~= seq![end]);
    assert(seq![end].skip(1) =~= Seq::empty());
    assert(text_len(seq![end], timestamp_begin) == 0);
    assert(text_len(both, timestamp_begin) == 0);
    assert(read(seq![start] + text) =~= seq![
        SubSegmentView {
            ids: text,
            start: token_time_of(start, timestamp_begin, sampling_rate),
            end: chunk_duration,
        },
    ]);
}

/// Ids in their own width are the same numbers. They are refused exactly
/// where one of them is too wide, and the first that is gets named.
pub proof fn law_ids_are_narrowed_or_named(ids: Seq<usize>)
    ensures
        match narrowed(ids) {
            Ok(narrow) => narrow.len() == ids.len() && forall|i: int|
                0 <= i < ids.len() ==> #[trigger] narrow[i] == ids[i],
            Err(e) => exists|i: int|
                0 <= i < ids.len() && #[trigger] ids[i] > 0xffff_ffff && (forall|j: int|
                    0 <= j < i ==> #[trigger] ids[j] <= 0xffff_ffff) && e == uncategorized(
                    "token id "@ + decimal_of(ids[i] as nat) + " exceeds u32"@,
                ),
        },
    decreases ids.len(),
{
    if ids.len() > 0 {
        let head = ids.drop_last();
        law_ids_are_narrowed_or_named(head);
        match narrowed(head) {
            Ok(narrow) => {
                if ids.last() > u32::MAX {
                    let n = ids.len() - 1;
                    assert forall|j: int| 0 <= j < n implies #[trigger] ids[j] <= 0xffff_ffff by {
                        assert(narrow[j] == head[j]);
                    }
                    assert(ids[n] > 0xffff_ffff);
                }
            },
            Err(e) => {
                let i = choose|i: int|
                    0 <= i < head.len() && #[trigger] head[i] > 0xffff_ffff && (forall|j: int|
                        0 <= j < i ==> #[trigger] head[j] <= 0xffff_ffff) && e == uncategorized(
                        "token id "@ + decimal_of(head[i] as nat) + " exceeds u32"@,
                    );
                assert(ids[i] == head[i]);
                assert forall|j: int| 0 <= j < i implies #[trigger] ids[j] <= 0xffff_ffff by {
                    assert(head[j] == ids[j]);
                }
            },
        }
    }
}

/// The special tokens are those of the vocabulary, and timestamps start
/// right after `<|notimestamps|>`. They are found exactly where the
/// vocabulary has all four and an id is left for timestamps.
pub proof fn law_special_tokens_are_the_vocabularys(tokenizer: tokenizers::Tokenizer)
    ensures
        specials_of(tokenizer) is Ok <==> (id_of(tokenizer, "<|startoftranscript|>"@) is Some
            && id_of(tokenizer, "<|startofprev|>"@) is Some && id_of(
            tokenizer,
            "<|transcribe|>"@,
        ) is Some && (id_of(tokenizer, "<|notimestamps|>"@) matches Some(id) && id
            < 0xffff_ffff)),
        specials_of(tokenizer) matches Ok(specials) ==> {
            &&& id_of(tokenizer, "<|startoftranscript|>"@) == Some(specials.sot)
            &&& id_of(tokenizer, "<|transcribe|>"@) == Some(specials.transcribe)
            &&& id_of(tokenizer, "<|notimestamps|>"@) == Some(specials.no_timestamps)
            &&& specials.timestamp_begin == specials.no_timestamps + 1
        },
{
}

/// A language's token is its code between `<|` and `|>`, and codes that
/// hold none of these characters are read back from it.
pub proof fn law_plain_codes_are_read_back(code: Seq<char>)
    requires
        forall|i: int|
            0 <= i < code.len() ==> (#[trigger] code[i]) != '<' && code[i] != '|' && code[i] != '>',
    ensures
        language_code_of(seq!['<', '|'] + code + seq!['|', '>']) == code,
        language_token_of(code) == seq!['<', '|'] + code + seq!['|', '>'],
        language_code_of(code) == code,
{
    reveal_strlit("<|");
    reveal_strlit("|>");
    assert("<|"@ =~= seq!['<', '|']);
    assert("|>"@ =~= seq!['|', '>']);
    assert(code.len() >= 2 ==> code[code.len() - 1] != '>' && code[0] != '<');
    assert(code.len() > 0 ==> (code + "|>"@)[0] == code[0]);
    law_language_code_round_trip(code);
}

/// Half of the context, but for one token, is left to an initial prompt and
/// to a prefix each; the context is 448 tokens, or what the caller allows
/// if that is less.
pub proof fn law_prompt_budget_is_half_the_context(max_length: nat)
    ensures
        ({
            let budget = prompt_budget_of(max_length);
            &&& max_length >= 448 ==> budget == 223
            &&& 2 <= max_length < 448 ==> 2 * budget + 2 <= max_length < 2 * budget + 4
            &&& max_length < 2 ==> budget == 0
        }),
{
}

/// An initial prompt keeps its end and a prefix its beginning: as many
/// elements as fit, in order, and all of them where they fit.
pub proof fn law_prompts_keep_what_is_next_to_the_transcript<T>(s: Seq<T>, n: nat)
    ensures
        last_of(s, n).len() == if s.len() <= n {
            s.len()
        } else {
            n
        },
        first_of(s, n).len() == last_of(s, n).len(),
        forall|i: int|
            0 <= i < last_of(s, n).len() ==> #[trigger] last_of(s, n)[i] == s[s.len() - last_of(
                s,
                n,
            ).len() + i],
        forall|i: int| 0 <= i < first_of(s, n).len() ==> #[trigger] first_of(s, n)[i] == s[i],
{
}

/// Prompt text is one space and then the text without the white space
/// around it. There is none exactly where the text is blank.
pub proof fn law_prompt_text_is_trimmed(text: Seq<char>)
    ensures
        prompt_text_of(text) is None <==> blank(text),
        prompt_text_of(text) matches Some(led) ==> {
            &&& led.len() >= 2
            &&& led[0] == ' '
            &&& !white_space(led[1])
            &&& !white_space(led.last())
            &&& led.skip(1) == trim_of(text)
        },
{
    let r = law_trim_leaves_the_visible_stretch(text);
    reveal_strlit(" ");
    if let Some(led) = prompt_text_of(text) {
        assert(led.skip(1) =~= trim_of(text));
        assert(led[1] == trim_of(text)[0]);
        assert(led.last() == trim_of(text)[trim_of(text).len() - 1]);
    }
}

/// How a prompt is laid out: the text before, opened by its own token, only
/// where there is any; the start of the transcript; on a multilingual
/// checkpoint the language and the task; the switch that turns timestamps
/// off, only where they are off; and at the end the prefix. Nothing else is
/// in it.
pub proof fn law_prompt_layout(parts: PromptParts<'_>)
    ensures
        ({
            let prompt = parts.prompt();
            let initial = parts.initial_prompt@;
            let prefix = parts.prefix@;
            let n = initial.len() as int;
            let sot = if n > 0 {
                n + 1
            } else {
                0
            };
            let task = if parts.multilingual {
                sot + 2
            } else {
                sot
            };
            let end = if parts.with_timestamps {
                task + 1
            } else {
                task + 2
            };
            &&& prompt.len() == end + prefix.len()
            &&& n > 0 ==> prompt[0] == parts.startofprev@
            &&& forall|i: int| 0 <= i < n ==> prompt[i + 1] == (#[trigger] initial[i])@
            &&& prompt[sot] == parts.sot@
            &&& parts.multilingual ==> prompt[sot + 1] == parts.language_token@ && prompt[sot + 2]
                == parts.transcribe@
            &&& !parts.with_timestamps ==> prompt[task + 1] == parts.no_timestamps@
            &&& forall|i: int| 0 <= i < prefix.len() ==> prompt[end + i] == (
                #[trigger] prefix[i])@
        }),
{
    let texts_before = texts(parts.initial_prompt@);
    let texts_behind = texts(parts.prefix@);
    assert(texts_before.len() == parts.initial_prompt@.len());
    assert(texts_behind.len() == parts.prefix@.len());
    assert forall|i: int| 0 <= i < parts.initial_prompt@.len() implies texts_before[i] == (
    #[trigger] parts.initial_prompt@[i])@ by {}
    assert forall|i: int| 0 <= i < parts.prefix@.len() implies texts_behind[i] == (
    #[trigger] parts.prefix@[i])@ by {}
}

/// Brackets come off as often as they are there: one more `<|` in front, or
/// one more `|>` behind, makes no difference to the code. (Where `<` and
/// the closing bracket would make up an opening one, they do.)
pub proof fn law_brackets_come_off(s: Seq<char>)
    ensures
        language_code_of(seq!['<', '|'] + s) == language_code_of(s),
        s.len() == 0 || s.last() != '<' ==> language_code_of(s + seq!['|', '>'])
            == language_code_of(s),
{
    assert((seq!['<', '|'] + s).skip(2) =~= s);
    if s.len() == 0 || s.last() != '<' {
        lemma_opening_stays_clear(s);
        let closed = without_open(s) + seq!['|', '>'];
        assert(closed.take(closed.len() - 2) =~= without_open(s));
    }
}

/// A closing bracket does not change what opens a text, unless `<` is right
/// before it.
proof fn lemma_opening_stays_clear(s: Seq<char>)
    requires
        s.len() == 0 || s.last() != '<',
    ensures
        without_open(s + seq!['|', '>']) == without_open(s) + seq!['|', '>'],
    decreases s.len(),
{
    let all = s + seq!['|', '>'];
    if s.len() >= 2 && s[0] == '<' && s[1] == '|' {
        assert(all.skip(2) =~= s.skip(2) + seq!['|', '>']);
        if s.len() > 2 {
            assert(s.skip(2).last() == s.last());
        }
        lemma_opening_stays_clear(s.skip(2));
    } else if s.len() == 1 {
        assert(all[0] == s[0] && s[0] == s.last());
    }
}

/// The first special token that is missing is named, in this order.
pub proof fn law_missing_tokens_are_named(
    no_timestamps: Option<u32>,
    startofprev: Option<u32>,
    sot: Option<u32>,
    transcribe: Option<u32>,
)
    ensures
        no_timestamps is None ==> specials_from(no_timestamps, startofprev, sot, transcribe)
            == Err::<SpecialTokens, _>(
            uncategorized(
                "special token "@ + "<|notimestamps|>"@ + " missing from tokenizer vocab"@,
            ),
        ),
        no_timestamps is Some && startofprev is None ==> specials_from(
            no_timestamps,
            startofprev,
            sot,
            transcribe,
        ) == Err::<SpecialTokens, _>(
            uncategorized(
                "special token "@ + "<|startofprev|>"@ + " missing from tokenizer vocab"@,
            ),
        ),
        no_timestamps is Some && startofprev is Some && sot is None ==> specials_from(
            no_timestamps,
            startofprev,
            sot,
            transcribe,
        ) == Err::<SpecialTokens, _>(
            uncategorized(
                "special token "@ + "<|startoftranscript|>"@ + " missing from tokenizer vocab"@,
            ),
        ),
        no_timestamps is Some && startofprev is Some && sot is Some && transcribe is None
            ==> specials_from(no_timestamps, startofprev, sot, transcribe) == Err::<
            SpecialTokens,
            _,
        >(
            uncategorized(
                "special token "@ + "<|transcribe|>"@ + " missing from tokenizer vocab"@,
            ),
        ),
{
}

/// What the tokenizer makes of a text or of ids is passed on as it is, and
/// so is its complaint, with what it was about in front.
pub proof fn law_tokenizer_results_are_passed_on(
    tokens: Seq<Seq<char>>,
    text: Seq<char>,
    reason: Seq<char>,
)
    ensures
        plain_tokens(Ok(tokens)) == Ok::<_, Seq<CauseView>>(tokens),
        plain_tokens(Err(reason)) == Err::<Seq<Seq<char>>, _>(
            uncategorized("failed to tokenize prompt text: "@ + reason),
        ),
        plain_text(Ok(text)) == Ok::<_, Seq<CauseView>>(text),
        plain_text(Err(reason)) == Err::<Seq<char>, _>(
            uncategorized("failed to decode tokens: "@ + reason),
        ),
{
}

} // verus!
