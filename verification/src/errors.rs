//! Categorised errors.
//!
//! An [`Error`] is a chain of causes, outermost first. A cause may pin the
//! reason that callers branch on (`"invalid_request"`, `"runtime_error"`);
//! a chain without one is a failure of the model, `"inference_error"`.
//! [`NativeError`] is the flat form that crosses the boundary.

use vstd::prelude::*;
use vstd::string::*;

use crate::text::{joined, law_joined_one_by_one, same_text};

verus! {

/// A message together with the reason it is reported under.
#[derive(Debug)]
pub struct Categorized {
    /// One of the reason strings: `"invalid_request"`, `"runtime_error"`,
    /// `"inference_error"`, `"load_error"`.
    pub kind: &'static str,
    pub message: String,
}

/// One link of an error chain.
#[derive(Debug)]
pub enum Cause {
    Categorized(Categorized),
    Plain(String),
}

/// What a link of an error chain says.
#[verifier::ext_equal]
pub struct CauseView {
    pub kind: Option<Seq<char>>,
    pub message: Seq<char>,
}

impl View for Cause {
    type V = CauseView;

    open spec fn view(&self) -> CauseView {
        match self {
            Cause::Categorized(c) => CauseView { kind: Some(c.kind@), message: c.message@ },
            Cause::Plain(message) => CauseView { kind: None, message: message@ },
        }
    }
}

/// A failure: the chain of its causes, outermost first.
#[derive(Debug)]
pub struct Error {
    pub causes: Vec<Cause>,
}

impl View for Error {
    type V = Seq<CauseView>;

    open spec fn view(&self) -> Seq<CauseView> {
        self.causes@.map_values(|c: Cause| c@)
    }
}

/// The chain of a single categorised cause.
pub open spec fn categorized(kind: Seq<char>, message: Seq<char>) -> Seq<CauseView> {
    seq![CauseView { kind: Some(kind), message }]
}

/// The chain of a single cause without a category.
pub open spec fn uncategorized(message: Seq<char>) -> Seq<CauseView> {
    seq![CauseView { kind: None, message }]
}

/// `chain` with `message` wrapped round it.
pub open spec fn in_context(chain: Seq<CauseView>, message: Seq<char>) -> Seq<CauseView> {
    uncategorized(message) + chain
}

/// The category of the outermost cause that has one.
pub open spec fn first_kind(chain: Seq<CauseView>) -> Option<Seq<char>>
    decreases chain.len(),
{
    if chain.len() == 0 {
        None
    } else if chain[0].kind is Some {
        chain[0].kind
    } else {
        first_kind(chain.skip(1))
    }
}

/// A result with `found` put in front of it.
pub open spec fn after<T>(found: Seq<T>, later: Result<Seq<T>, Seq<CauseView>>) -> Result<
    Seq<T>,
    Seq<CauseView>,
> {
    match later {
        Ok(list) => Ok(found + list),
        Err(e) => Err(e),
    }
}

/// With nothing in front, a result is as it was.
pub proof fn lemma_after_nothing<T>(found: Seq<T>, later: Result<Seq<T>, Seq<CauseView>>)
    requires
        found.len() == 0,
    ensures
        after(found, later) == later,
{
    if let Ok(list) = later {
        assert(found + list =~= list);
    }
}

/// What is put in front, and in front of that, is put in front together.
pub proof fn lemma_after_more<T>(
    found: Seq<T>,
    more: Seq<T>,
    later: Result<Seq<T>, Seq<CauseView>>,
)
    ensures
        after(found, after(more, later)) == after(found + more, later),
{
    if let Ok(list) = later {
        assert(found + (more + list) =~= (found + more) + list);
    }
}

/// One more element in front goes to the end of those before it.
pub proof fn lemma_after_push<T>(found: Seq<T>, one: T, later: Result<Seq<T>, Seq<CauseView>>)
    ensures
        after(found, after(seq![one], later)) == after(found.push(one), later),
{
    lemma_after_more(found, seq![one], later);
    assert(found + seq![one] =~= found.push(one));
}

/// What stands in front of nothing is all there is.
pub proof fn lemma_after_all<T>(found: Seq<T>)
    ensures
        after(found, Ok(Seq::empty())) == Ok::<_, Seq<CauseView>>(found),
{
    assert(found + Seq::empty() =~= found);
}

/// The messages of the chain, outermost first.
pub open spec fn chain_messages(chain: Seq<CauseView>) -> Seq<Seq<char>> {
    chain.map_values(|c: CauseView| c.message)
}

/// User input was rejected: a bad language code, a batch of mixed languages
/// with word timestamps, an over-large input. Reported as
/// `invalid_request`.
pub fn invalid_request(message: String) -> (r: Error)
    ensures
        r@ == categorized("invalid_request"@, message@),
{
    let cause = Cause::Categorized(Categorized { kind: "invalid_request", message });
    let r = Error { causes: vec![cause] };
    assert(r@ =~= categorized("invalid_request"@, message@));
    r
}

/// An internal fault, as opposed to a failure of the model. Reported as
/// `runtime_error`.
pub fn runtime_error(message: String) -> (r: Error)
    ensures
        r@ == categorized("runtime_error"@, message@),
{
    let cause = Cause::Categorized(Categorized { kind: "runtime_error", message });
    let r = Error { causes: vec![cause] };
    assert(r@ =~= categorized("runtime_error"@, message@));
    r
}

/// A failure without a category of its own.
pub fn failure(message: String) -> (r: Error)
    ensures
        r@ == uncategorized(message@),
{
    let r = Error { causes: vec![Cause::Plain(message)] };
    assert(r@ =~= uncategorized(message@));
    r
}

/// The category of the outermost cause that has one.
pub fn kind_from_chain(err: &Error) -> (r: Option<&'static str>)
    ensures
        match r {
            Some(kind) => first_kind(err@) == Some(kind@),
            None => first_kind(err@) is None,
        },
{
    assert(err@.skip(0) =~= err@);
    for i in 0..err.causes.len()
        invariant
            first_kind(err@) == first_kind(err@.skip(i as int)),
    {
        assert(err@.skip(i as int).skip(1) =~= err@.skip(i + 1));
        assert(err@[i as int] == err.causes@[i as int]@);
        if let Cause::Categorized(c) = &err.causes[i] {
            return Some(c.kind);
        }
    }
    None
}

impl Error {
    /// Wraps the chain in a further, outermost message.
    pub fn context(self, message: String) -> (r: Error)
        ensures
            r@ == in_context(self@, message@),
    {
        let mut causes = self.causes;
        causes.insert(0, Cause::Plain(message));
        let r = Error { causes };
        assert(r@ =~= in_context(self@, message@));
        r
    }

    /// Every message of the chain, outermost first, separated by `": "`.
    pub fn message(&self) -> (r: String)
        ensures
            r@ == joined(chain_messages(self@), ": "@),
    {
        let mut out = String::new();
        let ghost all = chain_messages(self@);
        for i in 0..self.causes.len()
            invariant
                all == chain_messages(self@),
                out@ == joined(all.take(i as int), ": "@),
        {
            let ghost before = out@;
            assert(all.take(i + 1).drop_last() =~= all.take(i as int));
            assert(all[i as int] == self.causes@[i as int]@.message);
            if i > 0 {
                out.append(": ");
            }
            match &self.causes[i] {
                Cause::Categorized(c) => out.append(c.message.as_str()),
                Cause::Plain(message) => out.append(message.as_str()),
            }
            assert(i == 0 ==> out@ =~= all[0]);
        }
        assert(all.take(all.len() as int) =~= all);
        out
    }
}

/// Adding context never hides or changes the category of a failure.
pub proof fn law_context_keeps_kind(chain: Seq<CauseView>, message: Seq<char>)
    ensures
        first_kind(in_context(chain, message)) == first_kind(chain),
{
    assert(in_context(chain, message).skip(1) =~= chain);
}

/// An error as it is reported: its reason, a message and named details.
/// No detail is named twice.
#[derive(Debug)]
pub struct NativeError {
    reason: String,
    message: String,
    details: Vec<(String, String)>,
}

/// What a [`NativeError`] reports.
#[verifier::ext_equal]
pub struct NativeErrorView {
    pub reason: Seq<char>,
    pub message: Seq<char>,
    pub details: Map<Seq<char>, Seq<char>>,
}

/// The report of an error with no details.
pub open spec fn native(reason: Seq<char>, message: Seq<char>) -> NativeErrorView {
    NativeErrorView { reason, message, details: Map::empty() }
}

impl NativeErrorView {
    /// The report with one detail set.
    pub open spec fn with(self, key: Seq<char>, value: Seq<char>) -> NativeErrorView {
        NativeErrorView { details: self.details.insert(key, value), ..self }
    }
}

/// The entry with the given name, if there is one.
spec fn entry_of(entries: Seq<(String, String)>, key: Seq<char>) -> Option<int> {
    if exists|i: int| 0 <= i < entries.len() && (#[trigger] entries[i]).0@ == key {
        Some(choose|i: int| 0 <= i < entries.len() && (#[trigger] entries[i]).0@ == key)
    } else {
        None
    }
}

/// The details that a list of entries with distinct names holds.
spec fn details_of(entries: Seq<(String, String)>) -> Map<Seq<char>, Seq<char>> {
    Map::new(
        |key: Seq<char>| entry_of(entries, key) is Some,
        |key: Seq<char>| entries[entry_of(entries, key)->0].1@,
    )
}

/// Whether no name comes twice.
spec fn distinct_names(entries: Seq<(String, String)>) -> bool {
    forall|i: int, j: int|
        0 <= i < j < entries.len() ==> (#[trigger] entries[i]).0@ != (#[trigger] entries[j]).0@
}

impl View for NativeError {
    type V = NativeErrorView;

    closed spec fn view(&self) -> NativeErrorView {
        NativeErrorView {
            reason: self.reason@,
            message: self.message@,
            details: details_of(self.details@),
        }
    }
}

impl NativeError {
    /// No detail is named twice.
    #[verifier::type_invariant]
    spec fn names_are_distinct(&self) -> bool {
        distinct_names(self.details@)
    }

    /// An error with no details.
    pub fn new(reason: &str, message: String) -> (r: NativeError)
        ensures
            r@ == native(reason@, message@),
    {
        let r = NativeError { reason: reason.to_owned(), message, details: Vec::new() };
        assert(r@.details =~= Map::empty());
        r
    }

    /// The error with one detail added, or replaced where it is already
    /// there.
    pub fn with_detail(self, key: &str, value: String) -> (r: NativeError)
        ensures
            r@ == self@.with(key@, value@),
    {
        proof {
            use_type_invariant(&self);
        }
        let mut entries = self.details;
        let ghost before = entries@;
        let ghost added = value@;
        let mut i: usize = 0;
        while i < entries.len() && !same_text(entries[i].0.as_str(), key)
            invariant
                entries@ == before,
                i <= before.len(),
                forall|j: int| 0 <= j < i ==> (#[trigger] before[j]).0@ != key@,
            decreases before.len() - i,
        {
            i = i + 1;
        }
        let entry = (key.to_owned(), value);
        if i < entries.len() {
            entries.set(i, entry);
        } else {
            entries.push(entry);
        }
        assert forall|k: Seq<char>| #[trigger] entry_of(entries@, k) is Some implies ({
            &&& k == key@ || entry_of(before, k) is Some
            &&& entries@[entry_of(entries@, k)->0].1@ == if k == key@ {
                added
            } else {
                before[entry_of(before, k)->0].1@
            }
        }) by {
            let at = entry_of(entries@, k)->0;
            assert(entries@[at].0@ == k);
            if k != key@ {
                assert(before[at].0@ == k);
            } else {
                assert(entries@[i as int].0@ == k);
            }
        }
        assert forall|k: Seq<char>| k == key@ || #[trigger] entry_of(before, k) is Some implies
            entry_of(entries@, k) is Some by {
            if k == key@ {
                assert(entries@[i as int].0@ == k);
            } else {
                let at = entry_of(before, k)->0;
                assert(before[at].0@ == k);
                assert(entries@[at].0@ == k);
            }
        }
        let r = NativeError { reason: self.reason, message: self.message, details: entries };
        assert(r@.details =~= self@.details.insert(key@, added));
        r
    }

    /// The reason the error is reported under.
    pub fn reason(&self) -> (r: &str)
        ensures
            r@ == self@.reason,
    {
        self.reason.as_str()
    }

    /// The message of the error.
    pub fn message(&self) -> (r: &str)
        ensures
            r@ == self@.message,
    {
        self.message.as_str()
    }

    /// The value of a detail.
    pub fn detail(&self, key: &str) -> (r: Option<&str>)
        ensures
            match r {
                Some(value) => self@.details.dom().contains(key@) && self@.details[key@] == value@,
                None => !self@.details.dom().contains(key@),
            },
    {
        proof {
            use_type_invariant(self);
        }
        for i in 0..self.details.len()
            invariant
                distinct_names(self.details@),
                forall|j: int| 0 <= j < i ==> (#[trigger] self.details@[j]).0@ != key@,
        {
            if same_text(self.details[i].0.as_str(), key) {
                assert(self.details@[i as int].0@ == key@);
                return Some(self.details[i].1.as_str());
            }
        }
        None
    }

    /// Every detail, each with its name.
    pub fn into_details(self) -> (r: Vec<(String, String)>)
        ensures
            forall|i: int, j: int|
                0 <= i < j < r@.len() ==> (#[trigger] r@[i]).0@ != (#[trigger] r@[j]).0@,
            forall|key: Seq<char>| #[trigger]
                self@.details.dom().contains(key) <==> exists|i: int|
                    0 <= i < r@.len() && (#[trigger] r@[i]).0@ == key,
            forall|i: int|
                0 <= i < r@.len() ==> self@.details[(#[trigger] r@[i]).0@] == r@[i].1@,
    {
        proof {
            use_type_invariant(&self);
        }
        self.details
    }

    /// The report of a failed transcription: the category of the chain, or
    /// `inference_error` where the chain has none, and all of its messages.
    pub fn from_error(err: &Error) -> (r: NativeError)
        ensures
            r@ == native(
                match first_kind(err@) {
                    Some(kind) => kind,
                    None => "inference_error"@,
                },
                joined(chain_messages(err@), ": "@),
            ),
    {
        match kind_from_chain(err) {
            Some(kind) => NativeError::new(kind, err.message()),
            None => NativeError::new("inference_error", err.message()),
        }
    }
}

/// The category of a failure is that of the outermost cause that has one,
/// whatever stands further in, and there is none exactly where no cause has
/// one.
pub proof fn law_outermost_category_wins(
    outer: Seq<CauseView>,
    cause: CauseView,
    inner: Seq<CauseView>,
)
    requires
        forall|i: int| 0 <= i < outer.len() ==> (#[trigger] outer[i]).kind is None,
    ensures
        first_kind(outer) is None,
        cause.kind is Some ==> first_kind(outer + seq![cause] + inner) == cause.kind,
    decreases outer.len(),
{
    let chain = outer + seq![cause] + inner;
    if outer.len() > 0 {
        let rest = outer.skip(1);
        assert(outer[0].kind is None);
        assert forall|i: int| 0 <= i < rest.len() implies (#[trigger] rest[i]).kind is None by {
            assert(outer[i + 1].kind is None);
        }
        assert(chain[0] == outer[0]);
        assert(chain.skip(1) =~= rest + seq![cause] + inner);
        law_outermost_category_wins(rest, cause, inner);
    } else {
        assert(chain[0] == cause);
    }
}

/// A failed transcription is reported under its category, or as a failure
/// of the model where it has none, with every message of the chain from the
/// outermost on and no details.
pub proof fn law_failures_are_reported_whole(err: Error, r: NativeError)
    requires
        call_ensures(NativeError::from_error, (&err,), r),
    ensures
        first_kind(err@) matches Some(kind) ==> r@.reason == kind,
        first_kind(err@) is None ==> r@.reason == "inference_error"@,
        r@.message == joined(err@.map_values(|c: CauseView| c.message), ": "@),
        r@.details.dom() =~= Set::<Seq<char>>::empty(),
{
}

/// Context comes first: its message, a colon and a space, and then what the
/// failure said without it.
pub proof fn law_context_comes_first(chain: Seq<CauseView>, message: Seq<char>)
    requires
        chain.len() > 0,
    ensures
        joined(chain_messages(in_context(chain, message)), ": "@) == message + ": "@ + joined(
            chain_messages(chain),
            ": "@,
        ),
        in_context(chain, message).len() == chain.len() + 1,
        in_context(chain, message).skip(1) == chain,
{
    let inner = chain_messages(chain);
    assert(chain_messages(in_context(chain, message)) =~= seq![message] + inner);
    law_joined_one_by_one(inner, message, ": "@);
    assert(in_context(chain, message).skip(1) =~= chain);
}

/// A detail that is set is there with its value, whatever was there before,
/// and every other detail, the reason and the message stay.
pub proof fn law_details_are_set_one_by_one(
    error: NativeErrorView,
    key: Seq<char>,
    value: Seq<char>,
    other: Seq<char>,
)
    ensures
        error.with(key, value).details.dom().contains(key),
        error.with(key, value).details[key] == value,
        other != key ==> (error.with(key, value).details.dom().contains(other)
            <==> error.details.dom().contains(other)),
        other != key && error.details.dom().contains(other) ==> error.with(
            key,
            value,
        ).details[other] == error.details[other],
        error.with(key, value).reason == error.reason,
        error.with(key, value).message == error.message,
{
}

} // verus!
