//! The errors that the service answers with, and the failures that its file
//! system reports.

use vstd::prelude::*;

use crate::text::concat3;

verus! {

/// The kinds of error that a request can be answered with.
#[derive(Debug, Clone, Copy, PartialEq, Eq, Structural)]
pub enum ErrorKind {
    BadRequest,
    Forbidden,
    NotFound,
    Conflict,
    PayloadTooLarge,
    Timeout,
    Internal,
}

impl ErrorKind {
    /// The status of the answer to a request that ends in an error of this
    /// kind.
    pub open spec fn spec_status(self) -> u16 {
        match self {
            ErrorKind::BadRequest => 400,
            ErrorKind::Forbidden => 403,
            ErrorKind::NotFound => 404,
            ErrorKind::Conflict => 409,
            ErrorKind::PayloadTooLarge => 413,
            ErrorKind::Timeout => 408,
            ErrorKind::Internal => 500,
        }
    }

    pub fn status(self) -> (r: u16)
        ensures
            r == self.spec_status(),
    {
        match self {
            ErrorKind::BadRequest => 400,
            ErrorKind::Forbidden => 403,
            ErrorKind::NotFound => 404,
            ErrorKind::Conflict => 409,
            ErrorKind::PayloadTooLarge => 413,
            ErrorKind::Timeout => 408,
            ErrorKind::Internal => 500,
        }
    }
}

/// The answer to a request that could not be served.
#[derive(Debug, PartialEq, Eq)]
pub struct ApiError {
    pub kind: ErrorKind,
    pub message: String,
}

impl ApiError {
    /// Whether this is the error of the given kind with the given message.
    pub open spec fn is(self, kind: ErrorKind, message: Seq<char>) -> bool {
        self.kind == kind && self.message@ == message
    }

    pub fn new(kind: ErrorKind, message: &str) -> (e: ApiError)
        ensures
            e.is(kind, message@),
    {
        ApiError { kind, message: message.to_owned() }
    }

    pub fn bad_request(message: &str) -> (e: ApiError)
        ensures
            e.is(ErrorKind::BadRequest, message@),
    {
        Self::new(ErrorKind::BadRequest, message)
    }

    pub fn forbidden(message: &str) -> (e: ApiError)
        ensures
            e.is(ErrorKind::Forbidden, message@),
    {
        Self::new(ErrorKind::Forbidden, message)
    }

    pub fn not_found(message: &str) -> (e: ApiError)
        ensures
            e.is(ErrorKind::NotFound, message@),
    {
        Self::new(ErrorKind::NotFound, message)
    }

    pub fn conflict(message: &str) -> (e: ApiError)
        ensures
            e.is(ErrorKind::Conflict, message@),
    {
        Self::new(ErrorKind::Conflict, message)
    }

    pub fn payload_too_large(message: &str) -> (e: ApiError)
        ensures
            e.is(ErrorKind::PayloadTooLarge, message@),
    {
        Self::new(ErrorKind::PayloadTooLarge, message)
    }

    pub fn timeout(message: &str) -> (e: ApiError)
        ensures
            e.is(ErrorKind::Timeout, message@),
    {
        Self::new(ErrorKind::Timeout, message)
    }

    pub fn internal(message: &str) -> (e: ApiError)
        ensures
            e.is(ErrorKind::Internal, message@),
    {
        Self::new(ErrorKind::Internal, message)
    }
}

/// Why a file system operation failed, as far as decisions depend on it.
#[derive(Debug, Clone, Copy, PartialEq, Eq, Structural)]
pub enum FailureKind {
    NotFound,
    DirectoryNotEmpty,
    Other,
}

/// A failed file system operation, with the text that the system gives for it.
#[derive(Debug, PartialEq, Eq)]
pub struct IoFailure {
    pub kind: FailureKind,
    pub text: String,
}

/// A context, a colon and the text of a failure.
pub open spec fn in_context(context: Seq<char>, text: Seq<char>) -> Seq<char> {
    context + ": "@ + text
}

/// The internal error for a failure in a context.
pub fn io_internal(context: &str, failure: &IoFailure) -> (e: ApiError)
    ensures
        e.is(ErrorKind::Internal, in_context(context@, failure.text@)),
{
    let message = concat3(context, ": ", failure.text.as_str());
    ApiError::internal(message.as_str())
}

/// Why a command of the user could not be carried out.
#[derive(Debug, PartialEq, Eq)]
pub struct CommandError {
    pub message: String,
}

impl CommandError {
    /// Whether this is the error with the given message.
    pub open spec fn is(self, message: Seq<char>) -> bool {
        self.message@ == message
    }

    pub fn new(message: &str) -> (e: CommandError)
        ensures
            e.is(message@),
    {
        CommandError { message: message.to_owned() }
    }
}

/// Each kind of error has a status of its own, by which a client tells what to
/// mend: the request, the place it names, its size or its duration; only what
/// went wrong inside is the service's fault.
pub proof fn law_statuses_tell_kinds_apart(a: ErrorKind, b: ErrorKind)
    ensures
        a.spec_status() == b.spec_status() ==> a == b,
        500 <= a.spec_status() < 600 <==> a == ErrorKind::Internal,
        400 <= a.spec_status() < 500 <==> a != ErrorKind::Internal,
        a.spec_status() == 400 <==> a == ErrorKind::BadRequest,
        a.spec_status() == 403 <==> a == ErrorKind::Forbidden,
        a.spec_status() == 404 <==> a == ErrorKind::NotFound,
        a.spec_status() == 408 <==> a == ErrorKind::Timeout,
        a.spec_status() == 409 <==> a == ErrorKind::Conflict,
        a.spec_status() == 413 <==> a == ErrorKind::PayloadTooLarge,
        a.spec_status() == 500 <==> a == ErrorKind::Internal,
{
}

/// A message in a context begins with the context and ends with what the system
/// said, so that neither is lost in it.
pub proof fn law_contexts_keep_the_text(context: Seq<char>, text: Seq<char>, other: Seq<char>)
    ensures
        context.is_prefix_of(in_context(context, text)),
        text.is_suffix_of(in_context(context, text)),
        in_context(context, text).len() == context.len() + 2 + text.len(),
        in_context(context, text) == in_context(other, text) ==> context == other,
        in_context(context, text) == in_context(context, other) ==> text == other,
{
    reveal_strlit(": ");
    let whole = in_context(context, text);
    assert(whole.take(context.len() as int) == context);
    assert(whole.skip(context.len() as int + 2) == text);
    assert(whole.skip(whole.len() - text.len()) == text);
    let second = in_context(other, text);
    assert(second.take(other.len() as int) == other);
    if whole == second {
        assert(context.len() == other.len());
    }
    let third = in_context(context, other);
    assert(third.skip(context.len() as int + 2) == other);
}

} // verus!
