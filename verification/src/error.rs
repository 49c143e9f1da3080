//! Error categories and the error envelope reported to callers.

use vstd::prelude::*;
use vstd::string::*;

use crate::json::{entries_view, json_object, json_str, push_entry, Json, JsonView};

verus! {

/// Error categories; each maps to a process exit code.
#[derive(Clone, Copy, Debug, PartialEq, Eq, Structural)]
pub enum ErrorCode {
    Error,
    Network,
    AuthRequired,
    NotFound,
    RateLimited,
    InvalidInput,
    NoAccount,
}

/// The exit code of a category.
pub open spec fn exit_code_of(c: ErrorCode) -> int {
    match c {
        ErrorCode::Error => 1,
        ErrorCode::Network => 2,
        ErrorCode::AuthRequired => 3,
        ErrorCode::NotFound => 4,
        ErrorCode::RateLimited => 5,
        ErrorCode::InvalidInput => 6,
        ErrorCode::NoAccount => 7,
    }
}

/// The machine-readable name of a category.
pub open spec fn code_name(c: ErrorCode) -> Seq<char> {
    match c {
        ErrorCode::Error => "error"@,
        ErrorCode::Network => "network"@,
        ErrorCode::AuthRequired => "auth_required"@,
        ErrorCode::NotFound => "not_found"@,
        ErrorCode::RateLimited => "rate_limited"@,
        ErrorCode::InvalidInput => "invalid_input"@,
        ErrorCode::NoAccount => "no_account"@,
    }
}

/// Each category has its own exit code, between 1 and 7, and its own name: the exit code
/// alone tells the category.
pub proof fn law_exit_codes_distinct(a: ErrorCode, b: ErrorCode)
    ensures
        1 <= exit_code_of(a) <= 7,
        exit_code_of(a) == exit_code_of(b) <==> a == b,
        code_name(a) == code_name(b) <==> a == b,
{
    reveal_strlit("error");
    reveal_strlit("network");
    reveal_strlit("auth_required");
    reveal_strlit("not_found");
    reveal_strlit("rate_limited");
    reveal_strlit("invalid_input");
    reveal_strlit("no_account");
    if code_name(a) == code_name(b) && a != b {
        assert(code_name(a).len() != code_name(b).len() || code_name(a)[0] != code_name(b)[0]
            || code_name(a)[1] != code_name(b)[1]);
    }
}

impl ErrorCode {
    /// The process exit code for this category.
    pub fn exit_code(&self) -> (r: i32)
        ensures
            r == exit_code_of(*self),
    {
        match self {
            ErrorCode::Error => 1,
            ErrorCode::Network => 2,
            ErrorCode::AuthRequired => 3,
            ErrorCode::NotFound => 4,
            ErrorCode::RateLimited => 5,
            ErrorCode::InvalidInput => 6,
            ErrorCode::NoAccount => 7,
        }
    }

    /// The category name written in error envelopes (`code`).
    pub fn as_str(&self) -> (r: &'static str)
        ensures
            r@ == code_name(*self),
    {
        match self {
            ErrorCode::Error => "error",
            ErrorCode::Network => "network",
            ErrorCode::AuthRequired => "auth_required",
            ErrorCode::NotFound => "not_found",
            ErrorCode::RateLimited => "rate_limited",
            ErrorCode::InvalidInput => "invalid_input",
            ErrorCode::NoAccount => "no_account",
        }
    }
}

/// The view of an optional string.
pub open spec fn opt_view(o: Option<String>) -> Option<Seq<char>> {
    match o {
        Some(s) => Some(s@),
        None => None,
    }
}

/// An error: its category, a message, and optionally a detail and a remediation hint.
#[derive(Clone, Debug)]
pub struct Error {
    pub code: ErrorCode,
    pub message: String,
    pub detail: Option<String>,
    pub remediation: Option<String>,
}

/// What an error says, as text.
pub struct ErrorView {
    pub code: ErrorCode,
    pub message: Seq<char>,
    pub detail: Option<Seq<char>>,
    pub remediation: Option<Seq<char>>,
}

impl View for Error {
    type V = ErrorView;

    open spec fn view(&self) -> ErrorView {
        ErrorView {
            code: self.code,
            message: self.message@,
            detail: opt_view(self.detail),
            remediation: opt_view(self.remediation),
        }
    }
}

/// An error view with neither detail nor remediation.
pub open spec fn plain_error(code: ErrorCode, message: Seq<char>) -> ErrorView {
    ErrorView { code, message, detail: None, remediation: None }
}

/// An error view with the given detail and remediation.
pub open spec fn full_error(
    code: ErrorCode,
    message: Seq<char>,
    detail: Option<Seq<char>>,
    remediation: Option<Seq<char>>,
) -> ErrorView {
    ErrorView { code, message, detail, remediation }
}

impl Error {
    /// An error of category `code` with message `message`.
    pub fn new(code: ErrorCode, message: &str) -> (r: Error)
        ensures
            r@ == plain_error(code, message@),
    {
        Error { code, message: String::from_str(message), detail: None, remediation: None }
    }

    /// An `invalid_input` error.
    pub fn invalid(message: &str) -> (r: Error)
        ensures
            r@ == plain_error(ErrorCode::InvalidInput, message@),
    {
        Error::new(ErrorCode::InvalidInput, message)
    }

    /// An `auth_required` error.
    pub fn auth(message: &str) -> (r: Error)
        ensures
            r@ == plain_error(ErrorCode::AuthRequired, message@),
    {
        Error::new(ErrorCode::AuthRequired, message)
    }

    /// A `no_account` error.
    pub fn no_account(message: &str) -> (r: Error)
        ensures
            r@ == plain_error(ErrorCode::NoAccount, message@),
    {
        Error::new(ErrorCode::NoAccount, message)
    }

    /// A `not_found` error.
    pub fn not_found(message: &str) -> (r: Error)
        ensures
            r@ == plain_error(ErrorCode::NotFound, message@),
    {
        Error::new(ErrorCode::NotFound, message)
    }

    /// An unclassified error.
    pub fn other(message: &str) -> (r: Error)
        ensures
            r@ == plain_error(ErrorCode::Error, message@),
    {
        Error::new(ErrorCode::Error, message)
    }

    /// The same error with its detail set.
    pub fn detail(self, detail: &str) -> (r: Error)
        ensures
            r@ == (ErrorView { detail: Some(detail@), ..self@ }),
    {
        Error { detail: Some(String::from_str(detail)), ..self }
    }

    /// The same error with its remediation set.
    pub fn fix(self, remediation: &str) -> (r: Error)
        ensures
            r@ == (ErrorView { remediation: Some(remediation@), ..self@ }),
    {
        Error { remediation: Some(String::from_str(remediation)), ..self }
    }
}

/// The error envelope written for callers: the message, the category's name, and the detail
/// and remediation when there are any.
pub open spec fn envelope_view(e: ErrorView) -> JsonView {
    let base = seq![("error"@, JsonView::Str(e.message)), ("code"@, JsonView::Str(code_name(e.code)))];
    let with_detail = match e.detail {
        Some(d) => base.push(("detail"@, JsonView::Str(d))),
        None => base,
    };
    JsonView::Object(match e.remediation {
        Some(r) => with_detail.push(("remediation"@, JsonView::Str(r))),
        None => with_detail,
    })
}

/// The error envelope of `e` (see [`envelope_view`]).
pub fn envelope(e: &Error) -> (r: Json)
    ensures
        r@ == envelope_view(e@),
{
    let mut v: Vec<(String, Json)> = Vec::new();
    push_entry(&mut v, "error", json_str(e.message.as_str()));
    push_entry(&mut v, "code", json_str(e.code.as_str()));
    let ghost base = entries_view(v@);
    match &e.detail {
        Some(d) => push_entry(&mut v, "detail", json_str(d.as_str())),
        None => {},
    }
    let ghost with_detail = entries_view(v@);
    match &e.remediation {
        Some(m) => push_entry(&mut v, "remediation", json_str(m.as_str())),
        None => {},
    }
    let r = json_object(v);
    assert(base =~= seq![("error"@, JsonView::Str(e@.message)), ("code"@, JsonView::Str(code_name(e.code)))]);
    assert(entries_view(v@) =~= envelope_view(e@)->Object_0);
    r
}

} // verus!
