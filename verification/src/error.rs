//! The normative error codes: eight load codes and six editing codes.

use vstd::prelude::*;

verus! {

/// The normative entryconf error codes.
///
/// Codes are part of the public contract; messages are not.
#[derive(Debug, Clone, Copy, PartialEq, Eq, Structural, Hash)]
pub enum ErrorCode {
    /// `E_NO_ENTRYPOINT` — no entrypoint file in the directory.
    NoEntrypoint,
    /// `E_MULTIPLE_ENTRYPOINTS` — two or more entrypoint files.
    MultipleEntrypoints,
    /// `E_PARSE` — malformed config, env, or included file.
    Parse,
    /// `E_ENV_CONFLICT` — a variable defined more than once across/within `*.env` files.
    EnvConflict,
    /// `E_INCLUDE` — `@file:` target missing, unreadable, or unsupported extension.
    Include,
    /// `E_INCLUDE_CYCLE` — a file transitively includes itself.
    IncludeCycle,
    /// `E_MISSING_VAR` — reference to an unset variable with no default.
    MissingVar,
    /// `E_SUBSTITUTION` — malformed `$` or `@` form.
    Substitution,
    /// `E_UNSUPPORTED_EDIT` — the document's format is not writable, or one
    /// request names more than one document.
    UnsupportedEdit,
    /// `E_EDIT` — an invalid edit request.
    Edit,
    /// `E_PATH` — a malformed JSON Pointer, or one that cannot be resolved or applied.
    Path,
    /// `E_STALE_PLAN` — at commit, a dependency changed since the plan was made.
    StalePlan,
    /// `E_LOCKED` — the directory lock could not be acquired in time.
    Locked,
    /// `E_WRITE` — the replacement file could not be written or renamed.
    Write,
}

/// The wire form of each code.
pub open spec fn code_text(code: ErrorCode) -> Seq<char> {
    match code {
        ErrorCode::NoEntrypoint => "E_NO_ENTRYPOINT"@,
        ErrorCode::MultipleEntrypoints => "E_MULTIPLE_ENTRYPOINTS"@,
        ErrorCode::Parse => "E_PARSE"@,
        ErrorCode::EnvConflict => "E_ENV_CONFLICT"@,
        ErrorCode::Include => "E_INCLUDE"@,
        ErrorCode::IncludeCycle => "E_INCLUDE_CYCLE"@,
        ErrorCode::MissingVar => "E_MISSING_VAR"@,
        ErrorCode::Substitution => "E_SUBSTITUTION"@,
        ErrorCode::UnsupportedEdit => "E_UNSUPPORTED_EDIT"@,
        ErrorCode::Edit => "E_EDIT"@,
        ErrorCode::Path => "E_PATH"@,
        ErrorCode::StalePlan => "E_STALE_PLAN"@,
        ErrorCode::Locked => "E_LOCKED"@,
        ErrorCode::Write => "E_WRITE"@,
    }
}

impl ErrorCode {
    /// The wire form of the code, e.g. `"E_PARSE"`.
    pub fn as_str(self) -> (s: &'static str)
        ensures
            s@ == code_text(self),
    {
        match self {
            ErrorCode::NoEntrypoint => "E_NO_ENTRYPOINT",
            ErrorCode::MultipleEntrypoints => "E_MULTIPLE_ENTRYPOINTS",
            ErrorCode::Parse => "E_PARSE",
            ErrorCode::EnvConflict => "E_ENV_CONFLICT",
            ErrorCode::Include => "E_INCLUDE",
            ErrorCode::IncludeCycle => "E_INCLUDE_CYCLE",
            ErrorCode::MissingVar => "E_MISSING_VAR",
            ErrorCode::Substitution => "E_SUBSTITUTION",
            ErrorCode::UnsupportedEdit => "E_UNSUPPORTED_EDIT",
            ErrorCode::Edit => "E_EDIT",
            ErrorCode::Path => "E_PATH",
            ErrorCode::StalePlan => "E_STALE_PLAN",
            ErrorCode::Locked => "E_LOCKED",
            ErrorCode::Write => "E_WRITE",
        }
    }
}

/// A load or editing failure: a normative [`ErrorCode`] plus a non-normative
/// message.
#[derive(Debug, Clone)]
pub struct Error {
    code: ErrorCode,
    message: String,
}

impl Error {
    /// The error's code, for contracts.
    pub closed spec fn spec_code(&self) -> ErrorCode {
        self.code
    }

    /// The error's message, for contracts.
    pub closed spec fn spec_message(&self) -> Seq<char> {
        self.message@
    }

    /// An error with `code` and the detail `message`.
    pub fn new(code: ErrorCode, message: String) -> (e: Error)
        ensures
            e.spec_code() == code,
            e.spec_message() == message@,
    {
        Error { code, message }
    }

    /// The normative error code as a string, e.g. `"E_INCLUDE_CYCLE"`.
    pub fn code(&self) -> (s: &'static str)
        ensures
            s@ == code_text(self.spec_code()),
    {
        self.code.as_str()
    }

    /// The normative error code as an enum.
    pub fn kind(&self) -> (c: ErrorCode)
        ensures
            c == self.spec_code(),
    {
        self.code
    }

    /// The human-readable detail. Not normative; do not match on it.
    pub fn message(&self) -> (s: &str)
        ensures
            s@ == self.spec_message(),
    {
        self.message.as_str()
    }
}

} // verus!
