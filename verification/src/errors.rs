//! Error handling.

use vstd::prelude::*;

verus! {

/// Why a line or a value was refused.
#[derive(Debug, Clone, Copy, PartialEq, Eq, Structural)]
pub enum Reason {
    /// A group header does not start with `[`.
    MissingGroupStart,
    /// A group header does not end with `]`.
    MissingGroupEnd,
    /// A key-value line stands before the first group header.
    OutsideGroup,
    /// A key-value line holds no `=`.
    MissingSeparator,
    /// A value has no segment at all.
    EmptyValue,
    /// The segments of a value are not all of one scalar kind.
    MismatchedTypes,
}

/// What went wrong.
#[derive(Debug, Clone, Copy, PartialEq, Eq, Structural)]
pub enum ErrorKind {
    /// Reading a line failed. The cause stays with the caller that read.
    FailedRead { line: usize },
    /// Writing failed. The cause stays with the caller that wrote.
    FailedWrite,
    /// The content is not in a valid format.
    Malformed { line: usize, reason: Reason },
    /// A value is not valid.
    InvalidValue { reason: Reason },
}

/// Library errors.
#[derive(Debug, Clone, Copy, PartialEq, Eq, Structural)]
pub struct Error {
    pub kind: ErrorKind,
}

impl Reason {
    /// The reason in words.
    pub open spec fn text(self) -> Seq<char> {
        match self {
            Reason::MissingGroupStart => "missing group start marker"@,
            Reason::MissingGroupEnd => "missing group end marker"@,
            Reason::OutsideGroup => "content outside of group context"@,
            Reason::MissingSeparator => "invalid key-value format"@,
            Reason::EmptyValue => "empty value"@,
            Reason::MismatchedTypes => "mismatched types"@,
        }
    }

    /// Returns the reason in words.
    pub fn message(&self) -> (r: &'static str)
        ensures
            r@ == self.text(),
    {
        match self {
            Reason::MissingGroupStart => "missing group start marker",
            Reason::MissingGroupEnd => "missing group end marker",
            Reason::OutsideGroup => "content outside of group context",
            Reason::MissingSeparator => "invalid key-value format",
            Reason::EmptyValue => "empty value",
            Reason::MismatchedTypes => "mismatched types",
        }
    }
}

impl Error {
    /// The error for a line that could not be read.
    pub open spec fn failed_read_at(line: usize) -> Error {
        Error { kind: ErrorKind::FailedRead { line } }
    }

    /// The error for a line that is not in a valid format.
    pub open spec fn malformed_at(line: usize, reason: Reason) -> Error {
        Error { kind: ErrorKind::Malformed { line, reason } }
    }

    /// The error for a value that is not valid.
    pub open spec fn invalid_value_for(reason: Reason) -> Error {
        Error { kind: ErrorKind::InvalidValue { reason } }
    }

    /// Makes the error for a line that could not be read.
    pub fn failed_read(line: usize) -> (r: Error)
        ensures
            r == Error::failed_read_at(line),
    {
        Error { kind: ErrorKind::FailedRead { line } }
    }

    /// Makes the error for output that could not be written.
    pub fn failed_write() -> (r: Error)
        ensures
            r.kind == ErrorKind::FailedWrite,
    {
        Error { kind: ErrorKind::FailedWrite }
    }

    /// Makes the error for a line that is not in a valid format.
    pub fn malformed(line: usize, reason: Reason) -> (r: Error)
        ensures
            r == Error::malformed_at(line, reason),
    {
        Error { kind: ErrorKind::Malformed { line, reason } }
    }

    /// Makes the error for a value that is not valid.
    pub fn invalid_value(reason: Reason) -> (r: Error)
        ensures
            r == Error::invalid_value_for(reason),
    {
        Error { kind: ErrorKind::InvalidValue { reason } }
    }

    /// The number of the line at fault, counted from 1, where the error
    /// has one.
    pub fn line(&self) -> (r: Option<usize>)
        ensures
            r == match self.kind {
                ErrorKind::FailedRead { line } => Some(line),
                ErrorKind::Malformed { line, .. } => Some(line),
                _ => None,
            },
    {
        match self.kind {
            ErrorKind::FailedRead { line } => Some(line),
            ErrorKind::Malformed { line, .. } => Some(line),
            _ => None,
        }
    }

    /// The reason for the refusal, where the error has one.
    pub fn reason(&self) -> (r: Option<Reason>)
        ensures
            r == match self.kind {
                ErrorKind::Malformed { reason, .. } => Some(reason),
                ErrorKind::InvalidValue { reason } => Some(reason),
                _ => None,
            },
    {
        match self.kind {
            ErrorKind::Malformed { reason, .. } => Some(reason),
            ErrorKind::InvalidValue { reason } => Some(reason),
            _ => None,
        }
    }
}

} // verus!
