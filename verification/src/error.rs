//! The error type shared by every module.

use vstd::prelude::*;
use vstd::string::StringExecFns;

verus! {

/// What an I/O failure looks like to the library: whether it means "no such
/// object", and the text that describes it.
#[derive(Debug, Clone, PartialEq, Eq)]
pub struct IoFailure {
    pub not_found: bool,
    pub message: String,
}

/// Every way an operation can fail.
#[derive(Debug, Clone, PartialEq, Eq)]
pub enum OndaError {
    /// The key, object or partition does not exist.
    NotFound,
    /// Bytes contradict a format this library implements.
    Corruption(String),
    /// Bytes of a format, or with a capability, this library does not implement.
    UnsupportedFormat(String),
    /// The caller's arguments are not acceptable.
    InvalidArgs(String),
    /// A limit on size would be exceeded.
    TooLarge(String),
    /// The database is not in a state that allows the operation.
    InvalidDb(String),
    /// A durability failure has stopped the database: it takes no more writes.
    Poisoned(String),
    /// The database was opened read-only.
    ReadOnly(String),
    /// The storage below failed.
    Io(IoFailure),
}

impl OndaError {
    /// The stable name of the error's class.
    pub open spec fn kind_text(self) -> Seq<char> {
        match self {
            OndaError::NotFound => "not_found"@,
            OndaError::Corruption(_) => "corruption"@,
            OndaError::UnsupportedFormat(_) => "unsupported_format"@,
            OndaError::InvalidArgs(_) => "invalid_args"@,
            OndaError::TooLarge(_) => "too_large"@,
            OndaError::InvalidDb(_) => "invalid_db"@,
            OndaError::Poisoned(_) => "poisoned"@,
            OndaError::ReadOnly(_) => "read_only"@,
            OndaError::Io(_) => "io"@,
        }
    }

    /// The text that accompanies the error; empty for `NotFound`.
    pub open spec fn message_text(self) -> Seq<char> {
        match self {
            OndaError::NotFound => ""@,
            OndaError::Corruption(m) => m@,
            OndaError::UnsupportedFormat(m) => m@,
            OndaError::InvalidArgs(m) => m@,
            OndaError::TooLarge(m) => m@,
            OndaError::InvalidDb(m) => m@,
            OndaError::Poisoned(m) => m@,
            OndaError::ReadOnly(m) => m@,
            OndaError::Io(f) => f.message@,
        }
    }

    /// The stable name of the error's class.
    pub fn kind(&self) -> (r: &'static str)
        ensures
            r@ == self.kind_text(),
    {
        match self {
            OndaError::NotFound => "not_found",
            OndaError::Corruption(_) => "corruption",
            OndaError::UnsupportedFormat(_) => "unsupported_format",
            OndaError::InvalidArgs(_) => "invalid_args",
            OndaError::TooLarge(_) => "too_large",
            OndaError::InvalidDb(_) => "invalid_db",
            OndaError::Poisoned(_) => "poisoned",
            OndaError::ReadOnly(_) => "read_only",
            OndaError::Io(_) => "io",
        }
    }

    /// The text that accompanies the error.
    pub fn message(&self) -> (r: &str)
        ensures
            r@ == self.message_text(),
    {
        match self {
            OndaError::NotFound => "",
            OndaError::Corruption(m) => m.as_str(),
            OndaError::UnsupportedFormat(m) => m.as_str(),
            OndaError::InvalidArgs(m) => m.as_str(),
            OndaError::TooLarge(m) => m.as_str(),
            OndaError::InvalidDb(m) => m.as_str(),
            OndaError::Poisoned(m) => m.as_str(),
            OndaError::ReadOnly(m) => m.as_str(),
            OndaError::Io(f) => f.message.as_str(),
        }
    }

    /// The class, a colon and the message, for people to read.
    pub fn to_string(&self) -> (r: String)
        ensures
            r@ == self.kind_text() + ": "@ + self.message_text(),
    {
        let mut s = String::from_str(self.kind());
        s.append(": ");
        s.append(self.message());
        s
    }

    /// A copy with the same class and message.
    pub fn duplicate(&self) -> (r: OndaError)
        ensures
            r.kind_text() == self.kind_text(),
            r.message_text() == self.message_text(),
            r is Io == self is Io,
            r is Io ==> r->Io_0.not_found == self->Io_0.not_found,
            r is NotFound == self is NotFound,
            r is Corruption == self is Corruption,
            r is UnsupportedFormat == self is UnsupportedFormat,
            r is InvalidArgs == self is InvalidArgs,
            r is TooLarge == self is TooLarge,
            r is InvalidDb == self is InvalidDb,
            r is Poisoned == self is Poisoned,
            r is ReadOnly == self is ReadOnly,
    {
        match self {
            OndaError::NotFound => OndaError::NotFound,
            OndaError::Corruption(m) => OndaError::Corruption(m.clone()),
            OndaError::UnsupportedFormat(m) => OndaError::UnsupportedFormat(m.clone()),
            OndaError::InvalidArgs(m) => OndaError::InvalidArgs(m.clone()),
            OndaError::TooLarge(m) => OndaError::TooLarge(m.clone()),
            OndaError::InvalidDb(m) => OndaError::InvalidDb(m.clone()),
            OndaError::Poisoned(m) => OndaError::Poisoned(m.clone()),
            OndaError::ReadOnly(m) => OndaError::ReadOnly(m.clone()),
            OndaError::Io(f) => OndaError::Io(IoFailure { not_found: f.not_found, message: f.message.clone() }),
        }
    }
}

} // verus!
