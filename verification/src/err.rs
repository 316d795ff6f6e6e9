//! Errors surfaced by the store and its adapters.

use vstd::prelude::*;

verus! {

/// Why an operation failed.
#[derive(Debug)]
pub enum KvError {
    /// `remove` was asked for a key that has no mapping.
    KeyNotFound,
    /// A record at a known locator decoded to a variant inconsistent with
    /// the index.
    UnexpectedCommandType,
    /// A segment held bytes that do not parse as a record.
    Decode,
    /// The directory was last owned by the other engine.
    EngineMismatch,
    /// The backing store of the alternative engine failed.
    Backend,
    /// A stored value did not decode as text.
    Encode,
    /// Anything else.
    Unknown,
}

impl KvError {
    /// A short description of the error.
    pub fn message(&self) -> (m: &'static str)
        ensures
            m@ == (match self {
                KvError::KeyNotFound => "Key not found"@,
                KvError::UnexpectedCommandType => "Unexpected command type"@,
                KvError::Decode => "Decode error"@,
                KvError::EngineMismatch => "Engine mismatch"@,
                KvError::Backend => "Backend error"@,
                KvError::Encode => "Encode error"@,
                KvError::Unknown => "Unknown"@,
            }),
    {
        match self {
            KvError::KeyNotFound => "Key not found",
            KvError::UnexpectedCommandType => "Unexpected command type",
            KvError::Decode => "Decode error",
            KvError::EngineMismatch => "Engine mismatch",
            KvError::Backend => "Backend error",
            KvError::Encode => "Encode error",
            KvError::Unknown => "Unknown",
        }
    }
}

} // verus!
