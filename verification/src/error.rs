use vstd::prelude::*;

verus! {

/// The failure conditions of the store.
///
/// Every fallible operation reports one of these kinds; nothing is silently
/// swallowed and nothing is retried or repaired by the store itself.
#[derive(Clone, Copy, Debug, PartialEq, Eq, Structural)]
pub enum Error {
    /// An offset (or a derived segment target) lies outside the addressed
    /// segment's range.  A caller error, never retried.
    OutOfRange,
    /// No index entry exists for the requested offset or timestamp, or a
    /// computed index position does not exist.  The record is absent.
    NotFound,
    /// The two index files of a segment disagree with each other or with the
    /// log file: a stored key does not match the expected key at its computed
    /// position, or the entry counts differ.  Signals on-disk corruption or a
    /// prior partial write; surfaced, never auto-repaired.
    Consistency,
    /// Malformed header or record bytes that fail to decode.
    Serialization,
}

impl Error {
    /// A short human-readable description of the error kind.
    pub fn message(&self) -> (r: &'static str)
        ensures
            r@.len() > 0,
    {
        proof {
            reveal_strlit("offset out of range");
            reveal_strlit("record not found");
            reveal_strlit("log and index files are inconsistent");
            reveal_strlit("malformed record bytes");
        }
        match self {
            Error::OutOfRange => "offset out of range",
            Error::NotFound => "record not found",
            Error::Consistency => "log and index files are inconsistent",
            Error::Serialization => "malformed record bytes",
        }
    }
}

} // verus!
