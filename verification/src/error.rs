//! The failure kinds that the library reports.

use vstd::prelude::*;

verus! {

/// Every failure the library can report.
///
/// "No results" is never an error: a lookup that matches nothing returns an
/// empty sequence.
#[derive(Clone, Copy, PartialEq, Eq, Structural, Debug)]
pub enum DictError {
    /// An entry offered for insertion has an empty term once normalized.
    InvalidInput,
    /// A query string is structurally invalid (empty once normalized),
    /// as distinct from a well-formed query that matches nothing.
    QueryRejected,
    /// Shared or exclusive access was not granted within the caller's bound.
    LockTimeout,
    /// The backing store could not be created at all; fatal to startup.
    StoreInitFailed,
}

impl DictError {
    /// A short stable name for each failure kind, for reporting.
    pub fn describe(&self) -> (r: &'static str)
        ensures
            self is InvalidInput ==> r@ == "invalid input: empty term"@,
            self is QueryRejected ==> r@ == "query rejected: empty query"@,
            self is LockTimeout ==> r@ == "lock timeout"@,
            self is StoreInitFailed ==> r@ == "store initialization failed"@,
    {
        match self {
            DictError::InvalidInput => "invalid input: empty term",
            DictError::QueryRejected => "query rejected: empty query",
            DictError::LockTimeout => "lock timeout",
            DictError::StoreInitFailed => "store initialization failed",
        }
    }
}

} // verus!
