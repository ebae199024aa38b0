//! What a store is configured with, what it reports when it fails, and the
//! reading of the clock.

use vstd::prelude::*;
use vstd::string::*;

verus! {

/// The configuration of a store.
#[derive(Debug, Clone, PartialEq, Eq)]
pub struct Config {
    pub backend: String,
    pub path: String,
}

impl Config {
    /// The configuration of a store kept in an SQLite file at `path`.
    pub fn sqlite(path: String) -> (c: Config)
        ensures
            c.backend@ == "sqlite"@,
            c.path == path,
    {
        Config { backend: "sqlite".to_owned(), path }
    }
}

/// Why an operation on a store failed.
#[derive(Debug, Clone, PartialEq, Eq)]
pub enum StoreError {
    /// A value was not acceptable; the store was not changed.
    Validation(String),
    /// No issue, or no edge, has the id that was given.
    NotFound(String),
    /// The id, or the edge, that was to be added is there already.
    AlreadyExists(String),
    /// The store itself failed.
    Store(String),
}

pub enum StoreErrorView {
    Validation(Seq<char>),
    NotFound(Seq<char>),
    AlreadyExists(Seq<char>),
    Store(Seq<char>),
}

impl View for StoreError {
    type V = StoreErrorView;

    open spec fn view(&self) -> StoreErrorView {
        match self {
            StoreError::Validation(m) => StoreErrorView::Validation(m@),
            StoreError::NotFound(m) => StoreErrorView::NotFound(m@),
            StoreError::AlreadyExists(m) => StoreErrorView::AlreadyExists(m@),
            StoreError::Store(m) => StoreErrorView::Store(m@),
        }
    }
}

impl StoreError {
    /// The text that goes with the error: the message, or the id.
    pub fn message(&self) -> (m: String)
        ensures
            m@ == match self@ {
                StoreErrorView::Validation(t) => t,
                StoreErrorView::NotFound(t) => t,
                StoreErrorView::AlreadyExists(t) => t,
                StoreErrorView::Store(t) => t,
            },
    {
        match self {
            StoreError::Validation(m) => m.clone(),
            StoreError::NotFound(m) => m.clone(),
            StoreError::AlreadyExists(m) => m.clone(),
            StoreError::Store(m) => m.clone(),
        }
    }
}

/// Reads the clock: calls `chrono::Utc::now` and `timestamp_micros` on its
/// result. The contract claims nothing of the number returned, which is the
/// time in microseconds since the Unix epoch. The call panics where the
/// clock of the machine stands before 1970.
#[verifier::external_body]
pub(crate) fn now_micros() -> (now: i64) {
    chrono::Utc::now().timestamp_micros()
}

} // verus!
