//! The failures that the store and the ordinal model report.

use vstd::prelude::*;

verus! {

/// Why an operation on ordinals or on the record store was abandoned.
#[derive(Debug)]
pub enum StoreError {
    /// The text is not a dotted sequence of non-negative integers where one
    /// was needed, or it holds a character that the store cannot compare.
    InvalidOrdinal,
    /// A record with the same ordinal is already stored.
    DuplicateOrdinal,
    /// No record has the ordinal that was asked for.
    NotFound,
    /// The underlying storage failed; the text is its own account of it.
    StoreCorruption(String),
}

} // verus!
