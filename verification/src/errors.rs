//! Errors of the library.

use vstd::prelude::*;

verus! {

/// Errors reported by graph operations.
#[derive(Debug)]
pub enum PGMRustError {
    /// The object with the given identifier (first field) is not in the graph
    /// whose identifier is the second field.
    NotInGraph(String, String),
}

/// Result type of the library.
pub type PGMRustResult<T> = Result<T, PGMRustError>;

} // verus!
