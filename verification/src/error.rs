//! The ways in which building or solving can fail.

use vstd::prelude::*;

verus! {

/// Why no result could be given.
#[derive(Debug, Copy, Clone, PartialEq, Eq, Structural)]
pub enum GraphError {
    /// The input could not be read as a table of records.
    SourceUnavailable,
    /// A record has too few fields to hold both key fields.
    MalformedRecord,
    /// The start vertex is not a vertex of the graph.
    InvalidStart,
}

} // verus!
