//! The ways in which the library refuses its input.

use vstd::prelude::*;

verus! {

/// Why a run was refused before any record was written.
#[derive(Clone, Copy, Debug, PartialEq, Eq, Structural)]
pub enum MapError {
    /// Patterns and pattern labels, or reads and read labels, differ in number.
    ShapeMismatch,
    /// The dictionary is empty, holds an empty pattern, or is more than the
    /// automaton can index.
    InvalidDictionary,
}

} // verus!
