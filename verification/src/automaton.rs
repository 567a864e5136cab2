//! The boundary to the `daachorse` crate: the automaton type, what it is taken
//! to hold, and the two calls the library makes into it.
//!
//! Nothing in this file is proved. Each contract states what the crate's
//! documentation and source show of the function it wraps.

use crate::occurrence::{is_occurrence, Occurrence};
use daachorse::errors::DaachorseError;
use daachorse::DoubleArrayAhoCorasick;
use vstd::prelude::*;

verus! {

/// `daachorse::DoubleArrayAhoCorasick`, carried as an opaque value.
#[verifier::external_type_specification]
#[verifier::external_body]
#[verifier::reject_recursive_types(V)]
pub struct ExDoubleArrayAhoCorasick<V>(DoubleArrayAhoCorasick<V>);

/// `daachorse::errors::DaachorseError`, carried as an opaque value.
#[verifier::external_type_specification]
#[verifier::external_body]
pub struct ExDaachorseError(DaachorseError);

/// The ordered patterns an automaton was built from.
pub uninterp spec fn automaton_patterns(automaton: DoubleArrayAhoCorasick<usize>) -> Seq<Seq<u8>>;

/// Whether an automaton was built with the standard match kind, the one under
/// which it reports overlapping matches.
pub uninterp spec fn standard_matching(automaton: DoubleArrayAhoCorasick<usize>) -> bool;

/// Whether `DoubleArrayAhoCorasick::new` builds an automaton from `patterns`.
pub uninterp spec fn build_accepts(patterns: Seq<Seq<u8>>) -> bool;

/// Calls `DoubleArrayAhoCorasick::new`, which gives pattern `k` the value `k`
/// and builds with the standard match kind.
///
/// Claimed: whether it succeeds depends on the patterns alone, and the
/// automaton that comes back holds exactly the patterns handed in, in their
/// order.
#[verifier::external_body]
pub(crate) fn build_automaton(patterns: &Vec<Vec<u8>>) -> (built: Result<
    DoubleArrayAhoCorasick<usize>,
    DaachorseError,
>)
    ensures
        built is Ok <==> build_accepts(patterns.deep_view()),
        built matches Ok(automaton) ==> automaton_patterns(automaton) == patterns.deep_view()
            && standard_matching(automaton),
{
    DoubleArrayAhoCorasick::new(patterns)
}

/// Calls `DoubleArrayAhoCorasick::find_overlapping_iter` and collects the
/// matches it yields, each as start, end and value.
///
/// Claimed: every match is a place in the haystack where the pattern of that
/// value stands; every such place is among the matches; no match comes twice.
/// Nothing is claimed of the order. The call panics on an automaton of
/// another match kind, which the precondition leaves out.
#[verifier::external_body]
pub(crate) fn overlapping_matches(
    automaton: &DoubleArrayAhoCorasick<usize>,
    haystack: &Vec<u8>,
) -> (found: Vec<Occurrence>)
    requires
        standard_matching(*automaton),
    ensures
        forall|k: int|
            0 <= k < found@.len() ==> is_occurrence(
                automaton_patterns(*automaton),
                haystack@,
                #[trigger] found@[k],
            ),
        forall|o: Occurrence| #[trigger]
            is_occurrence(automaton_patterns(*automaton), haystack@, o) ==> found@.contains(o),
        found@.no_duplicates(),
{
    automaton.find_overlapping_iter(haystack).map(
        |m| Occurrence { start: m.start(), end: m.end(), pattern: m.value() },
    ).collect()
}

} // verus!
