//! The matcher: built once from a dictionary, asked for every read.

use crate::arrange::{arrange, expand, in_order, lemma_expand, sorted, stands_for};
use crate::automaton::{
    automaton_patterns, build_accepts, build_automaton, overlapping_matches, standard_matching,
};
use crate::error::MapError;
use crate::grouping::{distinct_patterns, group_patterns, lemma_pattern_groups, pattern_groups};
use crate::occurrence::{
    addressable, is_occurrence, lemma_occurrences_complete, lemma_occurrences_ordered,
    lemma_occurrences_sound, occurrences, precedes, Occurrence,
};
use crate::views::lemma_rows_of_bytes;
use daachorse::DoubleArrayAhoCorasick;
use vstd::prelude::*;
use vstd::relations::{sorted_by, total_ordering};
use vstd::seq_lib::lemma_sorted_unique;

verus! {

/// A dictionary that a matcher can be built from: it holds a pattern, none of
/// its patterns is empty, and the automaton takes its distinct patterns.
pub open spec fn dictionary_accepted(patterns: Seq<Seq<u8>>) -> bool {
    &&& patterns.len() > 0
    &&& forall|i: int| 0 <= i < patterns.len() ==> (#[trigger] patterns[i]).len() > 0
    &&& build_accepts(distinct_patterns(patterns))
}

/// An Aho-Corasick automaton over the distinct patterns of a dictionary,
/// together with the dictionary indices that each distinct pattern stands for.
pub struct Matcher {
    automaton: DoubleArrayAhoCorasick<usize>,
    groups: Vec<Vec<usize>>,
    patterns: Ghost<Seq<Seq<u8>>>,
}

impl View for Matcher {
    type V = Seq<Seq<u8>>;

    /// The dictionary the matcher was built from.
    closed spec fn view(&self) -> Seq<Seq<u8>> {
        self.patterns@
    }
}

/// Two lists without repetitions that hold the same elements hold each
/// element equally often.
proof fn lemma_same_members(x: Seq<Occurrence>, y: Seq<Occurrence>)
    requires
        x.no_duplicates(),
        y.no_duplicates(),
        forall|o: Occurrence| x.contains(o) <==> y.contains(o),
    ensures
        x.to_multiset() == y.to_multiset(),
{
    x.lemma_multiset_has_no_duplicates();
    y.lemma_multiset_has_no_duplicates();
    x.to_multiset_ensures();
    y.to_multiset_ensures();
    assert forall|o: Occurrence| x.to_multiset().count(o) == y.to_multiset().count(o) by {
        assert(x.contains(o) <==> y.contains(o));
    }
    assert(x.to_multiset() =~= y.to_multiset());
}

/// What the automaton found on the distinct patterns, spread over the groups
/// and sorted, is the report for the dictionary.
proof fn lemma_arranged_is_report(
    patterns: Seq<Seq<u8>>,
    read: Seq<u8>,
    found: Seq<Occurrence>,
    arranged: Seq<Occurrence>,
)
    requires
        addressable(patterns, read),
        forall|k: int|
            0 <= k < found.len() ==> is_occurrence(
                distinct_patterns(patterns),
                read,
                #[trigger] found[k],
            ),
        forall|o: Occurrence| #[trigger]
            is_occurrence(distinct_patterns(patterns), read, o) ==> found.contains(o),
        found.no_duplicates(),
        sorted(arranged),
        arranged.to_multiset() == expand(
            pattern_groups(patterns),
            found,
            found.len() as int,
        ).to_multiset(),
    ensures
        arranged == occurrences(patterns, read),
{
    let distinct = distinct_patterns(patterns);
    let groups = pattern_groups(patterns);
    let expanded = expand(groups, found, found.len() as int);
    let report = occurrences(patterns, read);
    lemma_pattern_groups(patterns);
    lemma_expand(groups, found, found.len() as int);
    assert forall|o: Occurrence| expanded.contains(o) implies report.contains(o) by {
        let k = choose|k: int| 0 <= k < found.len() && stands_for(groups, #[trigger] found[k], o);
        let d = found[k].pattern as int;
        let t = choose|t: int| 0 <= t < groups[d].len() && groups[d][t] == o.pattern;
        assert(patterns[groups[d][t] as int] == distinct[d]);
        assert(is_occurrence(patterns, read, o));
        lemma_occurrences_complete(patterns, read, o);
    }
    assert forall|o: Occurrence| report.contains(o) implies expanded.contains(o) by {
        let at = choose|at: int| 0 <= at < report.len() && report[at] == o;
        lemma_occurrences_sound(patterns, read, at);
        let i = o.pattern as int;
        let d = choose|d: int|
            0 <= d < distinct.len() && distinct[d] == #[trigger] patterns[i]
                && groups[d].contains(i as usize);
        let one = Occurrence { start: o.start, end: o.end, pattern: d as usize };
        assert(is_occurrence(distinct, read, one));
        let k = choose|k: int| 0 <= k < found.len() && found[k] == one;
        assert(stands_for(groups, found[k], o));
    }
    assert(report.no_duplicates()) by {
        assert forall|a: int, b: int| 0 <= a < report.len() && 0 <= b < report.len() && a
            != b implies report[a] != report[b] by {
            if a < b {
                lemma_occurrences_ordered(patterns, read, a, b);
            } else {
                lemma_occurrences_ordered(patterns, read, b, a);
            }
        }
    }
    lemma_same_members(expanded, report);
    let order = |a: Occurrence, b: Occurrence| in_order(a, b);
    assert(total_ordering(order));
    assert(sorted_by(arranged, order));
    assert(sorted_by(report, order)) by {
        assert forall|a: int, b: int| 0 <= a < b < report.len() implies #[trigger] order(
            report[a],
            report[b],
        ) by {
            lemma_occurrences_ordered(patterns, read, a, b);
        }
    }
    lemma_sorted_unique(arranged, report, order);
}

impl Matcher {
    #[verifier::type_invariant]
    spec fn well_formed(self) -> bool {
        &&& self.patterns@.len() <= usize::MAX
        &&& standard_matching(self.automaton)
        &&& automaton_patterns(self.automaton) == distinct_patterns(self.patterns@)
        &&& self.groups.deep_view() == pattern_groups(self.patterns@)
    }

    /// Builds the matcher of a dictionary.
    ///
    /// The dictionary is refused when it is empty, when one of its patterns
    /// is empty, and when the automaton does not take its distinct patterns.
    /// A pattern that stands in the dictionary more than once is no reason to
    /// refuse it.
    pub fn new(patterns: &Vec<Vec<u8>>) -> (built: Result<Matcher, MapError>)
        ensures
            match built {
                Ok(matcher) => dictionary_accepted(patterns.deep_view()) && matcher@
                    == patterns.deep_view(),
                Err(why) => !dictionary_accepted(patterns.deep_view()) && why
                    == MapError::InvalidDictionary,
            },
    {
        proof {
            lemma_rows_of_bytes(*patterns);
        }
        if patterns.len() == 0 {
            return Err(MapError::InvalidDictionary);
        }
        let mut i: usize = 0;
        while i < patterns.len()
            invariant
                i <= patterns.len(),
                forall|k: int| 0 <= k < i ==> (#[trigger] patterns@[k])@.len() > 0,
            decreases patterns.len() - i,
        {
            if patterns[i].len() == 0 {
                assert(patterns.deep_view()[i as int].len() == 0);
                return Err(MapError::InvalidDictionary);
            }
            i += 1;
        }
        let grouping = group_patterns(patterns);
        match build_automaton(&grouping.distinct) {
            Ok(automaton) => Ok(
                Matcher { automaton, groups: grouping.groups, patterns: Ghost(patterns.deep_view()) },
            ),
            Err(_) => Err(MapError::InvalidDictionary),
        }
    }

    /// Every occurrence of every pattern of the dictionary in `read`, by
    /// ascending end and, among equal ends, by ascending pattern index.
    pub fn find_overlapping(&self, read: &Vec<u8>) -> (found: Vec<Occurrence>)
        ensures
            found@ == occurrences(self@, read@),
            forall|k: int|
                0 <= k < found@.len() ==> is_occurrence(self@, read@, #[trigger] found@[k]),
            forall|o: Occurrence| #[trigger] is_occurrence(self@, read@, o) ==> found@.contains(o),
            forall|a: int, b: int|
                0 <= a < b < found@.len() ==> precedes(#[trigger] found@[a], #[trigger] found@[b]),
    {
        proof {
            use_type_invariant(self);
        }
        let matches = overlapping_matches(&self.automaton, read);
        let arranged = arrange(&self.groups, &matches);
        proof {
            assert(read@.len() == read.len());
            lemma_arranged_is_report(self.patterns@, read@, matches@, arranged@);
            assert forall|k: int| 0 <= k < arranged@.len() implies is_occurrence(
                self@,
                read@,
                #[trigger] arranged@[k],
            ) by {
                lemma_occurrences_sound(self@, read@, k);
            }
            assert forall|o: Occurrence| #[trigger]
                is_occurrence(self@, read@, o) implies arranged@.contains(o) by {
                lemma_occurrences_complete(self@, read@, o);
            }
            assert forall|a: int, b: int| 0 <= a < b < arranged@.len() implies precedes(
                #[trigger] arranged@[a],
                #[trigger] arranged@[b],
            ) by {
                lemma_occurrences_ordered(self@, read@, a, b);
            }
        }
        arranged
    }
}

} // verus!
