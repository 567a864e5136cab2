//! From what the automaton reports to what the matcher reports.
//!
//! The automaton knows each distinct pattern once and reports a match with the
//! number of that distinct pattern. A dictionary may hold the same bytes under
//! several indices, so each reported match stands for a group of dictionary
//! indices. Arranging spreads every match over its group and puts the result
//! in reporting order.

use crate::grouping::each_index_once;
use crate::occurrence::Occurrence;
use vstd::multiset::Multiset;
use vstd::prelude::*;
use vstd::seq_lib::{lemma_multiset_commutative, to_multiset_build, to_multiset_insert};

verus! {

/// The total order that arranging sorts by: end, then pattern index, then
/// start. On occurrences of one read it agrees with the reporting order.
pub open spec fn in_order(a: Occurrence, b: Occurrence) -> bool {
    ||| a.end < b.end
    ||| a.end == b.end && a.pattern < b.pattern
    ||| a.end == b.end && a.pattern == b.pattern && a.start <= b.start
}

/// Every element is in order with every later one.
pub open spec fn sorted(list: Seq<Occurrence>) -> bool {
    forall|i: int, j: int| 0 <= i < j < list.len() ==> in_order(#[trigger] list[i], #[trigger] list[j])
}

/// One match of the automaton, repeated for each of the first `count` members
/// of `group`.
pub open spec fn spread_over(found: Occurrence, group: Seq<usize>, count: int) -> Seq<Occurrence>
    decreases count,
{
    if count <= 0 {
        Seq::empty()
    } else {
        spread_over(found, group, count - 1).push(
            Occurrence { start: found.start, end: found.end, pattern: group[count - 1] },
        )
    }
}

/// One match of the automaton, repeated for each dictionary index of the
/// group that its distinct pattern stands for. A match that names no group
/// stands for nothing.
pub open spec fn spread(groups: Seq<Seq<usize>>, found: Occurrence) -> Seq<Occurrence> {
    if found.pattern < groups.len() {
        spread_over(found, groups[found.pattern as int], groups[found.pattern as int].len() as int)
    } else {
        Seq::empty()
    }
}

/// The first `count` matches of the automaton, each spread over its group.
pub open spec fn expand(groups: Seq<Seq<usize>>, found: Seq<Occurrence>, count: int) -> Seq<
    Occurrence,
>
    decreases count,
{
    if count <= 0 {
        Seq::empty()
    } else {
        expand(groups, found, count - 1) + spread(groups, found[count - 1])
    }
}

/// The match `found` of the automaton stands for the occurrence `o`: both
/// name the same place, and the group of `found` lists the pattern of `o`.
pub open spec fn stands_for(groups: Seq<Seq<usize>>, found: Occurrence, o: Occurrence) -> bool {
    &&& found.pattern < groups.len()
    &&& o.start == found.start
    &&& o.end == found.end
    &&& groups[found.pattern as int].contains(o.pattern)
}

proof fn lemma_spread_over(found: Occurrence, group: Seq<usize>, count: int)
    requires
        0 <= count <= group.len(),
    ensures
        spread_over(found, group, count).len() == count,
        forall|t: int|
            0 <= t < count ==> #[trigger] spread_over(found, group, count)[t] == (Occurrence {
                start: found.start,
                end: found.end,
                pattern: group[t],
            }),
    decreases count,
{
    if count > 0 {
        lemma_spread_over(found, group, count - 1);
    }
}

/// A match spread over its group gives the occurrences that it stands for,
/// each once.
pub proof fn lemma_spread(groups: Seq<Seq<usize>>, found: Occurrence)
    requires
        each_index_once(groups),
    ensures
        forall|o: Occurrence|
            #![trigger spread(groups, found).contains(o)]
            #![trigger stands_for(groups, found, o)]
            spread(groups, found).contains(o) <==> stands_for(groups, found, o),
        spread(groups, found).no_duplicates(),
{
    let spreading = spread(groups, found);
    if found.pattern < groups.len() {
        let group = groups[found.pattern as int];
        lemma_spread_over(found, group, group.len() as int);
        assert forall|o: Occurrence|
            #![trigger spread(groups, found).contains(o)]
            #![trigger stands_for(groups, found, o)]
            spreading.contains(o) <==> stands_for(groups, found, o) by {
            if stands_for(groups, found, o) {
                let t = choose|t: int| 0 <= t < group.len() && group[t] == o.pattern;
                assert(spreading[t] == o);
            }
        }
    }
}

/// The expansion of matches that differ from one another holds exactly the
/// occurrences that one of the matches stands for, each once.
pub proof fn lemma_expand(groups: Seq<Seq<usize>>, found: Seq<Occurrence>, count: int)
    requires
        0 <= count <= found.len(),
        each_index_once(groups),
        found.no_duplicates(),
    ensures
        forall|o: Occurrence|
            #[trigger] expand(groups, found, count).contains(o) <==> exists|k: int|
                0 <= k < count && stands_for(groups, #[trigger] found[k], o),
        expand(groups, found, count).no_duplicates(),
    decreases count,
{
    if count > 0 {
        lemma_expand(groups, found, count - 1);
        lemma_spread(groups, found[count - 1]);
        let before = expand(groups, found, count - 1);
        let last = spread(groups, found[count - 1]);
        let all = expand(groups, found, count);
        assert forall|o: Occurrence| #[trigger] all.contains(o) <==> exists|k: int|
            0 <= k < count && stands_for(groups, #[trigger] found[k], o) by {
            vstd::seq_lib::lemma_seq_concat_contains_all_elements(before, last, o);
            if all.contains(o) {
                if before.contains(o) {
                    let k = choose|k: int|
                        0 <= k < count - 1 && stands_for(groups, #[trigger] found[k], o);
                    assert(stands_for(groups, found[k], o));
                } else {
                    assert(stands_for(groups, found[count - 1], o));
                }
            }
            if exists|k: int| 0 <= k < count && stands_for(groups, #[trigger] found[k], o) {
                let k = choose|k: int| 0 <= k < count && stands_for(groups, #[trigger] found[k], o);
                if k < count - 1 {
                    assert(before.contains(o));
                } else {
                    assert(last.contains(o));
                }
            }
        }
        assert forall|i: int, j: int| 0 <= i < before.len() && 0 <= j < last.len() implies before[i]
            != last[j] by {
            if before[i] == last[j] {
                let o = before[i];
                assert(before.contains(o));
                assert(last.contains(o));
                let k = choose|k: int|
                    0 <= k < count - 1 && stands_for(groups, #[trigger] found[k], o);
                let here = groups[found[k].pattern as int];
                let there = groups[found[count - 1].pattern as int];
                let s = choose|s: int| 0 <= s < here.len() && here[s] == o.pattern;
                let t = choose|t: int| 0 <= t < there.len() && there[t] == o.pattern;
                assert(groups[found[k].pattern as int][s] == groups[found[count
                    - 1].pattern as int][t]);
                assert(found[k] == found[count - 1]);
            }
        }
        vstd::seq_lib::lemma_no_dup_in_concat(before, last);
    }
}

/// Decides the sorting order.
pub fn comes_in_order(a: &Occurrence, b: &Occurrence) -> (yes: bool)
    ensures
        yes == in_order(*a, *b),
{
    a.end < b.end || (a.end == b.end && (a.pattern < b.pattern || (a.pattern == b.pattern
        && a.start <= b.start)))
}

/// Puts `o` into a sorted list, behind everything that it does not come
/// before. The list stays sorted and gains exactly `o`.
pub fn insert_in_order(list: &mut Vec<Occurrence>, o: Occurrence)
    requires
        sorted(old(list)@),
    ensures
        sorted(final(list)@),
        final(list)@.to_multiset() == old(list)@.to_multiset().insert(o),
{
    let mut at: usize = list.len();
    while at > 0 && !comes_in_order(&list[at - 1], &o)
        invariant
            at <= list.len(),
            *list == *old(list),
            sorted(list@),
            forall|k: int| at <= k < list.len() ==> in_order(o, #[trigger] list[k]),
        decreases at,
    {
        at -= 1;
    }
    proof {
        to_multiset_insert(list@, at as int, o);
        let after = list@.insert(at as int, o);
        assert forall|i: int, j: int| 0 <= i < j < after.len() implies in_order(
            #[trigger] after[i],
            #[trigger] after[j],
        ) by {
            if j < at {
                assert(after[i] == list[i] && after[j] == list[j]);
            } else if j == at {
                assert(after[i] == list[i]);
                assert(in_order(list[i], list[at - 1]));
            } else if i < at {
                assert(after[i] == list[i] && after[j] == list[j - 1]);
            } else if i == at {
                assert(after[j] == list[j - 1]);
            } else {
                assert(after[i] == list[i - 1] && after[j] == list[j - 1]);
            }
        }
    }
    list.insert(at, o);
}

/// Spreads each match of the automaton over its group and sorts the result
/// by end, pattern index and start.
///
/// `groups[d]` lists the dictionary indices that distinct pattern `d` stands
/// for; `found` holds matches whose `pattern` is the number of a distinct
/// pattern. The result holds, in sorted order, one occurrence for each match
/// and each member of that match's group, and nothing else.
pub fn arrange(groups: &Vec<Vec<usize>>, found: &Vec<Occurrence>) -> (arranged: Vec<Occurrence>)
    ensures
        sorted(arranged@),
        arranged@.to_multiset() == expand(
            groups.deep_view(),
            found@,
            found@.len() as int,
        ).to_multiset(),
{
    let ghost spec_groups = groups.deep_view();
    let mut arranged: Vec<Occurrence> = Vec::new();
    let mut k: usize = 0;
    while k < found.len()
        invariant
            k <= found.len(),
            spec_groups == groups.deep_view(),
            sorted(arranged@),
            arranged@.to_multiset() == expand(spec_groups, found@, k as int).to_multiset(),
        decreases found.len() - k,
    {
        let one = found[k];
        if one.pattern < groups.len() {
            let group = &groups[one.pattern];
            let ghost members = spec_groups[one.pattern as int];
            assert(members =~= group@);
            proof {
                broadcast use vstd::multiset::group_multiset_axioms;

                let spread_none = spread_over(one, members, 0);
                assert(spread_none.to_multiset() =~= Multiset::empty()) by {
                    spread_none.to_multiset_ensures();
                }
                assert(arranged@.to_multiset().add(Multiset::empty()) =~= arranged@.to_multiset());
            }
            let mut t: usize = 0;
            while t < group.len()
                invariant
                    t <= group.len(),
                    members == group@,
                    sorted(arranged@),
                    arranged@.to_multiset() == expand(spec_groups, found@, k as int).to_multiset().add(
                        spread_over(one, members, t as int).to_multiset(),
                    ),
                decreases group.len() - t,
            {
                let o = Occurrence { start: one.start, end: one.end, pattern: group[t] };
                proof {
                    to_multiset_build(spread_over(one, members, t as int), o);
                }
                insert_in_order(&mut arranged, o);
                t += 1;
            }
        }
        proof {
            lemma_multiset_commutative(
                expand(spec_groups, found@, k as int),
                spread(spec_groups, one),
            );
        }
        k += 1;
    }
    arranged
}

} // verus!
