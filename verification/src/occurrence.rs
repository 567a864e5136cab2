//! Occurrences of dictionary patterns in a read, and the order in which they
//! are reported.
//!
//! A read is searched for every pattern of an ordered dictionary. Each place
//! where a pattern's bytes stand in the read is one occurrence. The report
//! lists every occurrence once, by ascending end offset and, among occurrences
//! that end together, by ascending pattern index.

use vstd::prelude::*;

verus! {

/// One occurrence: bytes `start..end` of the read are the bytes of pattern
/// number `pattern` of the dictionary.
#[derive(Clone, Copy, Debug, PartialEq, Eq, Structural)]
pub struct Occurrence {
    pub start: usize,
    pub end: usize,
    pub pattern: usize,
}

/// The bytes of `pattern` stand in `read` from offset `start` on.
pub open spec fn occurs_at(pattern: Seq<u8>, read: Seq<u8>, start: int) -> bool {
    &&& 0 <= start
    &&& start + pattern.len() <= read.len()
    &&& read.subrange(start, start + pattern.len()) == pattern
}

/// `o` names a pattern of the dictionary and a place in `read` where that
/// pattern stands.
pub open spec fn is_occurrence(patterns: Seq<Seq<u8>>, read: Seq<u8>, o: Occurrence) -> bool {
    &&& o.pattern < patterns.len()
    &&& o.end == o.start + patterns[o.pattern as int].len()
    &&& occurs_at(patterns[o.pattern as int], read, o.start as int)
}

/// The reporting order: earlier end first, and for equal ends the pattern
/// with the smaller index first.
pub open spec fn precedes(a: Occurrence, b: Occurrence) -> bool {
    a.end < b.end || (a.end == b.end && a.pattern < b.pattern)
}

/// The occurrences that end at `end`, among the first `count` patterns, by
/// ascending pattern index.
pub open spec fn ending_at(patterns: Seq<Seq<u8>>, read: Seq<u8>, end: int, count: int) -> Seq<
    Occurrence,
>
    decreases count,
{
    if count <= 0 {
        Seq::empty()
    } else {
        let earlier = ending_at(patterns, read, end, count - 1);
        let pattern = patterns[count - 1];
        if occurs_at(pattern, read, end - pattern.len()) {
            earlier.push(
                Occurrence {
                    start: (end - pattern.len()) as usize,
                    end: end as usize,
                    pattern: (count - 1) as usize,
                },
            )
        } else {
            earlier
        }
    }
}

/// The occurrences that end at `end` or before it, in reporting order.
pub open spec fn ending_up_to(patterns: Seq<Seq<u8>>, read: Seq<u8>, end: int) -> Seq<Occurrence>
    decreases end + 1,
{
    if end < 0 {
        Seq::empty()
    } else {
        ending_up_to(patterns, read, end - 1) + ending_at(
            patterns,
            read,
            end,
            patterns.len() as int,
        )
    }
}

/// Every occurrence of every pattern in `read`, in reporting order.
pub open spec fn occurrences(patterns: Seq<Seq<u8>>, read: Seq<u8>) -> Seq<Occurrence> {
    ending_up_to(patterns, read, read.len() as int)
}

/// Dictionary and read are of a size that offsets and indices can address.
pub open spec fn addressable(patterns: Seq<Seq<u8>>, read: Seq<u8>) -> bool {
    patterns.len() <= usize::MAX && read.len() <= usize::MAX
}

proof fn lemma_ending_at(patterns: Seq<Seq<u8>>, read: Seq<u8>, end: int, count: int)
    requires
        0 <= end <= usize::MAX,
        0 <= count <= patterns.len() <= usize::MAX,
    ensures
        forall|k: int|
            0 <= k < ending_at(patterns, read, end, count).len() ==> {
                let o = #[trigger] ending_at(patterns, read, end, count)[k];
                o.end == end && o.pattern < count && is_occurrence(patterns, read, o)
            },
        forall|a: int, b: int|
            0 <= a < b < ending_at(patterns, read, end, count).len() ==> (#[trigger] ending_at(
                patterns,
                read,
                end,
                count,
            )[a]).pattern < (#[trigger] ending_at(patterns, read, end, count)[b]).pattern,
        forall|o: Occurrence|
            #[trigger] is_occurrence(patterns, read, o) && o.end == end && o.pattern < count
                ==> ending_at(patterns, read, end, count).contains(o),
    decreases count,
{
    let here = ending_at(patterns, read, end, count);
    if count > 0 {
        lemma_ending_at(patterns, read, end, count - 1);
        let earlier = ending_at(patterns, read, end, count - 1);
        let pattern = patterns[count - 1];
        assert forall|o: Occurrence|
            #[trigger] is_occurrence(patterns, read, o) && o.end == end && o.pattern
                < count implies here.contains(o) by {
            if o.pattern < count - 1 {
                let k = choose|k: int| 0 <= k < earlier.len() && earlier[k] == o;
                assert(here[k] == o);
            } else {
                assert(occurs_at(pattern, read, end - pattern.len()));
                assert(here[here.len() - 1] == o);
            }
        }
    }
}

proof fn lemma_ending_up_to(patterns: Seq<Seq<u8>>, read: Seq<u8>, end: int)
    requires
        -1 <= end <= usize::MAX,
        patterns.len() <= usize::MAX,
    ensures
        forall|k: int|
            0 <= k < ending_up_to(patterns, read, end).len() ==> {
                let o = #[trigger] ending_up_to(patterns, read, end)[k];
                o.end <= end && is_occurrence(patterns, read, o)
            },
        forall|a: int, b: int|
            0 <= a < b < ending_up_to(patterns, read, end).len() ==> precedes(
                #[trigger] ending_up_to(patterns, read, end)[a],
                #[trigger] ending_up_to(patterns, read, end)[b],
            ),
        forall|o: Occurrence|
            #[trigger] is_occurrence(patterns, read, o) && o.end <= end ==> ending_up_to(
                patterns,
                read,
                end,
            ).contains(o),
    decreases end + 1,
{
    let all = ending_up_to(patterns, read, end);
    if end >= 0 {
        lemma_ending_up_to(patterns, read, end - 1);
        lemma_ending_at(patterns, read, end, patterns.len() as int);
        let before = ending_up_to(patterns, read, end - 1);
        let last = ending_at(patterns, read, end, patterns.len() as int);
        assert forall|k: int| 0 <= k < all.len() implies {
            let o = #[trigger] all[k];
            o.end <= end && is_occurrence(patterns, read, o)
        } by {
            if k < before.len() {
                assert(all[k] == before[k]);
            } else {
                assert(all[k] == last[k - before.len()]);
            }
        }
        assert forall|a: int, b: int| 0 <= a < b < all.len() implies precedes(
            #[trigger] all[a],
            #[trigger] all[b],
        ) by {
            if b < before.len() {
                assert(all[a] == before[a] && all[b] == before[b]);
            } else if a < before.len() {
                assert(all[a] == before[a] && all[b] == last[b - before.len()]);
            } else {
                assert(all[a] == last[a - before.len()] && all[b] == last[b - before.len()]);
            }
        }
        assert forall|o: Occurrence| #[trigger]
            is_occurrence(patterns, read, o) && o.end <= end implies all.contains(o) by {
            if o.end < end {
                let k = choose|k: int| 0 <= k < before.len() && before[k] == o;
                assert(all[k] == o);
            } else {
                let k = choose|k: int| 0 <= k < last.len() && last[k] == o;
                assert(all[before.len() + k] == o);
            }
        }
    }
}

/// Every reported occurrence is one: the read holds the pattern's bytes at the
/// reported place, and the place is as long as the pattern.
pub proof fn lemma_occurrences_sound(patterns: Seq<Seq<u8>>, read: Seq<u8>, k: int)
    requires
        addressable(patterns, read),
        0 <= k < occurrences(patterns, read).len(),
    ensures
        is_occurrence(patterns, read, occurrences(patterns, read)[k]),
{
    lemma_ending_up_to(patterns, read, read.len() as int);
}

/// Every occurrence is reported.
pub proof fn lemma_occurrences_complete(patterns: Seq<Seq<u8>>, read: Seq<u8>, o: Occurrence)
    requires
        addressable(patterns, read),
        is_occurrence(patterns, read, o),
    ensures
        occurrences(patterns, read).contains(o),
{
    lemma_ending_up_to(patterns, read, read.len() as int);
}

/// The report is in reporting order, strictly: ends never decrease, and among
/// equal ends the pattern index increases. No occurrence is reported twice.
pub proof fn lemma_occurrences_ordered(patterns: Seq<Seq<u8>>, read: Seq<u8>, a: int, b: int)
    requires
        addressable(patterns, read),
        0 <= a < b < occurrences(patterns, read).len(),
    ensures
        precedes(occurrences(patterns, read)[a], occurrences(patterns, read)[b]),
        occurrences(patterns, read)[a] != occurrences(patterns, read)[b],
{
    lemma_ending_up_to(patterns, read, read.len() as int);
}

/// Equal patterns are reported alike: where one index of the dictionary is
/// reported, every index that holds the same bytes is reported too.
pub proof fn lemma_duplicates_reported(
    patterns: Seq<Seq<u8>>,
    read: Seq<u8>,
    o: Occurrence,
    twin: int,
)
    requires
        addressable(patterns, read),
        is_occurrence(patterns, read, o),
        0 <= twin < patterns.len(),
        patterns[twin] == patterns[o.pattern as int],
    ensures
        occurrences(patterns, read).contains(
            Occurrence { start: o.start, end: o.end, pattern: twin as usize },
        ),
{
    lemma_occurrences_complete(
        patterns,
        read,
        Occurrence { start: o.start, end: o.end, pattern: twin as usize },
    );
}

/// An empty read holds no occurrence of a pattern that is not empty.
pub proof fn lemma_empty_read(patterns: Seq<Seq<u8>>)
    requires
        patterns.len() <= usize::MAX,
        forall|i: int| 0 <= i < patterns.len() ==> (#[trigger] patterns[i]).len() > 0,
    ensures
        occurrences(patterns, Seq::<u8>::empty()) == Seq::<Occurrence>::empty(),
{
    let read = Seq::<u8>::empty();
    let report = occurrences(patterns, read);
    if report.len() > 0 {
        lemma_occurrences_sound(patterns, read, 0);
        assert(patterns[report[0].pattern as int].len() > 0);
    }
    assert(report =~= Seq::<Occurrence>::empty());
}

/// A read searched for itself alone is found once, from offset 0 to its full
/// length.
pub proof fn lemma_whole_read(pattern: Seq<u8>)
    requires
        0 < pattern.len() <= usize::MAX,
    ensures
        occurrences(seq![pattern], pattern) == seq![
            Occurrence { start: 0, end: pattern.len() as usize, pattern: 0 },
        ],
{
    let patterns = seq![pattern];
    let whole = Occurrence { start: 0, end: pattern.len() as usize, pattern: 0 };
    let report = occurrences(patterns, pattern);
    assert(pattern.subrange(0, pattern.len() as int) =~= pattern);
    lemma_occurrences_complete(patterns, pattern, whole);
    assert forall|k: int| 0 <= k < report.len() implies report[k] == whole by {
        lemma_occurrences_sound(patterns, pattern, k);
    }
    if report.len() > 1 {
        lemma_occurrences_ordered(patterns, pattern, 0, 1);
    }
    assert(report =~= seq![whole]);
}

} // verus!
