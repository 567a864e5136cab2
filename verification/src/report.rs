//! The report of a whole run, and what holds of it.
//!
//! A run searches every read, in input order, for every pattern of the
//! dictionary, and writes one record per occurrence. This file says what the
//! run writes, as a function of its four inputs, and proves that the report
//! is sound, complete and ordered, and that it holds one newline less than it
//! holds records.

use crate::emit::{joined, lemma_joined_newlines, record_of, records_of};
use crate::error::MapError;
use crate::matcher::dictionary_accepted;
use crate::occurrence::{
    is_occurrence, lemma_occurrences_complete, lemma_occurrences_ordered, lemma_occurrences_sound,
    occurrences, occurs_at, precedes, Occurrence,
};
use crate::record::{lemma_record_newline_free, newline_count, newline_free, record_line};
use crate::table::pattern_lengths;
use vstd::prelude::*;

verus! {

/// One occurrence in a run: the index of the read, and the occurrence in it.
pub struct Hit {
    pub read: int,
    pub occurrence: Occurrence,
}

/// The occurrences in read number `index`, in reporting order.
pub open spec fn read_hits(patterns: Seq<Seq<u8>>, reads: Seq<Seq<u8>>, index: int) -> Seq<Hit> {
    Seq::new(
        occurrences(patterns, reads[index]).len(),
        |k: int| Hit { read: index, occurrence: occurrences(patterns, reads[index])[k] },
    )
}

/// The occurrences in the first `count` reads: read after read, and in each
/// read in reporting order.
pub open spec fn run_hits(patterns: Seq<Seq<u8>>, reads: Seq<Seq<u8>>, count: int) -> Seq<Hit>
    decreases count,
{
    if count <= 0 {
        Seq::empty()
    } else {
        run_hits(patterns, reads, count - 1) + read_hits(patterns, reads, count - 1)
    }
}

/// The records of one read.
pub open spec fn read_records(
    patterns: Seq<Seq<u8>>,
    labels: Seq<Seq<u8>>,
    read: Seq<u8>,
    read_label: Seq<u8>,
) -> Seq<Seq<u8>> {
    records_of(
        labels,
        pattern_lengths(patterns),
        read_label,
        read.len(),
        occurrences(patterns, read),
    )
}

/// The records of the first `count` reads.
pub open spec fn run_records(
    patterns: Seq<Seq<u8>>,
    labels: Seq<Seq<u8>>,
    reads: Seq<Seq<u8>>,
    read_labels: Seq<Seq<u8>>,
    count: int,
) -> Seq<Seq<u8>>
    decreases count,
{
    if count <= 0 {
        Seq::empty()
    } else {
        run_records(patterns, labels, reads, read_labels, count - 1) + read_records(
            patterns,
            labels,
            reads[count - 1],
            read_labels[count - 1],
        )
    }
}

/// What a run writes: its records, one newline between each two.
pub open spec fn run_output(
    patterns: Seq<Seq<u8>>,
    labels: Seq<Seq<u8>>,
    reads: Seq<Seq<u8>>,
    read_labels: Seq<Seq<u8>>,
) -> Seq<u8> {
    let records = run_records(patterns, labels, reads, read_labels, reads.len() as int);
    joined(false, records, records.len() as int)
}

/// Why a dictionary with its labels is refused, if it is: because there are
/// not as many labels as patterns, or else because no matcher can be built
/// from the patterns.
pub open spec fn dictionary_refusal(patterns: Seq<Seq<u8>>, label_count: nat) -> Option<MapError> {
    if patterns.len() != label_count {
        Some(MapError::ShapeMismatch)
    } else if !dictionary_accepted(patterns) {
        Some(MapError::InvalidDictionary)
    } else {
        None
    }
}

/// Why a run is refused, if it is: because there are not as many read labels
/// as reads, or else because its dictionary is refused.
pub open spec fn refusal(
    patterns: Seq<Seq<u8>>,
    label_count: nat,
    read_count: nat,
    read_label_count: nat,
) -> Option<MapError> {
    if read_count != read_label_count {
        Some(MapError::ShapeMismatch)
    } else {
        dictionary_refusal(patterns, label_count)
    }
}

/// How a run ends: refused, or with its output.
pub open spec fn run_result(
    patterns: Seq<Seq<u8>>,
    labels: Seq<Seq<u8>>,
    reads: Seq<Seq<u8>>,
    read_labels: Seq<Seq<u8>>,
) -> Result<Seq<u8>, MapError> {
    match refusal(patterns, labels.len(), reads.len(), read_labels.len()) {
        Some(why) => Err(why),
        None => Ok(run_output(patterns, labels, reads, read_labels)),
    }
}

/// Dictionary and reads are of a size that offsets and indices can address.
pub open spec fn run_addressable(patterns: Seq<Seq<u8>>, reads: Seq<Seq<u8>>) -> bool {
    &&& patterns.len() <= usize::MAX
    &&& forall|j: int| 0 <= j < reads.len() ==> (#[trigger] reads[j]).len() <= usize::MAX
}

/// The order of a run: reads in input order, and in one read the reporting
/// order.
pub open spec fn hit_precedes(a: Hit, b: Hit) -> bool {
    a.read < b.read || (a.read == b.read && precedes(a.occurrence, b.occurrence))
}

proof fn lemma_run_hits(patterns: Seq<Seq<u8>>, reads: Seq<Seq<u8>>, count: int)
    requires
        run_addressable(patterns, reads),
        0 <= count <= reads.len(),
    ensures
        forall|k: int|
            0 <= k < run_hits(patterns, reads, count).len() ==> {
                let hit = #[trigger] run_hits(patterns, reads, count)[k];
                0 <= hit.read < count && is_occurrence(patterns, reads[hit.read], hit.occurrence)
            },
        forall|a: int, b: int|
            0 <= a < b < run_hits(patterns, reads, count).len() ==> hit_precedes(
                #[trigger] run_hits(patterns, reads, count)[a],
                #[trigger] run_hits(patterns, reads, count)[b],
            ),
        forall|j: int, o: Occurrence|
            0 <= j < count && #[trigger] is_occurrence(patterns, reads[j], o) ==> run_hits(
                patterns,
                reads,
                count,
            ).contains(Hit { read: j, occurrence: o }),
    decreases count,
{
    if count > 0 {
        lemma_run_hits(patterns, reads, count - 1);
        let before = run_hits(patterns, reads, count - 1);
        let last = read_hits(patterns, reads, count - 1);
        let all = run_hits(patterns, reads, count);
        let read = reads[count - 1];
        assert forall|k: int| 0 <= k < all.len() implies {
            let hit = #[trigger] all[k];
            0 <= hit.read < count && is_occurrence(patterns, reads[hit.read], hit.occurrence)
        } by {
            if k < before.len() {
                assert(all[k] == before[k]);
            } else {
                assert(all[k] == last[k - before.len()]);
                lemma_occurrences_sound(patterns, read, k - before.len());
            }
        }
        assert forall|a: int, b: int| 0 <= a < b < all.len() implies hit_precedes(
            #[trigger] all[a],
            #[trigger] all[b],
        ) by {
            if b < before.len() {
                assert(all[a] == before[a] && all[b] == before[b]);
            } else if a < before.len() {
                assert(all[a] == before[a] && all[b] == last[b - before.len()]);
            } else {
                assert(all[a] == last[a - before.len()] && all[b] == last[b - before.len()]);
                lemma_occurrences_ordered(patterns, read, a - before.len(), b - before.len());
            }
        }
        assert forall|j: int, o: Occurrence|
            0 <= j < count && #[trigger] is_occurrence(patterns, reads[j], o) implies all.contains(
            Hit { read: j, occurrence: o },
        ) by {
            let hit = Hit { read: j, occurrence: o };
            if j < count - 1 {
                let k = choose|k: int| 0 <= k < before.len() && before[k] == hit;
                assert(all[k] == hit);
            } else {
                lemma_occurrences_complete(patterns, read, o);
                let k = choose|k: int|
                    0 <= k < occurrences(patterns, read).len() && occurrences(patterns, read)[k]
                        == o;
                assert(last[k] == hit);
                assert(all[before.len() + k] == hit);
            }
        }
    }
}

proof fn lemma_run_records(
    patterns: Seq<Seq<u8>>,
    labels: Seq<Seq<u8>>,
    reads: Seq<Seq<u8>>,
    read_labels: Seq<Seq<u8>>,
    count: int,
)
    requires
        0 <= count <= reads.len(),
    ensures
        run_records(patterns, labels, reads, read_labels, count).len() == run_hits(
            patterns,
            reads,
            count,
        ).len(),
        forall|k: int|
            0 <= k < run_hits(patterns, reads, count).len() ==> {
                let hit = run_hits(patterns, reads, count)[k];
                #[trigger] run_records(patterns, labels, reads, read_labels, count)[k] == record_of(
                    labels,
                    pattern_lengths(patterns),
                    read_labels[hit.read],
                    reads[hit.read].len(),
                    hit.occurrence,
                )
            },
    decreases count,
{
    if count > 0 {
        lemma_run_records(patterns, labels, reads, read_labels, count - 1);
        let hits_before = run_hits(patterns, reads, count - 1);
        let hits_last = read_hits(patterns, reads, count - 1);
        let hits = run_hits(patterns, reads, count);
        let before = run_records(patterns, labels, reads, read_labels, count - 1);
        let last = read_records(patterns, labels, reads[count - 1], read_labels[count - 1]);
        let all = run_records(patterns, labels, reads, read_labels, count);
        assert forall|k: int| 0 <= k < hits.len() implies {
            let hit = hits[k];
            #[trigger] all[k] == record_of(
                labels,
                pattern_lengths(patterns),
                read_labels[hit.read],
                reads[hit.read].len(),
                hit.occurrence,
            )
        } by {
            if k < before.len() {
                assert(all[k] == before[k] && hits[k] == hits_before[k]);
            } else {
                assert(all[k] == last[k - before.len()]);
                assert(hits[k] == hits_last[k - before.len()]);
            }
        }
    }
}

/// Soundness. Every hit of a run names a read of the run and an occurrence in
/// it: the read holds the pattern's bytes from `start` to `end`, and `end`
/// less `start` is the pattern's length.
pub proof fn lemma_run_sound(patterns: Seq<Seq<u8>>, reads: Seq<Seq<u8>>, k: int)
    requires
        run_addressable(patterns, reads),
        0 <= k < run_hits(patterns, reads, reads.len() as int).len(),
    ensures
        ({
            let hit = run_hits(patterns, reads, reads.len() as int)[k];
            &&& 0 <= hit.read < reads.len()
            &&& is_occurrence(patterns, reads[hit.read], hit.occurrence)
        }),
{
    lemma_run_hits(patterns, reads, reads.len() as int);
}

/// The records of a run are the records of its hits, one for one: record `k`
/// carries the label and the length of the hit's read, the hit's offsets,
/// and label and length of the hit's pattern.
pub proof fn lemma_run_record(
    patterns: Seq<Seq<u8>>,
    labels: Seq<Seq<u8>>,
    reads: Seq<Seq<u8>>,
    read_labels: Seq<Seq<u8>>,
    k: int,
)
    requires
        run_addressable(patterns, reads),
        0 <= k < run_hits(patterns, reads, reads.len() as int).len(),
    ensures
        run_records(patterns, labels, reads, read_labels, reads.len() as int).len() == run_hits(
            patterns,
            reads,
            reads.len() as int,
        ).len(),
        ({
            let hit = run_hits(patterns, reads, reads.len() as int)[k];
            run_records(patterns, labels, reads, read_labels, reads.len() as int)[k] == record_line(
                read_labels[hit.read],
                reads[hit.read].len(),
                hit.occurrence.start as nat,
                hit.occurrence.end as nat,
                labels[hit.occurrence.pattern as int],
                patterns[hit.occurrence.pattern as int].len(),
            )
        }),
{
    lemma_run_hits(patterns, reads, reads.len() as int);
    lemma_run_records(patterns, labels, reads, read_labels, reads.len() as int);
}

/// Completeness. Every occurrence of every pattern in every read is a hit of
/// the run.
pub proof fn lemma_run_complete(
    patterns: Seq<Seq<u8>>,
    reads: Seq<Seq<u8>>,
    read: int,
    o: Occurrence,
)
    requires
        run_addressable(patterns, reads),
        0 <= read < reads.len(),
        is_occurrence(patterns, reads[read], o),
    ensures
        run_hits(patterns, reads, reads.len() as int).contains(Hit { read, occurrence: o }),
{
    lemma_run_hits(patterns, reads, reads.len() as int);
}

/// Ordering. Hits come read by read in input order; in one read, ends never
/// decrease and, among equal ends, the pattern index increases. So no hit
/// comes twice.
pub proof fn lemma_run_ordered(patterns: Seq<Seq<u8>>, reads: Seq<Seq<u8>>, a: int, b: int)
    requires
        run_addressable(patterns, reads),
        0 <= a < b < run_hits(patterns, reads, reads.len() as int).len(),
    ensures
        hit_precedes(
            run_hits(patterns, reads, reads.len() as int)[a],
            run_hits(patterns, reads, reads.len() as int)[b],
        ),
        run_hits(patterns, reads, reads.len() as int)[a] != run_hits(
            patterns,
            reads,
            reads.len() as int,
        )[b],
{
    lemma_run_hits(patterns, reads, reads.len() as int);
}

/// A dictionary searched in itself: pattern `i`, taken as read `i`, is found
/// in that read from offset 0 to its full length.
pub proof fn lemma_self_match(patterns: Seq<Seq<u8>>, i: int)
    requires
        run_addressable(patterns, patterns),
        0 <= i < patterns.len(),
    ensures
        run_hits(patterns, patterns, patterns.len() as int).contains(
            Hit {
                read: i,
                occurrence: Occurrence {
                    start: 0,
                    end: patterns[i].len() as usize,
                    pattern: i as usize,
                },
            },
        ),
{
    let o = Occurrence { start: 0, end: patterns[i].len() as usize, pattern: i as usize };
    assert(patterns[i].subrange(0, patterns[i].len() as int) =~= patterns[i]);
    assert(occurs_at(patterns[i], patterns[i], 0));
    lemma_run_complete(patterns, patterns, i, o);
}

/// The separator law. When no label holds a newline, the output of a run
/// holds one newline less than it holds records, and none when it holds no
/// record.
pub proof fn lemma_separator_count(
    patterns: Seq<Seq<u8>>,
    labels: Seq<Seq<u8>>,
    reads: Seq<Seq<u8>>,
    read_labels: Seq<Seq<u8>>,
)
    requires
        run_addressable(patterns, reads),
        labels.len() == patterns.len(),
        read_labels.len() == reads.len(),
        forall|i: int| 0 <= i < labels.len() ==> newline_free(#[trigger] labels[i]),
        forall|j: int| 0 <= j < read_labels.len() ==> newline_free(#[trigger] read_labels[j]),
    ensures
        ({
            let records = run_records(patterns, labels, reads, read_labels, reads.len() as int);
            newline_count(run_output(patterns, labels, reads, read_labels)) == if records.len()
                == 0 {
                0
            } else {
                records.len() - 1
            }
        }),
{
    let count = reads.len() as int;
    let records = run_records(patterns, labels, reads, read_labels, count);
    let hits = run_hits(patterns, reads, count);
    lemma_run_hits(patterns, reads, count);
    lemma_run_records(patterns, labels, reads, read_labels, count);
    assert forall|k: int| 0 <= k < records.len() implies newline_free(#[trigger] records[k]) by {
        let hit = hits[k];
        lemma_record_newline_free(
            read_labels[hit.read],
            reads[hit.read].len(),
            hit.occurrence.start as nat,
            hit.occurrence.end as nat,
            labels[hit.occurrence.pattern as int],
            pattern_lengths(patterns)[hit.occurrence.pattern as int],
        );
    }
    lemma_joined_newlines(false, records, records.len() as int);
}

/// A run without a hit writes nothing.
pub proof fn lemma_no_hit_no_output(
    patterns: Seq<Seq<u8>>,
    labels: Seq<Seq<u8>>,
    reads: Seq<Seq<u8>>,
    read_labels: Seq<Seq<u8>>,
)
    requires
        run_hits(patterns, reads, reads.len() as int).len() == 0,
    ensures
        run_output(patterns, labels, reads, read_labels) == Seq::<u8>::empty(),
{
    lemma_run_records(patterns, labels, reads, read_labels, reads.len() as int);
}

} // verus!
