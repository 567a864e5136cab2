//! Writing records, one newline between each two.
//!
//! Records are separated, not terminated: no newline stands before the first
//! record of a run and none behind the last. The emitter remembers whether a
//! record has been written, and so whether the next one needs a newline in
//! front.

use crate::occurrence::Occurrence;
use crate::record::{
    lemma_newline_count_sum, lemma_newline_free_count, newline_count, newline_free, push_record,
    record_line, NEWLINE,
};
use crate::table::PatternTable;
use vstd::prelude::*;

verus! {

/// The record of occurrence `o` in a read of the given label and length.
pub open spec fn record_of(
    labels: Seq<Seq<u8>>,
    lengths: Seq<nat>,
    read_label: Seq<u8>,
    read_length: nat,
    o: Occurrence,
) -> Seq<u8> {
    record_line(
        read_label,
        read_length,
        o.start as nat,
        o.end as nat,
        labels[o.pattern as int],
        lengths[o.pattern as int],
    )
}

/// The records of the occurrences `found` in one read, in their order.
pub open spec fn records_of(
    labels: Seq<Seq<u8>>,
    lengths: Seq<nat>,
    read_label: Seq<u8>,
    read_length: nat,
    found: Seq<Occurrence>,
) -> Seq<Seq<u8>> {
    Seq::new(found.len(), |k: int| record_of(labels, lengths, read_label, read_length, found[k]))
}

/// What separates record number `index` of a batch from what was written
/// before it: a newline, unless it is the first record of the run.
pub open spec fn separator(started: bool, index: int) -> Seq<u8> {
    if started || index > 0 {
        seq![NEWLINE]
    } else {
        Seq::empty()
    }
}

/// The text of the first `count` records of a batch. `started` says whether
/// a record was written before the batch.
pub open spec fn joined(started: bool, records: Seq<Seq<u8>>, count: int) -> Seq<u8>
    decreases count,
{
    if count <= 0 {
        Seq::empty()
    } else {
        joined(started, records, count - 1) + separator(started, count - 1) + records[count - 1]
    }
}

/// Two batches written one after the other read as one batch: the second is
/// started if the first was, or if the first held a record.
pub proof fn lemma_joined_batches(
    started: bool,
    first: Seq<Seq<u8>>,
    second: Seq<Seq<u8>>,
    count: int,
)
    requires
        0 <= count <= second.len(),
    ensures
        joined(started, first + second, first.len() + count) == joined(
            started,
            first,
            first.len() as int,
        ) + joined(started || first.len() > 0, second, count),
    decreases count,
{
    let both = first + second;
    let then = started || first.len() > 0;
    if count == 0 {
        lemma_joined_prefix(started, first, both, first.len() as int);
        assert(joined(started, first, first.len() as int) + joined(then, second, 0) =~= joined(
            started,
            first,
            first.len() as int,
        ));
    } else {
        lemma_joined_batches(started, first, second, count - 1);
        assert(both[first.len() + count - 1] == second[count - 1]);
        assert(separator(started, first.len() + count - 1) == separator(then, count - 1));
        assert(joined(started, both, first.len() + count) =~= joined(
            started,
            first,
            first.len() as int,
        ) + joined(then, second, count));
    }
}

/// The text of the first records depends on those records alone.
proof fn lemma_joined_prefix(started: bool, a: Seq<Seq<u8>>, b: Seq<Seq<u8>>, count: int)
    requires
        0 <= count <= a.len(),
        count <= b.len(),
        forall|k: int| 0 <= k < count ==> a[k] == b[k],
    ensures
        joined(started, a, count) == joined(started, b, count),
    decreases count,
{
    if count > 0 {
        lemma_joined_prefix(started, a, b, count - 1);
    }
}

/// Whether a record has been written in this run.
pub struct Emitter {
    started: bool,
}

impl Emitter {
    /// Whether a record has been written.
    pub closed spec fn started(&self) -> bool {
        self.started
    }

    /// The emitter at the start of a run: nothing has been written.
    pub fn new() -> (emitter: Emitter)
        ensures
            !emitter.started(),
    {
        Emitter { started: false }
    }

    /// Whether a record has been written.
    pub fn has_started(&self) -> (started: bool)
        ensures
            started == self.started(),
    {
        self.started
    }

    /// The text for the occurrences `found` in one read: one record each, in
    /// their order, with a newline before every record but the first of the
    /// run. Once a record is written the run has started.
    pub fn write_records(
        &mut self,
        table: &PatternTable,
        read_label: &Vec<u8>,
        read_length: usize,
        found: &Vec<Occurrence>,
    ) -> (text: Vec<u8>)
        requires
            forall|k: int|
                0 <= k < found@.len() ==> (#[trigger] found@[k]).pattern < table.labels().len(),
        ensures
            text@ == joined(
                old(self).started(),
                records_of(
                    table.labels(),
                    table.lengths(),
                    read_label@,
                    read_length as nat,
                    found@,
                ),
                found@.len() as int,
            ),
            final(self).started() == (old(self).started() || found@.len() > 0),
    {
        let ghost before = self.started;
        let ghost records = records_of(
            table.labels(),
            table.lengths(),
            read_label@,
            read_length as nat,
            found@,
        );
        let count = table.len();
        let mut text: Vec<u8> = Vec::new();
        let mut k: usize = 0;
        while k < found.len()
            invariant
                k <= found.len(),
                count == table.labels().len(),
                count == table.lengths().len(),
                forall|k: int|
                    0 <= k < found@.len() ==> (#[trigger] found@[k]).pattern < table.labels().len(),
                records == records_of(
                    table.labels(),
                    table.lengths(),
                    read_label@,
                    read_length as nat,
                    found@,
                ),
                text@ == joined(before, records, k as int),
                self.started == (before || k > 0),
            decreases found.len() - k,
        {
            let o = found[k];
            if self.started {
                text.push(NEWLINE);
            } else {
                self.started = true;
            }
            push_record(
                &mut text,
                read_label,
                read_length,
                o.start,
                o.end,
                table.id(o.pattern),
                table.length(o.pattern),
            );
            assert(text@ =~= joined(before, records, k as int) + separator(before, k as int)
                + records[k as int]);
            k += 1;
        }
        text
    }
}

/// Records that hold no newline, joined, hold one newline each, but for the
/// first record of a run.
pub proof fn lemma_joined_newlines(started: bool, records: Seq<Seq<u8>>, count: int)
    requires
        0 <= count <= records.len(),
        forall|k: int| 0 <= k < records.len() ==> newline_free(#[trigger] records[k]),
    ensures
        newline_count(joined(started, records, count)) == if started || count == 0 {
            count
        } else {
            count - 1
        },
    decreases count,
{
    if count == 0 {
        lemma_newline_free_count(joined(started, records, 0));
    } else {
        lemma_joined_newlines(started, records, count - 1);
        let before = joined(started, records, count - 1);
        let gap = separator(started, count - 1);
        lemma_newline_count_sum(before + gap, records[count - 1]);
        lemma_newline_count_sum(before, gap);
        lemma_newline_free_count(records[count - 1]);
        if started || count - 1 > 0 {
            broadcast use vstd::multiset::group_multiset_axioms;

            let none = Seq::<u8>::empty();
            assert(gap =~= none.push(NEWLINE));
            vstd::seq_lib::to_multiset_build(none, NEWLINE);
            lemma_newline_free_count(none);
            assert(newline_count(gap) == 1);
        } else {
            lemma_newline_free_count(gap);
        }
    }
}

} // verus!
