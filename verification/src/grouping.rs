//! Grouping a dictionary by the bytes of its patterns.
//!
//! A dictionary may hold the same bytes under several indices. Grouping keeps
//! each distinct pattern once, in the order of its first appearance, and lists
//! for it, in ascending order, the dictionary indices that hold its bytes.

use crate::views::{lemma_rows_of_bytes, lemma_rows_of_indices, same_bytes};
use vstd::prelude::*;

verus! {

/// The distinct patterns among the first `count` patterns, each where it
/// first appears.
pub open spec fn first_appearances(patterns: Seq<Seq<u8>>, count: int) -> Seq<Seq<u8>>
    decreases count,
{
    if count <= 0 {
        Seq::empty()
    } else {
        let earlier = first_appearances(patterns, count - 1);
        if earlier.contains(patterns[count - 1]) {
            earlier
        } else {
            earlier.push(patterns[count - 1])
        }
    }
}

/// The indices below `count` at which the dictionary holds `bytes`, ascending.
pub open spec fn indices_of(patterns: Seq<Seq<u8>>, bytes: Seq<u8>, count: int) -> Seq<usize>
    decreases count,
{
    if count <= 0 {
        Seq::empty()
    } else {
        let earlier = indices_of(patterns, bytes, count - 1);
        if patterns[count - 1] == bytes {
            earlier.push((count - 1) as usize)
        } else {
            earlier
        }
    }
}

/// The distinct patterns of a dictionary, each where it first appears.
pub open spec fn distinct_patterns(patterns: Seq<Seq<u8>>) -> Seq<Seq<u8>> {
    first_appearances(patterns, patterns.len() as int)
}

/// For each distinct pattern, the dictionary indices that hold its bytes.
pub open spec fn pattern_groups(patterns: Seq<Seq<u8>>) -> Seq<Seq<usize>> {
    Seq::new(
        distinct_patterns(patterns).len(),
        |d: int| indices_of(patterns, distinct_patterns(patterns)[d], patterns.len() as int),
    )
}

/// A dictionary grouped by bytes: `groups[d]` lists the dictionary indices
/// whose pattern is `distinct[d]`.
pub struct Grouping {
    pub distinct: Vec<Vec<u8>>,
    pub groups: Vec<Vec<usize>>,
}

/// One step of the fingerprint: a byte folded into the running value.
pub open spec fn fold_byte(running: u64, byte: u8) -> u64 {
    (((running ^ (byte as u64)) as int * 0x100_0000_01b3) % 0x1_0000_0000_0000_0000) as u64
}

/// A 64-bit fingerprint of the first `count` bytes. Equal bytes have equal
/// fingerprints; grouping needs no more of it.
pub open spec fn fingerprint(bytes: Seq<u8>, count: int) -> u64
    decreases count,
{
    if count <= 0 {
        0xcbf2_9ce4_8422_2325
    } else {
        fold_byte(fingerprint(bytes, count - 1), bytes[count - 1])
    }
}

/// The slot of a table of `slots` slots in which `bytes` is looked for.
pub open spec fn slot_of(bytes: Seq<u8>, slots: int) -> int {
    fingerprint(bytes, bytes.len() as int) as int % slots
}

fn slot_for(bytes: &Vec<u8>, slots: usize) -> (slot: usize)
    requires
        slots > 0,
    ensures
        slot == slot_of(bytes@, slots as int),
        slot < slots,
{
    let mut running: u64 = 0xcbf2_9ce4_8422_2325;
    let mut k: usize = 0;
    while k < bytes.len()
        invariant
            k <= bytes.len(),
            running == fingerprint(bytes@, k as int),
        decreases bytes.len() - k,
    {
        let wide: u128 = ((running ^ (bytes[k] as u64)) as u128) * 0x100_0000_01b3u128;
        running = (wide % 0x1_0000_0000_0000_0000u128) as u64;
        k += 1;
    }
    (running % (slots as u64)) as usize
}

/// Looks among the distinct patterns listed in one slot for `bytes`.
fn find_in_slot(distinct: &Vec<Vec<u8>>, listed: &Vec<usize>, bytes: &Vec<u8>) -> (found: Option<
    usize,
>)
    requires
        forall|t: int| 0 <= t < listed@.len() ==> listed@[t] < distinct@.len(),
    ensures
        match found {
            Some(d) => d < distinct@.len() && distinct@[d as int]@ == bytes@,
            None => forall|t: int|
                0 <= t < listed@.len() ==> distinct@[#[trigger] listed@[t] as int]@ != bytes@,
        },
{
    let mut t: usize = 0;
    while t < listed.len()
        invariant
            t <= listed.len(),
            forall|t: int| 0 <= t < listed@.len() ==> listed@[t] < distinct@.len(),
            forall|s: int| 0 <= s < t ==> distinct@[#[trigger] listed@[s] as int]@ != bytes@,
        decreases listed.len() - t,
    {
        let d = listed[t];
        if same_bytes(&distinct[d], bytes) {
            return Some(d);
        }
        t += 1;
    }
    None
}

/// No pattern stands twice among the first appearances, each of them is a
/// pattern of the dictionary, and each pattern of the dictionary is among
/// them.
pub proof fn lemma_first_appearances(patterns: Seq<Seq<u8>>, count: int)
    requires
        0 <= count <= patterns.len(),
    ensures
        first_appearances(patterns, count).len() <= count,
        first_appearances(patterns, count).no_duplicates(),
        forall|d: int|
            0 <= d < first_appearances(patterns, count).len() ==> exists|i: int|
                0 <= i < count && patterns[i] == #[trigger] first_appearances(patterns, count)[d],
        forall|i: int|
            0 <= i < count ==> first_appearances(patterns, count).contains(#[trigger] patterns[i]),
    decreases count,
{
    if count > 0 {
        lemma_first_appearances(patterns, count - 1);
        let earlier = first_appearances(patterns, count - 1);
        let now = first_appearances(patterns, count);
        assert forall|i: int| 0 <= i < count implies now.contains(#[trigger] patterns[i]) by {
            if i < count - 1 {
                let d = choose|d: int| 0 <= d < earlier.len() && earlier[d] == patterns[i];
                assert(now[d] == patterns[i]);
            } else if earlier.contains(patterns[i]) {
            } else {
                assert(now[now.len() - 1] == patterns[i]);
            }
        }
        assert forall|d: int| 0 <= d < now.len() implies exists|i: int|
            0 <= i < count && patterns[i] == #[trigger] now[d] by {
            if d < earlier.len() {
                let i = choose|i: int| 0 <= i < count - 1 && patterns[i] == earlier[d];
                assert(patterns[i] == now[d]);
            } else {
                assert(patterns[count - 1] == now[d]);
            }
        }
    }
}

/// The indices listed for `bytes` are those, and all those, at which the
/// dictionary holds `bytes`; they ascend.
pub proof fn lemma_indices_of(patterns: Seq<Seq<u8>>, bytes: Seq<u8>, count: int)
    requires
        0 <= count <= patterns.len() <= usize::MAX,
    ensures
        forall|t: int|
            0 <= t < indices_of(patterns, bytes, count).len() ==> {
                let i = #[trigger] indices_of(patterns, bytes, count)[t];
                i < count && patterns[i as int] == bytes
            },
        forall|s: int, t: int|
            0 <= s < t < indices_of(patterns, bytes, count).len() ==> #[trigger] indices_of(
                patterns,
                bytes,
                count,
            )[s] < #[trigger] indices_of(patterns, bytes, count)[t],
        forall|i: int|
            0 <= i < count && #[trigger] patterns[i] == bytes ==> indices_of(
                patterns,
                bytes,
                count,
            ).contains(i as usize),
    decreases count,
{
    if count > 0 {
        lemma_indices_of(patterns, bytes, count - 1);
        let earlier = indices_of(patterns, bytes, count - 1);
        let now = indices_of(patterns, bytes, count);
        assert forall|i: int| 0 <= i < count && #[trigger] patterns[i] == bytes implies now.contains(
            i as usize,
        ) by {
            if i < count - 1 {
                let t = choose|t: int| 0 <= t < earlier.len() && earlier[t] == i as usize;
                assert(now[t] == i as usize);
            } else {
                assert(now[now.len() - 1] == i as usize);
            }
        }
    }
}

/// No dictionary index is listed twice, neither in one group nor in two.
pub open spec fn each_index_once(groups: Seq<Seq<usize>>) -> bool {
    forall|d: int, s: int, e: int, t: int|
        0 <= d < groups.len() && 0 <= s < groups[d].len() && 0 <= e < groups.len() && 0 <= t
            < groups[e].len() && #[trigger] groups[d][s] == #[trigger] groups[e][t] ==> d == e && s
            == t
}

/// What grouping gives: the distinct patterns differ from one another, each
/// group lists indices of the dictionary that hold its distinct pattern, no
/// index is listed twice, and every index of the dictionary is listed.
pub proof fn lemma_pattern_groups(patterns: Seq<Seq<u8>>)
    requires
        patterns.len() <= usize::MAX,
    ensures
        pattern_groups(patterns).len() == distinct_patterns(patterns).len() <= patterns.len(),
        distinct_patterns(patterns).no_duplicates(),
        forall|d: int, t: int|
            0 <= d < pattern_groups(patterns).len() && 0 <= t < pattern_groups(patterns)[d].len()
                ==> {
                let i = #[trigger] pattern_groups(patterns)[d][t];
                i < patterns.len() && patterns[i as int] == distinct_patterns(patterns)[d]
            },
        each_index_once(pattern_groups(patterns)),
        forall|i: int|
            0 <= i < patterns.len() ==> exists|d: int|
                0 <= d < distinct_patterns(patterns).len() && distinct_patterns(patterns)[d]
                    == #[trigger] patterns[i] && pattern_groups(patterns)[d].contains(i as usize),
{
    let count = patterns.len() as int;
    let distinct = distinct_patterns(patterns);
    let groups = pattern_groups(patterns);
    lemma_first_appearances(patterns, count);
    assert forall|d: int, t: int| 0 <= d < groups.len() && 0 <= t < groups[d].len() implies {
        let i = #[trigger] groups[d][t];
        i < patterns.len() && patterns[i as int] == distinct[d]
    } by {
        lemma_indices_of(patterns, distinct[d], count);
    }
    assert forall|d: int, s: int, e: int, t: int|
        0 <= d < groups.len() && 0 <= s < groups[d].len() && 0 <= e < groups.len() && 0 <= t
            < groups[e].len() && #[trigger] groups[d][s] == #[trigger] groups[e][t] implies d == e
        && s == t by {
        lemma_indices_of(patterns, distinct[d], count);
        lemma_indices_of(patterns, distinct[e], count);
        assert(distinct[d] == distinct[e]);
        if s < t {
            assert(groups[d][s] < groups[d][t]);
        } else if t < s {
            assert(groups[d][t] < groups[d][s]);
        }
    }
    assert forall|i: int| 0 <= i < patterns.len() implies exists|d: int|
        0 <= d < distinct.len() && distinct[d] == #[trigger] patterns[i] && groups[d].contains(
            i as usize,
        ) by {
        assert(distinct.contains(patterns[i]));
        let d = choose|d: int| 0 <= d < distinct.len() && distinct[d] == patterns[i];
        lemma_indices_of(patterns, distinct[d], count);
        assert(groups[d].contains(i as usize));
    }
}

/// Groups a dictionary by the bytes of its patterns.
///
/// The distinct patterns come in the order of their first appearance. Group
/// `d` lists, ascending, every dictionary index whose pattern is distinct
/// pattern `d`.
pub fn group_patterns(patterns: &Vec<Vec<u8>>) -> (grouping: Grouping)
    ensures
        grouping.distinct.deep_view() == distinct_patterns(patterns.deep_view()),
        grouping.groups.deep_view() == pattern_groups(patterns.deep_view()),
{
    let ghost rows = patterns.deep_view();
    proof {
        lemma_rows_of_bytes(*patterns);
    }
    let slots: usize = if patterns.len() == 0 {
        1
    } else {
        patterns.len()
    };
    let mut table: Vec<Vec<usize>> = Vec::new();
    let mut made: usize = 0;
    while made < slots
        invariant
            made <= slots,
            table@.len() == made,
            forall|b: int| 0 <= b < made ==> (#[trigger] table@[b])@.len() == 0,
        decreases slots - made,
    {
        table.push(Vec::new());
        made += 1;
    }
    let mut distinct: Vec<Vec<u8>> = Vec::new();
    let mut groups: Vec<Vec<usize>> = Vec::new();
    let mut i: usize = 0;
    while i < patterns.len()
        invariant
            i <= patterns.len(),
            rows == patterns.deep_view(),
            rows.len() == patterns@.len(),
            forall|k: int| 0 <= k < patterns@.len() ==> #[trigger] rows[k] == patterns@[k]@,
            slots > 0,
            table@.len() == slots,
            distinct@.len() == first_appearances(rows, i as int).len(),
            forall|d: int|
                0 <= d < distinct@.len() ==> (#[trigger] distinct@[d])@ == first_appearances(
                    rows,
                    i as int,
                )[d],
            groups@.len() == distinct@.len(),
            forall|d: int|
                0 <= d < distinct@.len() ==> (#[trigger] groups@[d])@ == indices_of(
                    rows,
                    distinct@[d]@,
                    i as int,
                ),
            forall|d: int|
                0 <= d < distinct@.len() ==> table@[slot_of(
                    (#[trigger] distinct@[d])@,
                    slots as int,
                )]@.contains(d as usize),
            forall|b: int, t: int|
                0 <= b < table@.len() && 0 <= t < table@[b]@.len() ==> (#[trigger] table@[b]@[t])
                    < distinct@.len(),
        decreases patterns.len() - i,
    {
        let bytes = &patterns[i];
        let slot = slot_for(bytes, slots);
        let found = find_in_slot(&distinct, &table[slot], bytes);
        let ghost earlier = first_appearances(rows, i as int);
        proof {
            lemma_first_appearances(rows, i as int);
            assert(rows[i as int] == bytes@);
        }
        match found {
            Some(d) => {
                proof {
                    assert(earlier[d as int] == bytes@);
                    assert(earlier.contains(bytes@));
                    assert forall|e: int| 0 <= e < distinct@.len() && e != d implies (
                    #[trigger] distinct@[e])@ != bytes@ by {
                        assert(earlier[e] != earlier[d as int]);
                    }
                }
                groups[d].push(i);
            },
            None => {
                proof {
                    assert forall|e: int| 0 <= e < distinct@.len() implies (
                    #[trigger] distinct@[e])@ != bytes@ by {
                        if distinct@[e]@ == bytes@ {
                            assert(distinct@.len() == distinct.len());
                            let t = choose|t: int|
                                0 <= t < table@[slot as int]@.len() && table@[slot as int]@[t]
                                    == e as usize;
                            assert(distinct@[table@[slot as int]@[t] as int]@ != bytes@);
                        }
                    }
                    assert(!earlier.contains(bytes@)) by {
                        if earlier.contains(bytes@) {
                            let e = choose|e: int| 0 <= e < earlier.len() && earlier[e] == bytes@;
                            assert(distinct@[e]@ == bytes@);
                        }
                    }
                    lemma_indices_of(rows, bytes@, i as int);
                    let before = indices_of(rows, bytes@, i as int);
                    assert(before.len() == 0) by {
                        if before.len() > 0 {
                            let j = before[0];
                            assert(rows[j as int] == bytes@);
                            assert(earlier.contains(rows[j as int]));
                        }
                    }
                    assert(indices_of(rows, bytes@, i + 1) =~= seq![i]);
                }
                let ghost old_table = table@;
                let ghost fresh = distinct@.len();
                table[slot].push(distinct.len());
                proof {
                    assert forall|d: int| 0 <= d < fresh implies table@[slot_of(
                        (#[trigger] distinct@[d])@,
                        slots as int,
                    )]@.contains(d as usize) by {
                        let b = slot_of(distinct@[d]@, slots as int);
                        let t = choose|t: int|
                            0 <= t < old_table[b]@.len() && old_table[b]@[t] == d as usize;
                        assert(table@[b]@[t] == d as usize);
                    }
                    assert(table@[slot as int]@[table@[slot as int]@.len() - 1] == fresh);
                }
                distinct.push(bytes.clone());
                let mut group: Vec<usize> = Vec::new();
                group.push(i);
                groups.push(group);
            },
        }
        i += 1;
    }
    proof {
        lemma_rows_of_bytes(distinct);
        lemma_rows_of_indices(groups);
        assert(distinct.deep_view() =~= distinct_patterns(rows));
        assert(groups.deep_view() =~= pattern_groups(rows));
    }
    Grouping { distinct, groups }
}

} // verus!
