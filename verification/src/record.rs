//! The text of one record.
//!
//! A record is one line of twelve fields with a tab between each two:
//! the read's label, the read's length, start and end of the occurrence, a
//! plus sign, the pattern's label behind `>`, the pattern's length, `0`, the
//! pattern's length again, `0`, `0` and `255`. Numbers are written in decimal.

use vstd::prelude::*;
use vstd::seq_lib::lemma_multiset_commutative;

verus! {

/// The horizontal tab, which stands between two fields.
pub const TAB: u8 = 9;

/// The line feed, which stands between two records.
pub const NEWLINE: u8 = 10;

/// The digit `0`.
pub const ZERO: u8 = 48;

/// What stands between the end offset and the pattern's label: a tab, the
/// plus sign, a tab and `>`.
pub open spec fn strand_and_mark() -> Seq<u8> {
    seq![TAB, 43u8, TAB, 62u8]
}

/// What stands between the two writings of the pattern's length: a tab, `0`
/// and a tab.
pub open spec fn zero_between() -> Seq<u8> {
    seq![TAB, ZERO, TAB]
}

/// What ends a record: a tab, `0`, a tab, `0`, a tab and `255`.
pub open spec fn tail() -> Seq<u8> {
    seq![TAB, ZERO, TAB, ZERO, TAB, 50u8, 53u8, 53u8]
}

/// The decimal digits of `n`, most significant first, without leading zeros.
pub open spec fn decimal(n: nat) -> Seq<u8>
    decreases n,
{
    if n < 10 {
        seq![(ZERO + n) as u8]
    } else {
        decimal(n / 10).push((ZERO + n % 10) as u8)
    }
}

/// The record of one occurrence.
pub open spec fn record_line(
    read_label: Seq<u8>,
    read_length: nat,
    start: nat,
    end: nat,
    pattern_label: Seq<u8>,
    pattern_length: nat,
) -> Seq<u8> {
    read_label + seq![TAB] + decimal(read_length) + seq![TAB] + decimal(start) + seq![TAB]
        + decimal(end) + strand_and_mark() + pattern_label + seq![TAB] + decimal(pattern_length)
        + zero_between() + decimal(pattern_length) + tail()
}

/// Appends `bytes` to `out`.
pub fn push_bytes(out: &mut Vec<u8>, bytes: &Vec<u8>)
    ensures
        final(out)@ == old(out)@ + bytes@,
{
    out.extend_from_slice(bytes.as_slice());
    assert(out@ =~= old(out)@ + bytes@);
}

/// Appends the decimal digits of `n` to `out`.
pub fn push_decimal(out: &mut Vec<u8>, n: usize)
    ensures
        final(out)@ == old(out)@ + decimal(n as nat),
    decreases n,
{
    if n >= 10 {
        push_decimal(out, n / 10);
    }
    out.push(ZERO + (n % 10) as u8);
    assert(out@ =~= old(out)@ + decimal(n as nat));
}

/// Appends the record of one occurrence to `out`.
pub fn push_record(
    out: &mut Vec<u8>,
    read_label: &Vec<u8>,
    read_length: usize,
    start: usize,
    end: usize,
    pattern_label: &Vec<u8>,
    pattern_length: usize,
)
    ensures
        final(out)@ == old(out)@ + record_line(
            read_label@,
            read_length as nat,
            start as nat,
            end as nat,
            pattern_label@,
            pattern_length as nat,
        ),
{
    push_bytes(out, read_label);
    out.push(TAB);
    push_decimal(out, read_length);
    out.push(TAB);
    push_decimal(out, start);
    out.push(TAB);
    push_decimal(out, end);
    out.push(TAB);
    out.push(43u8);
    out.push(TAB);
    out.push(62u8);
    push_bytes(out, pattern_label);
    out.push(TAB);
    push_decimal(out, pattern_length);
    out.push(TAB);
    out.push(ZERO);
    out.push(TAB);
    push_decimal(out, pattern_length);
    out.push(TAB);
    out.push(ZERO);
    out.push(TAB);
    out.push(ZERO);
    out.push(TAB);
    out.push(50u8);
    out.push(53u8);
    out.push(53u8);
    assert(out@ =~= old(out)@ + record_line(
        read_label@,
        read_length as nat,
        start as nat,
        end as nat,
        pattern_label@,
        pattern_length as nat,
    ));
}

/// The number that a string of decimal digits writes.
pub open spec fn decimal_value(digits: Seq<u8>) -> nat
    decreases digits.len(),
{
    if digits.len() == 0 {
        0
    } else {
        decimal_value(digits.drop_last()) * 10 + (digits.last() - ZERO) as nat
    }
}

/// `decimal` writes a number as it is read: in digits only, at least one,
/// with no zero in front of a number other than zero, and the digits write
/// the number back.
pub proof fn lemma_decimal_reads_back(n: nat)
    ensures
        decimal(n).len() >= 1,
        forall|k: int| 0 <= k < decimal(n).len() ==> ZERO <= #[trigger] decimal(n)[k] <= ZERO + 9,
        n > 0 ==> decimal(n)[0] != ZERO,
        n == 0 ==> decimal(n) == seq![ZERO],
        decimal_value(decimal(n)) == n,
    decreases n,
{
    let digits = decimal(n);
    if n < 10 {
        assert(digits.drop_last() =~= Seq::<u8>::empty());
        assert(decimal_value(digits.drop_last()) == 0);
        assert(digits.last() == ZERO + n);
    } else {
        lemma_decimal_reads_back(n / 10);
        assert(digits.drop_last() =~= decimal(n / 10));
        assert(digits.last() == ZERO + n % 10);
        assert(decimal_value(digits) == decimal_value(digits.drop_last()) * 10 + (digits.last()
            - ZERO) as nat);
    }
}

/// The number of newline bytes in a text.
pub open spec fn newline_count(text: Seq<u8>) -> nat {
    text.to_multiset().count(NEWLINE)
}

/// No byte of the text is a newline.
pub open spec fn newline_free(text: Seq<u8>) -> bool {
    forall|k: int| 0 <= k < text.len() ==> #[trigger] text[k] != NEWLINE
}

/// The newlines of a text in two parts are those of the parts together.
pub proof fn lemma_newline_count_sum(a: Seq<u8>, b: Seq<u8>)
    ensures
        newline_count(a + b) == newline_count(a) + newline_count(b),
{
    broadcast use vstd::multiset::group_multiset_axioms;

    lemma_multiset_commutative(a, b);
}

/// A text without a newline byte holds none.
pub proof fn lemma_newline_free_count(text: Seq<u8>)
    requires
        newline_free(text),
    ensures
        newline_count(text) == 0,
{
    text.to_multiset_ensures();
    if text.contains(NEWLINE) {
        let k = choose|k: int| 0 <= k < text.len() && text[k] == NEWLINE;
        assert(text[k] != NEWLINE);
    }
}

proof fn lemma_newline_free_sum(a: Seq<u8>, b: Seq<u8>)
    requires
        newline_free(a),
        newline_free(b),
    ensures
        newline_free(a + b),
{
}

proof fn lemma_decimal_newline_free(n: nat)
    ensures
        newline_free(decimal(n)),
    decreases n,
{
    if n >= 10 {
        lemma_decimal_newline_free(n / 10);
    }
}

/// A record whose two labels hold no newline holds none.
pub proof fn lemma_record_newline_free(
    read_label: Seq<u8>,
    read_length: nat,
    start: nat,
    end: nat,
    pattern_label: Seq<u8>,
    pattern_length: nat,
)
    requires
        newline_free(read_label),
        newline_free(pattern_label),
    ensures
        newline_free(
            record_line(read_label, read_length, start, end, pattern_label, pattern_length),
        ),
{
    lemma_decimal_newline_free(read_length);
    lemma_decimal_newline_free(start);
    lemma_decimal_newline_free(end);
    lemma_decimal_newline_free(pattern_length);
    let tab = seq![TAB];
    let a = read_label + tab;
    lemma_newline_free_sum(read_label, tab);
    let b = a + decimal(read_length);
    lemma_newline_free_sum(a, decimal(read_length));
    let c = b + tab;
    lemma_newline_free_sum(b, tab);
    let d = c + decimal(start);
    lemma_newline_free_sum(c, decimal(start));
    let e = d + tab;
    lemma_newline_free_sum(d, tab);
    let f = e + decimal(end);
    lemma_newline_free_sum(e, decimal(end));
    let g = f + strand_and_mark();
    lemma_newline_free_sum(f, strand_and_mark());
    let h = g + pattern_label;
    lemma_newline_free_sum(g, pattern_label);
    let i = h + tab;
    lemma_newline_free_sum(h, tab);
    let j = i + decimal(pattern_length);
    lemma_newline_free_sum(i, decimal(pattern_length));
    let k = j + zero_between();
    lemma_newline_free_sum(j, zero_between());
    let l = k + decimal(pattern_length);
    lemma_newline_free_sum(k, decimal(pattern_length));
    lemma_newline_free_sum(l, tail());
}

} // verus!
