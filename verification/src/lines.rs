//! The lines of a text.
//!
//! A line ends at a line feed. The line feed is no part of the line, nor is a
//! carriage return that stands directly before it. What follows the last line
//! feed is a line too, unless it is empty; it is kept as it stands.

use crate::record::{newline_free, NEWLINE};
use vstd::prelude::*;

verus! {

/// The carriage return, which may stand before the line feed.
pub const RETURN: u8 = 13;

/// A line without the carriage return at its end, if it has one.
pub open spec fn without_return(line: Seq<u8>) -> Seq<u8> {
    if line.len() > 0 && line.last() == RETURN {
        line.drop_last()
    } else {
        line
    }
}

/// The first `count` bytes of a text, split: the lines that a line feed has
/// ended, and the bytes read since the last line feed.
pub open spec fn split(text: Seq<u8>, count: int) -> (Seq<Seq<u8>>, Seq<u8>)
    decreases count,
{
    if count <= 0 {
        (Seq::empty(), Seq::empty())
    } else {
        let (ended, open) = split(text, count - 1);
        if text[count - 1] == NEWLINE {
            (ended.push(without_return(open)), Seq::empty())
        } else {
            (ended, open.push(text[count - 1]))
        }
    }
}

/// The lines of a text, in order.
pub open spec fn lines_of(text: Seq<u8>) -> Seq<Seq<u8>> {
    let (ended, open) = split(text, text.len() as int);
    if open.len() > 0 {
        ended.push(open)
    } else {
        ended
    }
}

proof fn lemma_split_newline_free(text: Seq<u8>, count: int)
    requires
        0 <= count <= text.len(),
    ensures
        forall|k: int|
            0 <= k < split(text, count).0.len() ==> newline_free(#[trigger] split(text, count).0[k]),
        newline_free(split(text, count).1),
    decreases count,
{
    if count > 0 {
        lemma_split_newline_free(text, count - 1);
    }
}

/// No line holds a line feed.
pub proof fn lemma_lines_newline_free(text: Seq<u8>, k: int)
    requires
        0 <= k < lines_of(text).len(),
    ensures
        newline_free(lines_of(text)[k]),
{
    lemma_split_newline_free(text, text.len() as int);
}

/// Splits a text into its lines.
pub fn split_lines(text: &Vec<u8>) -> (lines: Vec<Vec<u8>>)
    ensures
        lines.deep_view() == lines_of(text@),
{
    let mut lines: Vec<Vec<u8>> = Vec::new();
    let mut open: Vec<u8> = Vec::new();
    let mut k: usize = 0;
    while k < text.len()
        invariant
            k <= text.len(),
            lines@.len() == split(text@, k as int).0.len(),
            forall|n: int|
                0 <= n < lines@.len() ==> (#[trigger] lines@[n])@ == split(text@, k as int).0[n],
            open@ == split(text@, k as int).1,
        decreases text.len() - k,
    {
        let byte = text[k];
        if byte == NEWLINE {
            if open.len() > 0 && open[open.len() - 1] == RETURN {
                open.pop();
            }
            lines.push(open);
            open = Vec::new();
        } else {
            open.push(byte);
        }
        k += 1;
    }
    if open.len() > 0 {
        lines.push(open);
    }
    assert(lines.deep_view() =~~= lines_of(text@));
    lines
}

} // verus!
