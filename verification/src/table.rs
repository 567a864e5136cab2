//! The pattern table: for each pattern of the dictionary, by index, its label
//! and its length in bytes.

use crate::error::MapError;
use crate::views::lemma_rows_of_bytes;
use vstd::prelude::*;

verus! {

/// The lengths of the patterns of a dictionary, by index.
pub open spec fn pattern_lengths(patterns: Seq<Seq<u8>>) -> Seq<nat> {
    Seq::new(patterns.len(), |i: int| patterns[i].len())
}

/// Label and length of every pattern of a dictionary.
pub struct PatternTable {
    labels: Vec<Vec<u8>>,
    lengths: Vec<usize>,
}

impl PatternTable {
    #[verifier::type_invariant]
    spec fn well_formed(self) -> bool {
        self.labels@.len() == self.lengths@.len()
    }

    /// The labels, by pattern index.
    pub closed spec fn labels(&self) -> Seq<Seq<u8>> {
        self.labels.deep_view()
    }

    /// The lengths, by pattern index.
    pub closed spec fn lengths(&self) -> Seq<nat> {
        Seq::new(self.lengths@.len(), |i: int| self.lengths@[i] as nat)
    }

    /// The table of a dictionary and its labels. It is refused when there are
    /// not as many labels as patterns.
    pub fn new(patterns: &Vec<Vec<u8>>, labels: Vec<Vec<u8>>) -> (made: Result<
        PatternTable,
        MapError,
    >)
        ensures
            match made {
                Ok(table) => patterns@.len() == labels@.len() && table.labels()
                    == labels.deep_view() && table.lengths() == pattern_lengths(
                    patterns.deep_view(),
                ),
                Err(why) => patterns@.len() != labels@.len() && why == MapError::ShapeMismatch,
            },
    {
        if patterns.len() != labels.len() {
            return Err(MapError::ShapeMismatch);
        }
        let mut lengths: Vec<usize> = Vec::new();
        let mut i: usize = 0;
        while i < patterns.len()
            invariant
                i <= patterns.len(),
                lengths@.len() == i,
                forall|k: int| 0 <= k < i ==> #[trigger] lengths@[k] == patterns@[k]@.len(),
            decreases patterns.len() - i,
        {
            lengths.push(patterns[i].len());
            i += 1;
        }
        let table = PatternTable { labels, lengths };
        proof {
            lemma_rows_of_bytes(*patterns);
            assert(table.lengths() =~= pattern_lengths(patterns.deep_view()));
        }
        Ok(table)
    }

    /// The number of patterns.
    pub fn len(&self) -> (count: usize)
        ensures
            count == self.labels().len(),
            count == self.lengths().len(),
    {
        proof {
            use_type_invariant(self);
        }
        self.labels.len()
    }

    /// The label of pattern `index`.
    pub fn id(&self, index: usize) -> (label: &Vec<u8>)
        requires
            index < self.labels().len(),
        ensures
            label@ == self.labels()[index as int],
    {
        proof {
            lemma_rows_of_bytes(self.labels);
        }
        &self.labels[index]
    }

    /// The length in bytes of pattern `index`.
    pub fn length(&self, index: usize) -> (length: usize)
        requires
            index < self.lengths().len(),
        ensures
            length == self.lengths()[index as int],
    {
        self.lengths[index]
    }
}

} // verus!
