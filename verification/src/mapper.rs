//! A run: the dictionary with its labels, and the reads mapped against it.

use crate::emit::{joined, lemma_joined_batches, Emitter};
use crate::error::MapError;
use crate::matcher::Matcher;
use crate::occurrence::occurrences;
use crate::record::push_bytes;
use crate::report::{dictionary_refusal, read_records, run_records, run_result};
use crate::table::{pattern_lengths, PatternTable};
use crate::views::lemma_rows_of_bytes;
use vstd::prelude::*;

verus! {

/// The matcher of a dictionary together with the table of its labels and
/// lengths.
pub struct Mapper {
    matcher: Matcher,
    table: PatternTable,
}

impl Mapper {
    #[verifier::type_invariant]
    spec fn well_formed(self) -> bool {
        &&& self.table.labels().len() == self.matcher@.len()
        &&& self.table.lengths() == pattern_lengths(self.matcher@)
    }

    /// The dictionary.
    pub closed spec fn patterns(&self) -> Seq<Seq<u8>> {
        self.matcher@
    }

    /// The labels of the dictionary's patterns, by pattern index.
    pub closed spec fn labels(&self) -> Seq<Seq<u8>> {
        self.table.labels()
    }

    /// The mapper of a dictionary and its labels.
    ///
    /// It is refused for its shape when there are not as many labels as
    /// patterns, and else for its dictionary when no matcher can be built
    /// from the patterns.
    pub fn new(patterns: &Vec<Vec<u8>>, labels: Vec<Vec<u8>>) -> (made: Result<Mapper, MapError>)
        ensures
            match made {
                Ok(mapper) => dictionary_refusal(patterns.deep_view(), labels.deep_view().len())
                    is None && mapper.patterns() == patterns.deep_view() && mapper.labels()
                    == labels.deep_view(),
                Err(why) => dictionary_refusal(patterns.deep_view(), labels.deep_view().len())
                    == Some(why),
            },
    {
        proof {
            lemma_rows_of_bytes(*patterns);
            lemma_rows_of_bytes(labels);
        }
        let table = match PatternTable::new(patterns, labels) {
            Ok(table) => table,
            Err(why) => {
                return Err(why);
            },
        };
        let matcher = match Matcher::new(patterns) {
            Ok(matcher) => matcher,
            Err(why) => {
                return Err(why);
            },
        };
        Ok(Mapper { matcher, table })
    }

    /// The text for one read: a record for each occurrence of a pattern in
    /// it, in reporting order, with a newline before every record but the
    /// first of the run.
    pub fn emit_read(&self, emitter: &mut Emitter, read: &Vec<u8>, read_label: &Vec<u8>) -> (text:
        Vec<u8>)
        ensures
            text@ == joined(
                old(emitter).started(),
                read_records(self.patterns(), self.labels(), read@, read_label@),
                occurrences(self.patterns(), read@).len() as int,
            ),
            final(emitter).started() == (old(emitter).started() || occurrences(
                self.patterns(),
                read@,
            ).len() > 0),
    {
        proof {
            use_type_invariant(self);
        }
        let found = self.matcher.find_overlapping(read);
        emitter.write_records(&self.table, read_label, read.len(), &found)
    }
}

/// Refuses a run for its shape when there are not as many read labels as
/// reads.
pub fn check_read_labels(reads: &Vec<Vec<u8>>, read_labels: &Vec<Vec<u8>>) -> (checked: Result<
    (),
    MapError,
>)
    ensures
        match checked {
            Ok(_) => reads@.len() == read_labels@.len(),
            Err(why) => reads@.len() != read_labels@.len() && why == MapError::ShapeMismatch,
        },
{
    if reads.len() == read_labels.len() {
        Ok(())
    } else {
        Err(MapError::ShapeMismatch)
    }
}

/// Maps every read against the dictionary and gives the text of the report.
///
/// The run is refused for its shape when patterns and labels, or reads and
/// read labels, differ in number, and else for its dictionary when no matcher
/// can be built from the patterns. Otherwise the text holds, read after read
/// in input order, one record for each occurrence of a pattern in the read,
/// with one newline between each two records.
pub fn map_reads(
    patterns: &Vec<Vec<u8>>,
    labels: Vec<Vec<u8>>,
    reads: &Vec<Vec<u8>>,
    read_labels: &Vec<Vec<u8>>,
) -> (outcome: Result<Vec<u8>, MapError>)
    ensures
        match outcome {
            Ok(text) => run_result(
                patterns.deep_view(),
                labels.deep_view(),
                reads.deep_view(),
                read_labels.deep_view(),
            ) == Ok::<Seq<u8>, MapError>(text@),
            Err(why) => run_result(
                patterns.deep_view(),
                labels.deep_view(),
                reads.deep_view(),
                read_labels.deep_view(),
            ) == Err::<Seq<u8>, MapError>(why),
        },
{
    let ghost dictionary = patterns.deep_view();
    let ghost names = labels.deep_view();
    let ghost texts = reads.deep_view();
    let ghost text_names = read_labels.deep_view();
    proof {
        lemma_rows_of_bytes(*reads);
        lemma_rows_of_bytes(*read_labels);
    }
    match check_read_labels(reads, read_labels) {
        Ok(_) => {},
        Err(why) => {
            return Err(why);
        },
    }
    let mapper = match Mapper::new(patterns, labels) {
        Ok(mapper) => mapper,
        Err(why) => {
            return Err(why);
        },
    };
    let mut emitter = Emitter::new();
    let mut out: Vec<u8> = Vec::new();
    let mut j: usize = 0;
    while j < reads.len()
        invariant
            j <= reads.len(),
            reads.len() == read_labels.len(),
            texts == reads.deep_view(),
            text_names == read_labels.deep_view(),
            forall|k: int| 0 <= k < reads@.len() ==> #[trigger] texts[k] == reads@[k]@,
            forall|k: int| 0 <= k < read_labels@.len() ==> #[trigger] text_names[k] == read_labels@[k]@,
            mapper.patterns() == dictionary,
            mapper.labels() == names,
            out@ == joined(
                false,
                run_records(dictionary, names, texts, text_names, j as int),
                run_records(dictionary, names, texts, text_names, j as int).len() as int,
            ),
            emitter.started() == (run_records(dictionary, names, texts, text_names, j as int).len()
                > 0),
        decreases reads.len() - j,
    {
        let text = mapper.emit_read(&mut emitter, &reads[j], &read_labels[j]);
        proof {
            let before = run_records(dictionary, names, texts, text_names, j as int);
            let here = read_records(dictionary, names, texts[j as int], text_names[j as int]);
            lemma_joined_batches(false, before, here, here.len() as int);
        }
        push_bytes(&mut out, &text);
        j += 1;
    }
    Ok(out)
}

} // verus!
