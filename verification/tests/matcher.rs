use efg_ahocorasick::error::MapError;
use efg_ahocorasick::matcher::Matcher;
use efg_ahocorasick::occurrence::Occurrence;

fn bytes(text: &str) -> Vec<u8> {
    text.as_bytes().to_vec()
}

fn dictionary(patterns: &[&str]) -> Vec<Vec<u8>> {
    patterns.iter().map(|p| bytes(p)).collect()
}

fn at(start: usize, end: usize, pattern: usize) -> Occurrence {
    Occurrence { start, end, pattern }
}

#[test]
fn overlapping_occurrences_of_one_pattern() {
    let matcher = Matcher::new(&dictionary(&["AA"])).unwrap();
    assert_eq!(
        matcher.find_overlapping(&bytes("AAAA")),
        vec![at(0, 2, 0), at(1, 3, 0), at(2, 4, 0)]
    );
}

#[test]
fn overlapping_patterns_come_by_end_then_index() {
    let matcher = Matcher::new(&dictionary(&["ABA", "BAB"])).unwrap();
    assert_eq!(
        matcher.find_overlapping(&bytes("ABABA")),
        vec![at(0, 3, 0), at(1, 4, 1), at(2, 5, 0)]
    );
}

#[test]
fn equal_ends_come_by_pattern_index_not_by_length() {
    let matcher = Matcher::new(&dictionary(&["A", "BA", "CBA"])).unwrap();
    assert_eq!(
        matcher.find_overlapping(&bytes("CBA")),
        vec![at(2, 3, 0), at(1, 3, 1), at(0, 3, 2)]
    );
}

#[test]
fn duplicate_patterns_each_report() {
    let matcher = Matcher::new(&dictionary(&["AB", "C", "AB"])).unwrap();
    assert_eq!(
        matcher.find_overlapping(&bytes("ABCAB")),
        vec![at(0, 2, 0), at(0, 2, 2), at(2, 3, 1), at(3, 5, 0), at(3, 5, 2)]
    );
}

#[test]
fn empty_read_has_no_occurrence() {
    let matcher = Matcher::new(&dictionary(&["A"])).unwrap();
    assert_eq!(matcher.find_overlapping(&Vec::new()), Vec::new());
}

#[test]
fn empty_dictionary_is_refused() {
    assert_eq!(Matcher::new(&Vec::new()).err(), Some(MapError::InvalidDictionary));
}

#[test]
fn empty_pattern_is_refused() {
    assert_eq!(
        Matcher::new(&dictionary(&["A", ""])).err(),
        Some(MapError::InvalidDictionary)
    );
}
