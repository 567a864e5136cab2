use efg_ahocorasick::error::MapError;
use efg_ahocorasick::table::PatternTable;

fn rows(texts: &[&str]) -> Vec<Vec<u8>> {
    texts.iter().map(|t| t.as_bytes().to_vec()).collect()
}

#[test]
fn table_gives_label_and_length_by_index() {
    let table = PatternTable::new(&rows(&["ACG", "C", "GGTTAA"]), rows(&["n1", "n2", "n3"])).unwrap();
    assert_eq!(table.len(), 3);
    assert_eq!(table.id(0), &b"n1".to_vec());
    assert_eq!(table.id(2), &b"n3".to_vec());
    assert_eq!(table.length(0), 3);
    assert_eq!(table.length(1), 1);
    assert_eq!(table.length(2), 6);
}

#[test]
fn table_of_nothing_is_empty() {
    let table = PatternTable::new(&Vec::new(), Vec::new()).unwrap();
    assert_eq!(table.len(), 0);
}

#[test]
fn table_needs_a_label_for_each_pattern() {
    assert_eq!(
        PatternTable::new(&rows(&["A", "B"]), rows(&["a"])).err(),
        Some(MapError::ShapeMismatch)
    );
    assert_eq!(
        PatternTable::new(&rows(&["A"]), rows(&["a", "b"])).err(),
        Some(MapError::ShapeMismatch)
    );
}
