use efg_ahocorasick::emit::Emitter;
use efg_ahocorasick::occurrence::Occurrence;
use efg_ahocorasick::table::PatternTable;

fn rows(texts: &[&str]) -> Vec<Vec<u8>> {
    texts.iter().map(|t| t.as_bytes().to_vec()).collect()
}

fn table() -> PatternTable {
    PatternTable::new(&rows(&["ACG", "CG"]), rows(&["n1", "n2"])).unwrap()
}

fn text(bytes: Vec<u8>) -> String {
    String::from_utf8(bytes).unwrap()
}

#[test]
fn nothing_is_written_for_no_occurrence() {
    let mut emitter = Emitter::new();
    assert!(!emitter.has_started());
    let written = emitter.write_records(&table(), &b"r".to_vec(), 5, &Vec::new());
    assert_eq!(written, Vec::<u8>::new());
    assert!(!emitter.has_started());
}

#[test]
fn first_record_of_a_run_has_no_newline_in_front() {
    let mut emitter = Emitter::new();
    let found = vec![
        Occurrence { start: 0, end: 3, pattern: 0 },
        Occurrence { start: 1, end: 3, pattern: 1 },
    ];
    let written = emitter.write_records(&table(), &b"r1".to_vec(), 4, &found);
    assert_eq!(
        text(written),
        "r1\t4\t0\t3\t+\t>n1\t3\t0\t3\t0\t0\t255\nr1\t4\t1\t3\t+\t>n2\t2\t0\t2\t0\t0\t255"
    );
    assert!(emitter.has_started());
}

#[test]
fn later_records_have_a_newline_in_front() {
    let mut emitter = Emitter::new();
    let one = vec![Occurrence { start: 2, end: 4, pattern: 1 }];
    let first = emitter.write_records(&table(), &b"r1".to_vec(), 4, &one);
    let none = emitter.write_records(&table(), &b"r2".to_vec(), 9, &Vec::new());
    let second = emitter.write_records(&table(), &b"r3".to_vec(), 6, &one);
    assert_eq!(text(first), "r1\t4\t2\t4\t+\t>n2\t2\t0\t2\t0\t0\t255");
    assert_eq!(text(none), "");
    assert_eq!(text(second), "\nr3\t6\t2\t4\t+\t>n2\t2\t0\t2\t0\t0\t255");
    assert!(emitter.has_started());
}
