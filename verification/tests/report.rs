use efg_ahocorasick::emit::Emitter;
use efg_ahocorasick::error::MapError;
use efg_ahocorasick::mapper::{check_read_labels, map_reads, Mapper};

fn rows(texts: &[&str]) -> Vec<Vec<u8>> {
    texts.iter().map(|t| t.as_bytes().to_vec()).collect()
}

fn run(nodes: &[&str], ids: &[&str], reads: &[&str], rids: &[&str]) -> Result<String, MapError> {
    map_reads(&rows(nodes), rows(ids), &rows(reads), &rows(rids))
        .map(|text| String::from_utf8(text).unwrap())
}

fn newlines(text: &str) -> usize {
    text.bytes().filter(|b| *b == b'\n').count()
}

#[test]
fn two_patterns_in_one_read() {
    assert_eq!(
        run(&["ACG", "CGT"], &["n1", "n2"], &["ACGT"], &["r1"]),
        Ok(String::from(
            "r1\t4\t0\t3\t+\t>n1\t3\t0\t3\t0\t0\t255\nr1\t4\t1\t4\t+\t>n2\t3\t0\t3\t0\t0\t255"
        ))
    );
}

#[test]
fn one_pattern_three_overlapping_times() {
    assert_eq!(
        run(&["AA"], &["n1"], &["AAAA"], &["r1"]),
        Ok(String::from(
            "r1\t4\t0\t2\t+\t>n1\t2\t0\t2\t0\t0\t255\n\
             r1\t4\t1\t3\t+\t>n1\t2\t0\t2\t0\t0\t255\n\
             r1\t4\t2\t4\t+\t>n1\t2\t0\t2\t0\t0\t255"
        ))
    );
}

#[test]
fn overlapping_patterns_by_end_then_index() {
    assert_eq!(
        run(&["ABA", "BAB"], &["p", "q"], &["ABABA"], &["r"]),
        Ok(String::from(
            "r\t5\t0\t3\t+\t>p\t3\t0\t3\t0\t0\t255\n\
             r\t5\t1\t4\t+\t>q\t3\t0\t3\t0\t0\t255\n\
             r\t5\t2\t5\t+\t>p\t3\t0\t3\t0\t0\t255"
        ))
    );
}

#[test]
fn no_match_gives_empty_output() {
    assert_eq!(run(&["X"], &["x"], &["YYY"], &["r1"]), Ok(String::new()));
}

#[test]
fn duplicate_patterns_each_give_a_record() {
    assert_eq!(
        run(&["AB", "AB"], &["a", "b"], &["AB"], &["r"]),
        Ok(String::from(
            "r\t2\t0\t2\t+\t>a\t2\t0\t2\t0\t0\t255\nr\t2\t0\t2\t+\t>b\t2\t0\t2\t0\t0\t255"
        ))
    );
}

#[test]
fn fewer_labels_than_patterns_is_a_shape_mismatch() {
    assert_eq!(
        run(&["A", "B"], &["a"], &["AB"], &["r"]),
        Err(MapError::ShapeMismatch)
    );
}

#[test]
fn fewer_read_labels_than_reads_is_a_shape_mismatch() {
    assert_eq!(
        run(&["A"], &["a"], &["A", "A"], &["r"]),
        Err(MapError::ShapeMismatch)
    );
    assert_eq!(
        check_read_labels(&rows(&["A", "A"]), &rows(&["r"])),
        Err(MapError::ShapeMismatch)
    );
    assert_eq!(check_read_labels(&rows(&["A"]), &rows(&["r"])), Ok(()));
}

#[test]
fn shape_is_judged_before_the_dictionary() {
    assert_eq!(run(&["", "B"], &["a"], &[], &[]), Err(MapError::ShapeMismatch));
    assert_eq!(run(&[""], &["a"], &["A"], &[]), Err(MapError::ShapeMismatch));
}

#[test]
fn empty_pattern_makes_an_invalid_dictionary() {
    assert_eq!(
        run(&["A", ""], &["a", "b"], &["A"], &["r"]),
        Err(MapError::InvalidDictionary)
    );
}

#[test]
fn empty_dictionary_is_invalid() {
    assert_eq!(run(&[], &[], &["A"], &["r"]), Err(MapError::InvalidDictionary));
}

#[test]
fn empty_reads_give_no_record() {
    assert_eq!(run(&["A"], &["a"], &["", ""], &["r1", "r2"]), Ok(String::new()));
    assert_eq!(run(&["A"], &["a"], &[], &[]), Ok(String::new()));
}

#[test]
fn pattern_equal_to_the_whole_read() {
    assert_eq!(
        run(&["ACGT"], &["n"], &["ACGT"], &["r"]),
        Ok(String::from("r\t4\t0\t4\t+\t>n\t4\t0\t4\t0\t0\t255"))
    );
}

#[test]
fn reads_come_in_input_order_and_silent_reads_add_no_newline() {
    assert_eq!(
        run(
            &["CA", "A"],
            &["x", "y"],
            &["GG", "CA", "TTT", "A", ""],
            &["r0", "r1", "r2", "r3", "r4"]
        ),
        Ok(String::from(
            "r1\t2\t0\t2\t+\t>x\t2\t0\t2\t0\t0\t255\n\
             r1\t2\t1\t2\t+\t>y\t1\t0\t1\t0\t0\t255\n\
             r3\t1\t0\t1\t+\t>y\t1\t0\t1\t0\t0\t255"
        ))
    );
}

#[test]
fn lengths_of_more_than_one_digit() {
    let read = "ACGTACGTACGTA";
    assert_eq!(
        run(&["ACGTACGTACGT"], &["long"], &[read], &["r"]),
        Ok(String::from("r\t13\t0\t12\t+\t>long\t12\t0\t12\t0\t0\t255"))
    );
}

#[test]
fn separators_are_one_less_than_records() {
    let text = run(
        &["A", "AA", "C"],
        &["a", "aa", "c"],
        &["AAA", "G", "CAC"],
        &["r1", "r2", "r3"],
    )
    .unwrap();
    let records: Vec<&str> = text.split('\n').collect();
    assert_eq!(records.len(), 8);
    assert_eq!(newlines(&text), 7);
    assert!(!text.starts_with('\n'));
    assert!(!text.ends_with('\n'));
    assert_eq!(newlines(&run(&["A"], &["a"], &["A"], &["r"]).unwrap()), 0);
    assert_eq!(newlines(&run(&["A"], &["a"], &["C"], &["r"]).unwrap()), 0);
}

#[test]
fn two_runs_on_the_same_input_agree() {
    let first = run(&["ABA", "BAB", "ABA"], &["p", "q", "s"], &["ABABA", "BAB"], &["r", "t"]);
    let second = run(&["ABA", "BAB", "ABA"], &["p", "q", "s"], &["ABABA", "BAB"], &["r", "t"]);
    assert!(first.is_ok());
    assert_eq!(first, second);
}

#[test]
fn dictionary_mapped_against_itself() {
    let nodes = ["GAT", "AT", "TACA", "AT"];
    let ids = ["n0", "n1", "n2", "n3"];
    let text = run(&nodes, &ids, &nodes, &ids).unwrap();
    let records: Vec<&str> = text.split('\n').collect();
    for i in 0..nodes.len() {
        let length = nodes[i].len();
        let own = format!(
            "{}\t{}\t0\t{}\t+\t>{}\t{}\t0\t{}\t0\t0\t255",
            ids[i], length, length, ids[i], length, length
        );
        assert!(records.contains(&own.as_str()));
    }
    assert_eq!(
        records,
        vec![
            "n0\t3\t0\t3\t+\t>n0\t3\t0\t3\t0\t0\t255",
            "n0\t3\t1\t3\t+\t>n1\t2\t0\t2\t0\t0\t255",
            "n0\t3\t1\t3\t+\t>n3\t2\t0\t2\t0\t0\t255",
            "n1\t2\t0\t2\t+\t>n1\t2\t0\t2\t0\t0\t255",
            "n1\t2\t0\t2\t+\t>n3\t2\t0\t2\t0\t0\t255",
            "n2\t4\t0\t4\t+\t>n2\t4\t0\t4\t0\t0\t255",
            "n3\t2\t0\t2\t+\t>n1\t2\t0\t2\t0\t0\t255",
            "n3\t2\t0\t2\t+\t>n3\t2\t0\t2\t0\t0\t255",
        ]
    );
}

#[test]
fn read_by_read_gives_the_text_of_the_whole_run() {
    let nodes = rows(&["AC", "C"]);
    let reads = rows(&["GG", "ACC", "T", "C"]);
    let names = rows(&["r0", "r1", "r2", "r3"]);
    let mapper = Mapper::new(&nodes, rows(&["x", "y"])).unwrap();
    let mut emitter = Emitter::new();
    let mut text: Vec<u8> = Vec::new();
    let mut pieces: Vec<String> = Vec::new();
    for j in 0..reads.len() {
        let piece = mapper.emit_read(&mut emitter, &reads[j], &names[j]);
        pieces.push(String::from_utf8(piece.clone()).unwrap());
        text.extend_from_slice(&piece);
    }
    assert_eq!(pieces[0], "");
    assert_eq!(
        pieces[1],
        "r1\t3\t0\t2\t+\t>x\t2\t0\t2\t0\t0\t255\n\
         r1\t3\t1\t2\t+\t>y\t1\t0\t1\t0\t0\t255\n\
         r1\t3\t2\t3\t+\t>y\t1\t0\t1\t0\t0\t255"
    );
    assert_eq!(pieces[2], "");
    assert_eq!(pieces[3], "\nr3\t1\t0\t1\t+\t>y\t1\t0\t1\t0\t0\t255");
    assert!(emitter.has_started());
    assert_eq!(
        Ok(text),
        map_reads(&nodes, rows(&["x", "y"]), &reads, &names)
    );
}

#[test]
fn mapper_refuses_as_the_run_does() {
    assert_eq!(
        Mapper::new(&rows(&["A", "B"]), rows(&["a"])).err(),
        Some(MapError::ShapeMismatch)
    );
    assert_eq!(
        Mapper::new(&rows(&["A", ""]), rows(&["a", "b"])).err(),
        Some(MapError::InvalidDictionary)
    );
    assert!(Mapper::new(&rows(&["A", "A"]), rows(&["a", "b"])).is_ok());
}

#[test]
fn bytes_that_are_no_text_are_matched_as_bytes() {
    let nodes = vec![vec![0xffu8, 0x00], vec![0x00u8]];
    let reads = vec![vec![0x01u8, 0xff, 0x00, 0x00]];
    let text = map_reads(&nodes, rows(&["a", "b"]), &reads, &rows(&["r"])).unwrap();
    assert_eq!(
        String::from_utf8(text).unwrap(),
        "r\t4\t1\t3\t+\t>a\t2\t0\t2\t0\t0\t255\n\
         r\t4\t2\t3\t+\t>b\t1\t0\t1\t0\t0\t255\n\
         r\t4\t3\t4\t+\t>b\t1\t0\t1\t0\t0\t255"
    );
}
