use efg_ahocorasick::lines::split_lines;
use std::io::BufRead;

fn lines(text: &str) -> Vec<String> {
    split_lines(&text.as_bytes().to_vec())
        .into_iter()
        .map(|line| String::from_utf8(line).unwrap())
        .collect()
}

#[test]
fn lines_end_at_line_feeds() {
    assert_eq!(lines("ACG\nCGT\n"), vec!["ACG", "CGT"]);
    assert_eq!(lines("ACG\nCGT"), vec!["ACG", "CGT"]);
    assert_eq!(lines("ACG"), vec!["ACG"]);
}

#[test]
fn empty_text_has_no_line() {
    assert_eq!(lines(""), Vec::<String>::new());
}

#[test]
fn empty_lines_are_lines() {
    assert_eq!(lines("\n"), vec![""]);
    assert_eq!(lines("a\n\nb\n"), vec!["a", "", "b"]);
    assert_eq!(lines("\n\n"), vec!["", ""]);
}

#[test]
fn a_carriage_return_before_the_line_feed_is_dropped() {
    assert_eq!(lines("a\r\nb\r\n"), vec!["a", "b"]);
    assert_eq!(lines("a\r\r\n"), vec!["a\r"]);
    assert_eq!(lines("\r\n"), vec![""]);
    assert_eq!(lines("a\rb\n"), vec!["a\rb"]);
}

#[test]
fn an_unended_last_line_is_kept_as_it_stands() {
    assert_eq!(lines("a\nb\r"), vec!["a", "b\r"]);
}

#[test]
fn lines_agree_with_the_standard_reader() {
    let texts = ["", "a", "a\n", "a\r\n", "a\nb", "\n\na\r\n\r\nb\r", "x\ry\n\n", "\r"];
    for text in texts {
        let expected: Vec<String> =
            std::io::BufReader::new(text.as_bytes()).lines().map(|l| l.unwrap()).collect();
        assert_eq!(lines(text), expected);
    }
}
