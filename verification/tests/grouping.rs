use efg_ahocorasick::grouping::group_patterns;

fn rows(texts: &[&str]) -> Vec<Vec<u8>> {
    texts.iter().map(|t| t.as_bytes().to_vec()).collect()
}

#[test]
fn distinct_patterns_form_groups_of_one() {
    let grouping = group_patterns(&rows(&["bcd", "ab", "a"]));
    assert_eq!(grouping.distinct, rows(&["bcd", "ab", "a"]));
    assert_eq!(grouping.groups, vec![vec![0usize], vec![1], vec![2]]);
}

#[test]
fn equal_patterns_share_a_group_in_order_of_first_appearance() {
    let grouping = group_patterns(&rows(&["AB", "C", "AB", "D", "C", "AB"]));
    assert_eq!(grouping.distinct, rows(&["AB", "C", "D"]));
    assert_eq!(grouping.groups, vec![vec![0usize, 2, 5], vec![1, 4], vec![3]]);
}

#[test]
fn empty_dictionary_has_no_group() {
    let grouping = group_patterns(&Vec::new());
    assert_eq!(grouping.distinct, Vec::<Vec<u8>>::new());
    assert_eq!(grouping.groups, Vec::<Vec<usize>>::new());
}

#[test]
fn empty_patterns_are_grouped_like_any_other() {
    let grouping = group_patterns(&rows(&["", "A", ""]));
    assert_eq!(grouping.distinct, rows(&["", "A"]));
    assert_eq!(grouping.groups, vec![vec![0usize, 2], vec![1]]);
}

#[test]
fn many_patterns_with_repetitions() {
    let mut patterns: Vec<Vec<u8>> = Vec::new();
    for i in 0..300usize {
        patterns.push(format!("p{}", i % 100).into_bytes());
    }
    let grouping = group_patterns(&patterns);
    assert_eq!(grouping.distinct.len(), 100);
    for d in 0..100usize {
        assert_eq!(grouping.distinct[d], format!("p{}", d).into_bytes());
        assert_eq!(grouping.groups[d], vec![d, d + 100, d + 200]);
    }
}
