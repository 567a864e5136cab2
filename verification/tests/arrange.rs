use efg_ahocorasick::arrange::{arrange, comes_in_order, insert_in_order};
use efg_ahocorasick::occurrence::Occurrence;

fn place(start: usize, end: usize, pattern: usize) -> Occurrence {
    Occurrence { start, end, pattern }
}

#[test]
fn order_is_by_end_then_pattern_then_start() {
    assert!(comes_in_order(&place(5, 6, 9), &place(0, 7, 0)));
    assert!(!comes_in_order(&place(0, 7, 0), &place(5, 6, 9)));
    assert!(comes_in_order(&place(4, 7, 1), &place(0, 7, 2)));
    assert!(!comes_in_order(&place(0, 7, 2), &place(4, 7, 1)));
    assert!(comes_in_order(&place(1, 7, 2), &place(3, 7, 2)));
    assert!(!comes_in_order(&place(3, 7, 2), &place(1, 7, 2)));
    assert!(comes_in_order(&place(3, 7, 2), &place(3, 7, 2)));
}

#[test]
fn insertion_keeps_the_list_sorted() {
    let mut list = vec![place(0, 2, 0), place(1, 3, 1), place(2, 5, 0)];
    insert_in_order(&mut list, place(2, 3, 0));
    assert_eq!(
        list,
        vec![place(0, 2, 0), place(2, 3, 0), place(1, 3, 1), place(2, 5, 0)]
    );
    insert_in_order(&mut list, place(4, 6, 3));
    insert_in_order(&mut list, place(0, 1, 7));
    assert_eq!(
        list,
        vec![
            place(0, 1, 7),
            place(0, 2, 0),
            place(2, 3, 0),
            place(1, 3, 1),
            place(2, 5, 0),
            place(4, 6, 3)
        ]
    );
    let mut empty: Vec<Occurrence> = Vec::new();
    insert_in_order(&mut empty, place(1, 2, 3));
    assert_eq!(empty, vec![place(1, 2, 3)]);
}

#[test]
fn matches_are_spread_over_their_groups_and_sorted() {
    let groups = vec![vec![0usize, 3], vec![1], vec![2, 4, 5]];
    let found = vec![place(0, 3, 2), place(1, 3, 0), place(2, 3, 1), place(0, 1, 1)];
    assert_eq!(
        arrange(&groups, &found),
        vec![
            place(0, 1, 1),
            place(1, 3, 0),
            place(2, 3, 1),
            place(0, 3, 2),
            place(1, 3, 3),
            place(0, 3, 4),
            place(0, 3, 5),
        ]
    );
}

#[test]
fn a_match_of_no_group_stands_for_nothing() {
    let groups = vec![vec![0usize]];
    let found = vec![place(0, 1, 1), place(2, 3, 0)];
    assert_eq!(arrange(&groups, &found), vec![place(2, 3, 0)]);
    assert_eq!(arrange(&Vec::new(), &found), Vec::new());
    assert_eq!(arrange(&groups, &Vec::new()), Vec::new());
}

#[test]
fn a_match_that_comes_twice_is_kept_twice() {
    let groups = vec![vec![0usize, 1]];
    let found = vec![place(2, 3, 0), place(2, 3, 0)];
    assert_eq!(
        arrange(&groups, &found),
        vec![place(2, 3, 0), place(2, 3, 0), place(2, 3, 1), place(2, 3, 1)]
    );
}
