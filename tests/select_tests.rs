use kidex::select::{pick_top, sort_ascending};

#[test]
fn top_k_keeps_input_order_on_ties() {
    let xs = vec![(5, 'A'), (5, 'B'), (5, 'C'), (3, 'D')];
    assert_eq!(pick_top(xs, 2), vec![(5, 'A'), (5, 'B')]);
}

#[test]
fn top_k_is_descending_with_min_length() {
    let xs = vec![(1, 'a'), (7, 'b'), (3, 'c'), (7, 'd'), (2, 'e')];
    let top = pick_top(xs.clone(), 3);
    assert_eq!(top, vec![(7, 'b'), (7, 'd'), (3, 'c')]);
    let all = pick_top(xs.clone(), 10);
    assert_eq!(all.len(), 5);
    assert_eq!(all, vec![(7, 'b'), (7, 'd'), (3, 'c'), (2, 'e'), (1, 'a')]);
    assert!(pick_top(xs, 0).is_empty());
    assert!(pick_top(Vec::<(i64, char)>::new(), 4).is_empty());
}

#[test]
fn top_k_drops_entries_below_the_worst() {
    let xs = vec![(9, 'a'), (8, 'b'), (1, 'c'), (8, 'd'), (10, 'e')];
    assert_eq!(pick_top(xs, 2), vec![(10, 'e'), (9, 'a')]);
}

#[test]
fn ascending_sort_is_stable() {
    let xs = vec![(2, 'a'), (1, 'b'), (2, 'c'), (1, 'd'), (0, 'e')];
    assert_eq!(sort_ascending(xs), vec![(0, 'e'), (1, 'b'), (1, 'd'), (2, 'a'), (2, 'c')]);
    assert!(sort_ascending(Vec::<(i64, u8)>::new()).is_empty());
}

#[test]
fn negative_scores_sort_too() {
    let xs = vec![(-8888, 'x'), (50, 'y'), (-2222, 'z')];
    assert_eq!(pick_top(xs.clone(), 3), vec![(50, 'y'), (-2222, 'z'), (-8888, 'x')]);
    assert_eq!(sort_ascending(xs), vec![(-8888, 'x'), (-2222, 'z'), (50, 'y')]);
}
