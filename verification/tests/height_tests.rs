use dinotree::compute_level_switch_sequential;
use dinotree::compute_tree_height_heuristic;
use dinotree::nodes_left;

#[test]
fn height_one_leaf_when_everything_fits() {
    assert_eq!(compute_tree_height_heuristic(0, 128), 1);
    assert_eq!(compute_tree_height_heuristic(1, 128), 1);
    assert_eq!(compute_tree_height_heuristic(128, 128), 1);
    assert_eq!(compute_tree_height_heuristic(5, 5), 1);
}

#[test]
fn height_formula_exact_values() {
    // smallest odd h = 2m + 1 with 4^m * 128 >= n
    assert_eq!(compute_tree_height_heuristic(129, 128), 3);
    assert_eq!(compute_tree_height_heuristic(512, 128), 3);
    assert_eq!(compute_tree_height_heuristic(513, 128), 5);
    assert_eq!(compute_tree_height_heuristic(1000, 128), 5);
    assert_eq!(compute_tree_height_heuristic(8192, 128), 7);
    assert_eq!(compute_tree_height_heuristic(8193, 128), 9);
    assert_eq!(compute_tree_height_heuristic(2, 1), 3);
}

#[test]
fn height_monotone_in_bot_count() {
    let mut last = 0;
    for n in 0..4000 {
        let h = compute_tree_height_heuristic(n, 128);
        assert!(h >= last, "height shrank at {}", n);
        assert_eq!(h % 2, 1);
        last = h;
    }
}

#[test]
fn nodes_left_counts_complete_subtrees() {
    assert_eq!(nodes_left(0, 1), 1);
    assert_eq!(nodes_left(0, 5), 31);
    assert_eq!(nodes_left(2, 5), 7);
    assert_eq!(nodes_left(4, 5), 1);
}

#[test]
fn switch_depth_from_leaf_distance() {
    assert_eq!(compute_level_switch_sequential(2, 5), 3);
    assert_eq!(compute_level_switch_sequential(5, 5), 0);
    assert_eq!(compute_level_switch_sequential(10, 5), 0);
    assert_eq!(compute_level_switch_sequential(0, 4), 4);
}
