use rpl_driver::lints::{lint_emission_order, preferred_lint_root};

#[test]
fn emission_order_sorts_by_function_then_pattern_item() {
    let keys = vec![(3u32, 0usize), (1, 2), (1, 0), (2, 5)];
    assert_eq!(lint_emission_order(&keys), vec![2, 1, 3, 0]);
}

#[test]
fn emission_order_is_stable_for_equal_keys() {
    let keys = vec![(1u32, 1usize), (0, 0), (1, 1), (0, 0), (1, 1)];
    assert_eq!(lint_emission_order(&keys), vec![1, 3, 0, 2, 4]);
}

#[test]
fn emission_order_of_nothing_is_empty() {
    let keys: Vec<(u32, usize)> = Vec::new();
    assert!(lint_emission_order(&keys).is_empty());
}

#[test]
fn emission_order_keeps_sorted_input() {
    let keys = vec![(0u32, 0usize), (0, 1), (4, 0), (9, 9)];
    assert_eq!(lint_emission_order(&keys), vec![0, 1, 2, 3]);
}

#[test]
fn last_resolving_label_wins() {
    let roots = vec![Some(10u32), None, Some(30), None];
    assert_eq!(preferred_lint_root(&roots, 99), 30);
}

#[test]
fn function_root_when_no_label_resolves() {
    let roots: Vec<Option<u32>> = vec![None, None];
    assert_eq!(preferred_lint_root(&roots, 99), 99);
    let none: Vec<Option<u32>> = Vec::new();
    assert_eq!(preferred_lint_root(&none, 7), 7);
}

#[test]
fn only_resolving_label_wins() {
    let roots = vec![Some(5u32), None, None];
    assert_eq!(preferred_lint_root(&roots, 99), 5);
}

use rpl_driver::lints::dedupe_first_occurrences;

fn same_key_rows(keys: &[u32]) -> Vec<Vec<bool>> {
    (0..keys.len()).map(|i| (0..i).map(|j| keys[j] == keys[i]).collect()).collect()
}

#[test]
fn dedupe_keeps_first_occurrence_of_each_key() {
    let keys = [5u32, 3, 5, 7, 3, 3, 9];
    assert_eq!(dedupe_first_occurrences(&same_key_rows(&keys)), vec![0, 1, 3, 6]);
}

#[test]
fn dedupe_of_distinct_keys_keeps_all() {
    let keys = [1u32, 2, 3];
    assert_eq!(dedupe_first_occurrences(&same_key_rows(&keys)), vec![0, 1, 2]);
}

#[test]
fn dedupe_of_nothing_is_empty() {
    assert!(dedupe_first_occurrences(&Vec::new()).is_empty());
}

#[test]
fn dedupe_only_compares_with_kept_lints() {
    // Lint 2 matches the dropped lint 1 only, so it is kept.
    let rows = vec![vec![], vec![true], vec![false, true]];
    assert_eq!(dedupe_first_occurrences(&rows), vec![0, 2]);
}

#[test]
fn dedupe_treats_missing_comparisons_as_different() {
    let rows = vec![vec![], vec![], vec![true]];
    assert_eq!(dedupe_first_occurrences(&rows), vec![0, 1]);
}
