use rpl_driver::cartesian::cartesian;

fn collect_all<T: Clone>(factors: Vec<Vec<T>>) -> Vec<Vec<T>> {
    let mut it = cartesian(factors);
    let mut out = Vec::new();
    while let Some(combo) = it.next() {
        out.push(combo);
    }
    out
}

#[test]
fn no_factors_yield_one_empty_combination() {
    let combos = collect_all::<u32>(Vec::new());
    assert_eq!(combos, vec![Vec::<u32>::new()]);
}

#[test]
fn an_empty_factor_folds_to_nothing() {
    let combos = collect_all(vec![vec![1, 2], vec![], vec![3]]);
    assert!(combos.is_empty());
}

#[test]
fn a_single_empty_factor_folds_to_nothing() {
    let combos = collect_all::<u8>(vec![vec![]]);
    assert!(combos.is_empty());
}

#[test]
fn rightmost_index_varies_fastest() {
    let combos = collect_all(vec![vec!['a', 'b'], vec!['x', 'y', 'z']]);
    assert_eq!(
        combos,
        vec![
            vec!['a', 'x'],
            vec!['a', 'y'],
            vec!['a', 'z'],
            vec!['b', 'x'],
            vec!['b', 'y'],
            vec!['b', 'z'],
        ]
    );
}

#[test]
fn count_is_the_product_of_lengths() {
    let combos = collect_all(vec![vec![0u8; 2], vec![0u8; 3], vec![0u8; 4]]);
    assert_eq!(combos.len(), 24);
}

#[test]
fn every_combination_occurs_once() {
    let combos = collect_all(vec![vec![0, 1, 2], vec![0, 1], vec![0, 1, 2]]);
    assert_eq!(combos.len(), 18);
    for a in 0..3 {
        for b in 0..2 {
            for c in 0..3 {
                let n = combos.iter().filter(|x| **x == vec![a, b, c]).count();
                assert_eq!(n, 1);
            }
        }
    }
}

#[test]
fn single_factor_yields_each_element_alone() {
    let combos = collect_all(vec![vec!["mutex", "rwlock"]]);
    assert_eq!(combos, vec![vec!["mutex"], vec!["rwlock"]]);
}

#[test]
fn one_assignment_per_combination_of_groups() {
    // Two groups, each with two configured instances: the four assignments
    // choose one instance for every group at once.
    let combos = collect_all(vec![vec!["Mutex", "RwLock"], vec!["lock", "read"]]);
    assert_eq!(
        combos,
        vec![
            vec!["Mutex", "lock"],
            vec!["Mutex", "read"],
            vec!["RwLock", "lock"],
            vec!["RwLock", "read"],
        ]
    );
}

#[test]
fn exhausted_iterator_keeps_returning_none() {
    let mut it = cartesian(vec![vec![7u64]]);
    assert_eq!(it.next(), Some(vec![7]));
    assert_eq!(it.next(), None);
    assert_eq!(it.next(), None);
    let mut empty = cartesian::<u64>(Vec::new());
    assert_eq!(empty.next(), Some(vec![]));
    assert_eq!(empty.next(), None);
    assert_eq!(empty.next(), None);
}

#[test]
fn folded_iterator_never_yields() {
    let mut it = cartesian(vec![vec![1u64], Vec::new()]);
    assert_eq!(it.next(), None);
    assert_eq!(it.next(), None);
}

#[test]
fn elements_are_cloned_from_the_factors() {
    let combos = collect_all(vec![vec![String::from("a")], vec![String::from("b"), String::from("c")]]);
    assert_eq!(
        combos,
        vec![
            vec![String::from("a"), String::from("b")],
            vec![String::from("a"), String::from("c")],
        ]
    );
}

#[test]
fn product_of_concatenation_is_pairwise_join() {
    let fs = vec![vec![1u8, 2], vec![3]];
    let gs = vec![vec![4u8, 5], vec![6, 7]];
    let left = collect_all(fs.clone());
    let right = collect_all(gs.clone());
    let mut joined = Vec::new();
    for a in &left {
        for b in &right {
            let mut c = a.clone();
            c.extend(b.iter().cloned());
            joined.push(c);
        }
    }
    let mut both = fs;
    both.extend(gs);
    assert_eq!(collect_all(both), joined);
}
