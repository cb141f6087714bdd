use chtholly::tree::ChthollyTree;

#[test]
fn from_iter() {
    let tree = ChthollyTree::from_iter(vec![1, 1, 2, 3, 4, 5, 5, 5, 5]);
    assert_eq!(
        tree.runs(),
        vec![
            (0, (2, 1)),
            (2, (3, 2)),
            (3, (4, 3)),
            (4, (5, 4)),
            (5, (9, 5))
        ]
    );
}

#[test]
fn iter() {
    let data = vec![-1, 2, 2, 3, 0, 0, 0, -4, -4, 10, 10, 12];
    let tree = ChthollyTree::from_iter(data.clone());
    assert_eq!(tree.iter(), data);
}

#[test]
fn split_range() {
    let mut tree = ChthollyTree::from_iter(vec![1, 1, 2, 3, 4, 5, 5, 5, 5]);
    tree.split_range(6, 8);
    assert_eq!(
        tree.runs(),
        vec![
            (0, (2, 1)),
            (2, (3, 2)),
            (3, (4, 3)),
            (4, (5, 4)),
            (5, (6, 5)),
            (6, (8, 5)),
            (8, (9, 5))
        ]
    );
}

#[test]
fn assign() {
    let mut tree = ChthollyTree::from_iter(vec![1, 1, 2, 3, 4, 4, 4, 5, 7, 8]);
    tree.assign(10, 3, 6);
    assert_eq!(tree.iter(), vec![1, 1, 2, 10, 10, 10, 4, 5, 7, 8]);
}

#[test]
fn sum() {
    let tree = ChthollyTree::from_iter(vec![1, 1, 2, 3, 4, 4, 4, 5, 7, 8]);
    let plain: i64 = [1, 1, 2, 3, 4, 4, 4, 5, 7, 8].into_iter().sum();
    assert_eq!(tree.sum(), plain);
}

#[test]
fn range_fold() {
    let mut tree = ChthollyTree::from_iter(vec![1, 1, 2, 3, 4, 4, 4, 5, 7, 8]);
    let plain: i64 = [1, 1, 2, 3, 4, 4, 4, 5, 7, 8][3..6].iter().sum();
    assert_eq!(tree.range_sum(3, 6), plain);
}

#[test]
fn new_is_empty() {
    let tree = ChthollyTree::new();
    assert!(tree.is_empty());
    assert_eq!(tree.len(), 0);
    assert_eq!(tree.iter(), Vec::<i64>::new());
    assert_eq!(tree.runs(), Vec::new());
}

#[test]
fn push_merges_equal_tail() {
    let mut tree = ChthollyTree::new();
    tree.push(7);
    tree.push(7);
    tree.push(3);
    tree.push(7);
    assert_eq!(tree.len(), 4);
    assert!(!tree.is_empty());
    assert_eq!(tree.runs(), vec![(0, (2, 7)), (2, (3, 3)), (3, (4, 7))]);
    assert_eq!(tree.iter(), vec![7, 7, 3, 7]);
}

#[test]
fn bulk_build_matches_repeated_push() {
    let data = vec![4, 4, -2, -2, -2, 9, 4];
    let bulk = ChthollyTree::from_iter(data.clone());
    let mut pushed = ChthollyTree::new();
    for v in data {
        pushed.push(v);
    }
    assert_eq!(bulk.runs(), pushed.runs());
    assert_eq!(bulk.iter(), pushed.iter());
}

#[test]
fn split_is_idempotent() {
    let mut once = ChthollyTree::from_iter(vec![5, 5, 5, 5, 2, 2]);
    once.split(2);
    let boundaries_once = once.runs();
    once.split(2);
    assert_eq!(once.runs(), boundaries_once);
    assert_eq!(once.iter(), vec![5, 5, 5, 5, 2, 2]);
}

#[test]
fn split_at_existing_boundary_is_noop() {
    let mut tree = ChthollyTree::from_iter(vec![1, 1, 2]);
    let before = tree.runs();
    tree.split(0);
    tree.split(2);
    assert_eq!(tree.runs(), before);
}

#[test]
fn assign_empty_or_out_of_bounds_is_noop() {
    let data = vec![1, 2, 2, 3];
    let mut tree = ChthollyTree::from_iter(data.clone());
    let before = tree.runs();
    tree.assign(9, 2, 2);
    tree.assign(9, 3, 1);
    tree.assign(9, 1, 5);
    assert_eq!(tree.runs(), before);
    assert_eq!(tree.iter(), data);
}

#[test]
fn assign_whole_sequence_collapses_to_one_run() {
    let mut tree = ChthollyTree::from_iter(vec![1, 2, 3, 4, 5]);
    tree.assign(0, 0, 5);
    assert_eq!(tree.runs(), vec![(0, (5, 0))]);
    assert_eq!(tree.iter(), vec![0, 0, 0, 0, 0]);
}

#[test]
fn map_transforms_every_run_value() {
    let mut tree = ChthollyTree::from_iter(vec![1, 1, 2, -3]);
    tree.map(|v: i64| v + 1);
    assert_eq!(tree.iter(), vec![2, 2, 3, -2]);
}

#[test]
fn map_range_transforms_only_the_range() {
    let mut tree = ChthollyTree::from_iter(vec![1, 2, 3, 4]);
    tree.map_range(|v: i64| v * 2, 1, 3);
    assert_eq!(tree.iter(), vec![1, 4, 6, 4]);
}

#[test]
fn map_range_empty_or_out_of_bounds_is_noop() {
    let data = vec![1, 2, 3, 4];
    let mut tree = ChthollyTree::from_iter(data.clone());
    tree.map_range(|v: i64| v * 2, 2, 2);
    tree.map_range(|v: i64| v * 2, 0, 9);
    assert_eq!(tree.iter(), data);
}

#[test]
fn fold_weights_by_run_length() {
    let tree = ChthollyTree::from_iter(vec![2, 2, 2, 5]);
    let total = tree.fold(0i64, |acc: i64, n: usize, v: i64| acc + (n as i64) * v);
    assert_eq!(total, 11);
    let count = tree.fold(0usize, |acc: usize, n: usize, _v: i64| acc + n);
    assert_eq!(count, 4);
}

#[test]
fn fold_range_empty_or_out_of_bounds_returns_init() {
    let mut tree = ChthollyTree::from_iter(vec![1, 2, 3]);
    let a = tree.fold_range(42i64, |acc: i64, n: usize, v: i64| acc + (n as i64) * v, 2, 2);
    assert_eq!(a, 42);
    let b = tree.fold_range(42i64, |acc: i64, n: usize, v: i64| acc + (n as i64) * v, 1, 7);
    assert_eq!(b, 42);
}

#[test]
fn fold_range_aggregates_the_range() {
    let mut tree = ChthollyTree::from_iter(vec![1, 1, 2, 3, 4, 4, 4, 5, 7, 8]);
    let total = tree.fold_range(0i64, |acc: i64, n: usize, v: i64| acc + (n as i64) * v, 3, 6);
    assert_eq!(total, 11);
}

#[test]
fn sum_with_negative_values() {
    let data = vec![-1, 2, 2, 3, 0, 0, 0, -4, -4, 10, 10, 12];
    let tree = ChthollyTree::from_iter(data.clone());
    let plain: i64 = data.into_iter().sum();
    assert_eq!(tree.sum(), plain);
}

#[test]
fn range_sum_empty_or_out_of_bounds_is_zero() {
    let mut tree = ChthollyTree::from_iter(vec![1, 2, 3]);
    assert_eq!(tree.range_sum(1, 1), 0);
    assert_eq!(tree.range_sum(2, 9), 0);
    assert_eq!(tree.iter(), vec![1, 2, 3]);
}

#[test]
fn assign_then_sum_over_ranges() {
    let mut tree = ChthollyTree::from_iter(vec![1, 1, 2, 3, 4, 4, 4, 5, 7, 8]);
    tree.assign(10, 3, 6);
    assert_eq!(tree.range_sum(0, 10), 1 + 1 + 2 + 10 + 10 + 10 + 4 + 5 + 7 + 8);
    assert_eq!(tree.range_sum(3, 6), 30);
}
