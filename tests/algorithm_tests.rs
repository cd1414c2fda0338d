use interpolation::algorithm::{average, walk, VectorDirection};
use linked_hash_set::LinkedHashSet;

fn fixed(x: f64) -> i64 {
    (x * 1_000_000.0).round() as i64
}

fn sample_nones() -> LinkedHashSet<(usize, usize)> {
    [(2, 1), (1, 0), (0, 2)].into_iter().collect()
}

#[test]
fn test_average_empty_vec() {
    let v = vec![];
    assert_eq!(average(v), fixed(0.));
}

#[test]
fn algorithm_test_average() {
    let v = vec![fixed(1.), fixed(2.), fixed(3.), fixed(4.)];
    assert_eq!(average(v), fixed(2.5));
}

#[test]
fn test_walk_skips_none() {
    let nones = sample_nones();
    let start = (0, 2);
    let slice = vec![None, Some(fixed(2.0)), None];
    let next_val_down = walk(slice, VectorDirection::Down, start, &nones);
    assert_eq!(next_val_down, Some(fixed(2.0)));
}

#[test]
fn test_walk_none_if_all_none() {
    let nones = sample_nones();
    let start = (0, 2);
    let slice = vec![None, None, None];
    let next_val_down = walk(slice, VectorDirection::Down, start, &nones);
    assert_eq!(next_val_down, None);
}

#[test]
fn test_walk_takes_first() {
    let nones = sample_nones();
    let start = (2, 0);
    let slice = vec![Some(fixed(1.0)), Some(fixed(3.0)), Some(fixed(2.0))];
    let next_val_down = walk(slice, VectorDirection::Up, start, &nones);
    assert_eq!(next_val_down, Some(fixed(1.0)));
}

#[test]
fn average_of_one_and_two_values() {
    assert_eq!(average(vec![7]), 7);
    assert_eq!(average(vec![-7]), -7);
    assert_eq!(average(vec![3, 5]), 4);
    assert_eq!(average(vec![-3, -5]), -4);
}

#[test]
fn average_rounds_halves_away_from_zero() {
    assert_eq!(average(vec![1, 2]), 2);
    assert_eq!(average(vec![-1, -2]), -2);
    assert_eq!(average(vec![1, 1, 0]), 1);
    assert_eq!(average(vec![1, 0, 0]), 0);
    assert_eq!(average(vec![fixed(1.), fixed(2.), fixed(5.)]), fixed(2.666667));
}

#[test]
fn average_of_extreme_values_does_not_overflow() {
    assert_eq!(average(vec![i64::MAX, i64::MAX, i64::MAX]), i64::MAX);
    assert_eq!(average(vec![i64::MIN, i64::MIN]), i64::MIN);
    assert_eq!(average(vec![i64::MIN, i64::MAX]), -1);
}

#[test]
fn walk_on_empty_slice_finds_nothing() {
    let nones = sample_nones();
    assert_eq!(walk(vec![], VectorDirection::Left, (1, 1), &nones), None);
}

#[test]
fn walk_over_pending_cells_only_finds_nothing() {
    let nones: LinkedHashSet<(usize, usize)> = [(1, 2), (1, 1), (1, 0)].into_iter().collect();
    let slice = vec![Some(5), Some(6), Some(7)];
    assert_eq!(walk(slice, VectorDirection::Left, (1, 2), &nones), None);
}

#[test]
fn walk_skips_pending_and_takes_first_open() {
    let nones: LinkedHashSet<(usize, usize)> = [(0, 1), (0, 2)].into_iter().collect();
    let slice = vec![Some(5), Some(6), Some(7), Some(8)];
    assert_eq!(walk(slice, VectorDirection::Right, (0, 1), &nones), Some(7));
}

#[test]
fn walk_past_the_index_range_is_not_pending() {
    let nones: LinkedHashSet<(usize, usize)> = [(0, 0)].into_iter().collect();
    let slice = vec![Some(1), Some(2)];
    assert_eq!(walk(slice, VectorDirection::Up, (0, 0), &nones), Some(2));
}
