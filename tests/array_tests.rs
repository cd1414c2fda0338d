use interpolation::array::{find_nones, repair_array_inplace};
use interpolation::grid::Grid;
use linked_hash_set::LinkedHashSet;

const N: Option<f64> = None;

fn fixed(x: f64) -> i64 {
    (x * 1_000_000.0).round() as i64
}

fn grid(rows: Vec<Vec<Option<f64>>>) -> Grid {
    let cells = rows
        .into_iter()
        .map(|row| row.into_iter().map(|c| c.map(fixed)).collect())
        .collect();
    Grid::from_rows(cells).expect("rectangular rows")
}

fn rows_of(values: Vec<Vec<f64>>) -> Vec<Vec<Option<i64>>> {
    values
        .into_iter()
        .map(|row| row.into_iter().map(|v| Some(fixed(v))).collect())
        .collect()
}

fn helper_test1_array() -> Grid {
    grid(vec![
        vec![Some(1.), N, Some(2.), Some(7.), Some(9.), Some(12.), N],
        vec![N, N, Some(4.), N, Some(6.), Some(9.), Some(0.)],
        vec![Some(7.), Some(4.), Some(9.), Some(1.), Some(5.), Some(0.), Some(6.)],
        vec![Some(10.), Some(1.), N, Some(7.), Some(4.), Some(3.), Some(8.)],
        vec![N, Some(9.), Some(4.), Some(2.), N, N, N],
        vec![N, N, Some(6.), Some(4.), N, Some(2.), Some(1.)],
        vec![N, Some(2.), Some(2.), Some(3.), Some(4.), Some(5.), Some(6.)],
    ])
}

fn helper_test1_nones() -> LinkedHashSet<(usize, usize)> {
    LinkedHashSet::from_iter(
        vec![
            (0, 1),
            (0, 6),
            (1, 0),
            (1, 1),
            (1, 3),
            (3, 2),
            (4, 0),
            (4, 4),
            (4, 5),
            (4, 6),
            (5, 0),
            (5, 1),
            (5, 4),
            (6, 0),
        ]
        .into_iter(),
    )
}

fn helper_test1_expected_repaired_array() -> Vec<Vec<Option<i64>>> {
    rows_of(vec![
        vec![1., 2.333333, 2., 7., 9., 12., 6.],
        vec![4., 3.583333, 4., 4.5, 6., 9., 0.],
        vec![7., 4., 9., 1., 5., 0., 6.],
        vec![10., 1., 5.25, 7., 4., 3., 8.],
        vec![9.5, 9., 4., 2., 3.333333, 2.777778, 3.925926],
        vec![7.75, 6.1875, 6., 4., 3.333333, 2., 1.],
        vec![4.875, 2., 2., 3., 4., 5., 6.],
    ])
}

fn order_of(set: &LinkedHashSet<(usize, usize)>) -> Vec<(usize, usize)> {
    set.iter().cloned().collect()
}

#[test]
fn test_find_nones() {
    let expected_nones = helper_test1_nones();
    let input_array = helper_test1_array();
    let nones = find_nones(&input_array);
    assert_eq!(order_of(&expected_nones), order_of(&nones));
}

#[test]
fn test_no_nones_found() {
    let expected_nones: LinkedHashSet<(usize, usize)> = LinkedHashSet::new();
    let input_array = grid(vec![vec![Some(1.)], vec![Some(2.)], vec![Some(3.)]]);
    let nones = find_nones(&input_array);
    assert_eq!(order_of(&expected_nones), order_of(&nones));
}

#[test]
fn test_repair_array_inplace() {
    let test_array = helper_test1_array();
    let nones = helper_test1_nones();
    let repaired = repair_array_inplace(nones, test_array);
    assert_eq!(repaired.to_rows(), helper_test1_expected_repaired_array());
}

#[test]
fn from_rows_refuses_ragged_rows() {
    let rows = vec![vec![Some(1), None], vec![Some(2)]];
    assert!(Grid::from_rows(rows).is_none());
}

#[test]
fn from_rows_keeps_shape_and_cells() {
    let rows = vec![vec![Some(1), None, Some(3)], vec![None, Some(5), Some(6)]];
    let g = Grid::from_rows(rows.clone()).unwrap();
    assert_eq!(g.rows(), 2);
    assert_eq!(g.cols(), 3);
    assert_eq!(g.get(1, 1), Some(5));
    assert_eq!(g.get(0, 1), None);
    assert_eq!(g.to_rows(), rows);
}

#[test]
fn from_rows_of_nothing_is_empty() {
    let g = Grid::from_rows(vec![]).unwrap();
    assert_eq!(g.rows(), 0);
    assert_eq!(g.cols(), 0);
    assert!(order_of(&find_nones(&g)).is_empty());
}

#[test]
fn complete_grid_is_left_unchanged() {
    let complete = || grid(vec![vec![Some(1.), Some(2.)], vec![Some(3.), Some(4.)]]);
    let input = complete();
    let nones = find_nones(&input);
    assert!(order_of(&nones).is_empty());
    let repaired = repair_array_inplace(nones, input);
    assert_eq!(repaired, complete());
}

#[test]
fn repair_leaves_no_cell_missing() {
    let input = grid(vec![vec![N, N, N], vec![N, Some(4.), N], vec![N, N, N]]);
    let repaired = repair_array_inplace(find_nones(&input), input);
    for row in repaired.to_rows() {
        for cell in row {
            assert!(cell.is_some());
        }
    }
    assert!(order_of(&find_nones(&repaired)).is_empty());
}

#[test]
fn repair_is_deterministic() {
    let first = repair_array_inplace(helper_test1_nones(), helper_test1_array());
    let second = repair_array_inplace(helper_test1_nones(), helper_test1_array());
    assert_eq!(first, second);
}

#[test]
fn later_cell_sees_earlier_resolution() {
    // (0, 0) resolves first to 8 from below; (0, 1) then finds it on its left.
    let input = grid(vec![vec![N, N], vec![Some(8.), Some(2.)]]);
    let repaired = repair_array_inplace(find_nones(&input), input);
    assert_eq!(repaired.to_rows(), rows_of(vec![vec![8., 5.], vec![8., 2.]]));
}

#[test]
fn two_by_three_example() {
    let input = grid(vec![vec![Some(1.), N, Some(2.)], vec![Some(4.), Some(5.), N]]);
    let nones = find_nones(&input);
    assert_eq!(order_of(&nones), vec![(0, 1), (1, 2)]);
    let repaired = repair_array_inplace(nones, input);
    assert_eq!(
        repaired.to_rows(),
        rows_of(vec![vec![1., 2.666667, 2.], vec![4., 5., 3.5]])
    );
}

#[test]
fn single_row_example() {
    let input = grid(vec![vec![N, Some(3.), N]]);
    let nones = find_nones(&input);
    assert_eq!(order_of(&nones), vec![(0, 0), (0, 2)]);
    let repaired = repair_array_inplace(nones, input);
    assert_eq!(repaired.to_rows(), rows_of(vec![vec![3., 3., 3.]]));
}

#[test]
fn isolated_cell_resolves_to_zero() {
    let input = grid(vec![vec![N]]);
    let repaired = repair_array_inplace(find_nones(&input), input);
    assert_eq!(repaired.to_rows(), vec![vec![Some(0)]]);
}

#[test]
fn coordinates_outside_the_grid_are_passed_over() {
    let input = grid(vec![vec![Some(1.), N]]);
    let nones: LinkedHashSet<(usize, usize)> = [(5, 5), (0, 1)].into_iter().collect();
    let repaired = repair_array_inplace(nones, input);
    assert_eq!(repaired.to_rows(), rows_of(vec![vec![1., 1.]]));
}
