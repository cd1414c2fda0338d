// The discovery of a grid's missing cells and the repair scheduler.
use crate::algorithm::{average, coord_of, mean_of, step_from, walk, walk_spec, VectorDirection};
use crate::grid::{lemma_fits_bounds_size, lemma_index_in_bounds, Grid, GridView};
use crate::pending::{pending_insert, pending_len, pending_new, pending_order, pending_pop_front, Coord};
use linked_hash_set::LinkedHashSet;
use vstd::arithmetic::div_mod::*;
use vstd::arithmetic::mul::*;
use vstd::prelude::*;

verus! {

/// The coordinate of the cell at flat (row-major) index `i`.
pub open spec fn coord_at(g: GridView, i: int) -> Coord {
    ((i / g.cols as int) as usize, (i % g.cols as int) as usize)
}

/// The coordinates of the missing cells among the first `i` cells, in
/// row-major order.
pub open spec fn missing_upto(g: GridView, i: int) -> Seq<Coord>
    decreases i,
{
    if i <= 0 {
        Seq::empty()
    } else if g.cells[i - 1] is None {
        missing_upto(g, i - 1).push(coord_at(g, i - 1))
    } else {
        missing_upto(g, i - 1)
    }
}

/// The coordinates of all missing cells, in row-major order.
pub open spec fn missing_cells(g: GridView) -> Seq<Coord> {
    missing_upto(g, g.cells.len() as int)
}

/// `s` with `o`'s value appended, if it has one.
pub open spec fn push_found(s: Seq<i64>, o: Option<i64>) -> Seq<i64> {
    match o {
        Some(v) => s.push(v),
        None => s,
    }
}

/// What a walk from `(r, c)` in direction `d` finds, while `nones` is pending.
pub open spec fn look(g: GridView, nones: Seq<Coord>, r: int, c: int, d: VectorDirection) -> Option<i64> {
    walk_spec(g.line(r, c, d), d, step_from(d, (r, c), 1), nones)
}

/// The values found around `(r, c)`: up, down, left, then right.
pub open spec fn found(g: GridView, nones: Seq<Coord>, r: int, c: int) -> Seq<i64> {
    let up = look(g, nones, r, c, VectorDirection::Up);
    let down = look(g, nones, r, c, VectorDirection::Down);
    let left = look(g, nones, r, c, VectorDirection::Left);
    let right = look(g, nones, r, c, VectorDirection::Right);
    push_found(push_found(push_found(push_found(Seq::empty(), up), down), left), right)
}

/// The value that `(r, c)` resolves to while `nones` is pending.
pub open spec fn resolved(g: GridView, nones: Seq<Coord>, r: int, c: int) -> i64 {
    mean_of(found(g, nones, r, c)) as i64
}

/// The grid after resolving the coordinates of `order` one by one, each
/// while the later ones are still pending. A coordinate outside the grid
/// is passed over.
pub open spec fn repair_spec(g: GridView, order: Seq<Coord>) -> GridView
    decreases order.len(),
{
    if order.len() == 0 {
        g
    } else {
        let p = order[0];
        let rest = order.drop_first();
        if g.in_bounds(p.0 as int, p.1 as int) {
            repair_spec(g.with(p.0 as int, p.1 as int, Some(resolved(g, rest, p.0 as int, p.1 as int))), rest)
        } else {
            repair_spec(g, rest)
        }
    }
}

/// The cell at row `r`, column `c` has flat index `r * cols + c`.
proof fn lemma_coord_at(g: GridView, r: int, c: int)
    requires
        0 <= r,
        0 <= c < g.cols,
        r * g.cols + c <= usize::MAX,
    ensures
        coord_at(g, r * g.cols + c) == (r as usize, c as usize),
{
    lemma_fundamental_div_mod_converse(r * g.cols + c, g.cols as int, r, c);
    assert(r <= r * g.cols + c) by (nonlinear_arith)
        requires 0 <= r, 0 <= c, g.cols >= 1;
}

/// Every coordinate in `missing_upto(g, i)` comes before flat index `i`.
proof fn lemma_missing_before(g: GridView, i: int)
    requires
        g.wf(),
        g.cols > 0,
        0 <= i <= g.cells.len(),
        g.cells.len() <= usize::MAX,
    ensures
        forall|k: int| 0 <= k < missing_upto(g, i).len() ==>
            (#[trigger] missing_upto(g, i)[k]).0 * g.cols + missing_upto(g, i)[k].1 < i
                && missing_upto(g, i)[k].1 < g.cols,
    decreases i,
{
    if i > 0 {
        lemma_missing_before(g, i - 1);
        let j = i - 1;
        lemma_fundamental_div_mod(j, g.cols as int);
        lemma_mod_bound(j, g.cols as int);
        lemma_div_pos_is_pos(j, g.cols as int);
        lemma_div_is_ordered_by_denominator(j, 1, g.cols as int);
        assert(j / g.cols as int * g.cols == g.cols * (j / g.cols as int)) by (nonlinear_arith);
        let x = coord_at(g, j);
        assert(x.0 as int == j / g.cols as int);
        assert(x.1 as int == j % g.cols as int);
        assert(x.0 * g.cols + x.1 == j);
        let prev = missing_upto(g, j);
        assert forall|k: int| 0 <= k < missing_upto(g, i).len() implies
            (#[trigger] missing_upto(g, i)[k]).0 * g.cols + missing_upto(g, i)[k].1 < i
                && missing_upto(g, i)[k].1 < g.cols by {
            if k < prev.len() {
                assert(missing_upto(g, i)[k] == prev[k]);
            }
        }
    }
}

/// Every missing cell before flat index `i` is in `missing_upto(g, i)`.
proof fn lemma_missing_complete(g: GridView, i: int, j: int)
    requires
        0 <= j < i,
        g.cells[j] is None,
    ensures
        missing_upto(g, i).contains(coord_at(g, j)),
    decreases i,
{
    if j < i - 1 {
        lemma_missing_complete(g, i - 1, j);
        if g.cells[i - 1] is None {
            let s = missing_upto(g, i - 1);
            let k = choose|k: int| 0 <= k < s.len() && s[k] == coord_at(g, j);
            assert(missing_upto(g, i)[k] == coord_at(g, j));
        }
    } else {
        assert(missing_upto(g, i).last() == coord_at(g, j));
    }
}

/// Repairing leaves the dimensions alone and keeps the grid well formed.
proof fn lemma_repair_shape(g: GridView, order: Seq<Coord>)
    requires
        g.wf(),
    ensures
        repair_spec(g, order).wf(),
        repair_spec(g, order).rows == g.rows,
        repair_spec(g, order).cols == g.cols,
    decreases order.len(),
{
    if order.len() > 0 {
        let p = order[0];
        let rest = order.drop_first();
        if g.in_bounds(p.0 as int, p.1 as int) {
            let v = resolved(g, rest, p.0 as int, p.1 as int);
            lemma_index_in_bounds(p.0 as int, p.1 as int, g.rows as int, g.cols as int);
            lemma_repair_shape(g.with(p.0 as int, p.1 as int, Some(v)), rest);
        } else {
            lemma_repair_shape(g, rest);
        }
    }
}

/// Lists, in row-major order, the coordinates of the grid's missing cells.
pub fn find_nones(arr: &Grid) -> (nones: LinkedHashSet<Coord>)
    ensures
        pending_order(nones) == missing_cells(arr@),
{
    let mut nones = pending_new();
    let rows: usize = arr.rows();
    let cols: usize = arr.cols();
    if cols == 0 {
        assert(arr@.cells.len() == 0) by (nonlinear_arith)
            requires arr@.cells.len() == arr@.rows * arr@.cols, arr@.cols == 0;
        return nones;
    }
    let ghost g = arr@;
    proof {
        lemma_fits_bounds_size(rows, cols);
    }
    let mut r: usize = 0;
    while r < rows
        invariant
            g == arr@,
            arr.wf(),
            rows == g.rows,
            cols == g.cols,
            cols > 0,
            g.cells.len() <= usize::MAX,
            r <= rows,
            pending_order(nones) == missing_upto(g, r * cols),
        decreases rows - r,
    {
        let mut c: usize = 0;
        while c < cols
            invariant
                g == arr@,
                arr.wf(),
                rows == g.rows,
                cols == g.cols,
                cols > 0,
                g.cells.len() <= usize::MAX,
                r < rows,
                c <= cols,
                pending_order(nones) == missing_upto(g, r * cols + c),
            decreases cols - c,
        {
            proof {
                lemma_index_in_bounds(r as int, c as int, rows as int, cols as int);
                lemma_coord_at(g, r as int, c as int);
            }
            if arr.get(r, c).is_none() {
                proof {
                    let i = r * cols + c;
                    lemma_missing_before(g, i);
                    if missing_upto(g, i).contains((r, c)) {
                        let k = choose|k: int| 0 <= k < missing_upto(g, i).len() && missing_upto(g, i)[k] == (r, c);
                        assert(missing_upto(g, i)[k].0 * g.cols + missing_upto(g, i)[k].1 < i);
                    }
                }
                pending_insert(&mut nones, (r, c));
            }
            c = c + 1;
        }
        proof {
            assert(r * cols + cols == (r + 1) * cols) by (nonlinear_arith);
        }
        r = r + 1;
    }
    proof {
        assert(g.cells.len() == rows * cols);
    }
    nones
}

/// The value that `(r, c)` resolves to while `nones` is pending.
fn resolve(g: &Grid, nones: &LinkedHashSet<Coord>, r: usize, c: usize) -> (v: i64)
    requires
        g.wf(),
        r < g@.rows,
        c < g@.cols,
    ensures
        v == resolved(g@, pending_order(*nones), r as int, c as int),
{
    let left = if c > 0 {
        walk(g.line(r, c, VectorDirection::Left), VectorDirection::Left, (r, c - 1), nones)
    } else {
        None
    };
    let down = if r + 1 < g.rows() {
        walk(g.line(r, c, VectorDirection::Down), VectorDirection::Down, (r + 1, c), nones)
    } else {
        None
    };
    let up = if r > 0 {
        walk(g.line(r, c, VectorDirection::Up), VectorDirection::Up, (r - 1, c), nones)
    } else {
        None
    };
    let right = if c + 1 < g.cols() {
        walk(g.line(r, c, VectorDirection::Right), VectorDirection::Right, (r, c + 1), nones)
    } else {
        None
    };
    let ghost ns = pending_order(*nones);
    assert(up == look(g@, ns, r as int, c as int, VectorDirection::Up));
    assert(down == look(g@, ns, r as int, c as int, VectorDirection::Down));
    assert(left == look(g@, ns, r as int, c as int, VectorDirection::Left));
    assert(right == look(g@, ns, r as int, c as int, VectorDirection::Right));
    let mut present: Vec<i64> = Vec::new();
    if let Some(x) = up {
        present.push(x);
    }
    if let Some(x) = down {
        present.push(x);
    }
    if let Some(x) = left {
        present.push(x);
    }
    if let Some(x) = right {
        present.push(x);
    }
    assert(present@ == found(g@, ns, r as int, c as int));
    average(present)
}

/// Fills every coordinate of `nones`, oldest first: each is taken out of
/// the set, then given the rounded mean of what the four walks from it find
/// (`0` when they find nothing), so that later coordinates see the values
/// written for earlier ones.
pub fn repair_array_inplace(nones: LinkedHashSet<Coord>, array: Grid) -> (r: Grid)
    ensures
        r.wf(),
        r@ == repair_spec(array@, pending_order(nones)),
{
    let mut nones = nones;
    let mut array = array;
    let ghost goal = repair_spec(array@, pending_order(nones));
    let rows: usize = array.rows();
    let cols: usize = array.cols();
    while pending_len(&nones) > 0
        invariant
            array.wf(),
            rows == array@.rows,
            cols == array@.cols,
            repair_spec(array@, pending_order(nones)) == goal,
        decreases pending_order(nones).len(),
    {
        if let Some(p) = pending_pop_front(&mut nones) {
            let (r, c) = p;
            if r < rows && c < cols {
                let v = resolve(&array, &nones, r, c);
                array.set(r, c, Some(v));
            }
        }
    }
    array
}

proof fn lemma_no_missing_upto(g: GridView, i: int)
    requires
        0 <= i <= g.cells.len(),
        forall|j: int| 0 <= j < g.cells.len() ==> #[trigger] g.cells[j] is Some,
    ensures
        missing_upto(g, i).len() == 0,
    decreases i,
{
    if i > 0 {
        lemma_no_missing_upto(g, i - 1);
    }
}

/// A grid without missing cells has no coordinates to repair, and repairing
/// it leaves it as it is.
pub proof fn lemma_complete_grid_unchanged(g: GridView)
    requires
        g.wf(),
        forall|r: int, c: int| g.in_bounds(r, c) ==> #[trigger] g.cell(r, c) is Some,
    ensures
        missing_cells(g).len() == 0,
        repair_spec(g, missing_cells(g)) == g,
{
    assert forall|j: int| 0 <= j < g.cells.len() implies #[trigger] g.cells[j] is Some by {
        lemma_fundamental_div_mod(j, g.cols as int);
        lemma_mod_bound(j, g.cols as int);
        lemma_div_pos_is_pos(j, g.cols as int);
        let r = j / g.cols as int;
        let c = j % g.cols as int;
        assert(j == g.cols * r + c);
        if r >= g.rows {
            assert(g.cols * r >= g.cols * g.rows) by (nonlinear_arith)
                requires r >= g.rows, g.cols >= 0;
            assert(g.cols * g.rows == g.rows * g.cols) by (nonlinear_arith);
        }
        assert(r * g.cols == g.cols * r) by (nonlinear_arith);
        assert(g.cell(r, c) is Some);
    }
    lemma_no_missing_upto(g, g.cells.len() as int);
}

proof fn lemma_repair_fills(g: GridView, order: Seq<Coord>)
    requires
        g.wf(),
        g.rows <= usize::MAX,
        g.cols <= usize::MAX,
        forall|r: int, c: int| g.in_bounds(r, c) && #[trigger] g.cell(r, c) is None
            ==> order.contains((r as usize, c as usize)),
    ensures
        forall|r: int, c: int| g.in_bounds(r, c) ==> #[trigger] repair_spec(g, order).cell(r, c) is Some,
    decreases order.len(),
{
    if order.len() > 0 {
        let p = order[0];
        let rest = order.drop_first();
        if g.in_bounds(p.0 as int, p.1 as int) {
            let v = resolved(g, rest, p.0 as int, p.1 as int);
            let g2 = g.with(p.0 as int, p.1 as int, Some(v));
            lemma_index_in_bounds(p.0 as int, p.1 as int, g.rows as int, g.cols as int);
            assert forall|r: int, c: int| g2.in_bounds(r, c) && #[trigger] g2.cell(r, c) is None
                implies rest.contains((r as usize, c as usize)) by {
                lemma_index_in_bounds(r, c, g.rows as int, g.cols as int);
                if r == p.0 && c == p.1 {
                } else {
                    lemma_index_distinct(r, c, p.0 as int, p.1 as int, g.cols as int);
                    assert(g.cell(r, c) is None);
                    let k = choose|k: int| 0 <= k < order.len() && order[k] == (r as usize, c as usize);
                    assert((r as usize, c as usize) != p);
                    assert(k > 0);
                    assert(rest[k - 1] == order[k]);
                }
            }
            lemma_repair_fills(g2, rest);
        } else {
            assert forall|r: int, c: int| g.in_bounds(r, c) && #[trigger] g.cell(r, c) is None
                implies rest.contains((r as usize, c as usize)) by {
                let k = choose|k: int| 0 <= k < order.len() && order[k] == (r as usize, c as usize);
                assert(rest[k - 1] == order[k]);
            }
            lemma_repair_fills(g, rest);
        }
    } else {
        assert forall|r: int, c: int| g.in_bounds(r, c) implies #[trigger] repair_spec(g, order).cell(r, c) is Some by {
            if g.cell(r, c) is None {
                assert(order.contains((r as usize, c as usize)));
            }
        }
    }
}

proof fn lemma_index_distinct(r1: int, c1: int, r2: int, c2: int, cols: int)
    requires
        0 <= c1 < cols,
        0 <= c2 < cols,
        r1 != r2 || c1 != c2,
    ensures
        r1 * cols + c1 != r2 * cols + c2,
{
    if r1 != r2 {
        if r1 < r2 {
            assert(r1 * cols + cols <= r2 * cols) by (nonlinear_arith)
                requires r1 < r2, cols > 0;
        } else {
            assert(r2 * cols + cols <= r1 * cols) by (nonlinear_arith)
                requires r2 < r1, cols > 0;
        }
    }
}

/// After a repair of the missing cells that `find_nones` lists, no cell of
/// the grid is missing.
pub proof fn lemma_repair_leaves_nothing_missing(g: GridView)
    requires
        g.wf(),
        g.rows <= usize::MAX,
        g.cols <= usize::MAX,
        g.cells.len() <= usize::MAX,
    ensures
        repair_spec(g, missing_cells(g)).wf(),
        repair_spec(g, missing_cells(g)).rows == g.rows,
        repair_spec(g, missing_cells(g)).cols == g.cols,
        forall|r: int, c: int| g.in_bounds(r, c) ==> #[trigger] repair_spec(g, missing_cells(g)).cell(r, c) is Some,
{
    lemma_repair_shape(g, missing_cells(g));
    assert forall|r: int, c: int| g.in_bounds(r, c) && #[trigger] g.cell(r, c) is None
        implies missing_cells(g).contains((r as usize, c as usize)) by {
        lemma_index_in_bounds(r, c, g.rows as int, g.cols as int);
        lemma_coord_at(g, r, c);
        lemma_missing_complete(g, g.cells.len() as int, r * g.cols + c);
    }
    lemma_repair_fills(g, missing_cells(g));
}

/// Repairing is a function of the grid and the order of its coordinates:
/// equal inputs give equal grids.
pub proof fn lemma_repair_deterministic(g1: GridView, o1: Seq<Coord>, g2: GridView, o2: Seq<Coord>)
    requires
        g1 == g2,
        o1 == o2,
    ensures
        repair_spec(g1, o1) == repair_spec(g2, o2),
{
}

/// Once `b` is resolved to `v` and no longer pending, the walk to the left
/// from the cell just right of `b` finds `v`: a later cell sees the value
/// written for an earlier one.
pub proof fn lemma_resolved_neighbour_is_seen(g: GridView, b: Coord, v: i64, rest: Seq<Coord>)
    requires
        g.wf(),
        g.in_bounds(b.0 as int, b.1 as int + 1),
        !rest.contains(b),
    ensures
        look(g.with(b.0 as int, b.1 as int, Some(v)), rest, b.0 as int, b.1 as int + 1, VectorDirection::Left)
            == Some(v),
{
    let g2 = g.with(b.0 as int, b.1 as int, Some(v));
    let line = g2.line(b.0 as int, b.1 as int + 1, VectorDirection::Left);
    lemma_index_in_bounds(b.0 as int, b.1 as int, g.rows as int, g.cols as int);
    assert(line[0] == Some(v));
    assert(coord_of(step_from(VectorDirection::Left, (b.0 as int, b.1 as int), 0)) == Some(b));
}

} // verus!
