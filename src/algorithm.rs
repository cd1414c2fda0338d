// Averaging of found values and the directional walker.
//
// Values are fixed-point numbers held in `i64`; an average is rounded to
// the nearest unit, halves away from zero.
use crate::pending::{pending_contains, pending_order, Coord};
use linked_hash_set::LinkedHashSet;
use vstd::arithmetic::div_mod::*;
use vstd::arithmetic::mul::*;
use vstd::prelude::*;

verus! {

/// The sum of a sequence of values.
pub open spec fn sum_of(s: Seq<i64>) -> int
    decreases s.len(),
{
    if s.len() == 0 {
        0
    } else {
        sum_of(s.drop_last()) + s.last()
    }
}

/// `s / n` rounded to the nearest integer, halves away from zero.
pub open spec fn round_div(s: int, n: int) -> int
    recommends
        n > 0,
{
    if s >= 0 {
        if 2 * (s % n) >= n {
            s / n + 1
        } else {
            s / n
        }
    } else {
        if 2 * ((-s) % n) >= n {
            -((-s) / n + 1)
        } else {
            -((-s) / n)
        }
    }
}

/// The mean of a sequence of values, rounded as `round_div` does; `0` for
/// an empty sequence.
pub open spec fn mean_of(s: Seq<i64>) -> int {
    if s.len() == 0 {
        0
    } else {
        round_div(sum_of(s), s.len() as int)
    }
}

proof fn lemma_round_div_nonneg_bounds(s: int, n: int, lo: int, hi: int)
    requires
        n > 0,
        s >= 0,
        lo * n <= s <= hi * n,
    ensures
        lo <= round_div(s, n) <= hi,
{
    lemma_fundamental_div_mod(s, n);
    lemma_mod_bound(s, n);
    let q = s / n;
    let r = s % n;
    assert(s == n * q + r);
    if q > hi {
        assert(q >= hi + 1);
        lemma_mul_inequality(hi + 1, q, n);
        assert((hi + 1) * n == hi * n + n) by (nonlinear_arith);
        assert(n * q == q * n) by (nonlinear_arith);
    }
    if q < lo {
        assert(q + 1 <= lo);
        lemma_mul_inequality(q + 1, lo, n);
        assert((q + 1) * n == q * n + n) by (nonlinear_arith);
        assert(n * q == q * n) by (nonlinear_arith);
    }
    if 2 * r >= n && q == hi {
        assert(n * q == hi * n) by (nonlinear_arith)
            requires q == hi;
    }
}

/// A rounded quotient lies between any bounds of the exact one.
pub proof fn lemma_round_div_bounds(s: int, n: int, lo: int, hi: int)
    requires
        n > 0,
        lo * n <= s <= hi * n,
    ensures
        lo <= round_div(s, n) <= hi,
{
    if s >= 0 {
        lemma_round_div_nonneg_bounds(s, n, lo, hi);
    } else {
        assert((-hi) * n == -(hi * n)) by (nonlinear_arith);
        assert((-lo) * n == -(lo * n)) by (nonlinear_arith);
        lemma_round_div_nonneg_bounds(-s, n, -hi, -lo);
    }
}

proof fn lemma_sum_bounds(s: Seq<i64>)
    ensures
        i64::MIN * s.len() <= sum_of(s) <= i64::MAX * s.len(),
    decreases s.len(),
{
    if s.len() > 0 {
        lemma_sum_bounds(s.drop_last());
        let n = s.len() as int;
        assert(i64::MIN * n == i64::MIN * (n - 1) + i64::MIN) by (nonlinear_arith);
        assert(i64::MAX * n == i64::MAX * (n - 1) + i64::MAX) by (nonlinear_arith);
    }
}

/// The mean of any values fits the value type.
pub proof fn lemma_mean_fits(s: Seq<i64>)
    ensures
        i64::MIN <= mean_of(s) <= i64::MAX,
{
    if s.len() > 0 {
        lemma_sum_bounds(s);
        lemma_round_div_bounds(sum_of(s), s.len() as int, i64::MIN as int, i64::MAX as int);
    }
}

/// The rounded mean of the values; `0` when there are none.
pub fn average(v: Vec<i64>) -> (r: i64)
    ensures
        r == mean_of(v@),
{
    let n: usize = v.len();
    if n == 0 {
        return 0;
    }
    let mut acc: i128 = 0;
    let mut i: usize = 0;
    while i < n
        invariant
            n == v@.len(),
            i <= n,
            acc == sum_of(v@.take(i as int)),
            i64::MIN * i <= acc <= i64::MAX * i,
        decreases n - i,
    {
        proof {
            assert(v@.take(i as int + 1).drop_last() =~= v@.take(i as int));
            assert(i64::MIN * (i + 1) == i64::MIN * i + i64::MIN) by (nonlinear_arith);
            assert(i64::MAX * (i + 1) == i64::MAX * i + i64::MAX) by (nonlinear_arith);
            assert(i64::MAX * (i + 1) <= i64::MAX * 0x1_0000_0000_0000_0000int) by (nonlinear_arith)
                requires i + 1 <= 0x1_0000_0000_0000_0000int;
            assert(i64::MIN * (i + 1) >= i64::MIN * 0x1_0000_0000_0000_0000int) by (nonlinear_arith)
                requires i + 1 <= 0x1_0000_0000_0000_0000int;
        }
        acc = acc + v[i] as i128;
        i = i + 1;
    }
    assert(v@.take(n as int) =~= v@);
    proof {
        lemma_mean_fits(v@);
    }
    let d: i128 = n as i128;
    let res: i128 = if acc >= 0 {
        if 2 * (acc % d) >= d {
            acc / d + 1
        } else {
            acc / d
        }
    } else {
        let a: i128 = -acc;
        if 2 * (a % d) >= d {
            -(a / d + 1)
        } else {
            -(a / d)
        }
    };
    res as i64
}

/// A direction along which a walk leaves its start.
#[derive(Clone, Copy, PartialEq, Eq, Debug)]
pub enum VectorDirection {
    Left,
    Down,
    Up,
    Right,
}

/// The coordinate `k` steps from `start` in direction `d`.
pub open spec fn step_from(d: VectorDirection, start: (int, int), k: int) -> (int, int) {
    match d {
        VectorDirection::Left => (start.0, start.1 - k),
        VectorDirection::Down => (start.0 + k, start.1),
        VectorDirection::Up => (start.0 - k, start.1),
        VectorDirection::Right => (start.0, start.1 + k),
    }
}

/// The `usize` form of a coordinate, where it has one.
pub open spec fn coord_of(p: (int, int)) -> Option<Coord> {
    if 0 <= p.0 <= usize::MAX && 0 <= p.1 <= usize::MAX {
        Some((p.0 as usize, p.1 as usize))
    } else {
        None
    }
}

/// Whether a coordinate (possibly off the index range) is in the set.
pub open spec fn is_pending(nones: Seq<Coord>, p: (int, int)) -> bool {
    match coord_of(p) {
        Some(c) => nones.contains(c),
        None => false,
    }
}

/// Whether position `k` of a walk is taken: its coordinate is not pending
/// and its cell holds a value.
pub open spec fn is_taken(
    cells: Seq<Option<i64>>,
    d: VectorDirection,
    start: (int, int),
    nones: Seq<Coord>,
    k: int,
) -> bool {
    !is_pending(nones, step_from(d, start, k)) && cells[k] is Some
}

/// The result of a walk over `cells[k..]`.
pub open spec fn walk_from(
    cells: Seq<Option<i64>>,
    d: VectorDirection,
    start: (int, int),
    nones: Seq<Coord>,
    k: int,
) -> Option<i64>
    decreases cells.len() - k,
{
    if k < 0 || k >= cells.len() {
        None
    } else if is_taken(cells, d, start, nones, k) {
        cells[k]
    } else {
        walk_from(cells, d, start, nones, k + 1)
    }
}

/// The result of a walk: the first taken cell, if any.
pub open spec fn walk_spec(
    cells: Seq<Option<i64>>,
    d: VectorDirection,
    start: (int, int),
    nones: Seq<Coord>,
) -> Option<i64> {
    walk_from(cells, d, start, nones, 0)
}

proof fn lemma_walk_from_none(
    cells: Seq<Option<i64>>,
    d: VectorDirection,
    start: (int, int),
    nones: Seq<Coord>,
    k: int,
)
    requires
        0 <= k,
        forall|j: int| k <= j < cells.len() ==> !is_taken(cells, d, start, nones, j),
    ensures
        walk_from(cells, d, start, nones, k) is None,
    decreases cells.len() - k,
{
    if k < cells.len() {
        lemma_walk_from_none(cells, d, start, nones, k + 1);
    }
}

proof fn lemma_walk_from_first(
    cells: Seq<Option<i64>>,
    d: VectorDirection,
    start: (int, int),
    nones: Seq<Coord>,
    k: int,
    t: int,
)
    requires
        0 <= k <= t < cells.len(),
        is_taken(cells, d, start, nones, t),
        forall|j: int| k <= j < t ==> !is_taken(cells, d, start, nones, j),
    ensures
        walk_from(cells, d, start, nones, k) == cells[t],
    decreases t - k,
{
    if k < t {
        lemma_walk_from_first(cells, d, start, nones, k + 1, t);
    }
}

/// An empty walk, and a walk over pending coordinates only, find nothing.
pub proof fn lemma_walk_finds_nothing(
    cells: Seq<Option<i64>>,
    d: VectorDirection,
    start: (int, int),
    nones: Seq<Coord>,
)
    requires
        forall|k: int| 0 <= k < cells.len() ==> is_pending(nones, #[trigger] step_from(d, start, k)),
    ensures
        walk_spec(cells, d, start, nones) is None,
{
    lemma_walk_from_none(cells, d, start, nones, 0);
}

/// A walk finds the value at the first coordinate that is not pending,
/// whatever the pending coordinates before it hold.
pub proof fn lemma_walk_takes_first_open(
    cells: Seq<Option<i64>>,
    d: VectorDirection,
    start: (int, int),
    nones: Seq<Coord>,
    t: int,
)
    requires
        0 <= t < cells.len(),
        !is_pending(nones, step_from(d, start, t)),
        cells[t] is Some,
        forall|j: int| 0 <= j < t ==> is_pending(nones, #[trigger] step_from(d, start, j)),
    ensures
        walk_spec(cells, d, start, nones) == cells[t],
{
    lemma_walk_from_first(cells, d, start, nones, 0, t);
}

/// The coordinate `k` steps from `start`, if it has a `usize` form.
fn step_coord(d: VectorDirection, start: Coord, k: usize) -> (r: Option<Coord>)
    ensures
        r == coord_of(step_from(d, (start.0 as int, start.1 as int), k as int)),
{
    match d {
        VectorDirection::Left => if k <= start.1 { Some((start.0, start.1 - k)) } else { None },
        VectorDirection::Down => match start.0.checked_add(k) {
            Some(row) => Some((row, start.1)),
            None => None,
        },
        VectorDirection::Up => if k <= start.0 { Some((start.0 - k, start.1)) } else { None },
        VectorDirection::Right => match start.1.checked_add(k) {
            Some(col) => Some((start.0, col)),
            None => None,
        },
    }
}

/// Walks `vec`, whose cell `k` stands `k` steps from `start` in direction
/// `vec_direc`, and returns the value of the first cell whose coordinate is
/// not in `nones` and that holds a value.
pub fn walk(
    vec: Vec<Option<i64>>,
    vec_direc: VectorDirection,
    start: Coord,
    nones: &LinkedHashSet<Coord>,
) -> (r: Option<i64>)
    ensures
        r == walk_spec(vec@, vec_direc, (start.0 as int, start.1 as int), pending_order(*nones)),
        r matches Some(v) ==> exists|k: int|
            0 <= k < vec@.len() && vec@[k] == Some(v)
                && !is_pending(pending_order(*nones), step_from(vec_direc, (start.0 as int, start.1 as int), k)),
{
    let ghost st = (start.0 as int, start.1 as int);
    let ghost ns = pending_order(*nones);
    let n: usize = vec.len();
    let mut k: usize = 0;
    while k < n
        invariant
            n == vec@.len(),
            k <= n,
            st == (start.0 as int, start.1 as int),
            ns == pending_order(*nones),
            walk_from(vec@, vec_direc, st, ns, 0) == walk_from(vec@, vec_direc, st, ns, k as int),
        decreases n - k,
    {
        let coord = step_coord(vec_direc, start, k);
        let pending = match coord {
            Some(p) => pending_contains(nones, &p),
            None => false,
        };
        assert(pending == is_pending(ns, step_from(vec_direc, st, k as int)));
        if !pending {
            if let Some(v) = vec[k] {
                return Some(v);
            }
        }
        k = k + 1;
    }
    None
}

/// The mean of no values is `0`, of one value that value, and of two
/// values their halved sum, exactly when the sum is even.
pub proof fn lemma_average_small(a: i64, b: i64)
    ensures
        mean_of(Seq::<i64>::empty()) == 0,
        mean_of(seq![a]) == a,
        mean_of(seq![a, b]) == round_div(a + b, 2),
        (a + b) % 2 == 0 ==> mean_of(seq![a, b]) == (a + b) / 2,
{
    assert(seq![a].drop_last() =~= Seq::<i64>::empty());
    assert(sum_of(Seq::<i64>::empty()) == 0);
    assert(seq![a, b].drop_last() =~= seq![a]);
    assert(sum_of(seq![a]) == a);
    assert(sum_of(seq![a, b]) == a + b);
    if a < 0 {
        assert((-(a as int)) % 1 == 0);
        assert((-(a as int)) / 1 == -a);
    }
    if a + b < 0 && (a + b) % 2 == 0 {
        assert((-(a + b)) % 2 == 0);
        assert((-(a + b)) / 2 == -((a + b) / 2));
    }
}

} // verus!
