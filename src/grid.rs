// The grid of optional values: an `ndarray::Array2`, seen by Verus through
// its shape and its cells in row-major order.
use crate::algorithm::{step_from, VectorDirection};
use ndarray::{Array2, ShapeError};
use vstd::prelude::*;

verus! {

/// The mathematical form of a grid: its dimensions and its cells in
/// row-major order.
pub struct GridView {
    pub rows: nat,
    pub cols: nat,
    pub cells: Seq<Option<i64>>,
}

impl GridView {
    /// Whether the cells fill the dimensions exactly.
    pub open spec fn wf(self) -> bool {
        self.cells.len() == self.rows * self.cols
    }

    /// Whether a coordinate lies inside the grid.
    pub open spec fn in_bounds(self, r: int, c: int) -> bool {
        0 <= r < self.rows && 0 <= c < self.cols
    }

    /// The cell at row `r`, column `c`.
    pub open spec fn cell(self, r: int, c: int) -> Option<i64> {
        self.cells[r * self.cols + c]
    }

    /// The grid with the cell at row `r`, column `c` replaced.
    pub open spec fn with(self, r: int, c: int, v: Option<i64>) -> GridView {
        GridView { cells: self.cells.update(r * self.cols + c, v), ..self }
    }

    /// How many cells lie beyond `(r, c)` in direction `d`.
    pub open spec fn reach(self, r: int, c: int, d: VectorDirection) -> int {
        match d {
            VectorDirection::Left => c,
            VectorDirection::Down => self.rows - r - 1,
            VectorDirection::Up => r,
            VectorDirection::Right => self.cols - c - 1,
        }
    }

    /// The cells beyond `(r, c)` in direction `d`, nearest first; the cell
    /// itself is not among them.
    pub open spec fn line(self, r: int, c: int, d: VectorDirection) -> Seq<Option<i64>> {
        Seq::new(
            self.reach(r, c, d) as nat,
            |k: int| {
                let p = step_from(d, (r, c), k + 1);
                self.cell(p.0, p.1)
            },
        )
    }
}

pub proof fn lemma_index_in_bounds(r: int, c: int, rows: int, cols: int)
    requires
        0 <= r < rows,
        0 <= c < cols,
    ensures
        0 <= r * cols + c < rows * cols,
{
    assert(0 <= r * cols) by (nonlinear_arith)
        requires 0 <= r, 0 <= cols;
    assert(r * cols + c < rows * cols) by (nonlinear_arith)
        requires r + 1 <= rows, c < cols, 0 <= c;
}

/// Whether an array of this shape can exist: the product of its non-zero
/// lengths is at most `isize::MAX`.
pub open spec fn shape_fits(rows: usize, cols: usize) -> bool {
    (if rows == 0 { 1 } else { rows as int }) * (if cols == 0 { 1 } else { cols as int }) <= isize::MAX
}

pub(crate) proof fn lemma_fits_bounds_size(rows: usize, cols: usize)
    requires
        shape_fits(rows, cols),
    ensures
        rows * cols <= isize::MAX,
{
    if rows != 0 && cols != 0 {
    } else {
        assert(rows * cols == 0) by (nonlinear_arith)
            requires rows == 0 || cols == 0;
    }
}

#[verifier::external_type_specification]
#[verifier::external_body]
pub struct ExShapeError(ShapeError);

/// A two-dimensional grid of optional values, held in an `ndarray::Array2`
/// that Verus sees through `grid_shape` and `grid_cells` alone.
#[verifier::external_body]
#[derive(Debug, PartialEq)]
pub struct Grid {
    arr: Array2<Option<i64>>,
}

/// The number of rows and columns of a grid.
pub uninterp spec fn grid_shape(g: Grid) -> (usize, usize);

/// The cells of a grid in row-major order.
pub uninterp spec fn grid_cells(g: Grid) -> Seq<Option<i64>>;

impl View for Grid {
    type V = GridView;

    open spec fn view(&self) -> GridView {
        GridView {
            rows: grid_shape(*self).0 as nat,
            cols: grid_shape(*self).1 as nat,
            cells: grid_cells(*self),
        }
    }
}

/// Relies on `Array2::from_shape_vec` with a `(rows, cols)` shape: it fails
/// unless the vector holds `rows * cols` elements and the product of the
/// non-zero lengths is at most `isize::MAX`; the elements are taken in
/// row-major order.
#[verifier::external_body]
fn grid_from_shape_vec(rows: usize, cols: usize, cells: Vec<Option<i64>>) -> (r: Result<Grid, ShapeError>)
    ensures
        r is Ok <==> (cells@.len() == rows * cols && shape_fits(rows, cols)),
        r is Ok ==> grid_shape(r->Ok_0) == (rows, cols) && grid_cells(r->Ok_0) == cells@,
{
    match Array2::from_shape_vec((rows, cols), cells) {
        Ok(arr) => Ok(Grid { arr }),
        Err(e) => Err(e),
    }
}

/// Relies on `ArrayBase::dim`: the shape, whose element count is the length
/// of the cells and which fits `isize`.
#[verifier::external_body]
fn grid_dim(g: &Grid) -> (r: (usize, usize))
    ensures
        r == grid_shape(*g),
        grid_cells(*g).len() == r.0 * r.1,
        shape_fits(r.0, r.1),
{
    g.arr.dim()
}

/// Relies on indexing an `Array2` by `[row, column]`, which panics out of
/// bounds.
#[verifier::external_body]
fn grid_index(g: &Grid, r: usize, c: usize) -> (v: Option<i64>)
    requires
        r < grid_shape(*g).0,
        c < grid_shape(*g).1,
    ensures
        v == grid_cells(*g)[r * grid_shape(*g).1 + c],
{
    g.arr[[r, c]]
}

/// Relies on assigning through `IndexMut` of an `Array2` by
/// `[row, column]`, which panics out of bounds.
#[verifier::external_body]
fn grid_index_set(g: &mut Grid, r: usize, c: usize, v: Option<i64>)
    requires
        r < grid_shape(*old(g)).0,
        c < grid_shape(*old(g)).1,
    ensures
        grid_shape(*final(g)) == grid_shape(*old(g)),
        grid_cells(*final(g)) == grid_cells(*old(g)).update(r * grid_shape(*old(g)).1 + c, v),
{
    g.arr[[r, c]] = v;
}

/// The common length of the rows, taken from the first; `0` without rows.
pub open spec fn width_of(rows: Seq<Vec<Option<i64>>>) -> nat {
    if rows.len() == 0 {
        0
    } else {
        rows[0]@.len()
    }
}

/// Whether all rows have the same length.
pub open spec fn is_rectangular(rows: Seq<Vec<Option<i64>>>) -> bool {
    forall|i: int| 0 <= i < rows.len() ==> #[trigger] rows[i]@.len() == width_of(rows)
}

impl Grid {
    /// Whether the cells fill the shape, and the shape fits `isize`; true
    /// of every grid, as `rows` and `cols` show.
    pub open spec fn wf(&self) -> bool {
        self@.wf() && shape_fits(grid_shape(*self).0, grid_shape(*self).1)
    }

    /// Builds a grid from its rows; `None` when the rows differ in length,
    /// or when the shape is too large for an array. A grid without rows has
    /// no columns either.
    pub fn from_rows(rows: Vec<Vec<Option<i64>>>) -> (r: Option<Grid>)
        ensures
            r is Some <==> is_rectangular(rows@)
                && shape_fits(rows@.len() as usize, width_of(rows@) as usize),
            r matches Some(g) ==> g.wf() && g@.rows == rows@.len() && g@.cols == width_of(rows@)
                && forall|i: int, j: int| g@.in_bounds(i, j) ==> #[trigger] g@.cell(i, j) == rows@[i]@[j],
    {
        let n: usize = rows.len();
        let width: usize = if n == 0 { 0 } else { rows[0].len() };
        let mut cells: Vec<Option<i64>> = Vec::new();
        let mut i: usize = 0;
        while i < n
            invariant
                n == rows@.len(),
                width == width_of(rows@),
                i <= n,
                forall|a: int| 0 <= a < i ==> #[trigger] rows@[a]@.len() == width,
                cells@.len() == i * width,
                forall|a: int, b: int| 0 <= a < i && 0 <= b < width ==>
                    cells@[a * width + b] == #[trigger] rows@[a]@[b],
            decreases n - i,
        {
            if rows[i].len() != width {
                return None;
            }
            let mut j: usize = 0;
            while j < width
                invariant
                    n == rows@.len(),
                    i < n,
                    width == width_of(rows@),
                    rows@[i as int]@.len() == width,
                    j <= width,
                    cells@.len() == i * width + j,
                    forall|a: int, b: int| 0 <= a < i && 0 <= b < width ==>
                        cells@[a * width + b] == #[trigger] rows@[a]@[b],
                    forall|b: int| 0 <= b < j ==> cells@[i * width + b] == #[trigger] rows@[i as int]@[b],
                decreases width - j,
            {
                let ghost prev = cells@;
                cells.push(rows[i][j]);
                proof {
                    assert forall|a: int, b: int| 0 <= a < i && 0 <= b < width implies
                        cells@[a * width + b] == #[trigger] rows@[a]@[b] by {
                        lemma_index_in_bounds(a, b, i as int, width as int);
                        assert(prev[a * width + b] == rows@[a]@[b]);
                    }
                }
                j = j + 1;
            }
            proof {
                assert((i + 1) * width == i * width + width) by (nonlinear_arith);
            }
            i = i + 1;
        }
        match grid_from_shape_vec(n, width, cells) {
            Ok(g) => {
                proof {
                    lemma_fits_bounds_size(n, width);
                }
                Some(g)
            },
            Err(_) => None,
        }
    }

    /// The grid's rows, each a vector of its cells.
    pub fn to_rows(&self) -> (out: Vec<Vec<Option<i64>>>)
        ensures
            out@.len() == self@.rows,
            forall|i: int| 0 <= i < out@.len() ==> (#[trigger] out@[i])@.len() == self@.cols,
            forall|i: int, j: int| self@.in_bounds(i, j) ==> out@[i]@[j] == #[trigger] self@.cell(i, j),
    {
        let (rows, cols) = grid_dim(self);
        let mut out: Vec<Vec<Option<i64>>> = Vec::new();
        let mut i: usize = 0;
        while i < rows
            invariant
                (rows, cols) == grid_shape(*self),
                i <= rows,
                out@.len() == i,
                forall|a: int| 0 <= a < i ==> (#[trigger] out@[a])@.len() == cols,
                forall|a: int, b: int| 0 <= a < i && 0 <= b < cols ==> out@[a]@[b] == #[trigger] self@.cell(a, b),
            decreases rows - i,
        {
            let mut row: Vec<Option<i64>> = Vec::new();
            let mut j: usize = 0;
            while j < cols
                invariant
                    (rows, cols) == grid_shape(*self),
                    i < rows,
                    j <= cols,
                    row@.len() == j,
                    forall|b: int| 0 <= b < j ==> row@[b] == #[trigger] self@.cell(i as int, b),
                decreases cols - j,
            {
                row.push(grid_index(self, i, j));
                j = j + 1;
            }
            out.push(row);
            i = i + 1;
        }
        out
    }

    /// The number of rows; the grid is well formed.
    pub fn rows(&self) -> (r: usize)
        ensures
            r == self@.rows,
            self.wf(),
    {
        grid_dim(self).0
    }

    /// The number of columns; the grid is well formed.
    pub fn cols(&self) -> (r: usize)
        ensures
            r == self@.cols,
            self.wf(),
    {
        grid_dim(self).1
    }

    /// The cell at row `r`, column `c`.
    pub fn get(&self, r: usize, c: usize) -> (v: Option<i64>)
        requires
            r < self@.rows,
            c < self@.cols,
        ensures
            v == self@.cell(r as int, c as int),
    {
        grid_index(self, r, c)
    }

    /// Replaces the cell at row `r`, column `c`.
    pub(crate) fn set(&mut self, r: usize, c: usize, v: Option<i64>)
        requires
            old(self).wf(),
            r < old(self)@.rows,
            c < old(self)@.cols,
        ensures
            final(self).wf(),
            final(self)@ == old(self)@.with(r as int, c as int, v),
    {
        proof {
            lemma_index_in_bounds(r as int, c as int, old(self)@.rows as int, old(self)@.cols as int);
        }
        grid_index_set(self, r, c, v);
    }

    /// The cells beyond `(r, c)` in direction `d`, nearest first.
    pub(crate) fn line(&self, r: usize, c: usize, d: VectorDirection) -> (out: Vec<Option<i64>>)
        requires
            self.wf(),
            r < self@.rows,
            c < self@.cols,
        ensures
            out@ == self@.line(r as int, c as int, d),
    {
        let (rows, cols) = grid_dim(self);
        let n: usize = match d {
            VectorDirection::Left => c,
            VectorDirection::Down => rows - r - 1,
            VectorDirection::Up => r,
            VectorDirection::Right => cols - c - 1,
        };
        let mut out: Vec<Option<i64>> = Vec::new();
        let mut k: usize = 0;
        while k < n
            invariant
                self.wf(),
                r < self@.rows,
                c < self@.cols,
                n == self@.reach(r as int, c as int, d),
                k <= n,
                out@ =~= self@.line(r as int, c as int, d).take(k as int),
            decreases n - k,
        {
            let v = match d {
                VectorDirection::Left => self.get(r, c - 1 - k),
                VectorDirection::Down => self.get(r + 1 + k, c),
                VectorDirection::Up => self.get(r - 1 - k, c),
                VectorDirection::Right => self.get(r, c + 1 + k),
            };
            out.push(v);
            k = k + 1;
            assert(out@ =~= self@.line(r as int, c as int, d).take(k as int));
        }
        out
    }
}

} // verus!
