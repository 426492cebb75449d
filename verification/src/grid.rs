//! A rectangular grid of small integers, kept in an `ndarray` array.

use vstd::prelude::*;

verus! {

/// A two-dimensional array of `i8` cells.
///
/// The cells live in an `ndarray::Array2<i8>`, which the verifier does not
/// look into; `grid_cells` names what it holds.
#[verifier::external_body]
#[derive(Debug, PartialEq, Eq)]
pub struct Grid {
    cells: ndarray::Array2<i8>,
}

/// The cells of a grid, row by row.
pub uninterp spec fn grid_cells(grid: Grid) -> Seq<Seq<i8>>;

/// Whether `cells` has `rows` rows of `cols` cells each.
pub open spec fn rectangular(cells: Seq<Seq<i8>>, rows: nat, cols: nat) -> bool {
    &&& cells.len() == rows
    &&& forall|i: int| 0 <= i < rows ==> (#[trigger] cells[i]).len() == cols
}

/// Whether every cell is -1, 0 or 1.
pub open spec fn small(cells: Seq<Seq<i8>>) -> bool {
    forall|i: int, j: int|
        0 <= i < cells.len() && 0 <= j < cells[i].len() ==> -1 <= #[trigger] cells[i][j] <= 1
}

/// Whether every cell has an opposite, which -128 has not.
pub open spec fn turnable(cells: Seq<Seq<i8>>) -> bool {
    forall|i: int, j: int|
        0 <= i < cells.len() && 0 <= j < cells[i].len() ==> #[trigger] cells[i][j] != i8::MIN
}

/// `rows` rows of `cols` zeros each.
pub open spec fn blank(rows: nat, cols: nat) -> Seq<Seq<i8>> {
    Seq::new(rows, |i: int| Seq::new(cols, |j: int| 0i8))
}

/// `cells` with `value` in row `row` and column `col`.
pub open spec fn placed(cells: Seq<Seq<i8>>, row: int, col: int, value: i8) -> Seq<Seq<i8>> {
    cells.update(row, cells[row].update(col, value))
}

/// `cells` with every cell turned into its opposite.
pub open spec fn negated(cells: Seq<Seq<i8>>) -> Seq<Seq<i8>> {
    Seq::new(cells.len(), |i: int| Seq::new(cells[i].len(), |j: int| (-cells[i][j]) as i8))
}

/// The cells of column `j`, from the first row to the last.
pub open spec fn column(cells: Seq<Seq<i8>>, j: int) -> Seq<i8> {
    Seq::new(cells.len(), |i: int| cells[i][j])
}

/// The sum of the cells of a row or a column.
pub open spec fn total(lane: Seq<i8>) -> int
    decreases lane.len(),
{
    if lane.len() == 0 {
        0
    } else {
        total(lane.drop_last()) + lane.last()
    }
}

impl Clone for Grid {
    /// A grid with the same cells.
    fn clone(&self) -> (copy: Self)
        ensures
            grid_cells(copy) == grid_cells(*self),
    {
        grid_clone(self)
    }
}

impl Grid {
    /// The cells, row by row.
    pub fn rows(&self) -> (rows: Vec<Vec<i8>>)
        ensures
            rows@.len() == grid_cells(*self).len(),
            forall|i: int| 0 <= i < rows@.len() ==> (#[trigger] rows@[i])@ == grid_cells(*self)[i],
    {
        grid_rows(self)
    }
}

/// Makes a grid of zeros with `Array2::zeros`, which builds an array of
/// the given shape in which every element is zero. It panics where the
/// number of elements does not fit an `isize`, which `requires` leaves
/// out.
#[verifier::external_body]
pub(crate) fn grid_zeros(rows: usize, cols: usize) -> (grid: Grid)
    requires
        rows <= isize::MAX,
        cols <= isize::MAX,
        rows * cols <= isize::MAX,
    ensures
        grid_cells(grid) == blank(rows as nat, cols as nat),
{
    Grid { cells: ndarray::Array2::<i8>::zeros([rows, cols]) }
}

/// Copies a grid with the array's `clone`, which copies every element.
#[verifier::external_body]
fn grid_clone(grid: &Grid) -> (copy: Grid)
    ensures
        grid_cells(copy) == grid_cells(*grid),
{
    Grid { cells: grid.cells.clone() }
}

/// Writes one cell through the array's `IndexMut`, which reaches the
/// element at `[row, col]` and panics where that is out of bounds;
/// `requires` leaves that out. No other cell changes.
#[verifier::external_body]
pub(crate) fn grid_set(grid: &mut Grid, row: usize, col: usize, value: i8)
    requires
        row < grid_cells(*old(grid)).len(),
        col < grid_cells(*old(grid))[row as int].len(),
    ensures
        grid_cells(*final(grid)) == placed(grid_cells(*old(grid)), row as int, col as int, value),
{
    grid.cells[[row, col]] = value;
}

/// Hands out the rows with the array's `axis_iter` along axis 0, which
/// yields the rows from first to last, each copied by `to_vec` in the
/// order of its columns.
#[verifier::external_body]
pub(crate) fn grid_rows(grid: &Grid) -> (rows: Vec<Vec<i8>>)
    ensures
        rows@.len() == grid_cells(*grid).len(),
        forall|i: int| 0 <= i < rows@.len() ==> (#[trigger] rows@[i])@ == grid_cells(*grid)[i],
{
    grid.cells.axis_iter(ndarray::Axis(0)).map(|row| row.to_vec()).collect()
}

/// Sums along an axis with the array's `sum_axis`: along axis 0 it gives
/// the sum of each column, along axis 1 the sum of each row. It panics
/// for another axis, and the sums are made in `i8`; `requires` leaves out
/// the other axes and keeps cells and lanes so small that no sum leaves
/// the range of `i8` on the way.
#[verifier::external_body]
pub(crate) fn grid_sum_axis(grid: &Grid, axis: usize) -> (sums: Vec<i8>)
    requires
        axis < 2,
        1 <= grid_cells(*grid).len() <= 127,
        grid_cells(*grid)[0].len() <= 127,
        rectangular(grid_cells(*grid), grid_cells(*grid).len(), grid_cells(*grid)[0].len()),
        small(grid_cells(*grid)),
    ensures
        axis == 0 ==> sums@.len() == grid_cells(*grid)[0].len() && forall|j: int|
            0 <= j < sums@.len() ==> #[trigger] sums@[j] == total(column(grid_cells(*grid), j)),
        axis == 1 ==> sums@.len() == grid_cells(*grid).len() && forall|i: int|
            0 <= i < sums@.len() ==> #[trigger] sums@[i] == total(grid_cells(*grid)[i]),
{
    grid.cells.sum_axis(ndarray::Axis(axis)).to_vec()
}

/// Turns every cell into its opposite with the array's `Neg`, which
/// negates element by element into a new array. The opposite of -128 is
/// no `i8`, so `requires` leaves that cell out.
#[verifier::external_body]
pub(crate) fn grid_negated(grid: &Grid) -> (turned: Grid)
    requires
        turnable(grid_cells(*grid)),
    ensures
        grid_cells(turned) == negated(grid_cells(*grid)),
{
    Grid { cells: -&grid.cells }
}

} // verus!
