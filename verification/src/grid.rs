//! Sparse and dense integer matrices of the `matrix` crate, behind the
//! contracts that the solver relies on.
//!
//! Nothing in this module is proved: each function below makes one call into
//! the `matrix` crate, and its contract records what that call does.

use vstd::prelude::*;
use matrix::format::Compressed;
use matrix::format::Conventional;
use matrix::Matrix;

verus! {

/// A sparse matrix of 64-bit integers, stored as a
/// `matrix::format::Compressed<i64>` in compressed-column form.
///
/// The stored matrix can only be reached through the functions of this module,
/// so its index vectors always have the shape that `Compressed` expects.
#[verifier::external_body]
pub struct Grid {
    cells: Compressed<i64>,
}

/// A dense copy of a [`Grid`], stored as a `matrix::format::Conventional<i64>`.
#[verifier::external_body]
pub struct DenseGrid {
    cells: Conventional<i64>,
}

/// The number of rows of the stored matrix (its field `rows`).
pub uninterp spec fn grid_rows(g: Grid) -> nat;

/// The number of columns of the stored matrix (its field `columns`).
pub uninterp spec fn grid_columns(g: Grid) -> nat;

/// The element at every position `(row, column)` inside the matrix, as
/// `Compressed::get` reads it: the stored value, or zero where none is stored.
pub uninterp spec fn grid_cells(g: Grid) -> Map<(int, int), int>;

/// The number of rows of the dense matrix.
pub uninterp spec fn dense_rows(g: DenseGrid) -> nat;

/// The number of columns of the dense matrix.
pub uninterp spec fn dense_columns(g: DenseGrid) -> nat;

/// The element at every position `(row, column)` inside the dense matrix.
pub uninterp spec fn dense_cells(g: DenseGrid) -> Map<(int, int), int>;

/// All positions of a matrix with the given dimensions.
pub open spec fn positions(rows: nat, columns: nat) -> Set<(int, int)> {
    Set::new(|p: (int, int)| 0 <= p.0 < rows && 0 <= p.1 < columns)
}

/// `Matrix::zero` for `Compressed<i64>`: a matrix of the given size in which
/// nothing is stored, so that every element reads as zero. The call allocates
/// `columns + 1` offsets, which is why `columns` must stay below `usize::MAX`.
#[verifier::external_body]
pub(crate) fn grid_zero(rows: usize, columns: usize) -> (g: Grid)
    requires
        columns < usize::MAX,
    ensures
        grid_rows(g) == rows,
        grid_columns(g) == columns,
        grid_cells(g) == Map::new(
            |p: (int, int)| positions(rows as nat, columns as nat).contains(p),
            |p: (int, int)| 0int,
        ),
{
    Grid { cells: Compressed::zero((rows, columns)) }
}

/// The field `rows` of the stored `Compressed`.
#[verifier::external_body]
pub(crate) fn grid_row_count(g: &Grid) -> (n: usize)
    ensures
        n == grid_rows(*g),
{
    g.cells.rows
}

/// The field `columns` of the stored `Compressed`.
#[verifier::external_body]
pub(crate) fn grid_column_count(g: &Grid) -> (n: usize)
    ensures
        n == grid_columns(*g),
{
    g.cells.columns
}

/// `Compressed::get`: the element at `(row, column)`. The position must lie
/// inside the matrix, as the crate asserts.
#[verifier::external_body]
pub(crate) fn grid_get(g: &Grid, row: usize, column: usize) -> (v: i64)
    requires
        row < grid_rows(*g),
        column < grid_columns(*g),
    ensures
        v == grid_cells(*g)[(row as int, column as int)],
{
    g.cells.get((row, column))
}

/// `Compressed::set`: stores `value` at `(row, column)`, zero or not, and
/// leaves the size and every other element as they were.
#[verifier::external_body]
pub(crate) fn grid_set(g: &mut Grid, row: usize, column: usize, value: i64)
    requires
        row < grid_rows(*old(g)),
        column < grid_columns(*old(g)),
    ensures
        grid_rows(*final(g)) == grid_rows(*old(g)),
        grid_columns(*final(g)) == grid_columns(*old(g)),
        grid_cells(*final(g)) == grid_cells(*old(g)).insert((row as int, column as int), value as int),
{
    g.cells.set((row, column), value)
}

/// `Compressed::resize`: the matrix takes the given size; elements at
/// positions that lie inside both the old and the new size keep their value,
/// and every new position reads as zero.
#[verifier::external_body]
pub(crate) fn grid_resize(g: &mut Grid, rows: usize, columns: usize)
    requires
        columns < usize::MAX,
    ensures
        grid_rows(*final(g)) == rows,
        grid_columns(*final(g)) == columns,
        grid_cells(*final(g)) == Map::new(
            |p: (int, int)| positions(rows as nat, columns as nat).contains(p),
            |p: (int, int)|
                if positions(grid_rows(*old(g)), grid_columns(*old(g))).contains(p) {
                    grid_cells(*old(g))[p]
                } else {
                    0int
                },
        ),
{
    g.cells.resize((rows, columns))
}

/// `Clone::clone` of the stored `Compressed`: a matrix of the same size with
/// the same elements.
#[verifier::external_body]
pub(crate) fn grid_clone(g: &Grid) -> (copy: Grid)
    ensures
        grid_rows(copy) == grid_rows(*g),
        grid_columns(copy) == grid_columns(*g),
        grid_cells(copy) == grid_cells(*g),
{
    Grid { cells: g.cells.clone() }
}

/// `Conventional::from(&Compressed)`: the dense matrix of the same size with
/// the same elements. The dense matrix holds `rows * columns` values, a
/// product that must fit in `usize`.
#[verifier::external_body]
pub(crate) fn grid_to_dense(g: &Grid) -> (dense: DenseGrid)
    requires
        grid_rows(*g) * grid_columns(*g) <= usize::MAX,
    ensures
        dense_rows(dense) == grid_rows(*g),
        dense_columns(dense) == grid_columns(*g),
        dense_cells(dense) == grid_cells(*g),
{
    DenseGrid { cells: Conventional::from(&g.cells) }
}

/// Indexing a `Conventional` by `(row, column)`: the element at that position,
/// which must lie inside the matrix.
#[verifier::external_body]
pub(crate) fn dense_get(g: &DenseGrid, row: usize, column: usize) -> (v: i64)
    requires
        row < dense_rows(*g),
        column < dense_columns(*g),
    ensures
        v == dense_cells(*g)[(row as int, column as int)],
{
    g.cells[(row, column)]
}

} // verus!
