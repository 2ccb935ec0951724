//! A rectangular grid of bytes, kept in an `array2d::Array2D`.
//!
//! The functions of this module are the only ones that touch the array. Their
//! contracts are stated over `rows_of`, and they are believed, not proved: they
//! say what the source of `array2d` shows.

use vstd::prelude::*;
use array2d::Array2D;

verus! {

#[verifier::external_type_specification]
#[verifier::external_body]
#[verifier::reject_recursive_types(T)]
pub struct ExArray2D<T>(Array2D<T>);

/// The cells of `grid`, row by row: `rows_of(grid)[r][c]` is the cell in row `r`
/// and column `c`. Every row is as long as the grid has columns.
pub uninterp spec fn rows_of(grid: Array2D<u8>) -> Seq<Seq<u8>>;

/// Whether `grid` has a cell in row `row` and column `column`.
pub open spec fn has_cell(grid: Array2D<u8>, row: int, column: int) -> bool {
    0 <= row < rows_of(grid).len() && 0 <= column < rows_of(grid)[row].len()
}

/// Calls `Array2D::filled_with`, which makes a grid of `rows` rows and `columns`
/// columns with `value` in every cell. It multiplies the two numbers and
/// allocates that many cells, so the product has to fit.
#[verifier::external_body]
pub(crate) fn filled(value: u8, rows: usize, columns: usize) -> (grid: Array2D<u8>)
    requires
        rows * columns <= isize::MAX,
    ensures
        rows_of(grid) == Seq::new(rows as nat, |r: int| Seq::new(columns as nat, |c: int| value)),
{
    Array2D::filled_with(value, rows, columns)
}

/// Calls `Index::index` of `Array2D`, which returns the cell at `(row, column)`
/// and panics where the grid has no such cell.
#[verifier::external_body]
pub(crate) fn cell(grid: &Array2D<u8>, row: usize, column: usize) -> (value: u8)
    requires
        has_cell(*grid, row as int, column as int),
    ensures
        value == rows_of(*grid)[row as int][column as int],
{
    grid[(row, column)]
}

/// Calls `IndexMut::index_mut` of `Array2D` and writes `value` through the
/// reference it returns: the cell at `(row, column)` becomes `value` and every
/// other cell stays. It panics where the grid has no such cell.
#[verifier::external_body]
pub(crate) fn put(grid: &mut Array2D<u8>, row: usize, column: usize, value: u8)
    requires
        has_cell(*old(grid), row as int, column as int),
    ensures
        rows_of(*final(grid)) == rows_of(*old(grid)).update(
            row as int,
            rows_of(*old(grid))[row as int].update(column as int, value),
        ),
{
    grid[(row, column)] = value;
}

} // verus!
