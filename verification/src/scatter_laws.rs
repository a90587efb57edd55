//! What a grid holds, told by its positions.

use vstd::prelude::*;

use crate::scatter::{
    all_on_axis, cell_value, grid_complaint, holds_values, law_last_value_stays,
    law_unwritten_is_empty, on_grid,
};
use crate::text::decimal;

verus! {

/// Positions lie on a grid exactly where each row index is one of the rows and
/// each column index one of the columns, however large the grid is.
pub proof fn law_grid_bounds(at_row: Seq<i32>, at_col: Seq<i32>, rows: nat, cols: nat)
    ensures
        all_on_axis(at_row, rows) <==> forall|i: int|
            0 <= i < at_row.len() ==> 0 <= #[trigger] at_row[i] && at_row[i] < rows,
        all_on_axis(at_col, cols) <==> forall|i: int|
            0 <= i < at_col.len() ==> 0 <= #[trigger] at_col[i] && at_col[i] < cols,
        on_grid(at_row, at_col, rows, cols) <==> all_on_axis(at_row, rows) && all_on_axis(
            at_col,
            cols,
        ),
{
}

/// A matrix has a cell for each row and column, row behind row. A cell holds
/// the last value whose position it is, as that value came, and nothing where
/// it is the position of none.
pub proof fn law_matrix_by_position(
    matrix: Seq<Option<u64>>,
    values: Seq<Option<u64>>,
    at_row: Seq<i32>,
    at_col: Seq<i32>,
    rows: int,
    cols: int,
    row: int,
    col: int,
    i: int,
)
    requires
        holds_values(matrix, values, at_row, at_col, values.len(), rows, cols),
        0 <= row < rows,
        0 <= col < cols,
    ensures
        matrix.len() == rows * cols,
        0 <= row * cols + col < matrix.len(),
        0 <= i < values.len() && at_row[i] == row && at_col[i] == col && (forall|k: int|
            i < k < values.len() ==> !(#[trigger] at_row[k] == row && at_col[k] == col))
            ==> matrix[row * cols + col] == values[i],
        (forall|k: int|
            0 <= k < values.len() ==> !(#[trigger] at_row[k] == row && at_col[k] == col))
            ==> matrix[row * cols + col] is None,
{
    let p = row * cols + col;
    assert(0 <= p < rows * cols) by (nonlinear_arith)
        requires
            p == row * cols + col,
            0 <= row < rows,
            0 <= col < cols,
    ;
    vstd::arithmetic::div_mod::lemma_fundamental_div_mod_converse(p, cols, row, col);
    assert(matrix[p] == cell_value(values, at_row, at_col, values.len(), row, col));
    if 0 <= i < values.len() && at_row[i] == row && at_col[i] == col && (forall|k: int|
        i < k < values.len() ==> !(#[trigger] at_row[k] == row && at_col[k] == col)) {
        law_last_value_stays(values, at_row, at_col, values.len(), i);
    }
    if forall|k: int|
        0 <= k < values.len() ==> !(#[trigger] at_row[k] == row && at_col[k] == col) {
        law_unwritten_is_empty(values, at_row, at_col, values.len(), row, col);
    }
}

/// The complaint about an index column names it and the size of the grid.
pub proof fn law_grid_complaint(what: Seq<char>, rows: nat, cols: nat)
    ensures
        grid_complaint(what, rows, cols) == what + (" holds a position outside the ("@ + (decimal(
            rows,
        ) + (", "@ + (decimal(cols) + ") grid"@)))),
{
    assert(grid_complaint(what, rows, cols) =~= what + (" holds a position outside the ("@ + (
    decimal(rows) + (", "@ + (decimal(cols) + ") grid"@)))));
}

} // verus!
