//! Scattering a long column onto a dense grid.
//!
//! A value column is written into a matrix of `rows` by `cols` cells at the
//! positions that two index columns give. A cell that nothing is written to
//! is empty, and of several values for one cell the last stays. The matrix is
//! laid out row by row.
//!
//! Values are carried as they come, by their bits.

use vstd::prelude::*;

use crate::text::{decimal, decimal_text, joined};

verus! {

/// Whether an index lies on an axis of a grid.
pub open spec fn on_axis(index: i32, limit: nat) -> bool {
    0 <= index < limit
}

/// Whether all indices lie on an axis of a grid.
pub open spec fn all_on_axis(indices: Seq<i32>, limit: nat) -> bool {
    forall|i: int| 0 <= i < indices.len() ==> on_axis(#[trigger] indices[i], limit)
}

/// The complaint about an index column that leaves the grid.
pub open spec fn grid_complaint(what: Seq<char>, rows: nat, cols: nat) -> Seq<char> {
    what + " holds a position outside the ("@ + decimal(rows) + ", "@ + decimal(cols) + ") grid"@
}

/// Refuses an index column that leaves the grid.
pub fn check_axis(
    indices: &[i32],
    limit: usize,
    what: &str,
    rows: usize,
    cols: usize,
) -> (r: Result<(), String>)
    ensures
        r is Ok <==> all_on_axis(indices@, limit as nat),
        r is Ok <==> forall|i: int|
            0 <= i < indices@.len() ==> 0 <= #[trigger] indices@[i] && indices@[i] < limit,
        r matches Err(e) ==> e@ == grid_complaint(what@, rows as nat, cols as nat),
{
    let mut i: usize = 0;
    while i < indices.len()
        invariant
            i <= indices@.len(),
            forall|k: int| 0 <= k < i ==> on_axis(#[trigger] indices@[k], limit as nat),
        decreases indices@.len() - i,
    {
        let index: i32 = indices[i];
        if index < 0 || index as usize >= limit {
            assert(!on_axis(indices@[i as int], limit as nat));
            let mut e = joined(what, " holds a position outside the (");
            e.append(decimal_text(rows).as_str());
            e.append(", ");
            e.append(decimal_text(cols).as_str());
            e.append(") grid");
            return Err(e);
        }
        i = i + 1;
    }
    Ok(())
}

/// What stands in a cell when the first `n` values are written: the last of
/// them that goes there.
pub open spec fn cell_value(
    values: Seq<Option<u64>>,
    at_row: Seq<i32>,
    at_col: Seq<i32>,
    n: nat,
    row: int,
    col: int,
) -> Option<u64>
    decreases n,
{
    if n == 0 {
        None
    } else if at_row[n - 1] == row && at_col[n - 1] == col {
        values[n - 1]
    } else {
        cell_value(values, at_row, at_col, (n - 1) as nat, row, col)
    }
}

/// Whether a matrix holds what the first `n` values write.
pub open spec fn holds_values(
    matrix: Seq<Option<u64>>,
    values: Seq<Option<u64>>,
    at_row: Seq<i32>,
    at_col: Seq<i32>,
    n: nat,
    rows: int,
    cols: int,
) -> bool {
    &&& matrix.len() == rows * cols
    &&& forall|p: int|
        0 <= p < matrix.len() ==> #[trigger] matrix[p] == cell_value(
            values,
            at_row,
            at_col,
            n,
            p / cols,
            p % cols,
        )
}

/// A cell of a grid has a place of its own.
proof fn lemma_place(row: int, col: int, rows: int, cols: int)
    requires
        0 <= row < rows,
        0 <= col < cols,
    ensures
        0 <= row * cols + col < rows * cols,
        (row * cols + col) / cols == row,
        (row * cols + col) % cols == col,
{
    assert(row * cols + col < rows * cols) by (nonlinear_arith)
        requires
            0 <= row < rows,
            0 <= col < cols,
    ;
    assert(0 <= row * cols) by (nonlinear_arith)
        requires
            0 <= row,
            0 <= cols,
    ;
    vstd::arithmetic::div_mod::lemma_fundamental_div_mod_converse(
        row * cols + col,
        cols,
        row,
        col,
    );
}

/// The matrix of a value column.
pub fn fill(
    values: &[Option<u64>],
    at_row: &[i32],
    at_col: &[i32],
    rows: usize,
    cols: usize,
) -> (r: Vec<Option<u64>>)
    requires
        values@.len() == at_row@.len() == at_col@.len(),
        all_on_axis(at_row@, rows as nat),
        all_on_axis(at_col@, cols as nat),
        rows * cols <= usize::MAX,
    ensures
        holds_values(
            r@,
            values@,
            at_row@,
            at_col@,
            values@.len(),
            rows as int,
            cols as int,
        ),
{
    let size: usize = rows * cols;
    let mut matrix: Vec<Option<u64>> = Vec::new();
    let mut p: usize = 0;
    while p < size
        invariant
            p <= size,
            matrix@.len() == p,
            forall|k: int| 0 <= k < p ==> (#[trigger] matrix@[k]) is None,
        decreases size - p,
    {
        matrix.push(None);
        p = p + 1;
    }
    let mut i: usize = 0;
    while i < values.len()
        invariant
            values@.len() == at_row@.len() == at_col@.len(),
            all_on_axis(at_row@, rows as nat),
            all_on_axis(at_col@, cols as nat),
            size == rows * cols,
            i <= values@.len(),
            holds_values(
                matrix@,
                values@,
                at_row@,
                at_col@,
                i as nat,
                rows as int,
                cols as int,
            ),
        decreases values@.len() - i,
    {
        assert(on_axis(at_row@[i as int], rows as nat));
        assert(on_axis(at_col@[i as int], cols as nat));
        let row: usize = at_row[i] as usize;
        let col: usize = at_col[i] as usize;
        proof {
            lemma_place(row as int, col as int, rows as int, cols as int);
            assert(row * cols <= size);
        }
        let place: usize = row * cols + col;
        let ghost before = matrix@;
        matrix.set(place, values[i]);
        proof {
            assert forall|p: int| 0 <= p < matrix@.len() implies #[trigger] matrix@[p]
                == cell_value(
                values@,
                at_row@,
                at_col@,
                (i + 1) as nat,
                p / cols as int,
                p % cols as int,
            ) by {
                vstd::arithmetic::div_mod::lemma_fundamental_div_mod(p, cols as int);
                assert(cols as int * (p / cols as int) == (p / cols as int) * cols as int)
                    by (nonlinear_arith);
                if p != place {
                    assert(matrix@[p] == before[p]);
                }
            }
        }
        i = i + 1;
    }
    matrix
}

/// Whether both index columns lie on the grid.
pub open spec fn on_grid(at_row: Seq<i32>, at_col: Seq<i32>, rows: nat, cols: nat) -> bool {
    all_on_axis(at_row, rows) && all_on_axis(at_col, cols)
}

/// The matrices of value columns that share their positions.
pub fn scatter(
    columns: &[Vec<Option<u64>>],
    at_row: &[i32],
    at_col: &[i32],
    rows: usize,
    cols: usize,
) -> (r: Result<Vec<Vec<Option<u64>>>, String>)
    requires
        at_row@.len() == at_col@.len(),
        forall|k: int|
            0 <= k < columns@.len() ==> (#[trigger] columns@[k])@.len() == at_row@.len(),
        rows * cols <= usize::MAX,
    ensures
        r is Ok <==> on_grid(at_row@, at_col@, rows as nat, cols as nat),
        r is Ok <==> (forall|i: int|
            0 <= i < at_row@.len() ==> 0 <= #[trigger] at_row@[i] && at_row@[i] < rows) && (
        forall|i: int|
            0 <= i < at_col@.len() ==> 0 <= #[trigger] at_col@[i] && at_col@[i] < cols),
        r matches Ok(all) ==> all@.len() == columns@.len() && forall|k: int|
            0 <= k < all@.len() ==> holds_values(
                (#[trigger] all@[k])@,
                columns@[k]@,
                at_row@,
                at_col@,
                at_row@.len(),
                rows as int,
                cols as int,
            ),
        r matches Err(e) ==> e@ == grid_complaint(
            if all_on_axis(at_row@, rows as nat) {
                "_col"@
            } else {
                "_row"@
            },
            rows as nat,
            cols as nat,
        ),
{
    match check_axis(at_row, rows, "_row", rows, cols) {
        Ok(_) => {},
        Err(e) => {
            return Err(e);
        },
    }
    match check_axis(at_col, cols, "_col", rows, cols) {
        Ok(_) => {},
        Err(e) => {
            return Err(e);
        },
    }
    let mut all: Vec<Vec<Option<u64>>> = Vec::new();
    let mut k: usize = 0;
    while k < columns.len()
        invariant
            at_row@.len() == at_col@.len(),
            forall|k: int|
                0 <= k < columns@.len() ==> (#[trigger] columns@[k])@.len() == at_row@.len(),
            rows * cols <= usize::MAX,
            all_on_axis(at_row@, rows as nat),
            all_on_axis(at_col@, cols as nat),
            k <= columns@.len(),
            all@.len() == k,
            forall|j: int|
                0 <= j < k ==> holds_values(
                    (#[trigger] all@[j])@,
                    columns@[j]@,
                    at_row@,
                    at_col@,
                    at_row@.len(),
                    rows as int,
                    cols as int,
                ),
        decreases columns@.len() - k,
    {
        all.push(fill(columns[k].as_slice(), at_row, at_col, rows, cols));
        k = k + 1;
    }
    Ok(all)
}

/// Of several values for one cell the last stays.
pub proof fn law_last_value_stays(
    values: Seq<Option<u64>>,
    at_row: Seq<i32>,
    at_col: Seq<i32>,
    n: nat,
    i: int,
)
    requires
        0 <= i < n,
        forall|k: int|
            i < k < n ==> (#[trigger] at_row[k]) != at_row[i] || at_col[k] != at_col[i],
    ensures
        cell_value(values, at_row, at_col, n, at_row[i] as int, at_col[i] as int) == values[i],
    decreases n,
{
    if n - 1 > i {
        assert(at_row[n - 1] != at_row[i] || at_col[n - 1] != at_col[i]);
        law_last_value_stays(values, at_row, at_col, (n - 1) as nat, i);
    }
}

/// A cell that nothing is written to is empty.
pub proof fn law_unwritten_is_empty(
    values: Seq<Option<u64>>,
    at_row: Seq<i32>,
    at_col: Seq<i32>,
    n: nat,
    row: int,
    col: int,
)
    requires
        forall|k: int| 0 <= k < n ==> (#[trigger] at_row[k]) != row || at_col[k] != col,
    ensures
        cell_value(values, at_row, at_col, n, row, col) is None,
    decreases n,
{
    if n > 0 {
        assert(at_row[n - 1] != row || at_col[n - 1] != col);
        law_unwritten_is_empty(values, at_row, at_col, (n - 1) as nat, row, col);
    }
}

} // verus!
