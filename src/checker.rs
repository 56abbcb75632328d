use vstd::prelude::*;

use crate::grid::{box_cells, box_seq, cells, lemma_cells_index, models, conflicts, in_grid, is_shaped, same_unit};

verus! {

/// Decides whether `value` may be placed at `(row, col)`: false exactly when the row, the
/// column or the box of that cell already holds it.
pub fn is_safe(board: &Vec<Vec<char>>, row: usize, col: usize, value: char) -> (r: bool)
    requires
        is_shaped(cells(*board)),
        row < 9,
        col < 9,
    ensures
        r == !conflicts(cells(*board), row as int, col as int, value),
{
    let ghost g = cells(*board);
    proof {
        lemma_cells_index(*board);
    }
    let mut i: usize = 0;
    while i < 9
        invariant
            g == cells(*board),
            models(*board, g),
            is_shaped(g),
            row < 9,
            col < 9,
            i <= 9,
            forall|k: int| 0 <= k < i ==> #[trigger] g[k][col as int] != value,
            forall|k: int| 0 <= k < i ==> #[trigger] g[row as int][k] != value,
        decreases 9 - i,
    {
        if board[i][col] == value {
            assert(in_grid(i as int, col as int) && same_unit(row as int, col as int, i as int, col as int));
            return false;
        }
        if board[row][i] == value {
            assert(in_grid(row as int, i as int) && same_unit(row as int, col as int, row as int, i as int));
            return false;
        }
        i += 1;
    }
    let row_shift = row / 3 * 3;
    let col_shift = col / 3 * 3;
    let in_box = box_cells(board, row_shift, col_shift);
    let ghost bs = box_seq(g, row_shift as int, col_shift as int);
    let mut k: usize = 0;
    while k < 9
        invariant
            in_box@ == bs,
            bs == box_seq(g, row_shift as int, col_shift as int),
            g == cells(*board),
            is_shaped(g),
            row < 9,
            col < 9,
            row_shift == row / 3 * 3,
            col_shift == col / 3 * 3,
            k <= 9,
            forall|m: int| 0 <= m < k ==> #[trigger] bs[m] != value,
        decreases 9 - k,
    {
        if in_box[k] == value {
            let ghost r2 = row_shift as int + (k as int) / 3;
            let ghost c2 = col_shift as int + (k as int) % 3;
            assert(g[r2][c2] == value);
            assert(0 <= (k as int) / 3 < 3 && 0 <= (k as int) % 3 < 3);
            assert(r2 / 3 == row / 3 && c2 / 3 == col / 3);
            assert(in_grid(r2, c2) && same_unit(row as int, col as int, r2, c2));
            return false;
        }
        k += 1;
    }
    assert forall|r2: int, c2: int| in_grid(r2, c2) && same_unit(row as int, col as int, r2, c2)
        implies #[trigger] g[r2][c2] != value by {
        if r2 == row {
            assert(g[row as int][c2] != value);
        } else if c2 == col {
            assert(g[r2][col as int] != value);
        } else {
            let m = 3 * (r2 - row_shift) + (c2 - col_shift);
            assert(0 <= r2 - row_shift < 3 && 0 <= c2 - col_shift < 3);
            assert(m / 3 == r2 - row_shift && m % 3 == c2 - col_shift);
            assert(bs[m] != value);
        }
    }
    true
}

} // verus!
