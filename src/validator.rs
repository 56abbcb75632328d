use vstd::prelude::*;

use crate::grid::{
    box_cells, box_seq, cells, in_grid, is_digit, is_shaped, is_solution, lemma_cells_index, models,
    peers,
};

verus! {

/// Nine digits, no two equal.
pub open spec fn distinct_digits(s: Seq<char>) -> bool {
    &&& s.len() == 9
    &&& forall|k: int| 0 <= k < 9 ==> is_digit(#[trigger] s[k])
    &&& forall|k1: int, k2: int|
        0 <= k1 < 9 && 0 <= k2 < 9 && k1 != k2 ==> #[trigger] s[k1] != #[trigger] s[k2]
}

/// The nine cells of column `c`, top to bottom.
pub open spec fn column_seq(g: Seq<Seq<char>>, c: int) -> Seq<char> {
    Seq::new(9, |k: int| g[k][c])
}

pub open spec fn rows_and_columns_hold_digits(g: Seq<Seq<char>>) -> bool {
    forall|i: int| 0 <= i < 9 ==> distinct_digits(#[trigger] g[i]) && distinct_digits(column_seq(g, i))
}

pub open spec fn boxes_hold_digits(g: Seq<Seq<char>>) -> bool {
    forall|i: int, j: int|
        0 <= i < 3 && 0 <= j < 3 ==> distinct_digits(#[trigger] box_seq(g, 3 * i, 3 * j))
}

/// Whether the nine characters are nine different digits.
fn all_distinct_digits(v: &Vec<char>) -> (r: bool)
    requires
        v@.len() == 9,
    ensures
        r == distinct_digits(v@),
{
    let mut i: usize = 0;
    while i < 9
        invariant
            v@.len() == 9,
            i <= 9,
            forall|k: int| 0 <= k < i ==> is_digit(#[trigger] v@[k]),
            forall|k1: int, k2: int|
                0 <= k1 < i && 0 <= k2 < 9 && k1 != k2 ==> #[trigger] v@[k1] != #[trigger] v@[k2],
        decreases 9 - i,
    {
        let c = v[i];
        if !(c == '1' || c == '2' || c == '3' || c == '4' || c == '5' || c == '6' || c == '7' || c
            == '8' || c == '9') {
            return false;
        }
        let mut j: usize = 0;
        while j < 9
            invariant
                v@.len() == 9,
                i < 9,
                j <= 9,
                c == v@[i as int],
                forall|k2: int| 0 <= k2 < j && k2 != i ==> v@[i as int] != #[trigger] v@[k2],
            decreases 9 - j,
        {
            if j != i && v[j] == c {
                return false;
            }
            j += 1;
        }
        i += 1;
    }
    true
}

/// Collects the nine cells of column `col`, top to bottom.
fn column_cells(board: &Vec<Vec<char>>, col: usize) -> (r: Vec<char>)
    requires
        is_shaped(cells(*board)),
        col < 9,
    ensures
        r@ == column_seq(cells(*board), col as int),
{
    let ghost g = cells(*board);
    proof {
        lemma_cells_index(*board);
    }
    let mut r: Vec<char> = Vec::new();
    let mut i: usize = 0;
    while i < 9
        invariant
            g == cells(*board),
            models(*board, g),
            is_shaped(g),
            col < 9,
            i <= 9,
            r@.len() == i,
            forall|k: int| 0 <= k < i ==> #[trigger] r@[k] == g[k][col as int],
        decreases 9 - i,
    {
        r.push(board[i][col]);
        i += 1;
    }
    assert(r@ =~= column_seq(g, col as int));
    r
}

/// Whether every row and every column holds nine different digits.
pub fn check_row_col(board: &Vec<Vec<char>>) -> (r: bool)
    requires
        is_shaped(cells(*board)),
    ensures
        r == rows_and_columns_hold_digits(cells(*board)),
{
    let ghost g = cells(*board);
    proof {
        lemma_cells_index(*board);
    }
    let mut i: usize = 0;
    while i < 9
        invariant
            g == cells(*board),
            models(*board, g),
            is_shaped(g),
            i <= 9,
            forall|k: int|
                0 <= k < i ==> distinct_digits(#[trigger] g[k]) && distinct_digits(column_seq(g, k)),
        decreases 9 - i,
    {
        if !all_distinct_digits(&board[i]) {
            return false;
        }
        let column = column_cells(board, i);
        if !all_distinct_digits(&column) {
            return false;
        }
        i += 1;
    }
    true
}

/// Whether every 3x3 box holds nine different digits.
pub fn check_boxes(board: &Vec<Vec<char>>) -> (r: bool)
    requires
        is_shaped(cells(*board)),
    ensures
        r == boxes_hold_digits(cells(*board)),
{
    let ghost g = cells(*board);
    let mut i: usize = 0;
    while i < 3
        invariant
            g == cells(*board),
            is_shaped(g),
            i <= 3,
            forall|a: int, b: int|
                0 <= a < i && 0 <= b < 3 ==> distinct_digits(#[trigger] box_seq(g, 3 * a, 3 * b)),
        decreases 3 - i,
    {
        let mut j: usize = 0;
        while j < 3
            invariant
                g == cells(*board),
                is_shaped(g),
                i < 3,
                j <= 3,
                forall|a: int, b: int|
                    0 <= a < i && 0 <= b < 3 ==> distinct_digits(#[trigger] box_seq(g, 3 * a, 3 * b)),
                forall|b: int| 0 <= b < j ==> distinct_digits(#[trigger] box_seq(g, 3 * i, 3 * b)),
            decreases 3 - j,
        {
            let in_box = box_cells(board, i * 3, j * 3);
            if !all_distinct_digits(&in_box) {
                assert(!distinct_digits(box_seq(g, 3 * (i as int), 3 * (j as int))));
                return false;
            }
            j += 1;
        }
        i += 1;
    }
    true
}

/// A board is a solution exactly when its rows, columns and boxes each hold nine different digits.
pub proof fn lemma_units_iff_solution(g: Seq<Seq<char>>)
    requires
        is_shaped(g),
    ensures
        rows_and_columns_hold_digits(g) && boxes_hold_digits(g) <==> is_solution(g),
{
    if rows_and_columns_hold_digits(g) && boxes_hold_digits(g) {
        assert forall|r: int, c: int| in_grid(r, c) implies is_digit(#[trigger] g[r][c]) by {
            assert(distinct_digits(g[r]));
        }
        assert forall|r1: int, c1: int, r2: int, c2: int|
            in_grid(r1, c1) && in_grid(r2, c2) && peers(r1, c1, r2, c2) implies #[trigger] g[r1][c1]
            != #[trigger] g[r2][c2] by {
            if r1 == r2 {
                assert(distinct_digits(g[r1]));
            } else if c1 == c2 {
                assert(0 <= c1 < 9);
                assert(distinct_digits(g[c1]));
                assert(distinct_digits(column_seq(g, c1)));
                assert(column_seq(g, c1)[r1] == g[r1][c1]);
                assert(column_seq(g, c1)[r2] == g[r2][c2]);
            } else {
                let a = r1 / 3;
                let b = c1 / 3;
                let k1 = 3 * (r1 - 3 * a) + (c1 - 3 * b);
                let k2 = 3 * (r2 - 3 * a) + (c2 - 3 * b);
                assert(k1 / 3 == r1 - 3 * a && k1 % 3 == c1 - 3 * b);
                assert(k2 / 3 == r2 - 3 * a && k2 % 3 == c2 - 3 * b);
                let bs = box_seq(g, 3 * a, 3 * b);
                assert(distinct_digits(bs));
                assert(bs[k1] == g[r1][c1]);
                assert(bs[k2] == g[r2][c2]);
            }
        }
    }
    if is_solution(g) {
        assert forall|i: int| 0 <= i < 9 implies distinct_digits(#[trigger] g[i]) && distinct_digits(
            column_seq(g, i),
        ) by {
            assert forall|k1: int, k2: int|
                0 <= k1 < 9 && 0 <= k2 < 9 && k1 != k2 implies #[trigger] column_seq(g, i)[k1]
                != #[trigger] column_seq(g, i)[k2] by {
                assert(peers(k1, i, k2, i));
                assert(g[k1][i] != g[k2][i]);
            }
            assert forall|k1: int, k2: int|
                0 <= k1 < 9 && 0 <= k2 < 9 && k1 != k2 implies #[trigger] g[i][k1] != #[trigger] g[i][k2] by {
                assert(peers(i, k1, i, k2));
            }
        }
        assert forall|a: int, b: int| 0 <= a < 3 && 0 <= b < 3 implies distinct_digits(
            #[trigger] box_seq(g, 3 * a, 3 * b),
        ) by {
            let bs = box_seq(g, 3 * a, 3 * b);
            assert forall|k1: int, k2: int|
                0 <= k1 < 9 && 0 <= k2 < 9 && k1 != k2 implies #[trigger] bs[k1] != #[trigger] bs[k2] by {
                let r1 = 3 * a + k1 / 3;
                let c1 = 3 * b + k1 % 3;
                let r2 = 3 * a + k2 / 3;
                let c2 = 3 * b + k2 % 3;
                assert(r1 / 3 == a && r2 / 3 == a && c1 / 3 == b && c2 / 3 == b);
                assert(!(r1 == r2 && c1 == c2));
                assert(peers(r1, c1, r2, c2));
                assert(g[r1][c1] != g[r2][c2]);
            }
            assert forall|k: int| 0 <= k < 9 implies is_digit(#[trigger] bs[k]) by {
                assert(in_grid(3 * a + k / 3, 3 * b + k % 3));
            }
        }
    }
}

/// Whether the board is completely filled and each row, column and box holds every digit once.
pub fn is_solved(board: &Vec<Vec<char>>) -> (r: bool)
    requires
        is_shaped(cells(*board)),
    ensures
        r == is_solution(cells(*board)),
{
    proof {
        lemma_units_iff_solution(cells(*board));
    }
    check_row_col(board) && check_boxes(board)
}

} // verus!
