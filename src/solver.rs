use vstd::prelude::*;

use crate::checker::is_safe;
use crate::grid::{
    cell_at, cells, conflicts, lemma_equal_cells, lemma_later_digit, precedes, extends, givens_agree, is_solution, is_solvable, is_well_formed, digit, digit_rank, in_grid, is_digit, is_shaped, lemma_cells_index, models,
    peers, same_unit, set_cell, spec_digit, EMPTY,
};

verus! {

/// The filled cell `(r, c)` of `s` differs from every peer.
pub open spec fn placed_ok(s: Seq<Seq<char>>, r: int, c: int) -> bool {
    &&& is_digit(s[r][c])
    &&& forall|r2: int, c2: int|
        in_grid(r2, c2) && peers(r, c, r2, c2) ==> #[trigger] s[r2][c2] != s[r][c]
}

/// `s` is a board that the search can reach from `g` when it starts at the row-major
/// position `p` (cell `(r, c)` has position `9 * r + c`): every filled cell and every cell
/// before `p` is kept, and every empty cell from `p` on holds a digit that no peer holds.
pub open spec fn completes_from(g: Seq<Seq<char>>, s: Seq<Seq<char>>, p: int) -> bool {
    &&& is_shaped(g)
    &&& is_shaped(s)
    &&& forall|r: int, c: int|
        in_grid(r, c) && (#[trigger] g[r][c] != EMPTY || 9 * r + c < p) ==> s[r][c] == g[r][c]
    &&& forall|r: int, c: int|
        in_grid(r, c) && #[trigger] g[r][c] == EMPTY && 9 * r + c >= p ==> placed_ok(s, r, c)
}

proof fn lemma_rank_inverse(c: char)
    ensures
        digit_rank(c) < 9 ==> spec_digit(digit_rank(c)) == c,
        is_digit(c) ==> c != EMPTY,
{
}

/// Row-major position `9 * r + c` names cell `(r, c)`.
proof fn lemma_position(r: int, c: int)
    requires
        in_grid(r, c),
    ensures
        (9 * r + c) / 9 == r,
        (9 * r + c) % 9 == c,
{
}

/// A board reached from `p` agrees with the start board at every position before `p`.
proof fn lemma_prefix(g: Seq<Seq<char>>, s: Seq<Seq<char>>, p: int)
    requires
        completes_from(g, s, p),
        p <= 81,
    ensures
        forall|t: int| 0 <= t < p ==> #[trigger] cell_at(s, t) == cell_at(g, t),
{
    assert forall|t: int| 0 <= t < p implies #[trigger] cell_at(s, t) == cell_at(g, t) by {
        let r = t / 9;
        let c = t % 9;
        assert(in_grid(r, c) && 9 * r + c == t);
        assert(g[r][c] != EMPTY || 9 * r + c < p);
    }
}

/// Past the last cell the board itself is the only board reached.
proof fn lemma_end(g: Seq<Seq<char>>)
    requires
        is_shaped(g),
    ensures
        completes_from(g, g, 81),
{
}

/// A filled cell is skipped: starting on it or just after it reaches the same boards.
proof fn lemma_skip_filled(g: Seq<Seq<char>>, s: Seq<Seq<char>>, r: int, c: int)
    requires
        is_shaped(g),
        in_grid(r, c),
        g[r][c] != EMPTY,
    ensures
        completes_from(g, s, 9 * r + c) == completes_from(g, s, 9 * r + c + 1),
{
}

/// A safe digit put in the empty cell at `p` extends to a board reached from `p`.
proof fn lemma_place(g: Seq<Seq<char>>, s: Seq<Seq<char>>, r: int, c: int, v: char)
    requires
        is_shaped(g),
        in_grid(r, c),
        g[r][c] == EMPTY,
        is_digit(v),
        !conflicts(g, r, c, v),
        completes_from(set_cell(g, r, c, v), s, 9 * r + c + 1),
    ensures
        completes_from(g, s, 9 * r + c),
{
    let h = set_cell(g, r, c, v);
    let p = 9 * r + c;
    assert(h[r][c] == v);
    assert(s[r][c] == v);
    assert forall|r1: int, c1: int|
        in_grid(r1, c1) && (#[trigger] g[r1][c1] != EMPTY || 9 * r1 + c1 < p) implies s[r1][c1]
        == g[r1][c1] by {
        assert(h[r1][c1] == g[r1][c1]);
    }
    assert forall|r1: int, c1: int|
        in_grid(r1, c1) && #[trigger] g[r1][c1] == EMPTY && 9 * r1 + c1 >= p implies placed_ok(
        s,
        r1,
        c1,
    ) by {
        if r1 == r && c1 == c {
            assert forall|r2: int, c2: int| in_grid(r2, c2) && peers(r, c, r2, c2) implies #[trigger] s[r2][c2]
                != v by {
                if g[r2][c2] != EMPTY {
                    assert(h[r2][c2] == g[r2][c2]);
                    assert(same_unit(r, c, r2, c2));
                } else if 9 * r2 + c2 < p {
                    assert(h[r2][c2] == g[r2][c2]);
                    lemma_rank_inverse(v);
                } else {
                    assert(h[r2][c2] == EMPTY);
                    assert(placed_ok(s, r2, c2));
                    assert(peers(r2, c2, r, c));
                }
            }
        } else {
            assert(h[r1][c1] == g[r1][c1]);
            assert(placed_ok(s, r1, c1));
        }
    }
}

/// A board reached from the empty cell at `p` holds there a digit that was safe, and is
/// also reached from the next position once that digit is placed.
proof fn lemma_exclude(g: Seq<Seq<char>>, s: Seq<Seq<char>>, r: int, c: int)
    requires
        in_grid(r, c),
        g[r][c] == EMPTY,
        completes_from(g, s, 9 * r + c),
    ensures
        is_digit(s[r][c]),
        !conflicts(g, r, c, s[r][c]),
        completes_from(set_cell(g, r, c, s[r][c]), s, 9 * r + c + 1),
{
    let v = s[r][c];
    let h = set_cell(g, r, c, v);
    let p = 9 * r + c;
    assert(placed_ok(s, r, c));
    lemma_rank_inverse(v);
    if conflicts(g, r, c, v) {
        let (r2, c2) = choose|r2: int, c2: int|
            in_grid(r2, c2) && same_unit(r, c, r2, c2) && #[trigger] g[r2][c2] == v;
        assert(s[r2][c2] == v);
        assert(peers(r, c, r2, c2));
    }
    assert forall|r1: int, c1: int|
        in_grid(r1, c1) && (#[trigger] h[r1][c1] != EMPTY || 9 * r1 + c1 < p + 1) implies s[r1][c1]
        == h[r1][c1] by {
        if !(r1 == r && c1 == c) {
            assert(h[r1][c1] == g[r1][c1]);
        }
    }
    assert forall|r1: int, c1: int|
        in_grid(r1, c1) && #[trigger] h[r1][c1] == EMPTY && 9 * r1 + c1 >= p + 1 implies placed_ok(
        s,
        r1,
        c1,
    ) by {
        assert(h[r1][c1] == g[r1][c1]);
    }
}

/// Backtracking search from cell `(row, col)` in row-major order (`col == 9` stands for the
/// start of the next row). Filled cells are skipped; each empty cell tries the digits in
/// ascending order, keeping the first that is safe and lets the rest of the board be filled.
fn search(board: &mut Vec<Vec<char>>, row: usize, col: usize) -> (solved: bool)
    requires
        is_shaped(cells(*old(board))),
        row < 9,
        col <= 9,
    ensures
        solved == exists|s: Seq<Seq<char>>|
            #[trigger] completes_from(cells(*old(board)), s, 9 * row + col),
        solved ==> completes_from(cells(*old(board)), cells(*final(board)), 9 * row + col),
        solved ==> forall|s: Seq<Seq<char>>|
            #[trigger] completes_from(cells(*old(board)), s, 9 * row + col) ==> !precedes(
                s,
                cells(*final(board)),
            ),
        !solved ==> cells(*final(board)) == cells(*old(board)),
    decreases 81 - (9 * row + col),
{
    let ghost g = cells(*board);
    proof {
        lemma_cells_index(*board);
    }
    if row == 8 && col == 9 {
        proof {
            lemma_end(g);
            assert forall|s: Seq<Seq<char>>| #[trigger] completes_from(g, s, 81) implies !precedes(s, g) by {
                lemma_prefix(g, s, 81);
                lemma_equal_cells(s, g);
            }
        }
        return true;
    }
    let (r, c) = if col == 9 {
        (row + 1, 0)
    } else {
        (row, col)
    };
    let ghost p = 9 * r + c;
    assert(p == 9 * row + col);
    if board[r][c] != EMPTY {
        let solved = search(board, r, c + 1);
        proof {
            if solved {
                lemma_skip_filled(g, cells(*board), r as int, c as int);
                assert forall|s: Seq<Seq<char>>| #[trigger] completes_from(g, s, p) implies !precedes(
                    s,
                    cells(*board),
                ) by {
                    lemma_skip_filled(g, s, r as int, c as int);
                    assert(completes_from(g, s, 9 * r + (c + 1)));
                }
            } else {
                assert forall|s: Seq<Seq<char>>| !#[trigger] completes_from(g, s, p) by {
                    lemma_skip_filled(g, s, r as int, c as int);
                    if completes_from(g, s, p) {
                        assert(completes_from(g, s, 9 * r + (c + 1)));
                    }
                }
            }
        }
        return solved;
    }
    let mut k: usize = 0;
    while k < 9
        invariant
            g == cells(*board),
            g == cells(*old(board)),
            models(*board, g),
            is_shaped(g),
            r < 9,
            c < 9,
            p == 9 * r + c,
            p == 9 * row + col,
            g[r as int][c as int] == EMPTY,
            k <= 9,
            forall|s: Seq<Seq<char>>|
                #[trigger] completes_from(g, s, p) ==> digit_rank(s[r as int][c as int]) >= k,
        decreases 9 - k,
    {
        let value = digit(k);
        proof {
            lemma_rank_inverse(value);
        }
        if is_safe(board, r, c, value) {
            board[r][c] = value;
            proof {
                lemma_cells_index(*board);
                assert(cells(*board) =~~= set_cell(g, r as int, c as int, value));
            }
            if search(board, r, c + 1) {
                proof {
                    let f = cells(*board);
                    lemma_place(g, f, r as int, c as int, value);
                    assert(completes_from(g, f, p));
                    lemma_prefix(g, f, p);
                    lemma_position(r as int, c as int);
                    assert(f[r as int][c as int] == value);
                    assert forall|s: Seq<Seq<char>>| #[trigger] completes_from(g, s, p) implies !precedes(s, f) by {
                        lemma_prefix(g, s, p);
                        if digit_rank(s[r as int][c as int]) == k {
                            lemma_exclude(g, s, r as int, c as int);
                            lemma_rank_inverse(s[r as int][c as int]);
                            assert(completes_from(set_cell(g, r as int, c as int, value), s, 9 * r + (c + 1)));
                        } else {
                            lemma_later_digit(s, f, p);
                        }
                    }
                }
                return true;
            }
        }
        let ghost before = *board;
        board[r][c] = EMPTY;
        proof {
            lemma_cells_index(before);
            lemma_cells_index(*board);
            assert(cells(*board)[r as int] =~= g[r as int]);
            assert(cells(*board) =~~= g);
            assert forall|s: Seq<Seq<char>>| #[trigger]
                completes_from(g, s, p) implies digit_rank(s[r as int][c as int]) >= k + 1 by {
                if digit_rank(s[r as int][c as int]) == k {
                    lemma_exclude(g, s, r as int, c as int);
                    lemma_rank_inverse(s[r as int][c as int]);
                }
            }
        }
        k += 1;
    }
    proof {
        assert forall|s: Seq<Seq<char>>| !#[trigger] completes_from(g, s, p) by {
            if completes_from(g, s, p) {
                assert(placed_ok(s, r as int, c as int));
            }
        }
    }
    false
}

/// A cell is empty, or no peer holds its value.
pub open spec fn cell_agrees(g: Seq<Seq<char>>, r: int, c: int) -> bool {
    g[r][c] == EMPTY || forall|r2: int, c2: int|
        in_grid(r2, c2) && peers(r, c, r2, c2) ==> #[trigger] g[r2][c2] != g[r][c]
}

/// Whether some peer of `(row, col)` holds `value`.
fn peer_holds(board: &Vec<Vec<char>>, row: usize, col: usize, value: char) -> (r: bool)
    requires
        is_shaped(cells(*board)),
        row < 9,
        col < 9,
    ensures
        r == exists|r2: int, c2: int|
            in_grid(r2, c2) && peers(row as int, col as int, r2, c2) && #[trigger] cells(*board)[r2][c2]
                == value,
{
    let ghost g = cells(*board);
    proof {
        lemma_cells_index(*board);
    }
    let mut i: usize = 0;
    while i < 9
        invariant
            g == cells(*board),
            models(*board, g),
            is_shaped(g),
            row < 9,
            col < 9,
            i <= 9,
            forall|a: int, b: int|
                0 <= a < i && 0 <= b < 9 && peers(row as int, col as int, a, b) ==> #[trigger] g[a][b]
                    != value,
        decreases 9 - i,
    {
        let mut j: usize = 0;
        while j < 9
            invariant
                g == cells(*board),
                models(*board, g),
                is_shaped(g),
                row < 9,
                col < 9,
                i < 9,
                j <= 9,
                forall|a: int, b: int|
                    0 <= a < i && 0 <= b < 9 && peers(row as int, col as int, a, b) ==> #[trigger] g[a][b]
                        != value,
                forall|b: int|
                    0 <= b < j && peers(row as int, col as int, i as int, b) ==> #[trigger] g[i as int][b]
                        != value,
            decreases 9 - j,
        {
            let shares = i == row || j == col || (i / 3 == row / 3 && j / 3 == col / 3);
            if shares && !(i == row && j == col) && board[i][j] == value {
                assert(in_grid(i as int, j as int) && peers(row as int, col as int, i as int, j as int));
                return true;
            }
            j += 1;
        }
        i += 1;
    }
    false
}

/// Whether no two peers hold the same filled value.
pub fn givens_consistent(board: &Vec<Vec<char>>) -> (r: bool)
    requires
        is_shaped(cells(*board)),
    ensures
        r == givens_agree(cells(*board)),
{
    let ghost g = cells(*board);
    proof {
        lemma_cells_index(*board);
    }
    let mut i: usize = 0;
    while i < 9
        invariant
            g == cells(*board),
            models(*board, g),
            is_shaped(g),
            i <= 9,
            forall|a: int, b: int| 0 <= a < i && 0 <= b < 9 ==> #[trigger] cell_agrees(g, a, b),
        decreases 9 - i,
    {
        let mut j: usize = 0;
        while j < 9
            invariant
                g == cells(*board),
                models(*board, g),
                is_shaped(g),
                i < 9,
                j <= 9,
                forall|a: int, b: int| 0 <= a < i && 0 <= b < 9 ==> #[trigger] cell_agrees(g, a, b),
                forall|b: int| 0 <= b < j ==> #[trigger] cell_agrees(g, i as int, b),
            decreases 9 - j,
        {
            let value = board[i][j];
            if value != EMPTY && peer_holds(board, i, j, value) {
                proof {
                    let (r2, c2) = choose|r2: int, c2: int|
                        in_grid(r2, c2) && peers(i as int, j as int, r2, c2) && #[trigger] g[r2][c2]
                            == value;
                    assert(g[i as int][j as int] != EMPTY && g[i as int][j as int] == g[r2][c2]);
                }
                return false;
            }
            j += 1;
        }
        i += 1;
    }
    assert forall|r1: int, c1: int, r2: int, c2: int|
        in_grid(r1, c1) && in_grid(r2, c2) && peers(r1, c1, r2, c2) && #[trigger] g[r1][c1] != EMPTY
            implies g[r1][c1] != #[trigger] g[r2][c2] by {
        assert(cell_agrees(g, r1, c1));
    }
    true
}

/// A board reached from the first cell, over givens that agree, is a solution that keeps them.
pub proof fn lemma_completion_is_solution(g: Seq<Seq<char>>, s: Seq<Seq<char>>)
    requires
        is_well_formed(g),
        givens_agree(g),
        completes_from(g, s, 0),
    ensures
        is_solution(s),
        extends(g, s),
{
    assert forall|r: int, c: int| in_grid(r, c) implies is_digit(#[trigger] s[r][c]) by {
        if g[r][c] == EMPTY {
            assert(placed_ok(s, r, c));
        }
    }
    assert forall|r1: int, c1: int, r2: int, c2: int|
        in_grid(r1, c1) && in_grid(r2, c2) && peers(r1, c1, r2, c2) implies #[trigger] s[r1][c1]
        != #[trigger] s[r2][c2] by {
        if g[r1][c1] == EMPTY {
            assert(placed_ok(s, r1, c1));
        } else if g[r2][c2] == EMPTY {
            assert(placed_ok(s, r2, c2));
            assert(peers(r2, c2, r1, c1));
        } else {
            assert(g[r1][c1] != g[r2][c2]);
        }
    }
}

/// Every solution that keeps the filled cells of `g` is reached by the search from the first cell.
pub proof fn lemma_solution_is_completion(g: Seq<Seq<char>>, s: Seq<Seq<char>>)
    requires
        is_solution(s),
        extends(g, s),
    ensures
        completes_from(g, s, 0),
{
}

/// On a well-formed board that has a solution, the search from the first cell can succeed,
/// and every board it reaches from there is a solution that keeps the filled cells.
pub proof fn lemma_search_on_solvable(g: Seq<Seq<char>>)
    requires
        is_well_formed(g),
        is_solvable(g),
    ensures
        givens_agree(g),
        exists|s: Seq<Seq<char>>| #[trigger] completes_from(g, s, 0),
        forall|s: Seq<Seq<char>>| #[trigger]
            completes_from(g, s, 0) ==> is_solution(s) && extends(g, s),
{
    let sol = choose|s: Seq<Seq<char>>| is_solution(s) && #[trigger] extends(g, s);
    lemma_solution_is_completion(g, sol);
    assert forall|r1: int, c1: int, r2: int, c2: int|
        in_grid(r1, c1) && in_grid(r2, c2) && peers(r1, c1, r2, c2) && #[trigger] g[r1][c1] != EMPTY
            implies g[r1][c1] != #[trigger] g[r2][c2] by {
        if g[r2][c2] != EMPTY {
            assert(sol[r1][c1] != sol[r2][c2]);
        } else {
            assert(is_digit(g[r1][c1]));
            lemma_rank_inverse(g[r1][c1]);
        }
    }
    assert forall|s: Seq<Seq<char>>| #[trigger]
        completes_from(g, s, 0) implies is_solution(s) && extends(g, s) by {
        lemma_completion_is_solution(g, s);
    }
}

/// Solves the board from cell `(row, col)` on, in row-major order (`col == 9` stands for
/// the start of the next row). A board whose filled cells already repeat a digit in a row,
/// column or box is rejected before any search. Otherwise filled cells are skipped, and each
/// empty cell tries the digits in ascending order, keeping the first that is safe and lets
/// the rest of the board be filled. On success the board holds the first such filling in
/// row-major order; on failure it is left as it was.
pub fn solve_sudoku(board: &mut Vec<Vec<char>>, row: usize, col: usize) -> (solved: bool)
    requires
        is_shaped(cells(*old(board))),
        row < 9,
        col <= 9,
    ensures
        solved == (givens_agree(cells(*old(board))) && exists|s: Seq<Seq<char>>|
            #[trigger] completes_from(cells(*old(board)), s, 9 * row + col)),
        solved ==> completes_from(cells(*old(board)), cells(*final(board)), 9 * row + col),
        solved ==> forall|s: Seq<Seq<char>>|
            #[trigger] completes_from(cells(*old(board)), s, 9 * row + col) ==> !precedes(
                s,
                cells(*final(board)),
            ),
        solved && row == 0 && col == 0 && is_well_formed(cells(*old(board))) ==> is_solution(
            cells(*final(board)),
        ) && extends(cells(*old(board)), cells(*final(board))),
        !solved ==> cells(*final(board)) == cells(*old(board)),
{
    let ghost g = cells(*board);
    if !givens_consistent(board) {
        return false;
    }
    let solved = search(board, row, col);
    proof {
        if solved && row == 0 && col == 0 && is_well_formed(g) {
            assert(completes_from(g, cells(*board), 0));
            lemma_completion_is_solution(g, cells(*board));
        }
    }
    solved
}

/// Solves the board in place. Returns whether some solution keeps its filled cells; on
/// success the board holds the first such solution in row-major order, and on failure it
/// is left as it was.
pub fn solve(board: &mut Vec<Vec<char>>) -> (solved: bool)
    requires
        is_well_formed(cells(*old(board))),
    ensures
        solved == is_solvable(cells(*old(board))),
        solved ==> is_solution(cells(*final(board))),
        solved ==> extends(cells(*old(board)), cells(*final(board))),
        solved ==> forall|t: Seq<Seq<char>>|
            is_solution(t) && #[trigger] extends(cells(*old(board)), t) ==> !precedes(
                t,
                cells(*final(board)),
            ),
        !solved ==> cells(*final(board)) == cells(*old(board)),
{
    let ghost g = cells(*board);
    let solved = solve_sudoku(board, 0, 0);
    proof {
        let z = 9 * (0usize as int) + (0usize as int);
        if solved {
            assert forall|t: Seq<Seq<char>>|
                is_solution(t) && #[trigger] extends(g, t) implies !precedes(t, cells(*board)) by {
                lemma_solution_is_completion(g, t);
                assert(completes_from(g, t, z));
            }
        } else if is_solvable(g) {
            lemma_search_on_solvable(g);
            let s = choose|s: Seq<Seq<char>>| #[trigger] completes_from(g, s, 0);
            assert(completes_from(g, s, z));
        }
    }
    solved
}

} // verus!
