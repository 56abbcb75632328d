use vstd::prelude::*;

verus! {

/// The character that marks an empty cell.
pub const EMPTY: char = '.';

/// Position of a digit character among `'1'..='9'`, or 9 for any other character.
pub open spec fn digit_rank(c: char) -> int {
    if c == '1' {
        0
    } else if c == '2' {
        1
    } else if c == '3' {
        2
    } else if c == '4' {
        3
    } else if c == '5' {
        4
    } else if c == '6' {
        5
    } else if c == '7' {
        6
    } else if c == '8' {
        7
    } else if c == '9' {
        8
    } else {
        9
    }
}

/// The digit character of rank `k` (`0 <= k < 9`).
pub open spec fn spec_digit(k: int) -> char {
    if k == 0 {
        '1'
    } else if k == 1 {
        '2'
    } else if k == 2 {
        '3'
    } else if k == 3 {
        '4'
    } else if k == 4 {
        '5'
    } else if k == 5 {
        '6'
    } else if k == 6 {
        '7'
    } else if k == 7 {
        '8'
    } else {
        '9'
    }
}

pub open spec fn is_digit(c: char) -> bool {
    digit_rank(c) < 9
}

/// The digit of rank `k`, counting from `'1'`.
pub fn digit(k: usize) -> (c: char)
    requires
        k < 9,
    ensures
        c == spec_digit(k as int),
        digit_rank(c) == k,
{
    match k {
        0 => '1',
        1 => '2',
        2 => '3',
        3 => '4',
        4 => '5',
        5 => '6',
        6 => '7',
        7 => '8',
        _ => '9',
    }
}

/// The rows of a board, each as a sequence of cell characters.
pub open spec fn cells(board: Vec<Vec<char>>) -> Seq<Seq<char>> {
    board@.map_values(|row: Vec<char>| row@)
}

/// `g` lists the views of the rows of `board`.
pub open spec fn models(board: Vec<Vec<char>>, g: Seq<Seq<char>>) -> bool {
    board@.len() == g.len() && forall|i: int| 0 <= i < g.len() ==> #[trigger] board@[i]@ == g[i]
}

/// Each row of the model is the view of the row vector.
pub proof fn lemma_cells_index(board: Vec<Vec<char>>)
    ensures
        models(board, cells(board)),
{
}

pub open spec fn in_grid(r: int, c: int) -> bool {
    0 <= r < 9 && 0 <= c < 9
}

/// Nine rows of nine cells each.
pub open spec fn is_shaped(g: Seq<Seq<char>>) -> bool {
    g.len() == 9 && forall|r: int| 0 <= r < 9 ==> #[trigger] g[r].len() == 9
}

/// Nine by nine, and every cell empty or a digit.
pub open spec fn is_well_formed(g: Seq<Seq<char>>) -> bool {
    is_shaped(g) && forall|r: int, c: int|
        in_grid(r, c) ==> #[trigger] g[r][c] == EMPTY || is_digit(g[r][c])
}

/// Two cells share a row, a column or a 3x3 box (a cell shares one with itself).
pub open spec fn same_unit(r1: int, c1: int, r2: int, c2: int) -> bool {
    r1 == r2 || c1 == c2 || (r1 / 3 == r2 / 3 && c1 / 3 == c2 / 3)
}

/// Two different cells that share a row, a column or a box.
pub open spec fn peers(r1: int, c1: int, r2: int, c2: int) -> bool {
    same_unit(r1, c1, r2, c2) && !(r1 == r2 && c1 == c2)
}

/// Some cell in the row, column or box of `(r, c)` holds `v`.
pub open spec fn conflicts(g: Seq<Seq<char>>, r: int, c: int, v: char) -> bool {
    exists|r2: int, c2: int| in_grid(r2, c2) && same_unit(r, c, r2, c2) && #[trigger] g[r2][c2] == v
}

/// No two peers hold the same filled value.
pub open spec fn givens_agree(g: Seq<Seq<char>>) -> bool {
    forall|r1: int, c1: int, r2: int, c2: int|
        in_grid(r1, c1) && in_grid(r2, c2) && peers(r1, c1, r2, c2) && #[trigger] g[r1][c1] != EMPTY
            ==> g[r1][c1] != #[trigger] g[r2][c2]
}

/// A completely filled board whose rows, columns and boxes each hold every digit once.
pub open spec fn is_solution(g: Seq<Seq<char>>) -> bool {
    &&& is_shaped(g)
    &&& forall|r: int, c: int| in_grid(r, c) ==> is_digit(#[trigger] g[r][c])
    &&& forall|r1: int, c1: int, r2: int, c2: int|
        in_grid(r1, c1) && in_grid(r2, c2) && peers(r1, c1, r2, c2)
            ==> #[trigger] g[r1][c1] != #[trigger] g[r2][c2]
}

/// `s` keeps every filled cell of `g`.
pub open spec fn extends(g: Seq<Seq<char>>, s: Seq<Seq<char>>) -> bool {
    &&& is_shaped(g)
    &&& is_shaped(s)
    &&& forall|r: int, c: int| in_grid(r, c) && #[trigger] g[r][c] != EMPTY ==> s[r][c] == g[r][c]
}

/// Some solution keeps every filled cell of `g`.
pub open spec fn is_solvable(g: Seq<Seq<char>>) -> bool {
    exists|s: Seq<Seq<char>>| is_solution(s) && #[trigger] extends(g, s)
}

/// The board `g` with cell `(r, c)` set to `v`.
pub open spec fn set_cell(g: Seq<Seq<char>>, r: int, c: int, v: char) -> Seq<Seq<char>> {
    g.update(r, g[r].update(c, v))
}

/// Builds a board from a fixed-size array of rows.
pub fn array_to_vec(arr: [[char; 9]; 9]) -> (board: Vec<Vec<char>>)
    ensures
        is_shaped(cells(board)),
        forall|r: int, c: int| in_grid(r, c) ==> #[trigger] cells(board)[r][c] == arr@[r]@[c],
{
    let mut board: Vec<Vec<char>> = Vec::new();
    let mut i: usize = 0;
    while i < 9
        invariant
            i <= 9,
            board@.len() == i,
            forall|r: int| 0 <= r < i ==> #[trigger] board@[r]@ == arr@[r]@,
        decreases 9 - i,
    {
        let mut row: Vec<char> = Vec::new();
        let mut j: usize = 0;
        while j < 9
            invariant
                i < 9,
                j <= 9,
                row@.len() == j,
                forall|c: int| 0 <= c < j ==> #[trigger] row@[c] == arr@[i as int]@[c],
            decreases 9 - j,
        {
            row.push(arr[i][j]);
            j += 1;
        }
        assert(row@ =~= arr@[i as int]@);
        board.push(row);
        i += 1;
    }
    board
}

/// The nine cells of the box whose top-left corner is `(r0, c0)`, row by row.
pub open spec fn box_seq(g: Seq<Seq<char>>, r0: int, c0: int) -> Seq<char> {
    Seq::new(9, |k: int| g[r0 + k / 3][c0 + k % 3])
}

/// Collects the nine cells of the box whose top-left corner is `(row_shift, col_shift)`.
pub fn box_cells(board: &Vec<Vec<char>>, row_shift: usize, col_shift: usize) -> (r: Vec<char>)
    requires
        is_shaped(cells(*board)),
        row_shift <= 6,
        col_shift <= 6,
    ensures
        r@ == box_seq(cells(*board), row_shift as int, col_shift as int),
{
    let ghost g = cells(*board);
    proof {
        lemma_cells_index(*board);
    }
    let mut r: Vec<char> = Vec::new();
    let mut i: usize = 0;
    while i < 3
        invariant
            g == cells(*board),
            models(*board, g),
            is_shaped(g),
            row_shift <= 6,
            col_shift <= 6,
            i <= 3,
            r@.len() == 3 * i,
            forall|k: int| 0 <= k < 3 * i ==> #[trigger] r@[k] == box_seq(g, row_shift as int, col_shift as int)[k],
        decreases 3 - i,
    {
        let mut j: usize = 0;
        while j < 3
            invariant
                g == cells(*board),
                models(*board, g),
                is_shaped(g),
                row_shift <= 6,
                col_shift <= 6,
                i < 3,
                j <= 3,
                r@.len() == 3 * i + j,
                forall|k: int| 0 <= k < 3 * i + j ==> #[trigger] r@[k] == box_seq(g, row_shift as int, col_shift as int)[k],
            decreases 3 - j,
        {
            proof {
                let k = 3 * i + j;
                assert(k / 3 == i && k % 3 == j);
            }
            r.push(board[row_shift + i][col_shift + j]);
            j += 1;
        }
        i += 1;
    }
    assert(r@ =~= box_seq(g, row_shift as int, col_shift as int));
    r
}

/// The cell at row-major position `p`.
pub open spec fn cell_at(g: Seq<Seq<char>>, p: int) -> char {
    g[p / 9][p % 9]
}

/// How many of the first `n` cells, in row-major order, are filled.
pub open spec fn count_filled_to(g: Seq<Seq<char>>, n: int) -> int
    decreases n,
{
    if n <= 0 {
        0
    } else {
        count_filled_to(g, n - 1) + if cell_at(g, n - 1) != EMPTY {
            1int
        } else {
            0int
        }
    }
}

/// How many cells of the board are filled.
pub open spec fn count_filled(g: Seq<Seq<char>>) -> int {
    count_filled_to(g, 81)
}

/// A board with no empty cell counts 81 filled cells.
pub proof fn lemma_count_full(g: Seq<Seq<char>>, n: int)
    requires
        is_shaped(g),
        0 <= n <= 81,
        forall|r: int, c: int| in_grid(r, c) ==> #[trigger] g[r][c] != EMPTY,
    ensures
        count_filled_to(g, n) == n,
    decreases n,
{
    if n > 0 {
        lemma_count_full(g, n - 1);
        assert(in_grid((n - 1) / 9, (n - 1) % 9));
    }
}

/// Emptying one filled cell lowers the count by one.
pub proof fn lemma_count_clear(g: Seq<Seq<char>>, q: int, n: int)
    requires
        is_shaped(g),
        0 <= q < 81,
        0 <= n <= 81,
        cell_at(g, q) != EMPTY,
    ensures
        count_filled_to(set_cell(g, q / 9, q % 9, EMPTY), n) == count_filled_to(g, n) - if n > q {
            1int
        } else {
            0int
        },
    decreases n,
{
    let h = set_cell(g, q / 9, q % 9, EMPTY);
    if n > 0 {
        lemma_count_clear(g, q, n - 1);
        let p = n - 1;
        if p != q {
            assert(p / 9 != q / 9 || p % 9 != q % 9);
            assert(cell_at(h, p) == cell_at(g, p));
        } else {
            assert(cell_at(h, p) == EMPTY);
        }
    }
}

/// `a` comes before `b` in row-major order: at the first position where their cells differ,
/// `a` holds the smaller digit.
pub open spec fn precedes(a: Seq<Seq<char>>, b: Seq<Seq<char>>) -> bool {
    exists|q: int|
        0 <= q < 81 && (forall|t: int| 0 <= t < q ==> #[trigger] cell_at(a, t) == cell_at(b, t))
            && digit_rank(#[trigger] cell_at(a, q)) < digit_rank(cell_at(b, q))
}

/// Boards that agree up to `p` and where `a` holds the larger digit at `p`: `a` is not first.
pub proof fn lemma_later_digit(a: Seq<Seq<char>>, b: Seq<Seq<char>>, p: int)
    requires
        0 <= p < 81,
        forall|t: int| 0 <= t < p ==> #[trigger] cell_at(a, t) == cell_at(b, t),
        digit_rank(cell_at(a, p)) > digit_rank(cell_at(b, p)),
    ensures
        !precedes(a, b),
{
    if precedes(a, b) {
        let q = choose|q: int|
            0 <= q < 81 && (forall|t: int| 0 <= t < q ==> #[trigger] cell_at(a, t) == cell_at(b, t))
                && digit_rank(#[trigger] cell_at(a, q)) < digit_rank(cell_at(b, q));
        if q > p {
            assert(cell_at(a, p) == cell_at(b, p));
        }
    }
}

/// Boards that agree everywhere: neither comes first.
pub proof fn lemma_equal_cells(a: Seq<Seq<char>>, b: Seq<Seq<char>>)
    requires
        forall|t: int| 0 <= t < 81 ==> #[trigger] cell_at(a, t) == cell_at(b, t),
    ensures
        !precedes(a, b),
{
}

/// The digit at `(r, c)` of a fixed solved board: rows shifted by three, then by one per band.
pub open spec fn pattern_cell(r: int, c: int) -> int {
    (3 * (r % 3) + r / 3 + c) % 9
}

pub open spec fn pattern_grid() -> Seq<Seq<char>> {
    Seq::new(9, |r: int| Seq::new(9, |c: int| spec_digit(pattern_cell(r, c))))
}

proof fn lemma_spec_digit_rank(k: int)
    requires
        0 <= k < 9,
    ensures
        digit_rank(spec_digit(k)) == k,
{
}

/// Peers get different values in the pattern.
proof fn lemma_pattern_distinct(r1: int, c1: int, r2: int, c2: int)
    requires
        in_grid(r1, c1),
        in_grid(r2, c2),
        peers(r1, c1, r2, c2),
    ensures
        pattern_cell(r1, c1) != pattern_cell(r2, c2),
{
    let a1 = r1 % 3;
    let a2 = r2 % 3;
    let x1 = 3 * a1 + r1 / 3;
    let x2 = 3 * a2 + r2 / 3;
    assert(0 <= x1 < 9 && 0 <= x2 < 9);
    if r1 == r2 {
        assert(x1 == x2);
    } else if c1 == c2 {
        assert(r1 == 3 * (r1 / 3) + a1 && r2 == 3 * (r2 / 3) + a2);
        assert(x1 != x2);
    } else {
        assert(r1 / 3 == r2 / 3 && c1 / 3 == c2 / 3);
        assert(a1 != a2 || c1 != c2);
        assert(c1 % 3 != c2 % 3 || c1 == c2);
    }
}

/// The pattern board is a solution.
pub proof fn lemma_pattern_is_solution()
    ensures
        is_solution(pattern_grid()),
{
    let g = pattern_grid();
    assert forall|r: int| 0 <= r < 9 implies #[trigger] g[r].len() == 9 by {}
    assert forall|r: int, c: int| in_grid(r, c) implies is_digit(#[trigger] g[r][c]) by {
        lemma_spec_digit_rank(pattern_cell(r, c));
    }
    assert forall|r1: int, c1: int, r2: int, c2: int|
        in_grid(r1, c1) && in_grid(r2, c2) && peers(r1, c1, r2, c2) implies #[trigger] g[r1][c1]
        != #[trigger] g[r2][c2] by {
        lemma_pattern_distinct(r1, c1, r2, c2);
        lemma_spec_digit_rank(pattern_cell(r1, c1));
        lemma_spec_digit_rank(pattern_cell(r2, c2));
    }
}

/// Builds the pattern board.
pub fn pattern_board() -> (board: Vec<Vec<char>>)
    ensures
        cells(board) == pattern_grid(),
{
    let mut board: Vec<Vec<char>> = Vec::new();
    let mut r: usize = 0;
    while r < 9
        invariant
            r <= 9,
            board@.len() == r,
            forall|i: int| 0 <= i < r ==> #[trigger] board@[i]@ == pattern_grid()[i],
        decreases 9 - r,
    {
        let mut row: Vec<char> = Vec::new();
        let mut c: usize = 0;
        while c < 9
            invariant
                r < 9,
                c <= 9,
                row@.len() == c,
                forall|j: int| 0 <= j < c ==> #[trigger] row@[j] == pattern_grid()[r as int][j],
            decreases 9 - c,
        {
            row.push(digit((3 * (r % 3) + r / 3 + c) % 9));
            c += 1;
        }
        assert(row@ =~= pattern_grid()[r as int]);
        board.push(row);
        r += 1;
    }
    proof {
        lemma_cells_index(board);
    }
    assert(cells(board) =~= pattern_grid());
    board
}

} // verus!
