use vstd::prelude::*;

use rand::seq::SliceRandom;
use rand::Rng;

use crate::grid::{
    cell_at, cells, count_filled, digit, digit_rank, extends, in_grid, is_digit,
    is_solution, is_solvable, is_well_formed, lemma_cells_index, lemma_count_clear,
    lemma_count_full, lemma_pattern_is_solution, models, pattern_board, pattern_grid, precedes,
    set_cell, spec_digit, EMPTY,
};
use crate::solver::solve;

verus! {

/// The digits `'1'..='9'` in ascending order.
pub open spec fn digit_seq() -> Seq<char> {
    Seq::new(9, |k: int| spec_digit(k))
}

/// `s` holds each digit exactly once, in some order.
pub open spec fn is_digit_permutation(s: Seq<char>) -> bool {
    s.to_multiset() == digit_seq().to_multiset()
}

/// Cell `(r, c)` of the board seeded with `a`, `b` and `d` in the three boxes of the main
/// diagonal (each filled row by row); every other cell is empty.
pub open spec fn seed_cell(a: Seq<char>, b: Seq<char>, d: Seq<char>, r: int, c: int) -> char {
    if r / 3 == c / 3 {
        let k = 3 * (r % 3) + c % 3;
        if r / 3 == 0 {
            a[k]
        } else if r / 3 == 1 {
            b[k]
        } else {
            d[k]
        }
    } else {
        EMPTY
    }
}

pub open spec fn seeded(a: Seq<char>, b: Seq<char>, d: Seq<char>) -> Seq<Seq<char>> {
    Seq::new(9, |r: int| Seq::new(9, |c: int| seed_cell(a, b, d, r, c)))
}

/// `sol` is the full board that the generator empties cells of, for the diagonal boxes
/// `a`, `b` and `d`: the first solution in row-major order that keeps the seeded cells, or
/// the pattern board when no solution keeps them.
pub open spec fn is_full_board_for(a: Seq<char>, b: Seq<char>, d: Seq<char>, sol: Seq<Seq<char>>) -> bool {
    if is_solvable(seeded(a, b, d)) {
        &&& is_solution(sol)
        &&& extends(seeded(a, b, d), sol)
        &&& forall|t: Seq<Seq<char>>|
            is_solution(t) && #[trigger] extends(seeded(a, b, d), t) ==> !precedes(t, sol)
    } else {
        sol == pattern_grid()
    }
}

/// Relies on `rand::seq::SliceRandom::shuffle` with `rand::thread_rng()`: it only swaps
/// elements, so the result is a rearrangement of the input.
#[verifier::external_body]
fn shuffle_values(values: &mut Vec<char>)
    ensures
        final(values)@.len() == old(values)@.len(),
        final(values)@.to_multiset() == old(values)@.to_multiset(),
{
    values.shuffle(&mut rand::thread_rng());
}

/// Relies on `rand::Rng::gen_range` with `rand::thread_rng()`: a value of `0..bound`, a range
/// that must not be empty.
#[verifier::external_body]
fn random_below(bound: usize) -> (r: usize)
    requires
        bound > 0,
    ensures
        r < bound,
{
    rand::thread_rng().gen_range(0..bound)
}

/// The digits `'1'..='9'` in ascending order.
pub fn all_digits() -> (v: Vec<char>)
    ensures
        v@ == digit_seq(),
{
    let mut v: Vec<char> = Vec::new();
    let mut k: usize = 0;
    while k < 9
        invariant
            k <= 9,
            v@.len() == k,
            forall|i: int| 0 <= i < k ==> #[trigger] v@[i] == spec_digit(i),
        decreases 9 - k,
    {
        v.push(digit(k));
        k += 1;
    }
    assert(v@ =~= digit_seq());
    v
}

/// Every element of a permutation of the digits is a digit.
proof fn lemma_permutation_digits(s: Seq<char>)
    requires
        is_digit_permutation(s),
    ensures
        s.len() == 9,
        forall|k: int| 0 <= k < s.len() ==> is_digit(#[trigger] s[k]),
{
    broadcast use vstd::seq_lib::group_to_multiset_ensures;

    assert(s.to_multiset().len() == digit_seq().to_multiset().len());
    assert(s.len() == digit_seq().len());
    assert forall|k: int| 0 <= k < s.len() implies is_digit(#[trigger] s[k]) by {
        assert(s.contains(s[k]));
        assert(s.to_multiset().count(s[k]) > 0);
        assert(digit_seq().to_multiset().count(s[k]) > 0);
        assert(digit_seq().contains(s[k]));
        let j = choose|j: int| 0 <= j < 9 && digit_seq()[j] == s[k];
        assert(digit_rank(spec_digit(j)) == j);
    }
}

/// An empty board but for the three boxes of the main diagonal, filled row by row from
/// `first`, `second` and `third`.
pub fn seeded_grid(first: &Vec<char>, second: &Vec<char>, third: &Vec<char>) -> (board: Vec<
    Vec<char>,
>)
    requires
        first@.len() == 9,
        second@.len() == 9,
        third@.len() == 9,
    ensures
        cells(board) == seeded(first@, second@, third@),
{
    let ghost want = seeded(first@, second@, third@);
    let mut board: Vec<Vec<char>> = Vec::new();
    let mut r: usize = 0;
    while r < 9
        invariant
            first@.len() == 9,
            second@.len() == 9,
            third@.len() == 9,
            want == seeded(first@, second@, third@),
            r <= 9,
            board@.len() == r,
            forall|i: int| 0 <= i < r ==> #[trigger] board@[i]@ == want[i],
        decreases 9 - r,
    {
        let mut row: Vec<char> = Vec::new();
        let mut c: usize = 0;
        while c < 9
            invariant
                first@.len() == 9,
                second@.len() == 9,
                third@.len() == 9,
                want == seeded(first@, second@, third@),
                r < 9,
                c <= 9,
                row@.len() == c,
                forall|j: int| 0 <= j < c ==> #[trigger] row@[j] == want[r as int][j],
            decreases 9 - c,
        {
            let value = if r / 3 == c / 3 {
                let k = 3 * (r % 3) + c % 3;
                if r / 3 == 0 {
                    first[k]
                } else if r / 3 == 1 {
                    second[k]
                } else {
                    third[k]
                }
            } else {
                EMPTY
            };
            row.push(value);
            c += 1;
        }
        assert(row@ =~= want[r as int]);
        board.push(row);
        r += 1;
    }
    proof {
        lemma_cells_index(board);
    }
    assert(cells(board) =~= want);
    board
}

/// Generates a puzzle with `number_of_entries` filled cells: the three boxes of the main
/// diagonal are seeded with shuffled digits, the board is solved (falling back to the
/// pattern board should the seeding have no solution), and then cells chosen at random
/// among the filled ones are emptied until `number_of_entries` remain. Returns `None` for
/// more than 81 entries.
pub fn generate_sudoku(number_of_entries: usize) -> (puzzle: Option<Vec<Vec<char>>>)
    ensures
        puzzle is None <==> number_of_entries > 81,
        puzzle matches Some(g) ==> is_well_formed(cells(g)),
        puzzle matches Some(g) ==> count_filled(cells(g)) == number_of_entries,
        puzzle matches Some(g) ==> is_solvable(cells(g)),
        puzzle matches Some(g) ==> exists|a: Seq<char>, b: Seq<char>, d: Seq<char>, sol: Seq<Seq<char>>|
            is_digit_permutation(a) && is_digit_permutation(b) && is_digit_permutation(d)
                && #[trigger] is_full_board_for(a, b, d, sol) && extends(cells(g), sol),
{
    if number_of_entries > 81 {
        return None;
    }
    let mut first = all_digits();
    shuffle_values(&mut first);
    let mut second = all_digits();
    shuffle_values(&mut second);
    let mut third = all_digits();
    shuffle_values(&mut third);
    let mut board = seeded_grid(&first, &second, &third);
    proof {
        lemma_permutation_digits(first@);
        lemma_permutation_digits(second@);
        lemma_permutation_digits(third@);
        let g = cells(board);
        assert forall|r: int, c: int| in_grid(r, c) implies #[trigger] g[r][c] == EMPTY || is_digit(
            g[r][c],
        ) by {
            if r / 3 == c / 3 {
                let k = 3 * (r % 3) + c % 3;
                assert(0 <= k < 9);
            }
        }
    }
    if !solve(&mut board) {
        board = pattern_board();
        proof {
            lemma_pattern_is_solution();
        }
    }
    let ghost solution = cells(board);
    proof {
        assert(is_full_board_for(first@, second@, third@, solution));
        lemma_count_full(solution, 81);
        lemma_cells_index(board);
    }
    let mut filled: Vec<usize> = Vec::new();
    let mut p: usize = 0;
    while p < 81
        invariant
            p <= 81,
            filled@.len() == p,
            forall|i: int| 0 <= i < p ==> #[trigger] filled@[i] == i,
        decreases 81 - p,
    {
        filled.push(p);
        p += 1;
    }
    let mut removed: usize = 0;
    while removed < 81 - number_of_entries
        invariant
            number_of_entries <= 81,
            removed <= 81 - number_of_entries,
            is_solution(solution),
            is_full_board_for(first@, second@, third@, solution),
            is_digit_permutation(first@),
            is_digit_permutation(second@),
            is_digit_permutation(third@),
            models(board, cells(board)),
            is_well_formed(cells(board)),
            extends(cells(board), solution),
            count_filled(cells(board)) == 81 - removed,
            filled@.len() == 81 - removed,
            forall|i: int|
                0 <= i < filled@.len() ==> #[trigger] filled@[i] < 81 && cell_at(
                    cells(board),
                    filled@[i] as int,
                ) != EMPTY,
            forall|i: int, j: int|
                0 <= i < filled@.len() && 0 <= j < filled@.len() && i != j ==> #[trigger] filled@[i]
                    != #[trigger] filled@[j],
        decreases 81 - number_of_entries - removed,
    {
        let ghost g = cells(board);
        let k = random_below(filled.len());
        let p = filled[k];
        let ghost before = board;
        board[p / 9][p % 9] = EMPTY;
        proof {
            lemma_cells_index(board);
            let pi = p as int;
            let h = set_cell(g, pi / 9, pi % 9, EMPTY);
            lemma_cells_index(before);
            assert(cells(board)[pi / 9] =~= h[pi / 9]);
            assert(cells(board) =~~= h);
            lemma_count_clear(g, p as int, 81);
            assert forall|q: int| 0 <= q < 81 && q != p implies #[trigger] cell_at(h, q) == cell_at(
                g,
                q,
            ) by {
                assert(q / 9 != p / 9 || q % 9 != p % 9);
            }
        }
        filled.swap_remove(k);
        removed += 1;
    }
    Some(board)
}

} // verus!
