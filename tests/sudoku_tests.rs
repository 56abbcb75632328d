use sudoku::{
    all_digits, array_to_vec, check_boxes, check_row_col, digit, generate_sudoku,
    givens_consistent, is_safe, is_solved, pattern_board, seeded_grid, solve, solve_sudoku, EMPTY,
};

fn correct() -> [[char; 9]; 9] {
    [['7', '9', '2', '1', '5', '4', '3', '8', '6'],
    ['6', '4', '3', '8', '2', '7', '1', '5', '9'],
    ['8', '5', '1', '3', '9', '6', '7', '2', '4'],
    ['2', '6', '5', '9', '7', '3', '8', '4', '1'],
    ['4', '8', '9', '5', '6', '1', '2', '7', '3'],
    ['3', '1', '7', '4', '8', '2', '9', '6', '5'],
    ['1', '3', '6', '7', '4', '8', '5', '9', '2'],
    ['9', '7', '4', '2', '1', '5', '6', '3', '8'],
    ['5', '2', '8', '6', '3', '9', '4', '1', '7']]
}

fn puzzle() -> [[char; 9]; 9] {
    [['.', '5', '.', '.', '1', '.', '.', '4', '.'],
    ['2', '.', '.', '.', '.', '.', '.', '3', '.'],
    ['.', '6', '.', '.', '.', '9', '1', '.', '2'],
    ['7', '.', '.', '.', '5', '.', '6', '.', '1'],
    ['.', '.', '5', '.', '.', '3', '.', '.', '.'],
    ['.', '.', '.', '.', '.', '.', '4', '.', '.'],
    ['.', '9', '.', '8', '.', '.', '.', '.', '.'],
    ['6', '.', '.', '.', '3', '.', '5', '.', '7'],
    ['.', '.', '.', '.', '.', '.', '.', '2', '.']]
}

fn empty_board() -> Vec<Vec<char>> {
    vec![vec!['.'; 9]; 9]
}

fn count_filled(board: &Vec<Vec<char>>) -> usize {
    board.iter().map(|row| row.iter().filter(|c| **c != '.').count()).sum()
}

fn keeps_givens(before: &Vec<Vec<char>>, after: &Vec<Vec<char>>) -> bool {
    (0..9).all(|r| (0..9).all(|c| before[r][c] == '.' || before[r][c] == after[r][c]))
}

#[test]
fn correct_board_verification() {
    let correct_board: Vec<Vec<char>> = array_to_vec(correct());
    assert!(is_solved(&correct_board));
}

#[test]
fn test_solving() {
    let mut board: Vec<Vec<char>> = array_to_vec(puzzle());
    solve_sudoku(&mut board, 0, 0);
    assert!(is_solved(&board));
}

#[test]
fn array_to_vec_keeps_cells() {
    let board = array_to_vec(puzzle());
    assert_eq!(board.len(), 9);
    assert_eq!(board[0], vec!['.', '5', '.', '.', '1', '.', '.', '4', '.']);
    assert_eq!(board[8][7], '2');
}

#[test]
fn validator_rejects_row_duplicate() {
    let mut board = array_to_vec(correct());
    board[0][0] = board[0][1];
    assert!(!is_solved(&board));
    assert!(!check_row_col(&board));
}

#[test]
fn validator_rejects_column_duplicate() {
    let mut board = array_to_vec(correct());
    board[0].swap(0, 1);
    assert!(!is_solved(&board));
    assert!(!check_row_col(&board));
}

#[test]
fn validator_rejects_box_duplicate() {
    let board: Vec<Vec<char>> = (0..9)
        .map(|r| (0..9).map(|c| digit((r + c) % 9)).collect())
        .collect();
    assert!(check_row_col(&board));
    assert!(!check_boxes(&board));
    assert!(!is_solved(&board));
}

#[test]
fn validator_rejects_empty_cell() {
    let mut board = array_to_vec(correct());
    board[4][4] = '.';
    assert!(!is_solved(&board));
    assert!(!is_solved(&empty_board()));
}

#[test]
fn validator_accepts_correct_board_units() {
    let board = array_to_vec(correct());
    assert!(check_row_col(&board));
    assert!(check_boxes(&board));
}

#[test]
fn solve_fills_and_keeps_givens() {
    let before = array_to_vec(puzzle());
    let mut board = before.clone();
    assert!(solve(&mut board));
    assert!(is_solved(&board));
    assert!(keeps_givens(&before, &board));
    assert_eq!(count_filled(&board), 81);
}

#[test]
fn solve_empty_board() {
    let mut board = empty_board();
    assert!(solve(&mut board));
    assert!(is_solved(&board));
    assert_eq!(board[0], vec!['1', '2', '3', '4', '5', '6', '7', '8', '9']);
}

#[test]
fn solve_keeps_solved_board() {
    let before = array_to_vec(correct());
    let mut board = before.clone();
    assert!(solve(&mut board));
    assert_eq!(board, before);
}

#[test]
fn solve_rejects_repeated_given_and_leaves_board() {
    let mut before = empty_board();
    before[0][0] = '5';
    before[0][4] = '5';
    let mut board = before.clone();
    assert!(!givens_consistent(&board));
    assert!(!solve(&mut board));
    assert_eq!(board, before);
}

#[test]
fn search_failure_leaves_board() {
    let mut before = empty_board();
    for c in 1..9 {
        before[0][c] = digit(c - 1);
    }
    before[1][0] = '9';
    let mut board = before.clone();
    assert!(givens_consistent(&board));
    assert!(!solve_sudoku(&mut board, 0, 0));
    assert_eq!(board, before);
    assert!(!solve(&mut board));
    assert_eq!(board, before);
}

#[test]
fn search_from_later_cell() {
    let mut board = array_to_vec(correct());
    board[8][8] = '.';
    assert!(solve_sudoku(&mut board, 8, 8));
    assert_eq!(board[8][8], '7');
    let mut full = array_to_vec(correct());
    assert!(solve_sudoku(&mut full, 8, 9));
    assert_eq!(full, array_to_vec(correct()));
}

#[test]
fn givens_consistent_cases() {
    assert!(givens_consistent(&array_to_vec(puzzle())));
    assert!(givens_consistent(&empty_board()));
    let mut board = empty_board();
    board[0][0] = '3';
    board[2][2] = '3';
    assert!(!givens_consistent(&board));
}

#[test]
fn safe_on_empty_board() {
    let board = empty_board();
    for k in 0..9 {
        assert!(is_safe(&board, 0, 0, digit(k)));
    }
}

#[test]
fn safe_after_placing_five() {
    let mut board = empty_board();
    board[0][0] = '5';
    assert!(!is_safe(&board, 0, 1, '5'));
    assert!(!is_safe(&board, 1, 0, '5'));
    assert!(!is_safe(&board, 1, 1, '5'));
    assert!(is_safe(&board, 3, 3, '5'));
    assert!(is_safe(&board, 0, 1, '4'));
}

#[test]
fn digits_in_order() {
    assert_eq!(all_digits(), vec!['1', '2', '3', '4', '5', '6', '7', '8', '9']);
    assert_eq!(digit(0), '1');
    assert_eq!(digit(8), '9');
    assert_eq!(EMPTY, '.');
}

#[test]
fn seeded_grid_fills_diagonal_boxes() {
    let first = vec!['1', '2', '3', '4', '5', '6', '7', '8', '9'];
    let second = vec!['9', '8', '7', '6', '5', '4', '3', '2', '1'];
    let third = vec!['5', '1', '9', '2', '8', '3', '7', '4', '6'];
    let board = seeded_grid(&first, &second, &third);
    assert_eq!(board[0], vec!['1', '2', '3', '.', '.', '.', '.', '.', '.']);
    assert_eq!(board[4], vec!['.', '.', '.', '6', '5', '4', '.', '.', '.']);
    assert_eq!(board[8], vec!['.', '.', '.', '.', '.', '.', '7', '4', '6']);
    assert_eq!(count_filled(&board), 27);
    let mut solved = board.clone();
    assert!(solve(&mut solved));
    assert!(is_solved(&solved));
    assert!(keeps_givens(&board, &solved));
}

#[test]
fn generated_puzzle_has_target_count() {
    for target in [17usize, 30, 45, 81] {
        let board = generate_sudoku(target).unwrap();
        assert_eq!(count_filled(&board), target);
    }
    let board = generate_sudoku(0).unwrap();
    assert_eq!(count_filled(&board), 0);
}

#[test]
fn generated_puzzle_is_solvable() {
    for target in [17usize, 30, 81] {
        let board = generate_sudoku(target).unwrap();
        let mut solved = board.clone();
        assert!(solve(&mut solved));
        assert!(is_solved(&solved));
        assert!(keeps_givens(&board, &solved));
    }
}

#[test]
fn generated_full_board_is_solution() {
    let board = generate_sudoku(81).unwrap();
    assert!(is_solved(&board));
}

#[test]
fn generated_boards_vary() {
    let first = generate_sudoku(81).unwrap();
    let differs = (0..5).any(|_| generate_sudoku(81).unwrap() != first);
    assert!(differs);
}

#[test]
fn generate_rejects_too_many_entries() {
    assert!(generate_sudoku(82).is_none());
    assert!(generate_sudoku(1000).is_none());
}

#[test]
fn search_rejects_full_board_of_repeats() {
    let before = vec![vec!['1'; 9]; 9];
    let mut board = before.clone();
    assert!(!solve_sudoku(&mut board, 0, 0));
    assert_eq!(board, before);
}

#[test]
fn search_rejects_repeated_given() {
    let mut before = empty_board();
    before[3][0] = '7';
    before[3][8] = '7';
    let mut board = before.clone();
    assert!(!solve_sudoku(&mut board, 0, 0));
    assert_eq!(board, before);
}

#[test]
fn search_returns_first_completion() {
    let mut board = array_to_vec(correct());
    for c in 0..9 {
        board[0][c] = '.';
        board[1][c] = '.';
    }
    assert!(solve_sudoku(&mut board, 0, 0));
    assert!(is_solved(&board));
    // column 0 leaves 6 and 7 for the top cell; the smaller comes first
    assert_eq!(board[0][0], '6');
    assert_eq!(board[1][0], '7');
    let mut one_row = array_to_vec(correct());
    for c in 0..9 {
        one_row[0][c] = '.';
    }
    assert!(solve_sudoku(&mut one_row, 0, 0));
    assert_eq!(one_row, array_to_vec(correct()));
}

#[test]
fn pattern_board_is_solution() {
    let board = pattern_board();
    assert!(is_solved(&board));
    assert_eq!(board[0], vec!['1', '2', '3', '4', '5', '6', '7', '8', '9']);
    assert_eq!(board[1], vec!['4', '5', '6', '7', '8', '9', '1', '2', '3']);
    assert_eq!(board[3], vec!['2', '3', '4', '5', '6', '7', '8', '9', '1']);
}

#[test]
fn generated_puzzle_keeps_seeded_diagonal_consistent() {
    let board = generate_sudoku(81).unwrap();
    for b in 0..3 {
        let mut seen: Vec<char> = (0..3)
            .flat_map(|i| (0..3).map(move |j| (3 * b + i, 3 * b + j)))
            .map(|(r, c)| board[r][c])
            .collect();
        seen.sort();
        assert_eq!(seen, all_digits());
    }
}
