use sudoku_solver::sudoku::{Difficulty, Sudoku};

#[test]
fn test_set_get_board() {
    let mut sudoku = Sudoku::new();
    let board = [[1, 2, 3, 4, 5, 6, 7, 8, 9]; 9];
    sudoku.set_board(board);
    assert_eq!(sudoku.get_board(), board);
}

#[test]
fn test_set_get_puzzle() {
    let mut sudoku = Sudoku::new();
    let puzzle = [[1, 2, 3, 4, 5, 6, 7, 8, 9]; 9];
    sudoku.set_puzzle(puzzle);
    assert_eq!(sudoku.get_puzzle(), Some(puzzle));
}

#[test]
fn test_set_get_solution() {
    let mut sudoku = Sudoku::new();
    let solution = [[1, 2, 3, 4, 5, 6, 7, 8, 9]; 9];
    sudoku.set_solution(solution);
    assert_eq!(sudoku.get_solution(), Some(solution));
}

#[test]
fn test_set_get_difficulty() {
    let mut sudoku = Sudoku::new();
    let difficulty = Difficulty::Hard;
    sudoku.set_difficulty(Some(difficulty.clone()));
    assert_eq!(sudoku.get_difficulty(), Some(difficulty));
}

#[test]
fn test_clear_board() {
    let mut sudoku = Sudoku::new();
    let board = [[1; 9]; 9];
    let puzzle = [[2; 9]; 9];
    let solution = [[3; 9]; 9];
    sudoku.set_board(board);
    sudoku.set_puzzle(puzzle);
    sudoku.set_solution(solution);
    sudoku.clear_board();
    assert_eq!(sudoku.get_board(), [[0; 9]; 9]);
    assert_eq!(sudoku.get_puzzle(), None);
    assert_eq!(sudoku.get_solution(), None);
}

#[test]
fn test_update_cell() {
    let mut sudoku = Sudoku::new();
    let board = [[1; 9]; 9];
    sudoku.set_board(board);
    sudoku.update_cell(0, 0, 2);
    let updated_board = [
        [2, 1, 1, 1, 1, 1, 1, 1, 1],
        [1, 1, 1, 1, 1, 1, 1, 1, 1],
        [1, 1, 1, 1, 1, 1, 1, 1, 1],
        [1, 1, 1, 1, 1, 1, 1, 1, 1],
        [1, 1, 1, 1, 1, 1, 1, 1, 1],
        [1, 1, 1, 1, 1, 1, 1, 1, 1],
        [1, 1, 1, 1, 1, 1, 1, 1, 1],
        [1, 1, 1, 1, 1, 1, 1, 1, 1],
        [1, 1, 1, 1, 1, 1, 1, 1, 1],
    ];
    assert_eq!(sudoku.get_board(), updated_board);
}

#[test]
fn test_reset_with_puzzle() {
    let mut sudoku = Sudoku::new();
    let board = [[1; 9]; 9];
    let puzzle = [[2; 9]; 9];
    sudoku.set_board(board);
    sudoku.set_puzzle(puzzle);
    sudoku.reset();
    assert_eq!(sudoku.get_board(), puzzle);
}

#[test]
fn test_reset_without_puzzle() {
    let mut sudoku = Sudoku::new();
    let board = [[1; 9]; 9];
    sudoku.set_board(board);
    sudoku.reset();
    assert_eq!(sudoku.get_board(), board);
}

#[test]
fn test_won_with_solution() {
    let mut sudoku = Sudoku::new();
    let board = [[1; 9]; 9];
    let solution = [[1; 9]; 9];
    sudoku.set_board(board);
    sudoku.set_solution(solution);
    assert_eq!(sudoku.won(), true);
}

#[test]
fn test_won_without_solution() {
    let mut sudoku = Sudoku::new();
    sudoku.set_board([[1; 9]; 9]);
    assert_eq!(sudoku.won(), false);
}

#[test]
fn test_won_with_differing_board() {
    let mut sudoku = Sudoku::new();
    let mut board = [[1; 9]; 9];
    let solution = [[1; 9]; 9];
    board[4][4] = 2;
    sudoku.set_board(board);
    sudoku.set_solution(solution);
    assert_eq!(sudoku.won(), false);
}

#[test]
fn test_update_cell_other_cells_kept() {
    let mut sudoku = Sudoku::new();
    sudoku.update_cell(8, 8, 9);
    sudoku.update_cell(3, 5, 4);
    let board = sudoku.get_board();
    assert_eq!(board[8][8], 9);
    assert_eq!(board[3][5], 4);
    assert_eq!(board[0][0], 0);
    assert_eq!(board[3][4], 0);
}
