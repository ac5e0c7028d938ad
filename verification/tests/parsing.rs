use sudoku_solver::grid::parse_grid;

fn digits_of(board: [[usize; 9]; 9]) -> Vec<u8> {
    let mut v = Vec::new();
    for row in board.iter() {
        for cell in row.iter() {
            v.push(b'0' + *cell as u8);
        }
    }
    v
}

#[test]
fn parse_grid_round_trips_digit_strings() {
    let mut board = [[0usize; 9]; 9];
    board[0][0] = 5;
    board[0][1] = 3;
    board[4][4] = 9;
    board[8][8] = 1;
    let bytes = digits_of(board);
    assert_eq!(parse_grid(&bytes), Some(board));
}

#[test]
fn parse_grid_all_zeros() {
    let bytes = vec![b'0'; 81];
    assert_eq!(parse_grid(&bytes), Some([[0usize; 9]; 9]));
}

#[test]
fn parse_grid_rejects_wrong_length() {
    assert_eq!(parse_grid(&vec![b'1'; 80]), None);
    assert_eq!(parse_grid(&vec![b'1'; 82]), None);
    assert_eq!(parse_grid(&Vec::new()), None);
}

#[test]
fn parse_grid_rejects_non_digits() {
    let mut bytes = vec![b'0'; 81];
    bytes[40] = b'x';
    assert_eq!(parse_grid(&bytes), None);
    let mut bytes = vec![b'0'; 81];
    bytes[0] = b' ';
    assert_eq!(parse_grid(&bytes), None);
}
