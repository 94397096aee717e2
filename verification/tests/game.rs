use connect4::game::{Board, Cell, GameState, MoveError, Player};
use connect4::grid::{COLS, ROWS};

fn play_moves(board: &mut Board, cols: &[usize]) {
    for &col in cols {
        board.drop_piece(col).unwrap();
    }
}

#[test]
fn new_board() {
    let board = Board::new();
    assert_eq!(board.current_player(), Player::Red);
    assert_eq!(board.state(), GameState::InProgress);
    for r in 0..ROWS {
        for c in 0..COLS {
            assert_eq!(board.cell(r, c), Cell::Empty);
        }
    }
}

#[test]
fn drop_piece_lands_at_bottom() {
    let mut board = Board::new();
    let (row, col) = board.drop_piece(3).unwrap();
    assert_eq!((row, col), (5, 3));
    assert_eq!(board.cell(5, 3), Cell::Occupied(Player::Red));
}

#[test]
fn drop_piece_stacks() {
    let mut board = Board::new();
    board.drop_piece(3).unwrap(); // Red at row 5
    board.drop_piece(3).unwrap(); // Yellow at row 4
    assert_eq!(board.cell(5, 3), Cell::Occupied(Player::Red));
    assert_eq!(board.cell(4, 3), Cell::Occupied(Player::Yellow));
}

#[test]
fn column_full() {
    let mut board = Board::new();
    for _ in 0..ROWS {
        board.drop_piece(0).unwrap();
    }
    assert_eq!(board.drop_piece(0), Err(MoveError::ColumnFull));
}

#[test]
fn column_out_of_bounds() {
    let mut board = Board::new();
    assert_eq!(board.drop_piece(7), Err(MoveError::ColumnOutOfBounds));
    assert_eq!(board.drop_piece(100), Err(MoveError::ColumnOutOfBounds));
}

#[test]
fn game_over_error() {
    let mut board = Board::new();
    // Red wins horizontally on bottom row
    play_moves(&mut board, &[0, 0, 1, 1, 2, 2, 3]);
    assert_eq!(board.state(), GameState::Won(Player::Red));
    assert_eq!(board.drop_piece(4), Err(MoveError::GameOver));
}

#[test]
fn horizontal_win() {
    let mut board = Board::new();
    // Red: 0,1,2,3  Yellow: 0,1,2
    play_moves(&mut board, &[0, 0, 1, 1, 2, 2, 3]);
    assert_eq!(board.state(), GameState::Won(Player::Red));
}

#[test]
fn vertical_win() {
    let mut board = Board::new();
    // Red plays col 0, Yellow plays col 1, alternating
    play_moves(&mut board, &[0, 1, 0, 1, 0, 1, 0]);
    assert_eq!(board.state(), GameState::Won(Player::Red));
}

#[test]
fn diagonal_ascending_win() {
    let mut board = Board::new();
    // Build a / diagonal for Red
    play_moves(&mut board, &[0, 1, 1, 2, 3, 2, 2, 3, 3, 6, 3]);
    assert_eq!(board.state(), GameState::Won(Player::Red));
}

#[test]
fn diagonal_descending_win() {
    let mut board = Board::new();
    // Build a \ diagonal for Red
    play_moves(&mut board, &[3, 2, 2, 1, 0, 1, 1, 0, 0, 6, 0]);
    assert_eq!(board.state(), GameState::Won(Player::Red));
}

#[test]
fn no_false_win_at_three() {
    let mut board = Board::new();
    play_moves(&mut board, &[0, 0, 1, 1, 2, 2]);
    assert_eq!(board.state(), GameState::InProgress);
}

#[test]
fn draw_detection() {
    let mut board = Board::new();
    for _ in 0..3 {
        for col in 0..COLS {
            let _ = board.drop_piece(col);
        }
    }
    board.reset();

    // Fill paired columns in blocks of 3 to avoid 4-in-a-row
    for _ in 0..3 {
        board.drop_piece(0).unwrap();
        board.drop_piece(1).unwrap();
    }
    for _ in 0..3 {
        board.drop_piece(1).unwrap();
        board.drop_piece(0).unwrap();
    }
    for _ in 0..3 {
        board.drop_piece(2).unwrap();
        board.drop_piece(3).unwrap();
    }
    for _ in 0..3 {
        board.drop_piece(3).unwrap();
        board.drop_piece(2).unwrap();
    }
    for _ in 0..3 {
        board.drop_piece(4).unwrap();
        board.drop_piece(5).unwrap();
    }
    for _ in 0..3 {
        board.drop_piece(5).unwrap();
        board.drop_piece(4).unwrap();
    }
    for _ in 0..6 {
        board.drop_piece(6).unwrap();
    }

    assert_eq!(board.state(), GameState::Draw);
}

#[test]
fn player_alternation() {
    let mut board = Board::new();
    assert_eq!(board.current_player(), Player::Red);
    board.drop_piece(0).unwrap();
    assert_eq!(board.current_player(), Player::Yellow);
    board.drop_piece(1).unwrap();
    assert_eq!(board.current_player(), Player::Red);
}

#[test]
fn reset_board() {
    let mut board = Board::new();
    play_moves(&mut board, &[0, 0, 1, 1, 2, 2, 3]);
    assert_eq!(board.state(), GameState::Won(Player::Red));
    board.reset();
    assert_eq!(board.state(), GameState::InProgress);
    assert_eq!(board.current_player(), Player::Red);
    assert_eq!(board.cell(5, 0), Cell::Empty);
}

#[test]
fn winning_cells_horizontal() {
    let mut board = Board::new();
    play_moves(&mut board, &[0, 0, 1, 1, 2, 2, 3]);
    let cells = board.winning_cells().unwrap();
    assert!(cells.len() >= 4);
    // Should contain the bottom row, cols 0-3
    for col in 0..4 {
        assert!(cells.contains(&(5, col)));
    }
}

#[test]
fn winning_cells_none_when_in_progress() {
    let board = Board::new();
    assert!(board.winning_cells().is_none());
}
