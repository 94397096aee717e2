use connect4::ai::{best_move, best_move_with_depth, SimBoard};
use connect4::game::{Board, Player};
use connect4::grid::{COLS, ROWS};

fn play_moves(board: &mut Board, cols: &[usize]) {
    for &col in cols {
        board.drop_piece(col).unwrap();
    }
}

#[test]
fn test_sim_board_from_empty() {
    let board = Board::new();
    let sim = SimBoard::from_board(&board);
    assert_eq!(sim.move_count(), 0);
    assert!((0..COLS).all(|c| sim.height(c) == 0));
    for row in 0..ROWS {
        for col in 0..COLS {
            assert_eq!(sim.cell(row, col), None);
        }
    }
}

#[test]
fn test_sim_board_from_midgame() {
    let mut board = Board::new();
    play_moves(&mut board, &[3, 3, 4, 2]);
    let sim = SimBoard::from_board(&board);
    assert_eq!(sim.move_count(), 4);
    assert_eq!(sim.cell(5, 3), Some(false)); // Red at bottom of col 3
    assert_eq!(sim.cell(4, 3), Some(true)); // Yellow above
    assert_eq!(sim.cell(5, 4), Some(false)); // Red at bottom of col 4
    assert_eq!(sim.cell(5, 2), Some(true)); // Yellow at bottom of col 2
}

#[test]
fn test_ai_takes_winning_move() {
    let mut board = Board::new();
    // Yellow has 3 in a row at row 4 (cols 0, 1, 2) and is to move.
    play_moves(&mut board, &[0, 0, 1, 1, 2, 2, 6]);
    assert_eq!(board.current_player(), Player::Yellow);
    let col = best_move_with_depth(&board, 4);
    assert_eq!(col, 3); // Win by completing row 4
}

#[test]
fn test_ai_blocks_opponent_win() {
    let mut board = Board::new();
    // Red has 3 in bottom row (cols 0,1,2); Yellow must block col 3.
    play_moves(&mut board, &[0, 6, 1, 4, 2, 6, 5]);
    assert_eq!(board.current_player(), Player::Yellow);
    let col = best_move_with_depth(&board, 4);
    assert_eq!(col, 3);
}

#[test]
fn test_ai_center_preference_opening() {
    let mut board = Board::new();
    // Red plays first (col 0), then it's AI's turn
    board.drop_piece(0).unwrap();
    let col = best_move_with_depth(&board, 6);
    assert_eq!(col, 3); // Center is optimal
}

#[test]
fn test_ai_returns_valid_column() {
    let mut board = Board::new();
    play_moves(&mut board, &[0, 1, 2, 3]);
    let col = best_move(&board);
    assert!(col < COLS);
}

#[test]
fn test_ai_handles_nearly_full_board() {
    let mut board = Board::new();
    // Fill columns 0-5 completely (36 pieces), leave col 6 open
    for _ in 0..3 {
        board.drop_piece(0).unwrap();
        board.drop_piece(1).unwrap();
    }
    for _ in 0..3 {
        board.drop_piece(1).unwrap();
        board.drop_piece(0).unwrap();
    }
    for _ in 0..3 {
        board.drop_piece(2).unwrap();
        board.drop_piece(3).unwrap();
    }
    for _ in 0..3 {
        board.drop_piece(3).unwrap();
        board.drop_piece(2).unwrap();
    }
    for _ in 0..3 {
        board.drop_piece(4).unwrap();
        board.drop_piece(5).unwrap();
    }
    for _ in 0..3 {
        board.drop_piece(5).unwrap();
        board.drop_piece(4).unwrap();
    }
    // It's Red's turn, play Red in col 6
    board.drop_piece(6).unwrap();
    // Now Yellow's turn, only col 6 is valid
    let col = best_move(&board);
    assert_eq!(col, 6);
}

#[test]
fn test_ai_prefers_faster_win() {
    let mut board = Board::new();
    // Yellow has 3 stacked in col 3 (rows 5,4,3), can win by playing col 3 again
    play_moves(&mut board, &[0, 3, 0, 3, 0, 3, 6]);
    assert_eq!(board.current_player(), Player::Yellow);
    let col = best_move_with_depth(&board, 4);
    assert_eq!(col, 3); // Immediate vertical win
}
