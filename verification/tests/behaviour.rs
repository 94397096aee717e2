use connect4::ai::{best_move_with_depth, SimBoard};
use connect4::controls::{action_for_key, Action, Key};
use connect4::game::{Board, Cell, GameState, MoveError, Player};
use connect4::grid::{COLS, ROWS};
use connect4::session::{Session, Step};

fn play(board: &mut Board, cols: &[usize]) {
    for &col in cols {
        board.drop_piece(col).unwrap();
    }
}

#[test]
fn player_names_and_opponents() {
    assert_eq!(Player::Red.name(), "Red");
    assert_eq!(Player::Yellow.name(), "Yellow");
    assert_eq!(!Player::Red, Player::Yellow);
    assert_eq!(!Player::Yellow, Player::Red);
}

#[test]
fn out_of_bounds_is_reported_before_game_over() {
    let mut board = Board::new();
    play(&mut board, &[0, 0, 1, 1, 2, 2, 3]);
    assert_eq!(board.drop_piece(7), Err(MoveError::ColumnOutOfBounds));
    assert_eq!(board.drop_piece(0), Err(MoveError::GameOver));
}

#[test]
fn refused_drop_leaves_board_unchanged() {
    let mut board = Board::new();
    for _ in 0..ROWS {
        board.drop_piece(2).unwrap();
    }
    let player = board.current_player();
    assert_eq!(board.drop_piece(2), Err(MoveError::ColumnFull));
    assert_eq!(board.current_player(), player);
    assert_eq!(board.state(), GameState::InProgress);
    assert_eq!(board.cell(0, 2), Cell::Occupied(Player::Yellow));
    assert_eq!(board.cell(5, 2), Cell::Occupied(Player::Red));
}

#[test]
fn winner_keeps_the_turn_and_other_cells_stay() {
    let mut board = Board::new();
    play(&mut board, &[0, 1, 0, 1, 0, 1, 0]);
    assert_eq!(board.state(), GameState::Won(Player::Red));
    assert_eq!(board.current_player(), Player::Red);
    assert_eq!(board.cell(2, 0), Cell::Occupied(Player::Red));
    assert_eq!(board.cell(3, 1), Cell::Occupied(Player::Yellow));
    assert_eq!(board.cell(2, 1), Cell::Empty);
}

#[test]
fn winning_cells_vertical_line_in_order() {
    let mut board = Board::new();
    play(&mut board, &[0, 1, 0, 1, 0, 1, 0]);
    let cells = board.winning_cells().unwrap();
    assert_eq!(cells, vec![(2, 0), (3, 0), (4, 0), (5, 0)]);
}

#[test]
fn winning_cells_with_five_in_a_row() {
    let mut board = Board::new();
    // Red: 0, 1, 3, 4 on the bottom row, then 2 in the middle makes five.
    play(&mut board, &[0, 0, 1, 1, 3, 3, 4, 4, 2]);
    assert_eq!(board.state(), GameState::Won(Player::Red));
    let cells = board.winning_cells().unwrap();
    assert_eq!(cells, vec![(5, 2), (5, 3), (5, 4), (5, 1), (5, 0)]);
}

#[test]
fn winning_cells_none_after_draw() {
    let mut board = Board::new();
    for _ in 0..3 {
        board.drop_piece(0).unwrap();
        board.drop_piece(1).unwrap();
    }
    for _ in 0..3 {
        board.drop_piece(1).unwrap();
        board.drop_piece(0).unwrap();
    }
    for _ in 0..3 {
        board.drop_piece(2).unwrap();
        board.drop_piece(3).unwrap();
    }
    for _ in 0..3 {
        board.drop_piece(3).unwrap();
        board.drop_piece(2).unwrap();
    }
    for _ in 0..3 {
        board.drop_piece(4).unwrap();
        board.drop_piece(5).unwrap();
    }
    for _ in 0..3 {
        board.drop_piece(5).unwrap();
        board.drop_piece(4).unwrap();
    }
    for _ in 0..6 {
        board.drop_piece(6).unwrap();
    }
    assert_eq!(board.state(), GameState::Draw);
    // The last piece was Yellow's, the 42nd move.
    assert_eq!(board.current_player(), Player::Yellow);
    assert!(board.winning_cells().is_none());
    for col in 0..COLS {
        assert_eq!(board.drop_piece(col), Err(MoveError::GameOver));
    }
}

#[test]
fn ai_takes_immediate_win_for_red_too() {
    let mut board = Board::new();
    // Red stacks three in column 5 and is to move.
    play(&mut board, &[5, 0, 5, 1, 5, 6]);
    assert_eq!(board.current_player(), Player::Red);
    assert_eq!(best_move_with_depth(&board, 1), 5);
    assert_eq!(best_move_with_depth(&board, 3), 5);
}

#[test]
fn ai_at_depth_one_prefers_centre_on_empty_board() {
    let board = Board::new();
    assert_eq!(best_move_with_depth(&board, 1), 3);
}

#[test]
fn sim_board_heights_count_pieces() {
    let mut board = Board::new();
    play(&mut board, &[6, 6, 6, 0]);
    let sim = SimBoard::from_board(&board);
    assert_eq!(sim.height(6), 3);
    assert_eq!(sim.height(0), 1);
    assert_eq!(sim.height(3), 0);
    assert_eq!(sim.move_count(), 4);
    assert_eq!(sim.cell(3, 6), Some(false));
    assert_eq!(sim.cell(2, 6), None);
}

#[test]
fn keys_map_to_actions() {
    assert_eq!(action_for_key(Key::Left, true), Action::MoveLeft);
    assert_eq!(action_for_key(Key::Char('h'), true), Action::MoveLeft);
    assert_eq!(action_for_key(Key::Right, true), Action::MoveRight);
    assert_eq!(action_for_key(Key::Char('l'), true), Action::MoveRight);
    assert_eq!(action_for_key(Key::Enter, true), Action::Drop);
    assert_eq!(action_for_key(Key::Char(' '), true), Action::Drop);
    assert_eq!(action_for_key(Key::Char('q'), true), Action::Quit);
    assert_eq!(action_for_key(Key::Esc, true), Action::Quit);
    assert_eq!(action_for_key(Key::Char('r'), true), Action::Restart);
    assert_eq!(action_for_key(Key::Char('x'), true), Action::Nothing);
    assert_eq!(action_for_key(Key::Other, true), Action::Nothing);
    assert_eq!(action_for_key(Key::Char('q'), false), Action::Nothing);
}

#[test]
fn session_cursor_stays_on_board() {
    let mut s = Session::new();
    assert_eq!(s.cursor_col(), 3);
    for _ in 0..10 {
        assert!(s.handle(Action::MoveRight));
    }
    assert_eq!(s.cursor_col(), 6);
    for _ in 0..10 {
        assert!(s.handle(Action::MoveLeft));
    }
    assert_eq!(s.cursor_col(), 0);
    assert!(!s.handle(Action::Quit));
}

#[test]
fn session_two_players_take_turns_at_the_keyboard() {
    let mut s = Session::new();
    assert_eq!(s.tick(), Step::AwaitInput);
    assert!(s.handle(Action::Drop));
    assert_eq!(s.board().cell(5, 3), Cell::Occupied(Player::Red));
    // Yellow's turn: nothing happens until Yellow presses a key.
    assert_eq!(s.board().current_player(), Player::Yellow);
    assert_eq!(s.tick(), Step::AwaitInput);
    assert_eq!(s.tick(), Step::AwaitInput);
    assert!(!s.ai_thinking());
    assert_eq!(s.board().cell(4, 3), Cell::Empty);
    assert!(s.handle(Action::MoveLeft));
    assert!(s.handle(Action::Drop));
    assert_eq!(s.board().cell(5, 2), Cell::Occupied(Player::Yellow));
    assert_eq!(s.board().current_player(), Player::Red);
}

#[test]
fn session_human_then_computer() {
    let mut s = Session::new_vs_computer();
    assert_eq!(s.tick(), Step::AwaitInput);
    assert!(s.handle(Action::Drop));
    assert_eq!(s.board().cell(5, 3), Cell::Occupied(Player::Red));
    // The computer first announces that it is thinking, then moves.
    assert_eq!(s.tick(), Step::Redraw);
    assert!(s.ai_thinking());
    assert_eq!(s.board().current_player(), Player::Yellow);
    assert_eq!(s.tick(), Step::Redraw);
    assert!(!s.ai_thinking());
    assert_eq!(s.board().current_player(), Player::Red);
    assert_eq!(s.tick(), Step::AwaitInput);
}

#[test]
fn session_restart_only_after_game_over() {
    let mut s = Session::new();
    assert!(s.handle(Action::MoveRight));
    assert!(s.handle(Action::MoveRight));
    assert!(s.handle(Action::Restart));
    assert_eq!(s.cursor_col(), 5);
    // Red: 0, 1, 2, 3 on the bottom row; Yellow: 0, 1, 2 above.
    for &col in &[0usize, 0, 1, 1, 2, 2, 3] {
        while s.cursor_col() > col {
            assert!(s.handle(Action::MoveLeft));
        }
        while s.cursor_col() < col {
            assert!(s.handle(Action::MoveRight));
        }
        assert!(s.handle(Action::Drop));
    }
    assert_eq!(s.board().state(), GameState::Won(Player::Red));
    assert_eq!(s.tick(), Step::AwaitInput);
    assert!(s.handle(Action::Drop));
    assert_eq!(s.board().state(), GameState::Won(Player::Red));
    assert!(s.handle(Action::Restart));
    assert_eq!(s.board().state(), GameState::InProgress);
    assert_eq!(s.cursor_col(), 3);
    assert_eq!(s.board().cell(5, 0), Cell::Empty);
}

#[test]
fn pieces_stay_balanced() {
    let mut board = Board::new();
    let cols = [3usize, 3, 2, 4, 4, 1, 0, 6, 5, 5, 2];
    for (n, &col) in cols.iter().enumerate() {
        board.drop_piece(col).unwrap();
        let mut red = 0;
        let mut yellow = 0;
        for r in 0..ROWS {
            for c in 0..COLS {
                match board.cell(r, c) {
                    Cell::Occupied(Player::Red) => red += 1,
                    Cell::Occupied(Player::Yellow) => yellow += 1,
                    Cell::Empty => {}
                }
            }
        }
        assert_eq!(red + yellow, n + 1);
        assert!(red == yellow || red == yellow + 1);
        if board.state() == GameState::InProgress {
            assert_eq!(board.current_player() == Player::Red, red == yellow);
        }
    }
}
