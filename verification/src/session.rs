//! The course of a game in the terminal: what happens between two screen
//! refreshes, given the key the player pressed.  Two players share the
//! keyboard; the computer may optionally take Yellow's moves.
use vstd::prelude::*;

use crate::ai::{best_move, node, sim_of};
use crate::controls::Action;
use crate::game::{initial_model, Board, BoardModel, GameState, Player};
use crate::grid::COLS;

verus! {

/// A game in a terminal: the board, the column under the cursor (always on
/// the board), whether the computer plays Yellow, and whether it has
/// announced that it is thinking.
pub struct Session {
    board: Board,
    cursor_col: usize,
    vs_computer: bool,
    ai_thinking: bool,
}

/// The mathematical value of a session.
pub struct SessionModel {
    pub board: BoardModel,
    pub cursor_col: int,
    pub vs_computer: bool,
    pub ai_thinking: bool,
}

/// What the terminal loop does next.
#[derive(Clone, Copy, PartialEq, Eq, Debug, Structural)]
pub enum Step {
    /// Draw the screen again and call `tick` again.
    Redraw,
    /// Read a key and hand its action to `handle`.
    AwaitInput,
}

/// The computer plays Yellow in this session and Yellow is to move.
pub open spec fn ai_to_move(s: SessionModel) -> bool {
    s.vs_computer && s.board.state == GameState::InProgress && s.board.player == Player::Yellow
}

/// The column the computer chooses on board `b`.
pub open spec fn ai_choice(b: BoardModel) -> int {
    node(sim_of(b), 8, b.player == Player::Yellow, 0).1.unwrap()
}

/// A fresh session: empty board, cursor on the centre column.
pub open spec fn fresh(vs_computer: bool) -> SessionModel {
    SessionModel { board: initial_model(), cursor_col: 3, vs_computer, ai_thinking: false }
}

impl View for Session {
    type V = SessionModel;

    closed spec fn view(&self) -> SessionModel {
        SessionModel {
            board: self.board@,
            cursor_col: self.cursor_col as int,
            vs_computer: self.vs_computer,
            ai_thinking: self.ai_thinking,
        }
    }
}

impl Session {
    #[verifier::type_invariant]
    spec fn inv(&self) -> bool {
        self.cursor_col < COLS
    }

    /// A game for two players at one keyboard, Red moving first.
    pub fn new() -> (s: Session)
        ensures
            s@ == fresh(false),
    {
        Session { board: Board::new(), cursor_col: 3, vs_computer: false, ai_thinking: false }
    }

    /// A game in which the computer plays Yellow.
    pub fn new_vs_computer() -> (s: Session)
        ensures
            s@ == fresh(true),
    {
        Session { board: Board::new(), cursor_col: 3, vs_computer: true, ai_thinking: false }
    }

    /// The board.
    pub fn board(&self) -> (b: &Board)
        ensures
            b@ == self@.board,
    {
        &self.board
    }

    /// The column under the cursor.
    pub fn cursor_col(&self) -> (c: usize)
        ensures
            c == self@.cursor_col,
            c < 7,
    {
        proof {
            use_type_invariant(self);
        }
        self.cursor_col
    }

    /// Whether the computer has announced that it is thinking.
    pub fn ai_thinking(&self) -> (t: bool)
        ensures
            t == self@.ai_thinking,
    {
        self.ai_thinking
    }

    /// Called after each refresh.  In a two-player game, and whenever it is
    /// not the computer's turn, the session waits for a key.  When the
    /// computer is to move, the first call only announces that it is
    /// thinking (so that the screen can show it) and the next one plays its
    /// move.
    pub fn tick(&mut self) -> (step: Step)
        ensures
            final(self)@.cursor_col == old(self)@.cursor_col,
            0 <= final(self)@.cursor_col < 7,
            final(self)@.vs_computer == old(self)@.vs_computer,
            !ai_to_move(old(self)@) ==> step == Step::AwaitInput && !final(self)@.ai_thinking
                && final(self)@.board == old(self)@.board,
            ai_to_move(old(self)@) ==> step == Step::Redraw,
            ai_to_move(old(self)@) && !old(self)@.ai_thinking ==> final(self)@.ai_thinking
                && final(self)@.board == old(self)@.board,
            ai_to_move(old(self)@) && old(self)@.ai_thinking ==> !final(self)@.ai_thinking
                && 0 <= ai_choice(old(self)@.board) < 7 && old(self)@.board.drop_error(
                ai_choice(old(self)@.board),
            ) is None && final(self)@.board == old(self)@.board.drop_result(
                ai_choice(old(self)@.board),
            ),
    {
        proof {
            use_type_invariant(&*self);
        }
        if self.vs_computer && self.board.state() == GameState::InProgress
            && self.board.current_player() == Player::Yellow {
            if !self.ai_thinking {
                self.ai_thinking = true;
                return Step::Redraw;
            }
            proof {
                crate::game::law_room_while_in_progress(self.board@);
            }
            let col = best_move(&self.board);
            let mut board = Board::new();
            std::mem::swap(&mut board, &mut self.board);
            let _ = board.drop_piece(col);
            self.board = board;
            self.ai_thinking = false;
            return Step::Redraw;
        }
        self.ai_thinking = false;
        proof {
            use_type_invariant(&*self);
        }
        Step::AwaitInput
    }

    /// Carries out the player's action; returns false when the player quits.
    /// The cursor moves within the board; the player to move drops a piece
    /// under the cursor while the game is on; a finished game can be
    /// restarted.
    pub fn handle(&mut self, action: Action) -> (keep_going: bool)
        ensures
            keep_going == (action != Action::Quit),
            0 <= final(self)@.cursor_col < 7,
            final(self)@.vs_computer == old(self)@.vs_computer,
            final(self)@.ai_thinking == old(self)@.ai_thinking,
            action == Action::MoveLeft ==> final(self)@.cursor_col == (if old(self)@.cursor_col > 0 {
                old(self)@.cursor_col - 1
            } else {
                0
            }) && final(self)@.board == old(self)@.board,
            action == Action::MoveRight ==> final(self)@.cursor_col == (if old(self)@.cursor_col < 6 {
                old(self)@.cursor_col + 1
            } else {
                old(self)@.cursor_col
            }) && final(self)@.board == old(self)@.board,
            action == Action::Drop ==> final(self)@.cursor_col == old(self)@.cursor_col
                && final(self)@.board == (if old(self)@.board.drop_error(old(self)@.cursor_col) is None {
                old(self)@.board.drop_result(old(self)@.cursor_col)
            } else {
                old(self)@.board
            }),
            action == Action::Restart ==> if old(self)@.board.state != GameState::InProgress {
                final(self)@.board == initial_model() && final(self)@.cursor_col == 3
            } else {
                final(self)@.board == old(self)@.board && final(self)@.cursor_col == old(self)@.cursor_col
            },
            action == Action::Quit || action == Action::Nothing ==> final(self)@.board == old(self)@.board
                && final(self)@.cursor_col == old(self)@.cursor_col,
    {
        proof {
            use_type_invariant(&*self);
        }
        match action {
            Action::MoveLeft => self.cursor_col = self.cursor_col.saturating_sub(1),
            Action::MoveRight => {
                if self.cursor_col < COLS - 1 {
                    self.cursor_col += 1;
                }
            },
            Action::Drop => {
                if self.board.state() == GameState::InProgress {
                    let mut board = Board::new();
                    std::mem::swap(&mut board, &mut self.board);
                    let _ = board.drop_piece(self.cursor_col);
                    self.board = board;
                }
            },
            Action::Restart => {
                if self.board.state() != GameState::InProgress {
                    self.board = Board::new();
                    self.cursor_col = 3;
                }
            },
            Action::Quit => return false,
            Action::Nothing => {},
        }
        proof {
            use_type_invariant(&*self);
        }
        true
    }
}

} // verus!
