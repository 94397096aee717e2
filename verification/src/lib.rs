//! Connect Four: the board and its rules, and a minimax opponent.
pub mod game;
pub mod grid;
pub mod ai;
pub mod controls;
pub mod session;
