# connect4

Connect Four in the terminal for two players at one keyboard (Red and
Yellow), with an optional minimax opponent for Yellow (`--computer`); the
rules and the search are proved correct by Verus.

- `src/grid.rs`: geometry of the 6 x 7 board, runs and lines of four.
- `src/game.rs`: the board and the rules (dropping, win and draw detection,
  the winning line), with the board's consistency as a type invariant.
- `src/ai.rs`: the computer player; alpha-beta search proved to return the
  plain minimax value and column.
- `src/controls.rs`, `src/session.rs`: key bindings and the turn loop (cursor always on the board).
- `app/`: the terminal front end (crossterm, ratatui).
