//! The board, the players and the rules of a game of Connect Four.
use std::ops::Not;
use vstd::prelude::*;

use crate::grid::{
    at, cell_index, direction_step, four_from, direction, has_four, in_bounds, is_direction, lemma_cell_unchanged, lemma_run_cells,
    holds, lemma_place, line_in_direction, ray, ray_cells, run_len, step, wins_through, CELLS, COLS, ROWS,
};

verus! {

/// One of the two players.  Red moves first.
#[derive(Clone, Copy, PartialEq, Eq, Debug, Structural)]
pub enum Player {
    Red,
    Yellow,
}

impl Player {
    /// The other player.
    pub open spec fn opponent(self) -> Player {
        match self {
            Player::Red => Player::Yellow,
            Player::Yellow => Player::Red,
        }
    }

    /// The name under which the player is shown.
    pub open spec fn label(self) -> Seq<char> {
        match self {
            Player::Red => "Red"@,
            Player::Yellow => "Yellow"@,
        }
    }

    /// The name under which the player is shown: "Red" or "Yellow".
    pub fn name(self) -> (s: &'static str)
        ensures
            s@ == self.label(),
    {
        match self {
            Player::Red => "Red",
            Player::Yellow => "Yellow",
        }
    }
}

impl std::ops::Not for Player {
    type Output = Player;

    /// `!p` is the other player.
    fn not(self) -> (r: Player)
        ensures
            r == self.opponent(),
    {
        match self {
            Player::Red => Player::Yellow,
            Player::Yellow => Player::Red,
        }
    }
}

impl vstd::std_specs::ops::NotSpecImpl for Player {
    open spec fn obeys_not_spec() -> bool {
        true
    }

    open spec fn not_req(self) -> bool {
        true
    }

    open spec fn not_spec(self) -> Player {
        self.opponent()
    }
}

/// The content of one cell of the board.
#[derive(Clone, Copy, PartialEq, Eq, Debug, Structural)]
pub enum Cell {
    Empty,
    Occupied(Player),
}

/// Where a game stands.
#[derive(Clone, Copy, PartialEq, Eq, Debug, Structural)]
pub enum GameState {
    InProgress,
    Won(Player),
    Draw,
}

/// Why a piece could not be dropped.
#[derive(Clone, Copy, PartialEq, Eq, Debug, Structural)]
pub enum MoveError {
    ColumnFull,
    ColumnOutOfBounds,
    GameOver,
}

/// A game of Connect Four: a grid of 6 rows (row 0 on top) and 7 columns,
/// the player to move, and the state of the game.
pub struct Board {
    grid: [Cell; CELLS],
    current_player: Player,
    state: GameState,
    move_count: u32,
    last_move: Option<(usize, usize)>,
}

/// The mathematical value of a board.
pub struct BoardModel {
    /// The cells, row by row.
    pub grid: Seq<Cell>,
    /// The player to move, or, once the game is over, the player who moved last.
    pub player: Player,
    pub state: GameState,
    /// The number of pieces dropped so far.
    pub moves: int,
    /// The cell of the piece dropped last.
    pub last: Option<(int, int)>,
}

/// The piece of player `p`.
pub open spec fn piece(p: Player) -> Cell {
    Cell::Occupied(p)
}

/// The player whose turn it is after `n` pieces: Red on even counts.
pub open spec fn turn_of(n: int) -> Player {
    if n % 2 == 0 {
        Player::Red
    } else {
        Player::Yellow
    }
}

/// Number of occupied cells.
pub open spec fn occupied_count(g: Seq<Cell>) -> nat
    decreases g.len(),
{
    if g.len() == 0 {
        0
    } else {
        occupied_count(g.drop_last()) + if g.last() is Occupied {
            1nat
        } else {
            0nat
        }
    }
}

/// Number of pieces of player `p`.
pub open spec fn pieces_of(g: Seq<Cell>, p: Player) -> nat
    decreases g.len(),
{
    if g.len() == 0 {
        0
    } else {
        pieces_of(g.drop_last(), p) + if g.last() == piece(p) {
            1nat
        } else {
            0nat
        }
    }
}

/// Pieces lie on the bottom of their column: below an occupied cell every
/// cell is occupied.
pub open spec fn settled(g: Seq<Cell>) -> bool {
    forall|r1: int, r2: int, c: int|
        #![trigger at(g, r1, c), at(g, r2, c)]
        0 <= r1 <= r2 < 6 && 0 <= c < 7 && at(g, r1, c) is Occupied ==> at(g, r2, c) is Occupied
}

/// No column has room for another piece.
pub open spec fn is_full(g: Seq<Cell>) -> bool {
    forall|c: int| 0 <= c < 7 ==> #[trigger] at(g, 0, c) is Occupied
}

/// The lowest empty cell of column `c` at row `r` or above, or -1 if there is none.
pub open spec fn lowest_empty(g: Seq<Cell>, c: int, r: int) -> int
    decreases r + 1,
{
    if r < 0 {
        -1
    } else if at(g, r, c) is Empty {
        r
    } else {
        lowest_empty(g, c, r - 1)
    }
}

/// The row on which a piece dropped into column `c` comes to rest.
pub open spec fn landing_row(g: Seq<Cell>, c: int) -> int {
    lowest_empty(g, c, 5)
}

/// Where a game stands once player `p` has dropped the piece that made the
/// move count `moves` on cell `(r, c)` of grid `g`.
pub open spec fn outcome(g: Seq<Cell>, r: int, c: int, p: Player, moves: int) -> GameState {
    if wins_through(g, r, c, piece(p)) {
        GameState::Won(p)
    } else if moves == 42 {
        GameState::Draw
    } else {
        GameState::InProgress
    }
}

/// The board before any move.
pub open spec fn initial_model() -> BoardModel {
    BoardModel {
        grid: Seq::new(42, |i: int| Cell::Empty),
        player: Player::Red,
        state: GameState::InProgress,
        moves: 0,
        last: None,
    }
}

impl BoardModel {
    /// The board is one that a game can reach: pieces settled in their
    /// columns, the move count equal to the number of pieces, the turn
    /// alternating from Red, and the state telling whether some player has
    /// four in a row.
    pub open spec fn consistent(self) -> bool {
        &&& self.grid.len() == 42
        &&& settled(self.grid)
        &&& self.moves == occupied_count(self.grid)
        &&& pieces_of(self.grid, Player::Red) == (self.moves + 1) / 2
        &&& pieces_of(self.grid, Player::Yellow) == self.moves / 2
        &&& (self.last matches Some(rc) ==> in_bounds(rc.0, rc.1) && at(self.grid, rc.0, rc.1) is Occupied)
        &&& match self.state {
            GameState::InProgress => {
                &&& self.moves < 42
                &&& !has_four(self.grid, piece(Player::Red))
                &&& !has_four(self.grid, piece(Player::Yellow))
                &&& self.player == turn_of(self.moves)
            },
            GameState::Draw => {
                &&& self.moves == 42
                &&& !has_four(self.grid, piece(Player::Red))
                &&& !has_four(self.grid, piece(Player::Yellow))
                &&& self.player == turn_of(self.moves - 1)
            },
            GameState::Won(p) => {
                &&& has_four(self.grid, piece(p))
                &&& !has_four(self.grid, piece(p.opponent()))
                &&& self.player == p
                &&& self.player == turn_of(self.moves - 1)
                &&& self.last matches Some(rc)
                &&& at(self.grid, rc.0, rc.1) == piece(p)
                &&& wins_through(self.grid, rc.0, rc.1, piece(p))
            },
        }
    }

    /// The error that dropping a piece into column `col` meets, if any.
    pub open spec fn drop_error(self, col: int) -> Option<MoveError> {
        if col >= 7 {
            Some(MoveError::ColumnOutOfBounds)
        } else if self.state != GameState::InProgress {
            Some(MoveError::GameOver)
        } else if at(self.grid, 0, col) is Occupied {
            Some(MoveError::ColumnFull)
        } else {
            None
        }
    }

    /// The board after the player to move drops a piece into column `col`.
    pub open spec fn drop_result(self, col: int) -> BoardModel {
        let r = landing_row(self.grid, col);
        let g = self.grid.update(cell_index(r, col), piece(self.player));
        let s = outcome(g, r, col, self.player, self.moves + 1);
        BoardModel {
            grid: g,
            player: if s == GameState::InProgress {
                self.player.opponent()
            } else {
                self.player
            },
            state: s,
            moves: self.moves + 1,
            last: Some((r, col)),
        }
    }
}

impl View for Board {
    type V = BoardModel;

    closed spec fn view(&self) -> BoardModel {
        BoardModel {
            grid: self.grid@,
            player: self.current_player,
            state: self.state,
            moves: self.move_count as int,
            last: match self.last_move {
                Some(rc) => Some((rc.0 as int, rc.1 as int)),
                None => None,
            },
        }
    }
}

/// A grid holds at most as many pieces as cells, as many exactly when every
/// cell is occupied, and none when every cell is empty.
pub proof fn lemma_count(g: Seq<Cell>)
    ensures
        occupied_count(g) <= g.len(),
        occupied_count(g) == g.len() <==> forall|i: int| 0 <= i < g.len() ==> #[trigger] g[i] is Occupied,
        (forall|i: int| 0 <= i < g.len() ==> #[trigger] g[i] is Empty) ==> occupied_count(g) == 0,
    decreases g.len(),
{
    if g.len() > 0 {
        let d = g.drop_last();
        lemma_count(d);
        assert forall|i: int| 0 <= i < d.len() implies d[i] == g[i] by {}
        if forall|i: int| 0 <= i < g.len() ==> #[trigger] g[i] is Occupied {
            assert(g[g.len() - 1] is Occupied);
            assert forall|i: int| 0 <= i < d.len() implies #[trigger] d[i] is Occupied by {
                assert(g[i] is Occupied);
            }
        }
        if occupied_count(g) == g.len() {
            assert forall|i: int| 0 <= i < g.len() implies #[trigger] g[i] is Occupied by {
                if i < d.len() {
                    assert(d[i] is Occupied);
                }
            }
        }
        if forall|i: int| 0 <= i < g.len() ==> #[trigger] g[i] is Empty {
            assert(g[g.len() - 1] is Empty);
            assert forall|i: int| 0 <= i < d.len() implies #[trigger] d[i] is Empty by {
                assert(g[i] is Empty);
            }
        }
    }
}

/// Filling an empty cell adds one piece to the count.
pub proof fn lemma_count_place(g: Seq<Cell>, i: int, v: Cell)
    requires
        0 <= i < g.len(),
        g[i] is Empty,
        v is Occupied,
    ensures
        occupied_count(g.update(i, v)) == occupied_count(g) + 1,
    decreases g.len(),
{
    let g2 = g.update(i, v);
    if i == g.len() - 1 {
        assert(g2.drop_last() =~= g.drop_last());
    } else {
        assert(g2.drop_last() =~= g.drop_last().update(i, v));
        lemma_count_place(g.drop_last(), i, v);
    }
}

/// Filling an empty cell with a piece of `p` adds one to the pieces of `p`
/// and none to those of `q` (another player).
pub proof fn lemma_pieces_place(g: Seq<Cell>, i: int, p: Player, q: Player)
    requires
        0 <= i < g.len(),
        g[i] is Empty,
        p != q,
    ensures
        pieces_of(g.update(i, piece(p)), p) == pieces_of(g, p) + 1,
        pieces_of(g.update(i, piece(p)), q) == pieces_of(g, q),
    decreases g.len(),
{
    let g2 = g.update(i, piece(p));
    if i == g.len() - 1 {
        assert(g2.drop_last() =~= g.drop_last());
    } else {
        assert(g2.drop_last() =~= g.drop_last().update(i, piece(p)));
        lemma_pieces_place(g.drop_last(), i, p, q);
    }
}

/// An empty grid holds no pieces of anybody.
proof fn lemma_pieces_empty(g: Seq<Cell>, p: Player)
    requires
        forall|i: int| 0 <= i < g.len() ==> #[trigger] g[i] is Empty,
    ensures
        pieces_of(g, p) == 0,
    decreases g.len(),
{
    if g.len() > 0 {
        assert forall|i: int| 0 <= i < g.len() - 1 implies #[trigger] g.drop_last()[i] is Empty by {
            assert(g[i] is Empty);
        }
        lemma_pieces_empty(g.drop_last(), p);
        assert(g[g.len() - 1] is Empty);
    }
}

/// On a settled grid, every column is full exactly when all 42 cells are occupied.
pub proof fn lemma_full(g: Seq<Cell>)
    requires
        g.len() == 42,
        settled(g),
    ensures
        is_full(g) <==> occupied_count(g) == 42,
{
    lemma_count(g);
    if is_full(g) {
        assert forall|i: int| 0 <= i < g.len() implies #[trigger] g[i] is Occupied by {
            let r = i / 7;
            let c = i % 7;
            assert(i == r * 7 + c);
            assert(at(g, 0, c) is Occupied);
            assert(at(g, 0, c) is Occupied ==> at(g, r, c) is Occupied);
        }
    }
    if occupied_count(g) == 42 {
        assert forall|c: int| 0 <= c < 7 implies #[trigger] at(g, 0, c) is Occupied by {
            assert(g[cell_index(0, c)] is Occupied);
        }
    }
}

/// Scanning column `c` upward from row `k`: the scan stops on an empty cell
/// all of whose cells below, up to row `k`, are occupied.
pub proof fn lemma_lowest_empty(g: Seq<Cell>, c: int, k: int)
    requires
        g.len() == 42,
        0 <= c < 7,
        0 <= k <= 5,
        at(g, 0, c) is Empty,
    ensures
        0 <= lowest_empty(g, c, k) <= k,
        at(g, lowest_empty(g, c, k), c) is Empty,
        forall|r: int| lowest_empty(g, c, k) < r <= k ==> #[trigger] at(g, r, c) is Occupied,
    decreases k,
{
    if k > 0 && at(g, k, c) is Occupied {
        lemma_lowest_empty(g, c, k - 1);
    }
}

/// The board before any move is consistent.
pub proof fn lemma_initial_consistent()
    ensures
        initial_model().consistent(),
{
    let m = initial_model();
    lemma_count(m.grid);
    assert(occupied_count(m.grid) == 0);
    lemma_pieces_empty(m.grid, Player::Red);
    lemma_pieces_empty(m.grid, Player::Yellow);
    lemma_no_four_on_empty(m.grid, Player::Red);
    lemma_no_four_on_empty(m.grid, Player::Yellow);
}

/// An empty grid holds no line of four.
proof fn lemma_no_four_on_empty(g: Seq<Cell>, p: Player)
    requires
        g == Seq::new(42, |i: int| Cell::Empty),
    ensures
        !has_four(g, piece(p)),
{
    if has_four(g, piece(p)) {
        let (r, c, dr, dc) = choose|r: int, c: int, dr: int, dc: int|
            is_direction(dr, dc) && #[trigger] four_from(g, r, c, dr, dc, piece(p));
        assert(at(g, r, c) == Cell::Empty);
    }
}

/// Dropping a piece where the rules allow it keeps the board consistent,
/// and the piece comes to rest on the lowest empty cell of its column.
pub proof fn lemma_drop_consistent(m: BoardModel, col: int)
    requires
        m.consistent(),
        0 <= col,
        m.drop_error(col) is None,
    ensures
        0 <= landing_row(m.grid, col) < 6,
        at(m.grid, landing_row(m.grid, col), col) is Empty,
        landing_row(m.grid, col) == 5 || at(m.grid, landing_row(m.grid, col) + 1, col) is Occupied,
        m.drop_result(col).consistent(),
{
    let g = m.grid;
    let p = m.player;
    lemma_lowest_empty(g, col, 5);
    let r = landing_row(g, col);
    let g2 = g.update(cell_index(r, col), piece(p));
    let n = m.drop_result(col);
    assert(n.grid == g2);
    // Pieces stay settled.
    assert forall|r1: int, r2: int, c: int|
        0 <= r1 <= r2 < 6 && 0 <= c < 7 && #[trigger] at(g2, r1, c) is Occupied implies #[trigger] at(
            g2,
            r2,
            c,
        ) is Occupied by {
        if c != col {
            lemma_cell_unchanged(g, r, col, piece(p), r1, c);
            lemma_cell_unchanged(g, r, col, piece(p), r2, c);
        } else if r2 == r {
        } else if r1 == r {
            assert(at(g, r + 1, col) is Occupied);
            assert(at(g, r + 1, col) is Occupied ==> at(g, r2, col) is Occupied);
            lemma_cell_unchanged(g, r, col, piece(p), r2, c);
        } else {
            lemma_cell_unchanged(g, r, col, piece(p), r1, c);
            lemma_cell_unchanged(g, r, col, piece(p), r2, c);
            if r1 < r && r < r2 {
                assert(at(g, r1, col) is Occupied ==> at(g, r, col) is Occupied);
            }
            if r2 < r {
            }
        }
    }
    // One more piece.
    lemma_count_place(g, cell_index(r, col), piece(p));
    lemma_count(g2);
    lemma_pieces_place(g, cell_index(r, col), p, p.opponent());
    // Fours after the move.
    lemma_place(g, r, col, piece(p), piece(p.opponent()));
}

/// Which drops the rules refuse: a column off the board, any column once
/// the game is over, and a column whose top cell is taken, in that order.
pub proof fn law_drop_errors(m: BoardModel, col: int)
    requires
        0 <= col,
    ensures
        m.drop_error(col) == Some(MoveError::ColumnOutOfBounds) <==> col >= 7,
        m.drop_error(col) == Some(MoveError::GameOver) <==> col < 7 && m.state != GameState::InProgress,
        m.drop_error(col) == Some(MoveError::ColumnFull) <==> col < 7 && m.state == GameState::InProgress
            && at(m.grid, 0, col) is Occupied,
        m.drop_error(col) is None <==> col < 7 && m.state == GameState::InProgress && at(m.grid, 0, col) is Empty,
{
}

/// A drop that the rules allow puts one piece of the player to move on the
/// lowest empty cell of the column and changes no other cell.
pub proof fn law_drop_changes_one_cell(m: BoardModel, col: int)
    requires
        m.consistent(),
        0 <= col,
        m.drop_error(col) is None,
    ensures
        ({
            let r = m.drop_result(col).last.unwrap().0;
            &&& m.drop_result(col).last == Some((r, col))
            &&& 0 <= r < 6
            &&& at(m.grid, r, col) is Empty
            &&& (r == 5 || at(m.grid, r + 1, col) is Occupied)
            &&& at(m.drop_result(col).grid, r, col) == piece(m.player)
            &&& forall|r2: int, c2: int|
                in_bounds(r2, c2) && (r2 != r || c2 != col) ==> #[trigger] at(m.drop_result(col).grid, r2, c2)
                    == at(m.grid, r2, c2)
            &&& m.drop_result(col).moves == m.moves + 1
            &&& m.drop_result(col).grid.len() == 42
        }),
{
    lemma_drop_consistent(m, col);
    let r = landing_row(m.grid, col);
    assert forall|r2: int, c2: int| in_bounds(r2, c2) && (r2 != r || c2 != col) implies #[trigger] at(
        m.drop_result(col).grid,
        r2,
        c2,
    ) == at(m.grid, r2, c2) by {
        lemma_cell_unchanged(m.grid, r, col, piece(m.player), r2, c2);
    }
}

/// The players' pieces stay balanced: Red has as many pieces as Yellow or
/// one more, and while the game is on Red is to move exactly when the
/// counts are equal.
pub proof fn law_piece_balance(m: BoardModel)
    requires
        m.consistent(),
    ensures
        pieces_of(m.grid, Player::Red) == pieces_of(m.grid, Player::Yellow) || pieces_of(
            m.grid,
            Player::Red,
        ) == pieces_of(m.grid, Player::Yellow) + 1,
        m.state == GameState::InProgress ==> (m.player == Player::Red <==> pieces_of(m.grid, Player::Red)
            == pieces_of(m.grid, Player::Yellow)),
{
}

/// On a consistent board, a player has won exactly when four of their pieces
/// stand in a line.
pub proof fn law_win_iff_four(m: BoardModel, p: Player)
    requires
        m.consistent(),
    ensures
        m.state == GameState::Won(p) <==> has_four(m.grid, piece(p)),
{
    if has_four(m.grid, piece(p)) {
        match m.state {
            GameState::Won(q) => {
                if q != p {
                    assert(p == q.opponent());
                }
            },
            GameState::InProgress => {
                assert(p == Player::Red || p == Player::Yellow);
            },
            GameState::Draw => {
                assert(p == Player::Red || p == Player::Yellow);
            },
        }
    }
}

/// On a consistent board, the game is drawn exactly when every column is
/// full and neither player has four in a line.
pub proof fn law_draw_iff_full(m: BoardModel)
    requires
        m.consistent(),
    ensures
        m.state == GameState::Draw <==> (is_full(m.grid) && !has_four(m.grid, piece(Player::Red))
            && !has_four(m.grid, piece(Player::Yellow))),
{
    lemma_full(m.grid);
    if let GameState::Won(p) = m.state {
        assert(p == Player::Red || p == Player::Yellow);
    }
}

/// While a game is in progress some column has room for another piece.
pub proof fn law_room_while_in_progress(m: BoardModel)
    requires
        m.consistent(),
        m.state == GameState::InProgress,
    ensures
        !is_full(m.grid),
{
    lemma_full(m.grid);
}

/// The cells of the first line of `t` at least four long through `(r, c)`,
/// trying directions from number `k` on: the cell itself, then the run on
/// the forward side, then the run on the backward side.
pub open spec fn line_cells_from(g: Seq<Cell>, r: int, c: int, t: Cell, k: int) -> Option<
    Seq<(usize, usize)>,
>
    decreases 4 - k,
{
    if k < 0 || k >= 4 {
        None
    } else if line_in_direction(g, r, c, k, t) >= 4 {
        let d = direction(k);
        Some(
            seq![(r as usize, c as usize)] + ray_cells(g, r, c, d.0, d.1, t) + ray_cells(
                g,
                r,
                c,
                -d.0,
                -d.1,
                t,
            ),
        )
    } else {
        line_cells_from(g, r, c, t, k + 1)
    }
}

/// The winning line of a won game: the first line of four or more through
/// the last piece dropped.
pub open spec fn winning_line(m: BoardModel) -> Option<Seq<(usize, usize)>> {
    match m.state {
        GameState::Won(p) => match m.last {
            Some(rc) => line_cells_from(m.grid, rc.0, rc.1, piece(p), 0),
            None => None,
        },
        _ => None,
    }
}

/// `v` shows a win: at least four cells, starting with the last piece
/// dropped, all holding pieces of the winner.
pub open spec fn shows_win(m: BoardModel, v: Seq<(usize, usize)>) -> bool {
    &&& m.state matches GameState::Won(p)
    &&& m.last matches Some(rc)
    &&& v.len() >= 4
    &&& v[0] == (rc.0 as usize, rc.1 as usize)
    &&& forall|i: int| 0 <= i < v.len() ==> holds(m.grid, #[trigger] v[i].0 as int, v[i].1 as int, piece(p))
}

/// The lines tried from direction number `k` on: when one is found it holds
/// `t` throughout and is at least four long; when none is, no line from
/// direction `k` on is four long.
proof fn lemma_line_cells(g: Seq<Cell>, r: int, c: int, t: Cell, k: int)
    requires
        holds(g, r, c, t),
        0 <= k <= 4,
    ensures
        match line_cells_from(g, r, c, t, k) {
            Some(v) => {
                &&& v.len() >= 4
                &&& v[0] == (r as usize, c as usize)
                &&& forall|i: int| 0 <= i < v.len() ==> holds(g, #[trigger] v[i].0 as int, v[i].1 as int, t)
            },
            None => forall|j: int| k <= j < 4 ==> #[trigger] line_in_direction(g, r, c, j, t) < 4,
        },
    decreases 4 - k,
{
    if k < 4 {
        if line_in_direction(g, r, c, k, t) >= 4 {
            let d = direction(k);
            let a = ray_cells(g, r, c, d.0, d.1, t);
            let b = ray_cells(g, r, c, -d.0, -d.1, t);
            let v = seq![(r as usize, c as usize)] + a + b;
            lemma_ray_cells_hold(g, r, c, d.0, d.1, t);
            lemma_ray_cells_hold(g, r, c, -d.0, -d.1, t);
            assert forall|i: int| 0 <= i < v.len() implies holds(g, #[trigger] v[i].0 as int, v[i].1 as int, t) by {
                if i == 0 {
                } else if i < 1 + a.len() {
                    assert(v[i] == a[i - 1]);
                } else {
                    assert(v[i] == b[i - 1 - a.len()]);
                }
            }
        } else {
            lemma_line_cells(g, r, c, t, k + 1);
        }
    }
}

/// Every cell listed by `ray_cells` holds the value of the run.
proof fn lemma_ray_cells_hold(g: Seq<Cell>, r: int, c: int, dr: int, dc: int, t: Cell)
    requires
        -1 <= dr <= 1,
        -1 <= dc <= 1,
    ensures
        forall|i: int|
            0 <= i < ray_cells(g, r, c, dr, dc, t).len() ==> holds(
                g,
                #[trigger] ray_cells(g, r, c, dr, dc, t)[i].0 as int,
                ray_cells(g, r, c, dr, dc, t)[i].1 as int,
                t,
            ),
{
    assert forall|i: int| 0 <= i < ray_cells(g, r, c, dr, dc, t).len() implies holds(
        g,
        #[trigger] ray_cells(g, r, c, dr, dc, t)[i].0 as int,
        ray_cells(g, r, c, dr, dc, t)[i].1 as int,
        t,
    ) by {
        lemma_run_cells(g, r + dr, c + dc, dr, dc, t, 7, i);
    }
}

/// A won game has a winning line, and it shows the win.
pub proof fn law_winning_line(m: BoardModel)
    requires
        m.consistent(),
    ensures
        m.state is Won <==> winning_line(m) is Some,
        winning_line(m) matches Some(v) ==> shows_win(m, v),
{
    if let GameState::Won(p) = m.state {
        let rc = m.last.unwrap();
        lemma_line_cells(m.grid, rc.0, rc.1, piece(p), 0);
    }
}

/// Number of steps along direction `d` from `(r, c)` to `(x, y)`, for a
/// cell on that line.
pub open spec fn steps_along(x: int, y: int, r: int, c: int, d: (int, int)) -> int {
    if d.0 > 0 {
        x - r
    } else if d.0 < 0 {
        r - x
    } else if d.1 > 0 {
        y - c
    } else {
        c - y
    }
}

/// `v` is exactly the line of `t` through `(r, c)` along direction number
/// `k`: as many cells as that line is long, no cell twice, and each cell `j`
/// steps from `(r, c)` along the direction, with `j` between the two ends of
/// the line.
pub open spec fn is_line_along(g: Seq<Cell>, r: int, c: int, t: Cell, k: int, v: Seq<(usize, usize)>) -> bool {
    let d = direction(k);
    &&& v.len() == line_in_direction(g, r, c, k, t)
    &&& forall|i: int|
        #![trigger v[i]]
        0 <= i < v.len() ==> {
            let j = steps_along(v[i].0 as int, v[i].1 as int, r, c, d);
            &&& -ray(g, r, c, -d.0, -d.1, t) <= j <= ray(g, r, c, d.0, d.1, t)
            &&& v[i].0 as int == step(r, d.0, j)
            &&& v[i].1 as int == step(c, d.1, j)
        }
    &&& forall|i1: int, i2: int| 0 <= i1 < i2 < v.len() ==> v[i1] != v[i2]
}

/// The cells collected for direction number `k` are that line exactly.
proof fn lemma_cells_along(g: Seq<Cell>, r: int, c: int, t: Cell, k: int)
    requires
        holds(g, r, c, t),
        0 <= k < 4,
    ensures
        is_line_along(
            g,
            r,
            c,
            t,
            k,
            seq![(r as usize, c as usize)] + ray_cells(g, r, c, direction(k).0, direction(k).1, t) + ray_cells(
                g,
                r,
                c,
                -direction(k).0,
                -direction(k).1,
                t,
            ),
        ),
{
    let d = direction(k);
    let a = ray_cells(g, r, c, d.0, d.1, t);
    let b = ray_cells(g, r, c, -d.0, -d.1, t);
    let v = seq![(r as usize, c as usize)] + a + b;
    let na = a.len() as int;
    let nb = b.len() as int;
    // The offset of each listed cell from `(r, c)`.
    let off = |i: int|
        if i == 0 {
            0int
        } else if i <= na {
            i
        } else {
            na - i
        };
    assert forall|i: int| #![trigger v[i]] 0 <= i < v.len() implies {
        &&& 0 <= step(r, d.0, off(i)) < 6
        &&& 0 <= step(c, d.1, off(i)) < 7
        &&& v[i].0 as int == step(r, d.0, off(i))
        &&& v[i].1 as int == step(c, d.1, off(i))
        &&& -nb <= off(i) <= na
        &&& steps_along(v[i].0 as int, v[i].1 as int, r, c, d) == off(i)
    } by {
        if i == 0 {
        } else if i <= na {
            assert(v[i] == a[i - 1]);
            lemma_run_cells(g, r + d.0, c + d.1, d.0, d.1, t, 7, i - 1);
        } else {
            assert(v[i] == b[i - 1 - na]);
            lemma_run_cells(g, r - d.0, c - d.1, -d.0, -d.1, t, 7, i - 1 - na);
        }
    }
    assert forall|i1: int, i2: int| 0 <= i1 < i2 < v.len() implies v[i1] != v[i2] by {
        assert(off(i1) != off(i2));
        if v[i1] == v[i2] {
            assert(step(r, d.0, off(i1)) == step(r, d.0, off(i2)));
            assert(step(c, d.1, off(i1)) == step(c, d.1, off(i2)));
        }
    }
    assert(v.len() == line_in_direction(g, r, c, k, t));
}

/// The cells tried from direction number `k` on: the first line of four or
/// more, exactly.
proof fn lemma_line_cells_first(g: Seq<Cell>, r: int, c: int, t: Cell, k0: int)
    requires
        holds(g, r, c, t),
        0 <= k0 <= 4,
        line_cells_from(g, r, c, t, k0) is Some,
    ensures
        exists|k: int|
            k0 <= k < 4 && line_in_direction(g, r, c, k, t) >= 4 && (forall|k2: int|
                k0 <= k2 < k ==> #[trigger] line_in_direction(g, r, c, k2, t) < 4) && is_line_along(
                g,
                r,
                c,
                t,
                k,
                line_cells_from(g, r, c, t, k0).unwrap(),
            ),
    decreases 4 - k0,
{
    if line_in_direction(g, r, c, k0, t) >= 4 {
        lemma_cells_along(g, r, c, t, k0);
        let d = direction(k0);
        assert(line_cells_from(g, r, c, t, k0).unwrap() == seq![(r as usize, c as usize)] + ray_cells(
            g,
            r,
            c,
            d.0,
            d.1,
            t,
        ) + ray_cells(g, r, c, -d.0, -d.1, t));
        assert(k0 <= k0 < 4 && line_in_direction(g, r, c, k0, t) >= 4 && (forall|k2: int|
            k0 <= k2 < k0 ==> #[trigger] line_in_direction(g, r, c, k2, t) < 4) && is_line_along(
            g,
            r,
            c,
            t,
            k0,
            line_cells_from(g, r, c, t, k0).unwrap(),
        ));
    } else {
        lemma_line_cells_first(g, r, c, t, k0 + 1);
        let k = choose|k: int|
            k0 + 1 <= k < 4 && line_in_direction(g, r, c, k, t) >= 4 && (forall|k2: int|
                k0 + 1 <= k2 < k ==> #[trigger] line_in_direction(g, r, c, k2, t) < 4) && is_line_along(
                g,
                r,
                c,
                t,
                k,
                line_cells_from(g, r, c, t, k0 + 1).unwrap(),
            );
        assert(forall|k2: int| k0 <= k2 < k ==> #[trigger] line_in_direction(g, r, c, k2, t) < 4);
    }
}

/// The winning cells of a won game are one line through the last piece: the
/// whole line of the winner's pieces through it along the first direction
/// (horizontal, vertical, then the diagonals) in which it is four or more
/// long, each cell once, and no other cell.
pub proof fn law_winning_line_is_one_line(m: BoardModel, p: Player, r: int, c: int)
    requires
        m.consistent(),
        m.state == GameState::Won(p),
        m.last == Some((r, c)),
    ensures
        winning_line(m) is Some,
        exists|k: int|
            0 <= k < 4 && line_in_direction(m.grid, r, c, k, piece(p)) >= 4 && (forall|k2: int|
                0 <= k2 < k ==> #[trigger] line_in_direction(m.grid, r, c, k2, piece(p)) < 4) && is_line_along(
                m.grid,
                r,
                c,
                piece(p),
                k,
                winning_line(m).unwrap(),
            ),
{
    law_winning_line(m);
    lemma_line_cells_first(m.grid, r, c, piece(p), 0);
}

impl Board {
    #[verifier::type_invariant]
    spec fn inv(&self) -> bool {
        self@.consistent()
    }

    /// A board with no pieces, Red to move.
    pub fn new() -> (b: Board)
        ensures
            b@ == initial_model(),
    {
        proof {
            lemma_initial_consistent();
        }
        let grid = [Cell::Empty; CELLS];
        assert(grid@ =~= initial_model().grid);
        Board {
            grid,
            current_player: Player::Red,
            state: GameState::InProgress,
            move_count: 0,
            last_move: None,
        }
    }

    /// The player to move (or, once the game is over, who moved last).
    pub fn current_player(&self) -> (p: Player)
        ensures
            p == self@.player,
            self@.consistent(),
    {
        proof {
            use_type_invariant(self);
        }
        self.current_player
    }

    /// Where the game stands.
    pub fn state(&self) -> (s: GameState)
        ensures
            s == self@.state,
            self@.consistent(),
    {
        proof {
            use_type_invariant(self);
        }
        self.state
    }

    /// The content of cell `(row, col)`.
    pub fn cell(&self, row: usize, col: usize) -> (c: Cell)
        requires
            row < ROWS,
            col < COLS,
        ensures
            c == at(self@.grid, row as int, col as int),
    {
        proof {
            use_type_invariant(self);
        }
        self.grid[row * COLS + col]
    }

    /// Drops a piece of the player to move into column `col`.  It comes to
    /// rest on the lowest empty cell of the column; then the game is won if
    /// the piece completes a line of four, drawn if the board is full, and
    /// otherwise the turn passes to the other player.
    pub fn drop_piece(&mut self, col: usize) -> (res: Result<(usize, usize), MoveError>)
        ensures
            old(self)@.drop_error(col as int) matches Some(e) ==> res == Err::<(usize, usize), MoveError>(e)
                && final(self)@ == old(self)@,
            old(self)@.drop_error(col as int) is None ==> res == Ok::<(usize, usize), MoveError>(
                (landing_row(old(self)@.grid, col as int) as usize, col),
            ) && final(self)@ == old(self)@.drop_result(col as int),
            final(self)@.consistent(),
    {
        proof {
            use_type_invariant(&*self);
        }
        if col >= COLS {
            return Err(MoveError::ColumnOutOfBounds);
        }
        if self.state != GameState::InProgress {
            return Err(MoveError::GameOver);
        }
        if self.grid[col] != Cell::Empty {
            return Err(MoveError::ColumnFull);
        }
        let ghost m = self@;
        proof {
            lemma_drop_consistent(m, col as int);
        }
        let mut grid = self.grid;
        // Find the lowest empty row.
        let mut row: usize = ROWS - 1;
        while grid[row * COLS + col] != Cell::Empty
            invariant
                grid@ == m.grid,
                m.grid.len() == 42,
                col < 7,
                row <= 5,
                at(m.grid, 0, col as int) is Empty,
                lowest_empty(m.grid, col as int, 5) == lowest_empty(m.grid, col as int, row as int),
            decreases row,
        {
            row = row - 1;
        }
        let player = self.current_player;
        grid[row * COLS + col] = Cell::Occupied(player);
        let move_count = self.move_count + 1;
        let mut next = player;
        let state;
        if Self::check_win(&grid, row, col, player) {
            state = GameState::Won(player);
        } else if move_count == (ROWS * COLS) as u32 {
            state = GameState::Draw;
        } else {
            state = GameState::InProgress;
            next = player.not();
        }
        *self = Board { grid, current_player: next, state, move_count, last_move: Some((row, col)) };
        proof {
            assert(self@ =~= m.drop_result(col as int));
        }
        Ok((row, col))
    }

    /// Clears the board for a new game.
    pub fn reset(&mut self)
        ensures
            final(self)@ == initial_model(),
    {
        *self = Self::new();
    }

    /// The cells of the winning line once the game is won: the last piece
    /// dropped and the pieces of the winner in line with it along the first
    /// direction (horizontal, vertical, then the two diagonals) in which
    /// they make four or more.
    pub fn winning_cells(&self) -> (res: Option<Vec<(usize, usize)>>)
        ensures
            res matches Some(v) ==> winning_line(self@) == Some(v@) && shows_win(self@, v@),
            res is None ==> winning_line(self@) is None,
            res is Some <==> self@.state is Won,
    {
        proof {
            use_type_invariant(self);
            law_winning_line(self@);
        }
        let player = match self.state {
            GameState::Won(p) => p,
            _ => return None,
        };
        let (row, col) = match self.last_move {
            Some(rc) => rc,
            None => return None,
        };
        let ghost g = self.grid@;
        let ghost t = piece(player);
        for k in 0..4
            invariant
                g == self.grid@,
                t == piece(player),
                row < 6,
                col < 7,
                self@.state == GameState::Won(player),
                self@.last == Some((row as int, col as int)),
                winning_line(self@) matches Some(v) ==> shows_win(self@, v),
                line_cells_from(g, row as int, col as int, t, 0) == line_cells_from(
                    g,
                    row as int,
                    col as int,
                    t,
                    k as int,
                ),
        {
            let (dr, dc) = direction_step(k);
            let mut cells = vec![(row, col)];
            Self::collect_direction(&self.grid, row, col, dr, dc, player, &mut cells);
            Self::collect_direction(&self.grid, row, col, -dr, -dc, player, &mut cells);
            if cells.len() >= 4 {
                proof {
                    let d = direction(k as int);
                    assert(cells@ =~= seq![(row, col)] + ray_cells(g, row as int, col as int, d.0, d.1, t)
                        + ray_cells(g, row as int, col as int, -d.0, -d.1, t));
                }
                return Some(cells);
            }
        }
        None
    }

    /// Whether the piece of `player` on `(row, col)` completes a line of four.
    fn check_win(grid: &[Cell; CELLS], row: usize, col: usize, player: Player) -> (won: bool)
        requires
            row < 6,
            col < 7,
        ensures
            won == wins_through(grid@, row as int, col as int, piece(player)),
    {
        for k in 0..4
            invariant
                row < 6,
                col < 7,
                forall|j: int|
                    0 <= j < k ==> #[trigger] line_in_direction(grid@, row as int, col as int, j, piece(player))
                        < 4,
        {
            let (dr, dc) = direction_step(k);
            let count = 1 + Self::count_direction(grid, row, col, dr, dc, player)
                + Self::count_direction(grid, row, col, -dr, -dc, player);
            if count >= 4 {
                return true;
            }
        }
        false
    }

    /// Whether `(r, c)` is on the board and holds a piece of `player`.
    fn occupied_by(grid: &[Cell; CELLS], r: isize, c: isize, player: Player) -> (b: bool)
        ensures
            b == holds(grid@, r as int, c as int, piece(player)),
    {
        if r >= 0 && r < ROWS as isize && c >= 0 && c < COLS as isize {
            let cell = grid[(r as usize) * COLS + c as usize];
            cell == Cell::Occupied(player)
        } else {
            false
        }
    }

    /// Number of consecutive pieces of `player` beyond `(row, col)` along `(dr, dc)`.
    fn count_direction(
        grid: &[Cell; CELLS],
        row: usize,
        col: usize,
        dr: isize,
        dc: isize,
        player: Player,
    ) -> (count: u32)
        requires
            row < 6,
            col < 7,
            -1 <= dr <= 1,
            -1 <= dc <= 1,
            dr != 0 || dc != 0,
        ensures
            count == ray(grid@, row as int, col as int, dr as int, dc as int, piece(player)),
            count <= 6,
    {
        let ghost t = piece(player);
        let mut count: u32 = 0;
        let mut r = row as isize + dr;
        let mut c = col as isize + dc;
        while Self::occupied_by(grid, r, c, player)
            invariant
                t == piece(player),
                row < 6,
                col < 7,
                -1 <= dr <= 1,
                -1 <= dc <= 1,
                dr != 0 || dc != 0,
                count <= 6,
                r == step(row as int, dr as int, count + 1),
                c == step(col as int, dc as int, count + 1),
                ray(grid@, row as int, col as int, dr as int, dc as int, t) == count + run_len(
                    grid@,
                    r as int,
                    c as int,
                    dr as int,
                    dc as int,
                    t,
                    (7 - count) as nat,
                ),
            decreases 7 - count,
        {
            count += 1;
            r += dr;
            c += dc;
        }
        count
    }

    /// Appends to `cells` the cells of the run of `player` beyond `(row, col)`
    /// along `(dr, dc)`, nearest first.
    fn collect_direction(
        grid: &[Cell; CELLS],
        row: usize,
        col: usize,
        dr: isize,
        dc: isize,
        player: Player,
        cells: &mut Vec<(usize, usize)>,
    )
        requires
            row < 6,
            col < 7,
            -1 <= dr <= 1,
            -1 <= dc <= 1,
            dr != 0 || dc != 0,
        ensures
            final(cells)@ == old(cells)@ + ray_cells(
                grid@,
                row as int,
                col as int,
                dr as int,
                dc as int,
                piece(player),
            ),
    {
        let ghost t = piece(player);
        let ghost start = cells@;
        let ghost mut n: int = 0;
        let mut r = row as isize + dr;
        let mut c = col as isize + dc;
        while Self::occupied_by(grid, r, c, player)
            invariant
                t == piece(player),
                row < 6,
                col < 7,
                -1 <= dr <= 1,
                -1 <= dc <= 1,
                dr != 0 || dc != 0,
                0 <= n <= 6,
                r == step(row as int, dr as int, n + 1),
                c == step(col as int, dc as int, n + 1),
                ray(grid@, row as int, col as int, dr as int, dc as int, t) == n + run_len(
                    grid@,
                    r as int,
                    c as int,
                    dr as int,
                    dc as int,
                    t,
                    (7 - n) as nat,
                ),
                cells@ == start + Seq::new(
                    n as nat,
                    |i: int| (step(row as int, dr as int, i + 1) as usize, step(col as int, dc as int, i + 1) as usize),
                ),
            decreases 7 - n,
        {
            cells.push((r as usize, c as usize));
            r += dr;
            c += dc;
            proof {
                n = n + 1;
            }
        }
        assert(cells@ =~= start + ray_cells(grid@, row as int, col as int, dr as int, dc as int, t));
    }
}

} // verus!
