//! A computer opponent: minimax search with alpha-beta pruning over a
//! lightweight copy of the board.
use vstd::prelude::*;

use crate::game::{is_full, landing_row, piece, settled, Board, BoardModel, Cell, GameState, Player};
use crate::grid::{
    at, cell_index, direction_step, holds, in_bounds, lemma_cell_unchanged, line_in_direction, ray, run_len, step, wins_through, CELLS, COLS,
    ROWS,
};

verus! {

/// Search depth of `best_move`.
const MAX_DEPTH: u32 = 8;

/// Score of a win found at the root; a win found `n` moves deeper scores `n` less.
pub const WIN_SCORE: i32 = 1_000_000;

/// Order in which columns are tried: centre first, then outwards.
pub open spec fn order_column(i: int) -> int {
    if i == 0 {
        3
    } else if i == 1 {
        2
    } else if i == 2 {
        4
    } else if i == 3 {
        1
    } else if i == 4 {
        5
    } else if i == 5 {
        0
    } else {
        6
    }
}

/// Where column `c` comes in the order in which columns are tried.
pub open spec fn order_index(c: int) -> int {
    if c == 3 {
        0
    } else if c == 2 {
        1
    } else if c == 4 {
        2
    } else if c == 1 {
        3
    } else if c == 5 {
        4
    } else if c == 0 {
        5
    } else {
        6
    }
}

/// Column number `i` in the order in which columns are tried.
fn move_order(i: usize) -> (c: usize)
    requires
        i < 7,
    ensures
        c == order_column(i as int),
        c < 7,
{
    if i == 0 {
        3
    } else if i == 1 {
        2
    } else if i == 2 {
        4
    } else if i == 3 {
        1
    } else if i == 4 {
        5
    } else if i == 5 {
        0
    } else {
        6
    }
}

/// The board as the search sees it: `Some(true)` for a piece of the
/// computer (Yellow), `Some(false)` for one of its opponent (Red), `None`
/// for an empty cell; the number of pieces in each column; whose turn it is.
#[derive(Clone, Copy)]
pub struct SimBoard {
    grid: [Option<bool>; CELLS],
    heights: [usize; COLS],
    current_is_ai: bool,
    move_count: u32,
}

/// The mathematical value of a `SimBoard`.
pub struct SimModel {
    pub grid: Seq<Option<bool>>,
    pub heights: Seq<int>,
    pub ai_to_move: bool,
    pub moves: int,
}

/// Sum of the first `n` entries of `h`.
pub open spec fn total(h: Seq<int>, n: int) -> int
    decreases n,
{
    if n <= 0 {
        0
    } else {
        total(h, n - 1) + h[n - 1]
    }
}

impl SimModel {
    /// Column heights between 0 and 6, and a move count equal to their sum.
    pub open spec fn wf(self) -> bool {
        &&& self.grid.len() == 42
        &&& self.heights.len() == 7
        &&& forall|c: int| 0 <= c < 7 ==> 0 <= #[trigger] self.heights[c] <= 6
        &&& self.moves == total(self.heights, 7)
    }

    /// A piece can go into column `c`.
    pub open spec fn valid(self, c: int) -> bool {
        0 <= c < 7 && self.heights[c] < 6
    }

    /// The row of the top piece of column `c`.
    pub open spec fn last_row(self, c: int) -> int {
        6 - self.heights[c]
    }

    /// The board after the player to move drops a piece into column `c`.
    pub open spec fn drop(self, c: int) -> SimModel {
        SimModel {
            grid: self.grid.update(cell_index(5 - self.heights[c], c), Some(self.ai_to_move)),
            heights: self.heights.update(c, self.heights[c] + 1),
            ai_to_move: !self.ai_to_move,
            moves: self.moves + 1,
        }
    }
}

impl View for SimBoard {
    type V = SimModel;

    closed spec fn view(&self) -> SimModel {
        SimModel {
            grid: self.grid@,
            heights: self.heights@.map_values(|h: usize| h as int),
            ai_to_move: self.current_is_ai,
            moves: self.move_count as int,
        }
    }
}

/// How the search sees the content of a cell.
pub open spec fn mark(c: Cell) -> Option<bool> {
    match c {
        Cell::Empty => None,
        Cell::Occupied(Player::Yellow) => Some(true),
        Cell::Occupied(Player::Red) => Some(false),
    }
}

/// Number of pieces among the bottom `n` cells of column `c`.
pub open spec fn column_pieces(g: Seq<Cell>, c: int, n: int) -> int
    decreases n,
{
    if n <= 0 {
        0
    } else {
        column_pieces(g, c, n - 1) + if at(g, 6 - n, c) is Occupied {
            1int
        } else {
            0int
        }
    }
}

/// The search's view of a board.
pub open spec fn sim_of(b: BoardModel) -> SimModel {
    let heights = Seq::new(7, |c: int| column_pieces(b.grid, c, 6));
    SimModel {
        grid: b.grid.map_values(|x: Cell| mark(x)),
        heights,
        ai_to_move: b.player == Player::Yellow,
        moves: total(heights, 7),
    }
}

/// Heights between 0 and 6: their sum is at most `6 n`, and equals `6 n`
/// only when every height is 6.
proof fn lemma_total_bound(h: Seq<int>, n: int)
    requires
        0 <= n <= h.len(),
        forall|c: int| 0 <= c < n ==> 0 <= #[trigger] h[c] <= 6,
    ensures
        0 <= total(h, n) <= 6 * n,
        total(h, n) == 6 * n <==> forall|c: int| 0 <= c < n ==> #[trigger] h[c] == 6,
    decreases n,
{
    if n > 0 {
        lemma_total_bound(h, n - 1);
    }
}

/// Raising one entry by one raises the sum by one.
proof fn lemma_total_update(h: Seq<int>, n: int, c: int, v: int)
    requires
        0 <= n <= h.len(),
        0 <= c < h.len(),
    ensures
        total(h.update(c, v), n) == total(h, n) + if c < n {
            v - h[c]
        } else {
            0
        },
    decreases n,
{
    if n > 0 {
        lemma_total_update(h, n - 1, c, v);
    }
}

/// Dropping into a valid column keeps the model well formed.
proof fn lemma_drop_wf(m: SimModel, c: int)
    requires
        m.wf(),
        m.valid(c),
    ensures
        m.drop(c).wf(),
{
    lemma_total_update(m.heights, 7, c, m.heights[c] + 1);
}

/// A well-formed model with fewer than 42 pieces has a valid column, and
/// a model with a valid column has fewer than 42 pieces.
proof fn lemma_room(m: SimModel)
    requires
        m.wf(),
    ensures
        m.moves < 42 <==> exists|i: int| 0 <= i < 7 && #[trigger] m.valid(order_column(i)),
{
    lemma_total_bound(m.heights, 7);
    if m.moves < 42 {
        assert(!(forall|c: int| 0 <= c < 7 ==> #[trigger] m.heights[c] == 6));
        assert(exists|c: int| 0 <= c < 7 && #[trigger] m.heights[c] != 6);
        let c = choose|c: int| 0 <= c < 7 && #[trigger] m.heights[c] != 6;
        let i = order_index(c);
        assert(m.valid(order_column(i)));
    }
    if exists|i: int| 0 <= i < 7 && #[trigger] m.valid(order_column(i)) {
        let i = choose|i: int| 0 <= i < 7 && #[trigger] m.valid(order_column(i));
        assert(m.heights[order_column(i)] != 6);
    }
}

/// A column holds at most as many pieces as cells looked at.
proof fn lemma_column_pieces_bound(g: Seq<Cell>, c: int, n: int)
    requires
        0 <= n,
    ensures
        0 <= column_pieces(g, c, n) <= n,
    decreases n,
{
    if n > 0 {
        lemma_column_pieces_bound(g, c, n - 1);
    }
}

/// The bottom `n` cells of a column are all occupied exactly when the
/// column holds `n` pieces among them.
proof fn lemma_column_pieces_full(g: Seq<Cell>, c: int, n: int)
    requires
        0 <= n <= 6,
    ensures
        column_pieces(g, c, n) == n <==> forall|k: int| 6 - n <= k < 6 ==> #[trigger] at(g, k, c) is Occupied,
    decreases n,
{
    if n > 0 {
        lemma_column_pieces_full(g, c, n - 1);
        lemma_column_pieces_bound(g, c, n - 1);
        if column_pieces(g, c, n) == n {
            assert forall|k: int| 6 - n <= k < 6 implies #[trigger] at(g, k, c) is Occupied by {
                if k > 6 - n {
                }
            }
        }
    }
}

/// On a settled grid a column has room exactly when its top cell is empty.
proof fn lemma_column_open(g: Seq<Cell>, c: int)
    requires
        g.len() == 42,
        settled(g),
        0 <= c < 7,
    ensures
        column_pieces(g, c, 6) < 6 <==> at(g, 0, c) is Empty,
{
    lemma_column_pieces_full(g, c, 6);
    lemma_column_pieces_bound(g, c, 6);
    if at(g, 0, c) is Occupied {
        assert forall|k: int| 0 <= k < 6 implies #[trigger] at(g, k, c) is Occupied by {
            assert(at(g, 0, c) is Occupied ==> at(g, k, c) is Occupied);
        }
    }
}

/// One more entry in the sum.
proof fn lemma_total_step(h: Seq<int>, n: int)
    requires
        0 <= n,
    ensures
        total(h, n + 1) == total(h, n) + h[n],
{
}

/// Number of the first `n` cells of the window from `(r, c)` along
/// `(dr, dc)` that hold `v`.
pub open spec fn window_prefix(g: Seq<Option<bool>>, r: int, c: int, dr: int, dc: int, v: Option<bool>, n: int) -> int
    decreases n,
{
    if n <= 0 {
        0
    } else {
        window_prefix(g, r, c, dr, dc, v, n - 1) + if at(g, r + (n - 1) * dr, c + (n - 1) * dc) == v {
            1int
        } else {
            0int
        }
    }
}

/// Score of the window of four cells from `(r, c)` along `(dr, dc)`: 50 for
/// three pieces of the computer and no opponent piece, 5 for two, and the
/// opposite for the opponent; nothing for a window both players share.
pub open spec fn window_score(g: Seq<Option<bool>>, r: int, c: int, dr: int, dc: int) -> int {
    let ai = window_prefix(g, r, c, dr, dc, Some(true), 4);
    let human = window_prefix(g, r, c, dr, dc, Some(false), 4);
    if human == 0 {
        if ai == 3 {
            50
        } else if ai == 2 {
            5
        } else {
            0
        }
    } else if ai == 0 {
        if human == 3 {
            -50
        } else if human == 2 {
            -5
        } else {
            0
        }
    } else {
        0
    }
}

/// Score of the centre column over its top `n` rows: 3 for each piece of
/// the computer, -3 for each piece of its opponent.
pub open spec fn center_bonus(g: Seq<Option<bool>>, n: int) -> int
    decreases n,
{
    if n <= 0 {
        0
    } else {
        center_bonus(g, n - 1) + match at(g, n - 1, 3) {
            Some(true) => 3int,
            Some(false) => -3int,
            None => 0int,
        }
    }
}

/// Scores of the windows that start at `(r, c)`: rightward, downward,
/// down-right and down-left, each when it fits on the board.
pub open spec fn cell_windows(g: Seq<Option<bool>>, r: int, c: int) -> int {
    (if c + 3 < 7 {
        window_score(g, r, c, 0, 1)
    } else {
        0
    }) + (if r + 3 < 6 {
        window_score(g, r, c, 1, 0)
    } else {
        0
    }) + (if r + 3 < 6 && c + 3 < 7 {
        window_score(g, r, c, 1, 1)
    } else {
        0
    }) + (if r + 3 < 6 && c >= 3 {
        window_score(g, r, c, 1, -1)
    } else {
        0
    })
}

/// Window scores of the first `n` cells of row `r`.
pub open spec fn row_windows(g: Seq<Option<bool>>, r: int, n: int) -> int
    decreases n,
{
    if n <= 0 {
        0
    } else {
        row_windows(g, r, n - 1) + cell_windows(g, r, n - 1)
    }
}

/// Window scores of the top `n` rows.
pub open spec fn rows_windows(g: Seq<Option<bool>>, n: int) -> int
    decreases n,
{
    if n <= 0 {
        0
    } else {
        rows_windows(g, n - 1) + row_windows(g, n - 1, 7)
    }
}

/// Static evaluation of a position, from the computer's side.
pub open spec fn evaluation(g: Seq<Option<bool>>) -> int {
    center_bonus(g, 6) + rows_windows(g, 6)
}

proof fn lemma_center_bound(g: Seq<Option<bool>>, n: int)
    requires
        0 <= n,
    ensures
        -3 * n <= center_bonus(g, n) <= 3 * n,
    decreases n,
{
    if n > 0 {
        lemma_center_bound(g, n - 1);
    }
}

proof fn lemma_row_bound(g: Seq<Option<bool>>, r: int, n: int)
    requires
        0 <= n,
    ensures
        -200 * n <= row_windows(g, r, n) <= 200 * n,
    decreases n,
{
    if n > 0 {
        lemma_row_bound(g, r, n - 1);
    }
}

proof fn lemma_rows_bound(g: Seq<Option<bool>>, n: int)
    requires
        0 <= n,
    ensures
        -1400 * n <= rows_windows(g, n) <= 1400 * n,
    decreases n,
{
    if n > 0 {
        lemma_rows_bound(g, n - 1);
        lemma_row_bound(g, n - 1, 7);
    }
}

/// The static evaluation stays far from a win score.
proof fn lemma_eval_bound(g: Seq<Option<bool>>)
    ensures
        -8418 <= evaluation(g) <= 8418,
{
    lemma_center_bound(g, 6);
    lemma_rows_bound(g, 6);
}

/// Score of a win found `level` moves below the root, for the maximizing
/// player or against it.
pub open spec fn win_score(maximizing: bool, level: int) -> int {
    if maximizing {
        WIN_SCORE - level
    } else {
        -WIN_SCORE + level
    }
}

/// The worst score for the maximizing player, or for the minimizing one.
pub open spec fn sentinel(maximizing: bool) -> int {
    if maximizing {
        i32::MIN as int
    } else {
        i32::MAX as int
    }
}

/// The minimax value of a position searched `depth` moves deep, `level`
/// moves below the root, with the column that achieves it: 0 for a full
/// board, the static evaluation at depth 0, and otherwise the result of
/// trying the columns in centre-out order.
pub open spec fn node(m: SimModel, depth: int, maximizing: bool, level: int) -> (int, Option<int>)
    decreases depth, 8int,
{
    if m.moves == 42 {
        (0, None)
    } else if depth <= 0 {
        (evaluation(m.grid), None)
    } else {
        scan(m, depth, maximizing, level, 0, sentinel(maximizing), None)
    }
}

/// Trying the columns from number `i` on, with `best` the best score so far
/// and `col` the first column that reached it: a move that wins at once
/// ends the search with the win score; any other move scores the value of
/// the position it leads to, and replaces the best so far when strictly
/// better for the player to move.
pub open spec fn scan(
    m: SimModel,
    depth: int,
    maximizing: bool,
    level: int,
    i: int,
    best: int,
    col: Option<int>,
) -> (int, Option<int>)
    decreases depth, 7 - i,
{
    if i < 0 || i >= 7 || depth <= 0 {
        (best, col)
    } else {
        let c = order_column(i);
        if !m.valid(c) {
            scan(m, depth, maximizing, level, i + 1, best, col)
        } else {
            let child = m.drop(c);
            if wins_through(child.grid, child.last_row(c), c, Some(maximizing)) {
                (win_score(maximizing, level), Some(c))
            } else {
                let v = node(child, depth - 1, !maximizing, level + 1).0;
                if (maximizing && v > best) || (!maximizing && v < best) {
                    scan(m, depth, maximizing, level, i + 1, v, Some(c))
                } else {
                    scan(m, depth, maximizing, level, i + 1, best, col)
                }
            }
        }
    }
}

/// Some column from number `i` on can take a piece.
pub open spec fn valid_from(m: SimModel, i: int) -> bool {
    exists|j: int| i <= j < 7 && #[trigger] m.valid(order_column(j))
}

/// A position `level` moves below the root is shallow enough that every win
/// score in its subtree outweighs any static evaluation.
pub open spec fn shallow(level: int, moves: int) -> bool {
    0 <= level && level + 42 - moves <= 990000
}

/// The value of a position lies between the two win scores of its level,
/// and a position with room and depth to search yields a valid column.
proof fn lemma_node_bound(m: SimModel, depth: int, maximizing: bool, level: int)
    requires
        m.wf(),
        shallow(level, m.moves),
    ensures
        -(WIN_SCORE - level) <= node(m, depth, maximizing, level).0 <= WIN_SCORE - level,
        m.moves < 42 && depth > 0 ==> (node(m, depth, maximizing, level).1 matches Some(c) && m.valid(c)),
    decreases depth, 8int,
{
    lemma_total_bound(m.heights, 7);
    if m.moves == 42 {
    } else if depth <= 0 {
        lemma_eval_bound(m.grid);
    } else {
        lemma_room(m);
        lemma_scan_bound(m, depth, maximizing, level, 0, sentinel(maximizing), None);
    }
}

/// Scanning never makes the best score worse, and once some valid column has
/// been or will be tried, it ends inside the win scores with a valid column.
proof fn lemma_scan_bound(
    m: SimModel,
    depth: int,
    maximizing: bool,
    level: int,
    i: int,
    best: int,
    col: Option<int>,
)
    requires
        m.wf(),
        shallow(level, m.moves),
        m.moves < 42,
        depth > 0,
        0 <= i <= 7,
        (col is None && best == sentinel(maximizing)) || (col matches Some(c) && m.valid(c) && -(
        WIN_SCORE - level) < best < WIN_SCORE - level),
    ensures
        maximizing ==> scan(m, depth, maximizing, level, i, best, col).0 >= best,
        !maximizing ==> scan(m, depth, maximizing, level, i, best, col).0 <= best,
        col is Some || valid_from(m, i) ==> {
            &&& -(WIN_SCORE - level) <= scan(m, depth, maximizing, level, i, best, col).0 <= WIN_SCORE
                - level
            &&& scan(m, depth, maximizing, level, i, best, col).1 matches Some(c) && m.valid(c)
        },
    decreases depth, 7 - i,
{
    if i < 7 {
        let c = order_column(i);
        if valid_from(m, i) && !m.valid(c) {
            let j = choose|j: int| i <= j < 7 && #[trigger] m.valid(order_column(j));
            assert(valid_from(m, i + 1)) by {
                assert(i + 1 <= j < 7 && m.valid(order_column(j)));
            }
        }
        if !m.valid(c) {
            lemma_scan_bound(m, depth, maximizing, level, i + 1, best, col);
        } else {
            let child = m.drop(c);
            lemma_drop_wf(m, c);
            if !wins_through(child.grid, child.last_row(c), c, Some(maximizing)) {
                lemma_node_bound(child, depth - 1, !maximizing, level + 1);
                let v = node(child, depth - 1, !maximizing, level + 1).0;
                if (maximizing && v > best) || (!maximizing && v < best) {
                    lemma_scan_bound(m, depth, maximizing, level, i + 1, v, Some(c));
                } else {
                    lemma_scan_bound(m, depth, maximizing, level, i + 1, best, col);
                }
            }
        }
    }
}

/// A search result meets the bounds of fail-soft alpha-beta pruning: the
/// exact value inside the window `(alpha, beta)`; outside it, a result
/// between the value and the side of the window it fell on.
pub open spec fn fail_soft(res: int, v: int, alpha: int, beta: int) -> bool {
    &&& (alpha < v < beta ==> res == v)
    &&& (v <= alpha ==> v <= res <= alpha)
    &&& (v >= beta ==> beta <= res <= v)
}

/// The same column, if any.
pub open spec fn same_col(a: Option<usize>, b: Option<int>) -> bool {
    match (a, b) {
        (Some(x), Some(y)) => x as int == y,
        (None, None) => true,
        _ => false,
    }
}

impl SimBoard {
    /// The search's view of `board`.
    pub fn from_board(board: &Board) -> (sim: SimBoard)
        ensures
            sim@ == sim_of(board@),
            sim@.wf(),
            forall|c: int| 0 <= c < 7 ==> (#[trigger] sim@.valid(c) <==> at(board@.grid, 0, c) is Empty),
            sim@.moves < 42 <==> !is_full(board@.grid),
    {
        let mut grid: [Option<bool>; CELLS] = [None; CELLS];
        let mut heights: [usize; COLS] = [0; COLS];
        let ghost g = board@.grid;
        let ghost hs = Seq::new(7, |c: int| column_pieces(g, c, 6));
        let current_is_ai = board.current_player() == Player::Yellow;
        for col in 0..COLS
            invariant
                g == board@.grid,
                g.len() == 42,
                hs == Seq::new(7, |c: int| column_pieces(g, c, 6)),
                forall|i: int|
                    0 <= i < 42 ==> #[trigger] grid@[i] == if i % 7 < col {
                        mark(g[i])
                    } else {
                        None
                    },
                forall|c: int| 0 <= c < 7 ==> #[trigger] heights@[c] == if c < col {
                    hs[c]
                } else {
                    0
                },
        {
            for k in 0..ROWS
                invariant
                    g == board@.grid,
                    g.len() == 42,
                    col < 7,
                    hs == Seq::new(7, |c: int| column_pieces(g, c, 6)),
                    forall|i: int|
                        0 <= i < 42 ==> #[trigger] grid@[i] == if i % 7 < col || (i % 7 == col && i / 7
                            >= 6 - k) {
                            mark(g[i])
                        } else {
                            None
                        },
                    0 <= column_pieces(g, col as int, k as int) <= k,
                    forall|c: int| 0 <= c < 7 ==> #[trigger] heights@[c] == if c < col {
                        hs[c]
                    } else if c == col {
                        column_pieces(g, col as int, k as int)
                    } else {
                        0
                    },
            {
                let row = ROWS - 1 - k;
                match board.cell(row, col) {
                    Cell::Occupied(Player::Yellow) => {
                        grid[row * COLS + col] = Some(true);
                        heights[col] += 1;
                    },
                    Cell::Occupied(Player::Red) => {
                        grid[row * COLS + col] = Some(false);
                        heights[col] += 1;
                    },
                    Cell::Empty => {},
                }
            }
        }
        let mut sum: usize = 0;
        for c in 0..COLS
            invariant
                forall|j: int| 0 <= j < 7 ==> #[trigger] heights@[j] == hs[j],
                g.len() == 42,
                hs == Seq::new(7, |c: int| column_pieces(g, c, 6)),
                sum == total(heights@.map_values(|h: usize| h as int), c as int),
                sum <= 6 * c,
        {
            proof {
                lemma_column_pieces_bound(g, c as int, 6);
                lemma_total_step(heights@.map_values(|h: usize| h as int), c as int);
            }
            sum += heights[c];
        }
        let move_count: u32 = sum as u32;
        proof {
            assert forall|c: int| 0 <= c < 7 implies 0 <= #[trigger] hs[c] <= 6 by {
                lemma_column_pieces_bound(g, c, 6);
            }
            assert forall|c: int| 0 <= c < 7 implies (hs[c] < 6 <==> at(g, 0, c) is Empty) by {
                lemma_column_open(g, c);
            }
            assert(heights@.map_values(|h: usize| h as int) =~= hs);
            assert(grid@ =~= g.map_values(|x: Cell| mark(x)));
        }
        let sim = SimBoard { grid, heights, current_is_ai, move_count };
        proof {
            lemma_room(sim@);
            if sim@.moves < 42 {
                let i = choose|i: int| 0 <= i < 7 && #[trigger] sim@.valid(order_column(i));
                assert(at(g, 0, order_column(i)) is Empty);
            }
            if !is_full(g) {
                let c = choose|c: int| 0 <= c < 7 && !(#[trigger] at(g, 0, c) is Occupied);
                let i = order_index(c);
                assert(sim@.valid(order_column(i)));
            }
        }
        sim
    }

    /// A piece can go into column `col`.
    fn is_valid(&self, col: usize) -> (b: bool)
        ensures
            b == (col < 7 && self@.valid(col as int)),
    {
        col < COLS && self.heights[col] < ROWS
    }

    /// Drops a piece of the player to move into column `col`.
    fn drop(&mut self, col: usize)
        requires
            old(self)@.wf(),
            old(self)@.valid(col as int),
        ensures
            final(self)@ == old(self)@.drop(col as int),
            final(self)@.wf(),
    {
        proof {
            lemma_total_bound(self@.heights, 7);
            lemma_drop_wf(self@, col as int);
        }
        let ghost before = self@;
        let row = ROWS - 1 - self.heights[col];
        self.grid[row * COLS + col] = Some(self.current_is_ai);
        self.heights[col] += 1;
        self.move_count += 1;
        self.current_is_ai = !self.current_is_ai;
        proof {
            assert(self@.heights =~= before.drop(col as int).heights);
            assert(self@.grid =~= before.drop(col as int).grid);
        }
    }

    /// The row of the top piece of column `col`.
    fn last_drop_row(&self, col: usize) -> (r: usize)
        requires
            col < 7,
            self@.heights[col as int] <= 6,
        ensures
            r == self@.last_row(col as int),
    {
        ROWS - self.heights[col]
    }

    /// Whether `(r, c)` is on the board and holds `target`.
    fn holds_at(&self, r: isize, c: isize, target: Option<bool>) -> (b: bool)
        ensures
            b == holds(self@.grid, r as int, c as int, target),
    {
        if r >= 0 && r < ROWS as isize && c >= 0 && c < COLS as isize {
            match (self.grid[(r as usize) * COLS + c as usize], target) {
                (Some(x), Some(y)) => x == y,
                (None, None) => true,
                _ => false,
            }
        } else {
            false
        }
    }

    /// Number of consecutive cells holding `target` beyond `(row, col)` along `(dr, dc)`.
    fn run_length(&self, row: usize, col: usize, dr: isize, dc: isize, target: Option<bool>) -> (count: u32)
        requires
            row < 6,
            col < 7,
            -1 <= dr <= 1,
            -1 <= dc <= 1,
            dr != 0 || dc != 0,
        ensures
            count == ray(self@.grid, row as int, col as int, dr as int, dc as int, target),
            count <= 6,
    {
        let mut count: u32 = 0;
        let mut r = row as isize + dr;
        let mut c = col as isize + dc;
        while self.holds_at(r, c, target)
            invariant
                row < 6,
                col < 7,
                -1 <= dr <= 1,
                -1 <= dc <= 1,
                dr != 0 || dc != 0,
                count <= 6,
                r == step(row as int, dr as int, count + 1),
                c == step(col as int, dc as int, count + 1),
                ray(self@.grid, row as int, col as int, dr as int, dc as int, target) == count + run_len(
                    self@.grid,
                    r as int,
                    c as int,
                    dr as int,
                    dc as int,
                    target,
                    (7 - count) as nat,
                ),
            decreases 7 - count,
        {
            count += 1;
            r += dr;
            c += dc;
        }
        count
    }

    /// Whether the piece on `(row, col)`, of the computer when `is_ai`,
    /// completes a line of four.
    fn check_win_at(&self, row: usize, col: usize, is_ai: bool) -> (won: bool)
        requires
            row < 6,
            col < 7,
        ensures
            won == wins_through(self@.grid, row as int, col as int, Some(is_ai)),
    {
        let target = Some(is_ai);
        for k in 0..4
            invariant
                row < 6,
                col < 7,
                target == Some(is_ai),
                forall|j: int|
                    0 <= j < k ==> #[trigger] line_in_direction(self@.grid, row as int, col as int, j, target)
                        < 4,
        {
            let (dr, dc) = direction_step(k);
            let mut count = 1u32;
            count += self.run_length(row, col, dr, dc, target);
            count += self.run_length(row, col, -dr, -dc, target);
            if count >= 4 {
                return true;
            }
        }
        false
    }

    /// The piece on `(row, col)`: `Some(true)` for the computer's,
    /// `Some(false)` for its opponent's, `None` for an empty cell.
    pub fn cell(&self, row: usize, col: usize) -> (v: Option<bool>)
        requires
            row < 6,
            col < 7,
        ensures
            v == at(self@.grid, row as int, col as int),
    {
        self.grid[row * COLS + col]
    }

    /// Number of pieces in column `col`.
    pub fn height(&self, col: usize) -> (h: usize)
        requires
            col < 7,
        ensures
            h == self@.heights[col as int],
    {
        self.heights[col]
    }

    /// Number of pieces on the board.
    pub fn move_count(&self) -> (n: u32)
        ensures
            n == self@.moves,
    {
        self.move_count
    }
}

/// Score of the window of four cells from `(row, col)` along `(dr, dc)`.
fn score_window(board: &SimBoard, row: usize, col: usize, dr: usize, dc: isize) -> (score: i32)
    requires
        board@.grid.len() == 42,
        dr <= 1,
        -1 <= dc <= 1,
        row < 6,
        col < 7,
        row + 3 * dr < 6,
        0 <= col + 3 * dc < 7,
    ensures
        score == window_score(board@.grid, row as int, col as int, dr as int, dc as int),
        -50 <= score <= 50,
{
    let ghost g = board@.grid;
    let mut ai_count = 0u32;
    let mut human_count = 0u32;
    for i in 0..4
        invariant
            g == board@.grid,
            g.len() == 42,
            dr <= 1,
            -1 <= dc <= 1,
            row < 6,
            col < 7,
            row + 3 * dr < 6,
            0 <= col + 3 * dc < 7,
            ai_count == window_prefix(g, row as int, col as int, dr as int, dc as int, Some(true), i as int),
            human_count == window_prefix(g, row as int, col as int, dr as int, dc as int, Some(false), i as int),
            ai_count + human_count <= i,
    {
        proof {
            assert(0 <= dr * i <= 3 * dr && dr * i == (i as int) * (dr as int)) by (nonlinear_arith)
                requires
                    dr <= 1,
                    i < 4,
            ;
            assert((dc >= 0 ==> 0 <= dc * (i as isize) <= 3 * dc) && (dc < 0 ==> 3 * dc <= dc * (i as isize) <= 0)
                && dc * (i as isize) == (i as int) * (dc as int)) by (nonlinear_arith)
                requires
                    -1 <= dc <= 1,
                    i < 4,
            ;
        }
        let r = row + dr * i;
        let c = (col as isize + dc * i as isize) as usize;
        match board.grid[r * COLS + c] {
            Some(true) => ai_count += 1,
            Some(false) => human_count += 1,
            None => {},
        }
    }
    if human_count == 0 {
        match ai_count {
            3 => 50,
            2 => 5,
            _ => 0,
        }
    } else if ai_count == 0 {
        match human_count {
            3 => -50,
            2 => -5,
            _ => 0,
        }
    } else {
        0
    }
}

/// Static evaluation of a position from the computer's side: a bonus for
/// the centre column and the scores of all windows of four.
fn evaluate(board: &SimBoard) -> (score: i32)
    requires
        board@.grid.len() == 42,
    ensures
        score == evaluation(board@.grid),
{
    let ghost g = board@.grid;
    let mut score = 0i32;
    // Centre column bonus
    for row in 0..ROWS
        invariant
            g == board@.grid,
            g.len() == 42,
            score == center_bonus(g, row as int),
            -3 * row <= score <= 3 * row,
    {
        match board.grid[row * COLS + 3] {
            Some(true) => score += 3,
            Some(false) => score -= 3,
            None => {},
        }
    }
    // Scan all 4-cell windows
    for row in 0..ROWS
        invariant
            g == board@.grid,
            g.len() == 42,
            score == center_bonus(g, 6) + rows_windows(g, row as int),
            -18 - 1400 * row <= score <= 18 + 1400 * row,
    {
        for col in 0..COLS
            invariant
                g == board@.grid,
                g.len() == 42,
                row < 6,
                score == center_bonus(g, 6) + rows_windows(g, row as int) + row_windows(g, row as int, col as int),
                -18 - 1400 * row - 200 * col <= score <= 18 + 1400 * row + 200 * col,
        {
            // Horizontal
            if col + 3 < COLS {
                score += score_window(board, row, col, 0, 1);
            }
            // Vertical
            if row + 3 < ROWS {
                score += score_window(board, row, col, 1, 0);
            }
            // Diagonal down-right
            if row + 3 < ROWS && col + 3 < COLS {
                score += score_window(board, row, col, 1, 1);
            }
            // Diagonal down-left
            if row + 3 < ROWS && col >= 3 {
                score += score_window(board, row, col, 1, -1);
            }
        }
    }
    score
}

/// Minimax search with alpha-beta pruning, `depth` moves deep from a
/// position `max_depth - depth` moves below the root.  A full board scores
/// 0 and depth 0 the static evaluation, with no column; otherwise a valid
/// column comes back.  For a shallow position and a proper window the
/// score agrees with the plain minimax value (`node`) inside the window
/// `(alpha, beta)` and lies between the value and the window outside it;
/// with the full window it is exactly the minimax value and column.
fn minimax(
    board: &SimBoard,
    depth: u32,
    alpha: i32,
    beta: i32,
    maximizing: bool,
    max_depth: u32,
) -> (res: (i32, Option<usize>))
    requires
        board@.wf(),
        depth <= max_depth,
        max_depth - depth + 42 - board@.moves <= i32::MAX,
    ensures
        board@.moves == 42 ==> res.0 == 0 && res.1 is None,
        board@.moves < 42 && depth == 0 ==> res.0 == evaluation(board@.grid) && res.1 is None,
        board@.moves < 42 && depth > 0 ==> (res.1 matches Some(c) && board@.valid(c as int)),
        i32::MIN < res.0 < i32::MAX,
        shallow(max_depth - depth, board@.moves) ==> -WIN_SCORE <= res.0 <= WIN_SCORE,
        shallow(max_depth - depth, board@.moves) && alpha < beta ==> fail_soft(
            res.0 as int,
            node(board@, depth as int, maximizing, max_depth - depth).0,
            alpha as int,
            beta as int,
        ),
        shallow(max_depth - depth, board@.moves) && alpha == i32::MIN && beta == i32::MAX ==> res.0
            == node(board@, depth as int, maximizing, max_depth - depth).0 && same_col(
            res.1,
            node(board@, depth as int, maximizing, max_depth - depth).1,
        ),
    decreases depth,
{
    proof {
        lemma_total_bound(board@.heights, 7);
    }
    if board.move_count == (ROWS * COLS) as u32 {
        return (0, None);
    }
    if depth == 0 {
        proof {
            lemma_eval_bound(board@.grid);
        }
        return (evaluate(board), None);
    }
    let ghost m = board@;
    let ghost lvl: int = max_depth - depth;
    let ghost ok: bool = alpha < beta && shallow(lvl, m.moves);
    proof {
        lemma_room(m);
        if shallow(lvl, m.moves) {
            lemma_node_bound(m, depth as int, maximizing, lvl);
        }
    }
    let mut best_col: Option<usize> = None;
    if maximizing {
        let mut a = alpha;
        let mut best_score = i32::MIN;
        let ghost mut mb: int = i32::MIN as int;
        let ghost mut mc: Option<int> = None;
        let mut idx: usize = 0;
        while idx < 7
            invariant
                board@ == m,
                m.wf(),
                m.moves < 42,
                0 < depth <= max_depth,
                lvl == max_depth - depth,
                lvl + 42 - m.moves <= i32::MAX,
                ok == (alpha < beta && shallow(lvl, m.moves)),
                maximizing,
                0 <= idx <= 7,
                a >= alpha,
                a >= best_score,
                a == alpha || a == best_score,
                best_col is None ==> best_score == i32::MIN && forall|j: int|
                    0 <= j < idx ==> !#[trigger] m.valid(order_column(j)),
                best_col matches Some(c) ==> m.valid(c as int) && i32::MIN < best_score < i32::MAX,
                shallow(lvl, m.moves) && best_col is Some ==> -WIN_SCORE <= best_score <= WIN_SCORE,
                ok ==> node(m, depth as int, true, lvl) == scan(m, depth as int, true, lvl, idx as int, mb, mc),
                ok ==> a < beta,
                ok ==> (mb <= alpha ==> best_score <= alpha),
                ok ==> (alpha < mb < beta ==> best_score == mb),
                ok ==> mb < beta,
                ok ==> best_score >= mb,
                ok ==> (best_score <= mb || best_score <= alpha),
                ok ==> ((mc is None && mb == i32::MIN) || (mc matches Some(c) && m.valid(c) && -(WIN_SCORE
                    - lvl) < mb < WIN_SCORE - lvl)),
                ok && alpha == i32::MIN && beta == i32::MAX ==> best_score == mb && same_col(best_col, mc),
            decreases 7 - idx,
        {
            let col = move_order(idx);
            if board.is_valid(col) {
                proof {
                    lemma_drop_wf(m, col as int);
                }
                let mut child = board.clone();
                child.drop(col);
                let row = child.last_drop_row(col);
                if child.check_win_at(row, col, true) {
                    let score = WIN_SCORE - (max_depth - depth) as i32;
                    return (score, Some(col));
                }
                let (score, _) = minimax(&child, depth - 1, a, beta, false, max_depth);
                let ghost v = node(child@, depth - 1, false, lvl + 1).0;
                proof {
                    if ok {
                        lemma_node_bound(child@, depth - 1, false, lvl + 1);
                    }
                }
                if score > best_score {
                    best_score = score;
                    best_col = Some(col);
                }
                proof {
                    if v > mb {
                        mb = v;
                        mc = Some(col as int);
                    }
                }
                if best_score > a {
                    a = best_score;
                }
                if a >= beta {
                    proof {
                        if ok {
                            lemma_scan_bound(m, depth as int, true, lvl, idx + 1, mb, mc);
                        }
                    }
                    return (best_score, best_col);
                }
            }
            idx += 1;
        }
        (best_score, best_col)
    } else {
        let mut b = beta;
        let mut best_score = i32::MAX;
        let ghost mut mb: int = i32::MAX as int;
        let ghost mut mc: Option<int> = None;
        let mut idx: usize = 0;
        while idx < 7
            invariant
                board@ == m,
                m.wf(),
                m.moves < 42,
                0 < depth <= max_depth,
                lvl == max_depth - depth,
                lvl + 42 - m.moves <= i32::MAX,
                ok == (alpha < beta && shallow(lvl, m.moves)),
                !maximizing,
                0 <= idx <= 7,
                b <= beta,
                b <= best_score,
                b == beta || b == best_score,
                best_col is None ==> best_score == i32::MAX && forall|j: int|
                    0 <= j < idx ==> !#[trigger] m.valid(order_column(j)),
                best_col matches Some(c) ==> m.valid(c as int) && i32::MIN < best_score < i32::MAX,
                shallow(lvl, m.moves) && best_col is Some ==> -WIN_SCORE <= best_score <= WIN_SCORE,
                ok ==> node(m, depth as int, false, lvl) == scan(m, depth as int, false, lvl, idx as int, mb, mc),
                ok ==> alpha < b,
                ok ==> (mb >= beta ==> best_score >= beta),
                ok ==> (alpha < mb < beta ==> best_score == mb),
                ok ==> mb > alpha,
                ok ==> best_score <= mb,
                ok ==> (best_score >= mb || best_score >= beta),
                ok ==> ((mc is None && mb == i32::MAX) || (mc matches Some(c) && m.valid(c) && -(WIN_SCORE
                    - lvl) < mb < WIN_SCORE - lvl)),
                ok && alpha == i32::MIN && beta == i32::MAX ==> best_score == mb && same_col(best_col, mc),
            decreases 7 - idx,
        {
            let col = move_order(idx);
            if board.is_valid(col) {
                proof {
                    lemma_drop_wf(m, col as int);
                }
                let mut child = board.clone();
                child.drop(col);
                let row = child.last_drop_row(col);
                if child.check_win_at(row, col, false) {
                    let score = -WIN_SCORE + (max_depth - depth) as i32;
                    return (score, Some(col));
                }
                let (score, _) = minimax(&child, depth - 1, alpha, b, true, max_depth);
                let ghost v = node(child@, depth - 1, true, lvl + 1).0;
                proof {
                    if ok {
                        lemma_node_bound(child@, depth - 1, true, lvl + 1);
                    }
                }
                if score < best_score {
                    best_score = score;
                    best_col = Some(col);
                }
                proof {
                    if v < mb {
                        mb = v;
                        mc = Some(col as int);
                    }
                }
                if best_score < b {
                    b = best_score;
                }
                if alpha >= b {
                    proof {
                        if ok {
                            lemma_scan_bound(m, depth as int, false, lvl, idx + 1, mb, mc);
                        }
                    }
                    return (best_score, best_col);
                }
            }
            idx += 1;
        }
        (best_score, best_col)
    }
}

/// The column the computer plays for the player to move, searching
/// `depth` moves ahead: the minimax choice, trying columns centre-out and
/// keeping the first of equally good ones.
pub fn best_move_with_depth(board: &Board, depth: u32) -> (col: usize)
    requires
        depth >= 1,
        !is_full(board@.grid),
    ensures
        node(sim_of(board@), depth as int, board@.player == Player::Yellow, 0).1 == Some(col as int),
        col < 7,
        at(board@.grid, 0, col as int) is Empty,
{
    let sim = SimBoard::from_board(board);
    proof {
        lemma_node_bound(sim@, depth as int, sim@.ai_to_move, 0);
    }
    let (_, col) = minimax(&sim, depth, i32::MIN, i32::MAX, sim.current_is_ai, depth);
    col.expect("AI should always find a valid move")
}

/// The column the computer plays for the player to move, searching 8
/// moves ahead.
pub fn best_move(board: &Board) -> (col: usize)
    requires
        !is_full(board@.grid),
    ensures
        node(sim_of(board@), 8, board@.player == Player::Yellow, 0).1 == Some(col as int),
        col < 7,
        at(board@.grid, 0, col as int) is Empty,
{
    best_move_with_depth(board, MAX_DEPTH)
}

/// Dropping into column `c` wins at once for the player to move.
pub open spec fn immediate_win(m: SimModel, c: int) -> bool {
    m.valid(c) && wins_through(m.drop(c).grid, m.drop(c).last_row(c), c, Some(m.ai_to_move))
}

/// Scanning from column number `j` reaches the immediate win at number `i`
/// when none comes before it.
proof fn lemma_scan_reaches(
    m: SimModel,
    depth: int,
    level: int,
    j: int,
    best: int,
    col: Option<int>,
    i: int,
)
    requires
        depth >= 1,
        0 <= j <= i < 7,
        immediate_win(m, order_column(i)),
        forall|k: int| j <= k < i ==> !#[trigger] immediate_win(m, order_column(k)),
    ensures
        scan(m, depth, m.ai_to_move, level, j, best, col) == (
        win_score(m.ai_to_move, level),
        Some(order_column(i)),
        ),
    decreases i - j,
{
    if j < i {
        assert(!immediate_win(m, order_column(j)));
        let c = order_column(j);
        if m.valid(c) {
            let v = node(m.drop(c), depth - 1, !m.ai_to_move, level + 1).0;
            lemma_scan_reaches(m, depth, level, j + 1, v, Some(c), i);
        }
        lemma_scan_reaches(m, depth, level, j + 1, best, col, i);
    }
}

/// The search takes a win that is there: when a column wins at once for
/// the player to move, the chosen column is the first such column in
/// centre-out order.
pub proof fn law_takes_immediate_win(m: SimModel, depth: int, i: int)
    requires
        m.wf(),
        m.moves < 42,
        depth >= 1,
        0 <= i < 7,
        immediate_win(m, order_column(i)),
        forall|j: int| 0 <= j < i ==> !#[trigger] immediate_win(m, order_column(j)),
    ensures
        node(m, depth, m.ai_to_move, 0) == (win_score(m.ai_to_move, 0), Some(order_column(i))),
{
    lemma_scan_reaches(m, depth, 0, 0, sentinel(m.ai_to_move), None, i);
}

/// A column whose cells above row `r` are all occupied and whose cells
/// from row `r` up are all empty counts its pieces from the bottom.
proof fn lemma_column_pieces_stack(g: Seq<Cell>, c: int, r: int, n: int)
    requires
        -1 <= r <= 5,
        0 <= n <= 6,
        forall|k: int| r < k <= 5 ==> #[trigger] at(g, k, c) is Occupied,
        forall|k: int| 0 <= k <= r ==> !(#[trigger] at(g, k, c) is Occupied),
    ensures
        column_pieces(g, c, n) == if n <= 5 - r {
            n
        } else {
            5 - r
        },
    decreases n,
{
    if n > 0 {
        lemma_column_pieces_stack(g, c, r, n - 1);
        assert(at(g, 6 - n, c) is Occupied <==> 6 - n > r);
    }
}

/// A piece dropped into an open column lands just above its pieces.
proof fn lemma_landing_pieces(g: Seq<Cell>, c: int)
    requires
        g.len() == 42,
        settled(g),
        0 <= c < 7,
        at(g, 0, c) is Empty,
    ensures
        column_pieces(g, c, 6) == 5 - landing_row(g, c),
{
    crate::game::lemma_lowest_empty(g, c, 5);
    let r = landing_row(g, c);
    assert forall|k: int| 0 <= k <= r implies !(#[trigger] at(g, k, c) is Occupied) by {
        assert(at(g, k, c) is Occupied ==> at(g, r, c) is Occupied);
    }
    lemma_column_pieces_stack(g, c, r, 6);
}

/// Runs look the same through the search's eyes.
proof fn lemma_run_mark(g: Seq<Cell>, r: int, c: int, dr: int, dc: int, t: Cell, fuel: nat)
    requires
        g.len() == 42,
    ensures
        run_len(g.map_values(|x: Cell| mark(x)), r, c, dr, dc, mark(t), fuel) == run_len(g, r, c, dr, dc, t, fuel),
    decreases fuel,
{
    if fuel > 0 {
        if in_bounds(r, c) {
            assert(g.map_values(|x: Cell| mark(x))[cell_index(r, c)] == mark(g[cell_index(r, c)]));
            assert(mark(g[cell_index(r, c)]) == mark(t) <==> g[cell_index(r, c)] == t);
        }
        lemma_run_mark(g, r + dr, c + dc, dr, dc, t, (fuel - 1) as nat);
    }
}

/// Lines of four look the same through the search's eyes.
proof fn lemma_wins_mark(g: Seq<Cell>, r: int, c: int, t: Cell)
    requires
        g.len() == 42,
    ensures
        wins_through(g.map_values(|x: Cell| mark(x)), r, c, mark(t)) == wins_through(g, r, c, t),
{
    lemma_run_mark(g, r, c + 1, 0, 1, t, 7);
    lemma_run_mark(g, r, c - 1, 0, -1, t, 7);
    lemma_run_mark(g, r + 1, c, 1, 0, t, 7);
    lemma_run_mark(g, r - 1, c, -1, 0, t, 7);
    lemma_run_mark(g, r + 1, c + 1, 1, 1, t, 7);
    lemma_run_mark(g, r - 1, c - 1, -1, -1, t, 7);
    lemma_run_mark(g, r + 1, c - 1, 1, -1, t, 7);
    lemma_run_mark(g, r - 1, c + 1, -1, 1, t, 7);
}

/// The search's view of a consistent board is well formed.
proof fn lemma_sim_of_wf(b: BoardModel)
    requires
        b.consistent(),
    ensures
        sim_of(b).wf(),
        forall|c: int| 0 <= c < 7 ==> (#[trigger] sim_of(b).valid(c) <==> at(b.grid, 0, c) is Empty),
{
    let m = sim_of(b);
    assert forall|c: int| 0 <= c < 7 implies 0 <= #[trigger] m.heights[c] <= 6 by {
        lemma_column_pieces_bound(b.grid, c, 6);
    }
    assert forall|c: int| 0 <= c < 7 implies (#[trigger] m.valid(c) <==> at(b.grid, 0, c) is Empty) by {
        lemma_column_open(b.grid, c);
    }
}

/// The search's win test agrees with the rules: on a game in progress, the
/// search puts a piece dropped into an open column on the row where the
/// rules put it, and sees it win at once exactly when the rules say that
/// dropping there wins the game.
pub proof fn law_search_win_agrees(b: BoardModel, c: int)
    requires
        b.consistent(),
        b.state == GameState::InProgress,
        0 <= c < 7,
    ensures
        sim_of(b).valid(c) <==> b.drop_error(c) is None,
        sim_of(b).valid(c) ==> sim_of(b).drop(c).last_row(c) == landing_row(b.grid, c),
        immediate_win(sim_of(b), c) <==> (b.drop_error(c) is None && b.drop_result(c).state == GameState::Won(
            b.player,
        )),
{
    let m = sim_of(b);
    lemma_sim_of_wf(b);
    if at(b.grid, 0, c) is Empty {
        lemma_landing_pieces(b.grid, c);
        crate::game::lemma_drop_consistent(b, c);
        let r = landing_row(b.grid, c);
        let g2 = b.grid.update(cell_index(r, c), piece(b.player));
        assert(m.drop(c).grid =~= g2.map_values(|x: Cell| mark(x)));
        assert(m.drop(c).last_row(c) == r);
        assert(mark(piece(b.player)) == Some(m.ai_to_move));
        lemma_wins_mark(g2, r, c, piece(b.player));
    }
}

/// Columns whose cells agree hold the same number of pieces.
proof fn lemma_column_pieces_same(g: Seq<Cell>, g2: Seq<Cell>, c: int, n: int)
    requires
        0 <= n <= 6,
        forall|k: int| 0 <= k < 6 ==> #[trigger] at(g2, k, c) == at(g, k, c),
    ensures
        column_pieces(g2, c, n) == column_pieces(g, c, n),
    decreases n,
{
    if n > 0 {
        lemma_column_pieces_same(g, g2, c, n - 1);
        assert(at(g2, 6 - n, c) == at(g, 6 - n, c));
    }
}

/// Converting a board after a move that leaves the game on gives the same
/// as making the move on the converted board.
pub proof fn law_sim_of_drop(b: BoardModel, c: int)
    requires
        b.consistent(),
        b.state == GameState::InProgress,
        0 <= c < 7,
        b.drop_error(c) is None,
        b.drop_result(c).state == GameState::InProgress,
    ensures
        sim_of(b.drop_result(c)) == sim_of(b).drop(c),
{
    let m = sim_of(b);
    let n = b.drop_result(c);
    lemma_sim_of_wf(b);
    lemma_landing_pieces(b.grid, c);
    crate::game::lemma_drop_consistent(b, c);
    crate::game::lemma_lowest_empty(b.grid, c, 5);
    let g = b.grid;
    let r = landing_row(g, c);
    let g2 = n.grid;
    assert(g2 == g.update(cell_index(r, c), piece(b.player)));
    assert(g2.map_values(|x: Cell| mark(x)) =~= m.drop(c).grid);
    // Heights: column `c` gains a piece, the others keep theirs.
    assert forall|k: int| 0 <= k <= r - 1 implies !(#[trigger] at(g2, k, c) is Occupied) by {
        assert(at(g, k, c) is Occupied ==> at(g, r, c) is Occupied);
        lemma_cell_unchanged(g, r, c, piece(b.player), k, c);
    }
    assert forall|k: int| r - 1 < k <= 5 implies #[trigger] at(g2, k, c) is Occupied by {
        if k != r {
            lemma_cell_unchanged(g, r, c, piece(b.player), k, c);
        }
    }
    lemma_column_pieces_stack(g2, c, r - 1, 6);
    assert forall|c2: int| 0 <= c2 < 7 && c2 != c implies column_pieces(g2, c2, 6) == column_pieces(g, c2, 6) by {
        assert forall|k: int| 0 <= k < 6 implies #[trigger] at(g2, k, c2) == at(g, k, c2) by {
            lemma_cell_unchanged(g, r, c, piece(b.player), k, c2);
        }
        lemma_column_pieces_same(g, g2, c2, 6);
    }
    let h2 = Seq::new(7, |c2: int| column_pieces(g2, c2, 6));
    assert(h2 =~= m.heights.update(c, m.heights[c] + 1));
    lemma_total_update(m.heights, 7, c, m.heights[c] + 1);
}

/// The computer takes a win that is there: when the player to move can win
/// at once, the column chosen is the first winning one in centre-out order.
pub proof fn law_best_move_takes_win(b: BoardModel, depth: int, i: int)
    requires
        b.consistent(),
        b.state == GameState::InProgress,
        depth >= 1,
        0 <= i < 7,
        b.drop_error(order_column(i)) is None,
        b.drop_result(order_column(i)).state == GameState::Won(b.player),
        forall|j: int|
            0 <= j < i ==> !(b.drop_error(order_column(j)) is None && #[trigger] b.drop_result(
                order_column(j),
            ).state == GameState::Won(b.player)),
    ensures
        node(sim_of(b), depth, b.player == Player::Yellow, 0).1 == Some(order_column(i)),
{
    let m = sim_of(b);
    lemma_sim_of_wf(b);
    law_search_win_agrees(b, order_column(i));
    assert forall|j: int| 0 <= j < i implies !#[trigger] immediate_win(m, order_column(j)) by {
        law_search_win_agrees(b, order_column(j));
        assert(!(b.drop_error(order_column(j)) is None && b.drop_result(order_column(j)).state
            == GameState::Won(b.player)));
    }
    lemma_room(m);
    law_takes_immediate_win(m, depth, i);
}

/// The other player's piece in the same place.
pub open spec fn flip(x: Option<bool>) -> Option<bool> {
    match x {
        Some(b) => Some(!b),
        None => None,
    }
}

/// The same position with the colours of all pieces swapped and the other
/// player to move.
pub open spec fn swap_colours(m: SimModel) -> SimModel {
    SimModel {
        grid: m.grid.map_values(|x: Option<bool>| flip(x)),
        heights: m.heights,
        ai_to_move: !m.ai_to_move,
        moves: m.moves,
    }
}

/// Swapping colours swaps the two counts of a window, so negates its score.
proof fn lemma_window_flip(g: Seq<Option<bool>>, r: int, c: int, dr: int, dc: int)
    requires
        g.len() == 42,
        0 <= dr <= 1,
        -1 <= dc <= 1,
        in_bounds(r, c),
        in_bounds(r + 3 * dr, c + 3 * dc),
    ensures
        window_score(g.map_values(|x: Option<bool>| flip(x)), r, c, dr, dc) == -window_score(g, r, c, dr, dc),
{
    let f = g.map_values(|x: Option<bool>| flip(x));
    reveal_with_fuel(window_prefix, 5);
    assert(at(f, r, c) == flip(at(g, r, c)));
    assert(at(f, r + dr, c + dc) == flip(at(g, r + dr, c + dc)));
    assert(at(f, r + 2 * dr, c + 2 * dc) == flip(at(g, r + 2 * dr, c + 2 * dc)));
    assert(at(f, r + 3 * dr, c + 3 * dc) == flip(at(g, r + 3 * dr, c + 3 * dc)));
}

proof fn lemma_row_flip(g: Seq<Option<bool>>, r: int, n: int)
    requires
        g.len() == 42,
        0 <= r < 6,
        0 <= n <= 7,
    ensures
        row_windows(g.map_values(|x: Option<bool>| flip(x)), r, n) == -row_windows(g, r, n),
    decreases n,
{
    if n > 0 {
        let c = n - 1;
        lemma_row_flip(g, r, n - 1);
        if c + 3 < 7 {
            lemma_window_flip(g, r, c, 0, 1);
        }
        if r + 3 < 6 {
            lemma_window_flip(g, r, c, 1, 0);
        }
        if r + 3 < 6 && c + 3 < 7 {
            lemma_window_flip(g, r, c, 1, 1);
        }
        if r + 3 < 6 && c >= 3 {
            lemma_window_flip(g, r, c, 1, -1);
        }
    }
}

proof fn lemma_rows_flip(g: Seq<Option<bool>>, n: int)
    requires
        g.len() == 42,
        0 <= n <= 6,
    ensures
        rows_windows(g.map_values(|x: Option<bool>| flip(x)), n) == -rows_windows(g, n),
    decreases n,
{
    if n > 0 {
        lemma_rows_flip(g, n - 1);
        lemma_row_flip(g, n - 1, 7);
    }
}

proof fn lemma_center_flip(g: Seq<Option<bool>>, n: int)
    requires
        g.len() == 42,
        0 <= n <= 6,
    ensures
        center_bonus(g.map_values(|x: Option<bool>| flip(x)), n) == -center_bonus(g, n),
    decreases n,
{
    if n > 0 {
        lemma_center_flip(g, n - 1);
        assert(at(g.map_values(|x: Option<bool>| flip(x)), n - 1, 3) == flip(at(g, n - 1, 3)));
    }
}

/// The evaluation is odd under a colour swap: swapping the colours of all
/// pieces negates it.
pub proof fn law_evaluation_colour_swap(g: Seq<Option<bool>>)
    requires
        g.len() == 42,
    ensures
        evaluation(g.map_values(|x: Option<bool>| flip(x))) == -evaluation(g),
{
    lemma_center_flip(g, 6);
    lemma_rows_flip(g, 6);
}

/// Runs look the same after a colour swap, for the swapped colour.
proof fn lemma_run_flip(g: Seq<Option<bool>>, r: int, c: int, dr: int, dc: int, t: Option<bool>, fuel: nat)
    requires
        g.len() == 42,
    ensures
        run_len(g.map_values(|x: Option<bool>| flip(x)), r, c, dr, dc, flip(t), fuel) == run_len(
            g,
            r,
            c,
            dr,
            dc,
            t,
            fuel,
        ),
    decreases fuel,
{
    if fuel > 0 {
        if in_bounds(r, c) {
            assert(g.map_values(|x: Option<bool>| flip(x))[cell_index(r, c)] == flip(g[cell_index(r, c)]));
        }
        lemma_run_flip(g, r + dr, c + dc, dr, dc, t, (fuel - 1) as nat);
    }
}

/// Lines of four look the same after a colour swap, for the swapped colour.
proof fn lemma_wins_flip(g: Seq<Option<bool>>, r: int, c: int, t: Option<bool>)
    requires
        g.len() == 42,
    ensures
        wins_through(g.map_values(|x: Option<bool>| flip(x)), r, c, flip(t)) == wins_through(g, r, c, t),
{
    lemma_run_flip(g, r, c + 1, 0, 1, t, 7);
    lemma_run_flip(g, r, c - 1, 0, -1, t, 7);
    lemma_run_flip(g, r + 1, c, 1, 0, t, 7);
    lemma_run_flip(g, r - 1, c, -1, 0, t, 7);
    lemma_run_flip(g, r + 1, c + 1, 1, 1, t, 7);
    lemma_run_flip(g, r - 1, c - 1, -1, -1, t, 7);
    lemma_run_flip(g, r + 1, c - 1, 1, -1, t, 7);
    lemma_run_flip(g, r - 1, c + 1, -1, 1, t, 7);
}

/// Swapping colours and dropping commute.
proof fn lemma_swap_drop(m: SimModel, c: int)
    requires
        m.wf(),
        m.valid(c),
    ensures
        swap_colours(m).drop(c) == swap_colours(m.drop(c)),
{
    assert(swap_colours(m).drop(c).grid =~= swap_colours(m.drop(c)).grid);
}

/// Swapping the colours negates the value of a position searched for the
/// other side and keeps the chosen column.
pub proof fn law_search_colour_swap(m: SimModel, depth: int, maximizing: bool, level: int)
    requires
        m.wf(),
        shallow(level, m.moves),
    ensures
        node(swap_colours(m), depth, !maximizing, level) == (
        -node(m, depth, maximizing, level).0,
        node(m, depth, maximizing, level).1,
        ),
    decreases depth, 8int,
{
    if m.moves == 42 {
    } else if depth <= 0 {
        law_evaluation_colour_swap(m.grid);
    } else {
        lemma_total_bound(m.heights, 7);
        lemma_room(m);
        lemma_scan_swap(m, depth, maximizing, level, 0, sentinel(maximizing), None, sentinel(!maximizing));
    }
}

/// The scan behind `law_search_colour_swap`.
proof fn lemma_scan_swap(
    m: SimModel,
    depth: int,
    maximizing: bool,
    level: int,
    i: int,
    best: int,
    col: Option<int>,
    best2: int,
)
    requires
        m.wf(),
        shallow(level, m.moves),
        m.moves < 42,
        depth > 0,
        0 <= i <= 7,
        col is Some || valid_from(m, i),
        (col is None && best == sentinel(maximizing) && best2 == sentinel(!maximizing)) || (col matches Some(
            c,
        ) && m.valid(c) && best2 == -best && -(WIN_SCORE - level) < best < WIN_SCORE - level),
    ensures
        scan(swap_colours(m), depth, !maximizing, level, i, best2, col) == (
        -scan(m, depth, maximizing, level, i, best, col).0,
        scan(m, depth, maximizing, level, i, best, col).1,
        ),
    decreases depth, 7 - i,
{
    let sm = swap_colours(m);
    if i < 7 {
        let c = order_column(i);
        if !m.valid(c) {
            if col is None {
                let j = choose|j: int| i <= j < 7 && #[trigger] m.valid(order_column(j));
                assert(valid_from(m, i + 1)) by {
                    assert(i + 1 <= j < 7 && m.valid(order_column(j)));
                }
            }
            lemma_scan_swap(m, depth, maximizing, level, i + 1, best, col, best2);
        } else {
            let child = m.drop(c);
            lemma_drop_wf(m, c);
            lemma_swap_drop(m, c);
            assert(sm.drop(c) == swap_colours(child));
            lemma_wins_flip(child.grid, child.last_row(c), c, Some(maximizing));
            assert(flip(Some(maximizing)) == Some(!maximizing));
            if !wins_through(child.grid, child.last_row(c), c, Some(maximizing)) {
                lemma_node_bound(child, depth - 1, !maximizing, level + 1);
                law_search_colour_swap(child, depth - 1, !maximizing, level + 1);
                let v = node(child, depth - 1, !maximizing, level + 1).0;
                assert(node(sm.drop(c), depth - 1, !!maximizing, level + 1).0 == -v);
                if (maximizing && v > best) || (!maximizing && v < best) {
                    lemma_scan_swap(m, depth, maximizing, level, i + 1, v, Some(c), -v);
                } else {
                    lemma_scan_swap(m, depth, maximizing, level, i + 1, best, col, best2);
                }
            }
        }
    }
}

/// The board seen in a mirror: column `c` and column `6 - c` swapped.
pub open spec fn mirror(g: Seq<Option<bool>>) -> Seq<Option<bool>> {
    Seq::new(42, |i: int| at(g, i / 7, 6 - i % 7))
}

proof fn lemma_at_mirror(g: Seq<Option<bool>>, r: int, c: int)
    requires
        in_bounds(r, c),
    ensures
        at(mirror(g), r, c) == at(g, r, 6 - c),
{
    let i = r * 7 + c;
    assert(i / 7 == r && i % 7 == c);
}

/// One if `x` is `v`.
pub open spec fn ind(x: Option<bool>, v: Option<bool>) -> int {
    if x == v {
        1
    } else {
        0
    }
}

/// The count of a window, cell by cell.
proof fn lemma_window_cells(g: Seq<Option<bool>>, r: int, c: int, dr: int, dc: int, v: Option<bool>)
    ensures
        window_prefix(g, r, c, dr, dc, v, 4) == ind(at(g, r, c), v) + ind(at(g, r + dr, c + dc), v) + ind(
            at(g, r + 2 * dr, c + 2 * dc),
            v,
        ) + ind(at(g, r + 3 * dr, c + 3 * dc), v),
{
    assert((1 - 1) * dr == 0 && (2 - 1) * dr == dr && (3 - 1) * dr == 2 * dr && (4 - 1) * dr == 3 * dr)
        by (nonlinear_arith);
    assert((1 - 1) * dc == 0 && (2 - 1) * dc == dc && (3 - 1) * dc == 2 * dc && (4 - 1) * dc == 3 * dc)
        by (nonlinear_arith);
    assert(window_prefix(g, r, c, dr, dc, v, 0) == 0);
    assert(window_prefix(g, r, c, dr, dc, v, 1) == ind(at(g, r, c), v));
    assert(window_prefix(g, r, c, dr, dc, v, 2) == window_prefix(g, r, c, dr, dc, v, 1) + ind(
        at(g, r + dr, c + dc),
        v,
    ));
    assert(window_prefix(g, r, c, dr, dc, v, 3) == window_prefix(g, r, c, dr, dc, v, 2) + ind(
        at(g, r + 2 * dr, c + 2 * dc),
        v,
    ));
    assert(window_prefix(g, r, c, dr, dc, v, 4) == window_prefix(g, r, c, dr, dc, v, 3) + ind(
        at(g, r + 3 * dr, c + 3 * dc),
        v,
    ));
}

/// A window read backwards scores the same.
proof fn lemma_window_reverse(g: Seq<Option<bool>>, r: int, c: int, dr: int, dc: int)
    ensures
        window_score(g, r, c, dr, dc) == window_score(g, r + 3 * dr, c + 3 * dc, -dr, -dc),
{
    lemma_window_cells(g, r, c, dr, dc, Some(true));
    lemma_window_cells(g, r, c, dr, dc, Some(false));
    lemma_window_cells(g, r + 3 * dr, c + 3 * dc, -dr, -dc, Some(true));
    lemma_window_cells(g, r + 3 * dr, c + 3 * dc, -dr, -dc, Some(false));
    assert(r + 3 * dr + -dr == r + 2 * dr && c + 3 * dc + -dc == c + 2 * dc);
    assert(r + 3 * dr + 2 * -dr == r + dr && c + 3 * dc + 2 * -dc == c + dc);
    assert(r + 3 * dr + 3 * -dr == r && c + 3 * dc + 3 * -dc == c);
}

/// A window on the mirrored board scores as its mirror image.
proof fn lemma_window_mirror(g: Seq<Option<bool>>, r: int, c: int, dr: int, dc: int)
    requires
        0 <= dr <= 1,
        -1 <= dc <= 1,
        in_bounds(r, c),
        in_bounds(r + 3 * dr, c + 3 * dc),
    ensures
        window_score(mirror(g), r, c, dr, dc) == window_score(g, r, 6 - c, dr, -dc),
{
    lemma_window_cells(mirror(g), r, c, dr, dc, Some(true));
    lemma_window_cells(mirror(g), r, c, dr, dc, Some(false));
    lemma_window_cells(g, r, 6 - c, dr, -dc, Some(true));
    lemma_window_cells(g, r, 6 - c, dr, -dc, Some(false));
    lemma_at_mirror(g, r, c);
    lemma_at_mirror(g, r + dr, c + dc);
    lemma_at_mirror(g, r + 2 * dr, c + 2 * dc);
    lemma_at_mirror(g, r + 3 * dr, c + 3 * dc);
    assert(6 - (c + dc) == 6 - c + -dc);
    assert(6 - (c + 2 * dc) == 6 - c + 2 * -dc);
    assert(6 - (c + 3 * dc) == 6 - c + 3 * -dc);
}

/// The windows starting at `(r, c)` on the mirrored board, one by one.
proof fn lemma_cell_mirror(g: Seq<Option<bool>>, r: int, c: int)
    requires
        in_bounds(r, c),
    ensures
        c + 3 < 7 ==> window_score(mirror(g), r, c, 0, 1) == window_score(g, r, 3 - c, 0, 1),
        r + 3 < 6 ==> window_score(mirror(g), r, c, 1, 0) == window_score(g, r, 6 - c, 1, 0),
        r + 3 < 6 && c + 3 < 7 ==> window_score(mirror(g), r, c, 1, 1) == window_score(g, r, 6 - c, 1, -1),
        r + 3 < 6 && c >= 3 ==> window_score(mirror(g), r, c, 1, -1) == window_score(g, r, 6 - c, 1, 1),
{
    if c + 3 < 7 {
        lemma_window_mirror(g, r, c, 0, 1);
        lemma_window_reverse(g, r, 3 - c, 0, 1);
    }
    if r + 3 < 6 {
        lemma_window_mirror(g, r, c, 1, 0);
    }
    if r + 3 < 6 && c + 3 < 7 {
        lemma_window_mirror(g, r, c, 1, 1);
    }
    if r + 3 < 6 && c >= 3 {
        lemma_window_mirror(g, r, c, 1, -1);
    }
}

proof fn lemma_row_mirror(g: Seq<Option<bool>>, r: int)
    requires
        0 <= r < 6,
    ensures
        row_windows(mirror(g), r, 7) == row_windows(g, r, 7),
{
    lemma_cell_mirror(g, r, 0);
    lemma_cell_mirror(g, r, 1);
    lemma_cell_mirror(g, r, 2);
    lemma_cell_mirror(g, r, 3);
    lemma_cell_mirror(g, r, 4);
    lemma_cell_mirror(g, r, 5);
    lemma_cell_mirror(g, r, 6);
    reveal_with_fuel(row_windows, 8);
}

proof fn lemma_rows_mirror(g: Seq<Option<bool>>, n: int)
    requires
        0 <= n <= 6,
    ensures
        rows_windows(mirror(g), n) == rows_windows(g, n),
    decreases n,
{
    if n > 0 {
        lemma_rows_mirror(g, n - 1);
        lemma_row_mirror(g, n - 1);
    }
}

proof fn lemma_center_mirror(g: Seq<Option<bool>>, n: int)
    requires
        0 <= n <= 6,
    ensures
        center_bonus(mirror(g), n) == center_bonus(g, n),
    decreases n,
{
    if n > 0 {
        lemma_center_mirror(g, n - 1);
        lemma_at_mirror(g, n - 1, 3);
    }
}

/// The evaluation is even under a left-right mirror.
pub proof fn law_evaluation_mirror(g: Seq<Option<bool>>)
    ensures
        evaluation(mirror(g)) == evaluation(g),
{
    lemma_center_mirror(g, 6);
    lemma_rows_mirror(g, 6);
}

/// Number of the four cells from `(r, c)` along `(dr, dc)` that hold `v`.
pub open spec fn count_in_window(g: Seq<Option<bool>>, r: int, c: int, dr: int, dc: int, v: Option<bool>) -> int {
    ind(at(g, r, c), v) + ind(at(g, r + dr, c + dc), v) + ind(at(g, r + 2 * dr, c + 2 * dc), v) + ind(
        at(g, r + 3 * dr, c + 3 * dc),
        v,
    )
}

/// How a window of four scores: a window holding pieces of both players
/// scores nothing; otherwise three pieces of the computer score 50 and two
/// score 5, three pieces of its opponent -50 and two -5, anything else 0.
pub proof fn law_window_score(g: Seq<Option<bool>>, r: int, c: int, dr: int, dc: int)
    ensures
        count_in_window(g, r, c, dr, dc, Some(true)) > 0 && count_in_window(g, r, c, dr, dc, Some(false)) > 0
            ==> window_score(g, r, c, dr, dc) == 0,
        count_in_window(g, r, c, dr, dc, Some(false)) == 0 ==> window_score(g, r, c, dr, dc) == if count_in_window(
            g,
            r,
            c,
            dr,
            dc,
            Some(true),
        ) == 3 {
            50int
        } else if count_in_window(g, r, c, dr, dc, Some(true)) == 2 {
            5int
        } else {
            0int
        },
        count_in_window(g, r, c, dr, dc, Some(true)) == 0 ==> window_score(g, r, c, dr, dc) == if count_in_window(
            g,
            r,
            c,
            dr,
            dc,
            Some(false),
        ) == 3 {
            -50int
        } else if count_in_window(g, r, c, dr, dc, Some(false)) == 2 {
            -5int
        } else {
            0int
        },
{
    lemma_window_cells(g, r, c, dr, dc, Some(true));
    lemma_window_cells(g, r, c, dr, dc, Some(false));
}

/// Scores of the windows along `(dr, dc)` that start on row `r` at columns
/// `lo` to `hi - 1`.
pub open spec fn window_run(g: Seq<Option<bool>>, r: int, dr: int, dc: int, lo: int, hi: int) -> int
    decreases hi - lo,
{
    if hi <= lo {
        0
    } else {
        window_run(g, r, dr, dc, lo, hi - 1) + window_score(g, r, hi - 1, dr, dc)
    }
}

/// Scores of the windows along `(dr, dc)` that start on rows 0 to `rows - 1`
/// at columns `lo` to `hi - 1`.
pub open spec fn window_block(g: Seq<Option<bool>>, dr: int, dc: int, rows: int, lo: int, hi: int) -> int
    decreases rows,
{
    if rows <= 0 {
        0
    } else {
        window_block(g, dr, dc, rows - 1, lo, hi) + window_run(g, rows - 1, dr, dc, lo, hi)
    }
}

/// Three points for each piece of the computer in the centre column, minus
/// three for each piece of its opponent.
pub open spec fn center_points(g: Seq<Option<bool>>) -> int {
    3 * (ind(at(g, 0, 3), Some(true)) + ind(at(g, 1, 3), Some(true)) + ind(at(g, 2, 3), Some(true)) + ind(
        at(g, 3, 3),
        Some(true),
    ) + ind(at(g, 4, 3), Some(true)) + ind(at(g, 5, 3), Some(true))) - 3 * (ind(at(g, 0, 3), Some(false))
        + ind(at(g, 1, 3), Some(false)) + ind(at(g, 2, 3), Some(false)) + ind(at(g, 3, 3), Some(false)) + ind(
        at(g, 4, 3),
        Some(false),
    ) + ind(at(g, 5, 3), Some(false)))
}

/// Every window of four on the board, once: the 24 horizontal ones, the 21
/// vertical ones, the 12 going down-right and the 12 going down-left.
pub open spec fn all_windows(g: Seq<Option<bool>>) -> int {
    window_block(g, 0, 1, 6, 0, 4) + window_block(g, 1, 0, 3, 0, 7) + window_block(g, 1, 1, 3, 0, 4)
        + window_block(g, 1, -1, 3, 3, 7)
}

proof fn lemma_row_windows_split(g: Seq<Option<bool>>, r: int)
    ensures
        row_windows(g, r, 7) == window_run(g, r, 0, 1, 0, 4) + if r + 3 < 6 {
            window_run(g, r, 1, 0, 0, 7) + window_run(g, r, 1, 1, 0, 4) + window_run(g, r, 1, -1, 3, 7)
        } else {
            0
        },
{
    reveal_with_fuel(row_windows, 8);
    reveal_with_fuel(window_run, 8);
}

proof fn lemma_rows_windows_split(g: Seq<Option<bool>>, n: int)
    requires
        0 <= n <= 6,
    ensures
        rows_windows(g, n) == window_block(g, 0, 1, n, 0, 4) + window_block(g, 1, 0, if n < 3 { n } else { 3 }, 0, 7)
            + window_block(g, 1, 1, if n < 3 { n } else { 3 }, 0, 4) + window_block(
            g,
            1,
            -1,
            if n < 3 { n } else { 3 },
            3,
            7,
        ),
    decreases n,
{
    if n > 0 {
        lemma_rows_windows_split(g, n - 1);
        lemma_row_windows_split(g, n - 1);
    }
}

/// The evaluation is the centre-column points plus the score of every window
/// of four on the board, in all four directions.
pub proof fn law_evaluation_windows(g: Seq<Option<bool>>)
    ensures
        evaluation(g) == center_points(g) + all_windows(g),
{
    reveal_with_fuel(center_bonus, 7);
    lemma_rows_windows_split(g, 6);
}

/// `a` is strictly better than `b` for the maximizing player, or for the
/// minimizing one.
pub open spec fn better(maximizing: bool, a: int, b: int) -> bool {
    if maximizing {
        a > b
    } else {
        a < b
    }
}

/// Dropping into column `c` wins at once for the side searched.
pub open spec fn wins_now(m: SimModel, c: int, maximizing: bool) -> bool {
    m.valid(c) && wins_through(m.drop(c).grid, m.drop(c).last_row(c), c, Some(maximizing))
}

/// The value of the position after dropping into column `c`.
pub open spec fn child_value(m: SimModel, depth: int, maximizing: bool, level: int, c: int) -> int {
    node(m.drop(c), depth - 1, !maximizing, level + 1).0
}

/// The scan behind `law_search_optimal`.
proof fn lemma_scan_optimal(
    m: SimModel,
    depth: int,
    maximizing: bool,
    level: int,
    i: int,
    best: int,
    col: Option<int>,
    ic: int,
)
    requires
        m.wf(),
        shallow(level, m.moves),
        m.moves < 42,
        depth >= 1,
        0 <= i <= 7,
        forall|j: int| 0 <= j < 7 ==> !#[trigger] wins_now(m, order_column(j), maximizing),
        col is Some || valid_from(m, i),
        (col is None && best == sentinel(maximizing) && forall|j: int|
            0 <= j < i ==> !#[trigger] m.valid(order_column(j))) || (0 <= ic < i && col == Some(order_column(ic))
            && m.valid(order_column(ic)) && best == child_value(m, depth, maximizing, level, order_column(ic))
            && (forall|j: int|
            0 <= j < i && #[trigger] m.valid(order_column(j)) ==> !better(
                maximizing,
                child_value(m, depth, maximizing, level, order_column(j)),
                best,
            )) && (forall|j: int|
            0 <= j < ic && #[trigger] m.valid(order_column(j)) ==> better(
                maximizing,
                best,
                child_value(m, depth, maximizing, level, order_column(j)),
            ))),
    ensures
        ({
            let res = scan(m, depth, maximizing, level, i, best, col);
            &&& res.1 matches Some(c) && m.valid(c)
            &&& 0 <= order_index(res.1.unwrap()) < 7
            &&& order_column(order_index(res.1.unwrap())) == res.1.unwrap()
            &&& res.0 == child_value(m, depth, maximizing, level, res.1.unwrap())
            &&& forall|j: int|
                0 <= j < 7 && #[trigger] m.valid(order_column(j)) ==> !better(
                    maximizing,
                    child_value(m, depth, maximizing, level, order_column(j)),
                    res.0,
                )
            &&& forall|j: int|
                0 <= j < order_index(res.1.unwrap()) && #[trigger] m.valid(order_column(j)) ==> better(
                    maximizing,
                    res.0,
                    child_value(m, depth, maximizing, level, order_column(j)),
                )
        }),
    decreases 7 - i,
{
    if i < 7 {
        let c = order_column(i);
        if !m.valid(c) {
            if col is None {
                let j = choose|j: int| i <= j < 7 && #[trigger] m.valid(order_column(j));
                assert(valid_from(m, i + 1)) by {
                    assert(i + 1 <= j < 7 && m.valid(order_column(j)));
                }
            }
            lemma_scan_optimal(m, depth, maximizing, level, i + 1, best, col, ic);
        } else {
            assert(!wins_now(m, order_column(i), maximizing));
            let child = m.drop(c);
            lemma_drop_wf(m, c);
            lemma_node_bound(child, depth - 1, !maximizing, level + 1);
            let v = child_value(m, depth, maximizing, level, c);
            if better(maximizing, v, best) {
                lemma_scan_optimal(m, depth, maximizing, level, i + 1, v, Some(c), i);
            } else {
                lemma_scan_optimal(m, depth, maximizing, level, i + 1, best, col, ic);
            }
        }
    }
}

/// When no move wins at once, the search picks a column whose value is the
/// best of all valid columns for the side searched, and every column tried
/// before it is strictly worse.
pub proof fn law_search_optimal(m: SimModel, depth: int, maximizing: bool, level: int)
    requires
        m.wf(),
        shallow(level, m.moves),
        m.moves < 42,
        depth >= 1,
        forall|j: int| 0 <= j < 7 ==> !#[trigger] wins_now(m, order_column(j), maximizing),
    ensures
        node(m, depth, maximizing, level).1 matches Some(c) && m.valid(c),
        node(m, depth, maximizing, level).0 == child_value(m, depth, maximizing, level, node(m, depth, maximizing, level).1.unwrap()),
        forall|j: int|
            0 <= j < 7 && #[trigger] m.valid(order_column(j)) ==> !better(
                maximizing,
                child_value(m, depth, maximizing, level, order_column(j)),
                node(m, depth, maximizing, level).0,
            ),
        forall|j: int|
            0 <= j < order_index(node(m, depth, maximizing, level).1.unwrap()) && #[trigger] m.valid(order_column(j)) ==> better(
                maximizing,
                node(m, depth, maximizing, level).0,
                child_value(m, depth, maximizing, level, order_column(j)),
            ),
{
    lemma_room(m);
    lemma_scan_optimal(m, depth, maximizing, level, 0, sentinel(maximizing), None, 0);
}

} // verus!
