//! Geometry of the 6 x 7 board: cells stored row-major, runs of equal
//! cells along a direction, and windows of four in a line.
use vstd::prelude::*;

verus! {

/// Number of rows of the board (row 0 is the top).
pub const ROWS: usize = 6;

/// Number of columns of the board.
pub const COLS: usize = 7;

/// Number of cells of the board.
pub const CELLS: usize = 42;

/// The cell `(r, c)` lies on the board.
pub open spec fn in_bounds(r: int, c: int) -> bool {
    0 <= r < 6 && 0 <= c < 7
}

/// Position of cell `(r, c)` in the row-major storage.
pub open spec fn cell_index(r: int, c: int) -> int {
    r * 7 + c
}

/// The content of cell `(r, c)`.
pub open spec fn at<T>(g: Seq<T>, r: int, c: int) -> T {
    g[cell_index(r, c)]
}

/// Cell `(r, c)` is on the board and holds `t`.
pub open spec fn holds<T>(g: Seq<T>, r: int, c: int, t: T) -> bool {
    in_bounds(r, c) && at(g, r, c) == t
}

/// Number of consecutive cells holding `t`, starting at `(r, c)` and
/// stepping by `(dr, dc)`, looking at no more than `fuel` cells.
pub open spec fn run_len<T>(g: Seq<T>, r: int, c: int, dr: int, dc: int, t: T, fuel: nat) -> nat
    decreases fuel,
{
    if fuel > 0 && holds(g, r, c, t) {
        1 + run_len(g, r + dr, c + dc, dr, dc, t, (fuel - 1) as nat)
    } else {
        0
    }
}

/// Number of consecutive cells holding `t` just beyond `(r, c)` in
/// direction `(dr, dc)`, the cell `(r, c)` itself not counted.  No line of
/// the board is longer than 7 cells, so 7 steps see the whole run.
pub open spec fn ray<T>(g: Seq<T>, r: int, c: int, dr: int, dc: int, t: T) -> nat {
    run_len(g, r + dr, c + dc, dr, dc, t, 7)
}

/// Length of the line of `t` through `(r, c)` along `(dr, dc)`, counting
/// `(r, c)` itself and the runs on both sides of it.
pub open spec fn line_through<T>(g: Seq<T>, r: int, c: int, dr: int, dc: int, t: T) -> int {
    1 + ray(g, r, c, dr, dc, t) as int + ray(g, r, c, -dr, -dc, t) as int
}

/// The four directions of a line: horizontal, vertical and both diagonals.
pub open spec fn is_direction(dr: int, dc: int) -> bool {
    ||| (dr == 0 && dc == 1)
    ||| (dr == 1 && dc == 0)
    ||| (dr == 1 && dc == 1)
    ||| (dr == 1 && dc == -1)
}

/// Direction number `k` (0 to 3) in the order in which lines are examined.
pub open spec fn direction(k: int) -> (int, int) {
    if k == 0 {
        (0, 1)
    } else if k == 1 {
        (1, 0)
    } else if k == 2 {
        (1, 1)
    } else {
        (1, -1)
    }
}

/// Length of the line through `(r, c)` along direction number `k`.
pub open spec fn line_in_direction<T>(g: Seq<T>, r: int, c: int, k: int, t: T) -> int {
    line_through(g, r, c, direction(k).0, direction(k).1, t)
}

/// Some line of `t` through `(r, c)` is at least four cells long.
pub open spec fn wins_through<T>(g: Seq<T>, r: int, c: int, t: T) -> bool {
    ||| line_in_direction(g, r, c, 0, t) >= 4
    ||| line_in_direction(g, r, c, 1, t) >= 4
    ||| line_in_direction(g, r, c, 2, t) >= 4
    ||| line_in_direction(g, r, c, 3, t) >= 4
}

/// The four cells starting at `(r, c)` along `(dr, dc)` all hold `t`.
pub open spec fn four_from<T>(g: Seq<T>, r: int, c: int, dr: int, dc: int, t: T) -> bool {
    &&& holds(g, r, c, t)
    &&& holds(g, r + dr, c + dc, t)
    &&& holds(g, r + 2 * dr, c + 2 * dc, t)
    &&& holds(g, r + 3 * dr, c + 3 * dc, t)
}

/// Somewhere on the board four cells in a line hold `t`.
pub open spec fn has_four<T>(g: Seq<T>, t: T) -> bool {
    exists|r: int, c: int, dr: int, dc: int|
        is_direction(dr, dc) && #[trigger] four_from(g, r, c, dr, dc, t)
}

/// The line through a cell that holds `t` is four long exactly when one of
/// the four windows of four along that direction that contain the cell holds
/// `t` throughout.
pub proof fn lemma_line_iff_window<T>(g: Seq<T>, r: int, c: int, dr: int, dc: int, t: T)
    requires
        holds(g, r, c, t),
        is_direction(dr, dc),
    ensures
        line_through(g, r, c, dr, dc, t) >= 4 <==> {
            ||| four_from(g, r, c, dr, dc, t)
            ||| four_from(g, r - dr, c - dc, dr, dc, t)
            ||| four_from(g, r - 2 * dr, c - 2 * dc, dr, dc, t)
            ||| four_from(g, r - 3 * dr, c - 3 * dc, dr, dc, t)
        },
{
    reveal_with_fuel(run_len, 4);
}

/// Placing `t` on cell `(r, c)` creates a window of four for `t` exactly
/// when a line of `t` through `(r, c)` is four long, and creates none for
/// any other value.
pub proof fn lemma_place<T>(g: Seq<T>, r: int, c: int, t: T, u: T)
    requires
        g.len() == 42,
        in_bounds(r, c),
        !has_four(g, t),
        !has_four(g, u),
        u != t,
    ensures
        has_four(g.update(cell_index(r, c), t), t) <==> wins_through(
            g.update(cell_index(r, c), t),
            r,
            c,
            t,
        ),
        !has_four(g.update(cell_index(r, c), t), u),
{
    let g2 = g.update(cell_index(r, c), t);
    assert(holds(g2, r, c, t));
    // A window for `u` after the move cannot contain the new cell, so it was there before.
    if has_four(g2, u) {
        let (r0, c0, dr, dc) = choose|r0: int, c0: int, dr: int, dc: int|
            is_direction(dr, dc) && #[trigger] four_from(g2, r0, c0, dr, dc, u);
        lemma_cell_unchanged(g, r, c, t, r0, c0);
        lemma_cell_unchanged(g, r, c, t, r0 + dr, c0 + dc);
        lemma_cell_unchanged(g, r, c, t, r0 + 2 * dr, c0 + 2 * dc);
        lemma_cell_unchanged(g, r, c, t, r0 + 3 * dr, c0 + 3 * dc);
        assert(four_from(g, r0, c0, dr, dc, u));
        assert(false);
    }
    if has_four(g2, t) {
        let (r0, c0, dr, dc) = choose|r0: int, c0: int, dr: int, dc: int|
            is_direction(dr, dc) && #[trigger] four_from(g2, r0, c0, dr, dc, t);
        let on0 = r0 == r && c0 == c;
        let on1 = r0 + dr == r && c0 + dc == c;
        let on2 = r0 + 2 * dr == r && c0 + 2 * dc == c;
        let on3 = r0 + 3 * dr == r && c0 + 3 * dc == c;
        if !on0 && !on1 && !on2 && !on3 {
            lemma_cell_unchanged(g, r, c, t, r0, c0);
            lemma_cell_unchanged(g, r, c, t, r0 + dr, c0 + dc);
            lemma_cell_unchanged(g, r, c, t, r0 + 2 * dr, c0 + 2 * dc);
            lemma_cell_unchanged(g, r, c, t, r0 + 3 * dr, c0 + 3 * dc);
            assert(four_from(g, r0, c0, dr, dc, t));
            assert(false);
        }
        lemma_line_iff_window(g2, r, c, dr, dc, t);
        assert(line_through(g2, r, c, dr, dc, t) >= 4);
        if dr == 0 {
            assert(line_in_direction(g2, r, c, 0, t) >= 4);
        } else if dc == 0 {
            assert(line_in_direction(g2, r, c, 1, t) >= 4);
        } else if dc == 1 {
            assert(line_in_direction(g2, r, c, 2, t) >= 4);
        } else {
            assert(line_in_direction(g2, r, c, 3, t) >= 4);
        }
    }
    if wins_through(g2, r, c, t) {
        let k: int = if line_in_direction(g2, r, c, 0, t) >= 4 {
            0
        } else if line_in_direction(g2, r, c, 1, t) >= 4 {
            1
        } else if line_in_direction(g2, r, c, 2, t) >= 4 {
            2
        } else {
            3
        };
        let (dr, dc) = direction(k);
        lemma_line_iff_window(g2, r, c, dr, dc, t);
        if four_from(g2, r, c, dr, dc, t) {
            assert(is_direction(dr, dc) && four_from(g2, r, c, dr, dc, t));
        } else if four_from(g2, r - dr, c - dc, dr, dc, t) {
            assert(is_direction(dr, dc) && four_from(g2, r - dr, c - dc, dr, dc, t));
        } else if four_from(g2, r - 2 * dr, c - 2 * dc, dr, dc, t) {
            assert(is_direction(dr, dc) && four_from(g2, r - 2 * dr, c - 2 * dc, dr, dc, t));
        } else {
            assert(is_direction(dr, dc) && four_from(g2, r - 3 * dr, c - 3 * dc, dr, dc, t));
        }
    }
}

/// Writing cell `(r, c)` leaves every other cell as it was.
pub proof fn lemma_cell_unchanged<T>(g: Seq<T>, r: int, c: int, t: T, r1: int, c1: int)
    requires
        g.len() == 42,
        in_bounds(r, c),
        in_bounds(r1, c1),
        r1 != r || c1 != c,
    ensures
        at(g.update(cell_index(r, c), t), r1, c1) == at(g, r1, c1),
{
}

/// `x` moved `n` steps by `d`, for a step `d` of -1, 0 or 1.
pub open spec fn step(x: int, d: int, n: int) -> int {
    if d == 0 {
        x
    } else if d > 0 {
        x + n
    } else {
        x - n
    }
}

/// The cells of the run counted by `ray`, nearest first.
pub open spec fn ray_cells<T>(g: Seq<T>, r: int, c: int, dr: int, dc: int, t: T) -> Seq<(usize, usize)> {
    Seq::new(
        ray(g, r, c, dr, dc, t),
        |i: int| (step(r, dr, i + 1) as usize, step(c, dc, i + 1) as usize),
    )
}

/// Every cell of a run holds the value of the run.
pub proof fn lemma_run_cells<T>(g: Seq<T>, r: int, c: int, dr: int, dc: int, t: T, fuel: nat, i: int)
    requires
        -1 <= dr <= 1,
        -1 <= dc <= 1,
        0 <= i < run_len(g, r, c, dr, dc, t, fuel),
    ensures
        holds(g, step(r, dr, i), step(c, dc, i), t),
    decreases fuel,
{
    if i > 0 {
        lemma_run_cells(g, r + dr, c + dc, dr, dc, t, (fuel - 1) as nat, i - 1);
    }
}

/// One of the four directions, as steps along rows and columns.
pub fn direction_step(k: usize) -> (d: (isize, isize))
    requires
        k < 4,
    ensures
        d.0 == direction(k as int).0,
        d.1 == direction(k as int).1,
        is_direction(d.0 as int, d.1 as int),
{
    if k == 0 {
        (0, 1)
    } else if k == 1 {
        (1, 0)
    } else if k == 2 {
        (1, 1)
    } else {
        (1, -1)
    }
}

} // verus!
