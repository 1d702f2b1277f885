//! The mathematical model of the whole board: a square grid of cells, its
//! directional transforms, the terminal-state predicates, and the shape of a
//! spawn step.

use vstd::prelude::*;
use crate::line::{cell_ok, compress, compress_rev, line_int, zero_line};

verus! {

/// The integer contents of an executable grid.
pub open spec fn grid_int(g: Seq<Seq<usize>>) -> Seq<Seq<int>> {
    g.map_values(|r: Seq<usize>| line_int(r))
}

/// A well-formed grid is square, of side `n`, and every cell is empty or a
/// power-of-two tile.
pub open spec fn grid_wf(g: Seq<Seq<int>>, n: int) -> bool {
    &&& g.len() == n
    &&& forall|i: int| 0 <= i < g.len() ==> #[trigger] g[i].len() == n
    &&& forall|i: int, j: int| 0 <= i < g.len() && 0 <= j < g[i].len() ==> cell_ok(#[trigger] g[i][j])
}

/// Every cell of the grid is at most `b`.
pub open spec fn grid_bounded(g: Seq<Seq<int>>, b: int) -> bool {
    forall|i: int, j: int| 0 <= i < g.len() && 0 <= j < g[i].len() ==> #[trigger] g[i][j] <= b
}

/// Column `j` of the grid, read top to bottom.
pub open spec fn column(g: Seq<Seq<int>>, j: int) -> Seq<int> {
    Seq::new(g.len(), |i: int| g[i][j])
}

/// An all-empty square grid of side `n`.
pub open spec fn zero_grid(n: int) -> Seq<Seq<int>> {
    Seq::new(if n < 0 {
        0
    } else {
        n as nat
    }, |i: int| zero_line(n))
}

/// Each row compressed toward the left edge.
pub open spec fn left_of(g: Seq<Seq<int>>) -> Seq<Seq<int>> {
    Seq::new(g.len(), |i: int| compress(g[i], g.len() as int))
}

/// Each row compressed toward the right edge.
pub open spec fn right_of(g: Seq<Seq<int>>) -> Seq<Seq<int>> {
    Seq::new(g.len(), |i: int| compress_rev(g[i], g.len() as int))
}

/// Each column compressed toward the top row.
pub open spec fn up_of(g: Seq<Seq<int>>) -> Seq<Seq<int>> {
    Seq::new(g.len(), |i: int| Seq::new(g.len(), |j: int| compress(column(g, j), g.len() as int)[i]))
}

/// Each column compressed toward the bottom row.
pub open spec fn down_of(g: Seq<Seq<int>>) -> Seq<Seq<int>> {
    Seq::new(
        g.len(),
        |i: int| Seq::new(g.len(), |j: int| compress_rev(column(g, j), g.len() as int)[i]),
    )
}

/// Some cell of the grid holds the value `x`.
pub open spec fn grid_contains(g: Seq<Seq<int>>, x: int) -> bool {
    exists|i: int, j: int| 0 <= i < g.len() && 0 <= j < g[i].len() && #[trigger] g[i][j] == x
}

/// No two grid-adjacent cells (horizontal or vertical neighbours) are equal.
pub open spec fn no_adjacent_pair(g: Seq<Seq<int>>) -> bool {
    forall|i: int, j: int|
        0 <= i < g.len() && 0 <= j < g[i].len() ==> {
            &&& (i + 1 < g.len() ==> #[trigger] g[i][j] != g[i + 1][j])
            &&& (j + 1 < g[i].len() ==> g[i][j] != g[i][j + 1])
        }
}

/// A locked board is full and offers no merge: no move of any direction can
/// change it, so no legal move remains.
pub open spec fn grid_locked(g: Seq<Seq<int>>) -> bool {
    !grid_contains(g, 0) && no_adjacent_pair(g)
}

/// One spawn: exactly one cell that was empty now holds a 2 or a 4, and
/// every other cell is as it was.
pub open spec fn spawn_step(b: Seq<Seq<int>>, a: Seq<Seq<int>>) -> bool {
    exists|r: int, c: int|
        {
            &&& 0 <= r < b.len()
            &&& 0 <= c < b[r].len()
            &&& #[trigger] b[r][c] == 0
            &&& (a[r][c] == 2 || a[r][c] == 4)
            &&& a =~= b.update(r, b[r].update(c, a[r][c]))
        }
}

} // verus!
