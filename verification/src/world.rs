//! MicroWorld: a tiny deterministic grid world in which one marker pixel moves
//! on a background, clamped at the edges.
use vstd::prelude::*;
use crate::grid::{
    Grid, GridModel, cells_diff, filled_model, find_color_model, hamming, lemma_cells_first_at,
    lemma_row_first_at, lemma_row_first_none, row_diff, set_model, shaped,
};

verus! {

/// Move the marker one row up.
pub const ACTION_UP: u8 = 0;
/// Move the marker one row down.
pub const ACTION_DOWN: u8 = 1;
/// Move the marker one column left.
pub const ACTION_LEFT: u8 = 2;
/// Move the marker one column right.
pub const ACTION_RIGHT: u8 = 3;
/// Number of actions.
pub const N_ACTIONS: usize = 4;

const MARKER_COLOR: u8 = 1;
const BG_COLOR: u8 = 0;

/// A move toward the bottom or the right edge computes `size - 1`, which is
/// only defined on a world of positive size.
pub open spec fn move_defined(action: u8, size: int) -> bool {
    (action == ACTION_DOWN || action == ACTION_RIGHT) ==> size > 0
}

/// Where a marker at `pos` ends up after `action` on a `size x size` board:
/// one cell in the action's direction, unless that leaves the board.
/// Any other action leaves it in place.
pub open spec fn step_pos(pos: (int, int), action: u8, size: int) -> (int, int) {
    if action == ACTION_UP {
        if pos.0 > 0 { (pos.0 - 1, pos.1) } else { pos }
    } else if action == ACTION_DOWN {
        if pos.0 < size - 1 { (pos.0 + 1, pos.1) } else { pos }
    } else if action == ACTION_LEFT {
        if pos.1 > 0 { (pos.0, pos.1 - 1) } else { pos }
    } else if action == ACTION_RIGHT {
        if pos.1 < size - 1 { (pos.0, pos.1 + 1) } else { pos }
    } else {
        pos
    }
}

/// What the agent sees of a world of `size` with the marker at `(row, col)`.
pub open spec fn observe_model(size: usize, row: int, col: int) -> GridModel {
    set_model(filled_model(size, size, 0), row, col, 1)
}

/// A row of `n` background cells, with the marker at column `c` if `c` is given.
pub open spec fn marker_row(n: int, c: Option<int>) -> Seq<u8> {
    match c {
        Some(c) => Seq::new(n as nat, |j: int| 0u8).update(c, 1u8),
        None => Seq::new(n as nat, |j: int| 0u8),
    }
}

proof fn lemma_observe_rows(size: usize, row: int, col: int, i: int)
    requires
        0 <= row < size,
        0 <= col < size,
        0 <= i < size,
    ensures
        observe_model(size, row, col).2[i] == marker_row(size as int, if i == row { Some(col) } else { None }),
        observe_model(size, row, col).2.len() == size,
{
}

/// The observed grid shows the marker exactly where the world keeps it.
pub proof fn law_observe_shows_marker(size: usize, row: int, col: int)
    requires
        0 <= row < size,
        0 <= col < size,
    ensures
        find_color_model(observe_model(size, row, col), 1) == Some((row, col)),
{
    let g = observe_model(size, row, col);
    lemma_observe_rows(size, row, col, row);
    lemma_row_first_at(g.2[row], 1, 0, col);
    assert forall|i: int| 0 <= i < row implies find_color_row_none(#[trigger] g.2[i]) by {
        lemma_observe_rows(size, row, col, i);
        lemma_row_first_none(g.2[i], 1, 0);
    }
    lemma_cells_first_at(g.2, 1, 0, row, col);
}

/// No marker in the row.
pub open spec fn find_color_row_none(r: Seq<u8>) -> bool {
    crate::grid::row_first(r, 1, 0) is None
}

/// Two marker rows differ at each column where exactly one has the marker.
proof fn lemma_marker_row_diff(n: int, a: Option<int>, b: Option<int>, k: int)
    requires
        0 <= k <= n,
        a matches Some(x) ==> 0 <= x < n,
        b matches Some(y) ==> 0 <= y < n,
    ensures
        row_diff(marker_row(n, a), marker_row(n, b), k) == (if a == b { 0int } else {
            (if a matches Some(x) && x < k { 1int } else { 0int }) + (if b matches Some(y) && y < k { 1int } else { 0int })
        }),
    decreases k,
{
    if k > 0 {
        lemma_marker_row_diff(n, a, b, k - 1);
    }
}

/// Two observations of the world differ in two cells when the marker moved,
/// and in none when it stayed.
pub proof fn law_move_changes_two_cells(size: usize, r1: int, c1: int, r2: int, c2: int)
    requires
        0 <= r1 < size,
        0 <= c1 < size,
        0 <= r2 < size,
        0 <= c2 < size,
    ensures
        hamming(observe_model(size, r1, c1), observe_model(size, r2, c2)) == (if (r1, c1) == (r2, c2) { 0int } else { 2int }),
{
    let a = observe_model(size, r1, c1);
    let b = observe_model(size, r2, c2);
    let n = size as int;
    assert forall|k: int| 0 <= k <= n implies #[trigger] cells_diff(a.2, b.2, k, n) == (if (r1, c1) == (r2, c2) { 0int } else {
        (if r1 < k { 1int } else { 0int }) + (if r2 < k { 1int } else { 0int })
    }) by {
        lemma_cells_diff_two(size, r1, c1, r2, c2, k);
    }
}

proof fn lemma_cells_diff_two(size: usize, r1: int, c1: int, r2: int, c2: int, k: int)
    requires
        0 <= r1 < size,
        0 <= c1 < size,
        0 <= r2 < size,
        0 <= c2 < size,
        0 <= k <= size,
    ensures
        cells_diff(observe_model(size, r1, c1).2, observe_model(size, r2, c2).2, k, size as int) == (if (r1, c1) == (r2, c2) { 0int } else {
            (if r1 < k { 1int } else { 0int }) + (if r2 < k { 1int } else { 0int })
        }),
    decreases k,
{
    if k > 0 {
        lemma_cells_diff_two(size, r1, c1, r2, c2, k - 1);
        let i = k - 1;
        lemma_observe_rows(size, r1, c1, i);
        lemma_observe_rows(size, r2, c2, i);
        let oa: Option<int> = if i == r1 { Some(c1) } else { None };
        let ob: Option<int> = if i == r2 { Some(c2) } else { None };
        lemma_marker_row_diff(size as int, oa, ob, size as int);
    }
}

/// The world: its size and the marker's position.
pub struct MicroWorld {
    size: usize,
    marker_row: usize,
    marker_col: usize,
}

impl View for MicroWorld {
    type V = (usize, usize, usize);

    closed spec fn view(&self) -> (usize, usize, usize) {
        (self.size, self.marker_row, self.marker_col)
    }
}

/// The marker is on the board, or the board is empty and the marker at the origin.
pub open spec fn world_inv(w: (usize, usize, usize)) -> bool {
    (w.1 < w.0 && w.2 < w.0) || (w.0 == 0 && w.1 == 0 && w.2 == 0)
}

impl MicroWorld {
    #[verifier::type_invariant]
    spec fn inv(self) -> bool {
        world_inv(self@)
    }

    /// Create a new world with the marker at center.
    pub fn new(size: usize) -> (w: MicroWorld)
        ensures
            w@ == (size, size / 2, size / 2),
            world_inv(w@),
    {
        let center = size / 2;
        MicroWorld { size, marker_row: center, marker_col: center }
    }

    /// Observe the current state as a grid.
    pub fn observe(&self) -> (g: Grid)
        ensures
            g@ == observe_model(self@.0, self@.1 as int, self@.2 as int),
            shaped(g@),
    {
        let mut grid = Grid::filled(self.size, self.size, BG_COLOR);
        grid.set(self.marker_row, self.marker_col, MARKER_COLOR);
        grid
    }

    /// Apply an action. Deterministic; clamps at edges; unknown actions are no-ops.
    pub fn apply(&mut self, action: u8)
        requires
            move_defined(action, old(self)@.0 as int),
        ensures
            final(self)@.0 == old(self)@.0,
            (final(self)@.1 as int, final(self)@.2 as int) == step_pos(
                (old(self)@.1 as int, old(self)@.2 as int),
                action,
                old(self)@.0 as int,
            ),
            world_inv(final(self)@),
    {
        proof {
            use_type_invariant(&*self);
        }
        match action {
            ACTION_UP => {
                if self.marker_row > 0 {
                    self.marker_row -= 1;
                }
            },
            ACTION_DOWN => {
                if self.marker_row < self.size - 1 {
                    self.marker_row += 1;
                }
            },
            ACTION_LEFT => {
                if self.marker_col > 0 {
                    self.marker_col -= 1;
                }
            },
            ACTION_RIGHT => {
                if self.marker_col < self.size - 1 {
                    self.marker_col += 1;
                }
            },
            _ => {},
        }
    }

    /// Reset the marker to the center.
    pub fn reset(&mut self)
        ensures
            final(self)@ == (old(self)@.0, old(self)@.0 / 2, old(self)@.0 / 2),
            world_inv(final(self)@),
    {
        proof {
            use_type_invariant(&*self);
        }
        let center = self.size / 2;
        self.marker_row = center;
        self.marker_col = center;
    }

    /// Current marker position.
    pub fn marker_pos(&self) -> (p: (usize, usize))
        ensures
            p == (self@.1, self@.2),
            world_inv(self@),
    {
        proof {
            use_type_invariant(self);
        }
        (self.marker_row, self.marker_col)
    }

    /// The world's side length.
    pub fn size(&self) -> (s: usize)
        ensures
            s == self@.0,
    {
        self.size
    }
}

} // verus!
