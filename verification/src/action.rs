//! The action model: what a single shift reports back to the caller, and the
//! coordinate translations that map line-space positions onto the grid for
//! each of the four directions.

use vstd::prelude::*;

verus! {

/// The grid shift direction.
#[derive(PartialEq, Eq, Structural, Clone, Copy, Debug)]
pub enum Direction {
    Up,
    Down,
    Left,
    Right,
}

/// The kind of an atomic tile change: a slide, or a merge of two equal ranks.
#[derive(PartialEq, Eq, Structural, Clone, Copy, Debug)]
pub enum TileActionKind {
    Move,
    Merge,
}

/// One atomic change produced by a single shift: a tile slides from `from`
/// to `to` (`Move`, value unchanged), or the tile at `from` combines into the
/// tile at `to` (`Merge`, value is the post-merge rank). Coordinates are
/// `(row, col)` in true grid space.
#[derive(PartialEq, Eq, Clone, Copy, Debug)]
pub struct TileAction {
    pub kind: TileActionKind,
    pub value: u8,
    pub from: (usize, usize),
    pub to: (usize, usize),
}

/// An action in line space, before any coordinate translation: kind,
/// resulting value, scan position the tile came from, position it went to.
pub type LineAct = (TileActionKind, u8, int, int);

/// A line action of row `r`, shifted toward the low column edge.
pub open spec fn act_in_row(r: int, a: LineAct) -> TileAction {
    TileAction { kind: a.0, value: a.1, from: ((r as usize), (a.2 as usize)), to: ((r as usize), (a.3 as usize)) }
}

/// A line action of row `r`, shifted toward the high column edge of a grid
/// of side `n`: the column index is mirrored.
pub open spec fn act_in_row_rev(n: int, r: int, a: LineAct) -> TileAction {
    TileAction {
        kind: a.0,
        value: a.1,
        from: ((r as usize), ((n - 1 - a.2) as usize)),
        to: ((r as usize), ((n - 1 - a.3) as usize)),
    }
}

/// A line action of column `c`, shifted toward the low row edge: row and
/// column are transposed.
pub open spec fn act_in_col(c: int, a: LineAct) -> TileAction {
    TileAction { kind: a.0, value: a.1, from: ((a.2 as usize), (c as usize)), to: ((a.3 as usize), (c as usize)) }
}

/// A line action of column `c`, shifted toward the high row edge of a grid
/// of side `n`: transposed, with the row index mirrored.
pub open spec fn act_in_col_rev(n: int, c: int, a: LineAct) -> TileAction {
    TileAction {
        kind: a.0,
        value: a.1,
        from: (((n - 1 - a.2) as usize), (c as usize)),
        to: (((n - 1 - a.3) as usize), (c as usize)),
    }
}

} // verus!
