use vstd::prelude::*;

use crate::components::Direction;

verus! {

/// Logical canvas units per grid cell.
pub const CELL_SIZE: u64 = 50;

/// A grid cell.
#[derive(Clone, Copy, Debug, PartialEq, Eq, Structural, Hash)]
pub struct WorldPosition {
    pub x: u64,
    pub y: u64,
}

/// Dimensions of the grid.
#[derive(Clone, Copy, Debug, PartialEq, Eq, Structural)]
pub struct WorldParameters {
    pub width: u64,
    pub height: u64,
}

/// The world's tick counter, advanced by each move the player asks for.
#[derive(Clone, Copy, Debug, PartialEq, Eq, Structural)]
pub struct WorldTime {
    pub tick: u64,
}

/// A point on the canvas in logical units (already rescaled from the size
/// the canvas is displayed at).
#[derive(Clone, Copy, Debug, PartialEq, Eq, Structural)]
pub struct CanvasPosition {
    pub x: u64,
    pub y: u64,
}

/// What the input source hands over between ticks.
#[derive(Clone, Copy, Debug, PartialEq, Eq, Structural)]
pub enum UIEvent {
    Right,
    Left,
    Up,
    Down,
    MouseOver(CanvasPosition),
    MousePress(CanvasPosition),
    MouseLeave,
}

/// The input events gathered since the last tick.
#[derive(Clone, Debug)]
pub struct LastUserEvent {
    pub events: Vec<UIEvent>,
}

/// Where the pointer hovers, if over the canvas.
#[derive(Clone, Copy, Debug, PartialEq, Eq, Structural)]
pub struct UIState {
    pub mouse_over: Option<CanvasPosition>,
}

/// The cell that holds a canvas point.
pub open spec fn cell_of(c: CanvasPosition) -> WorldPosition {
    WorldPosition { x: c.x / CELL_SIZE, y: c.y / CELL_SIZE }
}

impl CanvasPosition {
    pub fn cell(&self) -> (p: WorldPosition)
        ensures
            p == cell_of(*self),
    {
        WorldPosition { x: self.x / CELL_SIZE, y: self.y / CELL_SIZE }
    }
}

impl UIState {
    /// The hovered cell.
    pub fn mouse_over_position(&self) -> (r: Option<WorldPosition>)
        ensures
            r == (match self.mouse_over {
                Some(c) => Some(cell_of(c)),
                None => None,
            }),
    {
        match self.mouse_over {
            Some(c) => Some(c.cell()),
            None => None,
        }
    }
}

/// `p` lies on a grid of the given dimensions.
pub open spec fn in_bounds(p: WorldPosition, width: u64, height: u64) -> bool {
    p.x < width && p.y < height
}

/// One step from `p`; a coordinate at its least stays there, one at its
/// greatest wraps to zero (which the clamp in `moved_spec` then keeps on the grid).
pub open spec fn stepped(p: WorldPosition, d: Direction) -> WorldPosition {
    match d {
        Direction::Right => WorldPosition { x: if p.x < u64::MAX { (p.x + 1) as u64 } else { 0 }, y: p.y },
        Direction::Left => WorldPosition { x: if p.x > 0 { (p.x - 1) as u64 } else { 0 }, y: p.y },
        Direction::Up => WorldPosition { x: p.x, y: if p.y > 0 { (p.y - 1) as u64 } else { 0 } },
        Direction::Down => WorldPosition { x: p.x, y: if p.y < u64::MAX { (p.y + 1) as u64 } else { 0 } },
    }
}

pub open spec fn clamp_below(v: u64, bound: u64) -> u64 {
    if v < bound { v } else { (bound - 1) as u64 }
}

/// The cell reached by one step, held inside a `width` by `height` grid.
pub open spec fn moved_spec(p: WorldPosition, d: Direction, width: u64, height: u64) -> WorldPosition {
    let s = stepped(p, d);
    WorldPosition { x: clamp_below(s.x, width), y: clamp_below(s.y, height) }
}

/// The cell reached by taking the steps of `dirs` in order.
pub open spec fn walked(p: WorldPosition, dirs: Seq<Direction>, width: u64, height: u64) -> WorldPosition
    decreases dirs.len(),
{
    if dirs.len() == 0 {
        p
    } else {
        walked(moved_spec(p, dirs[0], width, height), dirs.drop_first(), width, height)
    }
}

/// However many steps are taken, towards a border or not, the position
/// stays on the grid: after at least one step, and from a start on the grid.
pub proof fn lemma_walk_stays_in_bounds(p: WorldPosition, dirs: Seq<Direction>, width: u64, height: u64)
    requires
        width >= 1,
        height >= 1,
        dirs.len() > 0 || in_bounds(p, width, height),
    ensures
        in_bounds(walked(p, dirs, width, height), width, height),
    decreases dirs.len(),
{
    if dirs.len() > 0 {
        lemma_walk_stays_in_bounds(moved_spec(p, dirs[0], width, height), dirs.drop_first(), width, height);
    }
}

impl WorldPosition {
    pub fn moved(&self, direction: Direction, clamp_width: u64, clamp_height: u64) -> (r: WorldPosition)
        requires
            clamp_width >= 1,
            clamp_height >= 1,
        ensures
            r == moved_spec(*self, direction, clamp_width, clamp_height),
            in_bounds(r, clamp_width, clamp_height),
    {
        let s = match direction {
            Direction::Right => WorldPosition { x: self.x.checked_add(1).unwrap_or(0), y: self.y },
            Direction::Left => WorldPosition { x: self.x.checked_sub(1).unwrap_or(0), y: self.y },
            Direction::Up => WorldPosition { x: self.x, y: self.y.checked_sub(1).unwrap_or(0) },
            Direction::Down => WorldPosition { x: self.x, y: self.y.checked_add(1).unwrap_or(0) },
        };
        let x = if s.x < clamp_width { s.x } else { clamp_width - 1 };
        let y = if s.y < clamp_height { s.y } else { clamp_height - 1 };
        WorldPosition { x, y }
    }
}

impl WorldParameters {
    /// Both dimensions are positive and the grid's cells can be counted in a `usize`.
    pub open spec fn valid(&self) -> bool {
        self.width >= 1 && self.height >= 1 && self.width * self.height <= usize::MAX
    }

    pub fn max_position(&self) -> (p: WorldPosition)
        requires
            self.width >= 1,
            self.height >= 1,
        ensures
            p == (WorldPosition { x: (self.width - 1) as u64, y: (self.height - 1) as u64 }),
    {
        WorldPosition { x: self.width - 1, y: self.height - 1 }
    }
}

} // verus!
