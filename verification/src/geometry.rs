use vstd::prelude::*;

verus! {

/// A step from a maze cell to one of its four grid neighbours.
///
/// `Up` moves to the previous row and `Down` to the next one; `Left` and
/// `Right` move within a row.
#[derive(Debug, Clone, Copy, PartialEq, Eq, Structural)]
pub enum Direction {
    Up,
    Down,
    Left,
    Right,
}

impl Direction {
    /// Column offset of the neighbour this direction points to.
    pub open spec fn step_x(self) -> int {
        match self {
            Direction::Left => -1,
            Direction::Right => 1,
            _ => 0,
        }
    }

    /// Row offset of the neighbour this direction points to.
    pub open spec fn step_y(self) -> int {
        match self {
            Direction::Up => -1,
            Direction::Down => 1,
            _ => 0,
        }
    }
}

/// An axis-aligned rectangle in doubled world units: `cx2` and `cy2` are
/// twice the centre coordinates, `hx2` and `hy2` twice the half-extents.
/// Working in doubled units keeps cell centres and wall midpoints integral.
#[derive(Debug, Clone, Copy, PartialEq, Eq, Structural)]
pub struct Rect {
    pub cx2: i64,
    pub cy2: i64,
    pub hx2: i64,
    pub hy2: i64,
}

/// Squared Euclidean distance between two points.
pub open spec fn dist_sq(ax: int, ay: int, bx: int, by: int) -> int {
    (ax - bx) * (ax - bx) + (ay - by) * (ay - by)
}

} // verus!
