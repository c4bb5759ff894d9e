use vstd::prelude::*;
use vstd::string::StringExecFns;

use crate::text::{decimal, decimal_text};

verus! {

/// Largest value a grid index can take.
pub const COORD_MAX: u16 = 65535;

/// A cell index on the grid: column `x`, row `y` (row 0 is the bottom row).
#[derive(Debug, Clone, Copy, PartialEq, Eq, Structural, PartialOrd, Ord, Hash, Default)]
pub struct Coordinates {
    pub x: u16,
    pub y: u16,
}

/// `v + d`, clamped to the range of a grid index.
pub open spec fn clamp_index(v: int, d: int) -> int {
    if v + d < 0 {
        0
    } else if v + d > COORD_MAX as int {
        COORD_MAX as int
    } else {
        v + d
    }
}

impl Coordinates {
    /// The coordinates moved by a signed offset, clamped at zero (and at the
    /// top of the unsigned range).
    pub open spec fn spec_offset(self, dx: int, dy: int) -> Coordinates {
        Coordinates { x: clamp_index(self.x as int, dx) as u16, y: clamp_index(self.y as int, dy) as u16 }
    }

    /// Moves the coordinates by `delta`; a component that would go below zero
    /// stays at zero.
    pub fn offset(self, delta: (i8, i8)) -> (r: Coordinates)
        ensures
            r == self.spec_offset(delta.0 as int, delta.1 as int),
    {
        Coordinates { x: offset_index(self.x, delta.0), y: offset_index(self.y, delta.1) }
    }

    /// The coordinates as text, `(x, y)`.
    pub fn to_text(&self) -> (r: String)
        ensures
            r@ == "("@ + decimal(self.x as nat) + ", "@ + decimal(self.y as nat) + ")"@,
    {
        let mut s = String::from_str("(");
        s.append(decimal_text(self.x as u64).as_str());
        s.append(", ");
        s.append(decimal_text(self.y as u64).as_str());
        s.append(")");
        s
    }

    /// Component-wise subtraction that stops at zero.
    pub fn saturating_sub(self, rhs: Coordinates) -> (r: Coordinates)
        ensures
            r.x == if self.x >= rhs.x { (self.x - rhs.x) as u16 } else { 0 },
            r.y == if self.y >= rhs.y { (self.y - rhs.y) as u16 } else { 0 },
    {
        Coordinates { x: self.x.saturating_sub(rhs.x), y: self.y.saturating_sub(rhs.y) }
    }
}

fn offset_index(v: u16, d: i8) -> (r: u16)
    ensures
        r as int == clamp_index(v as int, d as int),
{
    if d < 0 {
        let back = (0i16 - d as i16) as u16;
        if v >= back {
            v - back
        } else {
            0
        }
    } else {
        let fwd = d as u16;
        if v <= COORD_MAX - fwd {
            v + fwd
        } else {
            COORD_MAX
        }
    }
}

} // verus!
