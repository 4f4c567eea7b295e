//! Which side of a line a point lies on.
use vstd::prelude::*;

verus! {

/// The side of a line, seen from its start toward its end, that a point lies on.
#[derive(Debug, Clone, Copy, PartialEq, Eq, Structural)]
pub enum LineSide {
    Right,
    Left,
    Overlap,
}

impl LineSide {
    /// The side that a signed cross product of the line direction and the point's offset
    /// gives: positive is the right side, negative the left, zero on the line.
    pub fn from_sign(sign: i32) -> (side: LineSide)
        ensures
            sign > 0 ==> side == LineSide::Right,
            sign < 0 ==> side == LineSide::Left,
            sign == 0 ==> side == LineSide::Overlap,
    {
        if sign > 0 {
            LineSide::Right
        } else if sign < 0 {
            LineSide::Left
        } else {
            LineSide::Overlap
        }
    }
}

} // verus!
