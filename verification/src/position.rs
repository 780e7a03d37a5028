//! Grid coordinates and their vector arithmetic.

use vstd::prelude::*;

verus! {

/// An integer (x, y) coordinate on the board.
///
/// `x` increases rightward, `y` increases upward, both 0-based at the
/// board's bottom-left corner. The arithmetic helpers are plain
/// component-wise operations; staying inside the board is the caller's
/// responsibility at the board boundary.
#[derive(Clone, Copy, PartialEq, Eq, Structural, Debug)]
pub struct Pos {
    /// Horizontal coordinate, growing rightward.
    pub x: i32,
    /// Vertical coordinate, growing upward.
    pub y: i32,
}

impl Pos {
    /// Creates the position (x, y).
    pub fn new(x: i32, y: i32) -> (p: Pos)
        ensures
            p == (Pos { x, y }),
    {
        Pos { x, y }
    }

    /// The horizontal coordinate.
    pub fn x(&self) -> (r: i32)
        ensures
            r == self.x,
    {
        self.x
    }

    /// The vertical coordinate.
    pub fn y(&self) -> (r: i32)
        ensures
            r == self.y,
    {
        self.y
    }

    /// Component-wise sum: this position translated by `delta`.
    pub fn offset(self, delta: Pos) -> (r: Pos)
        requires
            i32::MIN <= self.x + delta.x <= i32::MAX,
            i32::MIN <= self.y + delta.y <= i32::MAX,
        ensures
            r.x == self.x + delta.x,
            r.y == self.y + delta.y,
    {
        Pos { x: self.x + delta.x, y: self.y + delta.y }
    }

    /// Component-wise difference: the offset that takes `other` to this
    /// position.
    pub fn delta(self, other: Pos) -> (r: Pos)
        requires
            i32::MIN <= self.x - other.x <= i32::MAX,
            i32::MIN <= self.y - other.y <= i32::MAX,
        ensures
            r.x == self.x - other.x,
            r.y == self.y - other.y,
    {
        Pos { x: self.x - other.x, y: self.y - other.y }
    }
}

} // verus!
