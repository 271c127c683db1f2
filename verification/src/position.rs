//! The [`Pos`] type: a discrete position (or vector) on a 2D grid.

use vstd::prelude::*;

verus! {

/// Largest grid dimension the library accepts on either axis, so that all
/// index and rendering arithmetic stays far away from machine overflow.
pub const MAX_DIM: isize = 0x4000;

/// A discrete position on a 2D grid.
#[derive(Debug, Clone, Copy, PartialEq, Eq, Hash, Structural)]
pub struct Pos(pub isize, pub isize);

impl Pos {
    /// Constructor.
    pub fn new(x: isize, y: isize) -> (r: Self)
        ensures
            r.0 == x && r.1 == y,
    {
        Pos(x, y)
    }

    /// Origin of the 2D grid.
    pub fn zero() -> (r: Self)
        ensures
            r.0 == 0 && r.1 == 0,
    {
        Pos::new(0, 0)
    }

    /// Unit length on both axes of the 2D grid.
    pub fn one() -> (r: Self)
        ensures
            r.0 == 1 && r.1 == 1,
    {
        Pos::new(1, 1)
    }

    /// Constructor for diagonal vectors: both components equal to `scale`.
    pub fn sized(scale: isize) -> (r: Self)
        ensures
            r.0 == scale && r.1 == scale,
    {
        Pos::new(scale, scale)
    }

    /// Scale the vector by an integer factor, component-wise.
    pub fn scale(self, factor: isize) -> (r: Self)
        requires
            isize::MIN <= self.0 * factor <= isize::MAX,
            isize::MIN <= self.1 * factor <= isize::MAX,
        ensures
            r.0 == self.0 * factor && r.1 == self.1 * factor,
    {
        let x = self.0 * factor;
        let y = self.1 * factor;
        Pos::new(x, y)
    }

    /// Accessor of the x-coordinate.
    pub fn x(self) -> (r: isize)
        ensures
            r == self.0,
    {
        self.0
    }

    /// Accessor of the y-coordinate.
    pub fn y(self) -> (r: isize)
        ensures
            r == self.1,
    {
        self.1
    }

    /// Decompose the position into its x-part and y-part as a tuple.
    pub fn decompose(self) -> (r: (isize, isize))
        ensures
            r.0 == self.0 && r.1 == self.1,
    {
        (self.0, self.1)
    }

    /// Component-wise vector addition.
    pub fn add(self, rhs: Self) -> (r: Self)
        requires
            isize::MIN <= self.0 + rhs.0 <= isize::MAX,
            isize::MIN <= self.1 + rhs.1 <= isize::MAX,
        ensures
            r.0 == self.0 + rhs.0 && r.1 == self.1 + rhs.1,
    {
        Pos::new(self.0 + rhs.0, self.1 + rhs.1)
    }

    /// Component-wise vector subtraction.
    pub fn sub(self, rhs: Self) -> (r: Self)
        requires
            isize::MIN <= self.0 - rhs.0 <= isize::MAX,
            isize::MIN <= self.1 - rhs.1 <= isize::MAX,
        ensures
            r.0 == self.0 - rhs.0 && r.1 == self.1 - rhs.1,
    {
        Pos::new(self.0 - rhs.0, self.1 - rhs.1)
    }

    /// Component-wise multiplication (used for scaling).
    pub fn mul(self, rhs: Self) -> (r: Self)
        requires
            isize::MIN <= self.0 * rhs.0 <= isize::MAX,
            isize::MIN <= self.1 * rhs.1 <= isize::MAX,
        ensures
            r.0 == self.0 * rhs.0 && r.1 == self.1 * rhs.1,
    {
        Pos::new(self.0 * rhs.0, self.1 * rhs.1)
    }
}

} // verus!
