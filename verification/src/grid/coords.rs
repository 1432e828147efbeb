//! Lane coordinates for the triangular grid.
//!
//! `TriCoord { a, b, c }` is the three-lane scheme: each axis counts steps across one of the
//! three families of parallel grid lines, and `a + b + c` is 1 for an upward-pointing
//! triangle or 2 for a downward-pointing one.

use vstd::prelude::*;

verus! {

/// A single triangular tile's grid coordinate. `a + b + c` is always 1 (upward) or 2
/// (downward) for a tile built through [`TriCoord::new`].
#[derive(Debug, Clone, Copy, PartialEq, Eq, Hash, PartialOrd, Ord, Structural)]
pub struct TriCoord {
    pub a: i32,
    pub b: i32,
    pub c: i32,
}

impl TriCoord {
    /// The lane sum `a + b + c`, as a mathematical integer.
    pub open spec fn lane_sum(self) -> int {
        self.a + self.b + self.c
    }

    /// Whether computing `a + b + c` left to right stays within `i32`.
    pub open spec fn sum_fits(self) -> bool {
        &&& i32::MIN <= self.a + self.b <= i32::MAX
        &&& i32::MIN <= self.a + self.b + self.c <= i32::MAX
    }

    /// A real tile: its lane sum is 1 (upward) or 2 (downward).
    pub open spec fn is_valid(self) -> bool {
        self.lane_sum() == 1 || self.lane_sum() == 2
    }

    pub open spec fn spec_is_upward(self) -> bool {
        self.lane_sum() == 1
    }

    pub open spec fn spec_is_downward(self) -> bool {
        self.lane_sum() == 2
    }

    /// Builds a coordinate; the lane sum must be 1 or 2.
    pub fn new(a: i32, b: i32, c: i32) -> (coord: Self)
        requires
            i32::MIN <= a + b <= i32::MAX,
            a + b + c == 1 || a + b + c == 2,
        ensures
            coord == (TriCoord { a, b, c }),
            coord.is_valid(),
            coord.sum_fits(),
    {
        TriCoord { a, b, c }
    }

    /// `a + b + c`.
    pub fn sum(&self) -> (s: i32)
        requires
            self.sum_fits(),
        ensures
            s == self.lane_sum(),
    {
        self.a + self.b + self.c
    }

    /// Whether this triangle points up (`a + b + c == 1`).
    pub fn is_upward(&self) -> (up: bool)
        requires
            self.sum_fits(),
        ensures
            up == self.spec_is_upward(),
    {
        self.sum() == 1
    }

    /// Whether this triangle points down (`a + b + c == 2`).
    pub fn is_downward(&self) -> (down: bool)
        requires
            self.sum_fits(),
        ensures
            down == self.spec_is_downward(),
    {
        self.sum() == 2
    }
}

/// Strict lexicographic order on `(a, b, c)`, the order that `derive(Ord)` gives
/// [`TriCoord`].
pub open spec fn lex_lt(x: TriCoord, y: TriCoord) -> bool {
    ||| x.a < y.a
    ||| (x.a == y.a && x.b < y.b)
    ||| (x.a == y.a && x.b == y.b && x.c < y.c)
}

/// Whether `x` comes strictly before `y` in lexicographic `(a, b, c)` order.
pub fn coord_lt(x: &TriCoord, y: &TriCoord) -> (lt: bool)
    ensures
        lt == lex_lt(*x, *y),
{
    x.a < y.a || (x.a == y.a && (x.b < y.b || (x.b == y.b && x.c < y.c)))
}

} // verus!
