//! World-space geometry: points, entity dimensions, and the arithmetic that
//! turns a world coordinate into a cell index.
//!
//! A coordinate is normalized against the world bounds, saturated to the
//! closed interval from 0 to 1 (points outside the bounds land on the nearest
//! edge), scaled by one less than the axis resolution and rounded down.  The
//! same computation is carried out here on integer coordinates with exact
//! integer arithmetic.

use vstd::arithmetic::div_mod::{lemma_div_is_ordered, lemma_div_pos_is_pos, lemma_multiply_divide_lt};
use vstd::arithmetic::mul::lemma_mul_inequality;
use vstd::prelude::*;

verus! {

/// A point of the world's coordinate plane.
#[derive(Clone, Copy, PartialEq, Eq, Structural, Debug)]
pub struct Point {
    pub x: i64,
    pub y: i64,
}

impl Point {
    pub fn new(x: i64, y: i64) -> (p: Point)
        ensures
            p == (Point { x, y }),
    {
        Point { x, y }
    }
}

/// The dimension of an entity, aka how big it is in the world.
#[derive(Clone, Copy, PartialEq, Eq, Structural, Debug)]
pub struct Dimension {
    pub width: i64,
    pub height: i64,
}

impl Dimension {
    /// A meaningful dimension is not negative on either axis.
    pub open spec fn valid(self) -> bool {
        0 <= self.width && 0 <= self.height
    }
}

/// The spatial properties of an entity: where its bounding box is centered
/// and how far it extends.
#[derive(Clone, Copy, PartialEq, Eq, Structural, Debug)]
pub struct Spatial {
    pub coordinates: Point,
    pub dimension: Dimension,
}

impl Spatial {
    /// The lowest x coordinate of the bounding box: the center minus half
    /// the width, halves rounded down.
    pub open spec fn min_x(self) -> int {
        self.coordinates.x - self.dimension.width / 2
    }

    /// The highest x coordinate of the bounding box.
    pub open spec fn max_x(self) -> int {
        self.coordinates.x + self.dimension.width / 2
    }

    /// The lowest y coordinate of the bounding box.
    pub open spec fn min_y(self) -> int {
        self.coordinates.y - self.dimension.height / 2
    }

    /// The highest y coordinate of the bounding box.
    pub open spec fn max_y(self) -> int {
        self.coordinates.y + self.dimension.height / 2
    }
}

/// The index of the cell that coordinate `p` falls into on one axis, where
/// the world spans `lo` (inclusive) to `hi` on that axis and the axis is cut
/// into `n` cells.  The coordinate is normalized to the interval from 0 to 1,
/// saturated, scaled by `n - 1` and rounded down, so every coordinate lands
/// on an index between 0 and `n - 1`.
pub open spec fn cell_axis_spec(p: int, lo: int, hi: int, n: int) -> int {
    if p <= lo {
        0
    } else if p >= hi {
        n - 1
    } else {
        ((p - lo) * (n - 1)) / (hi - lo)
    }
}

/// The cell index of every coordinate is in range: at least 0 and less
/// than the axis resolution `n`.
pub proof fn lemma_cell_axis_in_range(p: int, lo: int, hi: int, n: int)
    requires
        lo < hi,
        1 <= n,
    ensures
        0 <= cell_axis_spec(p, lo, hi, n) < n,
{
    if lo < p < hi {
        let num = (p - lo) * (n - 1);
        let den = hi - lo;
        assert(0 <= num) by {
            lemma_mul_inequality(0, p - lo, n - 1);
        }
        assert(0 <= num / den) by {
            lemma_div_pos_is_pos(num, den);
        }
        assert(num < den * n) by {
            lemma_mul_inequality(p - lo, den, n - 1);
            assert(den * (n - 1) < den * n) by (nonlinear_arith)
                requires 0 < den;
        }
        assert(num / den < n) by {
            lemma_multiply_divide_lt(num, den, n);
        }
    }
}

/// The cell index never decreases as the coordinate grows: the grid's cells
/// tile the axis in order.
pub proof fn lemma_cell_axis_monotone(p1: int, p2: int, lo: int, hi: int, n: int)
    requires
        lo < hi,
        1 <= n,
        p1 <= p2,
    ensures
        cell_axis_spec(p1, lo, hi, n) <= cell_axis_spec(p2, lo, hi, n),
{
    lemma_cell_axis_in_range(p1, lo, hi, n);
    lemma_cell_axis_in_range(p2, lo, hi, n);
    if lo < p1 && p2 < hi {
        assert((p1 - lo) * (n - 1) <= (p2 - lo) * (n - 1)) by {
            lemma_mul_inequality(p1 - lo, p2 - lo, n - 1);
        }
        lemma_div_is_ordered((p1 - lo) * (n - 1), (p2 - lo) * (n - 1), hi - lo);
    }
}

/// Computes `cell_axis_spec` exactly.  The coordinate is an `i128` because a
/// bounding-box corner (a center plus or minus half an extent) can leave the
/// `i64` range.
pub fn cell_axis(p: i128, lo: i64, hi: i64, n: usize) -> (idx: usize)
    requires
        -0x1_0000_0000_0000_0000 <= p <= 0x1_0000_0000_0000_0000,
        lo < hi,
        1 <= n <= 0x1_0000_0000,
    ensures
        idx == cell_axis_spec(p as int, lo as int, hi as int, n as int),
        idx < n,
{
    proof {
        lemma_cell_axis_in_range(p as int, lo as int, hi as int, n as int);
    }
    if p <= lo as i128 {
        0
    } else if p >= hi as i128 {
        n - 1
    } else {
        let diff: u128 = (p - lo as i128) as u128;
        let scale: u128 = (n - 1) as u128;
        proof {
            assert(diff * scale < 0x2_0000_0000_0000_0000_0000_0000) by (nonlinear_arith)
                requires
                    0 <= diff < 0x2_0000_0000_0000_0000,
                    0 <= scale <= 0x1_0000_0000;
        }
        let num: u128 = diff * scale;
        let den: u128 = (hi as i128 - lo as i128) as u128;
        let q: u128 = num / den;
        proof {
            lemma_cell_axis_in_range(p as int, lo as int, hi as int, n as int);
        }
        q as usize
    }
}

} // verus!
