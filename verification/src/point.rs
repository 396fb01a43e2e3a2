//! 2D points with fixed-point coordinates and the 2D cross product.

use vstd::prelude::*;

verus! {

/// Number of fixed-point steps per coordinate unit: coordinates are stored
/// in millionths, so a coordinate of `2` units is held as `2_000_000`.
pub const COORD_SCALE: i64 = 1_000_000;

/// Largest magnitude a stored coordinate may have (one billion units).
/// Keeping coordinates within this bound lets the cross product be computed
/// in `i128` without overflow.
pub const MAX_COORD: i64 = 1_000_000_000_000_000;

/// A 2D point.  The coordinates are fixed-point values in millionths of a
/// unit; a point is immutable once constructed.
#[derive(Clone, Copy, Debug, PartialEq, Eq, Structural)]
pub struct Point {
    pub x: i64,
    pub y: i64,
}

impl Point {
    /// Both coordinates are small enough that edge cross products fit in
    /// `i128`.
    pub open spec fn wf(self) -> bool {
        &&& -MAX_COORD <= self.x <= MAX_COORD
        &&& -MAX_COORD <= self.y <= MAX_COORD
    }

    /// Builds a point from coordinates given in millionths of a unit.
    pub fn new(x: i64, y: i64) -> (r: Point)
        requires
            -MAX_COORD <= x <= MAX_COORD,
            -MAX_COORD <= y <= MAX_COORD,
        ensures
            r.x == x,
            r.y == y,
            r.wf(),
    {
        Point { x, y }
    }

    /// Runtime check for [`Point::wf`], for callers outside verified code.
    pub fn is_well_formed(&self) -> (r: bool)
        ensures
            r == self.wf(),
    {
        -MAX_COORD <= self.x && self.x <= MAX_COORD && -MAX_COORD <= self.y && self.y
            <= MAX_COORD
    }
}

/// 2D cross product of the vectors `p1 -> p2` and `p1 -> q`.  Its sign says
/// on which side of the directed line through `p1` and `p2` the point `q`
/// lies; it is zero exactly when the three points are collinear.
pub open spec fn spec_cross(p1: Point, p2: Point, q: Point) -> int {
    (p2.x - p1.x) * (q.y - p1.y) - (p2.y - p1.y) * (q.x - p1.x)
}

/// The product of two values bounded by `m` is bounded by `m * m`.
proof fn lemma_mul_bound(a: int, b: int, m: int)
    requires
        -m <= a <= m,
        -m <= b <= m,
        0 <= m,
    ensures
        -(m * m) <= a * b <= m * m,
{
    assert(-(m * m) <= a * b <= m * m) by (nonlinear_arith)
        requires
            -m <= a <= m,
            -m <= b <= m,
            0 <= m,
    ;
}

/// Computes [`spec_cross`] exactly.
pub fn cross_product(p1: Point, p2: Point, q: Point) -> (r: i128)
    requires
        p1.wf(),
        p2.wf(),
        q.wf(),
    ensures
        r == spec_cross(p1, p2, q),
{
    let v1x = p2.x as i128 - p1.x as i128;
    let v1y = p2.y as i128 - p1.y as i128;
    let v2x = q.x as i128 - p1.x as i128;
    let v2y = q.y as i128 - p1.y as i128;
    proof {
        lemma_mul_bound(v1x as int, v2y as int, 2 * MAX_COORD as int);
        lemma_mul_bound(v1y as int, v2x as int, 2 * MAX_COORD as int);
    }
    v1x * v2y - v1y * v2x
}

/// Swapping the two line points negates the cross product.
pub proof fn lemma_cross_antisymmetric(a: Point, b: Point, q: Point)
    ensures
        spec_cross(a, b, q) == -spec_cross(b, a, q),
{
    let ax = a.x as int;
    let ay = a.y as int;
    let bx = b.x as int;
    let by_ = b.y as int;
    let qx = q.x as int;
    let qy = q.y as int;
    assert((bx - ax) * (qy - ay) - (by_ - ay) * (qx - ax) == -((ax - bx) * (qy - by_) - (ay - by_)
        * (qx - bx))) by (nonlinear_arith);
}

} // verus!
