//! Fixed-point three-component vectors.

use vstd::prelude::*;

verus! {

/// Largest magnitude a coordinate may have (2^29).  Keeping every coordinate
/// inside this bound makes all the arithmetic of the crate fit in `i64`:
/// a per-axis difference stays below 2^30, its square below 2^60, and a sum
/// of three squares below 2^62.
pub const COORD_LIMIT: i64 = 536870912;

/// A point or direction, in fixed-point integer coordinates.
#[derive(Debug, Clone, Copy, PartialEq, Eq, Structural)]
pub struct Vec3 {
    pub x: i64,
    pub y: i64,
    pub z: i64,
}

impl Vec3 {
    /// Every coordinate within `[-COORD_LIMIT, COORD_LIMIT]`.
    pub open spec fn in_range(self) -> bool {
        &&& -COORD_LIMIT <= self.x <= COORD_LIMIT
        &&& -COORD_LIMIT <= self.y <= COORD_LIMIT
        &&& -COORD_LIMIT <= self.z <= COORD_LIMIT
    }

    pub fn new(x: i64, y: i64, z: i64) -> (r: Vec3)
        ensures
            r == (Vec3 { x, y, z }),
    {
        Vec3 { x, y, z }
    }

    /// The vector with the same value on all three axes.
    pub fn splat(v: i64) -> (r: Vec3)
        ensures
            r == (Vec3 { x: v, y: v, z: v }),
    {
        Vec3 { x: v, y: v, z: v }
    }

    /// Every coordinate within twice `COORD_LIMIT`: the bound every
    /// position, heading and steering target satisfies, and under which
    /// the cross product stays exact in `i64`.
    pub open spec fn in_double_range(self) -> bool {
        &&& -2 * COORD_LIMIT <= self.x <= 2 * COORD_LIMIT
        &&& -2 * COORD_LIMIT <= self.y <= 2 * COORD_LIMIT
        &&& -2 * COORD_LIMIT <= self.z <= 2 * COORD_LIMIT
    }

    /// The cross product, exact in fixed point.  The flocking update's
    /// rotation axis is this product of an agent's forward vector with a
    /// steering target: its direction (in particular its sign on each
    /// axis) decides which way the agent turns, and it is zero exactly
    /// when the two vectors are parallel.
    pub fn cross(a: &Vec3, b: &Vec3) -> (r: Vec3)
        requires
            a.in_double_range(),
            b.in_double_range(),
        ensures
            r.x == a.y * b.z - a.z * b.y,
            r.y == a.z * b.x - a.x * b.z,
            r.z == a.x * b.y - a.y * b.x,
    {
        proof {
            lemma_mul_bound(a.y as int, b.z as int, 1073741824);
            lemma_mul_bound(a.z as int, b.y as int, 1073741824);
            lemma_mul_bound(a.z as int, b.x as int, 1073741824);
            lemma_mul_bound(a.x as int, b.z as int, 1073741824);
            lemma_mul_bound(a.x as int, b.y as int, 1073741824);
            lemma_mul_bound(a.y as int, b.x as int, 1073741824);
        }
        Vec3 {
            x: a.y * b.z - a.z * b.y,
            y: a.z * b.x - a.x * b.z,
            z: a.x * b.y - a.y * b.x,
        }
    }
}

/// A product of two values of magnitude at most `m` has magnitude at most
/// `m * m`.
proof fn lemma_mul_bound(x: int, y: int, m: int)
    requires
        -m <= x <= m,
        -m <= y <= m,
    ensures
        -(m * m) <= x * y <= m * m,
{
    assert(-(m * m) <= x * y <= m * m) by (nonlinear_arith)
        requires
            -m <= x <= m,
            -m <= y <= m,
    ;
}

} // verus!
