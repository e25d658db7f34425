//! Axis-aligned bounding boxes with union, containment and a signed
//! point-to-surface distance.
//!
//! The signed distance of a point to a box is the Euclidean distance to the
//! nearest box surface when the point is outside, and the negated distance to
//! the nearest face when the point is inside (boundary included).  It is used
//! purely as a monotone pruning bound, so the crate never takes a square
//! root: an outside distance is carried as its exact square ([`Dist::Outside`])
//! and an inside distance as the exact face distance ([`Dist::Inside`]), and
//! every comparison the algorithms need is decided exactly on those integers.

use vstd::prelude::*;

use crate::vec3::{Vec3, COORD_LIMIT};

verus! {

/// How far a coordinate `c` lies outside the interval `[lo, hi]` on one axis
/// (zero when it is inside).
pub open spec fn axis_excess(lo: int, hi: int, c: int) -> int {
    if c < lo {
        lo - c
    } else if c > hi {
        c - hi
    } else {
        0
    }
}

pub open spec fn min_int(a: int, b: int) -> int {
    if a <= b {
        a
    } else {
        b
    }
}

/// An axis-aligned bounding box.  Well-formed boxes ([`AABB::wf`]) keep
/// `min <= max` on every axis and all coordinates in range; operations are
/// pure and return new boxes.
#[derive(Debug, Clone, Copy, PartialEq, Eq, Structural)]
pub struct AABB {
    pub min: Vec3,
    pub max: Vec3,
}

/// The signed distance from a point to the surface of a box, carried exactly.
///
/// `Inside { face }` stands for the signed distance `-face`, where `face` is
/// the distance from the (contained) point to the nearest of the six faces.
/// `Outside { sq }` stands for the signed distance `sqrt(sq)`, where `sq` is
/// the squared Euclidean distance from the point to the nearest surface
/// point.  With integer coordinates an outside point always has `sq >= 1`,
/// so the ordering of two signed distances is decided exactly by
/// [`Dist::le`] without ever computing a root.
#[derive(Debug, Clone, Copy, PartialEq, Eq, Structural)]
pub enum Dist {
    Inside { face: i64 },
    Outside { sq: i64 },
}

impl Dist {
    /// The real signed distance this value stands for is less than or equal
    /// to the one `other` stands for.
    pub open spec fn le_s(self, other: Dist) -> bool {
        match (self, other) {
            (Dist::Inside { face: f1 }, Dist::Inside { face: f2 }) => f1 >= f2,
            (Dist::Inside { .. }, Dist::Outside { .. }) => true,
            (Dist::Outside { .. }, Dist::Inside { .. }) => false,
            (Dist::Outside { sq: s1 }, Dist::Outside { sq: s2 }) => s1 <= s2,
        }
    }

    pub fn le(&self, other: &Dist) -> (r: bool)
        ensures
            r == self.le_s(*other),
    {
        match (self, other) {
            (Dist::Inside { face: f1 }, Dist::Inside { face: f2 }) => *f1 >= *f2,
            (Dist::Inside { .. }, Dist::Outside { .. }) => true,
            (Dist::Outside { .. }, Dist::Inside { .. }) => false,
            (Dist::Outside { sq: s1 }, Dist::Outside { sq: s2 }) => *s1 <= *s2,
        }
    }

    /// Strictly less: the signed distance is strictly below `other`'s.
    pub fn lt(&self, other: &Dist) -> (r: bool)
        ensures
            r == !other.le_s(*self),
    {
        !other.le(self)
    }

    /// The signed distance is at most the (non-negative) radius `r`: an
    /// inside point always qualifies, an outside one qualifies when the
    /// squared distance is at most `r^2`.
    pub fn le_radius(&self, r: i64) -> (b: bool)
        requires
            0 <= r <= COORD_LIMIT,
        ensures
            b == match *self {
                Dist::Inside { .. } => true,
                Dist::Outside { sq } => sq <= r * r,
            },
    {
        match self {
            Dist::Inside { .. } => true,
            Dist::Outside { sq } => {
                proof {
                    lemma_sq_mono(r as int, COORD_LIMIT as int);
                }
                *sq <= r * r
            },
        }
    }
}

/// The square of a value of magnitude at most `l` lies in `[0, l*l]`.
pub proof fn lemma_abs_sq_bound(a: int, l: int)
    requires
        -l <= a <= l,
    ensures
        0 <= a * a <= l * l,
{
    assert(0 <= a * a <= l * l) by (nonlinear_arith)
        requires
            -l <= a <= l,
    ;
}

/// Squaring is monotone on non-negatives.
pub proof fn lemma_sq_mono(a: int, b: int)
    requires
        0 <= a <= b,
    ensures
        a * a <= b * b,
{
    assert(a * a <= b * b) by (nonlinear_arith)
        requires
            0 <= a <= b,
    ;
}

impl AABB {
    /// Coordinates in range and `min <= max` on every axis.
    pub open spec fn wf(self) -> bool {
        &&& self.min.in_range()
        &&& self.max.in_range()
        &&& self.min.x <= self.max.x
        &&& self.min.y <= self.max.y
        &&& self.min.z <= self.max.z
    }

    /// The point lies within `[min, max]` on all three axes, boundary
    /// included.
    pub open spec fn contains_s(self, p: Vec3) -> bool {
        &&& self.min.x <= p.x <= self.max.x
        &&& self.min.y <= p.y <= self.max.y
        &&& self.min.z <= p.z <= self.max.z
    }

    /// Squared Euclidean distance from the point to the nearest surface
    /// point of the box; zero exactly when the box contains the point.
    pub open spec fn sq_dist_s(self, p: Vec3) -> int {
        let ex = axis_excess(self.min.x as int, self.max.x as int, p.x as int);
        let ey = axis_excess(self.min.y as int, self.max.y as int, p.y as int);
        let ez = axis_excess(self.min.z as int, self.max.z as int, p.z as int);
        ex * ex + ey * ey + ez * ez
    }

    /// Distance from a contained point to the nearest of the six faces.
    pub open spec fn face_dist_s(self, p: Vec3) -> int {
        min_int(
            min_int(
                min_int(p.x - self.min.x, self.max.x - p.x),
                min_int(p.y - self.min.y, self.max.y - p.y),
            ),
            min_int(p.z - self.min.z, self.max.z - p.z),
        )
    }

    /// Element-wise union: min of mins, max of maxes.
    pub open spec fn outer_s(a: AABB, b: AABB) -> AABB {
        AABB {
            min: Vec3 {
                x: if a.min.x <= b.min.x { a.min.x } else { b.min.x },
                y: if a.min.y <= b.min.y { a.min.y } else { b.min.y },
                z: if a.min.z <= b.min.z { a.min.z } else { b.min.z },
            },
            max: Vec3 {
                x: if a.max.x >= b.max.x { a.max.x } else { b.max.x },
                y: if a.max.y >= b.max.y { a.max.y } else { b.max.y },
                z: if a.max.z >= b.max.z { a.max.z } else { b.max.z },
            },
        }
    }

    /// `self` lies within `big` on every axis.
    pub open spec fn subset_s(self, big: AABB) -> bool {
        &&& big.min.x <= self.min.x && self.max.x <= big.max.x
        &&& big.min.y <= self.min.y && self.max.y <= big.max.y
        &&& big.min.z <= self.min.z && self.max.z <= big.max.z
    }

    /// The signed distance from the point to `self` is at most the signed
    /// distance to `other`.  Inside beats outside; two inside distances
    /// compare by the farther face (a deeper point is more negative); two
    /// outside distances compare by their squares.
    pub open spec fn dist_le_s(self, other: AABB, p: Vec3) -> bool {
        if self.contains_s(p) {
            !other.contains_s(p) || self.face_dist_s(p) >= other.face_dist_s(p)
        } else {
            !other.contains_s(p) && self.sq_dist_s(p) <= other.sq_dist_s(p)
        }
    }

    /// Strictly closer (in signed distance) to the point than `other`.
    pub open spec fn dist_lt_s(self, other: AABB, p: Vec3) -> bool {
        !other.dist_le_s(self, p)
    }

    /// The signed distance from the point to the box is at most `r`: the box
    /// contains the point, or the squared outside distance is at most `r^2`.
    pub open spec fn within_s(self, p: Vec3, r: int) -> bool {
        self.contains_s(p) || self.sq_dist_s(p) <= r * r
    }

    pub fn new(min: Vec3, max: Vec3) -> (r: AABB)
        requires
            min.in_range(),
            max.in_range(),
            min.x <= max.x,
            min.y <= max.y,
            min.z <= max.z,
        ensures
            r == (AABB { min, max }),
            r.wf(),
    {
        AABB { min, max }
    }

    pub fn outer(a: &AABB, b: &AABB) -> (r: AABB)
        ensures
            r == AABB::outer_s(*a, *b),
            a.wf() && b.wf() ==> r.wf(),
    {
        AABB {
            min: Vec3 {
                x: if a.min.x <= b.min.x { a.min.x } else { b.min.x },
                y: if a.min.y <= b.min.y { a.min.y } else { b.min.y },
                z: if a.min.z <= b.min.z { a.min.z } else { b.min.z },
            },
            max: Vec3 {
                x: if a.max.x >= b.max.x { a.max.x } else { b.max.x },
                y: if a.max.y >= b.max.y { a.max.y } else { b.max.y },
                z: if a.max.z >= b.max.z { a.max.z } else { b.max.z },
            },
        }
    }

    pub fn contains(&self, point: &Vec3) -> (r: bool)
        ensures
            r == self.contains_s(*point),
    {
        self.min.x <= point.x && point.x <= self.max.x && self.min.y <= point.y && point.y
            <= self.max.y && self.min.z <= point.z && point.z <= self.max.z
    }

    /// The signed distance from the point to the box surface, exactly:
    /// negative (as `Inside`) when the box contains the point, positive (as
    /// `Outside`, squared) otherwise.
    pub fn distance(&self, point: &Vec3) -> (r: Dist)
        requires
            self.wf(),
            point.in_range(),
        ensures
            match r {
                Dist::Inside { face } => self.contains_s(*point) && face == self.face_dist_s(
                    *point,
                ),
                Dist::Outside { sq } => !self.contains_s(*point) && sq == self.sq_dist_s(*point),
            },
    {
        if self.contains(point) {
            let dx = imin(point.x - self.min.x, self.max.x - point.x);
            let dy = imin(point.y - self.min.y, self.max.y - point.y);
            let dz = imin(point.z - self.min.z, self.max.z - point.z);
            Dist::Inside { face: imin(imin(dx, dy), dz) }
        } else {
            let ex = axis_excess_e(self.min.x, self.max.x, point.x);
            let ey = axis_excess_e(self.min.y, self.max.y, point.y);
            let ez = axis_excess_e(self.min.z, self.max.z, point.z);
            proof {
                lemma_sq_mono(ex as int, 2 * COORD_LIMIT as int);
                lemma_sq_mono(ey as int, 2 * COORD_LIMIT as int);
                lemma_sq_mono(ez as int, 2 * COORD_LIMIT as int);
            }
            Dist::Outside { sq: ex * ex + ey * ey + ez * ez }
        }
    }

    /// The same box shifted by `translation` on every axis.
    pub fn translated(&self, translation: &Vec3) -> (r: AABB)
        requires
            self.wf(),
            (self.min.x + translation.x) <= COORD_LIMIT && -COORD_LIMIT <= (self.min.x
                + translation.x),
            (self.min.y + translation.y) <= COORD_LIMIT && -COORD_LIMIT <= (self.min.y
                + translation.y),
            (self.min.z + translation.z) <= COORD_LIMIT && -COORD_LIMIT <= (self.min.z
                + translation.z),
            (self.max.x + translation.x) <= COORD_LIMIT && -COORD_LIMIT <= (self.max.x
                + translation.x),
            (self.max.y + translation.y) <= COORD_LIMIT && -COORD_LIMIT <= (self.max.y
                + translation.y),
            (self.max.z + translation.z) <= COORD_LIMIT && -COORD_LIMIT <= (self.max.z
                + translation.z),
        ensures
            r.min.x == self.min.x + translation.x,
            r.min.y == self.min.y + translation.y,
            r.min.z == self.min.z + translation.z,
            r.max.x == self.max.x + translation.x,
            r.max.y == self.max.y + translation.y,
            r.max.z == self.max.z + translation.z,
            r.wf(),
    {
        AABB {
            min: Vec3 {
                x: self.min.x + translation.x,
                y: self.min.y + translation.y,
                z: self.min.z + translation.z,
            },
            max: Vec3 {
                x: self.max.x + translation.x,
                y: self.max.y + translation.y,
                z: self.max.z + translation.z,
            },
        }
    }
}

fn imin(a: i64, b: i64) -> (r: i64)
    ensures
        r == min_int(a as int, b as int),
{
    if a <= b {
        a
    } else {
        b
    }
}

/// Exact per-axis excess, bounded so its square fits in `i64`.
fn axis_excess_e(lo: i64, hi: i64, c: i64) -> (r: i64)
    requires
        -COORD_LIMIT <= lo <= COORD_LIMIT,
        -COORD_LIMIT <= hi <= COORD_LIMIT,
        -COORD_LIMIT <= c <= COORD_LIMIT,
    ensures
        r == axis_excess(lo as int, hi as int, c as int),
        0 <= r <= 2 * COORD_LIMIT,
{
    if c < lo {
        lo - c
    } else if c > hi {
        c - hi
    } else {
        0
    }
}

/// The union of two boxes does not depend on their order.
pub proof fn lemma_outer_commutative(a: AABB, b: AABB)
    ensures
        AABB::outer_s(a, b) == AABB::outer_s(b, a),
{
}

/// The union of a box with itself is that box.
pub proof fn lemma_outer_idempotent(a: AABB)
    ensures
        AABB::outer_s(a, a) == a,
{
}

/// Union is associative.
pub proof fn lemma_outer_associative(a: AABB, b: AABB, c: AABB)
    ensures
        AABB::outer_s(AABB::outer_s(a, b), c) == AABB::outer_s(a, AABB::outer_s(b, c)),
{
}

/// Both boxes lie within their union.
pub proof fn lemma_outer_covers(a: AABB, b: AABB)
    ensures
        a.subset_s(AABB::outer_s(a, b)),
        b.subset_s(AABB::outer_s(a, b)),
{
}

/// Containment is consistent with the signed distance: a box contains a
/// point exactly when the squared outside distance is zero, that is, exactly
/// when the signed distance is not positive (`within_s` at radius zero).
pub proof fn lemma_contains_iff_sq_dist_zero(b: AABB, p: Vec3)
    ensures
        b.contains_s(p) <==> b.sq_dist_s(p) == 0,
        b.contains_s(p) <==> b.within_s(p, 0),
{
    let ex = axis_excess(b.min.x as int, b.max.x as int, p.x as int);
    let ey = axis_excess(b.min.y as int, b.max.y as int, p.y as int);
    let ez = axis_excess(b.min.z as int, b.max.z as int, p.z as int);
    assert(b.sq_dist_s(p) == ex * ex + ey * ey + ez * ez);
    assert(ex >= 0 && ey >= 0 && ez >= 0);
    lemma_sq_nonneg(ex);
    lemma_sq_nonneg(ey);
    lemma_sq_nonneg(ez);
    if b.contains_s(p) {
        assert(ex == 0 && ey == 0 && ez == 0);
        assert(ex * ex == 0 && ey * ey == 0 && ez * ez == 0) by (nonlinear_arith)
            requires
                ex == 0 && ey == 0 && ez == 0,
        ;
    } else {
        assert(ex >= 1 || ey >= 1 || ez >= 1);
        if ex >= 1 {
            lemma_sq_mono(1, ex);
        } else if ey >= 1 {
            lemma_sq_mono(1, ey);
        } else {
            lemma_sq_mono(1, ez);
        }
        assert(ex * ex >= 1 || ey * ey >= 1 || ez * ez >= 1);
        assert(b.sq_dist_s(p) >= 1);
    }
}

proof fn lemma_sq_nonneg(a: int)
    ensures
        a * a >= 0,
{
    assert(a * a >= 0) by (nonlinear_arith);
}

/// A smaller box is never closer to a point than a box that encloses it:
/// the signed distance to the enclosing box is at most the signed distance
/// to the enclosed one.
pub proof fn lemma_dist_mono(small: AABB, big: AABB, p: Vec3)
    requires
        small.wf(),
        small.subset_s(big),
    ensures
        big.dist_le_s(small, p),
{
    if small.contains_s(p) {
        assert(big.contains_s(p));
    }
    if big.contains_s(p) {
        if small.contains_s(p) {
            assert(big.face_dist_s(p) >= small.face_dist_s(p));
        }
    } else {
        assert(!small.contains_s(p));
        let exs = axis_excess(small.min.x as int, small.max.x as int, p.x as int);
        let eys = axis_excess(small.min.y as int, small.max.y as int, p.y as int);
        let ezs = axis_excess(small.min.z as int, small.max.z as int, p.z as int);
        let exb = axis_excess(big.min.x as int, big.max.x as int, p.x as int);
        let eyb = axis_excess(big.min.y as int, big.max.y as int, p.y as int);
        let ezb = axis_excess(big.min.z as int, big.max.z as int, p.z as int);
        lemma_excess_mono(small.min.x as int, small.max.x as int, big.min.x as int, big.max.x as int, p.x as int);
        lemma_excess_mono(small.min.y as int, small.max.y as int, big.min.y as int, big.max.y as int, p.y as int);
        lemma_excess_mono(small.min.z as int, small.max.z as int, big.min.z as int, big.max.z as int, p.z as int);
        lemma_sq_mono(exb, exs);
        lemma_sq_mono(eyb, eys);
        lemma_sq_mono(ezb, ezs);
    }
}

/// Widening an interval can only shrink the excess of a coordinate.
proof fn lemma_excess_mono(lo1: int, hi1: int, lo2: int, hi2: int, c: int)
    requires
        lo1 <= hi1,
        lo2 <= lo1,
        hi1 <= hi2,
    ensures
        0 <= axis_excess(lo2, hi2, c) <= axis_excess(lo1, hi1, c),
{
}

/// A point within distance `r` of a box is within distance `r` of any box
/// that encloses it.
pub proof fn lemma_within_mono(small: AABB, big: AABB, p: Vec3, r: int)
    requires
        small.wf(),
        small.subset_s(big),
        small.within_s(p, r),
    ensures
        big.within_s(p, r),
{
    lemma_dist_mono(small, big, p);
}

/// Signed-distance comparison is total: of any two boxes, one is at least as
/// close to the point as the other.
pub proof fn lemma_dist_le_total(a: AABB, b: AABB, p: Vec3)
    ensures
        a.dist_le_s(b, p) || b.dist_le_s(a, p),
{
}

/// Signed-distance comparison is transitive.
pub proof fn lemma_dist_le_trans(a: AABB, b: AABB, c: AABB, p: Vec3)
    requires
        a.dist_le_s(b, p),
        b.dist_le_s(c, p),
    ensures
        a.dist_le_s(c, p),
{
}

/// Signed-distance comparison is reflexive.
pub proof fn lemma_dist_le_refl(a: AABB, p: Vec3)
    ensures
        a.dist_le_s(a, p),
{
}

/// Strictly closer than `b`, which is at least as close as `c`: strictly
/// closer than `c`.
pub proof fn lemma_dist_lt_le_trans(a: AABB, b: AABB, c: AABB, p: Vec3)
    requires
        a.dist_lt_s(b, p),
        b.dist_le_s(c, p),
    ensures
        a.dist_lt_s(c, p),
{
    if !a.dist_lt_s(c, p) {
        lemma_dist_le_trans(b, c, a, p);
        assert(false);
    }
}

/// The exec-level [`Dist`] comparison agrees with the spec-level box
/// comparison, given each `Dist` describes its box's distance to the point.
pub proof fn lemma_dist_value_agrees(a: AABB, b: AABB, da: Dist, db: Dist, p: Vec3)
    requires
        match da {
            Dist::Inside { face } => a.contains_s(p) && face == a.face_dist_s(p),
            Dist::Outside { sq } => !a.contains_s(p) && sq == a.sq_dist_s(p),
        },
        match db {
            Dist::Inside { face } => b.contains_s(p) && face == b.face_dist_s(p),
            Dist::Outside { sq } => !b.contains_s(p) && sq == b.sq_dist_s(p),
        },
    ensures
        da.le_s(db) == a.dist_le_s(b, p),
{
}

} // verus!
