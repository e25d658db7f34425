//! The flocking update: the per-tick consumer of the hierarchy.
//!
//! Each tick the caller snapshots every agent's position and forward
//! (heading) vector, and [`update_boids`] computes, per agent, whether
//! steering applies and the three steering targets — average neighbor
//! heading (alignment), direction to the neighbor centroid (cohesion) and
//! direction to the closest neighbor (separation).  The caller then turns
//! each target into a rotation axis — the cross product of the agent's
//! current forward vector with the target, exact via
//! [`crate::vec3::Vec3::cross`] — applies the scaled incremental rotations
//! to the agent's orientation, and advances the agent along its forward
//! vector; those last steps live with the caller because the quaternion
//! composition is carried out on the caller's floating-point orientation
//! state.
//!
//! An agent is excluded from its own neighbor set by its index (a stable
//! identity), never by comparing transform values, so coincident agents are
//! still each other's neighbors.  An agent with fewer than two remaining
//! neighbors gets no steering for the tick.

use vstd::prelude::*;

use crate::aabb::AABB;
use crate::bvh::{build_leaves_s, in_radius_s, BVHNode};
use crate::vec3::{Vec3, COORD_LIMIT};

verus! {

/// Most agents one update may handle (2^30): together with the coordinate
/// bound this keeps every sum of the steering arithmetic inside `i64`.
pub const MAX_BOIDS: usize = 1073741824;

/// One agent's per-tick snapshot: its position and its forward vector, both
/// in fixed-point coordinates.
#[derive(Debug, Clone, Copy, PartialEq, Eq, Structural)]
pub struct Boid {
    pub position: Vec3,
    pub heading: Vec3,
}

/// The steering targets computed for one agent from its neighbor set.
///
/// `separation` is absent when no neighbor lies at a strictly positive
/// distance (coincident neighbors are excluded from the closest-neighbor
/// minimum, so the direction never degenerates).
#[derive(Debug, Clone, Copy, PartialEq)]
pub struct Steering {
    /// Average of the neighbors' heading vectors (truncated division).
    pub alignment: Vec3,
    /// From the agent's position toward the neighbors' centroid.
    pub cohesion: Vec3,
    /// From the agent's position toward the closest neighbor.
    pub separation: Option<Vec3>,
}

pub open spec fn v3(v: Vec3) -> (int, int, int) {
    (v.x as int, v.y as int, v.z as int)
}

pub open spec fn add3(a: (int, int, int), b: (int, int, int)) -> (int, int, int) {
    (a.0 + b.0, a.1 + b.1, a.2 + b.2)
}

pub open spec fn sub3(a: (int, int, int), b: (int, int, int)) -> (int, int, int) {
    (a.0 - b.0, a.1 - b.1, a.2 - b.2)
}

pub open spec fn sq3(a: (int, int, int)) -> int {
    a.0 * a.0 + a.1 * a.1 + a.2 * a.2
}

/// Division truncated toward zero, the semantics of the fixed-point
/// averages.
pub open spec fn div_trunc(a: int, n: int) -> int {
    if a >= 0 {
        a / n
    } else {
        -((-a) / n)
    }
}

pub open spec fn div3(a: (int, int, int), n: int) -> (int, int, int) {
    (div_trunc(a.0, n), div_trunc(a.1, n), div_trunc(a.2, n))
}

/// Sum of the heading vectors of the boids named by `ns`.
pub open spec fn sum_headings(boids: Seq<Boid>, ns: Seq<usize>) -> (int, int, int)
    decreases ns.len(),
{
    if ns.len() == 0 {
        (0, 0, 0)
    } else {
        add3(sum_headings(boids, ns.drop_last()), v3(boids[ns.last() as int].heading))
    }
}

/// Sum of the positions of the boids named by `ns`.
pub open spec fn sum_positions(boids: Seq<Boid>, ns: Seq<usize>) -> (int, int, int)
    decreases ns.len(),
{
    if ns.len() == 0 {
        (0, 0, 0)
    } else {
        add3(sum_positions(boids, ns.drop_last()), v3(boids[ns.last() as int].position))
    }
}

/// The closest-neighbor scan over `ns`, in encounter order: the squared
/// distance and offset of the neighbor with the smallest strictly positive
/// squared distance to boid `i`.  A later neighbor replaces the held one
/// only when strictly closer, so ties keep the earlier neighbor; exact
/// coincidence (distance zero) never qualifies.
pub open spec fn sep_scan(boids: Seq<Boid>, i: int, ns: Seq<usize>) -> Option<(int, (int, int, int))>
    decreases ns.len(),
{
    if ns.len() == 0 {
        Option::None
    } else {
        let prev = sep_scan(boids, i, ns.drop_last());
        let off = sub3(v3(boids[ns.last() as int].position), v3(boids[i].position));
        let d = sq3(off);
        match prev {
            Option::None => if d > 0 {
                Option::Some((d, off))
            } else {
                Option::None
            },
            Option::Some(held) => if d > 0 && d < held.0 {
                Option::Some((d, off))
            } else {
                prev
            },
        }
    }
}

/// Every boid's coordinates are in range.
pub open spec fn boids_ok(boids: Seq<Boid>) -> bool {
    forall|k: int|
        0 <= k < boids.len() ==> (#[trigger] boids[k]).position.in_range()
            && boids[k].heading.in_range()
}

/// What [`steering`] promises about its result: steering applies exactly
/// when at least two neighbors remain, and then the targets are the exact
/// fixed-point aggregates over the neighbor list `ns`.
pub open spec fn steer_ok(boids: Seq<Boid>, i: int, ns: Seq<usize>, st: Option<Steering>) -> bool {
    &&& (st.is_some() <==> ns.len() >= 2)
    &&& match st {
        Option::Some(s) => {
            let n = ns.len() as int;
            &&& v3(s.alignment) == div3(sum_headings(boids, ns), n)
            &&& v3(s.cohesion) == sub3(div3(sum_positions(boids, ns), n), v3(boids[i].position))
            &&& match (s.separation, sep_scan(boids, i, ns)) {
                (Option::Some(v), Option::Some(held)) => v3(v) == held.1,
                (Option::None, Option::None) => true,
                _ => false,
            }
        },
        Option::None => true,
    }
}

/// The fixed-size local box placed at a boid's position: the cube of
/// half-extent `half` centered there.
pub open spec fn boid_box_s(b: Boid, half: int) -> AABB {
    AABB {
        min: Vec3 {
            x: (b.position.x as int - half) as i64,
            y: (b.position.y as int - half) as i64,
            z: (b.position.z as int - half) as i64,
        },
        max: Vec3 {
            x: (b.position.x as int + half) as i64,
            y: (b.position.y as int + half) as i64,
            z: (b.position.z as int + half) as i64,
        },
    }
}

/// The boid's heading is in range and its position leaves room for the
/// local box of half-extent `half` on every axis.
pub open spec fn boid_in_world(b: Boid, half: int) -> bool {
    &&& b.heading.in_range()
    &&& -(COORD_LIMIT as int) + half <= b.position.x as int <= COORD_LIMIT as int - half
    &&& -(COORD_LIMIT as int) + half <= b.position.y as int <= COORD_LIMIT as int - half
    &&& -(COORD_LIMIT as int) + half <= b.position.z as int <= COORD_LIMIT as int - half
}

pub open spec fn flock_ok(boids: Seq<Boid>, half: int) -> bool {
    forall|k: int| 0 <= k < boids.len() ==> boid_in_world(#[trigger] boids[k], half)
}

/// `ns` names exactly the neighbors of boid `i`: every boid other than `i`
/// whose local box lies within the vision radius of `i`'s position, each
/// once.
pub open spec fn ns_describes(
    boids: Seq<Boid>,
    radius: int,
    half: int,
    i: int,
    ns: Seq<usize>,
) -> bool {
    &&& ns.no_duplicates()
    &&& forall|j: usize|
        #[trigger] ns.contains(j) <==> (j as int) < boids.len() && (j as int) != i && boid_box_s(
            boids[j as int],
            half,
        ).within_s(boids[i].position, radius)
}

/// The snapshot the update feeds to the builder: one `(index, local box)`
/// pair per boid, in boid order.
pub open spec fn boid_pairs_s(boids: Seq<Boid>, half: int) -> Seq<(usize, AABB)> {
    Seq::new(boids.len(), |k: int| (k as usize, boid_box_s(boids[k], half)))
}

/// The indices with value `i` removed, order kept.
pub open spec fn excluding(s: Seq<usize>, i: usize) -> Seq<usize> {
    s.filter(|j: usize| j != i)
}

/// Boid `i`'s neighbor list for the tick, exactly as the update computes
/// it: the payloads the range query returns over the built tree, with the
/// boid's own index removed.
pub open spec fn neighbors_of(boids: Seq<Boid>, radius: int, half: int, i: int) -> Seq<usize> {
    excluding(
        in_radius_s(build_leaves_s(boid_pairs_s(boids, half)), boids[i].position, radius),
        i as usize,
    )
}

/// What [`update_boids`] promises per boid: the entry is the steering
/// result over that boid's neighbor list [`neighbors_of`], and that list
/// names exactly the boid's in-range neighbors, self excluded by identity
/// ([`ns_describes`]).
pub open spec fn per_boid_ok(
    boids: Seq<Boid>,
    radius: int,
    half: int,
    i: int,
    st: Option<Steering>,
) -> bool {
    &&& ns_describes(boids, radius, half, i, neighbors_of(boids, radius, half, i))
    &&& steer_ok(boids, i, neighbors_of(boids, radius, half, i), st)
}

/// How one more index extends the exclusion.
proof fn lemma_excluding_push(s: Seq<usize>, x: usize, i: usize)
    ensures
        excluding(s.push(x), i) == if x != i {
            excluding(s, i).push(x)
        } else {
            excluding(s, i)
        },
{
    reveal(Seq::filter);
    assert(s.push(x).drop_last() =~= s);
    assert(s.push(x).last() == x);
}

proof fn lemma_excluding_empty(i: usize)
    ensures
        excluding(Seq::<usize>::empty(), i) == Seq::<usize>::empty(),
{
    reveal(Seq::filter);
}

/// Pushing extends the members of a sequence by exactly the new element.
proof fn lemma_contains_push<A>(s: Seq<A>, x: A, y: A)
    ensures
        s.push(x).contains(y) <==> (s.contains(y) || y == x),
{
    if s.contains(y) {
        let k = choose|k: int| 0 <= k < s.len() && s[k] == y;
        assert(s.push(x)[k] == y);
    }
    assert(s.push(x)[s.len() as int] == x);
    if s.push(x).contains(y) {
        let k = choose|k: int| 0 <= k < s.push(x).len() && s.push(x)[k] == y;
        if k < s.len() {
            assert(s[k] == y);
        }
    }
}

/// The leaves of the built tree carry exactly the snapshot pairs: each leaf
/// payload is a boid index, it identifies the pair, and no index repeats.
proof fn lemma_leaves_payloads(pairs: Seq<(usize, AABB)>, leaves: Seq<(usize, AABB)>)
    requires
        leaves.to_multiset() == pairs.to_multiset(),
        forall|k: int| 0 <= k < pairs.len() ==> (#[trigger] pairs[k]).0 == k,
    ensures
        leaves.len() == pairs.len(),
        forall|k: int|
            0 <= k < leaves.len() ==> (#[trigger] leaves[k]).0 < pairs.len() && leaves[k]
                == pairs[leaves[k].0 as int],
        forall|k1: int, k2: int|
            0 <= k1 < k2 < leaves.len() ==> (#[trigger] leaves[k1]).0 != (#[trigger] leaves[k2]).0,
{
    broadcast use vstd::seq_lib::group_to_multiset_ensures;

    assert(leaves.len() == leaves.to_multiset().len());
    assert(pairs.len() == pairs.to_multiset().len());
    assert forall|k: int| 0 <= k < leaves.len() implies (#[trigger] leaves[k]).0 < pairs.len()
        && leaves[k] == pairs[leaves[k].0 as int] by {
        assert(leaves.contains(leaves[k]));
        assert(pairs.to_multiset().count(leaves[k]) > 0);
        assert(pairs.contains(leaves[k]));
        let m = choose|m: int| 0 <= m < pairs.len() && pairs[m] == leaves[k];
        assert(pairs[m].0 == m);
    }
    assert(pairs.no_duplicates()) by {
        assert forall|k1: int, k2: int|
            0 <= k1 < pairs.len() && 0 <= k2 < pairs.len() && k1 != k2 implies pairs[k1]
            != pairs[k2] by {
            assert(pairs[k1].0 == k1 && pairs[k2].0 == k2);
        }
    }
    pairs.lemma_multiset_has_no_duplicates();
    assert forall|k1: int, k2: int| 0 <= k1 < k2 < leaves.len() implies (#[trigger] leaves[k1]).0
        != (#[trigger] leaves[k2]).0 by {
        if leaves[k1].0 == leaves[k2].0 {
            let e = leaves[k1];
            assert(leaves[k2] == pairs[leaves[k2].0 as int]);
            assert(leaves[k1] == leaves[k2]);
            // Two positions holding the same pair force its count to two.
            let shorter = leaves.remove(k1);
            assert(shorter.to_multiset() == leaves.to_multiset().remove(e));
            assert(shorter[k2 - 1] == leaves[k2]);
            assert(shorter.contains(e));
            assert(shorter.to_multiset().count(e) > 0);
            assert(leaves.to_multiset().count(e) >= 2);
            assert(pairs.contains(e));
            assert(pairs.to_multiset().count(e) == 1);
            assert(false);
        }
    }
}

/// The whole flocking decision for one tick.  From the snapshot of all
/// boids it places one local box of half-extent `half_extent` at each
/// boid's position, builds the hierarchy over them, queries it with the
/// vision radius for each boid, excludes the boid itself by its index, and
/// returns each boid's steering result: `None` where fewer than two
/// neighbors remain, otherwise the exact steering targets ([`steer_ok`])
/// over a neighbor list naming exactly the in-range boids
/// ([`ns_describes`]).
pub fn update_boids(boids: &Vec<Boid>, vision_radius: i64, half_extent: i64) -> (r: Vec<
    Option<Steering>,
>)
    requires
        1 <= boids@.len() <= MAX_BOIDS,
        0 < vision_radius <= COORD_LIMIT,
        0 < half_extent <= COORD_LIMIT,
        flock_ok(boids@, half_extent as int),
    ensures
        r@.len() == boids@.len(),
        forall|i: int|
            0 <= i < boids@.len() ==> per_boid_ok(
                boids@,
                vision_radius as int,
                half_extent as int,
                i,
                #[trigger] r@[i],
            ),
{
    let ghost rad = vision_radius as int;
    let ghost half = half_extent as int;
    proof {
        assert forall|k: int| 0 <= k < boids@.len() implies (#[trigger] boids@[k]).position.in_range()
            && boids@[k].heading.in_range() by {
            assert(boid_in_world(boids@[k], half));
        }
    }
    let n = boids.len();
    let base = AABB::new(Vec3::splat(-half_extent), Vec3::splat(half_extent));
    let mut pairs: Vec<(usize, AABB)> = Vec::new();
    let mut k: usize = 0;
    while k < n
        invariant
            0 <= k <= n,
            n == boids@.len(),
            0 < half_extent <= COORD_LIMIT,
            half == half_extent as int,
            flock_ok(boids@, half),
            base.min.x == -half_extent && base.min.y == -half_extent && base.min.z
                == -half_extent,
            base.max.x == half_extent && base.max.y == half_extent && base.max.z == half_extent,
            base.wf(),
            pairs@.len() == k,
            forall|m: int|
                0 <= m < k ==> #[trigger] pairs@[m] == (m as usize, boid_box_s(boids@[m], half))
                    && pairs@[m].1.wf(),
        decreases n - k,
    {
        let b = boids[k];
        proof {
            assert(boid_in_world(boids@[k as int], half));
        }
        let bx = base.translated(&b.position);
        proof {
            assert(bx == boid_box_s(boids@[k as int], half));
        }
        pairs.push((k, bx));
        k = k + 1;
    }
    let ghost pairs_seq = pairs@;
    proof {
        assert(pairs_seq =~= boid_pairs_s(boids@, half));
    }
    let root_opt = BVHNode::create(pairs);
    let root = root_opt.unwrap();
    let ghost leaves = root.leaves();
    proof {
        lemma_leaves_payloads(pairs_seq, leaves);
    }
    let mut out: Vec<Option<Steering>> = Vec::new();
    let mut i: usize = 0;
    while i < n
        invariant
            0 <= i <= n,
            n == boids@.len(),
            1 <= boids@.len() <= MAX_BOIDS,
            0 < vision_radius <= COORD_LIMIT,
            0 < half_extent <= COORD_LIMIT,
            rad == vision_radius as int,
            half == half_extent as int,
            flock_ok(boids@, half),
            boids_ok(boids@),
            root.wf(),
            leaves == root.leaves(),
            leaves.len() == n,
            forall|m: int|
                0 <= m < n ==> #[trigger] pairs_seq[m] == (m as usize, boid_box_s(boids@[m], half))
                    && pairs_seq[m].1.wf(),
            pairs_seq.len() == n,
            forall|m: int|
                0 <= m < leaves.len() ==> (#[trigger] leaves[m]).0 < n && leaves[m]
                    == pairs_seq[leaves[m].0 as int],
            forall|k1: int, k2: int|
                0 <= k1 < k2 < leaves.len() ==> (#[trigger] leaves[k1]).0 != (
                #[trigger] leaves[k2]).0,
            leaves.to_multiset() == pairs_seq.to_multiset(),
            pairs_seq == boid_pairs_s(boids@, half),
            leaves == build_leaves_s(pairs_seq),
            out@.len() == i,
            forall|m: int| 0 <= m < i ==> per_boid_ok(boids@, rad, half, m, #[trigger] out@[m]),
        decreases n - i,
    {
        broadcast use vstd::seq_lib::group_to_multiset_ensures;

        let me = boids[i];
        let v = root.get_in_radius(&me.position, vision_radius);
        proof {
            crate::bvh::lemma_in_radius_distinct(leaves, me.position, rad);
            crate::bvh::lemma_in_radius_len(leaves, me.position, rad);
        }
        let mut ns: Vec<usize> = Vec::new();
        let mut m: usize = 0;
        proof {
            assert(v@.take(0) =~= Seq::<usize>::empty());
            lemma_excluding_empty(i);
        }
        while m < v.len()
            invariant
                0 <= m <= v@.len(),
                i < n == boids@.len(),
                me == boids@[i as int],
                v@.no_duplicates(),
                ns@.no_duplicates(),
                ns@.len() <= m,
                ns@ == excluding(v@.take(m as int), i),
                forall|j: usize|
                    #[trigger] ns@.contains(j) <==> (v@.take(m as int).contains(j) && j != i),
            decreases v@.len() - m,
        {
            let j = v[m];
            proof {
                assert(v@.take(m + 1 as int) =~= v@.take(m as int).push(j));
                lemma_contains_push(v@.take(m as int), j, j);
                lemma_excluding_push(v@.take(m as int), j, i);
            }
            if j != i {
                proof {
                    if ns@.contains(j) {
                        let prev = choose|prev: int|
                            0 <= prev < m && v@.take(m as int)[prev] == j;
                        assert(v@[prev] == v@[m as int]);
                        assert(false);
                    }
                }
                let ghost old_ns = ns@;
                ns.push(j);
                proof {
                    assert forall|jj: usize| #[trigger] ns@.contains(jj) <==> (v@.take(
                        m + 1 as int,
                    ).contains(jj) && jj != i) by {
                        lemma_contains_push(old_ns, j, jj);
                        lemma_contains_push(v@.take(m as int), j, jj);
                    }
                    assert forall|a1: int, a2: int|
                        0 <= a1 < a2 < ns@.len() implies ns@[a1] != ns@[a2] by {
                        if a2 == ns@.len() - 1 {
                            assert(old_ns.contains(ns@[a1]));
                        }
                    }
                }
            } else {
                proof {
                    assert forall|jj: usize| #[trigger] ns@.contains(jj) <==> (v@.take(
                        m + 1 as int,
                    ).contains(jj) && jj != i) by {
                        lemma_contains_push(v@.take(m as int), j, jj);
                    }
                }
            }
            m = m + 1;
        }
        proof {
            assert(v@.take(v@.len() as int) =~= v@);
            assert forall|j: usize| #[trigger] ns@.contains(j) <==> ((j as int) < boids@.len() && (
            j as int) != i as int && boid_box_s(boids@[j as int], half).within_s(
                boids@[i as int].position,
                rad,
            )) by {
                crate::bvh::lemma_in_radius_mem(leaves, me.position, rad, j);
                if v@.contains(j) {
                    let kk = choose|kk: int|
                        0 <= kk < leaves.len() && (#[trigger] leaves[kk]).0 == j
                            && leaves[kk].1.within_s(me.position, rad);
                    assert(leaves[kk] == pairs_seq[j as int]);
                }
                if (j as int) < boids@.len() && boid_box_s(boids@[j as int], half).within_s(
                    me.position,
                    rad,
                ) {
                    let e = pairs_seq[j as int];
                    assert(pairs_seq.contains(e));
                    assert(leaves.to_multiset().count(e) > 0);
                    assert(leaves.contains(e));
                    let kk = choose|kk: int| 0 <= kk < leaves.len() && leaves[kk] == e;
                    assert(leaves[kk].0 == j && leaves[kk].1.within_s(me.position, rad));
                    assert(v@.contains(j));
                }
            }
            assert(ns@ == neighbors_of(boids@, rad, half, i as int));
            assert(ns_describes(boids@, rad, half, i as int, ns@));
            assert forall|kx: int| 0 <= kx < ns@.len() implies (#[trigger] ns@[kx]) < boids@.len()
                && ns@[kx] != i by {
                assert(ns@.contains(ns@[kx]));
            }
        }
        let st = steering(boids, i, &ns);
        proof {
            assert(steer_ok(boids@, i as int, ns@, st));
            assert(per_boid_ok(boids@, rad, half, i as int, st));
        }
        out.push(st);
        i = i + 1;
    }
    out
}

/// Truncated signed division via unsigned division on the magnitude.
fn div_i64(a: i64, n: i64) -> (r: i64)
    requires
        0 < n,
        -4611686018427387904 <= a <= 4611686018427387904,
    ensures
        r as int == div_trunc(a as int, n as int),
{
    if a >= 0 {
        proof {
            vstd::arithmetic::div_mod::lemma_div_nonincreasing(a as int, n as int);
            vstd::arithmetic::div_mod::lemma_div_pos_is_pos(a as int, n as int);
        }
        let q = (a as u64) / (n as u64);
        q as i64
    } else {
        proof {
            vstd::arithmetic::div_mod::lemma_div_nonincreasing(-a as int, n as int);
            vstd::arithmetic::div_mod::lemma_div_pos_is_pos(-a as int, n as int);
        }
        let q = ((-a) as u64) / (n as u64);
        -(q as i64)
    }
}

/// A truncated average of values bounded by `l` is bounded by `l`.
proof fn lemma_div_trunc_bound(a: int, n: int, l: int)
    requires
        0 < n,
        0 <= l,
        -(n * l) <= a <= n * l,
    ensures
        -l <= div_trunc(a, n) <= l,
{
    vstd::arithmetic::div_mod::lemma_div_multiples_vanish_fancy(l, 0, n);
    assert(n * l + 0 == n * l);
    if a >= 0 {
        vstd::arithmetic::div_mod::lemma_div_is_ordered(a, n * l, n);
        vstd::arithmetic::div_mod::lemma_div_pos_is_pos(a, n);
    } else {
        vstd::arithmetic::div_mod::lemma_div_is_ordered(-a, n * l, n);
        vstd::arithmetic::div_mod::lemma_div_pos_is_pos(-a, n);
    }
}

/// The steering targets for boid `i` over its (already self-excluded)
/// neighbor list: `None` when fewer than two neighbors remain, otherwise
/// the exact alignment, cohesion and separation targets of [`steer_ok`].
pub fn steering(boids: &Vec<Boid>, i: usize, neighbors: &Vec<usize>) -> (r: Option<Steering>)
    requires
        i < boids@.len(),
        boids@.len() <= MAX_BOIDS,
        neighbors@.len() <= boids@.len(),
        boids_ok(boids@),
        forall|k: int|
            0 <= k < neighbors@.len() ==> (#[trigger] neighbors@[k]) < boids@.len()
                && neighbors@[k] != i,
    ensures
        steer_ok(boids@, i as int, neighbors@, r),
{
    if neighbors.len() < 2 {
        return None;
    }
    let n = neighbors.len();
    let me = boids[i];
    let mut shx: i64 = 0;
    let mut shy: i64 = 0;
    let mut shz: i64 = 0;
    let mut spx: i64 = 0;
    let mut spy: i64 = 0;
    let mut spz: i64 = 0;
    let mut best: Option<(i64, Vec3)> = None;
    let mut k: usize = 0;
    while k < n
        invariant
            0 <= k <= n,
            n == neighbors@.len(),
            2 <= n <= boids@.len() <= MAX_BOIDS,
            i < boids@.len(),
            me == boids@[i as int],
            boids_ok(boids@),
            forall|m: int|
                0 <= m < neighbors@.len() ==> (#[trigger] neighbors@[m]) < boids@.len()
                    && neighbors@[m] != i,
            shx as int == sum_headings(boids@, neighbors@.take(k as int)).0,
            shy as int == sum_headings(boids@, neighbors@.take(k as int)).1,
            shz as int == sum_headings(boids@, neighbors@.take(k as int)).2,
            spx as int == sum_positions(boids@, neighbors@.take(k as int)).0,
            spy as int == sum_positions(boids@, neighbors@.take(k as int)).1,
            spz as int == sum_positions(boids@, neighbors@.take(k as int)).2,
            -(k as int * COORD_LIMIT as int) <= shx as int <= k as int * COORD_LIMIT as int,
            -(k as int * COORD_LIMIT as int) <= shy as int <= k as int * COORD_LIMIT as int,
            -(k as int * COORD_LIMIT as int) <= shz as int <= k as int * COORD_LIMIT as int,
            -(k as int * COORD_LIMIT as int) <= spx as int <= k as int * COORD_LIMIT as int,
            -(k as int * COORD_LIMIT as int) <= spy as int <= k as int * COORD_LIMIT as int,
            -(k as int * COORD_LIMIT as int) <= spz as int <= k as int * COORD_LIMIT as int,
            match (best, sep_scan(boids@, i as int, neighbors@.take(k as int))) {
                (Option::Some(held), Option::Some(spec_held)) => held.0 as int == spec_held.0
                    && v3(held.1) == spec_held.1,
                (Option::None, Option::None) => true,
                _ => false,
            },
        decreases n - k,
    {
        let ghost prefix = neighbors@.take(k as int);
        proof {
            assert(neighbors@.take(k + 1 as int) =~= prefix.push(neighbors@[k as int]));
            assert(neighbors@.take(k + 1 as int).drop_last() =~= prefix);
        }
        let j = neighbors[k];
        let b = boids[j];
        shx = shx + b.heading.x;
        shy = shy + b.heading.y;
        shz = shz + b.heading.z;
        spx = spx + b.position.x;
        spy = spy + b.position.y;
        spz = spz + b.position.z;
        let ox = b.position.x - me.position.x;
        let oy = b.position.y - me.position.y;
        let oz = b.position.z - me.position.z;
        proof {
            crate::aabb::lemma_abs_sq_bound(ox as int, 2 * COORD_LIMIT as int);
            crate::aabb::lemma_abs_sq_bound(oy as int, 2 * COORD_LIMIT as int);
            crate::aabb::lemma_abs_sq_bound(oz as int, 2 * COORD_LIMIT as int);
        }
        let d = ox * ox + oy * oy + oz * oz;
        let replace = match best {
            None => d > 0,
            Some(held) => d > 0 && d < held.0,
        };
        if replace {
            best = Some((d, Vec3 { x: ox, y: oy, z: oz }));
        }
        k = k + 1;
    }
    proof {
        assert(neighbors@.take(n as int) =~= neighbors@);
    }
    let n64 = n as i64;
    proof {
        assert(n as int * COORD_LIMIT as int <= 4611686018427387904);
        lemma_div_trunc_bound(spx as int, n as int, COORD_LIMIT as int);
        lemma_div_trunc_bound(spy as int, n as int, COORD_LIMIT as int);
        lemma_div_trunc_bound(spz as int, n as int, COORD_LIMIT as int);
    }
    let alignment = Vec3 { x: div_i64(shx, n64), y: div_i64(shy, n64), z: div_i64(shz, n64) };
    let cohesion = Vec3 {
        x: div_i64(spx, n64) - me.position.x,
        y: div_i64(spy, n64) - me.position.y,
        z: div_i64(spz, n64) - me.position.z,
    };
    let separation = match best {
        None => None,
        Some(held) => Some(held.1),
    };
    Some(Steering { alignment, cohesion, separation })
}

} // verus!
