//! Box algebra and range-query tests.
//!
//! Coordinates are fixed-point: 1000 units stand for one world unit.

use boid_bvh::aabb::{Dist, AABB};
use boid_bvh::bvh::BVHNode;
use boid_bvh::vec3::{Vec3, COORD_LIMIT};

fn linear_boxes(n: i32) -> Vec<(i32, AABB)> {
    let mut data_and_boxes = Vec::new();
    for i in 0..n {
        data_and_boxes.push((
            i,
            AABB::new(
                Vec3::splat(i as i64 * 2000),
                Vec3::splat(i as i64 * 2000 + 1000),
            ),
        ));
    }
    data_and_boxes
}

#[test]
fn union_is_idempotent_and_commutative() {
    let a = AABB::new(Vec3::new(-500, 0, 250), Vec3::new(1000, 2000, 3000));
    let b = AABB::new(Vec3::new(0, -1000, 500), Vec3::new(500, 5000, 2500));
    assert_eq!(AABB::outer(&a, &b), AABB::outer(&b, &a));
    assert_eq!(AABB::outer(&a, &a), a);
    assert_eq!(AABB::outer(&b, &b), b);
}

#[test]
fn containment_matches_signed_distance() {
    let b = AABB::new(Vec3::splat(-1000), Vec3::splat(1000));
    // Inside, on the boundary, and outside: contains holds exactly when the
    // signed distance is not positive.
    let points = [
        Vec3::new(0, 0, 0),
        Vec3::new(1000, 0, 0),
        Vec3::new(-1000, 1000, 1000),
        Vec3::new(1001, 0, 0),
        Vec3::new(5000, 5000, 5000),
        Vec3::new(0, 0, -1001),
    ];
    for p in points.iter() {
        let inside = matches!(b.distance(p), Dist::Inside { .. });
        assert_eq!(b.contains(p), inside);
        if let Dist::Outside { sq } = b.distance(p) {
            assert!(sq > 0);
        }
    }
}

#[test]
fn range_query_exact_result() {
    let root = BVHNode::create(linear_boxes(5)).unwrap();
    let query = Vec3::splat(500);
    // Only the first box is within 2.0 world units of the query point: the
    // second box is sqrt(3) * 1.5 (about 2.598) units away.
    assert_eq!(root.get_in_radius(&query, 2000), vec![0]);
    // 2.6 world units reach the second box as well (its exact squared
    // distance is 6_750_000 against the allowed 6_760_000).
    assert_eq!(root.get_in_radius(&query, 2600), vec![0, 1]);
    // Out of radius of everything is a normal outcome: the empty
    // collection, even though the whole tree is pruned at the root.
    assert_eq!(root.get_in_radius(&Vec3::splat(-9000), 1000), Vec::<i32>::new());
}

#[test]
fn range_query_boundary_is_inclusive() {
    let root = BVHNode::create(linear_boxes(2)).unwrap();
    let query = Vec3::splat(-1000);
    // The first box is exactly sqrt(3_000_000) away: a radius whose square
    // reaches that (1733^2 = 3_003_289) includes it, one short of it
    // (1732^2 = 2_999_824) leaves the result empty.
    assert_eq!(root.get_in_radius(&query, 1733), vec![0]);
    assert_eq!(root.get_in_radius(&query, 1732), Vec::<i32>::new());
    // A contained point is within every radius, including zero.
    assert_eq!(root.get_in_radius(&Vec3::splat(500), 0), vec![0]);
}

#[test]
fn build_terminates_on_coincident_boxes() {
    // All boxes identical: the spatial median split makes no progress, the
    // count fallback must, and every payload is kept.
    let bx = AABB::new(Vec3::splat(-125), Vec3::splat(125));
    let mut data_and_boxes = Vec::new();
    for i in 0..8 {
        data_and_boxes.push((i, bx));
    }
    let root = BVHNode::create(data_and_boxes);
    assert!(root.is_some());
    let mut found = root.unwrap().get_in_radius(&Vec3::splat(0), 1000);
    found.sort();
    assert_eq!(found, vec![0, 1, 2, 3, 4, 5, 6, 7]);
}

#[test]
fn queries_at_coordinate_limit() {
    let b = AABB::new(Vec3::splat(COORD_LIMIT - 1000), Vec3::splat(COORD_LIMIT));
    assert!(b.contains(&Vec3::splat(COORD_LIMIT)));
    assert_eq!(
        b.distance(&Vec3::splat(COORD_LIMIT - 2000)),
        Dist::Outside { sq: 3_000_000 }
    );
    let root = BVHNode::create(vec![(7, b)]).unwrap();
    assert_eq!(root.get_closest(&Vec3::splat(-COORD_LIMIT)).unwrap().0, 7);
}
