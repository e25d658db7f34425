//! Hierarchy construction and query tests.
//!
//! Coordinates are fixed-point: 1000 units stand for one world unit.

use boid_bvh::aabb::{Dist, AABB};
use boid_bvh::bvh::BVHNode;
use boid_bvh::vec3::Vec3;

fn construct_linear_boxes(n: i32) -> Vec<(i32, AABB)> {
    let mut data_and_boxes = Vec::new();
    for i in 0..n {
        data_and_boxes.push((
            i,
            AABB::new(
                Vec3::splat(i as i64 * 2000),
                Vec3::splat(i as i64 * 2000 + 1000),
            ),
        ));
    }
    data_and_boxes
}

#[test]
fn test_aabb_distance() {
    let bbox = AABB::new(Vec3::splat(1000), Vec3::splat(2000));
    assert_eq!(
        bbox.distance(&Vec3::new(0, 1000, 1000)),
        Dist::Outside { sq: 1_000_000 }
    );
    assert_eq!(
        bbox.distance(&Vec3::new(1000, 0, 1000)),
        Dist::Outside { sq: 1_000_000 }
    );
    assert_eq!(
        bbox.distance(&Vec3::new(1000, 1000, 0)),
        Dist::Outside { sq: 1_000_000 }
    );
    assert_eq!(bbox.distance(&Vec3::splat(1000)), Dist::Inside { face: 0 });
    assert_eq!(bbox.distance(&Vec3::splat(2000)), Dist::Inside { face: 0 });
    assert_eq!(bbox.distance(&Vec3::splat(1500)), Dist::Inside { face: 500 });
    assert_eq!(bbox.distance(&Vec3::splat(1250)), Dist::Inside { face: 250 });
}

#[test]
fn test_bvh_create() {
    let data_and_boxes = construct_linear_boxes(5);
    let root = BVHNode::create(data_and_boxes);
    assert!(root.is_some());
}

#[test]
fn test_get_closest() {
    let data_and_boxes = construct_linear_boxes(5);
    let root_opt = BVHNode::create(data_and_boxes);
    assert!(root_opt.is_some());
    let root = root_opt.unwrap();
    // on the border
    let closest_0 = root.get_closest(&Vec3::splat(500));
    assert!(closest_0.is_some());
    assert_eq!(closest_0.unwrap().0, 0);
    // in the middle
    let closest_1 = root.get_closest(&Vec3::splat(1500));
    assert!(closest_1.is_some());
    assert_eq!(closest_1.unwrap().0, 1);
    // outside
    let closest_4 = root.get_closest(&Vec3::splat(20000));
    assert!(closest_4.is_some());
    assert_eq!(closest_4.unwrap().0, 4);
}

#[test]
fn nearest_found_in_sibling_of_containing_child() {
    // Only the right child's box contains the query point, and the winner
    // lies there; the left sibling's box bound proves it cannot hold
    // anything closer.  Inside the right subtree the two leaves are
    // equally far, and of two equally close leaves the later one wins.
    let data = vec![
        (0, AABB::new(Vec3::new(0, 0, 0), Vec3::new(100, 1000, 1000))),
        (1, AABB::new(Vec3::new(4400, 0, 0), Vec3::new(4500, 1000, 1000))),
        (2, AABB::new(Vec3::new(4600, 0, 0), Vec3::new(4700, 1000, 1000))),
    ];
    let root = BVHNode::create(data).unwrap();
    assert_eq!(root.get_closest(&Vec3::new(4550, 500, 500)).unwrap().0, 2);
}

#[test]
fn nearest_prunes_far_sibling() {
    // The left child surrounds the point and already holds a leaf closer
    // than the right child's box bound, so the right child is pruned.
    let data = vec![
        (0, AABB::new(Vec3::new(0, 0, 0), Vec3::new(1000, 1000, 1000))),
        (1, AABB::new(Vec3::new(3500, 0, 0), Vec3::new(4500, 1000, 1000))),
        (2, AABB::new(Vec3::new(9000, 0, 0), Vec3::new(10000, 1000, 1000))),
    ];
    let root = BVHNode::create(data).unwrap();
    assert_eq!(root.get_closest(&Vec3::new(2000, 500, 500)).unwrap().0, 0);
}

#[test]
fn test_aabb_combine() {
    let a = AABB::new(Vec3::new(1000, 1000, 1000), Vec3::new(3000, 3000, 3000));
    let b = AABB::new(Vec3::new(-1000, -1000, -1000), Vec3::new(2000, 2000, 2000));
    let c = AABB::new(Vec3::new(-1000, -1000, -1000), Vec3::new(3000, 3000, 3000));
    assert_eq!(AABB::outer(&a, &b), c);
}

#[test]
fn test_aabb_contains() {
    let a = AABB::new(Vec3::new(1000, 1000, 1000), Vec3::new(3000, 3000, 3000));
    assert!(a.contains(&Vec3::splat(2000)));
    assert!(!a.contains(&Vec3::splat(4000)));
}
