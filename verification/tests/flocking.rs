//! Flocking update tests: self-exclusion, steering thresholds and targets.
//!
//! Coordinates are fixed-point: 1000 units stand for one world unit.

use boid_bvh::boids::{steering, update_boids, Boid};
use boid_bvh::vec3::Vec3;

fn boid(px: i64, py: i64, pz: i64, hx: i64, hy: i64, hz: i64) -> Boid {
    Boid {
        position: Vec3::new(px, py, pz),
        heading: Vec3::new(hx, hy, hz),
    }
}

// The rotation axis a caller forms from a heading and a steering target:
// the library's verified cross product.
fn cross(a: Vec3, b: Vec3) -> Vec3 {
    Vec3::cross(&a, &b)
}

#[test]
fn steering_exact_targets() {
    let boids = vec![
        boid(0, 0, 0, 1000, 0, 0),
        boid(1000, 0, 0, 1000, 0, 0),
        boid(2000, 1000, 0, 0, 1000, 0),
    ];
    let st = steering(&boids, 0, &vec![1, 2]).unwrap();
    // Alignment: average neighbor heading.
    assert_eq!(st.alignment, Vec3::new(500, 500, 0));
    // Cohesion: toward the neighbor centroid.
    assert_eq!(st.cohesion, Vec3::new(1500, 500, 0));
    // Separation: toward the closest neighbor.
    assert_eq!(st.separation, Some(Vec3::new(1000, 0, 0)));
}

#[test]
fn averages_truncate_toward_zero() {
    // Sum of neighbor x positions is -3001 over two neighbors: the
    // fixed-point average truncates toward zero, to -1500.
    let boids = vec![
        boid(0, 0, 0, 1000, 0, 0),
        boid(-1001, 0, 0, 999, 0, 0),
        boid(-2000, 0, 0, 0, 0, 0),
    ];
    let st = steering(&boids, 0, &vec![1, 2]).unwrap();
    assert_eq!(st.cohesion, Vec3::new(-1500, 0, 0));
    // Heading sum 999 over two neighbors truncates to 499.
    assert_eq!(st.alignment, Vec3::new(499, 0, 0));
}

#[test]
fn steering_requires_two_neighbors() {
    let boids = vec![boid(0, 0, 0, 1000, 0, 0), boid(500, 0, 0, 1000, 0, 0)];
    assert_eq!(steering(&boids, 0, &vec![1]), None);
    assert_eq!(steering(&boids, 0, &vec![]), None);
}

#[test]
fn separation_skips_exact_coincidence() {
    // One neighbor coincides with the agent: it cannot drive separation,
    // the farther one does.
    let boids = vec![
        boid(0, 0, 0, 1000, 0, 0),
        boid(0, 0, 0, 1000, 0, 0),
        boid(3000, 0, 0, 1000, 0, 0),
    ];
    let st = steering(&boids, 0, &vec![1, 2]).unwrap();
    assert_eq!(st.separation, Some(Vec3::new(3000, 0, 0)));

    // Every neighbor coincides: steering still applies (two neighbors),
    // but no separation target exists and nothing degenerates.
    let coincident = vec![
        boid(0, 0, 0, 1000, 0, 0),
        boid(0, 0, 0, 1000, 0, 0),
        boid(0, 0, 0, 1000, 0, 0),
    ];
    let st = steering(&coincident, 0, &vec![1, 2]).unwrap();
    assert_eq!(st.separation, None);
    assert_eq!(st.cohesion, Vec3::new(0, 0, 0));
}

#[test]
fn separation_tie_keeps_encounter_order() {
    let boids = vec![
        boid(0, 0, 0, 1000, 0, 0),
        boid(1000, 0, 0, 1000, 0, 0),
        boid(0, 1000, 0, 1000, 0, 0),
    ];
    let st = steering(&boids, 0, &vec![1, 2]).unwrap();
    assert_eq!(st.separation, Some(Vec3::new(1000, 0, 0)));
    let st = steering(&boids, 0, &vec![2, 1]).unwrap();
    assert_eq!(st.separation, Some(Vec3::new(0, 1000, 0)));
}

#[test]
fn coincident_pair_gets_no_steering() {
    // Two agents at the same spot: each sees exactly one neighbor after
    // excluding itself by identity, which is below the two-neighbor
    // threshold, so no steering applies and nothing degenerates.
    let boids = vec![boid(500, 500, 500, 1000, 0, 0), boid(500, 500, 500, 1000, 0, 0)];
    let r = update_boids(&boids, 4000, 125);
    assert_eq!(r, vec![None, None]);
}

#[test]
fn lone_and_distant_agents_get_no_steering() {
    let r = update_boids(&vec![boid(0, 0, 0, 1000, 0, 0)], 4000, 125);
    assert_eq!(r, vec![None]);

    // Two agents far outside each other's vision radius.
    let far = vec![boid(0, 0, 0, 1000, 0, 0), boid(100_000, 0, 0, 1000, 0, 0)];
    let r = update_boids(&far, 4000, 125);
    assert_eq!(r, vec![None, None]);
}

#[test]
fn line_of_three_cohesion() {
    // Three agents on a line at x = 0, 1, 2, cohesion the only force of
    // interest.  The middle agent already sits at its neighbors' centroid
    // on that axis, so its cohesion target is zero and it is not turned.
    // Facing along the line (+x), the outer agents' cohesion targets are
    // parallel to their heading, so the rotation axis (the cross product)
    // vanishes as well.
    let along = vec![
        boid(0, 0, 0, 1000, 0, 0),
        boid(1000, 0, 0, 1000, 0, 0),
        boid(2000, 0, 0, 1000, 0, 0),
    ];
    let r = update_boids(&along, 4000, 125);
    assert_eq!(r.len(), 3);
    let st1 = r[1].unwrap();
    assert_eq!(st1.cohesion, Vec3::new(0, 0, 0));
    for i in [0usize, 2] {
        let st = r[i].unwrap();
        assert_eq!(cross(along[i].heading, st.cohesion), Vec3::new(0, 0, 0));
    }

    // Facing across the line (+z) the rotation is measurable: the two
    // outer agents turn toward the centroid with opposite signs about the
    // y axis, the middle agent not at all.
    let across = vec![
        boid(0, 0, 0, 0, 0, 1000),
        boid(1000, 0, 0, 0, 0, 1000),
        boid(2000, 0, 0, 0, 0, 1000),
    ];
    let r = update_boids(&across, 4000, 125);
    let st0 = r[0].unwrap();
    let st1 = r[1].unwrap();
    let st2 = r[2].unwrap();
    assert_eq!(st0.cohesion, Vec3::new(1500, 0, 0));
    assert_eq!(st1.cohesion, Vec3::new(0, 0, 0));
    assert_eq!(st2.cohesion, Vec3::new(-1500, 0, 0));
    let axis0 = cross(across[0].heading, st0.cohesion);
    let axis2 = cross(across[2].heading, st2.cohesion);
    assert_eq!(axis0, Vec3::new(0, 1_500_000, 0));
    assert_eq!(axis2, Vec3::new(0, -1_500_000, 0));
    assert!(axis0.y > 0);
    assert!(axis2.y < 0);
    assert_eq!(cross(across[1].heading, st1.cohesion), Vec3::new(0, 0, 0));
}
