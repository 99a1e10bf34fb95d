use rand::seq::SliceRandom;
use trimesh_core::hull::{Hull, ANGLE_ONE};

/// Pseudo-angle of a direction: monotone in the true angle, in `[0, 1)`.
fn pseudo_angle(dx: f64, dy: f64) -> f64 {
    let p = dx / (dx.abs() + dy.abs());
    (if dy > 0.0 { 3.0 - p } else { 1.0 + p }) / 4.0
}

/// Scales a pseudo-angle in `[0, 1]` to the hull's fixed-point range.
fn scaled(a: f64) -> u64 {
    let s = (a * ANGLE_ONE as f64).round() as u64;
    if s > ANGLE_ONE {
        ANGLE_ONE
    } else {
        s
    }
}

fn hull_from_points(center: (f64, f64), pts: &[(f64, f64)]) -> Hull {
    let angles: Vec<u64> = pts
        .iter()
        .map(|p| scaled(pseudo_angle(p.0 - center.0, p.1 - center.1)))
        .collect();
    Hull::new(angles)
}

#[test]
fn circular_hull() {
    let mut pts = Vec::new();
    let num = 1_000_000;
    for i in 0..num {
        let angle = i as f64 * 2.0 * std::f64::consts::PI / (num as f64);
        pts.push((angle.cos(), angle.sin()));
    }
    pts.shuffle(&mut rand::rng());

    let mut h = hull_from_points((0.0, 0.0), &pts);
    h.insert_first(0, 1);
    for i in 1..num {
        if i % 1000 == 0 {
            println!("{}", i);
        }
        h.insert(i, 2);
    }
}

#[test]
fn four_point_scenario() {
    // Angles 0.0, 0.25, 0.5, 0.75 of a turn, as fixed-point fractions.
    let q = ANGLE_ONE / 4;
    let h_angles = vec![0u64, q, 2 * q, 3 * q];
    let mut h = Hull::new(h_angles);

    // The first point (angle 0.5) forms a one-node loop.
    h.insert_first(2, 25);
    assert_eq!(h.get(2), (2, 2));

    // Before inserting the point at angle 0.25, its neighbours wrap to the
    // sole member.
    assert_eq!(h.get(1), (2, 2));

    h.insert(1, 11);
    assert_eq!(h.values(), vec![11, 25]);
}

#[test]
fn update_changes_edge_only() {
    let q = ANGLE_ONE / 8;
    let mut h = Hull::new(vec![q, 3 * q, 5 * q, 7 * q]);
    h.insert_first(0, 10);
    h.insert(1, 11);
    h.insert(3, 13);

    let before = h.get(2);
    h.update(1, 99);
    assert_eq!(h.edge(1), 99);
    assert_eq!(h.get(2), before);
    assert_eq!(h.values(), vec![10, 99, 13]);
}

#[test]
fn insert_then_erase_restores_state() {
    let q = ANGLE_ONE / 8;
    let mut h = Hull::new(vec![q, 3 * q, 5 * q, 7 * q]);
    h.insert_first(0, 10);
    h.insert(2, 12);
    h.insert(3, 13);

    let values_before = h.values();
    let get_before = h.get(1);
    h.insert(1, 11);
    assert_eq!(h.values(), vec![10, 11, 12, 13]);
    h.erase(1);
    assert_eq!(h.values(), values_before);
    assert_eq!(h.get(1), get_before);
}

#[test]
fn erase_promotes_bucket_head() {
    // Two members whose angles land in one bucket, and a third further away.
    let a = ANGLE_ONE / 2;
    let mut h = Hull::new(vec![a, a + 1, ANGLE_ONE / 8]);
    h.insert_first(0, 20);
    h.insert(1, 21);
    h.insert(2, 22);
    assert_eq!(h.values(), vec![22, 20, 21]);

    // Erasing the bucket's first member promotes its successor in place.
    h.erase(0);
    assert_eq!(h.values(), vec![22, 21]);
    assert_eq!(h.get(0), (2, 1));
}

#[test]
fn erase_last_member_clears_bucket() {
    let mut h = Hull::new(vec![ANGLE_ONE / 2, ANGLE_ONE / 2 + 5]);
    h.insert_first(0, 7);
    h.erase(0);
    // The bucket is vacated, so a fresh first insert in the same bucket is
    // accepted again.
    h.insert_first(1, 8);
    assert_eq!(h.values(), vec![8]);
}

#[test]
fn get_wraps_past_the_largest_angle() {
    let q = ANGLE_ONE / 8;
    let mut h = Hull::new(vec![q, 2 * q, 7 * q]);
    h.insert_first(0, 30);
    h.insert(1, 31);
    // The query angle is above every member: its neighbours are the largest
    // and the smallest member.
    assert_eq!(h.get(2), (1, 0));
    h.insert(2, 32);
    assert_eq!(h.values(), vec![30, 31, 32]);
}

#[test]
fn edge_accessors() {
    let q = ANGLE_ONE / 8;
    let mut h = Hull::new(vec![q, 3 * q, 6 * q]);
    h.insert_first(1, 41);
    h.insert(0, 40);
    h.insert(2, 42);

    assert_eq!(h.edge(0), 40);
    assert_eq!(h.edge(1), 41);
    assert_eq!(h.prev_edge(1), 40);
    assert_eq!(h.prev_edge(0), 42);
    // A ray from just above the first member's angle crosses the edge
    // beginning at that member.
    assert_eq!(h.get_edge(1), 40);
}

#[test]
fn default_hull_accepts_nothing() {
    let _h = Hull::default();
}

#[test]
fn mixed_inserts_and_erasures_keep_order() {
    // A deterministic pseudo-random insertion order over many points whose
    // edge values encode their angular rank, so `values()` must come out
    // ascending whatever the order of operations.
    let n: usize = 1000;
    let angles: Vec<u64> = (0..n).map(|i| (i as u64) * (ANGLE_ONE / n as u64)).collect();
    let mut order: Vec<usize> = (0..n).collect();
    let mut state: u64 = 0x2545_f491_4f6c_dd1d;
    for i in (1..n).rev() {
        state = state.wrapping_mul(6364136223846793005).wrapping_add(1442695040888963407);
        let j = (state >> 33) as usize % (i + 1);
        order.swap(i, j);
    }

    let mut h = Hull::new(angles);
    h.insert_first(order[0], order[0]);
    for &p in &order[1..] {
        h.insert(p, p);
    }
    let vals = h.values();
    assert_eq!(vals.len(), n);
    for i in 0..n {
        assert_eq!(vals[i], i);
    }

    // Erase the odd-rank members, in the same shuffled order.
    for &p in &order {
        if p % 2 == 1 {
            h.erase(p);
        }
    }
    let vals = h.values();
    assert_eq!(vals.len(), n / 2);
    for i in 0..n / 2 {
        assert_eq!(vals[i], 2 * i);
    }

    // Erased slots are reusable: re-insert some of the same points.
    for p in [1usize, 333, 999] {
        h.insert(p, p);
    }
    let vals = h.values();
    assert_eq!(vals.len(), n / 2 + 3);
    assert!(vals.windows(2).all(|w| w[0] < w[1]));
}
