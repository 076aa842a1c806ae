// Flock-level behavior: wrap-around, clamping, forces, conversion,
// grid consistency and determinism. Coordinates are fixed-point
// thousandths of a world unit.
use boids::Flock;

const W: i64 = 1_620_000;
const H: i64 = 1_080_000;

#[test]
fn empty_flock_renders_nothing() {
    let f = Flock::new();
    assert_eq!(f.count, 0);
    assert!(f.render().is_empty());
}

#[test]
fn add_boid_appears_in_render() {
    let mut f = Flock::new();
    f.add_boid(2, 100_000, 200_000, 1_000, -2_000);
    let r = f.render();
    assert_eq!(r.len(), 1);
    assert_eq!(r[0], (2, 100_000, 200_000));
}

#[test]
fn separation_pair_one_unit_apart() {
    // Two same-type agents one unit apart, zero velocity, separation
    // weight 8, all other weights zero: each is pushed directly away
    // from the other along the connecting line, with magnitude
    // 8 / 1^2 = 8 units, less the one-step epsilon in the denominator:
    // 1000 * 1000 * 8000 / (1_000_000 + 1) = 7999 thousandths.
    let mut f = Flock::new();
    f.add_boid(0, 100_000, 100_000, 0, 0);
    f.add_boid(0, 101_000, 100_000, 0, 0);
    f.update(8_000, 0, 0, 0, 0);
    // Positions move by the pre-acceleration velocity, which was zero.
    assert_eq!(f.boids[0].position_x, 100_000);
    assert_eq!(f.boids[1].position_x, 101_000);
    assert_eq!(f.boids[0].velocity_x, -7_999);
    assert_eq!(f.boids[0].velocity_y, 0);
    assert_eq!(f.boids[1].velocity_x, 7_999);
    assert_eq!(f.boids[1].velocity_y, 0);
}

#[test]
fn isolated_agent_zero_acceleration() {
    // No neighbor within vision range: all weights nonzero, yet the
    // acceleration is exactly zero and the velocity is untouched.
    let mut f = Flock::new();
    f.add_boid(1, 500_000, 500_000, 3_000, 4_000);
    f.update(8_000, 5_000, 3_000, 2_000, 1_000);
    assert_eq!(f.boids[0].position_x, 503_000);
    assert_eq!(f.boids[0].position_y, 504_000);
    assert_eq!(f.boids[0].velocity_x, 3_000);
    assert_eq!(f.boids[0].velocity_y, 4_000);
}

#[test]
fn wrap_at_right_edge() {
    // Agent half a unit from the right edge moving one unit per frame
    // rightward wraps to x = 0.5 units.
    let mut f = Flock::new();
    f.add_boid(0, W - 500, 300_000, 1_000, 0);
    f.update(0, 0, 0, 0, 0);
    assert_eq!(f.boids[0].position_x, 500);
    assert_eq!(f.boids[0].position_y, 300_000);
}

#[test]
fn wrap_at_low_edges() {
    let mut f = Flock::new();
    f.add_boid(0, 200, 300, -1_000, -1_000);
    f.update(0, 0, 0, 0, 0);
    assert_eq!(f.boids[0].position_x, W - 800);
    assert_eq!(f.boids[0].position_y, H - 700);
}

#[test]
fn positions_stay_in_world() {
    let mut f = Flock::new();
    f.add_boid(0, 10, 10, -900_000, -900_000);
    f.add_boid(1, W - 10, H - 10, 900_000, 900_000);
    f.add_boid(2, 800_000, 500_000, 123_456, -654_321);
    for _ in 0..5 {
        f.update(8_000, 2_000, 1_000, 3_000, 3_000);
        for b in &f.boids {
            assert!(0 <= b.position_x && b.position_x < W);
            assert!(0 <= b.position_y && b.position_y < H);
        }
    }
}

#[test]
fn speed_clamped_axis_aligned() {
    // Speed 900 units is rescaled to exactly the maximum, 10 units.
    let mut f = Flock::new();
    f.add_boid(0, 100_000, 100_000, 900_000, 0);
    f.update(0, 0, 0, 0, 0);
    assert_eq!(f.boids[0].position_x, 1_000_000);
    assert_eq!(f.boids[0].velocity_x, 10_000);
    assert_eq!(f.boids[0].velocity_y, 0);
}

#[test]
fn speed_clamped_diagonal() {
    // A 30-40-50 triangle: speed 50 units rescales to (6, 8) units.
    let mut f = Flock::new();
    f.add_boid(0, 100_000, 100_000, 30_000, 40_000);
    f.update(0, 0, 0, 0, 0);
    assert_eq!(f.boids[0].velocity_x, 6_000);
    assert_eq!(f.boids[0].velocity_y, 8_000);
}

#[test]
fn speed_bounded_after_any_update() {
    let mut f = Flock::new();
    f.add_boid(0, 100_000, 100_000, 0, 0);
    f.add_boid(0, 100_100, 100_000, 0, 0);
    f.add_boid(1, 100_000, 100_100, 500_000, -500_000);
    f.add_boid(2, 100_100, 100_100, 0, 0);
    for _ in 0..4 {
        f.update(900_000, 400_000, 200_000, 700_000, 600_000);
        for b in &f.boids {
            let s2 = b.velocity_x * b.velocity_x + b.velocity_y * b.velocity_y;
            assert!(s2 <= 10_000i64 * 10_000);
        }
    }
}

#[test]
fn grid_holds_each_index_exactly_once() {
    let mut f = Flock::new();
    let seeds = [
        (0u32, 5_000i64, 7_000i64),
        (1, 1_000_000, 900_000),
        (2, 1_619_999, 1_079_999),
        (0, 59_999, 60_000),
        (1, 60_000, 59_999),
        (2, 810_000, 540_000),
    ];
    for (hand, x, y) in seeds {
        f.add_boid(hand, x, y, 9_000, -9_000);
    }
    f.update(8_000, 1_000, 1_000, 1_000, 1_000);
    let mut seen: Vec<usize> = Vec::new();
    for bucket in &f.table {
        for &ix in bucket {
            seen.push(ix);
        }
    }
    seen.sort();
    let expect: Vec<usize> = (0..f.count).collect();
    assert_eq!(seen, expect);
    // And every index sits in the bucket of its own cell.
    for (c, bucket) in f.table.iter().enumerate() {
        for &ix in bucket {
            assert_eq!(f.boids[ix].hash, c);
        }
    }
}

#[test]
fn determinism_identical_runs() {
    let build = || {
        let mut f = Flock::new();
        f.add_boid(0, 100_000, 100_000, 1_000, 2_000);
        f.add_boid(1, 120_000, 110_000, -2_000, 1_000);
        f.add_boid(2, 90_000, 130_000, 3_000, -1_000);
        f.add_boid(0, 1_600_000, 20_000, 4_000, 4_000);
        f
    };
    let weights = [
        (8_000i64, 2_000i64, 1_000i64, 5_000i64, 3_000i64),
        (-4_000, 0, 2_000, 0, 7_000),
        (100_000, 100_000, 100_000, 100_000, 100_000),
    ];
    let mut f1 = build();
    let mut f2 = build();
    for (s, c, a, pd, py) in weights {
        f1.update(s, c, a, pd, py);
        f2.update(s, c, a, pd, py);
        assert_eq!(f1.count, f2.count);
        for i in 0..f1.count {
            assert_eq!(f1.boids[i].position_x, f2.boids[i].position_x);
            assert_eq!(f1.boids[i].position_y, f2.boids[i].position_y);
            assert_eq!(f1.boids[i].velocity_x, f2.boids[i].velocity_x);
            assert_eq!(f1.boids[i].velocity_y, f2.boids[i].velocity_y);
            assert_eq!(f1.boids[i].hand, f2.boids[i].hand);
            assert_eq!(f1.boids[i].hash, f2.boids[i].hash);
        }
    }
}

#[test]
fn conversion_prey_near_predator_far() {
    // Hand 1 preys on hand 0. The hand-1 agent sees its prey within the
    // 10-unit conversion range and no predator: it loses the encounter
    // and takes its predator's type, (1 + 2) mod 3 = 0. The hand-0
    // agent sees its predator within range, so it does not convert; its
    // own prey (hand 2) is absent.
    let mut f = Flock::new();
    f.add_boid(1, 500_000, 500_000, 0, 0);
    f.add_boid(0, 505_000, 500_000, 0, 0);
    f.update(0, 0, 0, 0, 0);
    assert_eq!(f.boids[0].hand, 0);
    assert_eq!(f.boids[1].hand, 0);
}

#[test]
fn conversion_blocked_when_both_flags_set() {
    // The hand-1 agent sees prey (hand 0) and a predator (hand 2) both
    // within conversion range: it does not convert. The hand-2 agent
    // sees its prey (hand 1) within range and its predator (hand 0) at
    // exactly 10 units, which is not strictly within range: it converts
    // to (2 + 2) mod 3 = 1. The hand-0 agent's prey (hand 2) is at
    // exactly 10 units too: it keeps its type.
    let mut f = Flock::new();
    f.add_boid(1, 500_000, 500_000, 0, 0);
    f.add_boid(0, 505_000, 500_000, 0, 0);
    f.add_boid(2, 495_000, 500_000, 0, 0);
    f.update(0, 0, 0, 0, 0);
    assert_eq!(f.boids[0].hand, 1);
    assert_eq!(f.boids[1].hand, 0);
    assert_eq!(f.boids[2].hand, 1);
}

#[test]
fn cohesion_pulls_toward_centroid() {
    // Three same-type agents on a line; the outer ones pull the middle
    // one nowhere (centroid at its own position), while separation
    // pushes cancel. With cohesion only, the left agent accelerates
    // rightward toward the centroid of its two neighbors.
    let mut f = Flock::new();
    f.add_boid(0, 490_000, 500_000, 0, 0);
    f.add_boid(0, 500_000, 500_000, 0, 0);
    f.add_boid(0, 510_000, 500_000, 0, 0);
    f.update(0, 1_000, 0, 0, 0);
    // Left agent: neighbors at 500 and 510 units, centroid 505, offset
    // +15 units; weight 1 gives 15 units of acceleration, clamped to
    // the 10-unit speed cap.
    assert_eq!(f.boids[0].velocity_x, 10_000);
    assert_eq!(f.boids[1].velocity_x, 0);
    assert_eq!(f.boids[2].velocity_x, -10_000);
    assert_eq!(f.boids[1].velocity_y, 0);
}

#[test]
fn cohesion_exact_unclamped() {
    // As above with cohesion weight 0.1: the left agent's acceleration
    // is (15 units offset) * 0.1 = 1.5 units, below the speed cap.
    let mut f = Flock::new();
    f.add_boid(0, 490_000, 500_000, 0, 0);
    f.add_boid(0, 500_000, 500_000, 0, 0);
    f.add_boid(0, 510_000, 500_000, 0, 0);
    f.update(0, 100, 0, 0, 0);
    assert_eq!(f.boids[0].velocity_x, 1_500);
    assert_eq!(f.boids[0].velocity_y, 0);
    assert_eq!(f.boids[2].velocity_x, -1_500);
}

#[test]
fn predator_weight_pushes_away() {
    // A hand-0 agent 30 units right of its predator (hand 1) is pushed
    // further right: away from the predator centroid.
    let mut f = Flock::new();
    f.add_boid(0, 530_000, 500_000, 0, 0);
    f.add_boid(1, 500_000, 500_000, 0, 0);
    f.update(0, 0, 0, 5_000, 0);
    // (30 units offset) * weight 5 = 150 units, clamped to the cap.
    assert_eq!(f.boids[0].velocity_x, 10_000);
    // The predator itself is pulled toward its prey only by the prey
    // weight, which is zero here; its predator (hand 2) is absent.
    assert_eq!(f.boids[1].velocity_x, 0);
}

#[test]
fn prey_weight_pulls_toward() {
    // A hand-1 agent 30 units left of its prey (hand 0) accelerates
    // rightward, toward the prey centroid: (30 units) * weight 2 = 60
    // units, clamped to the 10-unit cap.
    let mut f = Flock::new();
    f.add_boid(1, 470_000, 500_000, 0, 0);
    f.add_boid(0, 500_000, 500_000, 0, 0);
    f.update(0, 0, 0, 0, 2_000);
    assert_eq!(f.boids[0].velocity_x, 10_000);
}
