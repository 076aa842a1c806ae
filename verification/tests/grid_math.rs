// The numeric helpers, the toroidal neighbor enumeration (including
// degenerate one-cell-wide grids), and scalar/batched kernel agreement.
use boids::Boid;
use boids::boid::cell_of;
use boids::grid::neighbor_cells;
use boids::kernel::{scalar_forces, separation_batched};
use boids::num::{div_trunc, sqrt_ceil, wrap_coord};
use boids::params::Weights;

#[test]
fn cell_of_formula() {
    assert_eq!(cell_of(0, 0), 0);
    assert_eq!(cell_of(59_999, 0), 0);
    assert_eq!(cell_of(60_000, 0), 1);
    assert_eq!(cell_of(0, 60_000), 27);
    assert_eq!(cell_of(1_619_999, 1_079_999), 26 + 27 * 17);
}

#[test]
fn div_trunc_rounds_toward_zero() {
    assert_eq!(div_trunc(7, 2), 3);
    assert_eq!(div_trunc(-7, 2), -3);
    assert_eq!(div_trunc(0, 5), 0);
    assert_eq!(div_trunc(-1, 1_000_000), 0);
}

#[test]
fn sqrt_ceil_values() {
    assert_eq!(sqrt_ceil(0), 0);
    assert_eq!(sqrt_ceil(1), 1);
    assert_eq!(sqrt_ceil(2), 2);
    assert_eq!(sqrt_ceil(4), 2);
    assert_eq!(sqrt_ceil(5), 3);
    assert_eq!(sqrt_ceil(2_500_000_000), 50_000);
    assert_eq!(sqrt_ceil(2_500_000_001), 50_001);
}

#[test]
fn wrap_coord_values() {
    assert_eq!(wrap_coord(-800, 1_620_000), 1_619_200);
    assert_eq!(wrap_coord(500, 1_620_000), 500);
    assert_eq!(wrap_coord(1_620_500, 1_620_000), 500);
    assert_eq!(wrap_coord(0, 1_620_000), 0);
    assert_eq!(wrap_coord(1_619_999, 1_620_000), 1_619_999);
}

#[test]
fn neighbors_interior_cell() {
    // Cell (1, 1) of the full grid: all nine distinct neighbors.
    let cell = 1 + 27 * 1;
    let mut r = neighbor_cells(cell, 27, 18);
    r.sort();
    let mut expect = vec![
        0,
        1,
        2,
        27,
        28,
        29,
        54,
        55,
        56,
    ];
    expect.sort();
    assert_eq!(r, expect);
}

#[test]
fn neighbors_wrap_corner() {
    // Cell (0, 0): wraps to the far column and the far row.
    let mut r = neighbor_cells(0, 27, 18);
    r.sort();
    let cols = [26, 0, 1];
    let rows = [17, 0, 1];
    let mut expect: Vec<usize> = Vec::new();
    for row in rows {
        for col in cols {
            expect.push(col + 27 * row);
        }
    }
    expect.sort();
    assert_eq!(r, expect);
}

#[test]
fn neighbors_degenerate_single_cell() {
    // A one-by-one grid: the wrapped neighbors coincide with the cell
    // itself and are not visited twice.
    let r = neighbor_cells(0, 1, 1);
    assert_eq!(r, vec![0]);
}

#[test]
fn neighbors_degenerate_two_wide() {
    // A two-column grid: minus-one and plus-one neighbors coincide and
    // are listed once.
    let mut r = neighbor_cells(0, 2, 3);
    r.sort();
    assert_eq!(r, vec![0, 1, 2, 3, 4, 5]);
    let r1 = neighbor_cells(0, 1, 2);
    let mut r1 = r1;
    r1.sort();
    assert_eq!(r1, vec![0, 1]);
}

#[test]
fn wrap_edge_agents_are_mutual_candidates() {
    // Two agents near opposite vertical edges are 0.2 units apart
    // around the torus: each one's nine-cell neighborhood covers the
    // other's cell.
    let a = Boid::new(0, 100, 500_000, 0, 0);
    let b = Boid::new(1, 1_619_900, 500_000, 0, 0);
    let na = neighbor_cells(a.hash, 27, 18);
    let nb = neighbor_cells(b.hash, 27, 18);
    assert!(na.contains(&b.hash));
    assert!(nb.contains(&a.hash));
}

#[test]
fn scalar_and_batched_separation_agree() {
    // Eleven agents of mixed types: the group-of-four lanes and the
    // scalar remainder must both reproduce the scalar kernel's
    // separation sum exactly, for every agent.
    let mut boids: Vec<Boid> = Vec::new();
    let spots: [(u32, i64, i64); 11] = [
        (0, 500_000, 500_000),
        (0, 501_000, 500_500),
        (1, 502_000, 499_500),
        (0, 500_300, 500_200),
        (2, 499_000, 500_000),
        (0, 503_000, 503_000),
        (1, 500_050, 500_050),
        (2, 560_000, 500_000),
        (0, 500_000, 560_000),
        (0, 499_999, 499_999),
        (1, 500_001, 500_001),
    ];
    for (hand, x, y) in spots {
        boids.push(Boid::new(hand, x, y, 0, 0));
    }
    let n = boids.len();
    let targets: Vec<usize> = (0..n).collect();
    let cands: Vec<usize> = (0..n).collect();
    let w = 8_000i64;
    let (bx, by) = separation_batched(&boids, &targets, &cands, w);
    let weights = Weights { separation: w, cohesion: 0, align: 0, predator: 0, prey: 0 };
    for i in 0..n {
        let r = scalar_forces(&boids, i, &cands, weights);
        assert_eq!(bx[i], r.0);
        assert_eq!(by[i], r.1);
    }
}

#[test]
fn separation_batched_exact_value() {
    // Two same-type agents one unit apart: the masked lane computes
    // 1000 * 1000 * 8000 / (1_000_000 + 1) = 7999 away from the other.
    let boids = vec![
        Boid::new(0, 100_000, 100_000, 0, 0),
        Boid::new(0, 101_000, 100_000, 0, 0),
    ];
    let targets = vec![0usize, 1];
    let cands = vec![0usize, 1];
    let (bx, by) = separation_batched(&boids, &targets, &cands, 8_000);
    assert_eq!(bx[0], -7_999);
    assert_eq!(bx[1], 7_999);
    assert_eq!(by[0], 0);
    assert_eq!(by[1], 0);
}
