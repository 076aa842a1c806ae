//! The force kernel. For one agent and one candidate list it accumulates,
//! over every in-vision candidate, the separation force (same type,
//! attenuated by squared distance), the same-type position/velocity sums,
//! the prey and predator centroid sums, and the conversion counters, then
//! combines them into one acceleration per the weight set.
//!
//! A lane-masked variant accumulates the separation term for four agents
//! at a time over one pass of the candidate list, multiplying each term by
//! a 0/1 mask instead of branching; it is proved to agree exactly with the
//! scalar accumulation.
use vstd::prelude::*;
use crate::params::{SCALE, WORLD_WIDTH, WORLD_HEIGHT, VISION_RANGE, CONVERT_RANGE, VELOCITY_LIMIT,
    WEIGHT_LIMIT, MAX_AGENTS, Weights, weights_ok, is_prey, is_predator};
use crate::boid::{Boid, boid_ok, dist2, in_vision, in_convert, ACCEL_LIMIT};
use crate::num::{mag, tdiv, div_trunc, lemma_tdiv_bound};

verus! {

/// Bound on the magnitude of one separation term: `SCALE * WEIGHT_LIMIT`.
pub const SEP_TERM_BOUND: i128 = 1_000_000_000_000;

/// Bound on the magnitude of one combined force term (cohesion,
/// alignment, predator avoidance or prey attraction).
pub const COMBINE_TERM_BOUND: i128 = 2_000_000_000_000;

/// The statistics the kernel accumulates for one agent over a candidate
/// list.
pub ghost struct Stats {
    pub sep_x: int,
    pub sep_y: int,
    pub same_px: int,
    pub same_py: int,
    pub same_vx: int,
    pub same_vy: int,
    pub same_cnt: int,
    pub prey_px: int,
    pub prey_py: int,
    pub prey_cnt: int,
    pub pred_px: int,
    pub pred_py: int,
    pub pred_cnt: int,
    pub convp: int,
    pub convd: int,
}

/// All-zero statistics.
pub open spec fn stats_zero() -> Stats {
    Stats {
        sep_x: 0,
        sep_y: 0,
        same_px: 0,
        same_py: 0,
        same_vx: 0,
        same_vy: 0,
        same_cnt: 0,
        prey_px: 0,
        prey_py: 0,
        prey_cnt: 0,
        pred_px: 0,
        pred_py: 0,
        pred_cnt: 0,
        convp: 0,
        convd: 0,
    }
}

/// Fieldwise sum of two statistics.
pub open spec fn stats_add(a: Stats, b: Stats) -> Stats {
    Stats {
        sep_x: a.sep_x + b.sep_x,
        sep_y: a.sep_y + b.sep_y,
        same_px: a.same_px + b.same_px,
        same_py: a.same_py + b.same_py,
        same_vx: a.same_vx + b.same_vx,
        same_vy: a.same_vy + b.same_vy,
        same_cnt: a.same_cnt + b.same_cnt,
        prey_px: a.prey_px + b.prey_px,
        prey_py: a.prey_py + b.prey_py,
        prey_cnt: a.prey_cnt + b.prey_cnt,
        pred_px: a.pred_px + b.pred_px,
        pred_py: a.pred_py + b.pred_py,
        pred_cnt: a.pred_cnt + b.pred_cnt,
        convp: a.convp + b.convp,
        convd: a.convd + b.convd,
    }
}

/// The raw separation quotient along x, before any type or range test:
/// the displacement times the weight, attenuated by the squared distance
/// offset by one to guard the division when the agents coincide.
pub open spec fn sep_quot_x(p: Boid, q: Boid, w: int) -> int {
    tdiv((p.position_x - q.position_x) * SCALE * w, dist2(p, q) + 1)
}

/// The raw separation quotient along y, as `sep_quot_x`.
pub open spec fn sep_quot_y(p: Boid, q: Boid, w: int) -> int {
    tdiv((p.position_y - q.position_y) * SCALE * w, dist2(p, q) + 1)
}

/// One when `q` contributes a same-type separation term to `p`, zero
/// otherwise: the lane mask of the batched kernel.
pub open spec fn sep_mask(p: Boid, q: Boid) -> int {
    if in_vision(p, q) && p.hand == q.hand {
        1
    } else {
        0
    }
}

/// What one candidate adds to the statistics of one agent.
pub open spec fn pair_stats(p: Boid, q: Boid, w: int) -> Stats {
    let same = if in_vision(p, q) && p.hand == q.hand {
        1int
    } else {
        0int
    };
    let prey = if in_vision(p, q) && is_prey(p.hand, q.hand) {
        1int
    } else {
        0int
    };
    let pred = if in_vision(p, q) && is_predator(p.hand, q.hand) {
        1int
    } else {
        0int
    };
    let near = if in_convert(p, q) {
        1int
    } else {
        0int
    };
    Stats {
        sep_x: same * sep_quot_x(p, q, w),
        sep_y: same * sep_quot_y(p, q, w),
        same_px: same * q.position_x,
        same_py: same * q.position_y,
        same_vx: same * q.velocity_x,
        same_vy: same * q.velocity_y,
        same_cnt: same,
        prey_px: prey * q.position_x,
        prey_py: prey * q.position_y,
        prey_cnt: prey,
        pred_px: pred * q.position_x,
        pred_py: pred * q.position_y,
        pred_cnt: pred,
        convp: prey * near,
        convd: pred * near,
    }
}

/// The statistics of agent `i` over a candidate list, skipping the agent
/// itself and any out-of-range entry.
pub open spec fn gather_stats(boids: Seq<Boid>, i: int, cands: Seq<usize>, w: int) -> Stats
    decreases cands.len(),
{
    if cands.len() == 0 {
        stats_zero()
    } else {
        let prev = gather_stats(boids, i, cands.drop_last(), w);
        let j = cands.last() as int;
        if 0 <= i < boids.len() && 0 <= j < boids.len() && j != i {
            stats_add(prev, pair_stats(boids[i], boids[j], w))
        } else {
            prev
        }
    }
}

/// The agent saw prey within conversion range. The counter does not
/// depend on the weight passed to the fold.
pub open spec fn should_convert(boids: Seq<Boid>, i: int, cands: Seq<usize>, w: int) -> bool {
    gather_stats(boids, i, cands, w).convp > 0
}

/// The agent saw a predator within conversion range.
pub open spec fn should_not_convert(boids: Seq<Boid>, i: int, cands: Seq<usize>, w: int) -> bool {
    gather_stats(boids, i, cands, w).convd > 0
}

/// The x acceleration of agent `i`: the separation sum, plus cohesion
/// toward the same-type centroid, alignment with the same-type average
/// velocity attenuated by the neighbor count, a push away from the
/// predator centroid and a pull toward the prey centroid.
pub open spec fn accel_x_spec(boids: Seq<Boid>, i: int, cands: Seq<usize>, w: Weights) -> int {
    let st = gather_stats(boids, i, cands, w.separation as int);
    let px = boids[i].position_x as int;
    st.sep_x + (if st.same_cnt > 0 {
        tdiv((tdiv(st.same_px, st.same_cnt) - px) * w.cohesion, SCALE as int)
    } else {
        0
    }) + (if st.same_cnt > 0 {
        tdiv(tdiv(st.same_vx, st.same_cnt) * w.align, (SCALE as int) * st.same_cnt)
    } else {
        0
    }) + (if st.pred_cnt > 0 {
        tdiv((px - tdiv(st.pred_px, st.pred_cnt)) * w.predator, SCALE as int)
    } else {
        0
    }) + (if st.prey_cnt > 0 {
        tdiv((tdiv(st.prey_px, st.prey_cnt) - px) * w.prey, SCALE as int)
    } else {
        0
    })
}

/// The y acceleration of agent `i`, as `accel_x_spec`.
pub open spec fn accel_y_spec(boids: Seq<Boid>, i: int, cands: Seq<usize>, w: Weights) -> int {
    let st = gather_stats(boids, i, cands, w.separation as int);
    let py = boids[i].position_y as int;
    st.sep_y + (if st.same_cnt > 0 {
        tdiv((tdiv(st.same_py, st.same_cnt) - py) * w.cohesion, SCALE as int)
    } else {
        0
    }) + (if st.same_cnt > 0 {
        tdiv(tdiv(st.same_vy, st.same_cnt) * w.align, (SCALE as int) * st.same_cnt)
    } else {
        0
    }) + (if st.pred_cnt > 0 {
        tdiv((py - tdiv(st.pred_py, st.pred_cnt)) * w.predator, SCALE as int)
    } else {
        0
    }) + (if st.prey_cnt > 0 {
        tdiv((tdiv(st.prey_py, st.prey_cnt) - py) * w.prey, SCALE as int)
    } else {
        0
    })
}

/// The raw separation quotient is bounded by `SCALE * WEIGHT_LIMIT`: the
/// displacement never exceeds the attenuation denominator.
pub proof fn lemma_sep_quot_bound(p: Boid, q: Boid, w: int)
    requires
        -WEIGHT_LIMIT <= w <= WEIGHT_LIMIT,
    ensures
        mag(sep_quot_x(p, q, w)) <= SEP_TERM_BOUND,
        mag(sep_quot_y(p, q, w)) <= SEP_TERM_BOUND,
{
    let dx = p.position_x - q.position_x;
    let dy = p.position_y - q.position_y;
    let d2 = dist2(p, q);
    assert(d2 == dx * dx + dy * dy);
    assert(mag(dx * (SCALE as int) * w) <= (d2 + 1) * ((SCALE as int) * (WEIGHT_LIMIT as int)))
        by (nonlinear_arith)
        requires
            -WEIGHT_LIMIT <= w <= WEIGHT_LIMIT,
            d2 == dx * dx + dy * dy,
    ;
    assert(mag(dy * (SCALE as int) * w) <= (d2 + 1) * ((SCALE as int) * (WEIGHT_LIMIT as int)))
        by (nonlinear_arith)
        requires
            -WEIGHT_LIMIT <= w <= WEIGHT_LIMIT,
            d2 == dx * dx + dy * dy,
    ;
    assert(d2 + 1 > 0) by (nonlinear_arith)
        requires
            d2 == dx * dx + dy * dy,
    ;
    lemma_tdiv_bound(dx * (SCALE as int) * w, d2 + 1, (SCALE as int) * (WEIGHT_LIMIT as int));
    lemma_tdiv_bound(dy * (SCALE as int) * w, d2 + 1, (SCALE as int) * (WEIGHT_LIMIT as int));
}

/// Statistics over a candidate list are bounded linearly in its length,
/// and the sums by their own counters.
pub proof fn lemma_stats_bounds(boids: Seq<Boid>, i: int, cands: Seq<usize>, w: int)
    requires
        -WEIGHT_LIMIT <= w <= WEIGHT_LIMIT,
        forall|k: int| 0 <= k < boids.len() ==> boid_ok(#[trigger] boids[k]),
    ensures
        ({
            let st = gather_stats(boids, i, cands, w);
            &&& mag(st.sep_x) <= cands.len() * SEP_TERM_BOUND
            &&& mag(st.sep_y) <= cands.len() * SEP_TERM_BOUND
            &&& 0 <= st.same_cnt <= cands.len()
            &&& 0 <= st.prey_cnt <= cands.len()
            &&& 0 <= st.pred_cnt <= cands.len()
            &&& 0 <= st.convp <= cands.len()
            &&& 0 <= st.convd <= cands.len()
            &&& 0 <= st.same_px <= st.same_cnt * (WORLD_WIDTH - 1)
            &&& 0 <= st.same_py <= st.same_cnt * (WORLD_HEIGHT - 1)
            &&& 0 <= st.prey_px <= st.prey_cnt * (WORLD_WIDTH - 1)
            &&& 0 <= st.prey_py <= st.prey_cnt * (WORLD_HEIGHT - 1)
            &&& 0 <= st.pred_px <= st.pred_cnt * (WORLD_WIDTH - 1)
            &&& 0 <= st.pred_py <= st.pred_cnt * (WORLD_HEIGHT - 1)
            &&& mag(st.same_vx) <= st.same_cnt * VELOCITY_LIMIT
            &&& mag(st.same_vy) <= st.same_cnt * VELOCITY_LIMIT
        }),
    decreases cands.len(),
{
    if cands.len() > 0 {
        lemma_stats_bounds(boids, i, cands.drop_last(), w);
        let j = cands.last() as int;
        if 0 <= i < boids.len() && 0 <= j < boids.len() && j != i {
            lemma_sep_quot_bound(boids[i], boids[j], w);
        }
    }
}

/// The masked separation accumulation over a candidate list, for the
/// target agent itself included: every candidate's quotient is computed
/// and multiplied by the 0/1 mask.
pub open spec fn sep_masked_x(boids: Seq<Boid>, t: int, cands: Seq<usize>, w: int) -> int
    decreases cands.len(),
{
    if cands.len() == 0 {
        0
    } else {
        sep_masked_x(boids, t, cands.drop_last(), w) + {
            let j = cands.last() as int;
            if 0 <= t < boids.len() && 0 <= j < boids.len() {
                sep_mask(boids[t], boids[j]) * sep_quot_x(boids[t], boids[j], w)
            } else {
                0
            }
        }
    }
}

/// The masked separation accumulation along y, as `sep_masked_x`.
pub open spec fn sep_masked_y(boids: Seq<Boid>, t: int, cands: Seq<usize>, w: int) -> int
    decreases cands.len(),
{
    if cands.len() == 0 {
        0
    } else {
        sep_masked_y(boids, t, cands.drop_last(), w) + {
            let j = cands.last() as int;
            if 0 <= t < boids.len() && 0 <= j < boids.len() {
                sep_mask(boids[t], boids[j]) * sep_quot_y(boids[t], boids[j], w)
            } else {
                0
            }
        }
    }
}

/// Scalar/batched equivalence of the separation term: the masked
/// accumulation, which does not skip the target itself, equals the
/// scalar kernel's separation sum exactly — the target contributes a
/// zero displacement, so its masked term is zero.
pub proof fn lemma_masked_equals_scalar(boids: Seq<Boid>, t: int, cands: Seq<usize>, w: int)
    ensures
        sep_masked_x(boids, t, cands, w) == gather_stats(boids, t, cands, w).sep_x,
        sep_masked_y(boids, t, cands, w) == gather_stats(boids, t, cands, w).sep_y,
    decreases cands.len(),
{
    if cands.len() > 0 {
        lemma_masked_equals_scalar(boids, t, cands.drop_last(), w);
        let j = cands.last() as int;
        if 0 <= t < boids.len() && 0 <= j < boids.len() {
            let p = boids[t];
            let q = boids[j];
            if j == t {
                assert(dist2(p, q) + 1 > 0) by (nonlinear_arith)
                    requires
                        dist2(p, q) == (p.position_x - q.position_x) * (p.position_x
                            - q.position_x) + (p.position_y - q.position_y) * (p.position_y
                            - q.position_y),
                ;
                assert((p.position_x - q.position_x) * SCALE * w == 0) by (nonlinear_arith)
                    requires
                        p.position_x == q.position_x,
                ;
                assert((p.position_y - q.position_y) * SCALE * w == 0) by (nonlinear_arith)
                    requires
                        p.position_y == q.position_y,
                ;
                assert(sep_quot_x(p, q, w) == 0) by {
                    vstd::arithmetic::div_mod::lemma_div_of0(dist2(p, q) + 1);
                }
                assert(sep_quot_y(p, q, w) == 0) by {
                    vstd::arithmetic::div_mod::lemma_div_of0(dist2(p, q) + 1);
                }
            }
        }
    }
}

/// An isolated agent feels nothing: when no candidate other than the
/// agent itself is within vision range, the statistics are all zero and
/// the acceleration is exactly the zero vector, whatever the weights.
pub proof fn lemma_isolated_zero_accel(boids: Seq<Boid>, i: int, cands: Seq<usize>, w: Weights)
    requires
        0 <= i < boids.len(),
        forall|k: int|
            0 <= k < cands.len() && (#[trigger] cands[k]) as int != i && cands[k] < boids.len()
                ==> !in_vision(boids[i], boids[cands[k] as int]),
    ensures
        gather_stats(boids, i, cands, w.separation as int) == stats_zero(),
        accel_x_spec(boids, i, cands, w) == 0,
        accel_y_spec(boids, i, cands, w) == 0,
    decreases cands.len(),
{
    if cands.len() > 0 {
        assert(forall|k: int|
            0 <= k < cands.drop_last().len() ==> cands.drop_last()[k] == cands[k]);
        lemma_isolated_zero_accel(boids, i, cands.drop_last(), w);
        let j = cands.last() as int;
        if 0 <= j < boids.len() && j != i {
            assert(cands[cands.len() - 1] == cands.last());
            assert(!in_vision(boids[i], boids[j]));
        }
    }
}

/// The gathered statistics of one agent, as machine integers.
pub struct Gathered {
    pub sep_x: i128,
    pub sep_y: i128,
    pub same_px: i128,
    pub same_py: i128,
    pub same_vx: i128,
    pub same_vy: i128,
    pub same_cnt: i128,
    pub prey_px: i128,
    pub prey_py: i128,
    pub prey_cnt: i128,
    pub pred_px: i128,
    pub pred_py: i128,
    pub pred_cnt: i128,
    pub convp: i128,
    pub convd: i128,
}

/// The machine statistics agree with the mathematical fold.
pub open spec fn gathered_matches(g: Gathered, st: Stats) -> bool {
    &&& g.sep_x == st.sep_x
    &&& g.sep_y == st.sep_y
    &&& g.same_px == st.same_px
    &&& g.same_py == st.same_py
    &&& g.same_vx == st.same_vx
    &&& g.same_vy == st.same_vy
    &&& g.same_cnt == st.same_cnt
    &&& g.prey_px == st.prey_px
    &&& g.prey_py == st.prey_py
    &&& g.prey_cnt == st.prey_cnt
    &&& g.pred_px == st.pred_px
    &&& g.pred_py == st.pred_py
    &&& g.pred_cnt == st.pred_cnt
    &&& g.convp == st.convp
    &&& g.convd == st.convd
}

/// The raw separation quotient of one pair, along both axes.
fn pair_sep_quot(p: &Boid, q: &Boid, w: i64) -> (t: (i128, i128))
    requires
        boid_ok(*p),
        boid_ok(*q),
        -WEIGHT_LIMIT <= w <= WEIGHT_LIMIT,
    ensures
        t.0 == sep_quot_x(*p, *q, w as int),
        t.1 == sep_quot_y(*p, *q, w as int),
{
    let dx: i64 = p.position_x - q.position_x;
    let dy: i64 = p.position_y - q.position_y;
    proof {
        assert(0 <= (dx as int) * (dx as int) < (WORLD_WIDTH as int) * (WORLD_WIDTH as int))
            by (nonlinear_arith)
            requires
                -WORLD_WIDTH < (dx as int) && (dx as int) < WORLD_WIDTH,
        ;
        assert(0 <= (dy as int) * (dy as int) < (WORLD_WIDTH as int) * (WORLD_WIDTH as int))
            by (nonlinear_arith)
            requires
                -WORLD_WIDTH < (dy as int) && (dy as int) < WORLD_WIDTH,
        ;
    }
    let d2: i64 = dx * dx + dy * dy;
    proof {
        assert(-1_620_000_000_000_000_000 <= (dx as int) * (SCALE as int) * (w as int)
            <= 1_620_000_000_000_000_000) by (nonlinear_arith)
            requires
                -1_620_000 < (dx as int) && (dx as int) < 1_620_000,
                -1_000_000_000 <= (w as int) && (w as int) <= 1_000_000_000,
                SCALE == 1000,
        ;
        assert(-1_620_000_000_000_000_000 <= (dy as int) * (SCALE as int) * (w as int)
            <= 1_620_000_000_000_000_000) by (nonlinear_arith)
            requires
                -1_620_000 < (dy as int) && (dy as int) < 1_620_000,
                -1_000_000_000 <= (w as int) && (w as int) <= 1_000_000_000,
                SCALE == 1000,
        ;
    }
    let nx: i128 = (dx as i128) * (SCALE as i128) * (w as i128);
    let ny: i128 = (dy as i128) * (SCALE as i128) * (w as i128);
    let tx: i128 = div_trunc(nx, (d2 as i128) + 1);
    let ty: i128 = div_trunc(ny, (d2 as i128) + 1);
    (tx, ty)
}

/// Accumulate the statistics of agent `i` over the candidate list: the
/// scalar inner loop of the kernel.
pub fn gather_forces(boids: &Vec<Boid>, i: usize, cands: &Vec<usize>, separation_weight: i64) -> (g:
    Gathered)
    requires
        i < boids@.len(),
        boids@.len() <= MAX_AGENTS,
        cands@.len() <= 9 * MAX_AGENTS,
        forall|k: int| 0 <= k < boids@.len() ==> boid_ok(#[trigger] boids@[k]),
        forall|k: int| 0 <= k < cands@.len() ==> (#[trigger] cands@[k]) < boids@.len(),
        -WEIGHT_LIMIT <= separation_weight <= WEIGHT_LIMIT,
    ensures
        gathered_matches(g, gather_stats(boids@, i as int, cands@, separation_weight as int)),
{
    let ghost w = separation_weight as int;
    let mut g = Gathered {
        sep_x: 0,
        sep_y: 0,
        same_px: 0,
        same_py: 0,
        same_vx: 0,
        same_vy: 0,
        same_cnt: 0,
        prey_px: 0,
        prey_py: 0,
        prey_cnt: 0,
        pred_px: 0,
        pred_py: 0,
        pred_cnt: 0,
        convp: 0,
        convd: 0,
    };
    let mut k: usize = 0;
    while k < cands.len()
        invariant
            k <= cands@.len(),
            gathered_matches(g, gather_stats(boids@, i as int, cands@.take(k as int), w)),
        decreases cands@.len() - k,
    {
        proof {
            lemma_stats_bounds(boids@, i as int, cands@.take(k as int), w);
            assert(cands@.take(k as int + 1).drop_last() =~= cands@.take(k as int));
            assert(cands@.take(k as int + 1).last() == cands@[k as int]);
        }
        let j = cands[k];
        if j != i {
            let p = boids[i];
            let q = boids[j];
            proof {
                lemma_sep_quot_bound(p, q, w);
            }
            let dx: i64 = p.position_x - q.position_x;
            let dy: i64 = p.position_y - q.position_y;
            proof {
                assert(0 <= (dx as int) * (dx as int) < (WORLD_WIDTH as int) * (WORLD_WIDTH as int))
                    by (nonlinear_arith)
                    requires
                        -WORLD_WIDTH < (dx as int) && (dx as int) < WORLD_WIDTH,
                ;
                assert(0 <= (dy as int) * (dy as int) < (WORLD_WIDTH as int) * (WORLD_WIDTH as int))
                    by (nonlinear_arith)
                    requires
                        -WORLD_WIDTH < (dy as int) && (dy as int) < WORLD_WIDTH,
                ;
            }
            let d2: i64 = dx * dx + dy * dy;
            if d2 < VISION_RANGE * VISION_RANGE {
                if p.hand == q.hand {
                    let t = pair_sep_quot(&p, &q, separation_weight);
                    g.sep_x = g.sep_x + t.0;
                    g.sep_y = g.sep_y + t.1;
                    g.same_px = g.same_px + (q.position_x as i128);
                    g.same_py = g.same_py + (q.position_y as i128);
                    g.same_vx = g.same_vx + (q.velocity_x as i128);
                    g.same_vy = g.same_vy + (q.velocity_y as i128);
                    g.same_cnt = g.same_cnt + 1;
                } else if p.hand == (q.hand + 1) % 3 {
                    g.prey_px = g.prey_px + (q.position_x as i128);
                    g.prey_py = g.prey_py + (q.position_y as i128);
                    g.prey_cnt = g.prey_cnt + 1;
                    if d2 < CONVERT_RANGE * CONVERT_RANGE {
                        g.convp = g.convp + 1;
                    }
                } else {
                    proof {
                        assert(is_predator(p.hand, q.hand)) by {
                            assert(p.hand < 3 && q.hand < 3);
                        }
                    }
                    g.pred_px = g.pred_px + (q.position_x as i128);
                    g.pred_py = g.pred_py + (q.position_y as i128);
                    g.pred_cnt = g.pred_cnt + 1;
                    if d2 < CONVERT_RANGE * CONVERT_RANGE {
                        g.convd = g.convd + 1;
                    }
                }
            }
        }
        k = k + 1;
    }
    proof {
        assert(cands@.take(cands@.len() as int) =~= cands@);
    }
    g
}

/// The scalar force kernel: gather the statistics of agent `i`, then
/// combine them into one acceleration and the two conversion flags.
pub fn scalar_forces(boids: &Vec<Boid>, i: usize, cands: &Vec<usize>, w: Weights) -> (r: (
    i128,
    i128,
    bool,
    bool,
))
    requires
        i < boids@.len(),
        boids@.len() <= MAX_AGENTS,
        cands@.len() <= 9 * MAX_AGENTS,
        forall|k: int| 0 <= k < boids@.len() ==> boid_ok(#[trigger] boids@[k]),
        forall|k: int| 0 <= k < cands@.len() ==> (#[trigger] cands@[k]) < boids@.len(),
        weights_ok(w),
    ensures
        r.0 == accel_x_spec(boids@, i as int, cands@, w),
        r.1 == accel_y_spec(boids@, i as int, cands@, w),
        r.2 == should_convert(boids@, i as int, cands@, w.separation as int),
        r.3 == should_not_convert(boids@, i as int, cands@, w.separation as int),
        -ACCEL_LIMIT <= r.0 <= ACCEL_LIMIT,
        -ACCEL_LIMIT <= r.1 <= ACCEL_LIMIT,
{
    let g = gather_forces(boids, i, cands, w.separation);
    proof {
        lemma_stats_bounds(boids@, i as int, cands@, w.separation as int);
    }
    let p = boids[i];
    let mut ax: i128 = g.sep_x;
    let mut ay: i128 = g.sep_y;
    if g.same_cnt > 0 {
        let avg_px = div_trunc(g.same_px, g.same_cnt);
        let avg_py = div_trunc(g.same_py, g.same_cnt);
        proof {
            lemma_tdiv_bound(g.same_px as int, g.same_cnt as int, (WORLD_WIDTH - 1) as int);
            lemma_tdiv_bound(g.same_py as int, g.same_cnt as int, (WORLD_HEIGHT - 1) as int);
            lemma_div_nonneg(g.same_px as int, g.same_cnt as int);
            lemma_div_nonneg(g.same_py as int, g.same_cnt as int);
        }
        let dcx: i128 = avg_px - (p.position_x as i128);
        let dcy: i128 = avg_py - (p.position_y as i128);
        proof {
            lemma_combine_num_bound(dcx as int, w.cohesion as int);
            lemma_combine_num_bound(dcy as int, w.cohesion as int);
        }
        let coh_x = div_trunc(dcx * (w.cohesion as i128), SCALE as i128);
        let coh_y = div_trunc(dcy * (w.cohesion as i128), SCALE as i128);
        ax = ax + coh_x;
        ay = ay + coh_y;
        let avg_vx = div_trunc(g.same_vx, g.same_cnt);
        let avg_vy = div_trunc(g.same_vy, g.same_cnt);
        proof {
            lemma_tdiv_bound(g.same_vx as int, g.same_cnt as int, VELOCITY_LIMIT as int);
            lemma_tdiv_bound(g.same_vy as int, g.same_cnt as int, VELOCITY_LIMIT as int);
            assert(-2_000_000_000_000_000 <= (avg_vx as int) * (w.align as int)
                <= 2_000_000_000_000_000) by (nonlinear_arith)
                requires
                    -1_000_000 <= (avg_vx as int) && (avg_vx as int) <= 1_000_000,
                    -1_000_000_000 <= (w.align as int) && (w.align as int) <= 1_000_000_000,
            ;
            assert(-2_000_000_000_000_000 <= (avg_vy as int) * (w.align as int)
                <= 2_000_000_000_000_000) by (nonlinear_arith)
                requires
                    -1_000_000 <= (avg_vy as int) && (avg_vy as int) <= 1_000_000,
                    -1_000_000_000 <= (w.align as int) && (w.align as int) <= 1_000_000_000,
            ;
        }
        let den: i128 = (SCALE as i128) * g.same_cnt;
        let nax: i128 = avg_vx * (w.align as i128);
        let nay: i128 = avg_vy * (w.align as i128);
        proof {
            assert(-(den as int) * (COMBINE_TERM_BOUND as int) <= nax as int <= (den as int) * (
            COMBINE_TERM_BOUND as int)) by (nonlinear_arith)
                requires
                    den as int >= 1000,
                    COMBINE_TERM_BOUND == 2_000_000_000_000,
                    -2_000_000_000_000_000 <= (nax as int) && (nax as int) <= 2_000_000_000_000_000,
            ;
            assert(-(den as int) * (COMBINE_TERM_BOUND as int) <= nay as int <= (den as int) * (
            COMBINE_TERM_BOUND as int)) by (nonlinear_arith)
                requires
                    den as int >= 1000,
                    COMBINE_TERM_BOUND == 2_000_000_000_000,
                    -2_000_000_000_000_000 <= (nay as int) && (nay as int) <= 2_000_000_000_000_000,
            ;
            lemma_tdiv_bound(nax as int, den as int, COMBINE_TERM_BOUND as int);
            lemma_tdiv_bound(nay as int, den as int, COMBINE_TERM_BOUND as int);
        }
        let ali_x = div_trunc(nax, den);
        let ali_y = div_trunc(nay, den);
        ax = ax + ali_x;
        ay = ay + ali_y;
    }
    if g.pred_cnt > 0 {
        let avg_px = div_trunc(g.pred_px, g.pred_cnt);
        let avg_py = div_trunc(g.pred_py, g.pred_cnt);
        proof {
            lemma_tdiv_bound(g.pred_px as int, g.pred_cnt as int, (WORLD_WIDTH - 1) as int);
            lemma_tdiv_bound(g.pred_py as int, g.pred_cnt as int, (WORLD_HEIGHT - 1) as int);
            lemma_div_nonneg(g.pred_px as int, g.pred_cnt as int);
            lemma_div_nonneg(g.pred_py as int, g.pred_cnt as int);
        }
        let dpx: i128 = (p.position_x as i128) - avg_px;
        let dpy: i128 = (p.position_y as i128) - avg_py;
        proof {
            lemma_combine_num_bound(dpx as int, w.predator as int);
            lemma_combine_num_bound(dpy as int, w.predator as int);
        }
        let t_x = div_trunc(dpx * (w.predator as i128), SCALE as i128);
        let t_y = div_trunc(dpy * (w.predator as i128), SCALE as i128);
        ax = ax + t_x;
        ay = ay + t_y;
    }
    if g.prey_cnt > 0 {
        let avg_px = div_trunc(g.prey_px, g.prey_cnt);
        let avg_py = div_trunc(g.prey_py, g.prey_cnt);
        proof {
            lemma_tdiv_bound(g.prey_px as int, g.prey_cnt as int, (WORLD_WIDTH - 1) as int);
            lemma_tdiv_bound(g.prey_py as int, g.prey_cnt as int, (WORLD_HEIGHT - 1) as int);
            lemma_div_nonneg(g.prey_px as int, g.prey_cnt as int);
            lemma_div_nonneg(g.prey_py as int, g.prey_cnt as int);
        }
        let dyx: i128 = avg_px - (p.position_x as i128);
        let dyy: i128 = avg_py - (p.position_y as i128);
        proof {
            lemma_combine_num_bound(dyx as int, w.prey as int);
            lemma_combine_num_bound(dyy as int, w.prey as int);
        }
        let t_x = div_trunc(dyx * (w.prey as i128), SCALE as i128);
        let t_y = div_trunc(dyy * (w.prey as i128), SCALE as i128);
        ax = ax + t_x;
        ay = ay + t_y;
    }
    (ax, ay, g.convp > 0, g.convd > 0)
}

/// A truncating quotient of a nonnegative numerator is nonnegative.
pub proof fn lemma_div_nonneg(n: int, d: int)
    requires
        n >= 0,
        d > 0,
    ensures
        tdiv(n, d) >= 0,
{
    vstd::arithmetic::div_mod::lemma_div_pos_is_pos(n, d);
}

/// A centroid offset times a weight stays within `SCALE` times the
/// combined-term bound.
pub proof fn lemma_combine_num_bound(diff: int, w: int)
    requires
        -WORLD_WIDTH < diff < WORLD_WIDTH,
        -WEIGHT_LIMIT <= w <= WEIGHT_LIMIT,
    ensures
        -(SCALE as int) * (COMBINE_TERM_BOUND as int) <= diff * w <= (SCALE as int) * (
        COMBINE_TERM_BOUND as int),
        -(COMBINE_TERM_BOUND as int) <= tdiv(diff * w, SCALE as int) <= COMBINE_TERM_BOUND as int,
{
    assert(-2_000_000_000_000_000 <= diff * w <= 2_000_000_000_000_000) by (nonlinear_arith)
        requires
            -1_620_000 < diff && diff < 1_620_000,
            -1_000_000_000 <= w && w <= 1_000_000_000,
    ;
    lemma_tdiv_bound(diff * w, SCALE as int, COMBINE_TERM_BOUND as int);
}

/// One lane of the masked separation accumulation: agent `ti` against the
/// whole candidate list, each term multiplied by its 0/1 mask.
fn masked_lane(boids: &Vec<Boid>, ti: usize, cands: &Vec<usize>, separation_weight: i64) -> (r: (
    i128,
    i128,
))
    requires
        ti < boids@.len(),
        boids@.len() <= MAX_AGENTS,
        cands@.len() <= 9 * MAX_AGENTS,
        forall|k: int| 0 <= k < boids@.len() ==> boid_ok(#[trigger] boids@[k]),
        forall|k: int| 0 <= k < cands@.len() ==> (#[trigger] cands@[k]) < boids@.len(),
        -WEIGHT_LIMIT <= separation_weight <= WEIGHT_LIMIT,
    ensures
        r.0 == sep_masked_x(boids@, ti as int, cands@, separation_weight as int),
        r.1 == sep_masked_y(boids@, ti as int, cands@, separation_weight as int),
{
    let ghost w = separation_weight as int;
    let p = boids[ti];
    let mut ax: i128 = 0;
    let mut ay: i128 = 0;
    let mut k: usize = 0;
    while k < cands.len()
        invariant
            k <= cands@.len(),
            ax == sep_masked_x(boids@, ti as int, cands@.take(k as int), w),
            ay == sep_masked_y(boids@, ti as int, cands@.take(k as int), w),
            -(k as int) * SEP_TERM_BOUND <= ax <= (k as int) * SEP_TERM_BOUND,
            -(k as int) * SEP_TERM_BOUND <= ay <= (k as int) * SEP_TERM_BOUND,
        decreases cands@.len() - k,
    {
        proof {
            assert(cands@.take(k as int + 1).drop_last() =~= cands@.take(k as int));
            assert(cands@.take(k as int + 1).last() == cands@[k as int]);
        }
        let q = boids[cands[k]];
        let t = lane_term(&p, &q, separation_weight);
        ax = ax + t.0;
        ay = ay + t.1;
        k = k + 1;
    }
    proof {
        assert(cands@.take(cands@.len() as int) =~= cands@);
    }
    (ax, ay)
}

/// The batched separation kernel: process the target agents four at a
/// time, one pass of the candidate list per group, accumulating the
/// masked separation term in four lanes; a scalar remainder loop handles
/// a trailing group smaller than four. Each lane's result equals the
/// masked accumulation, and so the scalar kernel's separation sum
/// exactly.
pub fn separation_batched(
    boids: &Vec<Boid>,
    targets: &Vec<usize>,
    cands: &Vec<usize>,
    separation_weight: i64,
) -> (out: (Vec<i128>, Vec<i128>))
    requires
        boids@.len() <= MAX_AGENTS,
        targets@.len() <= MAX_AGENTS,
        cands@.len() <= 9 * MAX_AGENTS,
        forall|k: int| 0 <= k < boids@.len() ==> boid_ok(#[trigger] boids@[k]),
        forall|k: int| 0 <= k < targets@.len() ==> (#[trigger] targets@[k]) < boids@.len(),
        forall|k: int| 0 <= k < cands@.len() ==> (#[trigger] cands@[k]) < boids@.len(),
        -WEIGHT_LIMIT <= separation_weight <= WEIGHT_LIMIT,
    ensures
        out.0@.len() == targets@.len(),
        out.1@.len() == targets@.len(),
        forall|k: int|
            0 <= k < targets@.len() ==> (#[trigger] out.0@[k]) == sep_masked_x(
                boids@,
                targets@[k] as int,
                cands@,
                separation_weight as int,
            ) && out.0@[k] == gather_stats(
                boids@,
                targets@[k] as int,
                cands@,
                separation_weight as int,
            ).sep_x,
        forall|k: int|
            0 <= k < targets@.len() ==> (#[trigger] out.1@[k]) == sep_masked_y(
                boids@,
                targets@[k] as int,
                cands@,
                separation_weight as int,
            ) && out.1@[k] == gather_stats(
                boids@,
                targets@[k] as int,
                cands@,
                separation_weight as int,
            ).sep_y,
{
    let ghost w = separation_weight as int;
    let mut outx: Vec<i128> = Vec::new();
    let mut outy: Vec<i128> = Vec::new();
    let mut t: usize = 0;
    while t + 4 <= targets.len()
        invariant
            t <= targets@.len(),
            outx@.len() == t,
            outy@.len() == t,
            forall|k: int|
                0 <= k < t ==> (#[trigger] outx@[k]) == sep_masked_x(
                    boids@,
                    targets@[k] as int,
                    cands@,
                    w,
                ),
            forall|k: int|
                0 <= k < t ==> (#[trigger] outy@[k]) == sep_masked_y(
                    boids@,
                    targets@[k] as int,
                    cands@,
                    w,
                ),
        decreases targets@.len() - t,
    {
        let i0 = targets[t];
        let i1 = targets[t + 1];
        let i2 = targets[t + 2];
        let i3 = targets[t + 3];
        let p0 = boids[i0];
        let p1 = boids[i1];
        let p2 = boids[i2];
        let p3 = boids[i3];
        let mut ax0: i128 = 0;
        let mut ay0: i128 = 0;
        let mut ax1: i128 = 0;
        let mut ay1: i128 = 0;
        let mut ax2: i128 = 0;
        let mut ay2: i128 = 0;
        let mut ax3: i128 = 0;
        let mut ay3: i128 = 0;
        let mut k: usize = 0;
        while k < cands.len()
            invariant
                k <= cands@.len(),
                i0 == targets@[t as int] < boids@.len(),
                i1 == targets@[t as int + 1] < boids@.len(),
                i2 == targets@[t as int + 2] < boids@.len(),
                i3 == targets@[t as int + 3] < boids@.len(),
                t + 4 <= targets@.len(),
                p0 == boids@[i0 as int],
                p1 == boids@[i1 as int],
                p2 == boids@[i2 as int],
                p3 == boids@[i3 as int],
                ax0 == sep_masked_x(boids@, i0 as int, cands@.take(k as int), w),
                ay0 == sep_masked_y(boids@, i0 as int, cands@.take(k as int), w),
                ax1 == sep_masked_x(boids@, i1 as int, cands@.take(k as int), w),
                ay1 == sep_masked_y(boids@, i1 as int, cands@.take(k as int), w),
                ax2 == sep_masked_x(boids@, i2 as int, cands@.take(k as int), w),
                ay2 == sep_masked_y(boids@, i2 as int, cands@.take(k as int), w),
                ax3 == sep_masked_x(boids@, i3 as int, cands@.take(k as int), w),
                ay3 == sep_masked_y(boids@, i3 as int, cands@.take(k as int), w),
                -(k as int) * SEP_TERM_BOUND <= ax0 <= (k as int) * SEP_TERM_BOUND,
                -(k as int) * SEP_TERM_BOUND <= ay0 <= (k as int) * SEP_TERM_BOUND,
                -(k as int) * SEP_TERM_BOUND <= ax1 <= (k as int) * SEP_TERM_BOUND,
                -(k as int) * SEP_TERM_BOUND <= ay1 <= (k as int) * SEP_TERM_BOUND,
                -(k as int) * SEP_TERM_BOUND <= ax2 <= (k as int) * SEP_TERM_BOUND,
                -(k as int) * SEP_TERM_BOUND <= ay2 <= (k as int) * SEP_TERM_BOUND,
                -(k as int) * SEP_TERM_BOUND <= ax3 <= (k as int) * SEP_TERM_BOUND,
                -(k as int) * SEP_TERM_BOUND <= ay3 <= (k as int) * SEP_TERM_BOUND,
            decreases cands@.len() - k,
        {
            proof {
                assert(cands@.take(k as int + 1).drop_last() =~= cands@.take(k as int));
                assert(cands@.take(k as int + 1).last() == cands@[k as int]);
            }
            let q = boids[cands[k]];
            let t0 = lane_term(&p0, &q, separation_weight);
            let t1 = lane_term(&p1, &q, separation_weight);
            let t2 = lane_term(&p2, &q, separation_weight);
            let t3 = lane_term(&p3, &q, separation_weight);
            ax0 = ax0 + t0.0;
            ay0 = ay0 + t0.1;
            ax1 = ax1 + t1.0;
            ay1 = ay1 + t1.1;
            ax2 = ax2 + t2.0;
            ay2 = ay2 + t2.1;
            ax3 = ax3 + t3.0;
            ay3 = ay3 + t3.1;
            k = k + 1;
        }
        proof {
            assert(cands@.take(cands@.len() as int) =~= cands@);
        }
        outx.push(ax0);
        outy.push(ay0);
        outx.push(ax1);
        outy.push(ay1);
        outx.push(ax2);
        outy.push(ay2);
        outx.push(ax3);
        outy.push(ay3);
        t = t + 4;
    }
    while t < targets.len()
        invariant
            t <= targets@.len(),
            outx@.len() == t,
            outy@.len() == t,
            forall|k: int|
                0 <= k < t ==> (#[trigger] outx@[k]) == sep_masked_x(
                    boids@,
                    targets@[k] as int,
                    cands@,
                    w,
                ),
            forall|k: int|
                0 <= k < t ==> (#[trigger] outy@[k]) == sep_masked_y(
                    boids@,
                    targets@[k] as int,
                    cands@,
                    w,
                ),
        decreases targets@.len() - t,
    {
        let r = masked_lane(boids, targets[t], cands, separation_weight);
        outx.push(r.0);
        outy.push(r.1);
        t = t + 1;
    }
    proof {
        assert forall|k: int| 0 <= k < targets@.len() implies (#[trigger] outx@[k]) == sep_masked_x(
            boids@,
            targets@[k] as int,
            cands@,
            w,
        ) && outx@[k] == gather_stats(boids@, targets@[k] as int, cands@, w).sep_x by {
            lemma_masked_equals_scalar(boids@, targets@[k] as int, cands@, w);
        }
        assert forall|k: int| 0 <= k < targets@.len() implies (#[trigger] outy@[k]) == sep_masked_y(
            boids@,
            targets@[k] as int,
            cands@,
            w,
        ) && outy@[k] == gather_stats(boids@, targets@[k] as int, cands@, w).sep_y by {
            lemma_masked_equals_scalar(boids@, targets@[k] as int, cands@, w);
        }
    }
    (outx, outy)
}

/// One masked lane term: the raw quotient of the pair times the 0/1
/// type-and-range mask.
fn lane_term(p: &Boid, q: &Boid, separation_weight: i64) -> (r: (i128, i128))
    requires
        boid_ok(*p),
        boid_ok(*q),
        -WEIGHT_LIMIT <= separation_weight <= WEIGHT_LIMIT,
    ensures
        r.0 == sep_mask(*p, *q) * sep_quot_x(*p, *q, separation_weight as int),
        r.1 == sep_mask(*p, *q) * sep_quot_y(*p, *q, separation_weight as int),
        -SEP_TERM_BOUND <= r.0 <= SEP_TERM_BOUND,
        -SEP_TERM_BOUND <= r.1 <= SEP_TERM_BOUND,
{
    proof {
        lemma_sep_quot_bound(*p, *q, separation_weight as int);
    }
    let t = pair_sep_quot(p, q, separation_weight);
    let dx: i64 = p.position_x - q.position_x;
    let dy: i64 = p.position_y - q.position_y;
    proof {
        assert(0 <= (dx as int) * (dx as int) < (WORLD_WIDTH as int) * (WORLD_WIDTH as int))
            by (nonlinear_arith)
            requires
                -WORLD_WIDTH < (dx as int) && (dx as int) < WORLD_WIDTH,
        ;
        assert(0 <= (dy as int) * (dy as int) < (WORLD_WIDTH as int) * (WORLD_WIDTH as int))
            by (nonlinear_arith)
            requires
                -WORLD_WIDTH < (dy as int) && (dy as int) < WORLD_WIDTH,
        ;
    }
    let d2: i64 = dx * dx + dy * dy;
    let m: i128 = if p.hand == q.hand && d2 < VISION_RANGE * VISION_RANGE {
        1
    } else {
        0
    };
    proof {
        if m == 1 {
            assert(m * t.0 == t.0);
            assert(m * t.1 == t.1);
        } else {
            assert(m * t.0 == 0);
            assert(m * t.1 == 0);
        }
    }
    (m * t.0, m * t.1)
}

} // verus!
