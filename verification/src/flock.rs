//! The simulation: the agent collection and the spatial grid, with the
//! setup-phase `add_boid`, the per-frame `update`, and `render`.
//!
//! `update` is snapshot-then-mutate: every acceleration and conversion
//! flag is computed from the pre-frame agents and grid, and only then is
//! every agent integrated and the grid rebuilt, so the step is
//! frame-order independent and one `update` is a pure function of the
//! previous state (the per-agent relation `step_ok`).
use vstd::prelude::*;
use crate::params::{WORLD_WIDTH, WORLD_HEIGHT, MAX_SPEED, GRID_COLS, GRID_ROWS, GRID_CELLS,
    VELOCITY_LIMIT, WEIGHT_LIMIT, MAX_AGENTS, Weights, weights_ok, converted_hand};
use crate::boid::{Boid, boid_ok, cell_index, speed2, clamped_x, clamped_y, ACCEL_LIMIT};
use crate::num::wrap_spec;
use crate::grid::{grid_ok, bucket_of, candidates, cands_from, neighbor_cells, rebuild,
    lemma_cands_valid, lemma_cands_len, lemma_grid_partition};
use crate::kernel::{accel_x_spec, accel_y_spec, should_convert, should_not_convert, scalar_forces};

verus! {

/// The full simulation state: the agents and the grid of buckets.
pub struct Flock {
    pub count: usize,
    pub boids: Vec<Boid>,
    pub table: Vec<Vec<usize>>,
}

/// The relation of one agent's next state to the pre-frame snapshot:
/// position moved by the old velocity and wrapped, cell rehashed,
/// velocity accelerated then clamped, and the type tag converted exactly
/// when prey was in conversion range and no predator was.
pub open spec fn step_ok(
    boids: Seq<Boid>,
    table: Seq<Vec<usize>>,
    i: int,
    w: Weights,
    b: Boid,
) -> bool {
    let p = boids[i];
    let cands = candidates(table, p.hash);
    let ax = accel_x_spec(boids, i, cands, w);
    let ay = accel_y_spec(boids, i, cands, w);
    let nvx = p.velocity_x + ax;
    let nvy = p.velocity_y + ay;
    &&& b.position_x == wrap_spec(p.position_x + p.velocity_x, WORLD_WIDTH as int)
    &&& b.position_y == wrap_spec(p.position_y + p.velocity_y, WORLD_HEIGHT as int)
    &&& b.hash == cell_index(b.position_x as int, b.position_y as int)
    &&& b.velocity_x == clamped_x(nvx, nvy)
    &&& b.velocity_y == clamped_y(nvx, nvy)
    &&& b.hand == (if should_convert(boids, i, cands, w.separation as int) && !should_not_convert(
        boids,
        i,
        cands,
        w.separation as int,
    ) {
        converted_hand(p.hand)
    } else {
        p.hand
    })
}

impl Flock {
    /// Well-formedness: the count matches the agent list, every agent is
    /// in range with a current cell index, and the grid is exactly the
    /// bucket partition of the agents.
    pub open spec fn wf(self) -> bool {
        &&& self.count == self.boids@.len()
        &&& self.boids@.len() <= MAX_AGENTS
        &&& grid_ok(self.boids@, self.table@)
        &&& forall|i: int| 0 <= i < self.boids@.len() ==> boid_ok(#[trigger] self.boids@[i])
    }

    /// An empty simulation with every bucket empty.
    pub fn new() -> (f: Flock)
        ensures
            f.wf(),
            f.count == 0,
            f.boids@.len() == 0,
    {
        let mut table: Vec<Vec<usize>> = Vec::new();
        let mut c: usize = 0;
        while c < GRID_CELLS
            invariant
                c <= GRID_CELLS,
                table@.len() == c,
                forall|k: int| 0 <= k < c ==> (#[trigger] table@[k])@ == Seq::<usize>::empty(),
            decreases GRID_CELLS - c,
        {
            table.push(Vec::new());
            c = c + 1;
        }
        let f = Flock { count: 0, boids: Vec::new(), table };
        proof {
            assert forall|c: int| 0 <= c < GRID_CELLS implies (#[trigger] f.table@[c])@
                == bucket_of(f.boids@, c) by {}
        }
        f
    }

    /// Append one agent during the setup phase: construct it, hash it,
    /// and insert its index into the bucket of its cell.
    pub fn add_boid(
        &mut self,
        hand: u32,
        position_x: i64,
        position_y: i64,
        velocity_x: i64,
        velocity_y: i64,
    )
        requires
            old(self).wf(),
            old(self).count < MAX_AGENTS,
            hand < 3,
            0 <= position_x < WORLD_WIDTH,
            0 <= position_y < WORLD_HEIGHT,
            -VELOCITY_LIMIT <= velocity_x <= VELOCITY_LIMIT,
            -VELOCITY_LIMIT <= velocity_y <= VELOCITY_LIMIT,
        ensures
            final(self).wf(),
            final(self).count == old(self).count + 1,
            final(self).boids@.len() == old(self).boids@.len() + 1,
            forall|i: int|
                0 <= i < old(self).boids@.len() ==> (#[trigger] final(self).boids@[i]) == old(
                    self,
                ).boids@[i],
            final(self).boids@.last().hand == hand,
            final(self).boids@.last().position_x == position_x,
            final(self).boids@.last().position_y == position_y,
            final(self).boids@.last().velocity_x == velocity_x,
            final(self).boids@.last().velocity_y == velocity_y,
            final(self).boids@.last().hash == cell_index(position_x as int, position_y as int),
    {
        let boid = Boid::new(hand, position_x, position_y, velocity_x, velocity_y);
        let h = boid.hash;
        self.table[h].push(self.count);
        self.count = self.count + 1;
        self.boids.push(boid);
        proof {
            assert forall|c: int| 0 <= c < GRID_CELLS implies (#[trigger] self.table@[c])@
                == bucket_of(self.boids@, c) by {
                assert(self.boids@.drop_last() =~= old(self).boids@);
                assert(self.boids@.last() == boid);
                if c == h {
                    assert(self.table@[c]@ =~= bucket_of(old(self).boids@, c) + seq![
                        (self.boids@.len() - 1) as usize,
                    ]);
                } else {
                    assert(self.table@[c]@ == bucket_of(old(self).boids@, c));
                }
            }
        }
    }

    /// The draw list: one `(type tag, x, y)` triple per agent, in index
    /// order, for the host's paint callback. A no-op list when empty.
    pub fn render(&self) -> (r: Vec<(u32, i64, i64)>)
        ensures
            r@.len() == self.boids@.len(),
            forall|i: int|
                0 <= i < self.boids@.len() ==> (#[trigger] r@[i]) == (
                    self.boids@[i].hand,
                    self.boids@[i].position_x,
                    self.boids@[i].position_y,
                ),
    {
        let mut r: Vec<(u32, i64, i64)> = Vec::new();
        let mut i: usize = 0;
        while i < self.boids.len()
            invariant
                i <= self.boids@.len(),
                r@.len() == i,
                forall|k: int|
                    0 <= k < i ==> (#[trigger] r@[k]) == (
                        self.boids@[k].hand,
                        self.boids@[k].position_x,
                        self.boids@[k].position_y,
                    ),
            decreases self.boids@.len() - i,
        {
            let b = self.boids[i];
            r.push((b.hand, b.position_x, b.position_y));
            i = i + 1;
        }
        r
    }

    /// One frame: compute every agent's acceleration and conversion
    /// flags from the pre-frame snapshot, then integrate every agent and
    /// rebuild the grid from the refreshed cells.
    pub fn update(
        &mut self,
        separation_weight: i64,
        cohesion_weight: i64,
        align_weight: i64,
        predator_weight: i64,
        prey_weight: i64,
    )
        requires
            old(self).wf(),
            -WEIGHT_LIMIT <= separation_weight <= WEIGHT_LIMIT,
            -WEIGHT_LIMIT <= cohesion_weight <= WEIGHT_LIMIT,
            -WEIGHT_LIMIT <= align_weight <= WEIGHT_LIMIT,
            -WEIGHT_LIMIT <= predator_weight <= WEIGHT_LIMIT,
            -WEIGHT_LIMIT <= prey_weight <= WEIGHT_LIMIT,
        ensures
            final(self).wf(),
            final(self).count == old(self).count,
            final(self).boids@.len() == old(self).boids@.len(),
            forall|i: int|
                0 <= i < old(self).boids@.len() ==> step_ok(
                    old(self).boids@,
                    old(self).table@,
                    i,
                    Weights {
                        separation: separation_weight,
                        cohesion: cohesion_weight,
                        align: align_weight,
                        predator: predator_weight,
                        prey: prey_weight,
                    },
                    #[trigger] final(self).boids@[i],
                ),
            forall|i: int|
                0 <= i < final(self).boids@.len() ==> 0 <= (#[trigger] final(self).boids@[i]).position_x
                    < WORLD_WIDTH && 0 <= final(self).boids@[i].position_y < WORLD_HEIGHT,
            forall|i: int|
                0 <= i < final(self).boids@.len() ==> speed2(
                    (#[trigger] final(self).boids@[i]).velocity_x as int,
                    final(self).boids@[i].velocity_y as int,
                ) <= (MAX_SPEED as int) * (MAX_SPEED as int),
    {
        let ghost w = Weights {
            separation: separation_weight,
            cohesion: cohesion_weight,
            align: align_weight,
            predator: predator_weight,
            prey: prey_weight,
        };
        let n = self.boids.len();
        let mut accel_x: Vec<i128> = Vec::new();
        let mut accel_y: Vec<i128> = Vec::new();
        let mut convs: Vec<bool> = Vec::new();
        let mut nconvs: Vec<bool> = Vec::new();
        let weights = Weights {
            separation: separation_weight,
            cohesion: cohesion_weight,
            align: align_weight,
            predator: predator_weight,
            prey: prey_weight,
        };
        let mut i: usize = 0;
        while i < n
            invariant
                old(self) == self,
                n == self.boids@.len(),
                self.wf(),
                weights == w,
                weights_ok(w),
                i <= n,
                accel_x@.len() == i,
                accel_y@.len() == i,
                convs@.len() == i,
                nconvs@.len() == i,
                forall|k: int|
                    0 <= k < i ==> (#[trigger] accel_x@[k]) == accel_x_spec(
                        self.boids@,
                        k,
                        candidates(self.table@, self.boids@[k].hash),
                        w,
                    ) && -ACCEL_LIMIT <= accel_x@[k] <= ACCEL_LIMIT,
                forall|k: int|
                    0 <= k < i ==> (#[trigger] accel_y@[k]) == accel_y_spec(
                        self.boids@,
                        k,
                        candidates(self.table@, self.boids@[k].hash),
                        w,
                    ) && -ACCEL_LIMIT <= accel_y@[k] <= ACCEL_LIMIT,
                forall|k: int|
                    0 <= k < i ==> (#[trigger] convs@[k]) == should_convert(
                        self.boids@,
                        k,
                        candidates(self.table@, self.boids@[k].hash),
                        w.separation as int,
                    ),
                forall|k: int|
                    0 <= k < i ==> (#[trigger] nconvs@[k]) == should_not_convert(
                        self.boids@,
                        k,
                        candidates(self.table@, self.boids@[k].hash),
                        w.separation as int,
                    ),
            decreases n - i,
        {
            let hash = self.boids[i].hash;
            let cells = neighbor_cells(hash, GRID_COLS, GRID_ROWS);
            let mut cands: Vec<usize> = Vec::new();
            let mut ci: usize = 0;
            while ci < cells.len()
                invariant
                    self.wf(),
                    ci <= cells@.len(),
                    cells@.len() <= 9,
                    forall|k: int|
                        0 <= k < cells@.len() ==> (#[trigger] cells@[k]) < GRID_CELLS,
                    cands@ == cands_from(self.table@, cells@.take(ci as int)),
                decreases cells@.len() - ci,
            {
                let c = cells[ci];
                let mut m: usize = 0;
                let blen = self.table[c].len();
                while m < blen
                    invariant
                        self.wf(),
                        ci < cells@.len(),
                        c == cells@[ci as int] < GRID_CELLS,
                        m <= blen,
                        blen == self.table@[c as int]@.len(),
                        cands@ == cands_from(self.table@, cells@.take(ci as int)) + self.table@[
                            c as int
                        ]@.take(m as int),
                    decreases blen - m,
                {
                    let j = self.table[c][m];
                    cands.push(j);
                    proof {
                        assert(self.table@[c as int]@.take(m as int + 1) =~= self.table@[
                            c as int
                        ]@.take(m as int) + seq![self.table@[c as int]@[m as int]]);
                    }
                    m = m + 1;
                }
                proof {
                    assert(self.table@[c as int]@.take(blen as int) =~= self.table@[c as int]@);
                    assert(cells@.take(ci as int + 1).drop_last() =~= cells@.take(ci as int));
                    assert(cells@.take(ci as int + 1).last() == cells@[ci as int]);
                }
                ci = ci + 1;
            }
            proof {
                assert(cells@.take(cells@.len() as int) =~= cells@);
                assert(cands@ == candidates(self.table@, hash));
                lemma_cands_valid(self.boids@, self.table@, cells@);
                lemma_cands_len(self.boids@, self.table@, cells@);
                assert(cands@.len() <= 9 * self.boids@.len()) by (nonlinear_arith)
                    requires
                        cands@.len() <= cells@.len() * self.boids@.len(),
                        cells@.len() <= 9,
                ;
            }
            let r = scalar_forces(&self.boids, i, &cands, weights);
            accel_x.push(r.0);
            accel_y.push(r.1);
            convs.push(r.2);
            nconvs.push(r.3);
            i = i + 1;
        }
        let mut i: usize = 0;
        while i < n
            invariant
                self.count == old(self).count,
                self.table@ == old(self).table@,
                n == old(self).boids@.len(),
                self.boids@.len() == n,
                weights == w,
                i <= n,
                accel_x@.len() == n,
                accel_y@.len() == n,
                convs@.len() == n,
                nconvs@.len() == n,
                forall|k: int| i <= k < n ==> (#[trigger] self.boids@[k]) == old(self).boids@[k],
                forall|k: int| 0 <= k < n ==> boid_ok(#[trigger] old(self).boids@[k]),
                forall|k: int|
                    0 <= k < n ==> (#[trigger] accel_x@[k]) == accel_x_spec(
                        old(self).boids@,
                        k,
                        candidates(old(self).table@, old(self).boids@[k].hash),
                        w,
                    ) && -ACCEL_LIMIT <= accel_x@[k] <= ACCEL_LIMIT,
                forall|k: int|
                    0 <= k < n ==> (#[trigger] accel_y@[k]) == accel_y_spec(
                        old(self).boids@,
                        k,
                        candidates(old(self).table@, old(self).boids@[k].hash),
                        w,
                    ) && -ACCEL_LIMIT <= accel_y@[k] <= ACCEL_LIMIT,
                forall|k: int|
                    0 <= k < n ==> (#[trigger] convs@[k]) == should_convert(
                        old(self).boids@,
                        k,
                        candidates(old(self).table@, old(self).boids@[k].hash),
                        w.separation as int,
                    ),
                forall|k: int|
                    0 <= k < n ==> (#[trigger] nconvs@[k]) == should_not_convert(
                        old(self).boids@,
                        k,
                        candidates(old(self).table@, old(self).boids@[k].hash),
                        w.separation as int,
                    ),
                forall|k: int|
                    0 <= k < i ==> step_ok(
                        old(self).boids@,
                        old(self).table@,
                        k,
                        w,
                        #[trigger] self.boids@[k],
                    ),
                forall|k: int| 0 <= k < i ==> boid_ok(#[trigger] self.boids@[k]),
                forall|k: int|
                    0 <= k < i ==> speed2(
                        (#[trigger] self.boids@[k]).velocity_x as int,
                        self.boids@[k].velocity_y as int,
                    ) <= (MAX_SPEED as int) * (MAX_SPEED as int),
            decreases n - i,
        {
            let mut b = self.boids[i];
            proof {
                assert(b == old(self).boids@[i as int]);
                assert(boid_ok(b));
            }
            b.update(accel_x[i], accel_y[i]);
            if convs[i] && !nconvs[i] {
                b.hand = (b.hand + 2) % 3;
            }
            self.boids[i] = b;
            i = i + 1;
        }
        rebuild(&mut self.table, &self.boids);
    }
}

/// Determinism of one step: the per-agent step relation admits one next
/// state — two agents that both satisfy it against the same pre-frame
/// snapshot and weights are equal.
pub proof fn lemma_step_deterministic(
    boids: Seq<Boid>,
    table: Seq<Vec<usize>>,
    i: int,
    w: Weights,
    b1: Boid,
    b2: Boid,
)
    requires
        step_ok(boids, table, i, w, b1),
        step_ok(boids, table, i, w, b2),
    ensures
        b1 == b2,
{
}

/// Determinism of a frame: two runs of the step relation over the same
/// agent list, grid and weights produce identical agent lists.
pub proof fn lemma_update_deterministic(
    boids: Seq<Boid>,
    table: Seq<Vec<usize>>,
    w: Weights,
    r1: Seq<Boid>,
    r2: Seq<Boid>,
)
    requires
        r1.len() == boids.len(),
        r2.len() == boids.len(),
        forall|i: int| 0 <= i < boids.len() ==> step_ok(boids, table, i, w, #[trigger] r1[i]),
        forall|i: int| 0 <= i < boids.len() ==> step_ok(boids, table, i, w, #[trigger] r2[i]),
    ensures
        r1 == r2,
{
    assert forall|i: int| 0 <= i < r1.len() implies r1[i] == r2[i] by {
        lemma_step_deterministic(boids, table, i, w, r1[i], r2[i]);
    }
    assert(r1 =~= r2);
}

/// Conversion correctness: an agent that saw prey in conversion range
/// and no predator in conversion range comes out of the step with its
/// predator's type, `(hand + 2) mod 3`; one that saw both keeps its type.
pub proof fn lemma_conversion(boids: Seq<Boid>, table: Seq<Vec<usize>>, i: int, w: Weights, b: Boid)
    requires
        0 <= i < boids.len(),
        step_ok(boids, table, i, w, b),
    ensures
        should_convert(boids, i, candidates(table, boids[i].hash), w.separation as int)
            && !should_not_convert(boids, i, candidates(table, boids[i].hash), w.separation as int)
            ==> b.hand == converted_hand(boids[i].hand),
        should_convert(boids, i, candidates(table, boids[i].hash), w.separation as int)
            && should_not_convert(boids, i, candidates(table, boids[i].hash), w.separation as int)
            ==> b.hand == boids[i].hand,
{
}

/// Grid consistency for a well-formed flock: the buckets partition the
/// agent indices — each index appears in the bucket of its own cell and
/// in no other place.
pub proof fn lemma_flock_grid_partition(f: Flock)
    requires
        f.wf(),
    ensures
        forall|i: usize|
            i < f.boids@.len() ==> (#[trigger] f.table@[f.boids@[i as int].hash as int])@.contains(
                i,
            ),
        forall|c: int, k: int|
            0 <= c < GRID_CELLS && 0 <= k < f.table@[c]@.len() ==> (#[trigger] f.table@[c]@[k])
                < f.boids@.len() && f.boids@[f.table@[c]@[k] as int].hash == c,
        forall|c: int, k1: int, k2: int|
            0 <= c < GRID_CELLS && 0 <= k1 < k2 < f.table@[c]@.len() ==> (#[trigger] f.table@[
            c]@[k1]) != (#[trigger] f.table@[c]@[k2]),
{
    lemma_grid_partition(f.boids@, f.table@);
}

} // verus!
