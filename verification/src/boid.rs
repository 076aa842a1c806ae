//! One agent: position, velocity, type tag ("hand") and its cached grid
//! cell index, with the exact integration step: symplectic Euler with
//! toroidal wrap, speed clamping by uniform rescaling, and rehashing.
use vstd::prelude::*;
use vstd::arithmetic::div_mod::lemma_fundamental_div_mod;
use vstd::arithmetic::div_mod::lemma_mod_bound;
use vstd::arithmetic::div_mod::lemma_div_pos_is_pos;
use vstd::arithmetic::mul::lemma_mul_inequality;
use crate::params::{WORLD_WIDTH, WORLD_HEIGHT, VISION_RANGE, CONVERT_RANGE, MAX_SPEED, GRID_COLS,
    GRID_ROWS, GRID_CELLS, VELOCITY_LIMIT};
use crate::num::{mag, tdiv, is_sqrt_ceil, sqrt_ceil_spec, sqrt_ceil, div_trunc, wrap_spec,
    wrap_coord, lemma_tdiv_shrinks};

verus! {

/// Bound on the magnitude of one accumulated acceleration component,
/// implied by `WEIGHT_LIMIT` and `MAX_AGENTS`.
pub const ACCEL_LIMIT: i128 = 3_000_000_000_000_000_000;

/// One simulated agent. `hand` is the type tag in `{0, 1, 2}`; `hash` is
/// the grid cell index of `position`.
#[derive(Clone, Copy, PartialEq, Eq, Structural)]
pub struct Boid {
    pub hand: u32,
    pub hash: usize,
    pub position_x: i64,
    pub position_y: i64,
    pub velocity_x: i64,
    pub velocity_y: i64,
}

/// Grid cell index of a position: column plus `GRID_COLS` times row.
pub open spec fn cell_index(px: int, py: int) -> int
    recommends
        0 <= px < WORLD_WIDTH,
        0 <= py < WORLD_HEIGHT,
{
    px / (VISION_RANGE as int) + (GRID_COLS as int) * (py / (VISION_RANGE as int))
}

/// A nonnegative value below `d * k` has quotient by `d` below `k`.
pub proof fn lemma_div_below(x: int, d: int, k: int)
    requires
        d > 0,
        k > 0,
        0 <= x,
        x < d * k,
    ensures
        0 <= x / d < k,
{
    lemma_div_pos_is_pos(x, d);
    lemma_fundamental_div_mod(x, d);
    lemma_mod_bound(x, d);
    if x / d >= k {
        lemma_mul_inequality(k, x / d, d);
        assert(k * d <= (x / d) * d);
        assert(d * k == k * d) by (nonlinear_arith);
        assert((x / d) * d == d * (x / d)) by (nonlinear_arith);
    }
}

/// Grid cell of a position, in range.
pub fn cell_of(px: i64, py: i64) -> (c: usize)
    requires
        0 <= px < WORLD_WIDTH,
        0 <= py < WORLD_HEIGHT,
    ensures
        c == cell_index(px as int, py as int),
        c < GRID_CELLS,
{
    let col: usize = ((px as u64) / (VISION_RANGE as u64)) as usize;
    let row: usize = ((py as u64) / (VISION_RANGE as u64)) as usize;
    proof {
        lemma_div_below(px as int, VISION_RANGE as int, GRID_COLS as int);
        lemma_div_below(py as int, VISION_RANGE as int, GRID_ROWS as int);
    }
    col + GRID_COLS * row
}

/// Squared Euclidean distance between two agents, in squared fixed-point
/// steps (no wrap adjustment: forces use the plain in-world distance).
pub open spec fn dist2(p: Boid, q: Boid) -> int {
    (p.position_x - q.position_x) * (p.position_x - q.position_x) + (p.position_y - q.position_y)
        * (p.position_y - q.position_y)
}

/// The two agents are within vision range of each other.
pub open spec fn in_vision(p: Boid, q: Boid) -> bool {
    dist2(p, q) < (VISION_RANGE as int) * (VISION_RANGE as int)
}

/// The two agents are within conversion range of each other.
pub open spec fn in_convert(p: Boid, q: Boid) -> bool {
    dist2(p, q) < (CONVERT_RANGE as int) * (CONVERT_RANGE as int)
}

/// Well-formedness of one stored agent: position inside the world,
/// velocity within `VELOCITY_LIMIT`, hand in `{0, 1, 2}`, and the cached
/// cell index current for the position.
pub open spec fn boid_ok(b: Boid) -> bool {
    &&& 0 <= b.position_x < WORLD_WIDTH
    &&& 0 <= b.position_y < WORLD_HEIGHT
    &&& -VELOCITY_LIMIT <= b.velocity_x <= VELOCITY_LIMIT
    &&& -VELOCITY_LIMIT <= b.velocity_y <= VELOCITY_LIMIT
    &&& b.hand < 3
    &&& b.hash < GRID_CELLS
    &&& b.hash == cell_index(b.position_x as int, b.position_y as int)
}

/// Squared speed of a velocity.
pub open spec fn speed2(vx: int, vy: int) -> int {
    vx * vx + vy * vy
}

/// The x component of a velocity after clamping its magnitude to
/// `MAX_SPEED` by uniform rescaling.
pub open spec fn clamped_x(vx: int, vy: int) -> int {
    if speed2(vx, vy) <= (MAX_SPEED as int) * (MAX_SPEED as int) {
        vx
    } else {
        tdiv(vx * (MAX_SPEED as int), sqrt_ceil_spec(speed2(vx, vy)))
    }
}

/// The y component of a velocity after clamping, as `clamped_x`.
pub open spec fn clamped_y(vx: int, vy: int) -> int {
    if speed2(vx, vy) <= (MAX_SPEED as int) * (MAX_SPEED as int) {
        vy
    } else {
        tdiv(vy * (MAX_SPEED as int), sqrt_ceil_spec(speed2(vx, vy)))
    }
}

/// A ceiling square root exists for every value.
pub proof fn lemma_sqrt_ceil_exists(n: nat)
    ensures
        exists|r: int| is_sqrt_ceil(n as int, r),
    decreases n,
{
    if n == 0 {
        assert(is_sqrt_ceil(0, 0));
    } else {
        lemma_sqrt_ceil_exists((n - 1) as nat);
        let r = choose|r: int| #[trigger] is_sqrt_ceil(n as int - 1, r);
        if r * r >= n {
            assert(is_sqrt_ceil(n as int, r));
        } else {
            assert(r * r == n - 1);
            assert((r + 1) * (r + 1) >= n) by (nonlinear_arith)
                requires
                    r >= 0,
                    r * r == n - 1,
            ;
            assert(is_sqrt_ceil(n as int, r + 1));
        }
    }
}

/// `sqrt_ceil_spec` satisfies its defining property.
pub proof fn lemma_sqrt_ceil_spec(n: int)
    requires
        n >= 0,
    ensures
        is_sqrt_ceil(n, sqrt_ceil_spec(n)),
{
    lemma_sqrt_ceil_exists(n as nat);
    let r = choose|r: int| is_sqrt_ceil(n, r);
    assert(is_sqrt_ceil(n, r));
}

/// Uniform rescaling clamps the squared speed to at most
/// `MAX_SPEED` squared, and each component to at most `MAX_SPEED`.
pub proof fn lemma_clamp_sound(vx: int, vy: int)
    ensures
        speed2(clamped_x(vx, vy), clamped_y(vx, vy)) <= (MAX_SPEED as int) * (MAX_SPEED as int),
        mag(clamped_x(vx, vy)) <= MAX_SPEED,
        mag(clamped_y(vx, vy)) <= MAX_SPEED,
{
    let m = MAX_SPEED as int;
    let s2 = speed2(vx, vy);
    if s2 <= m * m {
        assert(mag(vx) <= m) by (nonlinear_arith)
            requires
                vx * vx + vy * vy <= m * m,
                m > 0,
        ;
        assert(mag(vy) <= m) by (nonlinear_arith)
            requires
                vx * vx + vy * vy <= m * m,
                m > 0,
        ;
    } else {
        lemma_sqrt_ceil_spec(s2);
        let r = sqrt_ceil_spec(s2);
        assert(r >= 1) by (nonlinear_arith)
            requires
                is_sqrt_ceil(s2, r),
                s2 > m * m,
                m > 0,
        ;
        let cx = tdiv(vx * m, r);
        let cy = tdiv(vy * m, r);
        lemma_tdiv_shrinks(vx * m, r);
        lemma_tdiv_shrinks(vy * m, r);
        assert(mag(vx * m) == mag(vx) * m) by (nonlinear_arith)
            requires
                m > 0,
        ;
        assert(mag(vy * m) == mag(vy) * m) by (nonlinear_arith)
            requires
                m > 0,
        ;
        // |cx| * r <= |vx| * m, so cx^2 * r^2 <= vx^2 * m^2; likewise for y.
        assert(cx * cx * (r * r) <= vx * vx * (m * m)) by (nonlinear_arith)
            requires
                r >= 1,
                m > 0,
                mag(cx) * r <= mag(vx) * m,
        ;
        assert(cy * cy * (r * r) <= vy * vy * (m * m)) by (nonlinear_arith)
            requires
                r >= 1,
                m > 0,
                mag(cy) * r <= mag(vy) * m,
        ;
        // Summing and using s2 <= r^2 gives the squared-speed bound.
        assert((cx * cx + cy * cy) * (r * r) <= (vx * vx + vy * vy) * (m * m)) by (nonlinear_arith)
            requires
                cx * cx * (r * r) <= vx * vx * (m * m),
                cy * cy * (r * r) <= vy * vy * (m * m),
        ;
        assert(cx * cx + cy * cy <= m * m) by (nonlinear_arith)
            requires
                r >= 1,
                vx * vx + vy * vy <= r * r,
                (cx * cx + cy * cy) * (r * r) <= (vx * vx + vy * vy) * (m * m),
                m > 0,
        ;
        assert(mag(cx) <= m) by (nonlinear_arith)
            requires
                cx * cx + cy * cy <= m * m,
                m > 0,
        ;
        assert(mag(cy) <= m) by (nonlinear_arith)
            requires
                cx * cx + cy * cy <= m * m,
                m > 0,
        ;
    }
}

impl Boid {
    /// A fresh agent at the given position and velocity, with its cell
    /// index computed from the position.
    pub fn new(hand: u32, position_x: i64, position_y: i64, velocity_x: i64, velocity_y: i64) -> (b:
        Boid)
        requires
            hand < 3,
            0 <= position_x < WORLD_WIDTH,
            0 <= position_y < WORLD_HEIGHT,
            -VELOCITY_LIMIT <= velocity_x <= VELOCITY_LIMIT,
            -VELOCITY_LIMIT <= velocity_y <= VELOCITY_LIMIT,
        ensures
            b.hand == hand,
            b.position_x == position_x,
            b.position_y == position_y,
            b.velocity_x == velocity_x,
            b.velocity_y == velocity_y,
            boid_ok(b),
    {
        let mut boid = Boid {
            hand,
            hash: 0,
            position_x,
            position_y,
            velocity_x,
            velocity_y,
        };
        boid.rehash();
        boid
    }

    /// Recompute the cached cell index from the current position.
    pub fn rehash(&mut self)
        requires
            0 <= old(self).position_x < WORLD_WIDTH,
            0 <= old(self).position_y < WORLD_HEIGHT,
        ensures
            final(self).hash == cell_index(
                old(self).position_x as int,
                old(self).position_y as int,
            ),
            final(self).hash < GRID_CELLS,
            final(self).hand == old(self).hand,
            final(self).position_x == old(self).position_x,
            final(self).position_y == old(self).position_y,
            final(self).velocity_x == old(self).velocity_x,
            final(self).velocity_y == old(self).velocity_y,
    {
        self.hash = cell_of(self.position_x, self.position_y);
    }

    /// One integration step: move by the previous velocity, wrap into the
    /// world, rehash, then add the acceleration to the velocity and clamp
    /// its magnitude to `MAX_SPEED` by uniform rescaling.
    pub fn update(&mut self, acceleration_x: i128, acceleration_y: i128)
        requires
            0 <= old(self).position_x < WORLD_WIDTH,
            0 <= old(self).position_y < WORLD_HEIGHT,
            -VELOCITY_LIMIT <= old(self).velocity_x <= VELOCITY_LIMIT,
            -VELOCITY_LIMIT <= old(self).velocity_y <= VELOCITY_LIMIT,
            -ACCEL_LIMIT <= acceleration_x <= ACCEL_LIMIT,
            -ACCEL_LIMIT <= acceleration_y <= ACCEL_LIMIT,
        ensures
            final(self).position_x == wrap_spec(
                old(self).position_x + old(self).velocity_x,
                WORLD_WIDTH as int,
            ),
            final(self).position_y == wrap_spec(
                old(self).position_y + old(self).velocity_y,
                WORLD_HEIGHT as int,
            ),
            final(self).hash == cell_index(
                final(self).position_x as int,
                final(self).position_y as int,
            ),
            final(self).velocity_x == clamped_x(
                old(self).velocity_x + acceleration_x,
                old(self).velocity_y + acceleration_y,
            ),
            final(self).velocity_y == clamped_y(
                old(self).velocity_x + acceleration_x,
                old(self).velocity_y + acceleration_y,
            ),
            speed2(final(self).velocity_x as int, final(self).velocity_y as int) <= (
            MAX_SPEED as int) * (MAX_SPEED as int),
            final(self).hand == old(self).hand,
            boid_ok(*old(self)) ==> boid_ok(*final(self)),
    {
        self.position_x = wrap_coord(self.position_x + self.velocity_x, WORLD_WIDTH);
        self.position_y = wrap_coord(self.position_y + self.velocity_y, WORLD_HEIGHT);
        self.rehash();

        let nvx: i128 = (self.velocity_x as i128) + acceleration_x;
        let nvy: i128 = (self.velocity_y as i128) + acceleration_y;
        proof {
            lemma_clamp_sound(nvx as int, nvy as int);
            let cap = ACCEL_LIMIT as int + VELOCITY_LIMIT as int;
            assert(0 <= (nvx as int) * (nvx as int) <= cap * cap) by (nonlinear_arith)
                requires
                    -cap <= nvx as int <= cap,
            ;
            assert(0 <= (nvy as int) * (nvy as int) <= cap * cap) by (nonlinear_arith)
                requires
                    -cap <= nvy as int <= cap,
            ;
        }
        let s2: i128 = nvx * nvx + nvy * nvy;
        if s2 > (MAX_SPEED as i128) * (MAX_SPEED as i128) {
            let r: u128 = sqrt_ceil(s2 as u128);
            proof {
                assert(is_sqrt_ceil(s2 as int, r as int));
                assert(r as int >= 1) by (nonlinear_arith)
                    requires
                        (r as int) * (r as int) >= s2 as int,
                        r as int >= 0,
                        s2 as int > 0,
                ;
            }
            let cx: i128 = div_trunc(nvx * (MAX_SPEED as i128), r as i128);
            let cy: i128 = div_trunc(nvy * (MAX_SPEED as i128), r as i128);
            self.velocity_x = cx as i64;
            self.velocity_y = cy as i64;
        } else {
            self.velocity_x = nvx as i64;
            self.velocity_y = nvy as i64;
        }
    }
}

} // verus!
