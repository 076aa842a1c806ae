//! Exact integer arithmetic helpers: truncating division, ceiling integer
//! square root, and single-period wrap-around, each with a full functional
//! contract.
use vstd::prelude::*;
use vstd::arithmetic::div_mod::lemma_div_is_ordered;
use vstd::arithmetic::div_mod::lemma_div_multiples_vanish;
use vstd::arithmetic::div_mod::lemma_div_pos_is_pos;

verus! {

/// Magnitude of an integer, as an `int`.
pub open spec fn mag(n: int) -> int {
    if n >= 0 {
        n
    } else {
        -n
    }
}

/// Division truncating toward zero (the rounding of machine division),
/// defined from Euclidean division on magnitudes.
pub open spec fn tdiv(n: int, d: int) -> int
    recommends
        d > 0,
{
    if n >= 0 {
        n / d
    } else {
        -((-n) / d)
    }
}

/// A quotient is no larger in magnitude than any bound the numerator
/// respects `d` times over.
pub proof fn lemma_tdiv_bound(n: int, d: int, b: int)
    requires
        d > 0,
        0 <= b,
        -(d * b) <= n <= d * b,
    ensures
        -b <= tdiv(n, d) <= b,
{
    if n >= 0 {
        lemma_div_is_ordered(n, d * b, d);
        lemma_div_multiples_vanish(b, d);
        lemma_div_pos_is_pos(n, d);
    } else {
        lemma_div_is_ordered(-n, d * b, d);
        lemma_div_multiples_vanish(b, d);
        lemma_div_pos_is_pos(-n, d);
    }
}

/// Truncating division never enlarges: `|n / d| * d <= |n|`.
pub proof fn lemma_tdiv_shrinks(n: int, d: int)
    requires
        d > 0,
    ensures
        mag(tdiv(n, d)) * d <= mag(n),
{
    if n >= 0 {
        lemma_div_pos_is_pos(n, d);
        assert((n / d) * d <= n) by {
            vstd::arithmetic::div_mod::lemma_fundamental_div_mod(n, d);
            vstd::arithmetic::div_mod::lemma_mod_bound(n, d);
        }
    } else {
        lemma_div_pos_is_pos(-n, d);
        assert(((-n) / d) * d <= -n) by {
            vstd::arithmetic::div_mod::lemma_fundamental_div_mod(-n, d);
            vstd::arithmetic::div_mod::lemma_mod_bound(-n, d);
        }
    }
}

/// Machine division truncating toward zero, for a positive divisor.
pub fn div_trunc(n: i128, d: i128) -> (q: i128)
    requires
        d > 0,
        n > i128::MIN,
    ensures
        q == tdiv(n as int, d as int),
{
    if n >= 0 {
        let un: u128 = n as u128;
        let ud: u128 = d as u128;
        let uq: u128 = un / ud;
        proof {
            lemma_div_is_ordered(un as int, n as int, d as int);
            lemma_div_pos_is_pos(un as int, d as int);
        }
        uq as i128
    } else {
        let un: u128 = (-n) as u128;
        let ud: u128 = d as u128;
        let uq: u128 = un / ud;
        proof {
            lemma_div_is_ordered(un as int, (-n) as int, d as int);
            lemma_div_pos_is_pos(un as int, d as int);
        }
        -(uq as i128)
    }
}

/// `r` is the ceiling of the square root of `n`: the least `r` with
/// `r * r >= n`.
pub open spec fn is_sqrt_ceil(n: int, r: int) -> bool {
    &&& r >= 0
    &&& r * r >= n
    &&& (r == 0 || (r - 1) * (r - 1) < n)
}

/// The ceiling square root is unique.
pub proof fn lemma_sqrt_ceil_unique(n: int, a: int, b: int)
    requires
        is_sqrt_ceil(n, a),
        is_sqrt_ceil(n, b),
    ensures
        a == b,
{
    assert(a == b) by (nonlinear_arith)
        requires
            is_sqrt_ceil(n, a),
            is_sqrt_ceil(n, b),
    ;
}

/// The ceiling of the square root of `n`, as a function.
pub open spec fn sqrt_ceil_spec(n: int) -> int {
    choose|r: int| #[trigger] is_sqrt_ceil(n, r)
}

/// Upper end of the bisection range of `sqrt_ceil`: two to the 62nd.
pub const SQRT_CAP: u128 = 0x4000_0000_0000_0000;

/// Ceiling integer square root by bisection.
pub fn sqrt_ceil(n: u128) -> (r: u128)
    requires
        n < SQRT_CAP * SQRT_CAP,
    ensures
        is_sqrt_ceil(n as int, r as int),
        r == sqrt_ceil_spec(n as int),
        r <= SQRT_CAP,
{
    let mut lo: u128 = 0;
    let mut hi: u128 = SQRT_CAP;
    while lo < hi
        invariant
            lo <= hi <= SQRT_CAP,
            hi * hi >= n,
            lo == 0 || (lo - 1) * (lo - 1) < n,
        decreases hi - lo,
    {
        let mid: u128 = lo + (hi - lo) / 2;
        proof {
            assert((mid as int) * (mid as int) <= (SQRT_CAP as int) * (SQRT_CAP as int))
                by (nonlinear_arith)
                requires
                    0 <= mid as int <= SQRT_CAP as int,
            ;
        }
        if mid * mid >= n {
            hi = mid;
        } else {
            lo = mid + 1;
        }
    }
    proof {
        assert(is_sqrt_ceil(n as int, lo as int));
        assert(is_sqrt_ceil(n as int, sqrt_ceil_spec(n as int)));
        lemma_sqrt_ceil_unique(n as int, lo as int, sqrt_ceil_spec(n as int));
    }
    lo
}

/// Wrap of a coordinate that overshot its period by less than one period,
/// into `[0, m)`: the floored modulo on this domain.
pub open spec fn wrap_spec(x: int, m: int) -> int
    recommends
        m > 0,
        -m <= x < 2 * m,
{
    if x < 0 {
        x + m
    } else if x >= m {
        x - m
    } else {
        x
    }
}

/// On its domain, the wrap is exactly the floored (Euclidean) modulo.
pub proof fn lemma_wrap_is_mod(x: int, m: int)
    requires
        m > 0,
        -m <= x < 2 * m,
    ensures
        wrap_spec(x, m) == x % m,
{
    if x < 0 {
        vstd::arithmetic::div_mod::lemma_add_mod_noop(x, m, m);
        vstd::arithmetic::div_mod::lemma_mod_self_0(m);
        vstd::arithmetic::div_mod::lemma_small_mod((x + m) as nat, m as nat);
        assert((x + m) % m == (x % m + m % m) % m);
        assert(x % m == (x % m) % m) by {
            vstd::arithmetic::div_mod::lemma_mod_twice(x, m);
        }
    } else if x >= m {
        vstd::arithmetic::div_mod::lemma_sub_mod_noop(x, m, m);
        vstd::arithmetic::div_mod::lemma_mod_self_0(m);
        vstd::arithmetic::div_mod::lemma_small_mod((x - m) as nat, m as nat);
        assert((x - m) % m == (x % m - m % m) % m);
        assert(x % m == (x % m) % m) by {
            vstd::arithmetic::div_mod::lemma_mod_twice(x, m);
        }
    } else {
        vstd::arithmetic::div_mod::lemma_small_mod(x as nat, m as nat);
    }
}

/// Wrap a coordinate that moved by less than one period back into `[0, m)`.
pub fn wrap_coord(x: i64, m: i64) -> (r: i64)
    requires
        m > 0,
        -m <= x < 2 * m,
    ensures
        r == wrap_spec(x as int, m as int),
        r == (x as int) % (m as int),
        0 <= r < m,
{
    proof {
        lemma_wrap_is_mod(x as int, m as int);
    }
    if x < 0 {
        x + m
    } else if x >= m {
        x - m
    } else {
        x
    }
}

} // verus!
