//! Fixed-point UCB1 scoring.
//!
//! Win scores are kept in half-point units (a win counts 2, a tie 1), so the
//! whole score can be computed in integers. The UCB1 value
//! `wins / visits + sqrt(2) * sqrt(ln(parent_visits) / visits)` is rendered
//! in fixed point with `UCT_SCALE` as the unit: the natural logarithm is
//! taken as `log2` (computed with a linearly interpolated fraction) times
//! `ln 2`, and the square root is the integer square root.

use vstd::prelude::*;

verus! {

use vstd::arithmetic::power2::pow2;
use vstd::arithmetic::power2::lemma_pow2_unfold;
use vstd::arithmetic::power2::lemma_pow2_strictly_increases;
use vstd::arithmetic::power2::lemma2_to64;
use vstd::arithmetic::power2::lemma2_to64_rest;
use vstd::arithmetic::div_mod::lemma_multiply_divide_lt;
use vstd::arithmetic::div_mod::lemma_div_is_ordered;
use vstd::arithmetic::div_mod::lemma_div_multiples_vanish;
use vstd::arithmetic::mul::lemma_mul_strict_inequality;
use vstd::arithmetic::mul::lemma_mul_inequality;

/// The fixed-point unit: scores are counted in 1/65536ths.
pub const UCT_SCALE: u64 = 65536;

/// `ln 2` in fixed point: `floor(ln 2 * UCT_SCALE)`.
pub const LN2_SCALED: u64 = 45426;

/// The square of the UCT exploration constant: the constant is `sqrt(2)`,
/// and it enters the score inside the square root.
pub const UCT_EXPLORE_SQUARED: u64 = 2;

/// The integer square root: the greatest `r` with `r * r <= n` (and `0` for
/// a non-positive argument).
pub open spec fn spec_isqrt(n: int) -> int
    decreases n,
{
    if n <= 0 {
        0
    } else {
        let r = spec_isqrt(n - 1);
        if (r + 1) * (r + 1) <= n {
            r + 1
        } else {
            r
        }
    }
}

proof fn lemma_isqrt_bounds(n: int)
    requires
        n >= 0,
    ensures
        spec_isqrt(n) >= 0,
        spec_isqrt(n) * spec_isqrt(n) <= n,
        n < (spec_isqrt(n) + 1) * (spec_isqrt(n) + 1),
    decreases n,
{
    if n > 0 {
        lemma_isqrt_bounds(n - 1);
        let r = spec_isqrt(n - 1);
        if (r + 1) * (r + 1) <= n {
            assert(spec_isqrt(n) == r + 1);
            // The induction hypothesis gives `n - 1 < (r + 1) * (r + 1)`,
            // so here `n` is exactly the next square.
            assert(n == (r + 1) * (r + 1));
            assert((r + 1) * (r + 1) < (r + 2) * (r + 2)) by (nonlinear_arith)
                requires
                    r >= 0,
            ;
        } else {
            assert(spec_isqrt(n) == r);
        }
    }
}

proof fn lemma_isqrt_unique(n: int, r: int)
    requires
        0 <= r,
        r * r <= n,
        n < (r + 1) * (r + 1),
    ensures
        r == spec_isqrt(n),
{
    lemma_isqrt_bounds(n);
    let s = spec_isqrt(n);
    assert(r == s) by (nonlinear_arith)
        requires
            0 <= r,
            0 <= s,
            r * r <= n,
            n < (r + 1) * (r + 1),
            s * s <= n,
            n < (s + 1) * (s + 1),
    ;
}

/// Integer square root by binary search on the root.
fn isqrt(n: u64) -> (r: u64)
    ensures
        r == spec_isqrt(n as int),
        r <= 0xFFFF_FFFF,
{
    let mut lo: u64 = 0;
    let mut hi: u64 = 0x1_0000_0000;
    while lo + 1 < hi
        invariant
            lo < hi,
            hi <= 0x1_0000_0000,
            (lo as int) * (lo as int) <= n as int,
            (n as int) < (hi as int) * (hi as int),
        decreases hi - lo,
    {
        let mid = lo + (hi - lo) / 2;
        proof {
            assert(lo < mid < hi);
            assert((mid as int) * (mid as int) < 0x1_0000_0000_0000_0000) by (nonlinear_arith)
                requires
                    mid < 0x1_0000_0000,
            ;
        }
        if mid * mid <= n {
            lo = mid;
        } else {
            hi = mid;
        }
    }
    proof {
        lemma_isqrt_unique(n as int, lo as int);
    }
    lo
}

/// The floor of the base-two logarithm.
pub open spec fn spec_floor_log2(n: nat) -> nat
    decreases n,
{
    if n < 2 {
        0
    } else {
        1 + spec_floor_log2(n / 2)
    }
}

proof fn lemma_floor_log2_unique(n: nat, e: nat)
    requires
        pow2(e) <= n,
        n < pow2(e + 1),
    ensures
        spec_floor_log2(n) == e,
    decreases e,
{
    if e == 0 {
        lemma2_to64();
    } else {
        lemma_pow2_unfold(e);
        lemma_pow2_unfold(e + 1);
        lemma_floor_log2_unique(n / 2, (e - 1) as nat);
    }
}

/// `log2(n)` in fixed point: the integer part is exact, and the fraction is
/// the linear interpolation `(n - 2^e) / 2^e` between the neighbouring
/// powers of two.
pub open spec fn spec_log2_scaled(n: nat) -> int {
    if n == 0 {
        0
    } else {
        let e = spec_floor_log2(n);
        e * (UCT_SCALE as int) + (n - pow2(e)) * (UCT_SCALE as int) / (pow2(e) as int)
    }
}

fn log2_scaled(n: u64) -> (r: u64)
    ensures
        r == spec_log2_scaled(n as nat),
        r <= 63 * 65536 + 65535,
{
    if n == 0 {
        return 0;
    }
    let mut e: u64 = 0;
    let mut p: u64 = 1;
    proof {
        lemma2_to64();
        lemma2_to64_rest();
    }
    while p <= n / 2
        invariant
            n >= 1,
            e <= 63,
            p as nat == pow2(e as nat),
            p <= n,
        decreases 64 - e,
    {
        proof {
            // `p` doubled is still at most `n < 2^64`, so the exponent stays
            // below 64.
            lemma2_to64();
            lemma2_to64_rest();
            if e as nat >= 63 {
                if e as nat > 63 {
                    lemma_pow2_strictly_increases(63, e as nat);
                }
                assert(p as nat >= pow2(63));
                assert(false);
            }
            lemma_pow2_unfold(e as nat + 1);
        }
        p = 2 * p;
        e = e + 1;
    }
    proof {
        // Loop exit: `p > n / 2`, so `n < 2 * p == pow2(e + 1)`.
        lemma_pow2_unfold(e as nat + 1);
        lemma_floor_log2_unique(n as nat, e as nat);
    }
    let rem = n - p;
    proof {
        lemma_mul_strict_inequality(rem as int, p as int, UCT_SCALE as int);
        lemma_multiply_divide_lt(rem as int * UCT_SCALE as int, p as int, UCT_SCALE as int);
    }
    let frac = (((rem as u128) * (UCT_SCALE as u128)) / (p as u128)) as u64;
    e * UCT_SCALE + frac
}

/// `ln(n)` in fixed point.
pub open spec fn spec_ln_scaled(n: nat) -> int {
    spec_log2_scaled(n) * (LN2_SCALED as int) / (UCT_SCALE as int)
}

/// The fixed-point UCB1 score of a child with win score `wins2` (in
/// half-point units) and `visits` visits, under a parent with
/// `parent_visits` visits. An unvisited child scores highest.
pub open spec fn spec_uct(wins2: nat, visits: nat, parent_visits: nat) -> int {
    if visits == 0 {
        u64::MAX as int
    } else {
        wins2 * (UCT_SCALE as int) / (2 * visits as int) + spec_isqrt(
            (UCT_EXPLORE_SQUARED as int) * spec_ln_scaled(parent_visits) * (UCT_SCALE as int) / (
            visits as int),
        )
    }
}

/// Compute the fixed-point UCB1 score.
pub fn uct(wins2: u64, visits: u64, parent_visits: u64) -> (r: u64)
    requires
        wins2 <= 2 * visits,
    ensures
        r == spec_uct(wins2 as nat, visits as nat, parent_visits as nat),
{
    if visits == 0 {
        return u64::MAX;
    }
    proof {
        assert(UCT_SCALE == 65536);
        assert(LN2_SCALED == 45426);
        lemma_mul_inequality(wins2 as int, 2 * visits as int, UCT_SCALE as int);
        lemma_div_is_ordered(
            wins2 as int * UCT_SCALE as int,
            (2 * visits as int) * UCT_SCALE as int,
            2 * visits as int,
        );
        lemma_div_multiples_vanish(UCT_SCALE as int, 2 * visits as int);
    }
    let exploit = (((wins2 as u128) * (UCT_SCALE as u128)) / (2u128 * (visits as u128))) as u64;
    let ls = log2_scaled(parent_visits);
    proof {
        lemma_div_is_ordered(
            ls as int * LN2_SCALED as int,
            (63 * 65536 + 65535) * (LN2_SCALED as int),
            UCT_SCALE as int,
        );
    }
    let ln_s = (((ls as u128) * (LN2_SCALED as u128)) / (UCT_SCALE as u128)) as u64;
    proof {
        lemma_div_is_ordered(
            2 * (ln_s as int) * (UCT_SCALE as int),
            2 * (((63 * 65536 + 65535) * (LN2_SCALED as int)) / (UCT_SCALE as int)) * (
            UCT_SCALE as int),
            visits as int,
        );
    }
    let inner = (((UCT_EXPLORE_SQUARED as u128) * (ln_s as u128) * (UCT_SCALE as u128)) / (
    visits as u128)) as u64;
    exploit + isqrt(inner)
}

} // verus!
