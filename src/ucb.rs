//! Integer fixed-point arithmetic for the UCB1 selection rule.
//!
//! A real number `x` is held as an integer near `x * ONE`.  Win rates are
//! exact fractions rounded down; the logarithm is approximated, log2 being
//! interpolated linearly between powers of two (exact at each of them, 3.25
//! for log2 10 where the true value is about 3.32), and the square root is
//! the integer one.
use vstd::prelude::*;

verus! {

/// The fixed-point representation of 1.
pub const ONE: u64 = 1_000_000;

/// ln 2 in fixed point.
pub const LN_2: u64 = 693_147;

/// The customary exploration constant, sqrt 2, in fixed point.
pub const SQRT_2: u64 = 1_414_214;

pub open spec fn power_of_two(k: nat) -> nat
    decreases k,
{
    if k == 0 {
        1
    } else {
        2 * power_of_two((k - 1) as nat)
    }
}

proof fn lemma_power_of_two_grows(a: nat, b: nat)
    requires
        a < b,
    ensures
        2 * power_of_two(a) <= power_of_two(b),
    decreases b,
{
    if a + 1 < b {
        lemma_power_of_two_grows(a, (b - 1) as nat);
    }
}

/// `k` is the integer part of log2 `n`.
pub open spec fn is_log2_floor(n: nat, k: nat) -> bool {
    power_of_two(k) <= n < power_of_two(k + 1)
}

/// The integer part of log2 `n`, for `n >= 1`.
pub open spec fn log2_floor(n: nat) -> nat {
    choose|k: nat| is_log2_floor(n, k)
}

/// `r` is the integer square root of `x`.
pub open spec fn is_sqrt_floor(x: nat, r: nat) -> bool {
    r * r <= x < (r + 1) * (r + 1)
}

pub open spec fn sqrt_floor(x: nat) -> nat {
    choose|r: nat| is_sqrt_floor(x, r)
}

/// log2 `n` in fixed point, interpolated linearly between powers of two
/// (exact at each power of two; 0 for `n == 0`).
pub open spec fn log2_fixed(n: nat) -> nat {
    if n == 0 {
        0
    } else {
        let k = log2_floor(n);
        (k * ONE + (n - power_of_two(k)) * ONE / (power_of_two(k) as int)) as nat
    }
}

/// ln `n` in fixed point.
pub open spec fn ln_fixed(n: nat) -> nat {
    log2_fixed(n) * (LN_2 as nat) / (ONE as nat)
}

/// The exploration term `c * sqrt(2 ln(parent_visits) / child_visits)` of
/// UCB1 in fixed point, `c` itself being in fixed point.
pub open spec fn exploration_term(c: nat, parent_visits: nat, child_visits: nat) -> nat {
    c * sqrt_floor(2 * ln_fixed(parent_visits) * (ONE as nat) / child_visits) / (ONE as nat)
}

/// A node's own win rate `(score / visits + 1) / 2`, scaled to `[0, 1]`, as
/// the fraction `own_rate_num / rate_den`.
pub open spec fn own_rate_num(score: int, visits: nat) -> int {
    visits + score
}

/// The value of a node for the player who moved into it, the fraction
/// `parent_rate_num / rate_den`.
pub open spec fn parent_rate_num(score: int, visits: nat) -> int {
    visits - score
}

pub open spec fn rate_den(visits: nat) -> int {
    2 * (visits as int)
}

/// The parent-perspective win rate of a node in fixed point.
pub open spec fn parent_rate_fixed(score: int, visits: nat) -> int {
    parent_rate_num(score, visits) * (ONE as int) / rate_den(visits)
}

proof fn lemma_log2_unique(n: nat, k: nat, l: nat)
    requires
        is_log2_floor(n, k),
        is_log2_floor(n, l),
    ensures
        k == l,
{
    if k < l {
        lemma_power_of_two_grows(k, l);
    } else if l < k {
        lemma_power_of_two_grows(l, k);
    }
}

proof fn lemma_sqrt_unique(x: nat, r: nat, s: nat)
    requires
        is_sqrt_floor(x, r),
        is_sqrt_floor(x, s),
    ensures
        r == s,
{
    if r < s {
        assert((r + 1) * (r + 1) <= s * s) by (nonlinear_arith)
            requires
                r + 1 <= s,
        ;
    } else if s < r {
        assert((s + 1) * (s + 1) <= r * r) by (nonlinear_arith)
            requires
                s + 1 <= r,
        ;
    }
}

/// The integer part of log2 `n` together with the power of two below `n`.
fn log2_with_power(n: u64) -> (r: (u64, u64))
    requires
        n >= 1,
    ensures
        r.0 == log2_floor(n as nat),
        r.1 == power_of_two(r.0 as nat),
        r.0 < 64,
        1 <= r.1 <= n < 2 * r.1,
{
    let mut k: u64 = 0;
    let mut p: u64 = 1;
    while p <= n / 2
        invariant
            1 <= p <= n,
            p == power_of_two(k as nat),
            k <= p,
        decreases n - p,
    {
        p = p * 2;
        k = k + 1;
    }
    proof {
        assert(is_log2_floor(n as nat, k as nat));
        lemma_power_of_two_64();
        if k >= 64 {
            lemma_power_of_two_grows(64, k as nat);
        }
        lemma_log2_unique(n as nat, k as nat, log2_floor(n as nat));
    }
    (k, p)
}

proof fn lemma_power_of_two_64()
    ensures
        power_of_two(64) == 0x1_0000_0000_0000_0000,
{
    reveal_with_fuel(power_of_two, 65);
}

/// log2 `n` in fixed point; see `log2_fixed`.
pub fn log2_fixed_of(n: u64) -> (r: u64)
    ensures
        r == log2_fixed(n as nat),
        r < 64 * ONE,
{
    if n == 0 {
        return 0;
    }
    let (k, p) = log2_with_power(n);
    proof {
        assert((n - p) * ONE / (p as int) < ONE) by (nonlinear_arith)
            requires
                0 <= n - p < p,
        ;
        assert((n - p) * ONE < 0x1_0000_0000_0000_0000_0000_0000) by (nonlinear_arith)
            requires
                0 <= n - p < 0x1_0000_0000_0000_0000,
        ;
    }
    let frac = ((n - p) as u128 * ONE as u128 / p as u128) as u64;
    k * ONE + frac
}

/// ln `n` in fixed point; see `ln_fixed`.
pub fn ln_fixed_of(n: u64) -> (r: u64)
    ensures
        r == ln_fixed(n as nat),
        r <= 45_000_000,
{
    let l = log2_fixed_of(n);
    proof {
        assert(l * LN_2 / (ONE as int) <= 45_000_000) by (nonlinear_arith)
            requires
                l < 64 * ONE,
        ;
    }
    l * LN_2 / ONE
}

/// The integer square root of `x`.
pub fn sqrt_floor_of(x: u64) -> (r: u64)
    ensures
        r == sqrt_floor(x as nat),
        r < 0x1_0000_0000,
{
    let mut lo: u64 = 0;
    let mut hi: u64 = 0x1_0000_0000;
    proof {
        assert(x < hi * hi);
    }
    while hi - lo > 1
        invariant
            lo < hi <= 0x1_0000_0000,
            lo * lo <= x,
            x < hi * hi,
        decreases hi - lo,
    {
        let mid = lo + (hi - lo) / 2;
        proof {
            assert(mid * mid < 0x1_0000_0000_0000_0000) by (nonlinear_arith)
                requires
                    mid < 0x1_0000_0000,
            ;
        }
        if mid * mid <= x {
            lo = mid;
        } else {
            hi = mid;
        }
    }
    proof {
        assert(hi == lo + 1);
        assert(is_sqrt_floor(x as nat, lo as nat));
        lemma_sqrt_unique(x as nat, lo as nat, sqrt_floor(x as nat));
    }
    lo
}

/// The UCB1 exploration term in fixed point; see `exploration_term`.
pub fn exploration_term_of(c: u64, parent_visits: u64, child_visits: u64) -> (r: u128)
    requires
        child_visits > 0,
    ensures
        r == exploration_term(c as nat, parent_visits as nat, child_visits as nat),
        r < 0x1_0000_0000_0000_0000_0000_0000,
{
    let ln = ln_fixed_of(parent_visits);
    let s = sqrt_floor_of(2 * ln * ONE / child_visits);
    proof {
        assert(c * s < 0x1_0000_0000_0000_0000_0000_0000) by (nonlinear_arith)
            requires
                c < 0x1_0000_0000_0000_0000,
                s < 0x1_0000_0000,
        ;
    }
    c as u128 * s as u128 / ONE as u128
}

/// The parent-perspective win rate of a node in fixed point; see
/// `parent_rate_fixed`.
pub fn parent_rate_fixed_of(score: i64, visits: u64) -> (r: u64)
    requires
        visits > 0,
        -visits <= score <= visits,
    ensures
        r == parent_rate_fixed(score as int, visits as nat),
        r <= ONE,
{
    let num = (visits as i128 - score as i128) as u128;
    proof {
        assert(num * ONE / (2 * visits) <= ONE) by (nonlinear_arith)
            requires
                0 <= num <= 2 * visits,
                visits > 0,
        ;
    }
    (num * ONE as u128 / (2 * visits as u128)) as u64
}

} // verus!
