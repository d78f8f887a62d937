//! Simulation ticks: wrapping 16-bit counters compared modulo 2^16 with
//! a signed half-window, so that ordering stays correct across
//! wraparound.
use vstd::prelude::*;
use vstd::arithmetic::div_mod::lemma_fundamental_div_mod;
use vstd::arithmetic::div_mod::lemma_mod_add_multiples_vanish;
use vstd::arithmetic::div_mod::lemma_mod_division_less_than_divisor;
use vstd::arithmetic::div_mod::lemma_mod_multiples_vanish;
use vstd::arithmetic::div_mod::lemma_small_mod;

verus! {

/// Number of distinct tick values.
pub const TICK_MODULUS: u32 = 0x10000;

/// Half of the tick space; differences are interpreted in
/// [-TICK_HALF, TICK_HALF).
pub const TICK_HALF: u32 = 0x8000;

/// Signed distance from `b` to `a` modulo 2^16, in [-0x8000, 0x8000).
/// Positive means `a` is ahead of (newer than) `b`.
pub open spec fn tick_delta(a: u16, b: u16) -> int {
    let d = (a - b) % 0x10000;
    if d < 0x8000 {
        d
    } else {
        d - 0x10000
    }
}

/// The tick reached from `t` by stepping forward `n` ticks (`n` may be
/// negative), modulo 2^16.
pub open spec fn tick_plus(t: u16, n: int) -> u16 {
    ((((t + n) % 0x10000) + 0x10000) % 0x10000) as u16
}

pub proof fn lemma_tick_delta_range(a: u16, b: u16)
    ensures
        -0x8000 <= tick_delta(a, b) < 0x8000,
{
    lemma_mod_division_less_than_divisor(a - b, 0x10000);
}

/// The delta is zero exactly when the ticks are equal.
pub proof fn lemma_tick_delta_zero(a: u16, b: u16)
    ensures
        tick_delta(a, b) == 0 <==> a == b,
{
    if a >= b {
        lemma_small_mod((a - b) as nat, 0x10000);
    } else {
        lemma_mod_add_multiples_vanish(a - b, 0x10000);
        lemma_small_mod((a - b + 0x10000) as nat, 0x10000);
    }
}

/// Signed distance between two ticks, as an `i32`.
pub fn tick_diff(a: u16, b: u16) -> (d: i32)
    ensures
        d == tick_delta(a, b),
{
    let raw: u32 = (a as u32) + TICK_MODULUS - (b as u32);
    let m: u32 = raw % TICK_MODULUS;
    proof {
        assert(m == (a - b) % 0x10000 && m < 0x10000) by {
            lemma_mod_add_multiples_vanish(a - b, 0x10000);
            lemma_mod_division_less_than_divisor(a - b, 0x10000);
        }
    }
    if m < TICK_HALF {
        m as i32
    } else {
        (m as i32) - 0x10000
    }
}

/// Advance a tick by `n`, wrapping at 2^16.
pub fn tick_add(t: u16, n: u16) -> (r: u16)
    ensures
        r == tick_plus(t, n as int),
        n < 0x8000 ==> tick_delta(r, t) == n,
{
    let s: u32 = ((t as u32) + (n as u32)) % TICK_MODULUS;
    proof {
        assert(s == (t + n) % 0x10000 && s < 0x10000) by {
            lemma_mod_division_less_than_divisor(t + n, 0x10000);
        }
        assert(((s as int) + 0x10000) % 0x10000 == s) by {
            lemma_mod_add_multiples_vanish(s as int, 0x10000);
            lemma_small_mod(s as nat, 0x10000);
        }
        if n < 0x8000 {
            lemma_tick_delta_of_add(t, n as int);
        }
    }
    s as u16
}

/// Step a tick back by `n`, wrapping at 2^16.
pub fn tick_sub(t: u16, n: u16) -> (r: u16)
    ensures
        r == tick_plus(t, -(n as int)),
        n < 0x8000 ==> tick_delta(t, r) == n,
{
    let s: u32 = ((t as u32) + TICK_MODULUS - (n as u32)) % TICK_MODULUS;
    proof {
        assert(s == (t - n) % 0x10000 && s < 0x10000) by {
            lemma_mod_add_multiples_vanish(t - n, 0x10000);
            lemma_mod_division_less_than_divisor(t - n, 0x10000);
        }
        assert(((s as int) + 0x10000) % 0x10000 == s) by {
            lemma_mod_add_multiples_vanish(s as int, 0x10000);
            lemma_small_mod(s as nat, 0x10000);
        }
        if 0 < n && n < 0x8000 {
            lemma_tick_delta_of_add(t, -(n as int));
            lemma_tick_delta_antisym(tick_plus(t, -(n as int)), t);
        }
        if n == 0 {
            lemma_tick_delta_zero(t, s as u16);
        }
    }
    s as u16
}

/// `a` is strictly newer than `b` in the wrapping order.
pub fn tick_newer(a: u16, b: u16) -> (r: bool)
    ensures
        r == (tick_delta(a, b) > 0),
{
    tick_diff(a, b) > 0
}

/// Stepping forward by `n` (within the half-window) moves the delta by
/// exactly `n`: tick comparisons stay correct across wraparound.
pub proof fn lemma_tick_delta_of_add(t: u16, n: int)
    requires
        -0x8000 <= n < 0x8000,
    ensures
        tick_delta(tick_plus(t, n), t) == n,
{
    lemma_mod_division_less_than_divisor(t + n, 0x10000);
    lemma_mod_add_multiples_vanish((t + n) % 0x10000, 0x10000);
    lemma_small_mod(((t + n) % 0x10000) as nat, 0x10000);
    let s = tick_plus(t, n) as int;
    assert(s == (t + n) % 0x10000);
    assert((s - t) % 0x10000 == n % 0x10000) by {
        lemma_fundamental_div_mod(t + n, 0x10000);
        let q = (t + n) / 0x10000;
        assert(s == t + n - 0x10000 * q);
        assert(s - t == 0x10000 * (-q) + n);
        lemma_mod_multiples_vanish(-q, n, 0x10000);
    }
    if n >= 0 {
        lemma_small_mod(n as nat, 0x10000);
    } else {
        lemma_mod_add_multiples_vanish(n, 0x10000);
        lemma_small_mod((n + 0x10000) as nat, 0x10000);
    }
}

/// The delta is congruent to the plain difference modulo 2^16.
pub proof fn lemma_tick_delta_congruent(a: u16, b: u16)
    ensures
        (a - b - tick_delta(a, b)) % 0x10000 == 0,
{
    lemma_fundamental_div_mod(a - b, 0x10000);
    let q = (a - b) / 0x10000;
    let d = (a - b) % 0x10000;
    if d < 0x8000 {
        assert(a - b - d == 0x10000 * q);
        lemma_mod_multiples_vanish(q, 0, 0x10000);
        lemma_small_mod(0, 0x10000);
    } else {
        assert(a - b - (d - 0x10000) == 0x10000 * (q + 1));
        lemma_mod_multiples_vanish(q + 1, 0, 0x10000);
        lemma_small_mod(0, 0x10000);
    }
}

/// A value in the half-open window that is congruent to the difference
/// is the delta: the representative is unique.
pub proof fn lemma_tick_delta_unique(a: u16, b: u16, v: int)
    requires
        -0x8000 <= v < 0x8000,
        (a - b - v) % 0x10000 == 0,
    ensures
        tick_delta(a, b) == v,
{
    lemma_fundamental_div_mod(a - b - v, 0x10000);
    lemma_mod_division_less_than_divisor(a - b - v, 0x10000);
    let q0 = (a - b - v) / 0x10000;
    assert(a - b == 0x10000 * q0 + v);
    lemma_mod_multiples_vanish(q0, v, 0x10000);
    assert((a - b) % 0x10000 == v % 0x10000);
    if v >= 0 {
        lemma_small_mod(v as nat, 0x10000);
    } else {
        lemma_mod_add_multiples_vanish(v, 0x10000);
        lemma_small_mod((v + 0x10000) as nat, 0x10000);
    }
}

/// Deltas add up as long as the sum stays inside the half-window.
pub proof fn lemma_tick_delta_additive(a: u16, b: u16, c: u16)
    requires
        -0x8000 <= tick_delta(a, b) + tick_delta(b, c) < 0x8000,
    ensures
        tick_delta(a, c) == tick_delta(a, b) + tick_delta(b, c),
{
    let d1 = tick_delta(a, b);
    let d2 = tick_delta(b, c);
    lemma_tick_delta_congruent(a, b);
    lemma_tick_delta_congruent(b, c);
    lemma_fundamental_div_mod(a - b - d1, 0x10000);
    lemma_fundamental_div_mod(b - c - d2, 0x10000);
    let q1 = (a - b - d1) / 0x10000;
    let q2 = (b - c - d2) / 0x10000;
    assert(a - c - (d1 + d2) == 0x10000 * (q1 + q2));
    lemma_mod_multiples_vanish(q1 + q2, 0, 0x10000);
    lemma_small_mod(0, 0x10000);
    lemma_tick_delta_unique(a, c, d1 + d2);
}

/// When the sum of two deltas leaves the half-window upward, the
/// composed delta wraps around.
pub proof fn lemma_tick_delta_additive_wrapped(a: u16, b: u16, c: u16)
    requires
        0x8000 <= tick_delta(a, b) + tick_delta(b, c),
    ensures
        tick_delta(a, c) == tick_delta(a, b) + tick_delta(b, c) - 0x10000,
{
    let d1 = tick_delta(a, b);
    let d2 = tick_delta(b, c);
    lemma_tick_delta_range(a, b);
    lemma_tick_delta_range(b, c);
    lemma_tick_delta_congruent(a, b);
    lemma_tick_delta_congruent(b, c);
    lemma_fundamental_div_mod(a - b - d1, 0x10000);
    lemma_fundamental_div_mod(b - c - d2, 0x10000);
    let q1 = (a - b - d1) / 0x10000;
    let q2 = (b - c - d2) / 0x10000;
    assert(a - c - (d1 + d2 - 0x10000) == 0x10000 * (q1 + q2 + 1));
    lemma_mod_multiples_vanish(q1 + q2 + 1, 0, 0x10000);
    lemma_small_mod(0, 0x10000);
    lemma_tick_delta_unique(a, c, d1 + d2 - 0x10000);
}

/// Distinct ticks have distinct deltas from a common reference.
pub proof fn lemma_tick_delta_injective(r: u16, a: u16, b: u16)
    requires
        tick_delta(r, a) == tick_delta(r, b),
    ensures
        a == b,
{
    let v = tick_delta(r, a);
    lemma_tick_delta_congruent(r, a);
    lemma_tick_delta_congruent(r, b);
    lemma_fundamental_div_mod(r - a - v, 0x10000);
    lemma_fundamental_div_mod(r - b - v, 0x10000);
    let qa = (r - a - v) / 0x10000;
    let qb = (r - b - v) / 0x10000;
    assert(b - a == 0x10000 * (qa - qb));
    assert(qa == qb) by (nonlinear_arith)
        requires
            b - a == 0x10000 * (qa - qb),
            -0x10000 < b - a < 0x10000,
    ;
}

/// Within the open half-window the delta is antisymmetric.
pub proof fn lemma_tick_delta_antisym(a: u16, b: u16)
    requires
        tick_delta(a, b) != -0x8000,
    ensures
        tick_delta(a, b) == -tick_delta(b, a),
{
    lemma_mod_division_less_than_divisor(a - b, 0x10000);
    lemma_mod_division_less_than_divisor(b - a, 0x10000);
    lemma_fundamental_div_mod(a - b, 0x10000);
    lemma_fundamental_div_mod(b - a, 0x10000);
    let da = (a - b) % 0x10000;
    let db = (b - a) % 0x10000;
    assert(da + db == 0 || da + db == 0x10000) by {
        let qa = (a - b) / 0x10000;
        let qb = (b - a) / 0x10000;
        assert(da + db == -(qa + qb) * 0x10000) by (nonlinear_arith)
            requires
                da == (a - b) - 0x10000 * qa,
                db == (b - a) - 0x10000 * qb,
        ;
        assert(-(qa + qb) == 0 || -(qa + qb) == 1) by (nonlinear_arith)
            requires
                da + db == -(qa + qb) * 0x10000,
                0 <= da + db < 2 * 0x10000,
        ;
    }
}

} // verus!
