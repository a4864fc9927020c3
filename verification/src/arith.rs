//! Arithmetic on doubles, each result rounded to the nearest double.

use crate::num::{magnitude, nearest, Num, FRACTIONS};
use crate::rounding::one;
use vstd::arithmetic::div_mod::{lemma_fundamental_div_mod, lemma_fundamental_div_mod_converse};
use vstd::arithmetic::power2::{lemma_pow2_adds, lemma_pow2_pos, lemma_pow2_unfold, pow2};
use vstd::prelude::*;

verus! {

/// How often `d` is doubled before it is held less than twice `FRACTIONS` times by `n`.
pub open spec fn halvings(n: nat, d: nat) -> nat
    decreases
        (if n >= 2 * FRACTIONS * d {
            n - 2 * FRACTIONS * d + 1
        } else {
            0
        }),
{
    if d == 0 || n < 2 * FRACTIONS * d {
        0
    } else {
        proof {
            assert(2 * FRACTIONS * (2 * d) == 2 * (2 * FRACTIONS * d)) by (nonlinear_arith);
            assert(2 * FRACTIONS * d > 0) by (nonlinear_arith)
                requires
                    d > 0,
            ;
        }
        halvings(n, 2 * d) + 1
    }
}

/// The key of the double nearest to `n / d` units, ties going to the even one.
pub open spec fn double_key(n: nat, d: nat) -> int {
    let e = halvings(n, d);
    e * FRACTIONS + nearest(n, d * pow2(e))
}

proof fn lemma_halvings_are(n: nat, d: nat, e: nat)
    requires
        d > 0,
        n < 2 * FRACTIONS * (d * pow2(e)),
        e == 0 || n >= FRACTIONS * (d * pow2(e)),
    ensures
        halvings(n, d) == e,
    decreases e,
{
    vstd::arithmetic::power2::lemma2_to64();
    if e == 0 {
        assert(d * 1 == d);
    } else {
        let p = pow2((e - 1) as nat);
        lemma_pow2_unfold(e);
        lemma_pow2_pos((e - 1) as nat);
        assert(d * (2 * p) == (2 * d) * p) by (nonlinear_arith);
        assert(d * p >= d) by (nonlinear_arith)
            requires
                p >= 1,
        ;
        assert(d * (2 * p) == 2 * (d * p)) by (nonlinear_arith);
        assert(FRACTIONS * (2 * (d * p)) >= 2 * FRACTIONS * d) by (nonlinear_arith)
            requires
                d * p >= d,
        ;
        if e > 1 {
            lemma_halvings_are(n, 2 * d, (e - 1) as nat);
        } else {
            assert(p == 1);
            lemma_halvings_are(n, 2 * d, 0);
        }
    }
}

/// Scaling both sides of a fraction does not move the integer nearest to it.
proof fn lemma_nearest_scales(n: nat, d: nat, c: nat)
    requires
        d > 0,
        c > 0,
    ensures
        nearest(n * c, d * c) == nearest(n, d),
{
    let q = n / d;
    let r = n % d;
    lemma_fundamental_div_mod(n as int, d as int);
    assert(n * c == (d * c) * q + r * c) by (nonlinear_arith)
        requires
            n == d * q + r,
    ;
    assert(0 <= r * c < d * c) by (nonlinear_arith)
        requires
            0 <= r < d,
            c > 0,
    ;
    assert(q * (d * c) == (d * c) * q) by (nonlinear_arith);
    lemma_fundamental_div_mod_converse((n * c) as int, (d * c) as int, q as int, (r * c) as int);
    assert(2 * (r * c) > d * c <==> 2 * r > d) by (nonlinear_arith)
        requires
            c > 0,
    ;
    assert(2 * (r * c) == d * c <==> 2 * r == d) by (nonlinear_arith)
        requires
            c > 0,
    ;
}

/// Scaling both sides of a fraction does not change the double nearest to it.
proof fn lemma_key_scales(n: nat, d: nat, c: nat)
    requires
        d > 0,
        c > 0,
    ensures
        d * c > 0,
        double_key(n * c, d * c) == double_key(n, d),
{
    assert(d * c > 0) by (nonlinear_arith)
        requires
            d > 0,
            c > 0,
    ;
    lemma_halvings_scale(n, d, c);
    let e = halvings(n, d);
    lemma_pow2_pos(e);
    let p = pow2(e);
    assert((d * c) * p == (d * p) * c) by (nonlinear_arith);
    assert(d * p > 0) by (nonlinear_arith)
        requires
            d > 0,
            p > 0,
    ;
    lemma_nearest_scales(n, d * p, c);
}

proof fn lemma_halvings_scale(n: nat, d: nat, c: nat)
    requires
        d > 0,
        c > 0,
    ensures
        halvings(n * c, d * c) == halvings(n, d),
    decreases
        (if n >= 2 * FRACTIONS * d {
            n - 2 * FRACTIONS * d + 1
        } else {
            0
        }),
{
    assert(d * c > 0) by (nonlinear_arith)
        requires
            d > 0,
            c > 0,
    ;
    assert(n * c < 2 * FRACTIONS * (d * c) <==> n < 2 * FRACTIONS * d) by (nonlinear_arith)
        requires
            c > 0,
    ;
    if n >= 2 * FRACTIONS * d {
        assert((2 * d) * c == 2 * (d * c)) by (nonlinear_arith);
        assert(2 * FRACTIONS * (2 * d) == 2 * (2 * FRACTIONS * d)) by (nonlinear_arith);
        assert(2 * FRACTIONS * d > 0) by (nonlinear_arith)
            requires
                d > 0,
        ;
        lemma_halvings_scale(n, 2 * d, c);
    }
}

/// `p`, or zero if it is negative.
pub open spec fn above_zero(p: int) -> nat {
    if p > 0 {
        p as nat
    } else {
        0
    }
}

/// The key of the double nearest to `t` times two to the power of `p` units.
pub open spec fn scaled_key(t: nat, p: int) -> int {
    double_key(t * pow2(above_zero(p)), pow2(above_zero(-p)))
}

/// Cutting off `shift` bits leaves a number of 53 bits, or all that the least exponent allows.
proof fn lemma_cut(t: nat, p: int, e: nat)
    requires
        e >= p,
        t < 2 * FRACTIONS * pow2((e - p) as nat),
        e == 0 || t >= FRACTIONS * pow2((e - p) as nat),
    ensures
        scaled_key(t, p) == e * FRACTIONS + nearest(t, pow2((e - p) as nat)),
{
    let s = (e - p) as nat;
    let c = pow2(above_zero(p));
    let d = pow2(above_zero(-p));
    let n = t * c;
    lemma_pow2_pos(above_zero(p));
    lemma_pow2_pos(above_zero(-p));
    lemma_pow2_pos(s);
    lemma_pow2_adds(above_zero(-p), e);
    lemma_pow2_adds(s, above_zero(p));
    let b = pow2(s);
    assert(d * pow2(e) == b * c);
    assert(n < 2 * FRACTIONS * (b * c)) by (nonlinear_arith)
        requires
            n == t * c,
            c > 0,
            t < 2 * FRACTIONS * b,
    ;
    if e > 0 {
        assert(n >= FRACTIONS * (b * c)) by (nonlinear_arith)
            requires
                n == t * c,
                c > 0,
                t >= FRACTIONS * b,
        ;
    }
    lemma_halvings_are(n, d, e);
    lemma_nearest_scales(t, b, c);
}

/// Adding zero bits leaves the number as it is.
proof fn lemma_stretch(t: nat, p: int, e: nat)
    requires
        e < p,
        t * pow2((p - e) as nat) < 2 * FRACTIONS,
        e == 0 || t * pow2((p - e) as nat) >= FRACTIONS,
    ensures
        scaled_key(t, p) == e * FRACTIONS + t * pow2((p - e) as nat),
{
    let s = (p - e) as nat;
    let b = pow2(s);
    let c = pow2(e);
    lemma_pow2_pos(e);
    vstd::arithmetic::power2::lemma2_to64();
    lemma_pow2_adds(s, e);
    let n = t * pow2(p as nat);
    assert(n == (t * b) * c) by (nonlinear_arith)
        requires
            n == t * (b * c),
    ;
    assert((t * b) * c < 2 * FRACTIONS * (1 * c)) by (nonlinear_arith)
        requires
            t * b < 2 * FRACTIONS,
            c > 0,
    ;
    if e > 0 {
        assert((t * b) * c >= FRACTIONS * (1 * c)) by (nonlinear_arith)
            requires
                t * b >= FRACTIONS,
                c > 0,
        ;
    }
    lemma_halvings_are(n, 1, e);
    lemma_nearest_scales(t * b, 1, c);
    assert(nearest(t * b, 1) == t * b) by {
        assert((t * b) / 1 == t * b && (t * b) % 1 == 0);
    }
    assert(t * pow2(above_zero(p)) == n);
}

/// How far `t` has to be shifted to the right to hold 53 bits; to the left if negative.
fn excess(t: u128) -> (r: i32)
    requires
        0 < t,
        t < 0x1000_0000_0000_0000_0000_0000_0000_0000,
    ensures
        -52 <= r <= 71,
        r >= 0 ==> FRACTIONS * pow2(r as nat) <= t < 2 * FRACTIONS * pow2(r as nat),
        r < 0 ==> FRACTIONS <= t * pow2((-r) as nat) < 2 * FRACTIONS,
{
    let mut r: i32 = 0;
    let mut v: u128 = t;
    proof {
        vstd::arithmetic::power2::lemma2_to64();
        assert(t * 1 == t);
    }
    if v < 0x10_0000_0000_0000u128 {
        while v < 0x10_0000_0000_0000u128
            invariant
                0 < t,
                -52 <= r <= 0,
                v == t * pow2((-r) as nat),
                0 < v < 2 * FRACTIONS,
                v >= pow2((-r) as nat),
            decreases 2 * FRACTIONS - v,
        {
            proof {
                lemma_pow2_unfold((1 - r) as nat);
                let p = pow2((-r) as nat);
                assert(t * (2 * p) == 2 * (t * p)) by (nonlinear_arith);
                vstd::arithmetic::power2::lemma2_to64_rest();
                if r == -52 {
                    assert(pow2(52) == FRACTIONS);
                }
            }
            v = v * 2;
            r = r - 1;
        }
    } else {
        let mut top: u128 = 0x20_0000_0000_0000u128;
        proof {
            assert(2 * FRACTIONS * 1 == top);
        }
        while top <= t
            invariant
                t < 0x1000_0000_0000_0000_0000_0000_0000_0000,
                0 <= r <= 71,
                top == 2 * FRACTIONS * pow2(r as nat),
                FRACTIONS * pow2(r as nat) <= t,
            decreases
                (if top <= t {
                    t - top + 1
                } else {
                    0
                }),
        {
            proof {
                lemma_pow2_unfold((r + 1) as nat);
                lemma_pow2_pos(r as nat);
                let p = pow2(r as nat);
                assert(2 * FRACTIONS * (2 * p) == 2 * (2 * FRACTIONS * p)) by (nonlinear_arith);
                assert(FRACTIONS * (2 * p) == 2 * FRACTIONS * p) by (nonlinear_arith);
                if r == 71 {
                    assert(pow2(71) == 0x80_0000_0000_0000_0000) by {
                        lemma_pow2_adds(64, 7);
                        vstd::arithmetic::power2::lemma2_to64();
                        vstd::arithmetic::power2::lemma2_to64_rest();
                    }
                }
            }
            top = top * 2;
            r = r + 1;
        }
    }
    r
}

/// The integer nearest to `t` divided by two to the power of `s`, ties going to the even one.
fn cut(t: u128, s: u32) -> (m: u128)
    requires
        t < 0x1000_0000_0000_0000_0000_0000_0000_0000,
    ensures
        m == nearest(t as nat, pow2(s as nat)),
{
    proof {
        lemma_pow2_pos(s as nat);
    }
    if s >= 126 {
        proof {
            assert(pow2(126) == 0x4000_0000_0000_0000_0000_0000_0000_0000) by {
                lemma_pow2_adds(64, 62);
                vstd::arithmetic::power2::lemma2_to64_rest();
            }
            if s > 126 {
                vstd::arithmetic::power2::lemma_pow2_strictly_increases(126, s as nat);
            }
            lemma_fundamental_div_mod_converse(t as int, pow2(s as nat) as int, 0, t as int);
        }
        return 0;
    }
    let mut d: u128 = 1;
    let mut i: u32 = 0;
    proof {
        vstd::arithmetic::power2::lemma2_to64();
        assert(pow2(126) == 0x4000_0000_0000_0000_0000_0000_0000_0000) by {
            lemma_pow2_adds(64, 62);
            vstd::arithmetic::power2::lemma2_to64_rest();
        }
    }
    while i < s
        invariant
            i <= s < 126,
            d == pow2(i as nat),
            pow2(126) == 0x4000_0000_0000_0000_0000_0000_0000_0000,
        decreases s - i,
    {
        proof {
            lemma_pow2_unfold((i + 1) as nat);
            vstd::arithmetic::power2::lemma_pow2_strictly_increases(i as nat, 126);
        }
        d = d * 2;
        i = i + 1;
    }
    let below: u128 = t / d;
    let left: u128 = t % d;
    proof {
        vstd::arithmetic::power2::lemma_pow2_strictly_increases(s as nat, 126);
        vstd::arithmetic::div_mod::lemma_div_is_ordered_by_denominator(t as int, 1, d as int);
    }
    if 2 * left > d || (2 * left == d && below % 2 == 1) {
        below + 1
    } else {
        below
    }
}

/// The key beyond all finite doubles.
pub const ENDLESS: u64 = 0x7ff0_0000_0000_0000;

/// A key, or the one beyond all finite doubles.
pub open spec fn bounded(k: int) -> int {
    if k < ENDLESS {
        k
    } else {
        ENDLESS as int
    }
}

/// The double nearest to `v / d` units, ties going to the even one.
#[verifier::opaque]
pub open spec fn nearest_double(v: int, d: nat) -> Num {
    if v >= 0 {
        Num::at(bounded(double_key(v as nat, d)))
    } else {
        Num::at(-bounded(double_key((-v) as nat, d)))
    }
}

/// The double nearest to `t` times two to the power of `p` units.
fn settle(t: u128, p: i32) -> (k: u64)
    requires
        0 < t,
        t < 0x1000_0000_0000_0000_0000_0000_0000_0000,
        -10_000 <= p <= 10_000,
    ensures
        k == bounded(scaled_key(t as nat, p as int)),
{
    let r: i32 = excess(t);
    let e: i32 = if p + r > 0 {
        p + r
    } else {
        0
    };
    let m: u128 = if e >= p {
        proof {
            let s = (e - p) as nat;
            if e == 0 {
                lemma_pow2_pos(s);
                if r >= 0 {
                    if s > r {
                        vstd::arithmetic::power2::lemma_pow2_strictly_increases(r as nat, s);
                    }
                    assert(2 * FRACTIONS * pow2(r as nat) <= 2 * FRACTIONS * pow2(s)) by (nonlinear_arith)
                        requires
                            pow2(r as nat) <= pow2(s),
                    ;
                } else {
                    lemma_pow2_pos((-r) as nat);
                    let b = pow2((-r) as nat);
                    assert(t <= t * b) by (nonlinear_arith)
                        requires
                            b >= 1,
                    ;
                    assert(2 * FRACTIONS * pow2(s) >= 2 * FRACTIONS) by (nonlinear_arith)
                        requires
                            pow2(s) >= 1,
                    ;
                }
            }
            lemma_cut(t as nat, p as int, e as nat);
            lemma_cut_small(t as nat, s);
        }
        cut(t, (e - p) as u32)
    } else {
        proof {
            let s = (p - e) as nat;
            if e == 0 {
                if s < -r {
                    vstd::arithmetic::power2::lemma_pow2_strictly_increases(s, (-r) as nat);
                }
                assert(t * pow2(s) <= t * pow2((-r) as nat)) by (nonlinear_arith)
                    requires
                        pow2(s) <= pow2((-r) as nat),
                ;
            }
            lemma_stretch(t as nat, p as int, e as nat);
        }
        stretch(t, (p - e) as u32)
    };
    if e >= 2046 {
        proof {
            assert(m >= FRACTIONS) by {
                if e >= p {
                    lemma_cut_large(t as nat, (e - p) as nat);
                }
            }
            assert(e * FRACTIONS >= 2046 * FRACTIONS) by (nonlinear_arith)
                requires
                    e >= 2046,
            ;
        }
        return ENDLESS;
    }
    proof {
        assert(0 <= e * FRACTIONS <= 2045 * FRACTIONS) by (nonlinear_arith)
            requires
                0 <= e <= 2045,
        ;
    }
    e as u64 * FRACTIONS as u64 + m as u64
}

proof fn lemma_cut_small(t: nat, s: nat)
    requires
        t < 2 * FRACTIONS * pow2(s),
    ensures
        nearest(t, pow2(s)) <= 2 * FRACTIONS,
{
    lemma_pow2_pos(s);
    let b = pow2(s);
    assert(t / b < 2 * FRACTIONS) by (nonlinear_arith)
        requires
            t < 2 * FRACTIONS * b,
            b > 0,
    ;
}

proof fn lemma_cut_large(t: nat, s: nat)
    requires
        t >= FRACTIONS * pow2(s),
    ensures
        nearest(t, pow2(s)) >= FRACTIONS,
{
    lemma_pow2_pos(s);
    let b = pow2(s);
    assert(t / b >= FRACTIONS) by (nonlinear_arith)
        requires
            t >= FRACTIONS * b,
            b > 0,
    ;
}

/// `t` times two to the power of `s`.
fn stretch(t: u128, s: u32) -> (m: u128)
    requires
        t * pow2(s as nat) < 2 * FRACTIONS,
    ensures
        m == t * pow2(s as nat),
{
    let mut m: u128 = t;
    let mut i: u32 = 0;
    proof {
        vstd::arithmetic::power2::lemma2_to64();
        assert(t * 1 == t);
    }
    while i < s
        invariant
            i <= s,
            m == t * pow2(i as nat),
            t * pow2(s as nat) < 2 * FRACTIONS,
        decreases s - i,
    {
        proof {
            lemma_pow2_unfold((i + 1) as nat);
            let p = pow2(i as nat);
            assert(t * (2 * p) == 2 * (t * p)) by (nonlinear_arith);
            if i + 1 < s {
                vstd::arithmetic::power2::lemma_pow2_strictly_increases((i + 1) as nat, s as nat);
            }
            assert(t * pow2((i + 1) as nat) <= t * pow2(s as nat)) by (nonlinear_arith)
                requires
                    pow2((i + 1) as nat) <= pow2(s as nat),
            ;
        }
        m = m * 2;
        i = i + 1;
    }
    m
}

/// Takes the bits of a magnitude apart: `m` times two to the power of `s`.
fn parts(k: u64) -> (r: (u64, i32))
    requires
        k <= 0x8000_0000_0000_0000,
    ensures
        magnitude(k as nat) == r.0 * pow2(r.1 as nat),
        r.0 < 2 * FRACTIONS,
        0 <= r.1 <= 2047,
        r.1 > 0 ==> r.0 >= FRACTIONS,
        k == r.1 * FRACTIONS + r.0,
        r.0 == 0 <==> k == 0,
{
    let x: u64 = k / FRACTIONS as u64;
    let f: u64 = k % FRACTIONS as u64;
    proof {
        vstd::arithmetic::power2::lemma2_to64();
        assert(f * 1 == f);
        lemma_fundamental_div_mod(k as int, FRACTIONS as int);
        assert((x - 1) * FRACTIONS + FRACTIONS == FRACTIONS * x) by (nonlinear_arith);
    }
    if x == 0 {
        (f, 0)
    } else {
        (FRACTIONS as u64 + f, (x - 1) as i32)
    }
}

/// A magnitude that is far below another one does not change it.
proof fn lemma_far_sum(m: nat, s: nat, rest: nat)
    requires
        FRACTIONS <= m < 2 * FRACTIONS,
        s >= 2,
        rest < pow2((s - 2) as nat),
    ensures
        double_key(m * pow2(s) + rest, 1) == s * FRACTIONS + m,
{
    let b = pow2(s);
    lemma_pow2_unfold(s);
    lemma_pow2_unfold((s - 1) as nat);
    lemma_pow2_pos((s - 2) as nat);
    let n = m * b + rest;
    assert(n < 2 * FRACTIONS * (1 * b)) by (nonlinear_arith)
        requires
            n == m * b + rest,
            m <= 2 * FRACTIONS - 1,
            rest < b,
    ;
    assert(n >= FRACTIONS * (1 * b)) by (nonlinear_arith)
        requires
            n == m * b + rest,
            m >= FRACTIONS,
    ;
    lemma_halvings_are(n, 1, s);
    lemma_fundamental_div_mod_converse(n as int, b as int, m as int, rest as int);
}

/// A magnitude that is far below another one does not change it when it is taken away.
proof fn lemma_far_difference(m: nat, s: nat, rest: nat)
    requires
        FRACTIONS <= m < 2 * FRACTIONS,
        s >= 2,
        rest < pow2((s - 2) as nat),
    ensures
        m * pow2(s) >= rest,
        double_key((m * pow2(s) - rest) as nat, 1) == s * FRACTIONS + m,
{
    let b = pow2(s);
    let h = pow2((s - 1) as nat);
    let q = pow2((s - 2) as nat);
    lemma_pow2_unfold(s);
    lemma_pow2_unfold((s - 1) as nat);
    lemma_pow2_pos((s - 2) as nat);
    assert(m * b >= b) by (nonlinear_arith)
        requires
            m >= 1,
    ;
    let n = (m * b - rest) as nat;
    if rest == 0 {
        lemma_far_sum(m, s, 0);
    } else if m > FRACTIONS {
        assert(n < 2 * FRACTIONS * (1 * b)) by (nonlinear_arith)
            requires
                n == m * b - rest,
                rest > 0,
                m <= 2 * FRACTIONS,
        ;
        assert(n >= FRACTIONS * (1 * b)) by (nonlinear_arith)
            requires
                n == m * b - rest,
                rest <= b,
                m >= FRACTIONS + 1,
        ;
        lemma_halvings_are(n, 1, s);
        assert(n == (m - 1) * b + (b - rest)) by (nonlinear_arith)
            requires
                n == m * b - rest,
        ;
        lemma_fundamental_div_mod_converse(n as int, b as int, m - 1, b - rest);
    } else {
        assert(n == 2 * FRACTIONS * h - rest) by (nonlinear_arith)
            requires
                n == m * b - rest,
                m == FRACTIONS,
                b == 2 * h,
        ;
        assert(n < 2 * FRACTIONS * (1 * h));
        assert(n >= FRACTIONS * (1 * h)) by (nonlinear_arith)
            requires
                n == 2 * FRACTIONS * h - rest,
                rest <= h,
        ;
        lemma_halvings_are(n, 1, (s - 1) as nat);
        assert(n == (2 * FRACTIONS - 1) * h + (h - rest)) by (nonlinear_arith)
            requires
                n == 2 * FRACTIONS * h - rest,
        ;
        lemma_fundamental_div_mod_converse(n as int, h as int, 2 * FRACTIONS - 1, h - rest);
        assert((s - 1) * FRACTIONS + 2 * FRACTIONS == s * FRACTIONS + FRACTIONS) by (nonlinear_arith);
    }
}

/// The lesser of two magnitudes that lie 55 doublings apart is less than a quarter of the
/// gap between doubles at the greater one.
proof fn lemma_far_apart(m: nat, s: nat, t: nat)
    requires
        m < 2 * FRACTIONS,
        s >= t + 55,
    ensures
        m * pow2(t) < pow2((s - 2) as nat),
{
    vstd::arithmetic::power2::lemma2_to64_rest();
    lemma_pow2_adds(53, t);
    lemma_pow2_pos(t);
    let p = pow2(t);
    assert(m * p < 0x20_0000_0000_0000 * p) by (nonlinear_arith)
        requires
            m < 0x20_0000_0000_0000,
            p > 0,
    ;
    if s - 2 > 53 + t {
        vstd::arithmetic::power2::lemma_pow2_strictly_increases(53 + t, (s - 2) as nat);
    }
}

/// `t` shifted left by `d`.
fn raised(t: u64, d: u32) -> (r: u128)
    requires
        t < 2 * FRACTIONS,
        d <= 64,
    ensures
        r == t * pow2(d as nat),
        r < 0x20_0000_0000_0000_0000_0000_0000_0000,
{
    let mut r: u128 = t as u128;
    let mut i: u32 = 0;
    proof {
        vstd::arithmetic::power2::lemma2_to64();
        assert(t * 1 == t);
    }
    while i < d
        invariant
            i <= d <= 64,
            t < 2 * FRACTIONS,
            r == t * pow2(i as nat),
        decreases d - i,
    {
        proof {
            lemma_raised(t as nat, i as nat);
            lemma_pow2_unfold((i + 1) as nat);
            let p = pow2(i as nat);
            assert(t * (2 * p) == 2 * (t * p)) by (nonlinear_arith);
        }
        r = r * 2;
        i = i + 1;
    }
    proof {
        lemma_raised(t as nat, d as nat);
    }
    r
}

proof fn lemma_raised(t: nat, d: nat)
    requires
        t < 2 * FRACTIONS,
        d <= 64,
    ensures
        t * pow2(d) < 0x20_0000_0000_0000_0000_0000_0000_0000,
{
    vstd::arithmetic::power2::lemma2_to64();
    if d < 64 {
        vstd::arithmetic::power2::lemma_pow2_strictly_increases(d, 64);
    }
    let p = pow2(d);
    assert(t * p <= 0x1f_ffff_ffff_ffff * 0x1_0000_0000_0000_0000) by (nonlinear_arith)
        requires
            t <= 0x1f_ffff_ffff_ffff,
            p <= 0x1_0000_0000_0000_0000,
    ;
}

/// The sum or the difference of two magnitudes, the greater one first.
fn joint(a: u64, b: u64, less: bool) -> (k: u64)
    requires
        b <= a <= 0x8000_0000_0000_0000,
    ensures
        magnitude(b as nat) <= magnitude(a as nat),
        !less ==> k == bounded(double_key(magnitude(a as nat) + magnitude(b as nat), 1)),
        less ==> k == bounded(
            double_key((magnitude(a as nat) - magnitude(b as nat)) as nat, 1),
        ),
{
    let (m, s): (u64, i32) = parts(a);
    let (n, t): (u64, i32) = parts(b);
    proof {
        if b < a {
            crate::num::lemma_magnitude_increases(b as nat, a as nat);
        }
        vstd::arithmetic::power2::lemma2_to64();
        if s < t {
            assert(s * FRACTIONS + m < t * FRACTIONS + n) by (nonlinear_arith)
                requires
                    s + 1 <= t,
                    m < 2 * FRACTIONS,
                    n >= FRACTIONS,
            ;
        }
    }
    let d: i32 = s - t;
    if d >= 55 {
        proof {
            lemma_far_apart(n as nat, s as nat, t as nat);
            lemma_far_sum(m as nat, s as nat, magnitude(b as nat));
            lemma_far_difference(m as nat, s as nat, magnitude(b as nat));
        }
        return if a < ENDLESS {
            a
        } else {
            ENDLESS
        };
    }
    let top: u128 = raised(m, d as u32);
    proof {
        lemma_pow2_adds(d as nat, t as nat);
        let x = pow2(d as nat);
        let y = pow2(t as nat);
        assert((m * x) * y == m * (x * y)) by (nonlinear_arith);
        lemma_pow2_pos(t as nat);
        assert(magnitude(a as nat) == top * y);
        assert(top * y + n * y == (top + n) * y) by (nonlinear_arith);
        assert(top * y - n * y == (top - n) * y) by (nonlinear_arith);
        if top < n {
            assert((top - n) * y < 0) by (nonlinear_arith)
                requires
                    top < n,
                    y > 0,
            ;
        }
    }
    let whole: u128 = if less {
        top - n as u128
    } else {
        top + n as u128
    };
    if whole == 0 {
        proof {
            let y = pow2(t as nat);
            assert(whole * y == 0) by (nonlinear_arith)
                requires
                    whole == 0,
            ;
            lemma_zero_key(1);
        }
        return 0;
    }
    settle(whole, t)
}

impl Num {
    /// The sum of two numbers, rounded.
    pub open spec fn spec_plus(self, other: Num) -> Num {
        nearest_double(self.value() + other.value(), 1)
    }

    /// The difference of two numbers, rounded.
    pub open spec fn spec_minus(self, other: Num) -> Num {
        nearest_double(self.value() - other.value(), 1)
    }

    /// The product of two numbers, rounded.
    pub open spec fn spec_times(self, other: Num) -> Num {
        nearest_double(self.value() * other.value(), pow2(1074))
    }

    /// The quotient of two numbers, rounded.
    pub open spec fn spec_over(self, other: Num) -> Num {
        if other.value() >= 0 {
            nearest_double(self.value() * one(), other.value() as nat)
        } else {
            nearest_double(-(self.value() * one()), (-other.value()) as nat)
        }
    }

    /// The sum of two signed magnitudes, rounded.
    fn merged(a: u64, a_neg: bool, b: u64, b_neg: bool) -> (r: Num)
        requires
            a <= 0x8000_0000_0000_0000,
            b <= 0x8000_0000_0000_0000,
            a_neg ==> a > 0,
            b_neg ==> b > 0,
        ensures
            r == nearest_double(
                (if a_neg {
                    -magnitude(a as nat)
                } else {
                    magnitude(a as nat) as int
                }) + (if b_neg {
                    -magnitude(b as nat)
                } else {
                    magnitude(b as nat) as int
                }),
                1,
            ),
            -ENDLESS <= r.key <= ENDLESS,
    {
        proof {
            reveal(nearest_double);
            assert(magnitude(0) == 0);
            if a > 0 {
                crate::num::lemma_magnitude_increases(0, a as nat);
            }
            if b > 0 {
                crate::num::lemma_magnitude_increases(0, b as nat);
            }
            if a < b {
                crate::num::lemma_magnitude_increases(a as nat, b as nat);
            }
            lemma_zero_key(1);
        }
        let first: bool = a >= b;
        let k: u64 = if first {
            joint(a, b, a_neg != b_neg)
        } else {
            joint(b, a, a_neg != b_neg)
        };
        let down: bool = if first {
            a_neg
        } else {
            b_neg
        };
        if down {
            Num { key: -(k as i64) }
        } else {
            Num { key: k as i64 }
        }
    }

    /// The sum of two numbers, rounded.
    pub fn plus(self, other: Num) -> (r: Num)
        ensures
            r == self.spec_plus(other),
            -ENDLESS <= r.key <= ENDLESS,
    {
        Num::merged(self.size(), self.key < 0, other.size(), other.key < 0)
    }

    /// The difference of two numbers, rounded.
    pub fn minus(self, other: Num) -> (r: Num)
        ensures
            r == self.spec_minus(other),
            -ENDLESS <= r.key <= ENDLESS,
    {
        proof {
            assert(magnitude(0) == 0);
        }
        Num::merged(self.size(), self.key < 0, other.size(), other.key > 0)
    }

    /// The product of two numbers, rounded.
    pub fn times(self, other: Num) -> (r: Num)
        ensures
            r == self.spec_times(other),
            -ENDLESS <= r.key <= ENDLESS,
    {
        let k: u64 = multiplied(self.size(), other.size());
        proof {
            reveal(nearest_double);
            let x = magnitude(if self.key >= 0 {
                self.key as nat
            } else {
                (-self.key) as nat
            }) as int;
            let y = magnitude(if other.key >= 0 {
                other.key as nat
            } else {
                (-other.key) as nat
            }) as int;
            assert(x * y >= 0 && (-x) * y == -(x * y) && x * (-y) == -(x * y) && (-x) * (-y) == x * y)
                by (nonlinear_arith)
                requires
                    x >= 0,
                    y >= 0,
            ;
            lemma_pow2_pos(1074);
            lemma_zero_key(pow2(1074));
        }
        if (self.key < 0) != (other.key < 0) {
            Num { key: -(k as i64) }
        } else {
            Num { key: k as i64 }
        }
    }
}

proof fn lemma_zero_key(d: nat)
    requires
        d > 0,
    ensures
        double_key(0, d) == 0,
{
    vstd::arithmetic::power2::lemma2_to64();
    assert(2 * FRACTIONS * d > 0) by (nonlinear_arith)
        requires
            d > 0,
    ;
    assert(d * pow2(0) == d);
    assert(0nat / d == 0 && 0nat % d == 0) by {
        lemma_fundamental_div_mod_converse(0, d as int, 0, 0);
    }
}

/// The product of two magnitudes.
fn multiplied(a: u64, b: u64) -> (k: u64)
    requires
        a <= 0x8000_0000_0000_0000,
        b <= 0x8000_0000_0000_0000,
    ensures
        k == bounded(double_key(magnitude(a as nat) * magnitude(b as nat), pow2(1074))),
{
    let (m, s): (u64, i32) = parts(a);
    let (n, t): (u64, i32) = parts(b);
    proof {
        lemma_pow2_pos(1074);
        assert(m * n < 0x400_0000_0000_0000_0000_0000_0000) by (nonlinear_arith)
            requires
                0 <= m < 0x20_0000_0000_0000,
                0 <= n < 0x20_0000_0000_0000,
        ;
        assert(m * n >= 0) by (nonlinear_arith);
    }
    let product: u128 = m as u128 * n as u128;
    if m == 0 || n == 0 {
        proof {
            assert(magnitude(a as nat) * magnitude(b as nat) == 0) by (nonlinear_arith)
                requires
                    magnitude(a as nat) == m * pow2(s as nat),
                    magnitude(b as nat) == n * pow2(t as nat),
                    m == 0 || n == 0,
            ;
            lemma_zero_key(pow2(1074));
        }
        return 0;
    }
    let p: i32 = s + t - 1074;
    proof {
        assert(product > 0) by (nonlinear_arith)
            requires
                product == m * n,
                m > 0,
                n > 0,
        ;
        let x = pow2(s as nat);
        let y = pow2(t as nat);
        lemma_pow2_adds(s as nat, t as nat);
        assert((m * x) * (n * y) == (m * n) * (x * y)) by (nonlinear_arith);
        let low = if s + t < 1074 {
            (s + t) as nat
        } else {
            1074
        };
        let c = pow2(low);
        let up = pow2(above_zero(p as int));
        let down = pow2(above_zero(-p as int));
        lemma_pow2_pos(low);
        lemma_pow2_pos(above_zero(-p as int));
        lemma_pow2_adds(above_zero(p as int), low);
        lemma_pow2_adds(above_zero(-p as int), low);
        assert(product * (up * c) == (product * up) * c) by (nonlinear_arith);
        lemma_key_scales((product * up) as nat, down, c);
    }
    settle(product, p)
}

/// A quotient may be cut short before it is rounded, if a last bit says whether there was more.
proof fn lemma_sticky(x: nat, m: nat, q: nat, left: nat, t: nat, b: nat)
    requires
        m > 0,
        x == m * q + left,
        left < m,
        t == 2 * q + (if left > 0 {
            1nat
        } else {
            0
        }),
        b > 0,
    ensures
        nearest(2 * x, m * (4 * b)) == nearest(t, 4 * b),
        m * (4 * b) > 0,
{
    let f = 4 * b;
    let over = t / f;
    let l = t % f;
    lemma_fundamental_div_mod(t as int, f as int);
    let sigma: int = if left > 0 {
        1
    } else {
        0
    };
    // The remainder is odd just where the last bit is set.
    assert(l % 2 == t % 2) by {
        assert(f * over == 2 * (2 * b * over)) by (nonlinear_arith)
            requires
                f == 4 * b,
        ;
    }
    let rest = m * (l - sigma) + 2 * left;
    assert(m * f > 0) by (nonlinear_arith)
        requires
            m > 0,
            f > 0,
    ;
    assert(2 * x == over * (m * f) + rest) by (nonlinear_arith)
        requires
            x == m * q + left,
            2 * q == f * over + l - sigma,
            rest == m * (l - sigma) + 2 * left,
    ;
    assert(0 <= rest < m * f) by (nonlinear_arith)
        requires
            rest == m * (l - sigma) + 2 * left,
            left < m,
            m > 0,
            0 <= l < f,
            sigma == 0 ==> left == 0,
            sigma == 1 ==> 1 <= l <= f - 1,
            sigma == 0 || sigma == 1,
            left >= 0,
    ;
    lemma_fundamental_div_mod_converse((2 * x) as int, (m * f) as int, over as int, rest);
    if sigma == 0 {
        assert(rest == m * l);
        assert(2 * (m * l) > m * f <==> 2 * l > f) by (nonlinear_arith)
            requires
                m > 0,
        ;
        assert(2 * (m * l) == m * f <==> 2 * l == f) by (nonlinear_arith)
            requires
                m > 0,
        ;
    } else if 2 * l > f {
        assert(2 * l >= f + 2);
        assert(2 * rest > m * f) by (nonlinear_arith)
            requires
                rest == m * (l - 1) + 2 * left,
                left > 0,
                m > 0,
                2 * l >= f + 2,
        ;
    } else {
        assert(2 * l <= f - 2);
        assert(2 * rest < m * f) by (nonlinear_arith)
            requires
                rest == m * (l - 1) + 2 * left,
                left < m,
                m > 0,
                2 * l <= f - 2,
        ;
    }
}

/// Thresholds on a quotient can be tested on the shortened one.
proof fn lemma_sticky_below(x: nat, m: nat, q: nat, left: nat, t: nat, c: nat)
    requires
        m > 0,
        x == m * q + left,
        left < m,
        t == 2 * q + (if left > 0 {
            1nat
        } else {
            0
        }),
    ensures
        2 * x < m * (2 * c) <==> t < 2 * c,
{
    if q < c {
        assert(x < m * c) by (nonlinear_arith)
            requires
                x == m * q + left,
                left < m,
                q + 1 <= c,
        ;
    } else {
        assert(x >= m * c) by (nonlinear_arith)
            requires
                x == m * q + left,
                left >= 0,
                q >= c,
                m > 0,
        ;
    }
    assert(m * (2 * c) == 2 * (m * c)) by (nonlinear_arith);
}

/// The double nearest to a quotient is the one nearest to the shortened quotient.
proof fn lemma_quotient_key(x: nat, m: nat, q: nat, left: nat, t: nat, p: int)
    requires
        m > 0,
        x == m * q + left,
        left < m,
        t == 2 * q + (if left > 0 {
            1nat
        } else {
            0
        }),
        t >= 16 * FRACTIONS,
    ensures
        m * pow2(above_zero(-p)) > 0,
        double_key((2 * x) * pow2(above_zero(p)), m * pow2(above_zero(-p))) == scaled_key(t, p),
{
    let c = pow2(above_zero(p));
    let d = pow2(above_zero(-p));
    lemma_pow2_pos(above_zero(p));
    lemma_pow2_pos(above_zero(-p));
    let n = t * c;
    let e = halvings(n, d);
    lemma_halvings_bounds(n, d);
    lemma_pow2_pos(e);
    assert(m * d > 0) by (nonlinear_arith)
        requires
            m > 0,
            d > 0,
    ;
    // The cut lies at least two bits up.
    lemma_cut_is_high(t, p, e);
    let s = (e - p) as nat;
    let b = pow2((s - 2) as nat);
    lemma_pow2_unfold(s);
    lemma_pow2_unfold((s - 1) as nat);
    lemma_pow2_pos((s - 2) as nat);
    let f = pow2(s);
    assert(f == 4 * b);
    lemma_pow2_adds(above_zero(-p), e);
    lemma_pow2_adds(s, above_zero(p));
    let w = d * pow2(e);
    assert(w == f * c);
    // What was found for the shortened quotient holds for the quotient.
    assert(t < 2 * (FRACTIONS * f)) by (nonlinear_arith)
        requires
            t * c < 2 * FRACTIONS * (f * c),
            c > 0,
    ;
    lemma_sticky_below(x, m, q, left, t, (FRACTIONS * f) as nat);
    lemma_sticky_below(x, m, q, left, t, (2 * FRACTIONS * b) as nat);
    let y = 2 * x;
    assert(y < m * (2 * (FRACTIONS * f)));
    assert(y * c < 2 * FRACTIONS * ((m * d) * pow2(e))) by (nonlinear_arith)
        requires
            y < m * (2 * (FRACTIONS * f)),
            d * pow2(e) == f * c,
            c > 0,
    ;
    if e > 0 {
        assert(t >= 2 * (2 * FRACTIONS * b)) by (nonlinear_arith)
            requires
                t * c >= FRACTIONS * (f * c),
                f == 4 * b,
                c > 0,
        ;
        assert(y >= m * (2 * (2 * FRACTIONS * b)));
        assert(y * c >= FRACTIONS * ((m * d) * pow2(e))) by (nonlinear_arith)
            requires
                y >= m * (2 * (2 * FRACTIONS * b)),
                d * pow2(e) == f * c,
                f == 4 * b,
                c > 0,
        ;
    }
    lemma_halvings_are(y * c, m * d, e);
    lemma_sticky(x, m, q, left, t, b);
    assert((m * d) * pow2(e) == (m * f) * c) by (nonlinear_arith)
        requires
            d * pow2(e) == f * c,
    ;
    lemma_nearest_scales(y, m * f, c);
    lemma_nearest_scales(t, f, c);
}

/// A number of 57 bits or more loses at least two of them.
proof fn lemma_cut_is_high(t: nat, p: int, e: nat)
    requires
        t >= 16 * FRACTIONS,
        t * pow2(above_zero(p)) < 2 * FRACTIONS * (pow2(above_zero(-p)) * pow2(e)),
    ensures
        e >= p + 2,
{
    if e < p + 2 {
        let c = pow2(above_zero(p));
        lemma_pow2_pos(above_zero(p));
        lemma_pow2_adds(above_zero(-p), e);
        lemma_pow2_adds(2, above_zero(p));
        vstd::arithmetic::power2::lemma2_to64();
        vstd::arithmetic::power2::lemma_pow2_strictly_increases(
            (above_zero(-p) + e) as nat,
            (2 + above_zero(p)) as nat,
        );
        let w = pow2(above_zero(-p)) * pow2(e);
        assert(2 * FRACTIONS * w <= 2 * FRACTIONS * (4 * c)) by (nonlinear_arith)
            requires
                w <= 4 * c,
        ;
        assert(t * c >= 16 * FRACTIONS * c) by (nonlinear_arith)
            requires
                t >= 16 * FRACTIONS,
                c > 0,
        ;
        assert(16 * FRACTIONS * c > 2 * FRACTIONS * (4 * c)) by (nonlinear_arith)
            requires
                c > 0,
        ;
    }
}

/// After its halvings a fraction holds 53 bits, or less where it needed none.
pub(crate) proof fn lemma_halvings_bounds(n: nat, d: nat)
    requires
        d > 0,
    ensures
        n < 2 * FRACTIONS * (d * pow2(halvings(n, d))),
        halvings(n, d) > 0 ==> n >= FRACTIONS * (d * pow2(halvings(n, d))),
    decreases
        (if n >= 2 * FRACTIONS * d {
            n - 2 * FRACTIONS * d + 1
        } else {
            0
        }),
{
    vstd::arithmetic::power2::lemma2_to64();
    if n >= 2 * FRACTIONS * d {
        assert(2 * FRACTIONS * (2 * d) == 2 * (2 * FRACTIONS * d)) by (nonlinear_arith);
        assert(2 * FRACTIONS * d > 0) by (nonlinear_arith)
            requires
                d > 0,
        ;
        lemma_halvings_bounds(n, 2 * d);
        let e = halvings(n, 2 * d);
        lemma_pow2_unfold(e + 1);
        assert((2 * d) * pow2(e) == d * (2 * pow2(e))) by (nonlinear_arith);
        if e == 0 {
            assert(FRACTIONS * (d * 2) == 2 * FRACTIONS * d) by (nonlinear_arith);
        }
    } else {
        assert(d * 1 == d);
    }
}

/// The same quotient, with the powers of two gathered.
proof fn lemma_division_scales(m: nat, s: nat, n: nat, t: nat, j: nat, p: int, x: nat)
    requires
        n > 0,
        x == (m * pow2(j)) * pow2(64),
        p == s - j - t + 1009,
    ensures
        double_key(((m * pow2(s)) * one()) as nat, n * pow2(t)) == double_key(
            (2 * x) * pow2(above_zero(p)),
            n * pow2(above_zero(-p)),
        ),
{
    let u = t;
    let v = above_zero(-p);
    let w = above_zero(p);
    lemma_pow2_pos(1074);
    lemma_pow2_pos(s);
    lemma_pow2_pos(t);
    lemma_pow2_pos(v);
    let left_n = ((m * pow2(s)) * one()) as nat;
    let left_d = n * pow2(t);
    let right_n = (2 * x) * pow2(w);
    let right_d = n * pow2(v);
    assert(left_d > 0 && right_d > 0) by (nonlinear_arith)
        requires
            left_d == n * pow2(t),
            right_d == n * pow2(v),
            n > 0,
            pow2(t) > 0,
            pow2(v) > 0,
    ;
    assert((m * pow2(s)) * one() >= 0) by (nonlinear_arith)
        requires
            one() >= 0,
    ;
    lemma_key_scales(left_n, left_d, pow2(v));
    lemma_key_scales(right_n, right_d, pow2(u));
    assert(left_d * pow2(v) == right_d * pow2(u)) by (nonlinear_arith)
        requires
            left_d == n * pow2(t),
            right_d == n * pow2(v),
            u == t,
    ;
    // The powers of two on the left.
    lemma_pow2_adds(s, 1074);
    lemma_pow2_adds(s + 1074, v);
    let ps = pow2(s);
    let po = pow2(1074);
    let pv = pow2(v);
    assert(left_n * pv == m * ((ps * po) * pv)) by (nonlinear_arith)
        requires
            left_n == (m * ps) * po,
    ;
    // The powers of two on the right.
    lemma_pow2_adds(j, 64);
    lemma_pow2_unfold(j + 65);
    lemma_pow2_adds(j + 65, w);
    lemma_pow2_adds(j + 65 + w, u);
    let pj = pow2(j);
    let p64 = pow2(64);
    let pw = pow2(w);
    let pu = pow2(u);
    assert(right_n * pu == m * (((2 * (pj * p64)) * pw) * pu)) by (nonlinear_arith)
        requires
            right_n == (2 * x) * pw,
            x == (m * pj) * p64,
    ;
    assert(s + 1074 + v == j + 65 + w + u);
}

/// The quotient of two magnitudes.
fn divided(a: u64, b: u64) -> (k: u64)
    requires
        a <= 0x8000_0000_0000_0000,
        0 < b <= 0x8000_0000_0000_0000,
    ensures
        magnitude(b as nat) > 0,
        k == bounded(double_key((magnitude(a as nat) * one()) as nat, magnitude(b as nat))),
{
    let (m, s): (u64, i32) = parts(a);
    let (n, t): (u64, i32) = parts(b);
    proof {
        assert(magnitude(0) == 0);
        crate::num::lemma_magnitude_increases(0, b as nat);
        lemma_pow2_pos(1074);
    }
    if m == 0 {
        proof {
            assert(0 * pow2(s as nat) == 0);
            assert(0 * one() == 0);
            lemma_zero_key(magnitude(b as nat));
        }
        return 0;
    }
    let r: i32 = excess(m as u128);
    proof {
        if r > 0 {
            lemma_pow2_unfold(r as nat);
            lemma_pow2_pos((r - 1) as nat);
            let h = pow2((r - 1) as nat);
            assert(FRACTIONS * (2 * h) >= 2 * FRACTIONS) by (nonlinear_arith)
                requires
                    h >= 1,
            ;
        }
        vstd::arithmetic::power2::lemma2_to64();
        assert(m * 1 == m);
    }
    // The dividend with 53 bits, and 64 more.
    let lead: u64 = stretch(m as u128, (-r) as u32) as u64;
    let x: u128 = raised(lead, 64);
    let q: u128 = x / n as u128;
    let left: u128 = x % n as u128;
    proof {
        lemma_fundamental_div_mod(x as int, n as int);
        assert(x >= 0x10_0000_0000_0000_0000_0000_0000_0000) by (nonlinear_arith)
            requires
                x == lead * 0x1_0000_0000_0000_0000,
                lead >= 0x10_0000_0000_0000,
        ;
        assert(q >= 0x4000_0000_0000_0000) by (nonlinear_arith)
            requires
                x == n * q + left,
                left < n,
                0 < n < 0x20_0000_0000_0000,
                x >= 0x10_0000_0000_0000_0000_0000_0000_0000,
        ;
        vstd::arithmetic::div_mod::lemma_div_is_ordered_by_denominator(x as int, 1, n as int);
    }
    let short: u128 = if left > 0 {
        2 * q + 1
    } else {
        2 * q
    };
    let p: i32 = s + r - t + 1009;
    proof {
        lemma_quotient_key(x as nat, n as nat, q as nat, left as nat, short as nat, p as int);
        lemma_division_scales(m as nat, s as nat, n as nat, t as nat, (-r) as nat, p as int, x as nat);
    }
    settle(short, p)
}

impl Num {
    /// The quotient of two numbers, rounded.
    pub fn over(self, other: Num) -> (r: Num)
        requires
            other.key != 0,
        ensures
            r == self.spec_over(other),
            -ENDLESS <= r.key <= ENDLESS,
    {
        let k: u64 = divided(self.size(), other.size());
        proof {
            reveal(nearest_double);
            let x = magnitude(if self.key >= 0 {
                self.key as nat
            } else {
                (-self.key) as nat
            }) as int;
            let o = one();
            lemma_pow2_pos(1074);
            assert(x * o >= 0 && (-x) * o == -(x * o)) by (nonlinear_arith)
                requires
                    x >= 0,
                    o > 0,
            ;
            if self.key != 0 {
                assert(magnitude(0) == 0);
                lemma_sizes(self);
                assert(x * o > 0) by (nonlinear_arith)
                    requires
                        x > 0,
                        o > 0,
                ;
            } else {
                assert(magnitude(0) == 0);
                lemma_sizes(other);
                lemma_zero_key(
                    magnitude(
                        if other.key >= 0 {
                            other.key as nat
                        } else {
                            (-other.key) as nat
                        },
                    ),
                );
                assert(0 * o == 0);
            }
        }
        if (self.key < 0) != (other.key < 0) {
            Num { key: -(k as i64) }
        } else {
            Num { key: k as i64 }
        }
    }
}

proof fn lemma_sizes(n: Num)
    requires
        n.key != 0,
    ensures
        magnitude(
            if n.key >= 0 {
                n.key as nat
            } else {
                (-n.key) as nat
            },
        ) > 0,
        n.value() > 0 <==> n.key > 0,
{
    assert(magnitude(0) == 0);
    if n.key > 0 {
        crate::num::lemma_magnitude_increases(0, n.key as nat);
    } else {
        crate::num::lemma_magnitude_increases(0, (-n.key) as nat);
    }
}

impl Num {
    /// This number without its sign.
    pub open spec fn spec_abs(self) -> Num {
        if self.key < 0 {
            Num::at(-self.key)
        } else {
            self
        }
    }

    /// What is left of this number without its whole part.
    pub open spec fn spec_fraction(self) -> Num {
        if self.value() >= 0 {
            nearest_double(self.value() % one(), 1)
        } else {
            nearest_double(-((-self.value()) % one()), 1)
        }
    }

    /// This number without its sign.
    pub fn abs(self) -> (r: Num)
        requires
            self.key > i64::MIN,
        ensures
            r == self.spec_abs(),
    {
        if self.key < 0 {
            Num { key: -self.key }
        } else {
            self
        }
    }

    /// What is left of this number without its whole part.
    pub fn fraction(self) -> (r: Num)
        ensures
            r == self.spec_fraction(),
    {
        let k: u64 = remaining(self.size());
        proof {
            reveal(nearest_double);
            assert(magnitude(0) == 0);
            if self.key != 0 {
                lemma_sizes(self);
            }
            lemma_zero_key(1);
            lemma_pow2_pos(1074);
        }
        if self.key < 0 {
            Num { key: -(k as i64) }
        } else {
            Num { key: k as i64 }
        }
    }
}

/// What is left of a magnitude without its whole part.
fn remaining(a: u64) -> (k: u64)
    requires
        a <= 0x8000_0000_0000_0000,
    ensures
        magnitude(a as nat) as int % one() >= 0,
        k == bounded(double_key((magnitude(a as nat) as int % one()) as nat, 1)),
        k <= ENDLESS,
{
    let (m, s): (u64, i32) = parts(a);
    proof {
        lemma_pow2_pos(1074);
        lemma_pow2_pos(s as nat);
        vstd::arithmetic::power2::lemma2_to64();
        vstd::arithmetic::power2::lemma2_to64_rest();
        lemma_zero_key(1);
    }
    if s >= 1074 {
        proof {
            lemma_pow2_adds((s - 1074) as nat, 1074);
            let w = m * pow2((s - 1074) as nat);
            let o = pow2(1074);
            let j = pow2((s - 1074) as nat);
            assert(m * (j * o) == (m * j) * o) by (nonlinear_arith);
            lemma_fundamental_div_mod_converse(magnitude(a as nat) as int, one(), w as int, 0);
        }
        return 0;
    }
    let j: i32 = 1074 - s;
    let left: u64 = if j >= 53 {
        m
    } else {
        proof {
            vstd::arithmetic::power2::lemma_pow2_strictly_increases(j as nat, 53);
            lemma_pow2_pos(j as nat);
            assert(1 * pow2(j as nat) == pow2(j as nat));
            vstd::bits::lemma_u64_shl_is_mul(1, j as u64);
        }
        m % (1u64 << (j as u64))
    };
    proof {
        let p = pow2(s as nat);
        let d = pow2(j as nat);
        lemma_pow2_adds(j as nat, s as nat);
        lemma_pow2_pos(j as nat);
        if j >= 53 {
            if j > 53 {
                vstd::arithmetic::power2::lemma_pow2_strictly_increases(53, j as nat);
            }
            lemma_fundamental_div_mod_converse(m as int, d as int, 0, m as int);
        }
        assert(left as int == m as int % d as int);
        lemma_fundamental_div_mod(m as int, d as int);
        let q = m as int / d as int;
        assert(m * p == q * (d * p) + left * p) by (nonlinear_arith)
            requires
                m == d * q + left,
        ;
        assert(0 <= left * p < d * p) by (nonlinear_arith)
            requires
                0 <= left < d,
                p > 0,
        ;
        lemma_fundamental_div_mod_converse(magnitude(a as nat) as int, one(), q, (left * p) as int);
    }
    if left == 0 {
        proof {
            assert(0 * pow2(s as nat) == 0);
        }
        return 0;
    }
    settle(left as u128, s)
}

/// A sum of numbers that are not negative is not negative, and a product neither.
pub proof fn sums_keep_their_sign(a: Num, b: Num)
    requires
        a.key >= 0,
        b.key >= 0,
    ensures
        a.spec_plus(b).key >= 0,
        a.spec_times(b).key >= 0,
{
    reveal(nearest_double);
    let x = a.value();
    let y = b.value();
    assert(x * y >= 0) by (nonlinear_arith)
        requires
            x >= 0,
            y >= 0,
    ;
    lemma_key_not_negative((x + y) as nat, 1);
    lemma_key_not_negative((x * y) as nat, pow2(1074));
}

proof fn lemma_key_not_negative(n: nat, d: nat)
    ensures
        double_key(n, d) >= 0,
{
    let e = halvings(n, d);
    assert(e * FRACTIONS >= 0) by (nonlinear_arith);
}

/// Of two fractions the greater one takes at least as many halvings.
proof fn lemma_halvings_keep_order(n: nat, m: nat, d: nat)
    requires
        d > 0,
        n <= m,
    ensures
        halvings(n, d) <= halvings(m, d),
    decreases
        (if n >= 2 * FRACTIONS * d {
            n - 2 * FRACTIONS * d + 1
        } else {
            0
        }),
{
    if n >= 2 * FRACTIONS * d {
        assert(2 * FRACTIONS * (2 * d) == 2 * (2 * FRACTIONS * d)) by (nonlinear_arith);
        assert(2 * FRACTIONS * d > 0) by (nonlinear_arith)
            requires
                d > 0,
        ;
        lemma_halvings_keep_order(n, m, 2 * d);
    }
}

/// Rounding to doubles keeps the order.
proof fn lemma_keys_keep_order(n: nat, m: nat, d: nat)
    requires
        d > 0,
        n <= m,
    ensures
        double_key(n, d) <= double_key(m, d),
{
    let e = halvings(n, d);
    let f = halvings(m, d);
    lemma_halvings_keep_order(n, m, d);
    lemma_halvings_bounds(n, d);
    lemma_halvings_bounds(m, d);
    lemma_pow2_pos(e);
    lemma_pow2_pos(f);
    let x = d * pow2(e);
    let y = d * pow2(f);
    assert(x > 0 && y > 0) by (nonlinear_arith)
        requires
            x == d * pow2(e),
            y == d * pow2(f),
            d > 0,
            pow2(e) > 0,
            pow2(f) > 0,
    ;
    if e == f {
        assert(n * x <= m * x) by (nonlinear_arith)
            requires
                n <= m,
        ;
        crate::num::lemma_nearest_keeps_order(n, x, m, x);
    } else {
        assert(n / x < 2 * FRACTIONS) by (nonlinear_arith)
            requires
                n < 2 * FRACTIONS * x,
                x > 0,
        ;
        assert(m / y >= FRACTIONS) by (nonlinear_arith)
            requires
                m >= FRACTIONS * y,
                y > 0,
        ;
        assert(e * FRACTIONS + 2 * FRACTIONS <= f * FRACTIONS + FRACTIONS) by (nonlinear_arith)
            requires
                e + 1 <= f,
        ;
    }
}

/// Every double is nearest to itself.
proof fn lemma_doubles_are_exact(k: nat)
    ensures
        double_key(magnitude(k), 1) == k,
{
    vstd::arithmetic::power2::lemma2_to64();
    let x = k / FRACTIONS as nat;
    let f = k % FRACTIONS as nat;
    lemma_fundamental_div_mod(k as int, FRACTIONS as int);
    if x == 0 {
        assert(1 * pow2(0) == 1);
        lemma_halvings_are(magnitude(k), 1, 0);
        assert(f / 1 == f && f % 1 == 0);
        assert(nearest(f, 1) == f);
    } else {
        let s = (x - 1) as nat;
        let m = (FRACTIONS + f) as nat;
        let p = pow2(s);
        lemma_pow2_pos(s);
        let n = m * p;
        assert(n < 2 * FRACTIONS * (1 * p)) by (nonlinear_arith)
            requires
                n == m * p,
                m < 2 * FRACTIONS,
                p > 0,
        ;
        assert(n >= FRACTIONS * (1 * p)) by (nonlinear_arith)
            requires
                n == m * p,
                m >= FRACTIONS,
        ;
        lemma_halvings_are(n, 1, s);
        lemma_fundamental_div_mod_converse(n as int, p as int, m as int, 0);
        assert(s * FRACTIONS + FRACTIONS == FRACTIONS * x) by (nonlinear_arith)
            requires
                s == x - 1,
        ;
    }
}

/// Rounding keeps the order: of two results, the one of the lesser number is not greater.
pub proof fn rounding_keeps_the_order(v: int, w: int, d: nat)
    requires
        d > 0,
        v <= w,
    ensures
        nearest_double(v, d).key <= nearest_double(w, d).key,
{
    reveal(nearest_double);
    lemma_key_not_negative(
        (if v >= 0 {
            v
        } else {
            -v
        }) as nat,
        d,
    );
    lemma_key_not_negative(
        (if w >= 0 {
            w
        } else {
            -w
        }) as nat,
        d,
    );
    if v >= 0 {
        lemma_keys_keep_order(v as nat, w as nat, d);
    } else if w < 0 {
        lemma_keys_keep_order((-w) as nat, (-v) as nat, d);
    }
}

/// Adding or taking away nothing leaves a finite number as it is.
pub proof fn nothing_changes_nothing(a: Num)
    requires
        -ENDLESS <= a.key <= ENDLESS,
    ensures
        a.spec_plus(Num { key: 0 }) == a,
        a.spec_minus(Num { key: 0 }) == a,
{
    reveal(nearest_double);
    assert(magnitude(0) == 0);
    if a.key >= 0 {
        lemma_doubles_are_exact(a.key as nat);
    } else {
        lemma_sizes(a);
        lemma_doubles_are_exact((-a.key) as nat);
    }
}

/// Adding more gives no less, and taking away more gives no more.
pub proof fn sums_keep_their_order(a: Num, b: Num, c: Num)
    requires
        b.key <= c.key,
    ensures
        a.spec_plus(b).key <= a.spec_plus(c).key,
        a.spec_minus(c).key <= a.spec_minus(b).key,
{
    crate::num::numbers_order_as_keys(b, c);
    rounding_keeps_the_order(a.value() + b.value(), a.value() + c.value(), 1);
    rounding_keeps_the_order(a.value() - c.value(), a.value() - b.value(), 1);
}

/// Nothing is the double of nothing.
pub(crate) proof fn lemma_nothing_is_nothing()
    ensures
        nearest_double(0, 1).key == 0,
{
    nothing_changes_nothing(Num { key: 0 });
    assert(magnitude(0) == 0);
}

/// A share between none and all of something is between nothing and all of it.
pub proof fn shares_are_parts(share: Num, whole: Num)
    requires
        0 <= share.key <= Num::spec_whole(1).key,
        0 <= whole.key < ENDLESS,
    ensures
        0 <= share.spec_times(whole).key <= whole.key,
{
    reveal(nearest_double);
    crate::num::whole_numbers_are_exact(1);
    crate::num::numbers_order_as_keys(share, Num::spec_whole(1));
    sums_keep_their_sign(share, whole);
    lemma_pow2_pos(1074);
    let o = pow2(1074);
    let x = share.value();
    let y = whole.value();
    assert(1 * o == o);
    assert(0 <= x * y <= y * o) by (nonlinear_arith)
        requires
            0 <= x <= o,
            0 <= y,
    ;
    lemma_keys_keep_order((x * y) as nat, (y * o) as nat, o);
    lemma_key_scales(y as nat, 1, o);
    lemma_doubles_are_exact(whole.key as nat);
    assert(1 * o == o);
}

/// A swing between all of something one way and all of it the other way is no further off.
pub proof fn swings_are_parts(share: Num, whole: Num)
    requires
        Num::spec_whole(-1).key <= share.key <= Num::spec_whole(1).key,
        0 <= whole.key < ENDLESS,
    ensures
        -whole.key <= share.spec_times(whole).key <= whole.key,
{
    reveal(nearest_double);
    if share.key >= 0 {
        shares_are_parts(share, whole);
    } else {
        let back = Num { key: (-share.key) as i64 };
        crate::num::whole_numbers_are_exact(1);
        crate::num::fractions_have_opposites(1, 1);
        shares_are_parts(back, whole);
        let x = share.value();
        let y = whole.value();
        assert(x == -back.value());
        lemma_sizes(back);
        assert(back.value() * y == -(x * y)) by (nonlinear_arith)
            requires
                x == -back.value(),
        ;
        assert(x * y <= 0) by (nonlinear_arith)
            requires
                x <= 0,
                y >= 0,
        ;
    }
}

/// What is added grows, and what is taken away from shrinks.
pub proof fn sums_grow(a: Num, b: Num)
    requires
        -ENDLESS <= a.key <= ENDLESS,
        b.key >= 0,
    ensures
        a.spec_plus(b).key >= a.key,
        a.spec_minus(b).key <= a.key,
{
    nothing_changes_nothing(a);
    sums_keep_their_order(a, Num { key: 0 }, b);
}

/// A quotient of numbers that are not negative is not negative.
pub proof fn quotients_keep_their_sign(a: Num, b: Num)
    requires
        a.key >= 0,
        b.key > 0,
    ensures
        a.spec_over(b).key >= 0,
{
    reveal(nearest_double);
    lemma_pow2_pos(1074);
    let x = a.value();
    let o = one();
    assert(x * o >= 0) by (nonlinear_arith)
        requires
            x >= 0,
            o >= 0,
    ;
    lemma_key_not_negative((x * o) as nat, b.value() as nat);
}

/// Results are never beyond the end of the doubles.
pub proof fn results_are_bounded(v: int, d: nat)
    ensures
        -ENDLESS <= nearest_double(v, d).key <= ENDLESS,
{
    reveal(nearest_double);
    lemma_key_not_negative(
        (if v >= 0 {
            v
        } else {
            -v
        }) as nat,
        d,
    );
}

} // verus!
