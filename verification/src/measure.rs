//! How far a double is from the number it stands for.

use crate::arith::{double_key, halvings, lemma_halvings_bounds, nearest_double, rounding_keeps_the_order, ENDLESS};
use crate::num::{
    doublings, fraction_becomes_nearest_double, fractions_have_opposites, lemma_nearest, magnitude, nearest,
    numbers_order_as_keys, Num, FRACTIONS,
};
use crate::rounding::one;
use vstd::arithmetic::div_mod::lemma_fundamental_div_mod_converse;
use vstd::arithmetic::power2::{lemma_pow2_adds, lemma_pow2_pos, lemma_pow2_unfold, pow2};
use vstd::prelude::*;

verus! {

/// Without its sign.
pub open spec fn size(v: int) -> int {
    if v >= 0 {
        v
    } else {
        -v
    }
}

/// The magnitude of the double nearest to `n / d` units is off by half a gap at most.
proof fn lemma_key_is_near(n: nat, d: nat)
    requires
        d > 0,
        double_key(n, d) < ENDLESS,
    ensures
        double_key(n, d) >= 0,
        2 * FRACTIONS * size(magnitude(double_key(n, d) as nat) * d - n) <= n + FRACTIONS * d,
{
    let e = halvings(n, d);
    let p = pow2(e);
    lemma_halvings_bounds(n, d);
    lemma_pow2_pos(e);
    assert(d * p > 0) by (nonlinear_arith)
        requires
            d > 0,
            p > 0,
    ;
    let m = nearest(n, d * p);
    lemma_nearest(n, d * p);
    let k = double_key(n, d);
    assert(e * FRACTIONS >= 0) by (nonlinear_arith);
    assert(n / (d * p) < 2 * FRACTIONS) by (nonlinear_arith)
        requires
            n < 2 * FRACTIONS * (d * p),
            d * p > 0,
    ;
    assert(m <= 2 * FRACTIONS);
    assert(e > 0 ==> m >= FRACTIONS) by {
        if e > 0 {
            assert(n / (d * p) >= FRACTIONS) by (nonlinear_arith)
                requires
                    n >= FRACTIONS * (d * p),
                    d * p > 0,
            ;
        }
    }
    // The double is `m` gaps.
    assert(magnitude(k as nat) == m * p) by {
        if m < FRACTIONS {
            vstd::arithmetic::power2::lemma2_to64();
            assert(m * 1 == m);
            lemma_fundamental_div_mod_converse(k, FRACTIONS as int, 0, m as int);
        } else if m < 2 * FRACTIONS {
            let f = m - FRACTIONS;
            assert(k == FRACTIONS * (e + 1) + f) by (nonlinear_arith)
                requires
                    k == e * FRACTIONS + m,
                    f == m - FRACTIONS,
            ;
            lemma_fundamental_div_mod_converse(k, FRACTIONS as int, (e + 1) as int, f as int);
        } else {
            assert(k == FRACTIONS * (e + 2) + 0) by (nonlinear_arith)
                requires
                    k == e * FRACTIONS + m,
                    m == 2 * FRACTIONS,
            ;
            lemma_fundamental_div_mod_converse(k, FRACTIONS as int, (e + 2) as int, 0);
            lemma_pow2_unfold(e + 1);
            assert(FRACTIONS as nat * (2 * p) == m * p) by (nonlinear_arith)
                requires
                    m == 2 * FRACTIONS,
            ;
        }
    }
    let g = (d * p) as int;
    assert((m * p) * d == m * g) by (nonlinear_arith)
        requires
            g == d * p,
    ;
    assert((2 * m - 1) * g == 2 * (m * g) - g && (2 * m + 1) * g == 2 * (m * g) + g) by (nonlinear_arith);
    let off = size((m * p) * d - n);
    assert(2 * off <= g);
    assert(2 * FRACTIONS * off <= FRACTIONS * g) by (nonlinear_arith)
        requires
            2 * off <= g,
    ;
    if e == 0 {
        vstd::arithmetic::power2::lemma2_to64();
        assert(d * 1 == d);
    } else {
        assert(FRACTIONS * g <= n);
    }
    assert(FRACTIONS * d >= 0) by (nonlinear_arith)
        requires
            d > 0,
    ;
}

/// Numbers of this size do not leave the doubles.
proof fn lemma_key_is_finite(n: nat, d: nat)
    requires
        d > 0,
        n <= 0x1_0000_0000_0000_0000_0000_0000_0000_0000int * (d * one()),
    ensures
        double_key(n, d) < ENDLESS,
{
    let e = halvings(n, d);
    let p = pow2(e) as int;
    lemma_halvings_bounds(n, d);
    lemma_pow2_pos(e);
    let m = nearest(n, d * pow2(e));
    assert(d * p > 0) by (nonlinear_arith)
        requires
            d > 0,
            p > 0,
    ;
    assert(n / (d * pow2(e)) < 2 * FRACTIONS) by (nonlinear_arith)
        requires
            n < 2 * FRACTIONS * (d * pow2(e)),
            d * pow2(e) > 0,
    ;
    if e >= 1210 {
        vstd::arithmetic::power2::lemma2_to64();
        vstd::arithmetic::power2::lemma2_to64_rest();
        if e > 1210 {
            vstd::arithmetic::power2::lemma_pow2_strictly_increases(1210, e);
        }
        lemma_pow2_adds(1074, 136);
        lemma_pow2_adds(64, 64);
        lemma_pow2_adds(128, 8);
        let o = one();
        lemma_pow2_pos(1074);
        let big = 0x1_0000_0000_0000_0000_0000_0000_0000_0000int;
        assert(pow2(128) == big) by {
            assert(0x1_0000_0000_0000_0000int * 0x1_0000_0000_0000_0000int == big);
        }
        assert(p >= 256 * big * o) by (nonlinear_arith)
            requires
                p >= pow2(1210),
                pow2(1210) == o * pow2(136),
                pow2(136) == big * 256,
        ;
        assert(FRACTIONS * (d * p) > big * (d * o)) by (nonlinear_arith)
            requires
                p >= 256 * big * o,
                d > 0,
                o > 0,
                big > 0,
        ;
        assert(n >= FRACTIONS * (d * p));
    }
    assert(e * FRACTIONS <= 1210 * FRACTIONS) by (nonlinear_arith)
        requires
            e <= 1210,
    ;
}

/// A result is off from the exact one by one part in two to the power of 53 at most, or by
/// half of the least double.
pub proof fn results_are_near(v: int, d: nat)
    requires
        d > 0,
        size(v) <= 0x1_0000_0000_0000_0000_0000_0000_0000_0000int * (d * one()),
    ensures
        2 * FRACTIONS * size(nearest_double(v, d).value() * d - v) <= size(v) + FRACTIONS * d,
{
    reveal(nearest_double);
    let n = size(v) as nat;
    lemma_key_is_finite(n, d);
    lemma_key_is_near(n, d);
    let k = double_key(n, d);
    assert(magnitude(0) == 0);
    if v < 0 {
        let r = nearest_double(v, d).value();
        let m = magnitude(k as nat) as int;
        assert(r == -m);
        assert((-m) * d == -(m * d)) by (nonlinear_arith);
    }
}

/// A fraction is off from the double by one part in two to the power of 53 at most.
pub proof fn fractions_are_near(n: int, d: u32)
    requires
        -i32::MAX <= n <= i32::MAX,
        d > 0,
    ensures
        2 * FRACTIONS * size(Num::spec_ratio(n, d as int).value() * d - n * one()) <= size(n) * one(),
        n >= 0 ==> Num::spec_ratio(n, d as int).value() >= 0,
{
    let o = one();
    lemma_pow2_pos(1074);
    if n == 0 {
        assert(Num::spec_ratio(n, d as int).key == 0);
        assert(magnitude(0) == 0);
        assert(0 * d - n * o == 0) by (nonlinear_arith)
            requires
                n == 0,
        ;
        assert(0 * o == 0);
    } else {
        let m = size(n) as u32;
        let e = doublings(m as nat, d as nat);
        let gap = pow2((1074 - e) as nat) as int;
        let r = Num::spec_ratio(m as int, d as int).value();
        fraction_becomes_nearest_double(m, d);
        crate::num::lemma_scaled(m as nat, d as nat);
        lemma_pow2_adds(e, (1074 - e) as nat);
        lemma_pow2_pos((1074 - e) as nat);
        let p = pow2(e) as int;
        assert(FRACTIONS * (d * gap) <= m * o) by (nonlinear_arith)
            requires
                FRACTIONS * d <= m * p,
                gap > 0,
                o == p * gap,
        ;
        let off = size(r * d - m * o);
        assert(2 * FRACTIONS * off <= FRACTIONS * (d * gap)) by (nonlinear_arith)
            requires
                2 * off <= d * gap,
        ;
        crate::num::fractions_keep_their_order(0, 1, m as i32, d);
        assert(Num::spec_ratio(0, 1).key == 0);
        assert(r >= 0);
        if n < 0 {
            fractions_have_opposites(m, d);
            assert(Num::spec_ratio(n, d as int).value() == -r) by {
                assert(magnitude(0) == 0);
            }
            assert((-r) * d == -(r * d) && n * o == -(m * o)) by (nonlinear_arith)
                requires
                    n == -m,
            ;
        }
    }
}

/// A number far enough above a double is rounded to a greater one.
pub proof fn lemma_stays_above(v: int, b: Num)
    requires
        size(b.value()) <= 200_000 * one(),
        2_000_000_000 * v >= 2_000_000_000 * b.value() + one(),
    ensures
        nearest_double(v, 1).key > b.key,
{
    let o = one();
    lemma_pow2_pos(1074);
    lemma_one_is_many();
    numbers_order_as_keys(b, nearest_double(v, 1));
    if v <= 1_000_000 * o {
        lemma_near_sum(v, 1_000_000);
        let r = nearest_double(v, 1).value();
        assert(9_007_199_254_740_992 * (v - r) <= 1_000_001 * o);
        assert(b.value() < r);
    } else {
        lemma_near_sum(1_000_000 * o, 1_000_000);
        assert(9_007_199_254_740_992 * (1_000_000 * o - nearest_double(1_000_000 * o, 1).value()) <= 1_000_001 * o);
        rounding_keeps_the_order(1_000_000 * o, v, 1);
        numbers_order_as_keys(nearest_double(v, 1), nearest_double(1_000_000 * o, 1));
    }
}

/// A number far enough below a double is rounded to a lesser one.
pub proof fn lemma_stays_below(v: int, b: Num)
    requires
        size(b.value()) <= 200_000 * one(),
        2_000_000_000 * v + one() <= 2_000_000_000 * b.value(),
    ensures
        nearest_double(v, 1).key < b.key,
{
    let o = one();
    lemma_pow2_pos(1074);
    lemma_one_is_many();
    numbers_order_as_keys(nearest_double(v, 1), b);
    if v >= -1_000_000 * o {
        lemma_near_sum(v, 1_000_000);
        let r = nearest_double(v, 1).value();
        assert(9_007_199_254_740_992 * (r - v) <= 1_000_001 * o);
        assert(r < b.value());
    } else {
        lemma_near_sum(-1_000_000 * o, 1_000_000);
        assert(9_007_199_254_740_992 * (1_000_000 * o + nearest_double(-1_000_000 * o, 1).value()) <= 1_000_001 * o);
        rounding_keeps_the_order(v, -1_000_000 * o, 1);
        numbers_order_as_keys(nearest_double(-1_000_000 * o, 1), nearest_double(v, 1));
    }
}

/// One is more than the gap between doubles at a million.
pub proof fn lemma_one_is_many()
    ensures
        one() >= 0x10_0000_0000_0000_0000_0000,
{
    vstd::arithmetic::power2::lemma2_to64();
    vstd::arithmetic::power2::lemma2_to64_rest();
    lemma_pow2_adds(64, 20);
    vstd::arithmetic::power2::lemma_pow2_strictly_increases(84, 1074);
    assert(0x1_0000_0000_0000_0000int * 0x10_0000 == 0x10_0000_0000_0000_0000_0000int);
}

/// A sum of at most `most` is near to its double.
pub proof fn lemma_near_sum(v: int, most: int)
    requires
        size(v) <= most * one(),
        0 <= most <= 0x1_0000_0000_0000_0000,
    ensures
        2 * FRACTIONS * size(nearest_double(v, 1).value() - v) <= size(v) + FRACTIONS,
        2 * FRACTIONS * size(nearest_double(v, 1).value() - v) <= (most + 1) * one(),
{
    let o = one();
    lemma_pow2_pos(1074);
    lemma_one_is_many();
    assert(size(v) <= 0x1_0000_0000_0000_0000_0000_0000_0000_0000int * (1 * o)) by (nonlinear_arith)
        requires
            size(v) <= most * o,
            0 <= most <= 0x1_0000_0000_0000_0000,
            o > 0,
    ;
    results_are_near(v, 1);
    assert((most + 1) * o == most * o + o) by (nonlinear_arith);
    assert(nearest_double(v, 1).value() * 1 == nearest_double(v, 1).value());
}

/// A product of numbers of at most `m` and `n` is near to its double.
pub proof fn lemma_near_product(a: Num, b: Num, m: int, n: int)
    requires
        size(a.value()) <= m * one(),
        size(b.value()) <= n * one(),
        0 <= m <= 0x1000_0000_0000_0000,
        0 <= n <= 0x1000_0000_0000_0000,
    ensures
        9_007_199_254_740_992 * size(a.spec_times(b).value() * one() - a.value() * b.value()) <= (m * n + 1) * (one()
            * one()),
{
    let o = one();
    let x = a.value();
    let y = b.value();
    lemma_pow2_pos(1074);
    lemma_one_is_many();
    let mn = m * n;
    assert(size(x * y) <= mn * (o * o)) by (nonlinear_arith)
        requires
            size(x) <= m * o,
            size(y) <= n * o,
            mn == m * n,
            m >= 0,
            n >= 0,
            o > 0,
    ;
    assert(mn * (o * o) <= 0x1_0000_0000_0000_0000_0000_0000_0000_0000int * (pow2(1074) * o)) by (nonlinear_arith)
        requires
            0 <= m <= 0x1000_0000_0000_0000,
            0 <= n <= 0x1000_0000_0000_0000,
            mn == m * n,
            pow2(1074) == o,
            o > 0,
    ;
    results_are_near(x * y, pow2(1074));
    assert(FRACTIONS * o <= o * o) by (nonlinear_arith)
        requires
            FRACTIONS <= o,
            o > 0,
    ;
    assert((mn + 1) * (o * o) == mn * (o * o) + o * o) by (nonlinear_arith);
}

} // verus!
