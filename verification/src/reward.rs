//! What a drive is worth, in numbers.

use crate::measure::{fractions_are_near, lemma_near_sum, results_are_near, size};
use crate::num::{whole_numbers_are_exact, Num, FRACTIONS};
use crate::rounding::one;
use vstd::arithmetic::power2::{lemma_pow2_adds, lemma_pow2_pos, pow2};
use vstd::prelude::*;

verus! {

/// Whether a positive number is `p / q`, but for `e` parts in two to the power of 40.
pub open spec fn is_about(n: Num, p: int, q: int, e: int) -> bool {
    0x100_0000_0000 * size(n.value() * q - p * one()) <= e * (p * one())
}

/// One is far more than the least double.
pub(crate) proof fn lemma_one_is_huge()
    ensures
        one() >= 0x1_0000_0000_0000_0000_0000_0000_0000_0000,
{
    vstd::arithmetic::power2::lemma2_to64();
    vstd::arithmetic::power2::lemma2_to64_rest();
    lemma_pow2_adds(64, 64);
    vstd::arithmetic::power2::lemma_pow2_strictly_increases(128, 1074);
    assert(0x1_0000_0000_0000_0000int * 0x1_0000_0000_0000_0000int
        == 0x1_0000_0000_0000_0000_0000_0000_0000_0000int);
}

/// A product of numbers that are neither tiny nor huge is near to what it should be.
proof fn lemma_product_rounds(a: Num, b: Num)
    requires
        a.value() > 0,
        b.value() > 0,
        a.value() <= 0x1000_0000_0000_0000 * one(),
        b.value() <= 0x1000_0000_0000_0000 * one(),
        a.value() * b.value() >= FRACTIONS * one(),
    ensures
        FRACTIONS * size(a.spec_times(b).value() * one() - a.value() * b.value()) <= a.value() * b.value(),
        a.spec_times(b).value() > 0,
{
    let o = one();
    let x = a.value();
    let y = b.value();
    lemma_pow2_pos(1074);
    assert(x * y <= 0x1_0000_0000_0000_0000_0000_0000_0000_0000int * (pow2(1074) * o)) by (nonlinear_arith)
        requires
            0 < x <= 0x1000_0000_0000_0000 * o,
            0 < y <= 0x1000_0000_0000_0000 * o,
            pow2(1074) == o,
    ;
    assert(x * y > 0) by (nonlinear_arith)
        requires
            x > 0,
            y > 0,
    ;
    results_are_near(x * y, pow2(1074));
    let r = a.spec_times(b).value();
    let off = size(r * o - x * y);
    assert(2 * FRACTIONS * off <= x * y + FRACTIONS * o);
    assert(FRACTIONS * off <= x * y) by (nonlinear_arith)
        requires
            2 * FRACTIONS * off <= x * y + FRACTIONS * o,
            x * y >= FRACTIONS * o,
    ;
    assert(off < x * y) by (nonlinear_arith)
        requires
            FRACTIONS * off <= x * y,
            x * y > 0,
            FRACTIONS == 0x10_0000_0000_0000,
    ;
    assert(r > 0) by (nonlinear_arith)
        requires
            r * o > 0,
            o > 0,
    ;
}

/// The product of two numbers is about the product of what they are about.
proof fn lemma_product_is_about(a: Num, b: Num, p: int, q: int, s: int, t: int, e: int, f: int)
    requires
        p > 0,
        q > 0,
        s > 0,
        t > 0,
        0 <= e <= 1000,
        0 <= f <= 1000,
        is_about(a, p, q, e),
        is_about(b, s, t, f),
        a.value() > 0,
        b.value() > 0,
        a.value() <= 0x1000_0000_0000_0000 * one(),
        b.value() <= 0x1000_0000_0000_0000 * one(),
        a.value() * b.value() >= FRACTIONS * one(),
    ensures
        is_about(a.spec_times(b), p * s, q * t, 2 * e + f + 1),
{
    let o = one();
    let k = 0x100_0000_0000int;
    lemma_pow2_pos(1074);
    lemma_product_rounds(a, b);
    let x = a.value();
    let y = b.value();
    let r = a.spec_times(b).value();
    let ax = x * q;
    let by = y * t;
    let po = p * o;
    let so = s * o;
    assert(po > 0 && so > 0) by (nonlinear_arith)
        requires
            p > 0,
            s > 0,
            o > 0,
            po == p * o,
            so == s * o,
    ;
    assert(k * size(by - so) <= f * so);
    assert(f * so <= 1000 * so) by (nonlinear_arith)
        requires
            f <= 1000,
            so > 0,
    ;
    assert(e * po <= 1000 * po) by (nonlinear_arith)
        requires
            e <= 1000,
            po > 0,
    ;
    assert(by <= 2 * so && ax <= 2 * po);
    assert(ax > 0 && by > 0) by (nonlinear_arith)
        requires
            x > 0,
            q > 0,
            y > 0,
            t > 0,
            ax == x * q,
            by == y * t,
    ;
    let whole = po * so;
    assert(whole > 0) by (nonlinear_arith)
        requires
            po > 0,
            so > 0,
            whole == po * so,
    ;
    let u = ax - po;
    let w = by - so;
    assert(ax * by - whole == u * by + po * w) by (nonlinear_arith)
        requires
            u == ax - po,
            w == by - so,
            whole == po * so,
    ;
    assert(k * size(u * by) <= 2 * e * whole) by (nonlinear_arith)
        requires
            k * size(u) <= e * po,
            0 < by <= 2 * so,
            0 <= e,
            0 < po,
            0 < so,
            whole == po * so,
            k > 0,
    ;
    assert(k * size(po * w) <= f * whole) by (nonlinear_arith)
        requires
            k * size(w) <= f * so,
            0 < po,
            whole == po * so,
            k > 0,
    ;
    assert(k * size(ax * by - whole) <= k * size(u * by) + k * size(po * w));
    assert(ax * by <= 4 * whole) by (nonlinear_arith)
        requires
            0 < ax <= 2 * po,
            0 < by <= 2 * so,
            whole == po * so,
    ;
    let ro = r * o;
    let xy = x * y;
    let qt = q * t;
    assert(xy * qt == ax * by) by (nonlinear_arith)
        requires
            xy == x * y,
            qt == q * t,
            ax == x * q,
            by == y * t,
    ;
    assert(qt > 0) by (nonlinear_arith)
        requires
            q > 0,
            t > 0,
            qt == q * t,
    ;
    assert(FRACTIONS * size(ro * qt - xy * qt) <= xy * qt) by (nonlinear_arith)
        requires
            FRACTIONS * size(ro - xy) <= xy,
            qt > 0,
    ;
    assert(k * size(ro * qt - xy * qt) <= whole);
    assert(k * size(ro * qt - whole) <= (2 * e + f + 1) * whole) by (nonlinear_arith)
        requires
            k * size(ro * qt - xy * qt) <= whole,
            k * size(ax * by - whole) <= 2 * e * whole + f * whole,
            xy * qt == ax * by,
            k > 0,
    ;
    // One factor of one is common to both sides.
    let left = r * qt;
    let right = (p * s) * o;
    let g = 2 * e + f + 1;
    assert(ro * qt == left * o) by (nonlinear_arith)
        requires
            ro == r * o,
            left == r * qt,
    ;
    assert(whole == right * o) by (nonlinear_arith)
        requires
            whole == po * so,
            po == p * o,
            so == s * o,
            right == (p * s) * o,
    ;
    assert(k * size(left - right) <= g * right) by (nonlinear_arith)
        requires
            k * size(left * o - right * o) <= g * (right * o),
            o > 0,
            k > 0,
    ;
}

/// What the points for each kilometre are multiplied with for a combo: a quarter more for
/// each near miss.
proof fn lemma_combo_factor(combo: u32)
    requires
        combo <= 100_000_000,
    ensures
        ({
            let m = Num::spec_whole(1).spec_plus(
                Num::spec_ratio(25, 100).spec_times(Num::spec_whole(combo as int)),
            );
            &&& is_about(m, 4 + combo, 4, 2)
            &&& one() <= 2 * m.value()
            &&& m.value() <= 100_000_000 * one()
        }),
{
    let o = one();
    let c = combo as int;
    lemma_pow2_pos(1074);
    lemma_one_is_huge();
    whole_numbers_are_exact(1);
    whole_numbers_are_exact(combo as i32);
    assert(1 * o == o);
    let q = Num::spec_ratio(25, 100);
    let r = q.value();
    fractions_are_near(25, 100);
    assert(size(25) * o == 25 * o);
    assert(9_007_199_254_740_992 * size(r * 100 - 25 * o) <= 25 * o);
    assert(r >= 0);
    let co = c * o;
    assert(0 <= co <= 100_000_000 * o) by (nonlinear_arith)
        requires
            0 <= c <= 100_000_000,
            o > 0,
            co == c * o,
    ;
    let rc = r * c;
    let v = r * co;
    assert(v == rc * o) by (nonlinear_arith)
        requires
            v == r * co,
            co == c * o,
            rc == r * c,
    ;
    assert(0 <= rc <= 100_000_000 * o) by (nonlinear_arith)
        requires
            0 <= r <= o,
            0 <= c <= 100_000_000,
            rc == r * c,
    ;
    assert(0 <= v <= 0x1_0000_0000_0000_0000_0000_0000_0000_0000int * (pow2(1074) * o)) by (nonlinear_arith)
        requires
            v == rc * o,
            0 <= rc <= 100_000_000 * o,
            pow2(1074) == o,
            o > 0,
    ;
    results_are_near(v, pow2(1074));
    let t = q.spec_times(Num::spec_whole(c)).value();
    assert(2 * FRACTIONS * size(t - rc) <= rc + FRACTIONS) by (nonlinear_arith)
        requires
            2 * FRACTIONS * size(t * o - v) <= v + FRACTIONS * o,
            v == rc * o,
            o > 0,
    ;
    assert(9_007_199_254_740_992 * size(100 * rc - 25 * co) <= 25 * co) by (nonlinear_arith)
        requires
            9_007_199_254_740_992 * size(r * 100 - 25 * o) <= 25 * o,
            rc == r * c,
            co == c * o,
            c >= 0,
    ;
    lemma_near_sum(o + t, 200_000_000);
    let m = Num::spec_whole(1).spec_plus(q.spec_times(Num::spec_whole(c)));
    assert((4 + c) * o == 4 * o + co) by (nonlinear_arith)
        requires
            co == c * o,
    ;
    assert(9_007_199_254_740_992 * size(m.value() - (o + t)) <= size(o + t) + 4_503_599_627_370_496);
}

/// Whether these are the points for driving at a speed for a time: 55 hundredths for each
/// km/h and second, a quarter more for each near miss of the combo, and half as much again
/// while the nitro burns; but for one part in a thousand million.
#[verifier::opaque]
pub open spec fn pays(points: Num, speed: Num, dt: Num, combo: int, nitro: bool) -> bool {
    let exact = (speed.value() * dt.value()) * (55 * ((4 + combo) * (if nitro {
        15int
    } else {
        10
    })));
    1_000_000_000 * size(4000 * (points.value() * one()) - exact) <= exact
}

/// The points of a step are those for its speed, its length, the combo and the nitro, and
/// hang on nothing else.
pub proof fn lemma_pay(speed: Num, dt: Num, combo: u32, nitro: bool)
    requires
        one() <= speed.value() <= 10_000 * one(),
        one() <= 0x4000_0000 * dt.value(),
        dt.value() <= 1000 * one(),
        combo <= 100_000_000,
    ensures
        ({
            let mult = Num::spec_whole(1).spec_plus(
                Num::spec_ratio(25, 100).spec_times(Num::spec_whole(combo as int)),
            );
            let points = speed.spec_times(dt).spec_times(Num::spec_ratio(55, 100)).spec_times(mult).spec_times(
                if nitro {
                    Num::spec_ratio(15, 10)
                } else {
                    Num::spec_whole(1)
                },
            );
            pays(points, speed, dt, combo as int, nitro)
        }),
{
    let o = one();
    let s = speed.value();
    let d = dt.value();
    let c = combo as int;
    reveal(pays);
    lemma_pow2_pos(1074);
    lemma_one_is_huge();
    // Speed and time.
    assert(s * o - s * o == 0 && d * o - d * o == 0);
    assert(is_about(speed, s, o, 0)) by {
        assert(0 * (s * o) == 0);
    }
    assert(is_about(dt, d, o, 0)) by {
        assert(0 * (d * o) == 0);
    }
    let sd = s * d;
    assert(sd * 0x4000_0000 >= o * o) by (nonlinear_arith)
        requires
            o <= s,
            o <= 0x4000_0000 * d,
            o > 0,
            sd == s * d,
    ;
    lemma_large(o, sd, 0x4000_0000);
    assert(sd <= 10_000_000 * (o * o)) by (nonlinear_arith)
        requires
            0 < s <= 10_000 * o,
            0 < d <= 1000 * o,
            sd == s * d,
    ;
    lemma_product_is_about(speed, dt, s, o, d, o, 0, 0);
    lemma_product_rounds(speed, dt);
    let r1 = speed.spec_times(dt);
    lemma_size_of_product(r1.value(), sd, 0x4000_0000, 10_000_000);
    // The share of points.
    let share = Num::spec_ratio(55, 100);
    lemma_share();
    let h = share.value();
    let p2 = r1.value() * h;
    assert(p2 * 0x1_0000_0000 >= o * o && p2 <= 20_000_000 * (o * o)) by (nonlinear_arith)
        requires
            r1.value() * 0x8000_0000 >= o,
            r1.value() <= 20_000_000 * o,
            o <= 2 * h,
            h <= o,
            o > 0,
            p2 == r1.value() * h,
    ;
    lemma_large(o, p2, 0x1_0000_0000);
    lemma_product_is_about(r1, share, s * d, o * o, 55, 100, 1, 1);
    lemma_product_rounds(r1, share);
    let r2 = r1.spec_times(share);
    lemma_size_of_product(r2.value(), p2, 0x1_0000_0000, 20_000_000);
    // The combo.
    lemma_combo_factor(combo);
    let mult = Num::spec_whole(1).spec_plus(Num::spec_ratio(25, 100).spec_times(Num::spec_whole(c)));
    let m = mult.value();
    let p3 = r2.value() * m;
    assert(p3 * 0x4_0000_0000 >= o * o && p3 <= 4_000_000_000_000_000 * (o * o)) by (nonlinear_arith)
        requires
            r2.value() * 0x2_0000_0000 >= o,
            r2.value() <= 40_000_000 * o,
            o <= 2 * m,
            m <= 100_000_000 * o,
            o > 0,
            p3 == r2.value() * m,
    ;
    lemma_large(o, p3, 0x4_0000_0000);
    lemma_product_is_about(r2, mult, (s * d) * 55, (o * o) * 100, 4 + c, 4, 4, 2);
    lemma_product_rounds(r2, mult);
    let r3 = r2.spec_times(mult);
    lemma_size_of_product(r3.value(), p3, 0x4_0000_0000, 4_000_000_000_000_000);
    assert(((s * d) * 55) * (4 + c) > 0 && ((o * o) * 100) * 4 > 0) by (nonlinear_arith)
        requires
            s > 0,
            d > 0,
            c >= 0,
            o > 0,
    ;
    lemma_pay_boost(r3, nitro, ((s * d) * 55) * (4 + c), ((o * o) * 100) * 4);
    let boost = if nitro {
        Num::spec_ratio(15, 10)
    } else {
        Num::spec_whole(1)
    };
    let k = if nitro {
        15int
    } else {
        10
    };
    let points = r3.spec_times(boost).value();
    let exact = sd * (55 * ((4 + c) * k));
    assert((((s * d) * 55) * (4 + c)) * k == exact) by (nonlinear_arith)
        requires
            exact == sd * (55 * ((4 + c) * k)),
            sd == s * d,
    ;
    assert(points * ((((o * o) * 100) * 4) * 10) == (4000 * (points * o)) * o) by (nonlinear_arith);
    let left = 4000 * (points * o);
    assert(exact > 0) by (nonlinear_arith)
        requires
            sd > 0,
            c >= 0,
            k >= 10,
            exact == sd * (55 * ((4 + c) * k)),
    ;
    assert(0x100_0000_0000 * size(left - exact) <= 30 * exact) by (nonlinear_arith)
        requires
            0x100_0000_0000 * size(left * o - exact * o) <= 30 * (exact * o),
            o > 0,
    ;
}

proof fn lemma_share()
    ensures
        is_about(Num::spec_ratio(55, 100), 55, 100, 1),
        one() <= 2 * Num::spec_ratio(55, 100).value(),
        Num::spec_ratio(55, 100).value() <= one(),
{
    let o = one();
    lemma_pow2_pos(1074);
    fractions_are_near(55, 100);
    assert(size(55) * o == 55 * o);
    let h = Num::spec_ratio(55, 100).value();
    let z = size(h * 100 - 55 * o);
    assert(9_007_199_254_740_992 * z <= 55 * o);
    assert(z >= 0);
    assert(0x100_0000_0000 * z <= 55 * o) by (nonlinear_arith)
        requires
            9_007_199_254_740_992 * z <= 55 * o,
            z >= 0,
    ;
    assert(1 * (55 * o) == 55 * o);
}

proof fn lemma_large(o: int, v: int, k: int)
    requires
        o >= 0x1_0000_0000_0000_0000_0000_0000_0000_0000,
        v * k >= o * o,
        0 < k <= 0x10_0000_0000,
    ensures
        v >= FRACTIONS * o,
        v > 0,
{
    assert(v > 0 && v >= FRACTIONS * o) by (nonlinear_arith)
        requires
            o >= 0x1_0000_0000_0000_0000_0000_0000_0000_0000,
            v * k >= o * o,
            0 < k <= 0x10_0000_0000,
            FRACTIONS == 0x10_0000_0000_0000,
    ;
}

/// How large a rounded product is at least and at most.
proof fn lemma_size_of_product(r: int, v: int, k: int, most: int)
    requires
        FRACTIONS * size(r * one() - v) <= v,
        v * k >= one() * one(),
        v <= most * (one() * one()),
        k > 0,
        most > 0,
        v > 0,
    ensures
        r * (2 * k) >= one(),
        r <= 2 * most * one(),
{
    let o = one();
    lemma_pow2_pos(1074);
    assert(2 * (r * o) >= v && r * o <= 2 * v);
    assert(r * (2 * k) >= o) by (nonlinear_arith)
        requires
            2 * (r * o) >= v,
            v * k >= o * o,
            o > 0,
            k > 0,
    ;
    assert(r <= 2 * most * o) by (nonlinear_arith)
        requires
            r * o <= 2 * v,
            v <= most * (o * o),
            o > 0,
    ;
}

proof fn lemma_pay_boost(r: Num, nitro: bool, p: int, q: int)
    requires
        p > 0,
        q > 0,
        is_about(r, p, q, 11),
        r.value() * 0x8_0000_0000 >= one(),
        r.value() <= 8_000_000_000_000_000 * one(),
    ensures
        ({
            let boost = if nitro {
                Num::spec_ratio(15, 10)
            } else {
                Num::spec_whole(1)
            };
            let k = if nitro {
                15int
            } else {
                10
            };
            is_about(r.spec_times(boost), p * k, q * 10, 30)
        }),
{
    let o = one();
    lemma_pow2_pos(1074);
    lemma_one_is_huge();
    let boost = if nitro {
        Num::spec_ratio(15, 10)
    } else {
        Num::spec_whole(1)
    };
    let k = if nitro {
        15int
    } else {
        10
    };
    let b = boost.value();
    fractions_are_near(15, 10);
    assert(size(15) * o == 15 * o);
    whole_numbers_are_exact(1);
    assert(1 * o == o);
    assert(is_about(boost, k, 10, 1) && o <= 2 * b && b <= 2 * o);
    let v = r.value() * b;
    assert(v * 0x10_0000_0000 >= o * o) by (nonlinear_arith)
        requires
            r.value() * 0x8_0000_0000 >= o,
            o <= 2 * b,
            o > 0,
            v == r.value() * b,
    ;
    lemma_large(o, v, 0x10_0000_0000);
    lemma_product_is_about(r, boost, p, q, k, 10, 11, 1);
    let e = (p * k) * o;
    assert(e >= 0) by (nonlinear_arith)
        requires
            p > 0,
            k > 0,
            o > 0,
            e == (p * k) * o,
    ;
    assert((2 * 11 + 1 + 1) * e <= 30 * e) by (nonlinear_arith)
        requires
            e >= 0,
    ;
}

} // verus!
