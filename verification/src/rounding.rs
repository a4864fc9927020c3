//! Rounding doubles to whole numbers.

use crate::num::{magnitude, Num, FRACTIONS};
use vstd::arithmetic::div_mod::{lemma_basic_div, lemma_div_denominator, lemma_div_multiples_vanish_quotient};
use vstd::arithmetic::power2::{lemma_pow2_adds, lemma_pow2_pos, lemma_pow2_unfold, pow2};
use vstd::prelude::*;

verus! {

/// The number one, in units of the least positive double.
pub open spec fn one() -> int {
    pow2(1074) as int
}

/// `v`, or the end of `lo..=hi` that is nearest to it.
pub open spec fn limited(v: int, lo: int, hi: int) -> int {
    if v < lo {
        lo
    } else if v > hi {
        hi
    } else {
        v
    }
}

impl Num {
    /// The greatest whole number that is not above this one.
    pub open spec fn spec_floor(self) -> int {
        self.value() / one()
    }

    /// The least whole number that is not below this one.
    pub open spec fn spec_ceil(self) -> int {
        -((-self.value()) / one())
    }

    /// This number without its fraction.
    pub open spec fn spec_trunc(self) -> int {
        if self.key >= 0 {
            self.spec_floor()
        } else {
            self.spec_ceil()
        }
    }

    /// The nearest whole number; of two equally near ones, the one further from zero.
    pub open spec fn spec_round(self) -> int {
        if self.key >= 0 {
            (2 * self.value() + one()) / (2 * one())
        } else {
            -((-2 * self.value() + one()) / (2 * one()))
        }
    }

    /// The bits of the magnitude.
    pub(crate) fn size(self) -> (k: u64)
        ensures
            k == (if self.key >= 0 {
                self.key as int
            } else {
                -self.key
            }),
    {
        if self.key >= 0 {
            self.key as u64
        } else {
            (-(self.key + 1)) as u64 + 1
        }
    }

    /// This number without its fraction, as far as it is within `u64`.
    pub fn truncated(self) -> (r: u64)
        ensures
            r == limited(self.spec_floor(), 0, u64::MAX as int),
    {
        proof {
            lemma_pow2_pos(1074);
        }
        if self.key < 0 {
            proof {
                lemma_floor_sign(self);
            }
            return 0;
        }
        proof {
            lemma_floor_sign(self);
        }
        below(self.size())
    }

    /// The greatest whole number that is not above this one, as far as it is within `i64`.
    pub fn floored(self) -> (r: i64)
        ensures
            r == limited(self.spec_floor(), i64::MIN as int, i64::MAX as int),
    {
        proof {
            lemma_pow2_pos(1074);
            lemma_floor_sign(self);
        }
        if self.key >= 0 {
            let m: u64 = below(self.size());
            if m > i64::MAX as u64 {
                i64::MAX
            } else {
                m as i64
            }
        } else {
            let m: u64 = above(self.size());
            proof {
                lemma_floor_of_negative(-self.value(), one());
            }
            if m > i64::MAX as u64 {
                i64::MIN
            } else {
                -(m as i64)
            }
        }
    }

    /// The least whole number that is not below this one, as far as it is within `i64`.
    pub fn ceiled(self) -> (r: i64)
        ensures
            r == limited(self.spec_ceil(), i64::MIN as int, i64::MAX as int),
    {
        proof {
            lemma_pow2_pos(1074);
        }
        if self.key >= 0 {
            let m: u64 = above(self.size());
            proof {
                lemma_floor_of_negative(self.value(), one());
                lemma_quotient_sign(self.value() + one() - 1, one());
            }
            if m > i64::MAX as u64 {
                i64::MAX
            } else {
                m as i64
            }
        } else {
            let m: u64 = below(self.size());
            proof {
                lemma_quotient_sign(-self.value(), one());
            }
            if m > i64::MAX as u64 {
                i64::MIN
            } else {
                -(m as i64)
            }
        }
    }

    /// This number without its fraction, as far as it is within `i64`.
    pub fn cut_off(self) -> (r: i64)
        ensures
            r == limited(self.spec_trunc(), i64::MIN as int, i64::MAX as int),
    {
        if self.key >= 0 {
            self.floored()
        } else {
            self.ceiled()
        }
    }

    /// The nearest whole number, as far as it is within `i32`; of two equally near ones, the
    /// one further from zero.
    pub fn nearest(self) -> (r: i32)
        ensures
            r == limited(self.spec_round(), i32::MIN as int, i32::MAX as int),
    {
        proof {
            lemma_pow2_pos(1074);
        }
        let m: u64 = near_to(self.size());
        if self.key >= 0 {
            proof {
                lemma_quotient_sign(2 * self.value() + one(), 2 * one());
            }
            if m > i32::MAX as u64 {
                i32::MAX
            } else {
                m as i32
            }
        } else {
            proof {
                lemma_quotient_sign(-2 * self.value() + one(), 2 * one());
            }
            if m > i32::MAX as u64 {
                i32::MIN
            } else {
                -(m as i32)
            }
        }
    }

    /// The nearest whole number, at most `limit` from zero; of two equally near ones, the
    /// one further from zero.
    pub fn rounded(self, limit: u32) -> (r: i32)
        requires
            limit <= i32::MAX,
        ensures
            r == limited(self.spec_round(), -limit, limit as int),
    {
        let n: i32 = self.nearest();
        if n > limit as i32 {
            limit as i32
        } else if n < -(limit as i32) {
            -(limit as i32)
        } else {
            n
        }
    }
}

proof fn lemma_quotient_sign(a: int, b: int)
    requires
        b > 0,
        a >= 0,
    ensures
        a / b >= 0,
{
    vstd::arithmetic::div_mod::lemma_div_pos_is_pos(a, b);
}

proof fn lemma_floor_sign(n: Num)
    ensures
        n.key >= 0 ==> n.spec_floor() >= 0,
        n.key < 0 ==> n.spec_floor() < 0,
{
    lemma_pow2_pos(1074);
    if n.key >= 0 {
        lemma_quotient_sign(n.value(), one());
    } else {
        crate::num::numbers_order_as_keys(n, Num { key: 0 });
        assert(magnitude(0) == 0);
        let v = n.value();
        let o = one();
        assert(v / o < 0) by (nonlinear_arith)
            requires
                v < 0,
                o > 0,
        ;
    }
}

proof fn lemma_floor_of_negative(m: int, d: int)
    requires
        m >= 0,
        d > 0,
    ensures
        (-m) / d == -((m + d - 1) / d),
{
    let q = (m + d - 1) / d;
    let r = (m + d - 1) % d;
    vstd::arithmetic::div_mod::lemma_fundamental_div_mod(m + d - 1, d);
    assert(-m == d * (-q) + (d - 1 - r)) by (nonlinear_arith)
        requires
            m + d - 1 == d * q + r,
    ;
    vstd::arithmetic::div_mod::lemma_fundamental_div_mod_converse(-m, d, -q, d - 1 - r);
}

/// Where the point lies in a double: `m` shifted right by `s`, or left by `-s`.
pub(crate) proof fn lemma_point(k: nat, x: nat, m: nat)
    requires
        x == k / FRACTIONS as nat,
        m == (if x == 0 {
            k % FRACTIONS as nat
        } else {
            (FRACTIONS + k % FRACTIONS as nat) as nat
        }),
    ensures
        x == 0 ==> 2 * magnitude(k) < one() && magnitude(k) == m,
        1 <= x <= 1074 ==> magnitude(k) == pow2((x - 1) as nat) * m && one() == pow2(
            (x - 1) as nat,
        ) * pow2((1075 - x) as nat),
        x >= 1075 ==> magnitude(k) == one() * (m * pow2((x - 1075) as nat)),
{
    vstd::arithmetic::power2::lemma2_to64();
    lemma_pow2_pos(1074);
    if x == 0 {
        assert(pow2(53) == 0x20_0000_0000_0000) by {
            vstd::arithmetic::power2::lemma2_to64_rest();
        }
        vstd::arithmetic::power2::lemma_pow2_strictly_increases(53, 1074);
    } else {
        let p = pow2((x - 1) as nat);
        assert(m * p == p * m) by (nonlinear_arith);
        if x <= 1074 {
            lemma_pow2_adds((x - 1) as nat, (1075 - x) as nat);
        } else {
            lemma_pow2_adds(1074, (x - 1075) as nat);
            let o = pow2(1074);
            let j = pow2((x - 1075) as nat);
            assert(m * (o * j) == o * (m * j)) by (nonlinear_arith);
        }
    }
}

/// A number of 53 bits shifted far enough to the right is zero.
proof fn lemma_shifted_out(m: nat, s: nat)
    requires
        m < 2 * FRACTIONS,
        s >= 53,
    ensures
        m < pow2(s),
{
    vstd::arithmetic::power2::lemma2_to64_rest();
    if s > 53 {
        vstd::arithmetic::power2::lemma_pow2_strictly_increases(53, s);
    }
}

/// The whole number of a double of two to the power of 52 or more, as far as it is within `u64`.
fn grown(k: u64) -> (r: u64)
    requires
        k / FRACTIONS as u64 >= 1075,
    ensures
        r == limited(magnitude(k as nat) as int / one(), 0, u64::MAX as int),
        magnitude(k as nat) as int % one() == 0,
{
    let x: u64 = k / FRACTIONS as u64;
    let m: u64 = FRACTIONS as u64 + k % FRACTIONS as u64;
    let j: u64 = x - 1075;
    proof {
        lemma_pow2_pos(1074);
        lemma_pow2_pos(j as nat);
        lemma_point(k as nat, x as nat, m as nat);
        let w = m * pow2(j as nat);
        assert(w >= 0) by (nonlinear_arith)
            requires
                w == m * pow2(j as nat),
        ;
        vstd::arithmetic::div_mod::lemma_div_multiples_vanish(w, one());
        vstd::arithmetic::div_mod::lemma_mod_multiples_basic(w, one());
        assert(one() * w == w * one()) by (nonlinear_arith);
    }
    if j > 11 {
        proof {
            vstd::arithmetic::power2::lemma2_to64();
            if j > 12 {
                vstd::arithmetic::power2::lemma_pow2_strictly_increases(12, j as nat);
            }
            let p = pow2(j as nat);
            assert(m * p >= FRACTIONS * 4096) by (nonlinear_arith)
                requires
                    m >= FRACTIONS,
                    p >= 4096,
            ;
        }
        return u64::MAX;
    }
    proof {
        vstd::arithmetic::power2::lemma2_to64();
        if j < 11 {
            vstd::arithmetic::power2::lemma_pow2_strictly_increases(j as nat, 11);
        }
        let p = pow2(j as nat);
        assert(0 <= m * p <= u64::MAX) by (nonlinear_arith)
            requires
                0 <= m < 2 * FRACTIONS,
                0 < p <= 2048,
        ;
        vstd::bits::lemma_u64_shl_is_mul(m, j);
    }
    m << j
}

/// The whole part of the magnitude that the bits `k` stand for, as far as it is within `u64`.
fn below(k: u64) -> (r: u64)
    ensures
        r == limited(magnitude(k as nat) as int / one(), 0, u64::MAX as int),
{
    let x: u64 = k / FRACTIONS as u64;
    proof {
        lemma_pow2_pos(1074);
    }
    if x >= 1075 {
        return grown(k);
    }
    let f: u64 = k % FRACTIONS as u64;
    if x == 0 {
        proof {
            lemma_point(k as nat, 0, f as nat);
            lemma_basic_div(magnitude(k as nat) as int, one());
        }
        return 0;
    }
    let m: u64 = FRACTIONS as u64 + f;
    let s: u64 = 1075 - x;
    proof {
        lemma_point(k as nat, x as nat, m as nat);
        lemma_pow2_pos((x - 1) as nat);
        lemma_pow2_pos(s as nat);
        lemma_div_multiples_vanish_quotient(pow2((x - 1) as nat) as int, m as int, pow2(s as nat) as int);
        lemma_quotient_sign(m as int, pow2(s as nat) as int);
    }
    if s >= 64 {
        proof {
            lemma_shifted_out(m as nat, s as nat);
            lemma_basic_div(m as int, pow2(s as nat) as int);
        }
        return 0;
    }
    proof {
        vstd::bits::lemma_u64_shr_is_div(m, s);
    }
    m >> s
}

/// The magnitude that the bits `k` stand for rounded up, as far as it is within `u64`.
fn above(k: u64) -> (r: u64)
    ensures
        r == limited((magnitude(k as nat) + one() - 1) / one(), 0, u64::MAX as int),
{
    let x: u64 = k / FRACTIONS as u64;
    proof {
        lemma_pow2_pos(1074);
        lemma_one_is_many();
    }
    if x >= 1075 {
        let r: u64 = grown(k);
        proof {
            let v = magnitude(k as nat) as int;
            let o = one();
            vstd::arithmetic::div_mod::lemma_fundamental_div_mod(v, o);
            vstd::arithmetic::div_mod::lemma_fundamental_div_mod_converse(v + o - 1, o, v / o, o - 1);
        }
        return r;
    }
    let f: u64 = k % FRACTIONS as u64;
    if x == 0 {
        proof {
            lemma_point(k as nat, 0, f as nat);
            if f == 0 {
                lemma_basic_div(one() - 1, one());
            } else {
                vstd::arithmetic::div_mod::lemma_fundamental_div_mod_converse(
                    f + one() - 1,
                    one(),
                    1,
                    f - 1,
                );
            }
        }
        return if f == 0 {
            0
        } else {
            1
        };
    }
    let m: u64 = FRACTIONS as u64 + f;
    let s: u64 = 1075 - x;
    proof {
        lemma_point(k as nat, x as nat, m as nat);
        lemma_pow2_pos((x - 1) as nat);
        lemma_pow2_pos(s as nat);
        let p = pow2((x - 1) as nat) as int;
        let b = pow2(s as nat) as int;
        let top = m + b - 1;
        assert(p * m + p * b - 1 == p * top + (p - 1)) by (nonlinear_arith)
            requires
                top == m + b - 1,
        ;
        vstd::arithmetic::div_mod::lemma_fundamental_div_mod_converse(p * top + (p - 1), p, top, p - 1);
        assert(p * top + (p - 1) >= 0) by (nonlinear_arith)
            requires
                p > 0,
                top >= 0,
        ;
        lemma_div_denominator(p * top + (p - 1), p, b);
        assert((magnitude(k as nat) + one() - 1) / one() == top / b);
        lemma_quotient_sign(top, b);
    }
    if s >= 54 {
        proof {
            lemma_shifted_out(m as nat, s as nat);
            vstd::arithmetic::div_mod::lemma_fundamental_div_mod_converse(
                m + pow2(s as nat) - 1,
                pow2(s as nat) as int,
                1,
                m - 1,
            );
        }
        return 1;
    }
    proof {
        vstd::arithmetic::power2::lemma2_to64_rest();
        if s < 53 {
            vstd::arithmetic::power2::lemma_pow2_strictly_increases(s as nat, 53);
        }
        assert(1 * pow2(s as nat) == pow2(s as nat));
        vstd::bits::lemma_u64_shl_is_mul(1, s);
    }
    let top: u64 = m + (1u64 << s) - 1;
    proof {
        vstd::bits::lemma_u64_shr_is_div(top, s);
    }
    top >> s
}

proof fn lemma_one_is_many()
    ensures
        one() > 0x20_0000_0000_0000,
{
    vstd::arithmetic::power2::lemma2_to64_rest();
    vstd::arithmetic::power2::lemma_pow2_strictly_increases(53, 1074);
}

/// The whole number nearest to the magnitude that the bits `k` stand for, ties going up, as
/// far as it is within `u64`.
fn near_to(k: u64) -> (r: u64)
    ensures
        r == limited((2 * magnitude(k as nat) + one()) / (2 * one()), 0, u64::MAX as int),
{
    let x: u64 = k / FRACTIONS as u64;
    proof {
        lemma_pow2_pos(1074);
    }
    if x >= 1075 {
        let r: u64 = grown(k);
        proof {
            let v = magnitude(k as nat) as int;
            let o = one();
            vstd::arithmetic::div_mod::lemma_fundamental_div_mod(v, o);
            let q = v / o;
            assert(2 * v + o == (2 * o) * q + o) by (nonlinear_arith)
                requires
                    v == o * q,
            ;
            vstd::arithmetic::div_mod::lemma_fundamental_div_mod_converse(2 * v + o, 2 * o, q, o);
        }
        return r;
    }
    let f: u64 = k % FRACTIONS as u64;
    if x == 0 {
        proof {
            lemma_point(k as nat, 0, f as nat);
            lemma_basic_div(2 * magnitude(k as nat) + one(), 2 * one());
        }
        return 0;
    }
    let m: u64 = FRACTIONS as u64 + f;
    let s: u64 = 1075 - x;
    let ghost half = pow2((s - 1) as nat) as int;
    proof {
        lemma_point(k as nat, x as nat, m as nat);
        lemma_pow2_pos((x - 1) as nat);
        lemma_pow2_pos(s as nat);
        lemma_pow2_pos((s - 1) as nat);
        lemma_pow2_unfold(s as nat);
        let p = pow2((x - 1) as nat) as int;
        let b = pow2(s as nat) as int;
        assert(b == 2 * half);
        assert(2 * (p * m) + p * b == (2 * p) * (m + half)) by (nonlinear_arith)
            requires
                b == 2 * half,
        ;
        assert(2 * (p * b) == (2 * p) * b) by (nonlinear_arith);
        lemma_div_multiples_vanish_quotient(2 * p, m + half, b);
        lemma_quotient_sign(m + half, b);
    }
    if s >= 54 {
        proof {
            lemma_shifted_out(m as nat, (s - 1) as nat);
            lemma_basic_div(m + half, pow2(s as nat) as int);
        }
        return 0;
    }
    proof {
        vstd::arithmetic::power2::lemma2_to64_rest();
        if s < 53 {
            vstd::arithmetic::power2::lemma_pow2_strictly_increases((s - 1) as nat, 53);
        }
        assert(1 * pow2((s - 1) as nat) == pow2((s - 1) as nat));
        vstd::bits::lemma_u64_shl_is_mul(1, (s - 1) as u64);
    }
    let top: u64 = m + (1u64 << (s - 1));
    proof {
        vstd::bits::lemma_u64_shr_is_div(top, s);
    }
    top >> s
}

/// Rounding goes to the nearest whole number: it is off by a half at most. Rounding down and
/// up is off by less than one.
pub proof fn rounding_goes_to_the_nearest(n: Num)
    ensures
        -one() <= 2 * (n.spec_round() * one() - n.value()) <= one(),
        0 <= n.value() - n.spec_floor() * one() < one(),
        0 <= n.spec_ceil() * one() - n.value() < one(),
{
    lemma_pow2_pos(1074);
    let o = one();
    let v = n.value();
    lemma_quotient(v, o);
    lemma_quotient(-v, o);
    assert((-((-v) / o)) * o == -(((-v) / o) * o)) by (nonlinear_arith);
    let a = if n.key >= 0 {
        2 * v + o
    } else {
        -2 * v + o
    };
    lemma_quotient(a, 2 * o);
    let q = a / (2 * o);
    assert(q * (2 * o) == 2 * (q * o)) by (nonlinear_arith);
    assert((-q) * o == -(q * o)) by (nonlinear_arith);
}

proof fn lemma_quotient(a: int, b: int)
    requires
        b > 0,
    ensures
        0 <= a - (a / b) * b < b,
{
    vstd::arithmetic::div_mod::lemma_fundamental_div_mod(a, b);
    assert((a / b) * b == b * (a / b)) by (nonlinear_arith);
}

/// A whole number stays as it is however it is rounded.
pub proof fn rounding_keeps_whole_numbers(n: i32)
    requires
        n > i32::MIN,
    ensures
        Num::spec_whole(n as int).value() == n * one(),
        Num::spec_whole(n as int).spec_floor() == n,
        Num::spec_whole(n as int).spec_ceil() == n,
        Num::spec_whole(n as int).spec_round() == n,
{
    let r = Num::spec_whole(n as int);
    let o = one();
    lemma_pow2_pos(1074);
    crate::num::whole_numbers_are_exact(n);
    vstd::arithmetic::div_mod::lemma_fundamental_div_mod_converse(n * o, o, n as int, 0);
    assert(-(n * o) == (-n) * o) by (nonlinear_arith);
    vstd::arithmetic::div_mod::lemma_fundamental_div_mod_converse((-n) * o, o, -n, 0);
    let m = if n >= 0 {
        n as int
    } else {
        -n as int
    };
    assert(2 * (m * o) + o == m * (2 * o) + o) by (nonlinear_arith);
    vstd::arithmetic::div_mod::lemma_fundamental_div_mod_converse(2 * (m * o) + o, 2 * o, m, o);
    assert(n >= 0 <==> r.key >= 0);
}

/// Rounding keeps the order.
pub proof fn rounding_keeps_order(a: Num, b: Num)
    requires
        0 <= a.key <= b.key,
    ensures
        a.spec_round() <= b.spec_round(),
{
    lemma_pow2_pos(1074);
    crate::num::numbers_order_as_keys(a, b);
    vstd::arithmetic::div_mod::lemma_div_is_ordered(
        2 * a.value() + one(),
        2 * b.value() + one(),
        2 * one(),
    );
}

} // verus!
