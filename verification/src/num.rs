//! Finite doubles, held by their place in the order of doubles.
//!
//! The game measures positions, speeds and timers as doubles. A double is held here as its
//! *order key*: the bits of its magnitude, negated for a negative number. Two finite doubles
//! compare as their keys do, and what they stand for is a whole number of the least
//! positive double.

use vstd::arithmetic::div_mod::{lemma_fundamental_div_mod, lemma_fundamental_div_mod_converse};
use vstd::arithmetic::power2::{lemma_pow2_pos, lemma_pow2_unfold, pow2};
use vstd::prelude::*;

verus! {

/// Two to the power of 52: the number of fractions that share an exponent.
pub const FRACTIONS: i64 = 0x10_0000_0000_0000;

/// A finite double.
#[derive(Clone, Copy, PartialEq, Eq, Structural, Debug)]
pub struct Num {
    /// The bits of the magnitude, negated for a negative number.
    pub key: i64,
}

/// The magnitude that the bits `k` stand for, in units of the least positive double.
pub open spec fn magnitude(k: nat) -> nat {
    let exponent = k / FRACTIONS as nat;
    let fraction = k % FRACTIONS as nat;
    if exponent == 0 {
        fraction
    } else {
        (FRACTIONS as nat + fraction) * pow2((exponent - 1) as nat)
    }
}

/// How often `n` is doubled before it holds `d` at least `FRACTIONS` times.
pub open spec fn doublings(n: nat, d: nat) -> nat
    decreases
        (if n < FRACTIONS * d {
            FRACTIONS * d - n
        } else {
            0
        }),
{
    if n == 0 || n >= FRACTIONS * d {
        0
    } else {
        doublings(2 * n, d) + 1
    }
}

/// The integer nearest to `n / d`; of two equally near ones, the even one.
pub open spec fn nearest(n: nat, d: nat) -> nat {
    let below = n / d;
    let left = n % d;
    if 2 * left > d || (2 * left == d && below % 2 == 1) {
        below + 1
    } else {
        below
    }
}

/// The key of the double nearest to `n / d`, ties going to the even one.
pub open spec fn ratio_key(n: nat, d: nat) -> int {
    if n == 0 {
        0
    } else {
        let e = doublings(n, d);
        (1074 - e) * FRACTIONS + nearest(n * pow2(e), d)
    }
}

impl Num {
    /// The number itself, in units of the least positive double, two to the power of -1074.
    pub open spec fn value(self) -> int {
        if self.key >= 0 {
            magnitude(self.key as nat) as int
        } else {
            -(magnitude((-self.key) as nat) as int)
        }
    }

    /// The number that stands at `key`.
    pub open spec fn at(key: int) -> Num {
        Num { key: key as i64 }
    }

    /// The double nearest to `n / d`.
    pub open spec fn spec_ratio(n: int, d: int) -> Num {
        if n >= 0 {
            Num::at(ratio_key(n as nat, d as nat))
        } else {
            Num::at(-ratio_key((-n) as nat, d as nat))
        }
    }

    /// The double `n`.
    pub open spec fn spec_whole(n: int) -> Num {
        Num::spec_ratio(n, 1)
    }

    /// The smaller of two numbers.
    pub open spec fn spec_min(self, other: Num) -> Num {
        if other.key < self.key {
            other
        } else {
            self
        }
    }

    /// The larger of two numbers.
    pub open spec fn spec_max(self, other: Num) -> Num {
        if other.key > self.key {
            other
        } else {
            self
        }
    }

    /// The number of `lo..=hi` that is nearest to this one.
    pub open spec fn spec_clamp(self, lo: Num, hi: Num) -> Num {
        self.spec_max(lo).spec_min(hi)
    }

    /// The number whose bits as a double are `bits`; both zeros are the same number.
    pub fn from_bits(bits: u64) -> (r: Num)
        ensures
            bits < 0x8000_0000_0000_0000 ==> r.key == bits,
            bits >= 0x8000_0000_0000_0000 ==> r.key == 0x8000_0000_0000_0000 - bits,
    {
        if bits < 0x8000_0000_0000_0000 {
            Num { key: bits as i64 }
        } else {
            Num { key: -((bits - 0x8000_0000_0000_0000) as i64) }
        }
    }

    /// The bits of this number as a double.
    pub fn to_bits(self) -> (r: u64)
        requires
            self.key > i64::MIN,
        ensures
            self.key >= 0 ==> r == self.key,
            self.key < 0 ==> r == 0x8000_0000_0000_0000 - self.key,
    {
        if self.key >= 0 {
            self.key as u64
        } else {
            0x8000_0000_0000_0000 + ((-self.key) as u64)
        }
    }

    /// Whether this number is below `other`.
    pub fn lt(self, other: Num) -> (r: bool)
        ensures
            r == (self.key < other.key),
    {
        self.key < other.key
    }

    /// Whether this number is `other` or below it.
    pub fn le(self, other: Num) -> (r: bool)
        ensures
            r == (self.key <= other.key),
    {
        self.key <= other.key
    }

    /// The smaller of two numbers.
    pub fn min(self, other: Num) -> (r: Num)
        ensures
            r == self.spec_min(other),
    {
        if other.key < self.key {
            other
        } else {
            self
        }
    }

    /// The larger of two numbers.
    pub fn max(self, other: Num) -> (r: Num)
        ensures
            r == self.spec_max(other),
    {
        if other.key > self.key {
            other
        } else {
            self
        }
    }

    /// The number of `lo..=hi` that is nearest to this one.
    pub fn clamp(self, lo: Num, hi: Num) -> (r: Num)
        requires
            lo.key <= hi.key,
        ensures
            r == self.spec_clamp(lo, hi),
            lo.key <= r.key <= hi.key,
            lo.key <= self.key <= hi.key ==> r == self,
    {
        self.max(lo).min(hi)
    }

    /// The double nearest to `n / d`, ties going to the even one: what the decimal
    /// literal of that fraction denotes.
    pub fn ratio(n: i32, d: u32) -> (r: Num)
        requires
            d > 0,
            n > i32::MIN,
        ensures
            r == Num::spec_ratio(n as int, d as int),
            n >= 0 <==> r.key >= 0,
            n > 0 <==> r.key > 0,
    {
        if n >= 0 {
            Num::ratio_magnitude(n as u32, d)
        } else {
            let up: Num = Num::ratio_magnitude((-n) as u32, d);
            Num { key: -up.key }
        }
    }

    /// The double `n`.
    pub fn whole(n: i32) -> (r: Num)
        requires
            n > i32::MIN,
        ensures
            r == Num::spec_whole(n as int),
            n >= 0 <==> r.key >= 0,
            n > 0 <==> r.key > 0,
    {
        Num::ratio(n, 1)
    }

    /// The double of a count.
    pub fn count(n: u32) -> (r: Num)
        ensures
            r == Num::spec_whole(n as int),
    {
        Num::ratio_magnitude(n, 1)
    }

    fn ratio_magnitude(n: u32, d: u32) -> (r: Num)
        requires
            d > 0,
        ensures
            r.key == ratio_key(n as nat, d as nat),
            r.key >= 0,
            n > 0 <==> r.key > 0,
    {
        if n == 0 {
            return Num { key: 0 };
        }
        let goal: u128 = 0x10_0000_0000_0000u128 * (d as u128);
        let mut top: u128 = n as u128;
        let mut e: i64 = 0;
        proof {
            lemma_pow2_zero();
            assert(n * 1 == n);
            lemma_doublings_bound(n as nat, d as nat, 0);
        }
        while top < goal
            invariant
                goal == FRACTIONS * d,
                0 < d <= u32::MAX,
                0 < n <= u32::MAX,
                0 <= e,
                top >= n,
                top < 2 * goal || top == n,
                top == n * pow2(e as nat),
                doublings(n as nat, d as nat) == e + doublings(top as nat, d as nat),
                doublings(n as nat, d as nat) <= 84,
            decreases
                (if top < goal {
                    goal - top
                } else {
                    0
                }),
        {
            proof {
                lemma_pow2_unfold((e + 1) as nat);
                assert(n * (2 * pow2(e as nat)) == 2 * (n * pow2(e as nat))) by (nonlinear_arith);
            }
            top = top * 2;
            e = e + 1;
        }
        let below: u128 = top / (d as u128);
        let left: u128 = top % (d as u128);
        proof {
            lemma_quotient_bounds(top as nat, n as nat, d as nat);
        }
        let m: i64 = if 2 * left > d as u128 || (2 * left == d as u128 && below % 2 == 1) {
            (below + 1) as i64
        } else {
            below as i64
        };
        Num { key: (1074 - e) * FRACTIONS + m }
    }
}

proof fn lemma_pow2_zero()
    ensures
        pow2(0) == 1,
{
    vstd::arithmetic::power2::lemma2_to64();
}

/// Any positive 32-bit fraction is scaled by few doublings.
proof fn lemma_doublings_bound(n: nat, d: nat, step: nat)
    requires
        0 < n,
        0 < d <= u32::MAX,
        n >= pow2(step),
    ensures
        doublings(n, d) + step <= 84 || doublings(n, d) == 0,
    decreases
        (if n < FRACTIONS * d {
            FRACTIONS * d - n
        } else {
            0
        }),
{
    vstd::arithmetic::power2::lemma2_to64();
    vstd::arithmetic::power2::lemma2_to64_rest();
    vstd::arithmetic::power2::lemma_pow2_adds(52, 32);
    assert(FRACTIONS * d <= FRACTIONS * u32::MAX) by (nonlinear_arith)
        requires
            0 < d <= u32::MAX,
    ;
    if n < FRACTIONS * d {
        assert(step < 84) by {
            assert(pow2(84) == 0x10_0000_0000_0000 * 0x1_0000_0000);
            if step > 84 {
                vstd::arithmetic::power2::lemma_pow2_strictly_increases(84, step);
            }
        }
        lemma_pow2_unfold(step + 1);
        lemma_doublings_bound(2 * n, d, step + 1);
    }
}

proof fn lemma_quotient_bounds(top: nat, n: nat, d: nat)
    requires
        0 < d <= u32::MAX,
        0 < n <= u32::MAX,
        top >= FRACTIONS * d,
        top < 2 * (FRACTIONS * d) || top == n,
    ensures
        FRACTIONS <= top / d < 2 * FRACTIONS,
{
    assert(top < 2 * (FRACTIONS * d)) by {
        assert(FRACTIONS * d >= FRACTIONS) by (nonlinear_arith)
            requires
                d > 0,
        ;
    }
    assert(FRACTIONS <= top / d) by (nonlinear_arith)
        requires
            d > 0,
            top >= FRACTIONS * d,
    ;
    assert(top / d < 2 * FRACTIONS) by (nonlinear_arith)
        requires
            d > 0,
            top < 2 * (FRACTIONS * d),
    ;
}

/// A greater key stands for a greater magnitude.
pub proof fn lemma_magnitude_increases(k: nat, l: nat)
    requires
        k < l,
    ensures
        magnitude(k) < magnitude(l),
    decreases l - k,
{
    if k + 1 < l {
        lemma_magnitude_increases(k, (l - 1) as nat);
    }
    let j = (l - 1) as nat;
    let e = j / FRACTIONS as nat;
    let f = j % FRACTIONS as nat;
    if f + 1 < FRACTIONS {
        assert(l == FRACTIONS * e + (f + 1)) by {
            lemma_fundamental_div_mod(j as int, FRACTIONS as int);
        }
        lemma_fundamental_div_mod_converse(l as int, FRACTIONS as int, e as int, (f + 1) as int);
        if e > 0 {
            lemma_pow2_pos((e - 1) as nat);
            let p = pow2((e - 1) as nat);
            assert((FRACTIONS as nat + f) * p < (FRACTIONS as nat + f + 1) * p) by (nonlinear_arith)
                requires
                    p > 0,
            ;
        }
    } else {
        assert(l == FRACTIONS * (e + 1) + 0) by {
            lemma_fundamental_div_mod(j as int, FRACTIONS as int);
            assert(FRACTIONS * (e + 1) == FRACTIONS * e + FRACTIONS) by (nonlinear_arith);
        }
        lemma_fundamental_div_mod_converse(l as int, FRACTIONS as int, (e + 1) as int, 0);
        lemma_pow2_pos(e);
        lemma_pow2_zero();
        if e > 0 {
            lemma_pow2_unfold(e);
            lemma_pow2_pos((e - 1) as nat);
            let p = pow2((e - 1) as nat);
            assert((FRACTIONS as nat + f) * p < FRACTIONS as nat * (2 * p)) by (nonlinear_arith)
                requires
                    p > 0,
                    f < FRACTIONS,
            ;
        }
    }
}

/// Numbers compare as their keys do.
pub proof fn numbers_order_as_keys(a: Num, b: Num)
    ensures
        a.key < b.key <==> a.value() < b.value(),
        a.key == b.key <==> a.value() == b.value(),
{
    lemma_signed_increases(a, b);
    lemma_signed_increases(b, a);
}

proof fn lemma_signed_increases(a: Num, b: Num)
    ensures
        a.key < b.key ==> a.value() < b.value(),
{
    assert(magnitude(0) == 0);
    if a.key < b.key {
        if a.key >= 0 {
            lemma_magnitude_increases(a.key as nat, b.key as nat);
        } else {
            lemma_magnitude_increases(0, (-a.key) as nat);
            if b.key > 0 {
                lemma_magnitude_increases(0, b.key as nat);
            } else if b.key < 0 {
                lemma_magnitude_increases((-b.key) as nat, (-a.key) as nat);
            }
        }
    }
}

/// What is known of the nearest integer: it is off by at most a half, and even if by just that.
pub(crate) proof fn lemma_nearest(n: nat, d: nat)
    requires
        d > 0,
    ensures
        (2 * nearest(n, d) - 1) * d <= 2 * n <= (2 * nearest(n, d) + 1) * d,
        (2 * nearest(n, d) - 1) * d == 2 * n ==> nearest(n, d) % 2 == 0,
        (2 * nearest(n, d) + 1) * d == 2 * n ==> nearest(n, d) % 2 == 0,
{
    let b = n / d;
    let l = n % d;
    lemma_fundamental_div_mod(n as int, d as int);
    assert(n == d * b + l);
    assert((2 * b - 1) * d == 2 * (d * b) - d) by (nonlinear_arith);
    assert((2 * b + 1) * d == 2 * (d * b) + d) by (nonlinear_arith);
    assert((2 * (b + 1) - 1) * d == 2 * (d * b) + d) by (nonlinear_arith);
    assert((2 * (b + 1) + 1) * d == 2 * (d * b) + 3 * d) by (nonlinear_arith);
}

/// Rounding to the nearest integer keeps the order of fractions.
pub(crate) proof fn lemma_nearest_keeps_order(a: nat, b: nat, c: nat, d: nat)
    requires
        b > 0,
        d > 0,
        a * d <= c * b,
    ensures
        nearest(a, b) <= nearest(c, d),
{
    lemma_nearest(a, b);
    lemma_nearest(c, d);
    let k = nearest(a, b) as int;
    let l = nearest(c, d) as int;
    if k > l {
        assert((2 * l + 1) * b <= (2 * k - 1) * b) by (nonlinear_arith)
            requires
                k > l,
                b > 0,
        ;
        assert(((2 * l + 1) * b) * d <= (2 * a) * d) by (nonlinear_arith)
            requires
                (2 * l + 1) * b <= 2 * a,
                d > 0,
        ;
        assert((2 * c) * b <= ((2 * l + 1) * d) * b) by (nonlinear_arith)
            requires
                2 * c <= (2 * l + 1) * d,
                b > 0,
        ;
        assert((2 * a) * d == 2 * (a * d)) by (nonlinear_arith);
        assert((2 * c) * b == 2 * (c * b)) by (nonlinear_arith);
        assert(((2 * l + 1) * b) * d == ((2 * l + 1) * d) * b) by (nonlinear_arith);
        assert(((2 * l + 1) * b) * d == (2 * a) * d);
        assert((2 * l + 1) * b == 2 * a) by (nonlinear_arith)
            requires
                ((2 * l + 1) * b) * d == (2 * a) * d,
                d > 0,
        ;
        assert(2 * c == (2 * l + 1) * d) by (nonlinear_arith)
            requires
                (2 * c) * b == ((2 * l + 1) * d) * b,
                b > 0,
        ;
        assert((2 * k - 1) * b == (2 * l + 1) * b);
        assert(k == l + 1) by (nonlinear_arith)
            requires
                (2 * k - 1) * b == (2 * l + 1) * b,
                b > 0,
        ;
    }
}

/// The smaller fraction takes at least as many doublings.
proof fn lemma_doublings_keep_order(a: nat, b: nat, c: nat, d: nat)
    requires
        0 < a,
        0 < b,
        0 < c,
        0 < d,
        a * d <= c * b,
    ensures
        doublings(a, b) >= doublings(c, d),
    decreases
        (if c < FRACTIONS * d {
            FRACTIONS * d - c
        } else {
            0
        }),
{
    if c < FRACTIONS * d {
        assert(a < FRACTIONS * b) by (nonlinear_arith)
            requires
                a * d <= c * b,
                c < FRACTIONS * d,
                b > 0,
                d > 0,
        ;
        assert((2 * a) * d <= (2 * c) * b) by (nonlinear_arith)
            requires
                a * d <= c * b,
        ;
        lemma_doublings_keep_order(2 * a, b, 2 * c, d);
    }
}

/// After its doublings a 32-bit fraction lies between `FRACTIONS` and twice that.
pub(crate) proof fn lemma_scaled(n: nat, d: nat)
    requires
        0 < n <= u32::MAX,
        0 < d <= u32::MAX,
    ensures
        FRACTIONS * d <= n * pow2(doublings(n, d)) < 2 * (FRACTIONS * d),
        doublings(n, d) <= 84,
{
    lemma_pow2_zero();
    lemma_doublings_bound(n, d, 0);
    assert(n < 2 * (FRACTIONS * d)) by (nonlinear_arith)
        requires
            n <= u32::MAX,
            d > 0,
    ;
    lemma_scaled_from(n, d);
}

proof fn lemma_scaled_from(n: nat, d: nat)
    requires
        0 < n,
        n < 2 * (FRACTIONS * d),
    ensures
        FRACTIONS * d <= n * pow2(doublings(n, d)) < 2 * (FRACTIONS * d),
    decreases
        (if n < FRACTIONS * d {
            FRACTIONS * d - n
        } else {
            0
        }),
{
    lemma_pow2_zero();
    if n < FRACTIONS * d {
        lemma_scaled_from(2 * n, d);
        let e = doublings(2 * n, d);
        lemma_pow2_unfold(e + 1);
        assert((2 * n) * pow2(e) == n * (2 * pow2(e))) by (nonlinear_arith);
    } else {
        assert(n * 1 == n);
    }
}

proof fn lemma_ratio_keys_keep_order(a: nat, b: nat, c: nat, d: nat)
    requires
        0 < a <= u32::MAX,
        0 < b <= u32::MAX,
        0 < c <= u32::MAX,
        0 < d <= u32::MAX,
        a * d <= c * b,
    ensures
        0 < ratio_key(a, b) <= ratio_key(c, d),
{
    let e = doublings(a, b);
    let f = doublings(c, d);
    lemma_doublings_keep_order(a, b, c, d);
    lemma_scaled(a, b);
    lemma_scaled(c, d);
    lemma_nearest_range(a * pow2(e), b);
    lemma_nearest_range(c * pow2(f), d);
    if e == f {
        let p = pow2(e);
        assert((a * p) * d <= (c * p) * b) by (nonlinear_arith)
            requires
                a * d <= c * b,
        ;
        lemma_nearest_keeps_order(a * p, b, c * p, d);
    }
}

proof fn lemma_nearest_range(n: nat, d: nat)
    requires
        d > 0,
        FRACTIONS * d <= n < 2 * (FRACTIONS * d),
    ensures
        FRACTIONS <= nearest(n, d) <= 2 * FRACTIONS,
{
    assert(FRACTIONS <= n / d) by (nonlinear_arith)
        requires
            d > 0,
            FRACTIONS * d <= n,
    ;
    assert(n / d < 2 * FRACTIONS) by (nonlinear_arith)
        requires
            d > 0,
            n < 2 * (FRACTIONS * d),
    ;
}

/// Fractions keep their order: of two, the smaller one does not become the larger double.
pub proof fn fractions_keep_their_order(n: i32, d: u32, m: i32, f: u32)
    requires
        n > i32::MIN,
        m > i32::MIN,
        d > 0,
        f > 0,
        n * f <= m * d,
    ensures
        Num::spec_ratio(n as int, d as int).key <= Num::spec_ratio(m as int, f as int).key,
{
    if n > 0 {
        assert(m > 0) by (nonlinear_arith)
            requires
                n > 0,
                f > 0,
                d > 0,
                n * f <= m * d,
        ;
        lemma_ratio_keys_keep_order(n as nat, d as nat, m as nat, f as nat);
        lemma_key_fits(n as nat, d as nat);
        lemma_key_fits(m as nat, f as nat);
    } else if m < 0 {
        assert(n < 0) by (nonlinear_arith)
            requires
                m < 0,
                f > 0,
                d > 0,
                n * f <= m * d,
        ;
        assert((-m) * d <= (-n) * f) by (nonlinear_arith)
            requires
                n * f <= m * d,
        ;
        lemma_ratio_keys_keep_order((-m) as nat, f as nat, (-n) as nat, d as nat);
        lemma_key_fits((-n) as nat, d as nat);
        lemma_key_fits((-m) as nat, f as nat);
    } else {
        lemma_key_fits((-n) as nat, d as nat);
        lemma_key_fits(m as nat, f as nat);
    }
}

/// Whole numbers are far from the end of the doubles.
pub(crate) proof fn lemma_wholes_are_small(n: nat)
    requires
        n <= u32::MAX,
    ensures
        0 <= Num::spec_whole(n as int).key < 0x7ff0_0000_0000_0000,
{
    lemma_key_fits(n, 1);
    if n > 0 {
        lemma_scaled(n, 1);
        lemma_nearest_range(n * pow2(doublings(n, 1)), 1);
        let e = doublings(n, 1);
        assert((1074 - e) * FRACTIONS <= 1074 * FRACTIONS) by (nonlinear_arith)
            requires
                e >= 0,
        ;
    }
}

proof fn lemma_key_fits(n: nat, d: nat)
    requires
        n <= u32::MAX,
        0 < d <= u32::MAX,
    ensures
        0 <= ratio_key(n, d) <= i64::MAX,
{
    if n > 0 {
        lemma_scaled(n, d);
        lemma_nearest_range(n * pow2(doublings(n, d)), d);
    }
}

/// A fraction and its opposite are equally far from zero.
pub proof fn fractions_have_opposites(n: u32, d: u32)
    requires
        d > 0,
    ensures
        Num::spec_ratio(-n, d as int).key == -Num::spec_ratio(n as int, d as int).key,
{
    lemma_key_fits(n as nat, d as nat);
    assert(ratio_key(0, d as nat) == 0);
}

/// A fraction becomes a double that is off by at most half the gap between two doubles
/// there, which is two to the power of `1074 - doublings(n, d)` units.
pub proof fn fraction_becomes_nearest_double(n: u32, d: u32)
    requires
        0 < n <= i32::MAX,
        d > 0,
    ensures
        ({
            let r = Num::spec_ratio(n as int, d as int).value();
            let unit = pow2(1074) as int;
            let gap = pow2((1074 - doublings(n as nat, d as nat)) as nat) as int;
            2 * (r * d - n * unit) <= d * gap && 2 * (n * unit - r * d) <= d * gap
        }),
{
    let e = doublings(n as nat, d as nat);
    let top = n as nat * pow2(e);
    let m = nearest(top, d as nat);
    lemma_scaled(n as nat, d as nat);
    lemma_nearest_range(top, d as nat);
    lemma_key_fits(n as nat, d as nat);
    lemma_nearest(top, d as nat);
    let k = ratio_key(n as nat, d as nat);
    let g = (1074 - e) as nat;
    let gap = pow2(g);
    lemma_pow2_pos(g);
    // The double is `m` gaps.
    assert(magnitude(k as nat) == m * gap) by {
        if m < 2 * FRACTIONS {
            let f = m - FRACTIONS;
            assert(k == FRACTIONS * (g + 1) + f) by (nonlinear_arith)
                requires
                    k == g * FRACTIONS + m,
                    f == m - FRACTIONS,
            ;
            lemma_fundamental_div_mod_converse(k, FRACTIONS as int, (g + 1) as int, f as int);
        } else {
            assert(k == FRACTIONS * (g + 2) + 0) by (nonlinear_arith)
                requires
                    k == g * FRACTIONS + m,
                    m == 2 * FRACTIONS,
            ;
            lemma_fundamental_div_mod_converse(k, FRACTIONS as int, (g + 2) as int, 0);
            lemma_pow2_unfold(g + 1);
            assert(FRACTIONS as nat * (2 * gap) == m * gap) by (nonlinear_arith)
                requires
                    m == 2 * FRACTIONS,
            ;
        }
    }
    // The unit is as many gaps as the doublings made of it.
    vstd::arithmetic::power2::lemma_pow2_adds(e, g);
    assert(pow2(1074) == pow2(e) * gap);
    let off = 2 * (m * d - top);
    assert(2 * ((m * gap) * d - n * (pow2(e) * gap)) == off * gap) by (nonlinear_arith)
        requires
            off == 2 * (m * d - n * pow2(e)),
    ;
    assert((2 * m - 1) * d == 2 * (m * d) - d && (2 * m + 1) * d == 2 * (m * d) + d) by (nonlinear_arith);
    assert(-d <= off <= d);
    assert(off * gap <= d * gap && (-off) * gap <= d * gap) by (nonlinear_arith)
        requires
            -d <= off <= d,
            gap > 0,
    ;
    assert(-(off * gap) == (-off) * gap) by (nonlinear_arith);
}

/// A whole number is a double itself.
pub proof fn whole_numbers_are_exact(n: i32)
    requires
        n > i32::MIN,
    ensures
        Num::spec_whole(n as int).value() == n * pow2(1074),
        n >= 0 <==> Num::spec_whole(n as int).key >= 0,
{
    let m: nat = if n >= 0 {
        n as nat
    } else {
        (-n) as nat
    };
    assert(magnitude(0) == 0);
    if m > 0 {
        let e = doublings(m, 1);
        let top = m * pow2(e);
        lemma_scaled(m, 1);
        lemma_key_fits(m, 1);
        assert(top / 1 == top && top % 1 == 0);
        assert(nearest(top, 1) == top);
        let k = ratio_key(m, 1);
        let g = (1074 - e) as nat;
        let f = top - FRACTIONS;
        assert(k == FRACTIONS * (g + 1) + f) by (nonlinear_arith)
            requires
                k == g * FRACTIONS + top,
                f == top - FRACTIONS,
        ;
        lemma_fundamental_div_mod_converse(k, FRACTIONS as int, (g + 1) as int, f as int);
        vstd::arithmetic::power2::lemma_pow2_adds(e, g);
        let p = pow2(e);
        let q = pow2(g);
        assert((m * p) * q == m * (p * q)) by (nonlinear_arith);
        assert(magnitude(k as nat) == m * pow2(1074));
        assert(n * pow2(1074) == (if n >= 0 {
            (m * pow2(1074)) as int
        } else {
            -(m * pow2(1074))
        })) by (nonlinear_arith)
            requires
                n >= 0 ==> m == n,
                n < 0 ==> m == -n,
        ;
        assert(k > 0) by {
            lemma_ratio_keys_keep_order(m, 1, m, 1);
        }
    } else {
        assert(n * pow2(1074) == 0) by (nonlinear_arith)
            requires
                n == 0,
        ;
    }
}

} // verus!
