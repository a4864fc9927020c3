//! Doubles in writing, with a fixed number of decimals.

use crate::arith::ENDLESS;
use crate::num::{magnitude, Num, FRACTIONS};
use crate::rounding::{lemma_point, one};
use crate::text::{decimal, digit, digit_char, number, pad_left, padded, push_repeated, repeated};
use vstd::arithmetic::div_mod::{lemma_fundamental_div_mod, lemma_fundamental_div_mod_converse};
use vstd::arithmetic::power::pow;
use vstd::arithmetic::power2::{lemma_pow2_pos, lemma_pow2_unfold, pow2};
use vstd::prelude::*;
use vstd::string::StringExecFns;

verus! {

/// The whole number nearest to `a / d`; of two equally near ones, the even one.
pub open spec fn even_share(a: int, d: int) -> int {
    let q = a / d;
    let r = a % d;
    if 2 * r > d || (2 * r == d && q % 2 == 1) {
        q + 1
    } else {
        q
    }
}

/// Ten to the power of `places`.
pub open spec fn tens(places: nat) -> nat {
    pow(10, places) as nat
}

/// How often the last decimal of `places` goes into the magnitude of a number.
pub open spec fn units(n: Num, places: nat) -> nat {
    even_share(
        if n.value() >= 0 {
            n.value() * tens(places)
        } else {
            -n.value() * tens(places)
        },
        one(),
    ) as nat
}

/// So many units of the last of `places` decimals, in writing.
pub open spec fn pointed(units: nat, places: nat) -> Seq<char> {
    if places == 0 {
        decimal(units)
    } else {
        decimal(units / tens(places)) + seq!['.'] + padded(
            decimal(units % tens(places)),
            '0',
            places as int,
        )
    }
}

/// A number rounded to `places` decimals, in writing.
pub open spec fn fixed_text(n: Num, places: nat) -> Seq<char> {
    let sign = if n.key < 0 {
        seq!['-']
    } else {
        Seq::empty()
    };
    if n.key > ENDLESS || n.key < -ENDLESS {
        "NaN"@
    } else if n.key == ENDLESS || n.key == -ENDLESS {
        sign + "inf"@
    } else {
        sign + pointed(units(n, places), places)
    }
}

/// What decimal digits are worth, the first of them the highest.
pub open spec fn worth(digits: Seq<u8>) -> nat
    decreases digits.len(),
{
    if digits.len() == 0 {
        0
    } else {
        10 * worth(digits.drop_last()) + digits.last() as nat
    }
}

/// Whether these are the decimal digits of a positive number.
pub open spec fn neat(digits: Seq<u8>) -> bool {
    &&& digits.len() > 0
    &&& digits[0] > 0
    &&& forall|i: int| #![trigger digits[i]] 0 <= i < digits.len() ==> digits[i] < 10
}

/// The digits of a positive number are those of its writing.
proof fn lemma_digits_write(digits: Seq<u8>)
    requires
        neat(digits),
    ensures
        worth(digits) > 0,
        decimal(worth(digits)) == digits.map_values(|d: u8| digit_char(d as int)),
    decreases digits.len(),
{
    let rest = digits.drop_last();
    let last = digits.last();
    let text = digits.map_values(|d: u8| digit_char(d as int));
    assert(digits[digits.len() - 1] == last);
    if digits.len() == 1 {
        assert(worth(rest) == 0);
        assert(text =~= seq![digit_char(last as int)]);
    } else {
        assert(rest[0] == digits[0]);
        assert forall|i: int| #![trigger rest[i]] 0 <= i < rest.len() implies rest[i] < 10 by {
            assert(rest[i] == digits[i]);
        }
        lemma_digits_write(rest);
        assert(worth(digits) / 10 == worth(rest));
        assert(worth(digits) % 10 == last);
        assert(text =~= rest.map_values(|d: u8| digit_char(d as int)).push(digit_char(last as int)));
    }
}

/// The decimal digits of a positive number.
fn digits_of(n: u64) -> (r: Vec<u8>)
    requires
        n > 0,
    ensures
        neat(r@),
        worth(r@) == n,
    decreases n,
{
    let mut r: Vec<u8> = if n >= 10 {
        digits_of(n / 10)
    } else {
        Vec::new()
    };
    let ghost high = r@;
    r.push((n % 10) as u8);
    assert(n < 10 ==> worth(high) == 0);
    assert(r@.drop_last() =~= high);
    r
}

/// The digits of twice the number.
fn twice(digits: &Vec<u8>) -> (r: Vec<u8>)
    requires
        neat(digits@),
    ensures
        neat(r@),
        worth(r@) == 2 * worth(digits@),
{
    let mut r: Vec<u8> = Vec::new();
    if digits[0] >= 5 {
        r.push(1);
        assert(r@.drop_last() =~= Seq::<u8>::empty());
        reveal_with_fuel(worth, 2);
    }
    let mut i: usize = 0;
    while i < digits.len()
        invariant
            i <= digits@.len(),
            neat(digits@),
            i > 0 || digits@[0] >= 5 ==> r@.len() > 0 && r@[0] > 0,
            i == 0 && digits@[0] < 5 ==> r@.len() == 0,
            forall|k: int| #![trigger r@[k]] 0 <= k < r@.len() ==> r@[k] < 10,
            worth(r@) == 2 * worth(digits@.take(i as int)) + (if i < digits@.len() && digits@[i as int] >= 5 {
                1int
            } else {
                0
            }),
        decreases digits@.len() - i,
    {
        let d: u8 = digits[i];
        let carry: u8 = if i + 1 < digits.len() && digits[i + 1] >= 5 {
            1
        } else {
            0
        };
        let ghost before = r@;
        proof {
            assert(digits@.take(i + 1).drop_last() =~= digits@.take(i as int));
            assert(digits@.take(i + 1).last() == d);
        }
        r.push((2 * d) % 10 + carry);
        assert(r@.drop_last() =~= before);
        i = i + 1;
    }
    assert(digits@.take(i as int) =~= digits@);
    r
}

/// `m` times two to the power of `j`, in writing.
fn shifted_number(m: u64, j: u64) -> (r: String)
    requires
        m > 0,
    ensures
        r@ == decimal(m as nat * pow2(j as nat)),
{
    let mut digits: Vec<u8> = digits_of(m);
    let mut i: u64 = 0;
    proof {
        vstd::arithmetic::power2::lemma2_to64();
    }
    while i < j
        invariant
            i <= j,
            neat(digits@),
            worth(digits@) == m as nat * pow2(i as nat),
        decreases j - i,
    {
        digits = twice(&digits);
        proof {
            lemma_pow2_unfold((i + 1) as nat);
            let p = pow2(i as nat);
            assert(2 * (m as nat * p) == m as nat * (2 * p)) by (nonlinear_arith);
        }
        i = i + 1;
    }
    let mut r: String = String::new();
    let mut k: usize = 0;
    let ghost text = digits@.map_values(|d: u8| digit_char(d as int));
    while k < digits.len()
        invariant
            k <= digits@.len(),
            neat(digits@),
            text == digits@.map_values(|d: u8| digit_char(d as int)),
            r@ == text.take(k as int),
        decreases digits@.len() - k,
    {
        r.push(digit(digits[k] as u64));
        assert(r@ =~= text.take(k + 1));
        k = k + 1;
    }
    proof {
        lemma_digits_write(digits@);
        assert(text.take(k as int) =~= text);
    }
    r
}

/// A common factor does not change the nearest whole number.
proof fn lemma_common_factor(a: int, d: int, c: int)
    requires
        a >= 0,
        d > 0,
        c > 0,
    ensures
        even_share(c * a, c * d) == even_share(a, d),
{
    let q = a / d;
    let r = a % d;
    lemma_fundamental_div_mod(a, d);
    assert(c * a == (c * d) * q + c * r && 0 <= c * r < c * d && c * d > 0) by (nonlinear_arith)
        requires
            a == d * q + r,
            0 <= r < d,
            c > 0,
    ;
    lemma_fundamental_div_mod_converse(c * a, c * d, q, c * r);
    assert(2 * (c * r) > c * d <==> 2 * r > d) by (nonlinear_arith)
        requires
            c > 0,
    ;
    assert(2 * (c * r) == c * d <==> 2 * r == d) by (nonlinear_arith)
        requires
            c > 0,
    ;
}

/// The nearest whole number to `a` over two to the power of `s`.
fn shifted_out(a: u64, s: u64) -> (r: u64)
    requires
        a < 0x8000_0000_0000_0000,
        s >= 1,
    ensures
        r == even_share(a as int, pow2(s as nat) as int),
        r <= a + 1,
{
    proof {
        lemma_pow2_pos(s as nat);
        vstd::arithmetic::power2::lemma2_to64();
        vstd::arithmetic::power2::lemma2_to64_rest();
    }
    if s >= 64 {
        proof {
            if s > 64 {
                vstd::arithmetic::power2::lemma_pow2_strictly_increases(64, s as nat);
            }
            lemma_fundamental_div_mod_converse(a as int, pow2(s as nat) as int, 0, a as int);
        }
        return 0;
    }
    proof {
        vstd::bits::lemma_u64_shr_is_div(a, s);
        vstd::bits::lemma_u64_pow2_no_overflow(s as nat);
        vstd::bits::lemma_u64_shl_is_mul(1, s);
        lemma_fundamental_div_mod(a as int, pow2(s as nat) as int);
        vstd::arithmetic::div_mod::lemma_div_is_ordered_by_denominator(a as int, 1, pow2(s as nat) as int);
    }
    let d: u64 = 1u64 << s;
    let q: u64 = a >> s;
    let left: u64 = a % d;
    if 2 * left > d || (2 * left == d && q % 2 == 1) {
        q + 1
    } else {
        q
    }
}

/// How many units of `1 / scale` are in the magnitude that the bits `k` stand for, if that
/// is less than two to the power of 52.
fn small_units(k: u64, scale: u64) -> (r: u64)
    requires
        k / FRACTIONS as u64 <= 1074,
        1 <= scale <= 1000,
    ensures
        r == even_share(magnitude(k as nat) * scale, one()),
{
    let x: u64 = k / FRACTIONS as u64;
    let f: u64 = k % FRACTIONS as u64;
    let m: u64 = if x == 0 {
        f
    } else {
        FRACTIONS as u64 + f
    };
    let s: u64 = if x == 0 {
        1074
    } else {
        1075 - x
    };
    proof {
        assert(m * scale < 0x8000_0000_0000_0000) by (nonlinear_arith)
            requires
                0 <= m < 0x20_0000_0000_0000,
                0 <= scale <= 1000,
        ;
        assert(m * scale >= 0) by (nonlinear_arith)
            requires
                0 <= m,
                0 <= scale,
        ;
        lemma_pow2_pos(s as nat);
        lemma_point(k as nat, x as nat, m as nat);
        if x > 0 {
            let p = pow2((x - 1) as nat) as int;
            lemma_pow2_pos((x - 1) as nat);
            assert((p * m) * scale == p * (m * scale)) by (nonlinear_arith);
            lemma_common_factor(m * scale, pow2(s as nat) as int, p);
        }
    }
    shifted_out(m * scale, s)
}

/// Ten to the power of `places`.
fn power_of_ten(places: u32) -> (r: u64)
    requires
        places <= 3,
    ensures
        r == tens(places as nat),
        1 <= r <= 1000,
{
    proof {
        reveal_with_fuel(pow, 4);
    }
    match places {
        0 => 1,
        1 => 10,
        2 => 100,
        _ => 1000,
    }
}

/// Puts the point into so many units of the last of `places` decimals.
fn point(units: u64, places: u32) -> (r: String)
    requires
        places <= 3,
    ensures
        r@ == pointed(units as nat, places as nat),
{
    if places == 0 {
        return number(units);
    }
    let scale: u64 = power_of_ten(places);
    let mut r: String = number(units / scale);
    r.push('.');
    r.append(pad_left(number(units % scale).as_str(), '0', places as usize).as_str());
    assert(r@ =~= pointed(units as nat, places as nat));
    r
}

/// A whole number of units has no decimals but noughts.
proof fn lemma_noughts(w: nat, places: nat)
    requires
        1 <= places <= 3,
    ensures
        pointed(w * tens(places), places) == decimal(w) + seq!['.'] + repeated('0', places as int),
{
    reveal_with_fuel(pow, 4);
    let t = tens(places) as int;
    assert(w * t == t * w) by (nonlinear_arith);
    lemma_fundamental_div_mod_converse(w * t, t, w as int, 0);
    let zero = decimal(0);
    assert(zero =~= seq!['0']);
    assert(padded(zero, '0', places as int) =~= repeated('0', places as int));
}

/// A number rounded to `places` decimals, in writing.
pub fn fixed(n: Num, places: u32) -> (r: String)
    requires
        places <= 3,
    ensures
        r@ == fixed_text(n, places as nat),
{
    let k: u64 = n.size();
    if k > ENDLESS {
        let r: String = "NaN".to_owned();
        return r;
    }
    let mut r: String = String::new();
    if n.key < 0 {
        r.push('-');
    }
    let ghost sign = r@;
    assert(sign =~= if n.key < 0 {
        seq!['-']
    } else {
        Seq::<char>::empty()
    });
    if k == ENDLESS {
        r.append("inf");
        return r;
    }
    let scale: u64 = power_of_ten(places);
    let x: u64 = k / FRACTIONS as u64;
    assert(n.value() == (if n.key >= 0 {
        magnitude(k as nat) as int
    } else {
        -(magnitude(k as nat) as int)
    }));
    if x <= 1074 {
        let text: String = point(small_units(k, scale), places);
        proof {
            if n.value() == 0 {
                assert(-n.value() * tens(places as nat) == 0) by (nonlinear_arith)
                    requires
                        n.value() == 0,
                ;
            }
        }
        r.append(text.as_str());
        return r;
    }
    let m: u64 = FRACTIONS as u64 + k % FRACTIONS as u64;
    let text: String = shifted_number(m, x - 1075);
    r.append(text.as_str());
    proof {
        lemma_point(k as nat, x as nat, m as nat);
        lemma_pow2_pos(1074);
        let w = m as nat * pow2((x - 1075) as nat);
        let o = one();
        let t = tens(places as nat) as int;
        assert((o * w) * t == o * (w * t)) by (nonlinear_arith);
        lemma_fundamental_div_mod_converse(o * (w * t), o, w * t, 0);
        assert(w * t >= 0) by (nonlinear_arith)
            requires
                w >= 0,
                t >= 0,
        ;
        assert(o * w >= 0) by (nonlinear_arith)
            requires
                o > 0,
                w >= 0,
        ;
        assert(units(n, places as nat) == w * t);
        if places == 0 {
            reveal_with_fuel(pow, 2);
            assert(w * t == w) by (nonlinear_arith)
                requires
                    t == 1,
            ;
        } else {
            lemma_noughts(w, places as nat);
        }
    }
    if places > 0 {
        r.push('.');
        push_repeated(&mut r, '0', places as usize);
    }
    assert(r@ =~= fixed_text(n, places as nat));
    r
}

/// A number of so many bits has no more digits.
proof fn lemma_bits_and_digits(n: nat, bits: nat)
    requires
        n < pow2(bits),
    ensures
        1 <= decimal(n).len() <= bits + 1,
    decreases bits,
{
    vstd::arithmetic::power2::lemma2_to64();
    if n >= 10 {
        assert(bits > 0);
        lemma_pow2_unfold(bits);
        lemma_bits_and_digits(n / 10, (bits - 1) as nat);
    }
}

/// No double takes many characters.
pub proof fn doubles_are_written_shortly(n: Num, places: nat)
    requires
        places <= 3,
    ensures
        fixed_text(n, places).len() <= 1100,
{
    reveal_strlit("NaN");
    reveal_strlit("inf");
    if -ENDLESS < n.key < ENDLESS {
        reveal_with_fuel(pow, 4);
        let k = if n.key >= 0 {
            n.key as nat
        } else {
            (-n.key) as nat
        };
        let t = tens(places) as int;
        let v = magnitude(k) as int;
        let u = units(n, places);
        let o = one();
        lemma_pow2_pos(1074);
        let x = k / FRACTIONS as nat;
        assert(x <= 2046);
        vstd::arithmetic::power2::lemma2_to64();
        vstd::arithmetic::power2::lemma2_to64_rest();
        assert(v < pow2(2098)) by {
            if x == 0 {
                vstd::arithmetic::power2::lemma_pow2_strictly_increases(53, 2098);
            } else {
                let f = (FRACTIONS + k % FRACTIONS as nat) as int;
                let p = pow2((x - 1) as nat) as int;
                lemma_pow2_pos((x - 1) as nat);
                assert(f * p < pow2(53) * p) by (nonlinear_arith)
                    requires
                        f < pow2(53),
                        p > 0,
                ;
                vstd::arithmetic::power2::lemma_pow2_adds(53, (x - 1) as nat);
                if 52 + x < 2098 {
                    vstd::arithmetic::power2::lemma_pow2_strictly_increases((52 + x) as nat, 2098);
                }
            }
        }
        assert(v * t < pow2(2098) * 1024) by (nonlinear_arith)
            requires
                0 <= v < pow2(2098),
                0 < t <= 1000,
        ;
        assert(v * t >= 0) by (nonlinear_arith)
            requires
                v >= 0,
                t > 0,
        ;
        vstd::arithmetic::power2::lemma_pow2_adds(2098, 10);
        vstd::arithmetic::power2::lemma_pow2_adds(1034, 1074);
        let top = pow2(1034) as int;
        assert(v * t < top * o);
        lemma_fundamental_div_mod(v * t, o);
        let q = (v * t) / o;
        assert(q < top) by (nonlinear_arith)
            requires
                v * t < top * o,
                v * t == o * q + (v * t) % o,
                0 <= (v * t) % o,
                o > 0,
        ;
        assert(q >= 0) by {
            vstd::arithmetic::div_mod::lemma_div_pos_is_pos(v * t, o);
        }
        vstd::arithmetic::power2::lemma_pow2_unfold(1035);
        lemma_pow2_pos(1034);
        assert(even_share(v * t, o) <= q + 1);
        assert(u < pow2(1035));
        lemma_bits_and_digits(u, 1035);
        assert(u / t as nat <= u) by (nonlinear_arith)
            requires
                t >= 1,
                u >= 0,
        ;
        lemma_bits_and_digits(u / t as nat, 1035);
        lemma_bits_and_digits(u % t as nat, 10);
    }
}

} // verus!
