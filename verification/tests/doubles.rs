//! Numbers against the doubles of the machine.

use rat_racer::figures::fixed;
use rat_racer::num::Num;

fn num(f: f64) -> Num {
    Num::from_bits(f.to_bits())
}

fn val(n: Num) -> f64 {
    f64::from_bits(n.to_bits())
}

/// A stream of bit patterns.
struct Bits {
    state: u64,
}

impl Bits {
    fn next(&mut self) -> u64 {
        self.state ^= self.state << 13;
        self.state ^= self.state >> 7;
        self.state ^= self.state << 17;
        self.state
    }

    /// A finite double of any size.
    fn any(&mut self) -> f64 {
        loop {
            let f = f64::from_bits(self.next());
            if f.is_finite() {
                return f;
            }
        }
    }

    /// A double of a size that a game holds.
    fn usual(&mut self) -> f64 {
        let whole = (self.next() % 4001) as f64 - 2000.0;
        let part = (self.next() % 1_000_003) as f64 / 1_000_003.0;
        match self.next() % 4 {
            0 => whole,
            1 => part,
            2 => whole + part,
            _ => part * 1e-9,
        }
    }
}

fn same(n: Num, f: f64) -> bool {
    val(n) == f
}

#[test]
fn bits_go_in_and_out() {
    let mut bits = Bits { state: 0x9e37_79b9_7f4a_7c15 };
    for _ in 0..2000 {
        let f = bits.any();
        assert_eq!(val(num(f)), f);
    }
    assert_eq!(num(0.0), num(-0.0));
}

#[test]
fn sums_are_those_of_doubles() {
    let mut bits = Bits { state: 0x1234_5678_9abc_def1 };
    for _ in 0..20000 {
        let (a, b) = (bits.usual(), bits.usual());
        assert!(same(num(a).plus(num(b)), a + b), "{} + {}", a, b);
        assert!(same(num(a).minus(num(b)), a - b), "{} - {}", a, b);
        let (a, b) = (bits.any(), bits.any());
        assert!(same(num(a).plus(num(b)), a + b), "{} + {}", a, b);
        let near = f64::from_bits(a.to_bits() ^ (bits.next() & 0x803f_0000_0000_00ff));
        if near.is_finite() {
            assert!(same(num(a).plus(num(near)), a + near), "{} + {}", a, near);
            assert!(same(num(a).minus(num(near)), a - near), "{} - {}", a, near);
        }
    }
}

#[test]
fn products_are_those_of_doubles() {
    let mut bits = Bits { state: 0xdead_beef_1357_9bdf };
    for _ in 0..20000 {
        let (a, b) = (bits.usual(), bits.usual());
        assert!(same(num(a).times(num(b)), a * b), "{} * {}", a, b);
        let (a, b) = (bits.any(), bits.any());
        assert!(same(num(a).times(num(b)), a * b), "{} * {}", a, b);
    }
    let tiny = f64::from_bits(3);
    assert!(same(num(tiny).times(num(0.5)), tiny * 0.5));
    assert!(same(num(tiny).times(num(0.1)), tiny * 0.1));
    assert!(same(num(1e300).times(num(1e300)), f64::INFINITY));
}

#[test]
fn quotients_are_those_of_doubles() {
    let mut bits = Bits { state: 0x0f0f_1e1e_2d2d_3c3c };
    for _ in 0..20000 {
        let (a, b) = (bits.usual(), bits.usual());
        if b != 0.0 {
            assert!(same(num(a).over(num(b)), a / b), "{} / {}", a, b);
        }
        let (a, b) = (bits.any(), bits.any());
        if b != 0.0 {
            assert!(same(num(a).over(num(b)), a / b), "{} / {}", a, b);
        }
    }
    assert!(same(num(1.0).over(num(3.0)), 1.0 / 3.0));
    assert!(same(num(f64::from_bits(1)).over(num(2.0)), 0.0));
}

#[test]
fn fractions_are_decimal_literals() {
    assert_eq!(Num::ratio(62, 100), num(0.62));
    assert_eq!(Num::ratio(11, 100), num(0.11));
    assert_eq!(Num::ratio(-119, 100), num(-1.19));
    assert_eq!(Num::ratio(2999, 1000), num(2.999));
    assert_eq!(Num::whole(-34), num(-34.0));
    assert_eq!(Num::whole(0), num(0.0));
    let mut bits = Bits { state: 0x5555_1234_aaaa_4321 };
    for _ in 0..5000 {
        let n = (bits.next() % 2_000_001) as i32 - 1_000_000;
        let d = (bits.next() % 100_000) as u32 + 1;
        assert_eq!(Num::ratio(n, d), num(n as f64 / d as f64), "{} / {}", n, d);
    }
}

#[test]
fn rounding_is_that_of_doubles() {
    let mut bits = Bits { state: 0x7777_aaaa_3333_1111 };
    for i in 0..20000 {
        let f = if i % 2 == 0 { bits.usual() } else { bits.any() };
        assert_eq!(num(f).truncated(), f as u64, "{}", f);
        let limit = 1_000_000_000.0;
        assert_eq!(num(f).rounded(1_000_000_000), f.round().clamp(-limit, limit) as i32, "{}", f);
        assert_eq!(num(f).nearest(), f.round() as i32, "{}", f);
        assert_eq!(num(f).floored(), f.floor() as i64, "{}", f);
        assert_eq!(num(f).ceiled(), f.ceil() as i64, "{}", f);
        assert_eq!(num(f).cut_off(), f as i64, "{}", f);
    }
    for f in [0.5, -0.5, 1.5, 2.5, -2.5, 0.49999999999999994, 4503599627370495.5] {
        assert_eq!(num(f).rounded(2_000_000_000) as f64, f.round().min(2e9), "{}", f);
    }
}

#[test]
fn comparing_is_that_of_doubles() {
    let mut bits = Bits { state: 0x2468_ace0_1357_9bdf };
    for _ in 0..5000 {
        let (a, b) = (bits.any(), bits.any());
        assert_eq!(num(a).lt(num(b)), a < b);
        assert_eq!(num(a).le(num(b)), a <= b);
        assert_eq!(val(num(a).min(num(b))), a.min(b));
        assert_eq!(val(num(a).max(num(b))), a.max(b));
    }
    assert_eq!(num(7.0).clamp(num(0.0), num(1.0)), num(1.0));
    assert_eq!(num(-7.0).clamp(num(0.0), num(1.0)), num(0.0));
    assert_eq!(num(0.25).clamp(num(0.0), num(1.0)), num(0.25));
}

#[test]
fn fractions_are_remainders_by_one() {
    let mut bits = Bits { state: 0x1111_2222_3333_4445 };
    for i in 0..10000 {
        let f = if i % 2 == 0 { bits.usual() } else { bits.any() };
        assert!(same(num(f).fraction(), f % 1.0), "{}", f);
        assert!(same(num(f).abs(), f.abs()), "{}", f);
    }
    assert_eq!(val(num(2.75).fraction()), 0.75);
    assert_eq!(val(num(3.0).fraction()), 0.0);
}

#[test]
fn counts_are_doubles() {
    for n in [0u32, 1, 2, 99, 4_000_000_000, u32::MAX] {
        assert_eq!(Num::count(n), num(n as f64));
    }
    assert_eq!(num(-7.9).cut_off(), -7);
    assert_eq!(num(7.9).cut_off(), 7);
    assert_eq!(num(1e300).cut_off(), i64::MAX);
    assert_eq!(num(-1e300).cut_off(), i64::MIN);
}

#[test]
fn adding_keeps_the_order() {
    let mut bits = Bits { state: 0x3141_5926_5358_9793 };
    for _ in 0..5000 {
        let (a, b, c) = (bits.usual(), bits.usual(), bits.usual());
        let (lo, hi) = if b <= c { (b, c) } else { (c, b) };
        assert!(num(a).plus(num(lo)).le(num(a).plus(num(hi))));
        assert!(num(a).minus(num(hi)).le(num(a).minus(num(lo))));
        assert_eq!(num(a).plus(num(0.0)), num(a));
    }
}

#[test]
fn figures_are_those_of_doubles() {
    let mut bits = Bits { state: 0xfeed_beef_cafe_0001 };
    for i in 0..6000 {
        let f = if i % 2 == 0 { bits.usual() } else { bits.any() };
        assert_eq!(fixed(num(f), 0), format!("{:.0}", f), "{}", f);
        assert_eq!(fixed(num(f), 1), format!("{:.1}", f), "{}", f);
        assert_eq!(fixed(num(f), 2), format!("{:.2}", f), "{}", f);
        assert_eq!(fixed(num(f), 3), format!("{:.3}", f), "{}", f);
    }
    for f in [0.0, 0.5, 1.5, 2.5, 0.25, 0.125, 0.375, 1.005, 99.995, 1e15, 4503599627370496.5, 9e15, 1e22, f64::MAX] {
        for g in [f, -f] {
            if g.to_bits() != (-0.0f64).to_bits() {
                assert_eq!(fixed(num(g), 0), format!("{:.0}", g), "{}", g);
                assert_eq!(fixed(num(g), 2), format!("{:.2}", g), "{}", g);
            }
        }
    }
    for f in [f64::INFINITY, f64::NEG_INFINITY, f64::NAN, f64::MIN_POSITIVE, 5e-324] {
        assert_eq!(fixed(num(f), 2), format!("{:.2}", f));
    }
}
