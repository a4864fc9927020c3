//! What the instruments read, in numbers.

use crate::arith::ENDLESS;
use crate::figures::{even_share, fixed_text, units};
use crate::game::GameModel;
use crate::handling::{lemma_limits, lemma_zero, products_are_near, within};
use crate::hiscore::{lemma_decimal, value_of};
use crate::hud::{hud_line, km_text, lit_notches, notches, shown_score, six_digits};
use crate::measure::size;
use crate::num::{whole_numbers_are_exact, Num};
use crate::panels::gameover_page;
use crate::promises::place_of;
use crate::rounding::{one, rounding_goes_to_the_nearest};
use crate::style::color;
use crate::text::{decimal, padded, repeated};
use vstd::arithmetic::power2::lemma_pow2_pos;
use vstd::prelude::*;

verus! {

/// Zeros in front of a number do not change it.
proof fn lemma_zeros(k: int, digits: Seq<char>)
    ensures
        value_of(repeated('0', k) + digits) == value_of(digits),
    decreases k, digits.len(),
{
    let all = repeated('0', k) + digits;
    if digits.len() > 0 {
        lemma_zeros(k, digits.drop_last());
        assert(all.drop_last() =~= repeated('0', k) + digits.drop_last());
        assert(all.last() == digits.last());
    } else if k > 0 {
        lemma_zeros(k - 1, digits);
        assert(all.drop_last() =~= repeated('0', k - 1) + digits);
        assert(all.last() == '0');
    } else {
        assert(all =~= digits);
    }
}

/// What is written with six digits is the number itself.
pub proof fn six_digits_say_the_number(n: u64)
    ensures
        value_of(six_digits(n as int)) == n,
        six_digits(n as int).len() >= 6,
{
    let d = decimal(n as nat);
    lemma_decimal(n as nat);
    lemma_zeros(6 - d.len(), d);
}

/// As many notches of a gauge are lit as the share says, to the nearest one.
pub proof fn gauges_show_their_share(share: Num, n: i32)
    requires
        0 <= n <= 100,
    ensures
        ({
            let o = one();
            let exact = n * within(share.value(), 0, o);
            1_000_000 * size(2 * (lit_notches(share, n as int) * o) - 2 * exact) <= 1_000_001 * o
        }),
{
    let o = one();
    lemma_pow2_pos(1074);
    lemma_zero();
    whole_numbers_are_exact(1);
    whole_numbers_are_exact(n);
    assert(1 * o == o);
    lemma_limits(share, Num::spec_whole(0), Num::spec_whole(1));
    let part = share.spec_clamp(Num::spec_whole(0), Num::spec_whole(1));
    let whole = Num::spec_whole(n as int);
    assert(0 <= n * o <= 100 * o) by (nonlinear_arith)
        requires
            0 <= n <= 100,
            o > 0,
    ;
    products_are_near(part, whole);
    let r = part.spec_times(whole);
    let p = part.value();
    rounding_goes_to_the_nearest(r);
    let e = r.value() - n * p;
    assert(r.value() * o - p * (n * o) == e * o) by (nonlinear_arith)
        requires
            e == r.value() - n * p,
    ;
    assert(1_000_000_000 * size(e) <= o) by (nonlinear_arith)
        requires
            1_000_000_000 * size(e * o) <= o * o,
            o > 0,
    ;
}

/// A number is written to the nearest unit of its last decimal.
pub proof fn figures_are_nearest(n: Num, places: nat)
    requires
        places <= 9,
    ensures
        ({
            let o = one();
            let exact = size(n.value()) * vstd::arithmetic::power::pow(10, places);
            2 * size(units(n, places) * o - exact) <= o
        }),
{
    let o = one();
    lemma_pow2_pos(1074);
    vstd::arithmetic::power::lemma_pow_positive(10, places);
    let t = vstd::arithmetic::power::pow(10, places);
    let v = n.value();
    let a = size(v) * t;
    assert(a >= 0) by (nonlinear_arith)
        requires
            a == size(v) * t,
            t > 0,
            size(v) >= 0,
    ;
    assert(a == if v >= 0 {
        v * t
    } else {
        -v * t
    });
    vstd::arithmetic::div_mod::lemma_fundamental_div_mod(a, o);
    vstd::arithmetic::div_mod::lemma_mod_bound(a, o);
    vstd::arithmetic::div_mod::lemma_div_pos_is_pos(a, o);
    let q = a / o;
    assert((q + 1) * o == q * o + o && o * q == q * o) by (nonlinear_arith);
    assert(even_share(a, o) == q || even_share(a, o) == q + 1);
}

/// The instruments read the points of the run, up to six digits of them, the best score of
/// its intensity, and the tank, six notches for a full one.
pub proof fn the_instruments_read_true(g: GameModel)
    requires
        g.wf(),
    ensures
        ({
            let o = one();
            let line = hud_line(g);
            let p = g.dash.score.value() / o;
            let lit = line[9].text;
            let dark = line[10].text;
            &&& line.len() >= 13
            &&& line[1].text.len() == 6
            &&& value_of(line[1].text) == within(p, 0, 999_999)
            &&& value_of(line[3].text) == g.hi[place_of(g.dash.diff)]
            &&& lit.len() + dark.len() == 6
            &&& 1_000_000 * size(2 * (lit.len() * o) - 12 * within(g.dash.nitro.value(), 0, o)) <= 1_000_001 * o
            &&& forall|i: int| #![trigger lit[i]] 0 <= i < lit.len() ==> lit[i] == '█'
            &&& forall|i: int| #![trigger dark[i]] 0 <= i < dark.len() ==> dark[i] == '░'
            &&& line[9].style.fg == Some(color(110, 225, 255))
        }),
{
    let o = one();
    let line = hud_line(g);
    lemma_pow2_pos(1074);
    crate::hud::the_score_takes_six_digits(g);
    six_digits_say_the_number(shown_score(g) as u64);
    six_digits_say_the_number(g.hi[place_of(g.dash.diff)]);
    gauges_show_their_share(g.dash.nitro, 6);
    crate::hud::gauges_stay_within(g.dash.nitro, 6);
    let gauge = notches(lit_notches(g.dash.nitro, 6), 6, color(110, 225, 255));
    assert(line[9] == gauge[0] && line[10] == gauge[1]);
    assert(g.dash.diff.place() == place_of(g.dash.diff));
}

/// A number without decimals is written as the nearest whole one.
pub proof fn whole_figures_are_nearest(n: Num)
    requires
        0 <= n.key < ENDLESS,
    ensures
        2 * size(value_of(fixed_text(n, 0)) * one() - n.value()) <= one(),
{
    lemma_pow2_pos(1074);
    figures_are_nearest(n, 0);
    vstd::arithmetic::power::lemma_pow0(10);
    lemma_decimal(units(n, 0));
    assert(Seq::<char>::empty() + decimal(units(n, 0)) =~= decimal(units(n, 0)));
    assert(size(n.value()) * 1 == n.value());
}

/// The page at the end of a run reads its points, its near misses and its best combo, and
/// calls a new best score only where there is one.
pub proof fn the_result_reads_true(g: GameModel, width: int)
    ensures
        ({
            let page = gameover_page(g, width);
            let n = page.len();
            let p = g.dash.score.value() / one();
            let combo = page[n - 3][1].text;
            &&& n >= 7
            &&& value_of(page[n - 7][1].text) == within(p, 0, u64::MAX as int)
            &&& page[n - 7].len() > 2 ==> g.dash.new_best
            &&& value_of(page[n - 4][1].text) == g.dash.near_misses
            &&& combo[0] == 'x'
            &&& value_of(combo.skip(1)) == g.dash.best_combo
        }),
{
    let page = gameover_page(g, width);
    let n = page.len();
    six_digits_say_the_number(g.points());
    lemma_decimal(g.dash.near_misses as nat);
    lemma_decimal(g.dash.best_combo as nat);
    reveal_strlit("x");
    let combo = page[n - 3][1].text;
    assert(combo == "x"@ + decimal(g.dash.best_combo as nat));
    assert(combo.skip(1) =~= decimal(g.dash.best_combo as nat));
}

/// What a text with a point before its last two digits is worth in hundredths.
pub open spec fn hundredths(text: Seq<char>) -> int {
    let n = text.len();
    (100 * value_of(text.take(n - 3)) + value_of(text.skip(n - 2))) as int
}

/// A number with two decimals is written to the nearest hundredth.
pub proof fn hundredths_are_nearest(n: Num)
    requires
        0 <= n.key < ENDLESS,
    ensures
        ({
            let text = fixed_text(n, 2);
            &&& text.len() >= 4
            &&& text[text.len() - 3] == '.'
            &&& 2 * size(hundredths(text) * one() - 100 * n.value()) <= one()
        }),
{
    let u = units(n, 2);
    let text = fixed_text(n, 2);
    lemma_pow2_pos(1074);
    figures_are_nearest(n, 2);
    assert(vstd::arithmetic::power::pow(10, 2) == 100) by {
        reveal_with_fuel(vstd::arithmetic::power::pow, 3);
    }
    let whole = decimal(u / 100);
    let part = decimal(u % 100);
    lemma_decimal(u / 100);
    lemma_decimal(u % 100);
    reveal_with_fuel(decimal, 3);
    assert(part.len() <= 2);
    lemma_zeros(2 - part.len(), part);
    let tail = padded(part, '0', 2);
    assert(tail.len() == 2);
    assert(text =~= whole + seq!['.'] + tail);
    assert(text.take(text.len() - 3) =~= whole);
    assert(text.skip(text.len() - 2) =~= tail);
    assert(100 * (u / 100) + u % 100 == u);
    assert(size(n.value()) * 100 == 100 * n.value());
}

/// The distance is read in km: the hundredths are ten metres each, to the nearest.
pub proof fn the_distance_is_in_km(g: GameModel)
    requires
        0 <= g.dash.distance.value() <= 1_000_000_000 * one(),
    ensures
        ({
            let text = km_text(g);
            &&& text.len() >= 4
            &&& text[text.len() - 3] == '.'
            &&& 1_000 * size(10 * (hundredths(text) * one()) - g.dash.distance.value()) <= 5_001 * one()
        }),
{
    let o = one();
    let d = g.dash.distance;
    let v = d.value();
    let k: int = 9_007_199_254_740_992;
    lemma_pow2_pos(1074);
    crate::measure::lemma_one_is_many();
    whole_numbers_are_exact(1000);
    let t = 1000 * o;
    assert(0 <= v * o <= 1_000_000_000 * (o * o)) by (nonlinear_arith)
        requires
            0 <= v <= 1_000_000_000 * o,
            o > 0,
    ;
    assert(size(v * o) <= 0x1_0000_0000_0000_0000_0000_0000_0000_0000int * (t * o)) by (nonlinear_arith)
        requires
            0 <= v * o <= 1_000_000_000 * (o * o),
            t == 1000 * o,
            o > 0,
    ;
    crate::measure::results_are_near(v * o, t as nat);
    let km = d.spec_over(Num::spec_whole(1000));
    let q = km.value();
    let e = 1000 * q - v;
    assert(q * t - v * o == e * o) by (nonlinear_arith)
        requires
            t == 1000 * o,
            e == 1000 * q - v,
    ;
    assert(k * size(e * o) <= 1_000_000_001 * (o * o)) by (nonlinear_arith)
        requires
            k * size(e * o) <= v * o + 4_503_599_627_370_496 * t,
            0 <= v * o <= 1_000_000_000 * (o * o),
            t == 1000 * o,
            o >= 0x10_0000_0000_0000_0000_0000,
    ;
    assert(k * size(e) <= 1_000_000_001 * o) by (nonlinear_arith)
        requires
            k * size(e * o) <= 1_000_000_001 * (o * o),
            o > 0,
            k > 0,
    ;
    assert(q < 1_000_000_000 * o) by (nonlinear_arith)
        requires
            k * size(1000 * q - v) <= 1_000_000_001 * o,
            v <= 1_000_000_000 * o,
            o > 0,
            k == 9_007_199_254_740_992,
    ;
    lemma_finite_quotient(d);
    hundredths_are_nearest(km);
}

proof fn lemma_finite_quotient(d: Num)
    requires
        0 <= d.value(),
        d.spec_over(Num::spec_whole(1000)).value() < 1_000_000_000 * one(),
    ensures
        0 <= d.spec_over(Num::spec_whole(1000)).key < ENDLESS,
{
    let km = d.spec_over(Num::spec_whole(1000));
    lemma_pow2_pos(1074);
    lemma_zero();
    whole_numbers_are_exact(1000);
    whole_numbers_are_exact(1_000_000_000);
    crate::num::numbers_order_as_keys(d, Num::spec_whole(0));
    crate::num::numbers_order_as_keys(km, Num::spec_whole(1_000_000_000));
    crate::num::lemma_wholes_are_small(1_000_000_000);
    crate::num::numbers_order_as_keys(Num::spec_whole(1000), Num::spec_whole(0));
    crate::num::numbers_order_as_keys(Num::spec_whole(0), Num::spec_whole(1000));
    crate::arith::quotients_keep_their_sign(d, Num::spec_whole(1000));
}

} // verus!
