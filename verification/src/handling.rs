//! How the car handles, in numbers: steering, speed, nitro and the road it covers.

use crate::course::{lemma_meet, lemma_roll, lemma_smash};
use crate::dice::Dice;
use crate::difficulty::Difficulty;
use crate::game::{Dash, GameModel};
use crate::geometry::{road, Area};
use crate::input::{Control, Input};
use crate::measure::{fractions_are_near, lemma_near_product, lemma_near_sum, lemma_one_is_many, size};
use crate::num::{numbers_order_as_keys, whole_numbers_are_exact, Num};
use crate::promises::lane_columns;
use crate::rounding::one;
use crate::running::{beyond, verge_at};
use vstd::arithmetic::power2::lemma_pow2_pos;
use vstd::prelude::*;

verus! {

/// Whether two numbers, in units of the least double, are the same but for a hundred-millionth.
pub open spec fn about(a: int, b: int) -> bool {
    100_000_000 * size(a - b) <= one()
}

/// Whether they are even nearer.
pub open spec fn close(a: int, b: int) -> bool {
    1_000_000_000 * size(a - b) <= one()
}

/// The number of `lo..=hi` that is nearest to `v`.
pub open spec fn within(v: int, lo: int, hi: int) -> int {
    if v < lo {
        lo
    } else if v > hi {
        hi
    } else {
        v
    }
}

/// A sum of numbers up to a million is near.
pub proof fn sums_are_near(a: Num, b: Num)
    requires
        size(a.value()) <= 1_000_000 * one(),
        size(b.value()) <= 1_000_000 * one(),
    ensures
        close(a.spec_plus(b).value(), a.value() + b.value()),
        close(a.spec_minus(b).value(), a.value() - b.value()),
{
    let o = one();
    lemma_pow2_pos(1074);
    lemma_near_sum(a.value() + b.value(), 2_000_000);
    lemma_near_sum(a.value() - b.value(), 2_000_000);
    lemma_few(size(a.spec_plus(b).value() - (a.value() + b.value())), 2_000_001, o);
    lemma_few(size(a.spec_minus(b).value() - (a.value() - b.value())), 2_000_001, o);
}

proof fn lemma_few(e: int, n: int, o: int)
    requires
        9_007_199_254_740_992 * e <= n * o,
        0 <= n <= 9_000_000,
        0 <= o,
        0 <= e,
    ensures
        1_000_000_000 * e <= o,
{
    assert(1_000_000_000 * e <= o) by (nonlinear_arith)
        requires
            9_007_199_254_740_992 * e <= n * o,
            0 <= n <= 9_000_000,
            0 <= o,
            0 <= e,
    ;
}

/// A whole number of times a second or less is near.
pub proof fn multiples_are_near(n: i32, dt: Num)
    requires
        -1000 <= n <= 1000,
        size(dt.value()) <= one(),
    ensures
        close(Num::spec_whole(n as int).spec_times(dt).value(), n * dt.value()),
        size(n * dt.value()) <= 1000 * one(),
{
    let o = one();
    let d = dt.value();
    let w = Num::spec_whole(n as int);
    let r = w.spec_times(dt).value();
    lemma_pow2_pos(1074);
    whole_numbers_are_exact(n);
    assert(size(n * o) <= 1000 * o) by (nonlinear_arith)
        requires
            -1000 <= n <= 1000,
            o > 0,
    ;
    assert(size(d) <= 1 * o);
    lemma_near_product(w, dt, 1000, 1);
    let e = r - n * d;
    assert(r * o - (n * o) * d == e * o) by (nonlinear_arith)
        requires
            e == r - n * d,
    ;
    assert(9_007_199_254_740_992 * size(e) <= 1001 * o) by (nonlinear_arith)
        requires
            9_007_199_254_740_992 * size(e * o) <= 1001 * (o * o),
            o > 0,
    ;
    lemma_few(size(e), 1001, o);
    assert(size(n * d) <= 1000 * o) by (nonlinear_arith)
        requires
            -1000 <= n <= 1000,
            size(d) <= o,
            o > 0,
    ;
}

/// A fraction of a second or less is near.
pub proof fn parts_are_near(p: i32, q: u32, n: Num, m: int)
    requires
        0 <= p <= 1000,
        1 <= q <= 1000,
        1 <= m <= 1000,
        size(n.value()) <= m * one(),
    ensures
        1_000_000_000 * size(q * Num::spec_ratio(p as int, q as int).spec_times(n).value() - p * n.value()) <= m * one(),
        1_000_000_000 * size(q * n.spec_times(Num::spec_ratio(p as int, q as int)).value() - p * n.value()) <= m * one(),
{
    let o = one();
    let f = Num::spec_ratio(p as int, q as int);
    let v = f.value();
    let d = n.value();
    let k: int = 9_007_199_254_740_992;
    lemma_pow2_pos(1074);
    fractions_are_near(p as int, q);
    assert(size(p as int) * o <= 1000 * o && 0 <= p * o <= 1000 * o) by (nonlinear_arith)
        requires
            0 <= p <= 1000,
            o > 0,
    ;
    assert(k * size(v * q - p * o) <= 1000 * o);
    assert(0 <= v <= 1001 * o) by (nonlinear_arith)
        requires
            v >= 0,
            k * size(v * q - p * o) <= 1000 * o,
            0 <= p * o <= 1000 * o,
            1 <= q,
            k == 9_007_199_254_740_992,
            o > 0,
    ;
    lemma_near_product(f, n, 1001, m);
    assert(v * d == d * v) by (nonlinear_arith);
    assert(f.spec_times(n) == n.spec_times(f));
    let r = f.spec_times(n).value();
    let e = q * r - p * d;
    assert(e * o == q * (r * o - v * d) + (v * q - p * o) * d) by (nonlinear_arith)
        requires
            e == q * r - p * d,
    ;
    let a = r * o - v * d;
    let b = v * q - p * o;
    assert(k * size(q * a) <= 1_002_000 * (m * (o * o))) by (nonlinear_arith)
        requires
            k * size(a) <= (1001 * m + 1) * (o * o),
            1 <= q <= 1000,
            1 <= m,
            k > 0,
            o > 0,
    ;
    assert(k * size(b * d) <= 1000 * (m * (o * o))) by (nonlinear_arith)
        requires
            k * size(b) <= 1000 * o,
            size(d) <= m * o,
            k > 0,
            o > 0,
            m > 0,
    ;
    assert(k * size(e * o) <= 1_003_000 * (m * (o * o)));
    assert(k * size(e) <= 1_003_000 * (m * o)) by (nonlinear_arith)
        requires
            k * size(e * o) <= 1_003_000 * (m * (o * o)),
            o > 0,
            k > 0,
    ;
    assert(0 <= m * o) by (nonlinear_arith)
        requires
            m > 0,
            o > 0,
    ;
    lemma_few(size(e), 1_003_000, m * o);
}

/// The larger, the smaller and the limited number, in values.
pub(crate) proof fn lemma_limits(n: Num, lo: Num, hi: Num)
    ensures
        n.spec_max(lo).value() == if n.value() < lo.value() {
            lo.value()
        } else {
            n.value()
        },
        n.spec_min(hi).value() == if n.value() > hi.value() {
            hi.value()
        } else {
            n.value()
        },
        lo.value() <= hi.value() ==> n.spec_clamp(lo, hi).value() == within(n.value(), lo.value(), hi.value()),
{
    numbers_order_as_keys(n, lo);
    numbers_order_as_keys(lo, n);
    numbers_order_as_keys(n, hi);
    numbers_order_as_keys(hi, n);
    numbers_order_as_keys(lo, hi);
    numbers_order_as_keys(hi, lo);
}

/// The top speed of an intensity in km/h.
pub open spec fn top_of(d: Difficulty) -> int {
    match d {
        Difficulty::Chill => 160,
        Difficulty::Rush => 215,
        Difficulty::Mayhem => 265,
    }
}

/// What the pedals give in km/h a second: 130 less on the brake, 62 more on the gas, and 17
/// more on neither.
pub open spec fn pedals(input: Input, now: Num) -> int {
    if input.holds(Control::Brake, now) {
        -130
    } else if input.holds(Control::Gas, now) {
        62
    } else {
        17
    }
}

/// Where the wheel turns to: -1 to the left, 1 to the right, 0 for neither or both.
pub open spec fn wheel(input: Input, now: Num) -> int {
    if input.holds(Control::Left, now) == input.holds(Control::Right, now) {
        0
    } else if input.holds(Control::Right, now) {
        1
    } else {
        -1
    }
}

/// Whether a place is on the asphalt for sure.
pub open spec fn on_asphalt(x: int, view: Area) -> bool {
    let o = one();
    &&& 1_000_000 * (10 * x - 16 * o) >= o
    &&& 1_000_000 * (40 * lane_columns(view.width as int) * o - 16 * o - 10 * x) >= o
}

/// Whether a place is on the grass for sure.
pub open spec fn on_grass(x: int, view: Area) -> bool {
    let o = one();
    ||| 1_000_000 * (16 * o - 10 * x) >= o
    ||| 1_000_000 * (10 * x - (40 * lane_columns(view.width as int) * o - 16 * o)) >= o
}

/// The instruments after a step of driving, one by one.
#[verifier::opaque]
spec fn driven_dash(before: GameModel, dt: Num, input: Input, dice: Dice, view: Area) -> Dash {
    before.ticked(dt).rough_ridden(dt, input, dice.dust, view).dash
}

/// What the instruments show after a step of the race comes from driving, but for the nitro
/// that bonuses add.
proof fn lemma_driven(before: GameModel, after: GameModel, dt: Num, view: Area, input: Input, dice: Dice)
    requires
        before.dash.state is Running,
        after.stepped(before, dt, view, input, dice),
    ensures
        ({
            let d = driven_dash(before, dt, input, dice, view);
            &&& after.dash.speed == d.speed
            &&& after.dash.player_x == d.player_x
            &&& after.dash.player_vx == d.player_vx
            &&& after.dash.state is Running || after.dash.state is Crashing
            &&& after.dash.state is Running ==> after.dash.nitro_on == d.nitro_on
            &&& after.dash.state is Crashing ==> after.dash.nitro == d.nitro && !after.dash.nitro_on
            &&& after.dash.state is Running ==> after.dash.nitro == crate::running::refuelled(
                d.nitro,
                bonuses_taken(before, dt, view, input, dice),
            )
            &&& after.dash.top_speed == before.dash.top_speed.spec_max(d.speed)
            &&& after.dash.scroll == before.dash.scroll.spec_plus(crate::drift::rows_in(d.speed, dt))
            &&& after.dash.distance == before.dash.distance.spec_plus(
                d.speed.spec_over(Num::spec_ratio(36, 10)).spec_times(dt),
            )
            &&& after.dash.run_t == before.dash.run_t.spec_plus(dt)
        }),
{
    let now = before.ticked(dt);
    let met = now.raced_on(dt, view, input, dice);
    reveal(driven_dash);
    reveal(bonuses_taken);
    lemma_meet(now, dt, view, input, dice);
    if now.gets_hit(dt, view, input, dice) {
        lemma_smash(after, now, dt, view, input, dice);
    } else {
        lemma_roll(after, met, dt, view, dice);
    }
}

/// How many bonuses are in reach in a step of the race.
#[verifier::opaque]
pub open spec fn bonuses_taken(before: GameModel, dt: Num, view: Area, input: Input, dice: Dice) -> nat {
    before.ticked(dt).raced_on(dt, view, input, dice).thinned(view, -60).catch(view).len()
}

/// How the instruments of driving come about.
proof fn lemma_instruments(before: GameModel, dt: Num, input: Input, dice: Dice, view: Area)
    ensures
        ({
            let d = driven_dash(before, dt, input, dice, view);
            let b = before.dash;
            let now = b.time.spec_plus(dt);
            let dir = wheel(input, now);
            let push = if dir != 0 {
                b.player_vx.spec_plus(Num::spec_whole(130 * dir).spec_times(dt))
            } else {
                b.player_vx.spec_times(
                    Num::spec_whole(1).spec_minus(Num::spec_whole(10).spec_times(dt)).spec_clamp(
                        Num::spec_whole(0),
                        Num::spec_whole(1),
                    ),
                )
            };
            let vx = push.spec_clamp(Num::spec_whole(-34), Num::spec_whole(34));
            let x = b.player_x.spec_plus(vx.spec_times(dt)).spec_clamp(Num::spec_ratio(-12, 10), beyond(view, 120));
            let on = input.holds(Control::Nitro, now) && b.nitro.key > Num::spec_ratio(2, 100).key;
            let paced = b.speed.spec_plus(Num::spec_whole(pedals(input, now)).spec_times(dt)).spec_clamp(
                Num::spec_whole(32),
                Num::spec_whole(top_of(b.diff) + if on {
                    55int
                } else {
                    0
                }),
            );
            &&& d.player_x == x
            &&& d.player_vx == if x.key <= Num::spec_ratio(-119, 100).key || x.key >= beyond(view, 119).key {
                Num::spec_whole(0)
            } else {
                vx
            }
            &&& d.nitro_on == on
            &&& d.nitro == if on {
                b.nitro.spec_minus(Num::spec_ratio(32, 100).spec_times(dt)).spec_max(Num::spec_whole(0))
            } else {
                b.nitro.spec_plus(Num::spec_ratio(55, 1000).spec_times(dt)).spec_min(Num::spec_whole(1))
            }
            &&& d.speed == if x.key < Num::spec_ratio(16, 10).key || x.key > verge_at(view).key {
                paced.spec_minus(Num::spec_whole(85).spec_times(dt)).spec_max(Num::spec_whole(55))
            } else {
                paced
            }
        }),
{
    reveal(driven_dash);
    let now = before.dash.time.spec_plus(dt);
    assert(input.direction(now) == wheel(input, now));
    assert(input.pull(now) == pedals(input, now));
    assert(before.dash.diff.top() == top_of(before.dash.diff));
}

/// A fraction is near.
pub(crate) proof fn lemma_fraction(p: i32, q: u32)
    requires
        -1000 <= p <= 1000,
        1 <= q <= 1000,
    ensures
        1_000_000_000 * size(q * Num::spec_ratio(p as int, q as int).value() - p * one()) <= one(),
        size(Num::spec_ratio(p as int, q as int).value()) <= 1001 * one(),
{
    let o = one();
    let v = Num::spec_ratio(p as int, q as int).value();
    lemma_pow2_pos(1074);
    fractions_are_near(p as int, q);
    assert(0 <= size(p as int) * o <= 1000 * o && size(p * o) <= 1000 * o) by (nonlinear_arith)
        requires
            -1000 <= p <= 1000,
            o > 0,
    ;
    assert(v * q == q * v) by (nonlinear_arith);
    lemma_few(size(q * v - p * o), 1000, o);
    assert(size(v) <= 1001 * o) by (nonlinear_arith)
        requires
            1_000_000_000 * size(q * v - p * o) <= o,
            size(p * o) <= 1000 * o,
            1 <= q,
            o > 0,
    ;
}

/// Where the edges of the road are.
proof fn lemma_road_edges(view: Area)
    ensures
        ({
            let o = one();
            let w = 4 * lane_columns(view.width as int);
            &&& 16 <= w <= 32
            &&& road(view.width as int).road_w == w
            &&& 5_000_000 * size(100 * beyond(view, 120).value() - (100 * w + 120) * o) <= o
            &&& 5_000_000 * size(100 * beyond(view, 119).value() - (100 * w + 119) * o) <= o
            &&& 5_000_000 * size(10 * verge_at(view).value() - (10 * w - 16) * o) <= o
            &&& 5_000_000 * size(10 * Num::spec_ratio(16, 10).value() - 16 * o) <= o
            &&& 5_000_000 * size(100 * Num::spec_ratio(-119, 100).value() + 119 * o) <= o
            &&& 5_000_000 * size(10 * Num::spec_ratio(-12, 10).value() + 12 * o) <= o
        }),
{
    let o = one();
    let w = 4 * lane_columns(view.width as int);
    lemma_pow2_pos(1074);
    assert(road(view.width as int).road_w == w);
    whole_numbers_are_exact(w as i32);
    assert(0 <= w * o <= 32 * o) by (nonlinear_arith)
        requires
            0 <= w <= 32,
            o > 0,
    ;
    lemma_fraction(120, 100);
    lemma_fraction(119, 100);
    lemma_fraction(16, 10);
    lemma_fraction(-119i32, 100);
    lemma_fraction(-12i32, 10);
    let r = Num::spec_whole(w);
    sums_are_near(r, Num::spec_ratio(120, 100));
    sums_are_near(r, Num::spec_ratio(119, 100));
    sums_are_near(r, Num::spec_ratio(16, 10));
    assert((100 * w + 120) * o == 100 * (w * o) + 120 * o && (100 * w + 119) * o == 100 * (w * o) + 119 * o && (10 * w
        - 16) * o == 10 * (w * o) - 16 * o) by (nonlinear_arith);
    assert((-119) * o == -(119 * o) && (-12) * o == -(12 * o));
}

/// The speed after a step of the race follows the pedals, between 32 km/h and the top speed of
/// the intensity, with 55 km/h more for the nitro. On the grass it falls by 85 km/h a second,
/// though not below 55. Nothing else counts.
pub proof fn speed_follows_the_pedals(
    before: GameModel,
    after: GameModel,
    dt: Num,
    view: Area,
    input: Input,
    dice: Dice,
) -> (burning: bool)
    requires
        before.dash.state is Running,
        after.stepped(before, dt, view, input, dice),
        size(before.dash.speed.value()) <= 1000 * one(),
        0 <= dt.value() <= one(),
    ensures
        ({
            let o = one();
            let now = before.dash.time.spec_plus(dt);
            let top = top_of(before.dash.diff) + if burning {
                55int
            } else {
                0
            };
            let paced = within(before.dash.speed.value() + pedals(input, now) * dt.value(), 32 * o, top * o);
            let x = after.dash.player_x.value();
            &&& after.dash.state is Running ==> burning == after.dash.nitro_on
            &&& burning ==> input.holds(Control::Nitro, now)
            &&& input.holds(Control::Nitro, now) && 1_000_000 * (50 * before.dash.nitro.value() - o) >= o ==> burning
            &&& 1_000_000 * (o - 50 * before.dash.nitro.value()) >= o ==> !burning
            &&& on_asphalt(x, view) ==> about(after.dash.speed.value(), paced)
            &&& on_grass(x, view) ==> about(
                after.dash.speed.value(),
                if paced - 85 * dt.value() < 55 * o {
                    55 * o
                } else {
                    paced - 85 * dt.value()
                },
            )
        }),
{
    let b = before.dash;
    let now = b.time.spec_plus(dt);
    let d = driven_dash(before, dt, input, dice, view);
    lemma_driven(before, after, dt, view, input, dice);
    lemma_instruments(before, dt, input, dice, view);
    lemma_grass(d.player_x, view);
    lemma_spark(b.nitro);
    lemma_speed(
        b.speed,
        pedals(input, now),
        top_of(b.diff) + if d.nitro_on {
            55int
        } else {
            0
        },
        dt,
    );
    d.nitro_on
}

proof fn lemma_speed(speed: Num, p: int, t: int, dt: Num)
    requires
        -130 <= p <= 62,
        160 <= t <= 320,
        size(speed.value()) <= 1000 * one(),
        0 <= dt.value() <= one(),
    ensures
        ({
            let o = one();
            let paced = speed.spec_plus(Num::spec_whole(p).spec_times(dt)).spec_clamp(
                Num::spec_whole(32),
                Num::spec_whole(t),
            );
            let exact = within(speed.value() + p * dt.value(), 32 * o, t * o);
            let rough = paced.spec_minus(Num::spec_whole(85).spec_times(dt)).spec_max(Num::spec_whole(55));
            &&& about(paced.value(), exact)
            &&& about(
                rough.value(),
                if exact - 85 * dt.value() < 55 * o {
                    55 * o
                } else {
                    exact - 85 * dt.value()
                },
            )
        }),
{
    let o = one();
    lemma_pow2_pos(1074);
    let step = Num::spec_whole(p).spec_times(dt);
    multiples_are_near(p as i32, dt);
    multiples_are_near(85, dt);
    sums_are_near(speed, step);
    whole_numbers_are_exact(32);
    whole_numbers_are_exact(55);
    whole_numbers_are_exact(t as i32);
    assert(160 * o <= t * o <= 320 * o) by (nonlinear_arith)
        requires
            160 <= t <= 320,
            o > 0,
    ;
    let first = speed.spec_plus(step);
    lemma_limits(first, Num::spec_whole(32), Num::spec_whole(t));
    let paced = first.spec_clamp(Num::spec_whole(32), Num::spec_whole(t));
    let drag = Num::spec_whole(85).spec_times(dt);
    sums_are_near(paced, drag);
    lemma_limits(paced.spec_minus(drag), Num::spec_whole(55), Num::spec_whole(55));
}

/// Grass and asphalt, as the instruments tell them apart.
pub(crate) proof fn lemma_grass(x: Num, view: Area)
    ensures
        on_asphalt(x.value(), view) ==> !(x.key < Num::spec_ratio(16, 10).key || x.key > verge_at(view).key),
        on_grass(x.value(), view) ==> x.key < Num::spec_ratio(16, 10).key || x.key > verge_at(view).key,
{
    let o = one();
    let w = 4 * lane_columns(view.width as int);
    lemma_pow2_pos(1074);
    lemma_road_edges(view);
    numbers_order_as_keys(x, Num::spec_ratio(16, 10));
    numbers_order_as_keys(verge_at(view), x);
    assert((10 * w - 16) * o == 40 * lane_columns(view.width as int) * o - 16 * o) by (nonlinear_arith)
        requires
            w == 4 * lane_columns(view.width as int),
    ;
}

/// From a fiftieth of a tank on the nitro burns.
proof fn lemma_spark(n: Num)
    ensures
        1_000_000 * (50 * n.value() - one()) >= one() ==> n.key > Num::spec_ratio(2, 100).key,
        1_000_000 * (one() - 50 * n.value()) >= one() ==> n.key <= Num::spec_ratio(2, 100).key,
{
    lemma_pow2_pos(1074);
    lemma_fraction(2, 100);
    numbers_order_as_keys(Num::spec_ratio(2, 100), n);
}

/// The lesser of two whole numbers.
pub open spec fn lesser(a: int, b: int) -> int {
    if a < b {
        a
    } else {
        b
    }
}

/// Each bonus adds 35 hundredths of a tank, up to a full one.
proof fn lemma_refuel(n: Num, taken: nat)
    requires
        0 <= n.value() <= one(),
    ensures
        ({
            let o = one();
            let r = crate::running::refuelled(n, taken).value();
            &&& 1_000_000 * size(100 * r - lesser(100 * n.value() + (35 * taken) * o, 100 * o)) <= taken * o
            &&& 0 <= r <= o
        }),
    decreases taken,
{
    let o = one();
    lemma_pow2_pos(1074);
    if taken > 0 {
        let m = (taken - 1) as nat;
        lemma_refuel(n, m);
        let last = crate::running::refuelled(n, m);
        let part = Num::spec_ratio(35, 100);
        lemma_fraction(35, 100);
        sums_are_near(last, part);
        whole_numbers_are_exact(1);
        assert(1 * o == o);
        lemma_limits(last.spec_plus(part), Num::spec_whole(0), Num::spec_whole(1));
        assert((35 * taken) * o == (35 * m) * o + 35 * o && taken * o == m * o + o && 0 <= (35 * m) * o) by (nonlinear_arith)
            requires
                taken == m + 1,
                m >= 0,
                o > 0,
        ;
    } else {
        assert((35 * taken) * o == 0 && taken * o == 0) by (nonlinear_arith)
            requires
                taken == 0,
        ;
    }
}

/// A burning tank loses 32 hundredths a second, and another one gains 55 thousandths.
proof fn lemma_tank(g: GameModel, wanted: bool, dt: Num, view: Area)
    requires
        0 <= g.dash.nitro.value() <= one(),
        0 <= dt.value() <= one(),
    ensures
        ({
            let o = one();
            let n = g.dash.nitro;
            let r = if g.ignites(wanted) {
                n.spec_minus(Num::spec_ratio(32, 100).spec_times(dt)).spec_max(Num::spec_whole(0)).value()
            } else {
                n.spec_plus(Num::spec_ratio(55, 1000).spec_times(dt)).spec_min(Num::spec_whole(1)).value()
            };
            let change = if g.ignites(wanted) {
                -320 * dt.value()
            } else {
                55 * dt.value()
            };
            &&& 0 <= r <= o
            &&& 1_000_000 * size(1000 * r - within(1000 * n.value() + change, 0, 1000 * o)) <= 3 * o
        }),
{
    lemma_tank_bounds(g, wanted, dt, view);
    if g.ignites(wanted) {
        lemma_burnt(g.dash.nitro, dt);
    } else {
        lemma_filled(g.dash.nitro, dt);
    }
}

proof fn lemma_tank_bounds(g: GameModel, wanted: bool, dt: Num, view: Area)
    requires
        0 <= g.dash.nitro.value() <= one(),
        0 <= dt.value(),
    ensures
        0 <= g.burned(wanted, dt, view).dash.nitro.value() <= one(),
{
    let o = one();
    let n = g.dash.nitro;
    lemma_pow2_pos(1074);
    lemma_zero();
    whole_numbers_are_exact(1);
    assert(1 * o == o);
    numbers_order_as_keys(n, Num::spec_whole(0));
    numbers_order_as_keys(Num::spec_whole(1), n);
    numbers_order_as_keys(dt, Num::spec_whole(0));
    crate::running::tank_stays_between_empty_and_full(g, wanted, dt, view);
    let r = g.burned(wanted, dt, view).dash.nitro;
    numbers_order_as_keys(r, Num::spec_whole(0));
    numbers_order_as_keys(Num::spec_whole(1), r);
}

proof fn lemma_burnt(n: Num, dt: Num)
    requires
        0 <= n.value() <= one(),
        0 <= dt.value() <= one(),
    ensures
        ({
            let o = one();
            let r = n.spec_minus(Num::spec_ratio(32, 100).spec_times(dt)).spec_max(Num::spec_whole(0)).value();
            1_000_000 * size(1000 * r - within(1000 * n.value() - 320 * dt.value(), 0, 1000 * o)) <= 3 * o
        }),
{
    lemma_pow2_pos(1074);
    lemma_zero();
    assert(size(dt.value()) <= 1 * one());
    parts_are_near(32, 100, dt, 1);
    let a = Num::spec_ratio(32, 100).spec_times(dt);
    sums_are_near(n, a);
    lemma_limits(n.spec_minus(a), Num::spec_whole(0), Num::spec_whole(0));
}

proof fn lemma_filled(n: Num, dt: Num)
    requires
        0 <= n.value() <= one(),
        0 <= dt.value() <= one(),
    ensures
        ({
            let o = one();
            let r = n.spec_plus(Num::spec_ratio(55, 1000).spec_times(dt)).spec_min(Num::spec_whole(1)).value();
            1_000_000 * size(1000 * r - within(1000 * n.value() + 55 * dt.value(), 0, 1000 * o)) <= 3 * o
        }),
{
    let o = one();
    lemma_pow2_pos(1074);
    whole_numbers_are_exact(1);
    assert(1 * o == o);
    assert(size(dt.value()) <= 1 * o);
    parts_are_near(55, 1000, dt, 1);
    let b = Num::spec_ratio(55, 1000).spec_times(dt);
    sums_are_near(n, b);
    lemma_limits(n.spec_plus(b), Num::spec_whole(1), Num::spec_whole(1));
}

pub(crate) proof fn lemma_zero()
    ensures
        Num::spec_whole(0).value() == 0,
        Num::spec_whole(0).key == 0,
{
    whole_numbers_are_exact(0);
    assert(0 * one() == 0);
    assert(Num::spec_whole(0).key == 0);
}

/// Nitro that burns takes 32 hundredths of a tank a second, and a tank that rests gains 55
/// thousandths. Each bonus adds 35 hundredths. A tank is never less than empty nor more than
/// full.
pub proof fn nitro_burns_and_fills(
    before: GameModel,
    after: GameModel,
    dt: Num,
    view: Area,
    input: Input,
    dice: Dice,
) -> (burning: bool)
    requires
        before.dash.state is Running,
        after.stepped(before, dt, view, input, dice),
        0 <= before.dash.nitro.value() <= one(),
        0 <= dt.value() <= one(),
    ensures
        ({
            let o = one();
            let now = before.dash.time.spec_plus(dt);
            let change = if burning {
                -320 * dt.value()
            } else {
                55 * dt.value()
            };
            let left = within(1000 * before.dash.nitro.value() + change, 0, 1000 * o);
            let taken = if after.dash.state is Running {
                bonuses_taken(before, dt, view, input, dice)
            } else {
                0
            };
            &&& after.dash.state is Running ==> burning == after.dash.nitro_on
            &&& burning ==> input.holds(Control::Nitro, now)
            &&& input.holds(Control::Nitro, now) && 1_000_000 * (50 * before.dash.nitro.value() - o) >= o ==> burning
            &&& 1_000_000 * (o - 50 * before.dash.nitro.value()) >= o ==> !burning
            &&& 100_000 * size(1000 * after.dash.nitro.value() - lesser(left + (350 * taken) * o, 1000 * o)) <= (taken + 1)
                * o
        }),
{
    let o = one();
    let now = before.dash.time.spec_plus(dt);
    let wanted = input.holds(Control::Nitro, now);
    let d = driven_dash(before, dt, input, dice, view);
    lemma_pow2_pos(1074);
    lemma_driven(before, after, dt, view, input, dice);
    lemma_instruments(before, dt, input, dice, view);
    lemma_spark(before.dash.nitro);
    lemma_tank(before, wanted, dt, view);
    let taken = bonuses_taken(before, dt, view, input, dice);
    lemma_refuel(d.nitro, taken);
    lemma_refuel(d.nitro, 0);
    let left = within(
        1000 * before.dash.nitro.value() + if d.nitro_on {
            -320 * dt.value()
        } else {
            55 * dt.value()
        },
        0,
        1000 * o,
    );
    lemma_fuel(d.nitro.value(), left, taken, crate::running::refuelled(d.nitro, taken).value(), o);
    lemma_fuel(d.nitro.value(), left, 0, crate::running::refuelled(d.nitro, 0).value(), o);
    d.nitro_on
}

proof fn lemma_fuel(n: int, left: int, taken: nat, r: int, o: int)
    requires
        o > 0,
        1_000_000 * size(1000 * n - left) <= 3 * o,
        1_000_000 * size(100 * r - lesser(100 * n + (35 * taken) * o, 100 * o)) <= taken * o,
    ensures
        100_000 * size(1000 * r - lesser(left + (350 * taken) * o, 1000 * o)) <= (taken + 1) * o,
{
    let t = taken * o;
    assert((35 * taken) * o == 35 * t && (350 * taken) * o == 350 * t && (taken + 1) * o == t + o && t >= 0) by (nonlinear_arith)
        requires
            t == taken * o,
            taken >= 0,
            o > 0,
    ;
}

/// A product of numbers up to a thousand is near.
pub proof fn products_are_near(a: Num, b: Num)
    requires
        size(a.value()) <= 1000 * one(),
        size(b.value()) <= 1000 * one(),
    ensures
        1_000_000_000 * size(a.spec_times(b).value() * one() - a.value() * b.value()) <= one() * one(),
{
    let o = one();
    lemma_pow2_pos(1074);
    lemma_near_product(a, b, 1000, 1000);
    assert(0 <= o * o) by (nonlinear_arith);
    lemma_few(size(a.spec_times(b).value() * o - a.value() * b.value()), 1_000_001, o * o);
}

/// The sideways speed that the wheel gives, in units of the least double for a whole one.
pub open spec fn wheel_gives(vx: int, before: int, dir: int, dt: int) -> bool {
    let o = one();
    let keep = within(o - 10 * dt, 0, o);
    if dir != 0 {
        about(vx, within(before + 130 * dir * dt, -34 * o, 34 * o))
    } else {
        10_000_000 * size(vx * o - before * keep) <= o * o
    }
}

proof fn lemma_wheel(v: Num, dir: int, dt: Num)
    requires
        -1 <= dir <= 1,
        size(v.value()) <= 34 * one(),
        0 <= dt.value() <= one(),
    ensures
        ({
            let push = if dir != 0 {
                v.spec_plus(Num::spec_whole(130 * dir).spec_times(dt))
            } else {
                v.spec_times(
                    Num::spec_whole(1).spec_minus(Num::spec_whole(10).spec_times(dt)).spec_clamp(
                        Num::spec_whole(0),
                        Num::spec_whole(1),
                    ),
                )
            };
            let vx = push.spec_clamp(Num::spec_whole(-34), Num::spec_whole(34));
            &&& wheel_gives(vx.value(), v.value(), dir, dt.value())
            &&& size(vx.value()) <= 34 * one()
        }),
{
    let o = one();
    lemma_pow2_pos(1074);
    lemma_zero();
    whole_numbers_are_exact(1);
    whole_numbers_are_exact(34);
    whole_numbers_are_exact(-34i32);
    assert(1 * o == o && (-34) * o == -(34 * o));
    if dir != 0 {
        multiples_are_near((130 * dir) as i32, dt);
        let step = Num::spec_whole(130 * dir).spec_times(dt);
        sums_are_near(v, step);
        lemma_limits(v.spec_plus(step), Num::spec_whole(-34), Num::spec_whole(34));
    } else {
        multiples_are_near(10, dt);
        let ease = Num::spec_whole(10).spec_times(dt);
        sums_are_near(Num::spec_whole(1), ease);
        let rest = Num::spec_whole(1).spec_minus(ease);
        lemma_limits(rest, Num::spec_whole(0), Num::spec_whole(1));
        let keep = rest.spec_clamp(Num::spec_whole(0), Num::spec_whole(1));
        let exact = within(o - 10 * dt.value(), 0, o);
        assert(500_000_000 * size(keep.value() - exact) <= o);
        products_are_near(v, keep);
        let push = v.spec_times(keep);
        lemma_limits(push, Num::spec_whole(-34), Num::spec_whole(34));
        lemma_eased(v.value(), keep.value(), exact, push.value(), o);
    }
}

proof fn lemma_eased(v: int, k: int, exact: int, p: int, o: int)
    requires
        o > 0,
        size(v) <= 34 * o,
        0 <= k <= o,
        500_000_000 * size(k - exact) <= o,
        1_000_000_000 * size(p * o - v * k) <= o * o,
    ensures
        ({
            let r = within(p, -34 * o, 34 * o);
            10_000_000 * size(r * o - v * exact) <= o * o
        }),
{
    let r = within(p, -34 * o, 34 * o);
    assert(size(v * k) <= 34 * (o * o)) by (nonlinear_arith)
        requires
            size(v) <= 34 * o,
            0 <= k <= o,
            o > 0,
    ;
    let e = k - exact;
    assert(500_000_000 * size(v * e) <= 34 * (o * o)) by (nonlinear_arith)
        requires
            size(v) <= 34 * o,
            500_000_000 * size(e) <= o,
            o > 0,
    ;
    assert(v * exact == v * k - v * e) by (nonlinear_arith)
        requires
            e == k - exact,
    ;
    assert(34 * o * o == 34 * (o * o) && -34 * o * o == -(34 * (o * o))) by (nonlinear_arith);
    assert(r * o == within(p * o, -(34 * (o * o)), 34 * (o * o))) by (nonlinear_arith)
        requires
            r == within(p, -34 * o, 34 * o),
            o > 0,
    ;
}

/// The car goes where the wheel turns: a turn changes the sideways speed by 130 columns a
/// second each second, up to 34, and without one it dies away. The car moves with it, by 1.2
/// columns beyond the road at most, where it stops.
pub proof fn the_car_goes_where_the_wheel_turns(
    before: GameModel,
    after: GameModel,
    dt: Num,
    view: Area,
    input: Input,
    dice: Dice,
) -> (vx: int)
    requires
        before.dash.state is Running,
        after.stepped(before, dt, view, input, dice),
        size(before.dash.player_vx.value()) <= 34 * one(),
        size(before.dash.player_x.value()) <= 1000 * one(),
        0 <= dt.value() <= one(),
    ensures
        ({
            let o = one();
            let now = before.dash.time.spec_plus(dt);
            let w = 4 * lane_columns(view.width as int);
            let x = after.dash.player_x.value();
            let exact = within(
                10 * (before.dash.player_x.value() * o + vx * dt.value()),
                -(12 * (o * o)),
                (10 * w + 12) * (o * o),
            );
            &&& wheel_gives(vx, before.dash.player_vx.value(), wheel(input, now), dt.value())
            &&& 1_000_000 * size(10 * x * o - exact) <= o * o
            &&& 1_000_000 * (100 * x + 119 * o) >= o && 1_000_000 * ((100 * w + 119) * o - 100 * x) >= o
                ==> after.dash.player_vx.value() == vx
            &&& 1_000_000 * (100 * x + 119 * o) <= -o || 1_000_000 * ((100 * w + 119) * o - 100 * x) <= -o
                ==> after.dash.player_vx.value() == 0
        }),
{
    let b = before.dash;
    let now = b.time.spec_plus(dt);
    let dir = wheel(input, now);
    let push = if dir != 0 {
        b.player_vx.spec_plus(Num::spec_whole(130 * dir).spec_times(dt))
    } else {
        b.player_vx.spec_times(
            Num::spec_whole(1).spec_minus(Num::spec_whole(10).spec_times(dt)).spec_clamp(
                Num::spec_whole(0),
                Num::spec_whole(1),
            ),
        )
    };
    let vx = push.spec_clamp(Num::spec_whole(-34), Num::spec_whole(34));
    lemma_driven(before, after, dt, view, input, dice);
    lemma_instruments(before, dt, input, dice, view);
    lemma_wheel(b.player_vx, dir, dt);
    lemma_place(b.player_x, vx, dt, view);
    lemma_stuck(after.dash.player_x, view);
    lemma_zero();
    vx.value()
}

proof fn lemma_place(x: Num, vx: Num, dt: Num, view: Area)
    requires
        size(x.value()) <= 1000 * one(),
        size(vx.value()) <= 34 * one(),
        0 <= dt.value() <= one(),
    ensures
        ({
            let o = one();
            let w = 4 * lane_columns(view.width as int);
            let to = x.spec_plus(vx.spec_times(dt)).spec_clamp(Num::spec_ratio(-12, 10), beyond(view, 120)).value();
            let exact = within(
                10 * (x.value() * o + vx.value() * dt.value()),
                -(12 * (o * o)),
                (10 * w + 12) * (o * o),
            );
            1_000_000 * size(10 * to * o - exact) <= o * o
        }),
{
    let o = one();
    let w = 4 * lane_columns(view.width as int);
    lemma_pow2_pos(1074);
    products_are_near(vx, dt);
    let m = vx.spec_times(dt);
    let vd = vx.value() * dt.value();
    assert(size(vd) <= 34 * (o * o)) by (nonlinear_arith)
        requires
            size(vx.value()) <= 34 * o,
            0 <= dt.value() <= o,
            vd == vx.value() * dt.value(),
    ;
    let mv = m.value();
    assert(size(mv) <= 35 * o) by (nonlinear_arith)
        requires
            1_000_000_000 * size(mv * o - vd) <= o * o,
            size(vd) <= 34 * (o * o),
            o > 0,
    ;
    sums_are_near(x, m);
    lemma_road_edges(view);
    let lo = Num::spec_ratio(-12, 10);
    let hi = beyond(view, 120);
    let s = x.spec_plus(m);
    assert(0 <= w * o <= 32 * o && (100 * w + 120) * o == 100 * (w * o) + 120 * o) by (nonlinear_arith)
        requires
            0 <= w <= 32,
            o > 0,
    ;
    lemma_limits(s, lo, hi);
    let to = s.spec_clamp(lo, hi).value();
    let xv = x.value();
    let sv = s.value();
    lemma_scaled_limits(sv, lo.value(), hi.value(), xv, mv, vd, w, o);
    assert(10 * to * o == 10 * (to * o)) by (nonlinear_arith);
}

proof fn lemma_scaled_limits(s: int, lo: int, hi: int, x: int, m: int, vd: int, w: int, o: int)
    requires
        o > 0,
        0 <= w <= 32,
        lo <= hi,
        5_000_000 * size(10 * lo + 12 * o) <= o,
        5_000_000 * size(100 * hi - (100 * w + 120) * o) <= o,
        1_000_000_000 * size(s - (x + m)) <= o,
        1_000_000_000 * size(m * o - vd) <= o * o,
    ensures
        1_000_000 * size(10 * (within(s, lo, hi) * o) - within(10 * (x * o + vd), -(12 * (o * o)), (10 * w + 12) * (o * o)))
            <= o * o,
{
    let oo = o * o;
    let so = s * o;
    let a = lo * o;
    let b = hi * o;
    assert(within(s, lo, hi) * o == within(so, a, b)) by (nonlinear_arith)
        requires
            so == s * o,
            a == lo * o,
            b == hi * o,
            o > 0,
            lo <= hi,
    ;
    assert(a <= b) by (nonlinear_arith)
        requires
            a == lo * o,
            b == hi * o,
            lo <= hi,
            o > 0,
    ;
    assert(5_000_000 * size(10 * a + 12 * oo) <= oo) by (nonlinear_arith)
        requires
            5_000_000 * size(10 * lo + 12 * o) <= o,
            a == lo * o,
            oo == o * o,
            o > 0,
    ;
    let top = (100 * w + 120) * o;
    let wo = w * oo;
    assert(5_000_000 * size(100 * b - top * o) <= oo) by (nonlinear_arith)
        requires
            5_000_000 * size(100 * hi - top) <= o,
            b == hi * o,
            oo == o * o,
            o > 0,
    ;
    assert(top * o == 100 * wo + 120 * oo && (10 * w + 12) * oo == 10 * wo + 12 * oo) by (nonlinear_arith)
        requires
            top == (100 * w + 120) * o,
            wo == w * oo,
            oo == o * o,
    ;
    assert(1_000_000_000 * size(so - (x * o + m * o)) <= oo) by (nonlinear_arith)
        requires
            1_000_000_000 * size(s - (x + m)) <= o,
            so == s * o,
            oo == o * o,
            o > 0,
    ;
    assert(oo >= 0) by (nonlinear_arith)
        requires
            oo == o * o,
    ;
}

proof fn lemma_stuck(x: Num, view: Area)
    ensures
        ({
            let o = one();
            let w = 4 * lane_columns(view.width as int);
            let v = x.value();
            let stuck = x.key <= Num::spec_ratio(-119, 100).key || x.key >= beyond(view, 119).key;
            &&& 1_000_000 * (100 * v + 119 * o) >= o && 1_000_000 * ((100 * w + 119) * o - 100 * v) >= o ==> !stuck
            &&& 1_000_000 * (100 * v + 119 * o) <= -o || 1_000_000 * ((100 * w + 119) * o - 100 * v) <= -o ==> stuck
        }),
{
    lemma_pow2_pos(1074);
    lemma_road_edges(view);
    numbers_order_as_keys(x, Num::spec_ratio(-119, 100));
    numbers_order_as_keys(Num::spec_ratio(-119, 100), x);
    numbers_order_as_keys(x, beyond(view, 119));
    numbers_order_as_keys(beyond(view, 119), x);
}

/// The rows that pass in a step: eleven hundredths for each second and km/h.
pub open spec fn rows_pass(rows: int, speed: int, dt: int) -> bool {
    let o = one();
    1_000_000 * size(100 * (rows * o) - 11 * (speed * dt)) <= o * o
}

/// The rows of a step are near.
pub proof fn rows_are_near(speed: Num, dt: Num)
    requires
        size(speed.value()) <= 500 * one(),
        0 <= dt.value() <= one(),
    ensures
        rows_pass(crate::drift::rows_in(speed, dt).value(), speed.value(), dt.value()),
        size(crate::drift::rows_in(speed, dt).value()) <= 500 * one(),
{
    let o = one();
    lemma_pow2_pos(1074);
    parts_are_near(11, 100, speed, 500);
    let a = speed.spec_times(Num::spec_ratio(11, 100));
    let av = a.value();
    let v = speed.value();
    assert(size(av) <= 56 * o) by (nonlinear_arith)
        requires
            1_000_000_000 * size(100 * av - 11 * v) <= 500 * o,
            size(v) <= 500 * o,
            o > 0,
    ;
    products_are_near(a, dt);
    let d = dt.value();
    let r = crate::drift::rows_in(speed, dt).value();
    let e = 100 * av - 11 * v;
    assert(1_000_000_000 * size(e * d) <= 500 * (o * o)) by (nonlinear_arith)
        requires
            1_000_000_000 * size(e) <= 500 * o,
            0 <= d <= o,
            o > 0,
    ;
    assert(100 * (r * o) - 11 * (v * d) == 100 * (r * o - av * d) + e * d) by (nonlinear_arith)
        requires
            e == 100 * av - 11 * v,
    ;
    assert(size(av * d) <= 56 * (o * o)) by (nonlinear_arith)
        requires
            size(av) <= 56 * o,
            0 <= d <= o,
            o > 0,
    ;
    assert(size(r) <= 500 * o) by (nonlinear_arith)
        requires
            1_000_000_000 * size(r * o - av * d) <= o * o,
            size(av * d) <= 56 * (o * o),
            o > 0,
    ;
}

/// The metres of a step are near: the speed is in km/h.
proof fn lemma_metres(speed: Num, dt: Num)
    requires
        0 <= speed.value() <= 500 * one(),
        0 <= dt.value() <= one(),
    ensures
        ({
            let o = one();
            let m = speed.spec_over(Num::spec_ratio(36, 10)).spec_times(dt).value();
            &&& 1_000_000 * size(36 * (m * o) - 10 * (speed.value() * dt.value())) <= o * o
            &&& size(m) <= 200 * o
        }),
{
    let o = one();
    let k: int = 9_007_199_254_740_992;
    lemma_pow2_pos(1074);
    lemma_one_is_many();
    lemma_fraction(36, 10);
    let f = Num::spec_ratio(36, 10).value();
    assert(35 * o <= 10 * f <= 37 * o);
    let v = speed.value();
    let d = dt.value();
    let q = speed.spec_over(Num::spec_ratio(36, 10)).value();
    assert(0 <= v * o <= 500 * (o * o)) by (nonlinear_arith)
        requires
            0 <= v <= 500 * o,
            o > 0,
    ;
    assert(size(v * o) <= 0x1_0000_0000_0000_0000_0000_0000_0000_0000int * (f * o)) by (nonlinear_arith)
        requires
            0 <= v * o <= 500 * (o * o),
            35 * o <= 10 * f,
            o > 0,
    ;
    crate::measure::results_are_near(v * o, f as nat);
    let g = q * f - v * o;
    assert(k * size(g) <= 501 * (o * o)) by (nonlinear_arith)
        requires
            k * size(g) <= v * o + 4_503_599_627_370_496 * f,
            0 <= v * o <= 500 * (o * o),
            10 * f <= 37 * o,
            o >= 0x10_0000_0000_0000_0000_0000,
    ;
    let e = 10 * f - 36 * o;
    assert(size(q) <= 150 * o) by (nonlinear_arith)
        requires
            k * size(q * f - v * o) <= 501 * (o * o),
            0 <= v * o <= 500 * (o * o),
            35 * o <= 10 * f,
            o > 0,
            k == 9_007_199_254_740_992,
    ;
    let h = 36 * q - 10 * v;
    assert(h * o == 10 * g - e * q) by (nonlinear_arith)
        requires
            h == 36 * q - 10 * v,
            g == q * f - v * o,
            e == 10 * f - 36 * o,
    ;
    assert(1_000_000_000 * size(e * q) <= 150 * (o * o)) by (nonlinear_arith)
        requires
            1_000_000_000 * size(e) <= o,
            size(q) <= 150 * o,
            o > 0,
    ;
    assert(1_000_000_000 * size(h * o) <= 151 * (o * o)) by (nonlinear_arith)
        requires
            h * o == 10 * g - e * q,
            k * size(g) <= 501 * (o * o),
            1_000_000_000 * size(e * q) <= 150 * (o * o),
            k == 9_007_199_254_740_992,
    ;
    assert(1_000_000_000 * size(h) <= 151 * o) by (nonlinear_arith)
        requires
            1_000_000_000 * size(h * o) <= 151 * (o * o),
            o > 0,
    ;
    products_are_near(speed.spec_over(Num::spec_ratio(36, 10)), dt);
    let m = speed.spec_over(Num::spec_ratio(36, 10)).spec_times(dt).value();
    assert(1_000_000_000 * size(h * d) <= 151 * (o * o)) by (nonlinear_arith)
        requires
            1_000_000_000 * size(h) <= 151 * o,
            0 <= d <= o,
            o > 0,
    ;
    assert(36 * (m * o) - 10 * (v * d) == 36 * (m * o - q * d) + h * d) by (nonlinear_arith)
        requires
            h == 36 * q - 10 * v,
    ;
    assert(size(q * d) <= 150 * (o * o)) by (nonlinear_arith)
        requires
            size(q) <= 150 * o,
            0 <= d <= o,
            o > 0,
    ;
    assert(size(m) <= 200 * o) by (nonlinear_arith)
        requires
            1_000_000_000 * size(m * o - q * d) <= o * o,
            size(q * d) <= 150 * (o * o),
            o > 0,
    ;
}

/// A step of the race covers the road at its speed: the distance grows by so many metres, the
/// world scrolls by eleven hundredths of a row for each second and km/h, the top speed is the
/// highest one and the clock of the run gains the step.
pub proof fn a_step_covers_the_road(
    before: GameModel,
    after: GameModel,
    dt: Num,
    view: Area,
    input: Input,
    dice: Dice,
)
    requires
        before.dash.state is Running,
        after.stepped(before, dt, view, input, dice),
        0 <= after.dash.speed.value() <= 500 * one(),
        size(before.dash.distance.value()) <= 1_000_000 * one(),
        size(before.dash.scroll.value()) <= 1_000_000 * one(),
        size(before.dash.run_t.value()) <= 1_000_000 * one(),
        0 <= dt.value() <= one(),
    ensures
        ({
            let o = one();
            let way = after.dash.distance.value() - before.dash.distance.value();
            let rows = after.dash.scroll.value() - before.dash.scroll.value();
            let pace = after.dash.speed.value() * dt.value();
            &&& 1_000_000 * size(36 * (way * o) - 10 * pace) <= 2 * (o * o)
            &&& 1_000_000 * size(100 * (rows * o) - 11 * pace) <= 2 * (o * o)
            &&& close(after.dash.run_t.value(), before.dash.run_t.value() + dt.value())
            &&& after.dash.top_speed.value() == if before.dash.top_speed.value() < after.dash.speed.value() {
                after.dash.speed.value()
            } else {
                before.dash.top_speed.value()
            }
        }),
{
    let o = one();
    let d = driven_dash(before, dt, input, dice, view);
    lemma_pow2_pos(1074);
    lemma_driven(before, after, dt, view, input, dice);
    let speed = after.dash.speed;
    lemma_metres(speed, dt);
    rows_are_near(speed, dt);
    let m = speed.spec_over(Num::spec_ratio(36, 10)).spec_times(dt);
    let r = crate::drift::rows_in(speed, dt);
    sums_are_near(before.dash.distance, m);
    sums_are_near(before.dash.scroll, r);
    sums_are_near(before.dash.run_t, dt);
    lemma_limits(before.dash.top_speed, speed, speed);
    lemma_grown(after.dash.distance.value() - before.dash.distance.value(), m.value(), 36, o);
    lemma_grown(after.dash.scroll.value() - before.dash.scroll.value(), r.value(), 100, o);
}

pub(crate) proof fn lemma_grown(way: int, m: int, n: int, o: int)
    requires
        o > 0,
        0 <= n <= 100,
        1_000_000_000 * size(way - m) <= o,
    ensures
        1_000_000 * size(n * (way * o) - n * (m * o)) <= o * o,
{
    let e = way - m;
    assert(n * (way * o) - n * (m * o) == (n * e) * o) by (nonlinear_arith)
        requires
            e == way - m,
    ;
    assert(1_000_000_000 * size(n * e) <= 100 * o) by (nonlinear_arith)
        requires
            1_000_000_000 * size(e) <= o,
            0 <= n <= 100,
            o > 0,
    ;
    let f = n * e;
    assert(1_000_000 * size(f * o) <= o * o) by (nonlinear_arith)
        requires
            1_000_000_000 * size(f) <= 100 * o,
            o > 0,
    ;
}

} // verus!
