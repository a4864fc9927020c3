//! What the game promises, in numbers: runs, touches, points and best scores.

use crate::contact::{car_touches, rows_of_car, touches, touching_is_overlapping};
use crate::course::{lemma_meet, lemma_roll, lemma_smash};
use crate::dice::Dice;
use crate::difficulty::Difficulty;
use crate::drift::lemma_filter_all;
use crate::entities::Car;
use crate::game::{fresh_dash, Dash, GameModel, State};
use crate::geometry::{road, Area};
use crate::handling::bonuses_taken;
use crate::input::{Input, Key};
use crate::measure::{fractions_are_near, lemma_near_sum, lemma_one_is_many, size};
use crate::num::{magnitude, whole_numbers_are_exact, Num};
use crate::reward::{lemma_pay, pays};
use crate::rounding::one;
use crate::running::{bonus_of, enriched, hits, scored};
use crate::traffic::in_sight;
use vstd::arithmetic::power2::lemma_pow2_pos;
use vstd::prelude::*;

verus! {

/// Whether a number is `p / q` but for a thousand-millionth.
pub open spec fn is_near(n: Num, p: int, q: int) -> bool {
    1_000_000_000 * size(q * n.value() - p * one()) <= q * one()
}

/// The columns of a lane in a view of `width` columns.
pub open spec fn lane_columns(width: int) -> int {
    if width >= 44 {
        8
    } else if width >= 28 {
        (width - 8) / 4 - 1
    } else {
        4
    }
}

/// Whether a run at intensity `d` has just started: on a countdown of three seconds, with a
/// full tank, at rest in the middle of an empty road, and nothing counted yet.
pub open spec fn just_started(g: GameModel, d: Difficulty, view: Area) -> bool {
    &&& g.dash.state is Countdown
    &&& g.dash.diff == d
    &&& is_near(g.dash.countdown, 2999, 1000)
    &&& g.dash.nitro.value() == one()
    &&& !g.dash.nitro_on
    &&& is_near(g.dash.player_x, 2 * lane_columns(view.width as int), 1)
    &&& g.dash.player_vx.value() == 0
    &&& g.dash.speed.value() == 0
    &&& g.dash.top_speed.value() == 0
    &&& g.dash.distance.value() == 0
    &&& g.dash.score.value() == 0
    &&& g.dash.run_t.value() == 0
    &&& g.dash.crash_t.value() == 0
    &&& g.dash.shake.value() == 0
    &&& g.dash.combo_t.value() == 0
    &&& g.dash.offroad_msg_t.value() == 0
    &&& is_near(g.dash.spawn_t, 8, 10)
    &&& g.dash.pickup_t.value() == 4 * one()
    &&& g.dash.combo == 0
    &&& g.dash.best_combo == 0
    &&& g.dash.near_misses == 0
    &&& !g.dash.new_best
    &&& g.dash.last_count > 3
    &&& g.traffic.len() == 0
    &&& g.pickups.len() == 0
    &&& g.particles.len() == 0
    &&& g.floats.len() == 0
}

/// Whether what lasts beyond a run is the same in both games: best scores, scenery, settings,
/// the clock and the road behind.
pub open spec fn lasts(a: GameModel, b: GameModel) -> bool {
    &&& a.hi == b.hi
    &&& a.scenery == b.scenery
    &&& a.dash.sel == b.dash.sel
    &&& a.dash.sound == b.dash.sound
    &&& a.dash.time == b.dash.time
    &&& a.dash.scroll == b.dash.scroll
    &&& a.dash.quip == b.dash.quip
}

pub(crate) proof fn lemma_ratio_is_near(n: int, d: u32)
    requires
        -100_000 <= n <= 100_000,
        0 < d <= 1000,
    ensures
        is_near(Num::spec_ratio(n, d as int), n, d as int),
        9_007_199_254_740_992 * size(d * Num::spec_ratio(n, d as int).value() - n * one()) <= 100_000 * one(),
{
    let o = one();
    let r = Num::spec_ratio(n, d as int).value();
    lemma_pow2_pos(1074);
    fractions_are_near(n, d);
    assert(r * d == d * r) by (nonlinear_arith);
    assert(size(n) * o <= 100_000 * o) by (nonlinear_arith)
        requires
            0 <= size(n) <= 100_000,
            o > 0,
    ;
    assert(d * o >= o) by (nonlinear_arith)
        requires
            d >= 1,
            o > 0,
    ;
    let z = size(d * r - n * o);
    assert(9_007_199_254_740_992 * z <= 100_000 * o);
    assert(z >= 0);
    assert(1_000_000_000 * z <= o) by (nonlinear_arith)
        requires
            9_007_199_254_740_992 * z <= 100_000 * o,
            z >= 0,
            o > 0,
    ;
    let q = d as int;
    assert(z == size(q * r - n * o));
    assert(q * o >= o);
}

/// A run starts with all that it needs, at any intensity and on any view, and keeps what lasts.
pub proof fn a_run_starts_full(g: GameModel, d: Difficulty, view: Area, press: bool)
    ensures
        just_started(g.started(d, view), d, view),
        lasts(g.started(d, view), g),
        g.dash.state is Menu ==> just_started(g.keyed(Key::Enter, press, view), g.dash.sel, view) && lasts(
            g.keyed(Key::Enter, press, view),
            g,
        ),
        g.dash.state is GameOver ==> just_started(g.keyed(Key::Enter, press, view), g.dash.diff, view) && lasts(
            g.keyed(Key::Enter, press, view),
            g,
        ),
{
    let o = one();
    lemma_pow2_pos(1074);
    assert(magnitude(0) == 0);
    whole_numbers_are_exact(0);
    whole_numbers_are_exact(1);
    whole_numbers_are_exact(4);
    assert(0 * o == 0 && 1 * o == o);
    lemma_ratio_is_near(2999, 1000);
    lemma_ratio_is_near(8, 10);
    let w = road(view.width as int).road_w as int;
    let lane = lane_columns(view.width as int);
    assert(w == 4 * lane);
    lemma_ratio_is_near(w, 2);
    assert(w * o == 2 * ((2 * lane) * o)) by (nonlinear_arith)
        requires
            w == 4 * lane,
    ;
}

/// A game that is opened stands in the menu at the middle intensity with the sound on, and
/// nothing is counted yet.
pub proof fn a_game_opens_in_the_menu()
    ensures
        ({
            let d = fresh_dash();
            &&& d.state is Menu
            &&& d.diff is Rush
            &&& d.sel is Rush
            &&& d.sound
            &&& d.nitro.value() == one()
            &&& d.player_x.value() == 16 * one()
            &&& d.time.value() == 0
            &&& d.scroll.value() == 0
            &&& d.speed.value() == 0
            &&& d.score.value() == 0
            &&& d.distance.value() == 0
            &&& d.shake.value() == 0
            &&& d.spawn_t.value() == one()
            &&& d.pickup_t.value() == 5 * one()
            &&& is_near(d.scenery_t, 2, 10)
            &&& d.combo == 0 && d.best_combo == 0 && d.near_misses == 0
            &&& !d.new_best && !d.nitro_on
        }),
{
    let o = one();
    assert(magnitude(0) == 0);
    whole_numbers_are_exact(0);
    whole_numbers_are_exact(1);
    whole_numbers_are_exact(5);
    whole_numbers_are_exact(16);
    assert(0 * o == 0 && 1 * o == o);
    lemma_ratio_is_near(2, 10);
}

/// Back in the menu the road is empty and still, and nothing else is touched.
pub proof fn the_menu_is_quiet(g: GameModel, press: bool, view: Area)
    requires
        g.dash.state is GameOver,
    ensures
        ({
            let m = g.keyed(Key::Esc, press, view);
            &&& m.dash.state is Menu
            &&& m.dash.speed.value() == 0
            &&& m.dash.shake.value() == 0
            &&& !m.dash.nitro_on
            &&& m.traffic.len() == 0
            &&& m.pickups.len() == 0
            &&& m.particles.len() == 0
            &&& m.floats.len() == 0
            &&& lasts(m, g)
            &&& m.dash.diff == g.dash.diff
            &&& m.dash.score == g.dash.score
            &&& m.dash.player_x == g.dash.player_x
        }),
{
    assert(magnitude(0) == 0);
    whole_numbers_are_exact(0);
    assert(0 * one() == 0);
}

/// The place of an intensity among the best scores.
pub open spec fn place_of(d: Difficulty) -> int {
    match d {
        Difficulty::Chill => 0,
        Difficulty::Rush => 1,
        Difficulty::Mayhem => 2,
    }
}

/// Whether `p` are the whole points of a score, as far as they can be counted.
pub open spec fn whole_points(p: int, score: Num) -> bool {
    let v = score.value();
    let o = one();
    if v < 0 {
        p == 0
    } else {
        ||| 0 <= p <= u64::MAX && p * o <= v < p * o + o
        ||| p == u64::MAX && v >= p * o
    }
}

proof fn lemma_points(g: GameModel, p: int)
    requires
        whole_points(p, g.dash.score),
    ensures
        g.points() == p,
{
    let v = g.dash.score.value();
    let o = one();
    lemma_pow2_pos(1074);
    let f = v / o;
    vstd::arithmetic::div_mod::lemma_fundamental_div_mod(v, o);
    assert(o * f == f * o) by (nonlinear_arith);
    if v < 0 {
        assert(f < 0) by (nonlinear_arith)
            requires
                v < 0,
                o > 0,
                f == v / o,
        ;
    } else if p * o <= v < p * o + o {
        assert(f == p) by (nonlinear_arith)
            requires
                p * o <= v,
                v < p * o + o,
                v == f * o + v % o,
                0 <= v % o < o,
                o > 0,
        ;
    } else {
        assert(f >= p) by (nonlinear_arith)
            requires
                p * o <= v,
                v == f * o + v % o,
                0 <= v % o < o,
                o > 0,
        ;
    }
}

/// The larger of two numbers.
pub open spec fn larger(a: int, b: int) -> int {
    if a > b {
        a
    } else {
        b
    }
}

/// Entering a score makes the best score of its intensity the larger of the old one and the
/// whole points, and changes no other. It is a new best if and only if it is larger.
pub proof fn the_best_score_is_the_larger(g: GameModel, p: int, i: int)
    requires
        g.hi.len() == 3,
        0 <= i < 3,
        whole_points(p, g.dash.score),
    ensures
        g.committed().hi.len() == 3,
        g.committed().hi[i] == (if i == place_of(g.dash.diff) {
            larger(g.hi[i] as int, p)
        } else {
            g.hi[i] as int
        }),
        g.committed().dash.new_best == (g.dash.new_best || p > g.hi[place_of(g.dash.diff)]),
        g.committed() == (GameModel {
            dash: Dash { new_best: g.committed().dash.new_best, ..g.dash },
            hi: g.committed().hi,
            ..g
        }),
{
    lemma_points(g, p);
}

/// A crash lasts for a second and a half. At its end the best score of the intensity is the
/// larger of the old one and the points of the run.
pub proof fn a_crash_ends_with_the_score_entered(
    before: GameModel,
    after: GameModel,
    dt: Num,
    view: Area,
    input: Input,
    dice: Dice,
    p: int,
    i: int,
)
    requires
        before.dash.state is Crashing,
        before.hi.len() == 3,
        0 <= i < 3,
        whole_points(p, before.dash.score),
        size(before.dash.crash_t.value()) <= 1000 * one(),
        size(dt.value()) <= 1000 * one(),
        after.stepped(before, dt, view, input, dice),
    ensures
        ({
            let t = before.dash.crash_t.value() + dt.value();
            let n: int = 1_000_000_000;
            &&& n * t >= 1_500_000_001 * one() ==> after.dash.state is GameOver
            &&& n * t <= 1_499_999_999 * one() ==> after.dash.state is Crashing
        }),
        after.dash.state is GameOver || after.dash.state is Crashing,
        after.dash.state is Crashing ==> after.hi == before.hi && after.dash.new_best == before.dash.new_best,
        after.dash.state is GameOver ==> after.hi[i] == (if i == place_of(before.dash.diff) {
            larger(before.hi[i] as int, p)
        } else {
            before.hi[i] as int
        }),
        after.dash.state is GameOver ==> after.dash.new_best == (before.dash.new_best || p > before.hi[place_of(
            before.dash.diff,
        )]),
        after.dash.score == before.dash.score,
        after.dash.diff == before.dash.diff,
        after.dash.distance == before.dash.distance,
        after.dash.near_misses == before.dash.near_misses,
        after.dash.best_combo == before.dash.best_combo,
        after.dash.top_speed == before.dash.top_speed,
{
    let o = one();
    let now = before.ticked(dt);
    let end = now.tumbled(dt, view, dice);
    lemma_pow2_pos(1074);
    lemma_one_is_many();
    assert(end.dash.score == before.dash.score && end.dash.diff == before.dash.diff && end.hi == before.hi);
    assert(end.dash.crash_t == before.dash.crash_t.spec_plus(dt));
    let t = before.dash.crash_t.value() + dt.value();
    lemma_near_sum(t, 2000);
    lemma_ratio_is_near(15, 10);
    crate::num::numbers_order_as_keys(end.dash.crash_t, Num::spec_ratio(15, 10));
    let over = end.in_state(State::GameOver);
    lemma_points(over, p);
    the_best_score_is_the_larger(over, p, i);
}

/// Whether a car is at `y` rows and `x` columns, in units of the least double, after a step:
/// eleven hundredths of a row further down for each second and each km/h that the player is
/// faster, and twenty-two hundredths of a column beside the middle of its lane for a whole sine.
pub open spec fn is_moved(c: Car, speed: Num, sine: Num, dt: Num, view: Area, y: int, x: int) -> bool {
    let o = one();
    let fall = 11 * ((speed.value() - c.speed.value()) * dt.value());
    let middle = (100 * (lane_columns(view.width as int) * (2 * c.lane + 1))) * o;
    &&& size(100 * (o * y) - (100 * (o * c.y.value()) + fall)) <= 100 * o
    &&& size(200 * x - (middle + 44 * sine.value())) <= 200
}

/// A step of the race ends in a crash if a car of the traffic touches the player's when it has
/// moved, for every height of the view.
pub proof fn a_touch_ends_the_race(
    before: GameModel,
    after: GameModel,
    dt: Num,
    view: Area,
    input: Input,
    dice: Dice,
    i: int,
    y: int,
    x: int,
)
    requires
        before.dash.state is Running,
        before.wf(),
        dice.fits(before),
        after.stepped(before, dt, view, input, dice),
        0 <= i < before.traffic.len(),
        is_moved(before.traffic[i], after.dash.speed, dice.sines@[i], dt, view, y, x),
        size(before.traffic[i].y.value()) <= 1_000_000 * one(),
        size(before.traffic[i].speed.value()) <= 10_000 * one(),
        size(after.dash.speed.value()) <= 10_000 * one(),
        0 <= dt.value() <= one(),
    ensures
        touches(y, x, rows_of_car(before.traffic[i]), after.dash.player_x.value(), view.height - 8, 1000)
            ==> after.dash.state is Crashing && after.dash.combo == 0,
{
    let o = one();
    let now = before.ticked(dt);
    let ridden = now.ridden(dt, input, dice.dust, view);
    let ahead = ridden.swaying(dt, dice.sines@, view);
    let met = now.raced_on(dt, view, input, dice);
    lemma_pow2_pos(1074);
    lemma_one_is_many();
    lemma_meet(now, dt, view, input, dice);
    assert(ridden.traffic == before.traffic) by {
        reveal(GameModel::ridden);
    }
    if now.gets_hit(dt, view, input, dice) {
        lemma_smash(after, now, dt, view, input, dice);
    } else {
        lemma_roll(after, met, dt, view, dice);
    }
    assert(ahead.dash.player_x == met.dash.player_x && ahead.dash.speed == met.dash.speed) by {
        reveal(GameModel::encountered);
    }
    let c = before.traffic[i];
    let sine = dice.sines@[i];
    assert(crate::odds::is_sine(sine));
    crate::num::fractions_have_opposites(1, 1);
    whole_numbers_are_exact(1);
    whole_numbers_are_exact(-1i32);
    crate::num::numbers_order_as_keys(Num::spec_whole(-1), sine);
    crate::num::numbers_order_as_keys(sine, Num::spec_whole(1));
    assert(1 * o == o && (-1) * o == -o);
    let speed = after.dash.speed;
    assert(ridden.dash.speed == speed);
    crate::contact::lemma_drive(c, speed, dt);
    crate::contact::lemma_sway(crate::traffic::driven(c, speed, dt), sine, dt, view);
    let m = ahead.traffic[i];
    let exact = 100 * (o * c.y.value()) + 11 * ((speed.value() - c.speed.value()) * dt.value());
    let e = m.y.value() - y;
    assert(100 * (o * m.y.value()) - 100 * (o * y) == 100 * (o * e)) by (nonlinear_arith)
        requires
            e == m.y.value() - y,
    ;
    assert(10_000_000 * size(e) <= o) by (nonlinear_arith)
        requires
            1_000_000 * size(100 * (o * e)) <= o * o + 100_000_000 * o,
            o >= 0x10_0000_0000_0000_0000_0000,
    ;
    let f = m.x.value() - x;
    assert(10_000_000 * size(f) <= o);
    if touches(y, x, rows_of_car(c), after.dash.player_x.value(), view.height - 8, 1000) {
        assert(car_touches(m, after.dash.player_x, view, 1));
        touching_is_overlapping(m, after.dash.player_x, view);
        assert(hits(ahead.traffic[i], ahead.dash.player_x, view));
        assert(now.gets_hit(dt, view, input, dice));
    }
}

/// A step of the race ends in a crash only if a car of the traffic touches the player's, and
/// goes on only if none does; a car that has just joined ten rows above the view does not
/// count yet.
pub proof fn a_race_ends_only_by_a_touch(
    before: GameModel,
    after: GameModel,
    dt: Num,
    view: Area,
    input: Input,
    dice: Dice,
)
    requires
        before.dash.state is Running,
        after.stepped(before, dt, view, input, dice),
    ensures
        after.dash.state is Running || after.dash.state is Crashing,
        after.dash.state is Crashing ==> exists|i: int| #![trigger after.traffic[i]]
            0 <= i < after.traffic.len() && car_touches(after.traffic[i], after.dash.player_x, view, -1),
        after.dash.state is Running ==> forall|i: int| #![trigger after.traffic[i]]
            0 <= i < after.traffic.len() && car_touches(after.traffic[i], after.dash.player_x, view, 1) ==> i
                == after.traffic.len() - 1 && after.traffic[i].y.value() == -10 * one(),
        after.dash.state is Crashing ==> after.traffic.len() == before.traffic.len(),
{
    let o = one();
    let now = before.ticked(dt);
    let ridden = now.ridden(dt, input, dice.dust, view);
    let ahead = ridden.swaying(dt, dice.sines@, view);
    let met = now.raced_on(dt, view, input, dice);
    let x = met.dash.player_x;
    lemma_meet(now, dt, view, input, dice);
    assert(ridden.traffic == before.traffic) by {
        reveal(GameModel::ridden);
    }
    assert(met.traffic.len() == ahead.traffic.len() && met.dash.player_x == ahead.dash.player_x && forall|i: int|
        #![trigger met.traffic[i]]
        0 <= i < met.traffic.len() ==> hits(met.traffic[i], x, view) == hits(ahead.traffic[i], x, view)) by {
        reveal(GameModel::encountered);
    }
    if now.gets_hit(dt, view, input, dice) {
        lemma_smash(after, now, dt, view, input, dice);
        let i = choose|i: int| #![trigger ahead.traffic[i]]
            0 <= i < ahead.traffic.len() && hits(ahead.traffic[i], ahead.dash.player_x, view);
        assert(hits(met.traffic[i], x, view));
        touching_is_overlapping(after.traffic[i], x, view);
    } else {
        lemma_roll(after, met, dt, view, dice);
        let safe = |c: Car| !hits(c, x, view);
        assert forall|i: int| #![trigger met.traffic[i]] 0 <= i < met.traffic.len() implies safe(met.traffic[i]) by {
            assert(!hits(ahead.traffic[i], x, view));
        }
        lemma_filter_all(met.traffic, |c: Car| in_sight(c, view, -60), safe);
        let left = met.thinned(view, -60).traffic;
        assert forall|i: int| #![trigger after.traffic[i]]
            0 <= i < after.traffic.len() && car_touches(after.traffic[i], after.dash.player_x, view, 1) implies i
            == after.traffic.len() - 1 && after.traffic[i].y.value() == -10 * o by {
            touching_is_overlapping(after.traffic[i], x, view);
            if i < left.len() {
                assert(after.traffic[i] == left[i]);
                assert(safe(left[i]));
            } else {
                whole_numbers_are_exact(-10i32);
            }
        }
    }
}

/// The points for `n` near misses that raise the combo from `combo` on: 100 and 60 more for
/// each of the combo.
#[verifier::opaque]
pub open spec fn close_points(combo: int, n: int) -> int {
    100 * n + 60 * (n * combo) + 30 * (n * (n + 1))
}

proof fn lemma_close_points(score: Num, combo: int, n: nat)
    requires
        size(score.value()) <= 4_000_000_000 * one(),
        0 <= combo,
        combo + n <= 1_000_000,
        n <= 1000,
    ensures
        1000 * size(scored(score, combo, n).value() - (score.value() + close_points(combo, n as int) * one())) <= n * one(),
        0 <= close_points(combo, n as int) <= 61_000_000 * n,
    decreases n,
{
    let o = one();
    reveal(close_points);
    lemma_pow2_pos(1074);
    lemma_one_is_many();
    if n == 0 {
        assert(0 * combo == 0 && 0 * (0 + 1) == 0);
        assert(close_points(combo, n as int) == 0);
        assert(close_points(combo, n as int) * o == 0) by (nonlinear_arith)
            requires
                close_points(combo, n as int) == 0,
        ;
        assert(n * o == 0) by (nonlinear_arith)
            requires
                n == 0,
        ;
    } else {
        let m = (n - 1) as nat;
        lemma_close_points(score, combo, m);
        let before = scored(score, combo, m).value();
        let bonus = 100 + 60 * (combo + n);
        assert(bonus == bonus_of(combo + n));
        whole_numbers_are_exact(bonus as i32);
        let cm = close_points(combo, m as int);
        let cn = close_points(combo, n as int);
        assert(cn == cm + bonus) by (nonlinear_arith)
            requires
                cn == 100 * n + 60 * (n * combo) + 30 * (n * (n + 1)),
                cm == 100 * (n - 1) + 60 * ((n - 1) * combo) + 30 * ((n - 1) * n),
                bonus == 100 + 60 * (combo + n),
        ;
        assert(cn * o == cm * o + bonus * o) by (nonlinear_arith)
            requires
                cn == cm + bonus,
        ;
        assert(0 <= bonus <= 61_000_000);
        assert(0 <= cm * o <= 61_000_000_000 * o && 0 <= bonus * o <= 61_000_000 * o && m * o <= 1000 * o && n * o
            == m * o + o) by (nonlinear_arith)
            requires
                0 <= cm <= 61_000_000_000,
                0 <= bonus <= 61_000_000,
                0 <= m <= 1000,
                n == m + 1,
                o > 0,
        ;
        lemma_near_sum(before + bonus * o, 70_000_000_000);
        let last = scored(score, combo, n).value();
        assert(9_007_199_254_740_992 * size(last - (before + bonus * o)) <= 70_000_000_001 * o);
        assert(1000 * size(last - (score.value() + cn * o)) <= n * o);
    }
}

proof fn lemma_bonus_points(score: Num, n: nat)
    requires
        size(score.value()) <= 70_000_000_000 * one(),
        n <= 1000,
    ensures
        1000 * size(enriched(score, n).value() - (score.value() + (250 * n) * one())) <= n * one(),
    decreases n,
{
    let o = one();
    lemma_pow2_pos(1074);
    lemma_one_is_many();
    if n == 0 {
        assert((250 * n) * o == 0) by (nonlinear_arith)
            requires
                n == 0,
        ;
        assert(0 * o == 0);
    } else {
        let m = (n - 1) as nat;
        lemma_bonus_points(score, m);
        whole_numbers_are_exact(250);
        assert(n * o == m * o + o && (250 * n) * o == (250 * m) * o + 250 * o && 0 <= m * o <= 1000 * o && 0 <= (250
            * m) * o <= 250_000 * o) by (nonlinear_arith)
            requires
                n == m + 1,
                0 <= m <= 1000,
                o > 0,
        ;
        lemma_near_sum(enriched(score, m).value() + 250 * o, 80_000_000_000);
    }
}

/// The sign of a difference of doubles is that of what is left of it.
pub(crate) proof fn lemma_sign_of_difference(a: Num, b: Num)
    requires
        size(a.value()) <= 1_000_000 * one(),
        size(b.value()) <= 1_000_000 * one(),
    ensures
        a.spec_minus(b).key <= 0 <==> a.value() <= b.value(),
{
    let v = a.value() - b.value();
    let r = a.spec_minus(b).value();
    lemma_near_sum(v, 2_000_000);
    assert(magnitude(0) == 0);
    crate::num::numbers_order_as_keys(Num { key: 0 }, a.spec_minus(b));
    if v >= 1 {
        assert(r > 0) by (nonlinear_arith)
            requires
                9_007_199_254_740_992 * size(r - v) <= size(v) + 4_503_599_627_370_496,
                v >= 1,
        ;
    } else {
        assert(r <= 0) by (nonlinear_arith)
            requires
                9_007_199_254_740_992 * size(r - v) <= size(v) + 4_503_599_627_370_496,
                v <= 0,
        ;
    }
}

/// What a step of the race adds to the score: the points for driving, those for each near
/// miss, and 250 for each bonus, of which there are no more than there were on the road. The
/// combo counts only as long as its time has not run out.
#[verifier::rlimit(60)]
pub proof fn points_add_up(
    before: GameModel,
    after: GameModel,
    dt: Num,
    view: Area,
    input: Input,
    dice: Dice,
) -> (r: (Num, bool, nat))
    requires
        before.dash.state is Running,
        before.wf(),
        before.counts_misses(),
        before.traffic.len() <= 1000,
        before.pickups.len() <= 1000,
        before.dash.combo <= 900_000,
        after.stepped(before, dt, view, input, dice),
        size(before.dash.score.value()) <= 1_000_000_000 * one(),
        0 <= before.dash.nitro.value() <= one(),
        size(before.dash.combo_t.value()) <= 1_000_000 * one(),
        one() <= 0x4000_0000 * dt.value(),
        dt.value() <= one(),
    ensures
        ({
            let (pay, burning, taken) = r;
            let o = one();
            let misses = after.dash.near_misses - before.dash.near_misses;
            let combo = combo_left(before, dt);
            let points = close_points(combo, misses) + 250 * taken;
            &&& pays(pay, after.dash.speed, dt, before.dash.combo as int, burning)
            &&& after.dash.state is Running ==> burning == after.dash.nitro_on
            &&& 0 <= misses <= before.traffic.len()
            &&& taken <= before.pickups.len()
            &&& after.dash.state is Crashing ==> taken == 0
            &&& after.dash.state is Running ==> taken == bonuses_taken(before, dt, view, input, dice)
            &&& 100 * size(after.dash.score.value() - (before.dash.score.value() + pay.value() + points * o)) <= (misses
                + taken + 1) * o
            &&& after.dash.state is Running ==> after.dash.combo == combo + misses
        }),
{
    let (pay, burning, n, taken) = lemma_parts(before, after, dt, view, input, dice);
    let c0 = combo_left(before, dt);
    lemma_pow2_pos(1074);
    lemma_pay_is_small(pay, after.dash.speed, dt, before.dash.combo as int, burning);
    lemma_total(before.dash.score, pay, c0, n, taken, after.dash.score);
    (pay, burning, taken)
}

/// The combo that is left after a step.
pub open spec fn combo_left(before: GameModel, dt: Num) -> int {
    if before.dash.combo_t.value() <= dt.value() {
        0
    } else {
        before.dash.combo as int
    }
}

/// The points of driving hang on the speed, the time, the combo and the nitro alone.
pub proof fn driving_pays(g: GameModel, dt: Num)
    requires
        one() <= g.dash.speed.value() <= 10_000 * one(),
        one() <= 0x4000_0000 * dt.value(),
        dt.value() <= 1000 * one(),
        g.dash.combo <= 100_000_000,
    ensures
        pays(g.gain(dt), g.dash.speed, dt, g.dash.combo as int, g.dash.nitro_on),
{
    lemma_pay(g.dash.speed, dt, g.dash.combo, g.dash.nitro_on);
}

/// Two drives at the same speed, with the same combo and the same nitro, pay the same, whatever
/// else differs between them.
pub proof fn the_same_drive_pays_the_same(g: GameModel, h: GameModel, dt: Num)
    requires
        g.dash.speed == h.dash.speed,
        g.dash.combo == h.dash.combo,
        g.dash.nitro_on == h.dash.nitro_on,
    ensures
        g.gain(dt) == h.gain(dt),
{
}

/// What the score of a step is made of.
proof fn lemma_parts(
    before: GameModel,
    after: GameModel,
    dt: Num,
    view: Area,
    input: Input,
    dice: Dice,
) -> (r: (Num, bool, nat, nat))
    requires
        before.dash.state is Running,
        before.wf(),
        before.counts_misses(),
        before.dash.combo <= 900_000,
        after.stepped(before, dt, view, input, dice),
        0 <= before.dash.nitro.value() <= one(),
        size(before.dash.combo_t.value()) <= 1_000_000 * one(),
        one() <= 0x4000_0000 * dt.value(),
        dt.value() <= one(),
    ensures
        pays(r.0, after.dash.speed, dt, before.dash.combo as int, r.1),
        after.dash.state is Running ==> r.1 == after.dash.nitro_on,
        after.dash.state is Crashing ==> r.3 == 0,
        after.dash.state is Running ==> r.3 == bonuses_taken(before, dt, view, input, dice),
        after.dash.near_misses == before.dash.near_misses + r.2,
        r.2 <= before.traffic.len(),
        r.3 <= before.pickups.len(),
        after.dash.score == enriched(scored(before.dash.score.spec_plus(r.0), combo_left(before, dt), r.2), r.3),
        after.dash.state is Running ==> after.dash.combo == combo_left(before, dt) + r.2,
        32 * one() <= after.dash.speed.value() <= 400 * one(),
{
    let (pay, burning) = lemma_pay_of_step(before, after, dt, view, input, dice);
    let n = lemma_counts_of_step(before, dt, view, input, dice);
    let taken = lemma_after_meeting(before, after, dt, view, input, dice);
    (pay, burning, n, taken)
}

/// The points for driving in a step.
#[verifier::opaque]
spec fn pay_of(before: GameModel, dt: Num, view: Area, input: Input, dice: Dice) -> Num {
    before.ticked(dt).rough_ridden(dt, input, dice.dust, view).gain(dt)
}

/// The dashboard once the traffic of a step was met.
#[verifier::opaque]
pub(crate) open spec fn dash_met(before: GameModel, dt: Num, view: Area, input: Input, dice: Dice) -> Dash {
    before.ticked(dt).raced_on(dt, view, input, dice).dash
}

proof fn lemma_pay_of_step(
    before: GameModel,
    after: GameModel,
    dt: Num,
    view: Area,
    input: Input,
    dice: Dice,
) -> (r: (Num, bool))
    requires
        before.dash.state is Running,
        before.dash.combo <= 900_000,
        after.stepped(before, dt, view, input, dice),
        0 <= before.dash.nitro.value() <= one(),
        one() <= 0x4000_0000 * dt.value(),
        dt.value() <= one(),
    ensures
        r.0 == pay_of(before, dt, view, input, dice),
        pays(r.0, after.dash.speed, dt, before.dash.combo as int, r.1),
        after.dash.state is Running ==> r.1 == after.dash.nitro_on,
        32 * one() <= after.dash.speed.value() <= 400 * one(),
{
    let rough = before.ticked(dt).rough_ridden(dt, input, dice.dust, view);
    lemma_pow2_pos(1074);
    lemma_speeds(before, after, dt, view, input, dice);
    lemma_gain_of_step(rough, after.dash.speed, before.dash.combo, dt);
    reveal(pay_of);
    (rough.gain(dt), rough.dash.nitro_on)
}

proof fn lemma_counts_of_step(before: GameModel, dt: Num, view: Area, input: Input, dice: Dice) -> (n: nat)
    requires
        before.wf(),
        before.counts_misses(),
        size(before.dash.combo_t.value()) <= 1_000_000 * one(),
        size(dt.value()) <= 1_000_000 * one(),
    ensures
        ({
            let met = dash_met(before, dt, view, input, dice);
            let c0 = combo_left(before, dt);
            &&& n <= before.traffic.len()
            &&& met.score == scored(before.dash.score.spec_plus(pay_of(before, dt, view, input, dice)), c0, n)
            &&& met.near_misses == before.dash.near_misses + n
            &&& met.combo == c0 + n
        }),
{
    reveal(pay_of);
    reveal(dash_met);
    lemma_counts(before, dt, view, input, dice);
    before.ticked(dt).ridden(dt, input, dice.dust, view).swaying(dt, dice.sines@, view).near_ones(view).len()
}

proof fn lemma_gain_of_step(rough: GameModel, speed: Num, combo: u32, dt: Num)
    requires
        rough.dash.speed == speed,
        rough.dash.combo == combo,
        32 * one() <= speed.value() <= 400 * one(),
        one() <= 0x4000_0000 * dt.value(),
        dt.value() <= one(),
        combo <= 900_000,
    ensures
        pays(rough.gain(dt), speed, dt, combo as int, rough.dash.nitro_on),
{
    lemma_pow2_pos(1074);
    driving_pays(rough, dt);
}

/// After the traffic was met a step adds only bonuses to the score, and none in a crash.
pub(crate) proof fn lemma_after_meeting(before: GameModel, after: GameModel, dt: Num, view: Area, input: Input, dice: Dice) -> (taken:
    nat)
    requires
        before.dash.state is Running,
        after.stepped(before, dt, view, input, dice),
    ensures
        ({
            let met = dash_met(before, dt, view, input, dice);
            &&& after.dash.score == enriched(met.score, taken)
            &&& taken <= before.pickups.len()
            &&& after.dash.near_misses == met.near_misses
            &&& after.dash.state is Running ==> after.dash.combo == met.combo
            &&& after.dash.state is Crashing ==> taken == 0
            &&& after.dash.state is Running ==> taken == bonuses_taken(before, dt, view, input, dice)
        }),
{
    let now = before.ticked(dt);
    reveal(dash_met);
    reveal(bonuses_taken);
    lemma_race_goes_on(now, dt, view, input, dice);
    if now.gets_hit(dt, view, input, dice) {
        lemma_smash_counts(after, now, dt, view, input, dice);
        0
    } else {
        lemma_roll_counts(after, now.raced_on(dt, view, input, dice), dt, view, dice)
    }
}

pub(crate) proof fn lemma_race_goes_on(now: GameModel, dt: Num, view: Area, input: Input, dice: Dice)
    ensures
        now.raced_on(dt, view, input, dice).dash.state == now.dash.state,
        now.raced_on(dt, view, input, dice).pickups == now.pickups,
{
    let ridden = now.ridden(dt, input, dice.dust, view);
    assert(ridden.dash.state == now.dash.state && ridden.pickups == now.pickups) by {
        reveal(GameModel::ridden);
    }
    reveal(GameModel::encountered);
}

proof fn lemma_smash_counts(after: GameModel, now: GameModel, dt: Num, view: Area, input: Input, dice: Dice)
    requires
        after.smashed(now, dt, view, input, dice),
    ensures
        ({
            let met = now.raced_on(dt, view, input, dice);
            &&& after.dash.state is Crashing
            &&& after.dash.score == enriched(met.dash.score, 0)
            &&& after.dash.near_misses == met.dash.near_misses
        }),
{
    lemma_smash(after, now, dt, view, input, dice);
    lemma_smash_score(after, now, dt, view, input, dice);
}

proof fn lemma_roll_counts(after: GameModel, met: GameModel, dt: Num, view: Area, dice: Dice) -> (taken: nat)
    requires
        after.rolled_on(met, dt, view, dice),
    ensures
        after.dash.score == enriched(met.dash.score, taken),
        taken == met.thinned(view, -60).catch(view).len(),
        taken <= met.pickups.len(),
        after.dash.near_misses == met.dash.near_misses,
        after.dash.combo == met.dash.combo,
        after.dash.state == met.dash.state,
{
    lemma_haul_len(met.pickups, met.dash.player_x, view, 0);
    lemma_roll(after, met, dt, view, dice);
    lemma_roll_score(after, met, dt, view, dice);
    met.thinned(view, -60).catch(view).len()
}

/// The speed of a step and what its points are reckoned from.
proof fn lemma_speeds(before: GameModel, after: GameModel, dt: Num, view: Area, input: Input, dice: Dice)
    requires
        before.dash.state is Running,
        after.stepped(before, dt, view, input, dice),
        0 <= before.dash.nitro.value() <= one(),
        0 < dt.value(),
    ensures
        ({
            let rough = before.ticked(dt).rough_ridden(dt, input, dice.dust, view);
            &&& rough.dash.speed == after.dash.speed
            &&& rough.dash.combo == before.dash.combo
            &&& after.dash.state is Running ==> rough.dash.nitro_on == after.dash.nitro_on
            &&& 32 * one() <= after.dash.speed.value() <= 400 * one()
        }),
{
    let o = one();
    let now = before.ticked(dt);
    let met = now.raced_on(dt, view, input, dice);
    lemma_pow2_pos(1074);
    assert(magnitude(0) == 0);
    whole_numbers_are_exact(1);
    assert(1 * o == o);
    crate::num::numbers_order_as_keys(Num { key: 0 }, before.dash.nitro);
    crate::num::numbers_order_as_keys(before.dash.nitro, Num { key: 0 });
    crate::num::numbers_order_as_keys(Num::spec_whole(1), before.dash.nitro);
    crate::num::numbers_order_as_keys(dt, Num { key: 0 });
    crate::course::a_race_stays_within_bounds(now, after, dt, view, input, dice);
    let limit = now.dash.diff.top() + 55;
    whole_numbers_are_exact(32);
    whole_numbers_are_exact(limit as i32);
    assert(limit * o <= 400 * o) by (nonlinear_arith)
        requires
            limit <= 400,
            o > 0,
    ;
    crate::num::numbers_order_as_keys(after.dash.speed, Num::spec_whole(32));
    crate::num::numbers_order_as_keys(Num::spec_whole(limit), after.dash.speed);
    lemma_meet(now, dt, view, input, dice);
    if now.gets_hit(dt, view, input, dice) {
        lemma_smash(after, now, dt, view, input, dice);
    } else {
        lemma_roll(after, met, dt, view, dice);
    }
}

/// What the traffic adds to the count of a step.
pub(crate) proof fn lemma_counts(before: GameModel, dt: Num, view: Area, input: Input, dice: Dice)
    requires
        before.wf(),
        before.counts_misses(),
        size(before.dash.combo_t.value()) <= 1_000_000 * one(),
        size(dt.value()) <= 1_000_000 * one(),
    ensures
        ({
            let now = before.ticked(dt);
            let rough = now.rough_ridden(dt, input, dice.dust, view);
            let ahead = now.ridden(dt, input, dice.dust, view).swaying(dt, dice.sines@, view);
            let met = now.raced_on(dt, view, input, dice);
            let n = ahead.near_ones(view).len();
            let c0 = combo_left(before, dt);
            &&& n <= before.traffic.len()
            &&& met.dash.score == scored(before.dash.score.spec_plus(rough.gain(dt)), c0, n)
            &&& met.dash.near_misses == before.dash.near_misses + n
            &&& met.dash.combo == c0 + n
            &&& met.pickups == before.pickups
        }),
{
    let now = before.ticked(dt);
    let rough = now.rough_ridden(dt, input, dice.dust, view);
    let ridden = now.ridden(dt, input, dice.dust, view);
    let ahead = ridden.swaying(dt, dice.sines@, view);
    lemma_sign_of_difference(before.dash.combo_t, dt);
    assert(Num::spec_whole(0).key == 0);
    let c0 = if before.dash.combo_t.value() <= dt.value() {
        0int
    } else {
        before.dash.combo as int
    };
    assert(rough.dash.combo == before.dash.combo && rough.dash.combo_t == before.dash.combo_t && rough.dash.score
        == before.dash.score && rough.traffic == before.traffic && rough.pickups == before.pickups
        && rough.dash.near_misses == before.dash.near_misses);
    assert(ridden.dash.combo == c0 && ridden.dash.score == before.dash.score.spec_plus(rough.gain(dt)) && ridden.traffic
        == before.traffic && ridden.pickups == before.pickups && ridden.dash.near_misses == before.dash.near_misses) by {
        reveal(GameModel::ridden);
    }
    crate::running::lemma_grazes_len(ahead.traffic, ahead.dash.player_x, ahead.dash.speed, view, ahead.traffic.len() as int);
    reveal(GameModel::encountered);
}

proof fn lemma_smash_score(after: GameModel, before: GameModel, dt: Num, view: Area, input: Input, dice: Dice)
    requires
        after.smashed(before, dt, view, input, dice),
    ensures
        after.dash.score == before.raced_on(dt, view, input, dice).dash.score,
{
}

/// The sum of all points.
proof fn lemma_total(score: Num, pay: Num, combo: int, n: nat, taken: nat, total: Num)
    requires
        size(score.value()) <= 1_000_000_000 * one(),
        0 <= pay.value() <= 1_000_000_000 * one(),
        0 <= combo <= 900_000,
        n <= 1000,
        taken <= 1000,
        total == enriched(scored(score.spec_plus(pay), combo, n), taken),
    ensures
        100 * size(total.value() - (score.value() + pay.value() + (close_points(combo, n as int) + 250 * taken) * one()))
            <= (n + taken + 1) * one(),
{
    let o = one();
    let t = taken as int;
    lemma_pow2_pos(1074);
    lemma_one_is_many();
    let first = score.spec_plus(pay);
    lemma_near_sum(score.value() + pay.value(), 2_000_000_000);
    lemma_close_points(first, combo, n);
    let second = scored(first, combo, n);
    let cp = close_points(combo, n as int);
    assert(0 <= cp * o <= 61_000_000_000 * o && 0 <= n * o <= 1000 * o) by (nonlinear_arith)
        requires
            0 <= cp <= 61_000_000_000,
            0 <= n <= 1000,
            o > 0,
    ;
    lemma_bonus_points(second, taken);
    assert((cp + 250 * t) * o == cp * o + (250 * t) * o && (n + t + 1) * o == n * o + t * o + o && 0 <= t * o <= 1000
        * o) by (nonlinear_arith)
        requires
            0 <= t <= 1000,
            o > 0,
    ;
}

/// The points of a step are few.
proof fn lemma_pay_is_small(pay: Num, speed: Num, dt: Num, combo: int, burning: bool)
    requires
        pays(pay, speed, dt, combo, burning),
        0 < speed.value() <= 400 * one(),
        0 < dt.value() <= one(),
        0 <= combo <= 900_000,
    ensures
        0 <= pay.value() <= 1_000_000_000 * one(),
{
    let o = one();
    reveal(pays);
    lemma_pow2_pos(1074);
    let k = if burning {
        15int
    } else {
        10
    };
    let exact = (speed.value() * dt.value()) * (55 * ((4 + combo) * k));
    let q = 55 * ((4 + combo) * k);
    assert(0 < q <= 800_000_000) by (nonlinear_arith)
        requires
            0 <= combo <= 900_000,
            10 <= k <= 15,
            q == 55 * ((4 + combo) * k),
    ;
    let sd = speed.value() * dt.value();
    assert(0 < sd <= 400 * (o * o)) by (nonlinear_arith)
        requires
            0 < speed.value() <= 400 * o,
            0 < dt.value() <= o,
            sd == speed.value() * dt.value(),
    ;
    assert(0 < exact <= 320_000_000_000 * (o * o)) by (nonlinear_arith)
        requires
            0 < sd <= 400 * (o * o),
            0 < q <= 800_000_000,
            exact == sd * q,
    ;
    let p = pay.value();
    assert(0 <= p <= 1_000_000_000 * o) by (nonlinear_arith)
        requires
            1_000_000_000 * size(4000 * (p * o) - exact) <= exact,
            0 < exact <= 320_000_000_000 * (o * o),
            o > 0,
    ;
}

pub(crate) proof fn lemma_haul_len(s: Seq<crate::entities::Pickup>, x: Num, view: Area, i: int)
    requires
        0 <= i <= s.len(),
    ensures
        crate::running::haul(s, x, view, i).len() <= s.len() - i,
    decreases s.len() - i,
{
    if i < s.len() {
        lemma_haul_len(s, x, view, i + 1);
    }
}

proof fn lemma_roll_score(after: GameModel, met: GameModel, dt: Num, view: Area, dice: Dice)
    requires
        after.rolled_on(met, dt, view, dice),
    ensures
        after.dash.score == enriched(met.dash.score, met.thinned(view, -60).catch(view).len()),
{
    reveal(GameModel::rolled_on);
    let road = met.gleaned(dt, view, dice);
    assert(road.dash.score == enriched(met.dash.score, met.thinned(view, -60).catch(view).len()));
}

} // verus!
