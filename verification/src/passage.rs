//! What passes in a step, in numbers: the countdown, a crash, the show behind the menu, and
//! all that drifts by.

use crate::dice::Dice;
use crate::difficulty::Difficulty;
use crate::drift::{blown, drifted, fresh, lifted, lively, risen, rows_in};
use crate::encounters::{reach_is_a_distance, reachable};
use crate::entities::{Caption, Particle, Pickup, Scenery};
use crate::game::{Dash, GameModel};
use crate::geometry::{mid_road, player_row, Area};
use crate::handling::{
    about, close, lemma_fraction, lemma_limits, lemma_zero, multiples_are_near, on_asphalt, on_grass, parts_are_near,
    products_are_near, rows_are_near, sums_are_near, top_of, within,
};
use crate::input::Input;
use crate::measure::size;
use crate::num::{numbers_order_as_keys, whole_numbers_are_exact, Num};
use crate::promises::{combo_left, is_near, lane_columns, larger, lemma_ratio_is_near, lemma_sign_of_difference};
use crate::rounding::one;
use crate::running::{close_caption, close_text, density, haul, haul_caption, in_reach, is_up, left_over, verge_at};
use crate::style::{color, Rgb};
use crate::text::decimal;
use crate::traffic::rolled;
use crate::verge::scrolled;
use vstd::arithmetic::power2::lemma_pow2_pos;
use vstd::prelude::*;

verus! {

/// The number less `n` a second, though not below zero.
proof fn lemma_falls(v: Num, n: i32, dt: Num)
    requires
        0 <= n <= 1000,
        size(v.value()) <= 1000 * one(),
        0 <= dt.value() <= one(),
    ensures
        about(
            v.spec_minus(Num::spec_whole(n as int).spec_times(dt)).spec_max(Num::spec_whole(0)).value(),
            if v.value() < n * dt.value() {
                0
            } else {
                v.value() - n * dt.value()
            },
        ),
        v.spec_minus(Num::spec_whole(n as int).spec_times(dt)).spec_max(Num::spec_whole(0)).value() >= 0,
{
    lemma_pow2_pos(1074);
    lemma_zero();
    multiples_are_near(n, dt);
    let a = Num::spec_whole(n as int).spec_times(dt);
    sums_are_near(v, a);
    lemma_limits(v.spec_minus(a), Num::spec_whole(0), Num::spec_whole(0));
}

/// The tremor less `p` tenths a second, though not below none.
pub open spec fn calms(after: int, before: int, p: int, dt: int) -> bool {
    let o = one();
    1_000_000 * size(10 * after - if 10 * before < p * dt {
        0
    } else {
        10 * before - p * dt
    }) <= o
}

proof fn lemma_calms(v: Num, p: i32, dt: Num)
    requires
        0 <= p <= 100,
        size(v.value()) <= 1000 * one(),
        0 <= dt.value() <= one(),
    ensures
        calms(
            v.spec_minus(Num::spec_ratio(p as int, 10).spec_times(dt)).spec_max(Num::spec_whole(0)).value(),
            v.value(),
            p as int,
            dt.value(),
        ),
{
    let o = one();
    let d = dt.value();
    lemma_pow2_pos(1074);
    lemma_zero();
    assert(size(d) <= 1 * o);
    parts_are_near(p, 10, dt, 1);
    let a = Num::spec_ratio(p as int, 10).spec_times(dt);
    assert(0 <= p * d <= 100 * o) by (nonlinear_arith)
        requires
            0 <= p <= 100,
            0 <= d <= o,
    ;
    sums_are_near(v, a);
    lemma_limits(v.spec_minus(a), Num::spec_whole(0), Num::spec_whole(0));
}

/// A step of the countdown takes its time from it, and when nothing is left the race is on.
/// The engine warms up by 34 km/h a second, to 42 at most; nothing else of the run changes.
pub proof fn the_countdown_runs_down(
    before: GameModel,
    after: GameModel,
    dt: Num,
    view: Area,
    input: Input,
    dice: Dice,
)
    requires
        before.dash.state is Countdown,
        after.stepped(before, dt, view, input, dice),
        size(before.dash.countdown.value()) <= 1000 * one(),
        0 <= before.dash.speed.value() <= 300 * one(),
        size(before.dash.scroll.value()) <= 1_000_000 * one(),
        0 <= dt.value() <= one(),
    ensures
        ({
            let o = one();
            let d = dt.value();
            let warm = before.dash.speed.value() + 34 * d;
            let rows = after.dash.scroll.value() - before.dash.scroll.value();
            &&& close(after.dash.countdown.value(), before.dash.countdown.value() - d)
            &&& after.dash.state is Running <==> before.dash.countdown.value() <= d
            &&& after.dash.state is Countdown <==> before.dash.countdown.value() > d
            &&& after.dash.state is Running ==> after.dash.run_t.value() == 0
            &&& about(after.dash.speed.value(), if warm > 42 * o {
                42 * o
            } else {
                warm
            })
            &&& 1_000_000 * size(100 * (rows * o) - 11 * (after.dash.speed.value() * d)) <= 2 * (o * o)
            &&& after.dash.nitro == before.dash.nitro
            &&& after.dash.score == before.dash.score
            &&& after.dash.player_x == before.dash.player_x
            &&& after.dash.diff == before.dash.diff
            &&& after.traffic == before.traffic
            &&& after.pickups == before.pickups
            &&& after.hi == before.hi
        }),
{
    let o = one();
    let b = before.dash;
    lemma_pow2_pos(1074);
    lemma_zero();
    sums_are_near(b.countdown, dt);
    lemma_sign_of_difference(b.countdown, dt);
    whole_numbers_are_exact(42);
    multiples_are_near(34, dt);
    let a = Num::spec_whole(34).spec_times(dt);
    sums_are_near(b.speed, a);
    let speed = b.speed.spec_plus(a).spec_min(Num::spec_whole(42));
    lemma_limits(b.speed.spec_plus(a), Num::spec_whole(42), Num::spec_whole(42));
    assert(after.dash.speed == speed);
    rows_are_near(speed, dt);
    let rows = rows_in(speed, dt);
    sums_are_near(b.scroll, rows);
    crate::handling::lemma_grown(after.dash.scroll.value() - b.scroll.value(), rows.value(), 100, o);
}

/// After a crash the wreck slides on, slower by 300 km/h each second until it stands, and the
/// view calms down by 1.4 a second.
pub proof fn a_wreck_slides_on(
    before: GameModel,
    after: GameModel,
    dt: Num,
    view: Area,
    input: Input,
    dice: Dice,
)
    requires
        before.dash.state is Crashing,
        after.stepped(before, dt, view, input, dice),
        0 <= before.dash.speed.value() <= 400 * one(),
        0 <= before.dash.shake.value() <= 100 * one(),
        size(before.dash.scroll.value()) <= 1_000_000 * one(),
        0 <= dt.value() <= one(),
    ensures
        ({
            let o = one();
            let d = dt.value();
            let v = before.dash.speed.value();
            let rows = after.dash.scroll.value() - before.dash.scroll.value();
            &&& about(after.dash.speed.value(), if v < 300 * d {
                0
            } else {
                v - 300 * d
            })
            &&& 1_000_000 * size(100 * (rows * o) - 11 * (after.dash.speed.value() * d)) <= 2 * (o * o)
            &&& calms(after.dash.shake.value(), before.dash.shake.value(), 14, d)
            &&& after.dash.player_x == before.dash.player_x
            &&& after.traffic == before.traffic
            &&& after.pickups == before.pickups
        }),
{
    let o = one();
    let b = before.dash;
    lemma_pow2_pos(1074);
    lemma_falls(b.speed, 300, dt);
    lemma_calms(b.shake, 14, dt);
    let speed = b.speed.spec_minus(Num::spec_whole(300).spec_times(dt)).spec_max(Num::spec_whole(0));
    assert(after.dash.speed == speed);
    rows_are_near(speed, dt);
    let rows = rows_in(speed, dt);
    sums_are_near(b.scroll, rows);
    crate::handling::lemma_grown(after.dash.scroll.value() - b.scroll.value(), rows.value(), 100, o);
}

/// At the end of a run the view calms down by 2 a second, and nothing that was counted changes.
pub proof fn the_end_is_still(
    before: GameModel,
    after: GameModel,
    dt: Num,
    view: Area,
    input: Input,
    dice: Dice,
)
    requires
        before.dash.state is GameOver,
        after.stepped(before, dt, view, input, dice),
        0 <= before.dash.shake.value() <= 100 * one(),
        0 <= dt.value() <= one(),
    ensures
        about(after.dash.shake.value(), if before.dash.shake.value() < 2 * dt.value() {
            0
        } else {
            before.dash.shake.value() - 2 * dt.value()
        }),
        after.dash.state is GameOver,
        after.hi == before.hi,
        after.dash.score == before.dash.score,
        after.dash.speed == before.dash.speed,
        after.dash.scroll == before.dash.scroll,
        after.dash.distance == before.dash.distance,
        after.dash.player_x == before.dash.player_x,
        after.dash.new_best == before.dash.new_best,
        after.traffic == before.traffic,
        after.pickups == before.pickups,
        after.scenery == before.scenery,
{
    lemma_pow2_pos(1074);
    lemma_falls(before.dash.shake, 2, dt);
}

/// A crash strikes with a tremor of 1.3 and puts the nitro and the combo out.
pub proof fn a_crash_strikes(
    before: GameModel,
    after: GameModel,
    dt: Num,
    view: Area,
    input: Input,
    dice: Dice,
)
    requires
        before.dash.state is Running,
        after.stepped(before, dt, view, input, dice),
        after.dash.state is Crashing,
    ensures
        is_near(after.dash.shake, 13, 10),
        after.dash.crash_t.value() == 0,
        after.dash.combo == 0,
        !after.dash.nitro_on,
        after.dash.quip < crate::game::QUIP_COUNT,
{
    let now = before.ticked(dt);
    let met = now.raced_on(dt, view, input, dice);
    lemma_zero();
    lemma_ratio_is_near(13, 10);
    crate::course::lemma_meet(now, dt, view, input, dice);
    if !now.gets_hit(dt, view, input, dice) {
        crate::course::lemma_roll(after, met, dt, view, dice);
    }
}

/// Whether a timer is another one a step later: less by the step, or set anew when it is up.
spec fn timer(now: Num, was: Num, dt: Num, next: Num) -> bool {
    now == if is_up(was.spec_minus(dt)) {
        next
    } else {
        was.spec_minus(dt)
    }
}

/// Whether the timers of the traffic, the bonuses and the scenery went on for a step.
spec fn timed(after: GameModel, met: GameModel, dt: Num, dice: Dice) -> bool {
    let next = dice.gap.spec_times(density(met.dash.speed, met.dash.diff));
    &&& timer(after.dash.spawn_t, met.dash.spawn_t, dt, next)
    &&& timer(after.dash.pickup_t, met.dash.pickup_t, dt, dice.bonus_gap)
    &&& timer(after.dash.scenery_t, met.dash.scenery_t, dt, dice.sprout.next)
}

/// Whether all bonuses that were there still are, and at most one more.
spec fn lasting_bonuses(now: Seq<Pickup>, was: Seq<Pickup>) -> bool {
    &&& was.len() <= now.len() <= was.len() + 1
    &&& forall|i: int| #![trigger now[i]] 0 <= i < was.len() ==> now[i] == was[i]
}

/// The floating texts and the things beside the road before they move on in a step of the
/// race that goes on: those that were there come first.
proof fn lemma_rolled(after: GameModel, met: GameModel, dt: Num, view: Area, dice: Dice) -> (things: Seq<Scenery>)
    requires
        after.rolled_on(met, dt, view, dice),
    ensures
        after.floats == moved_texts(met.gleaned(dt, view, dice).floats, dt),
        after.scenery == scrolled(things, rows_in(met.dash.speed, dt), view),
        things.len() >= met.scenery.len(),
        forall|i: int| #![trigger things[i]] 0 <= i < met.scenery.len() ==> things[i] == met.scenery[i],
        timed(after, met, dt, dice),
        lasting_bonuses(after.pickups, met.gleaned(dt, view, dice).pickups),
{
    reveal(GameModel::rolled_on);
    let road = met.gleaned(dt, view, dice);
    let rows = rows_in(met.dash.speed, dt);
    let next = dice.gap.spec_times(density(met.dash.speed, met.dash.diff));
    let (a, b, c, d) = choose|a: GameModel, b: GameModel, c: GameModel, d: GameModel|
        #![trigger a.spawned(road, dt, next, dice.draft, view), b.bestowed(a, dt, dice.bonus_gap, view), c.sprouted(b, dt, dice.sprout, view), d.fumed(c.scenery_moved(rows, view), dt, dice.flames, dice.smoke, view)]
        a.spawned(road, dt, next, dice.draft, view) && b.bestowed(a, dt, dice.bonus_gap, view) && c.sprouted(
            b,
            dt,
            dice.sprout,
            view,
        ) && d.fumed(c.scenery_moved(rows, view), dt, dice.flames, dice.smoke, view) && after == d.adrift(
            dt,
            rows,
            view,
        ).calmed(Num::spec_ratio(22, 10), dt);
    lemma_joins(a, road, dt, next, dice.draft, view);
    lemma_drops(b, a, dt, dice.bonus_gap, view);
    lemma_sprouts(c, b, dt, dice.sprout, view);
    lemma_fumes(d, c.scenery_moved(rows, view), dt, view, dice);
    lemma_roll_ends(d, dt, rows, view);
    c.scenery
}

/// The floating texts after a step, those that are spent gone.
spec fn moved_texts(floats: Seq<Caption>, dt: Num) -> Seq<Caption> {
    risen(floats, dt).filter(|c: Caption| fresh(c))
}

/// Whether a floating text is another one so many seconds later: seven rows a second higher,
/// and else the same.
pub open spec fn rose(now: Caption, was: Caption, dt: int) -> bool {
    &&& now.text == was.text
    &&& now.color == was.color
    &&& now.x == was.x
    &&& about(now.y.value(), was.y.value() - 7 * dt)
    &&& close(now.t.value(), was.t.value() + dt)
}

/// A floating text that is not yet 1.15 seconds old is among those that moved on.
proof fn lemma_rise(floats: Seq<Caption>, dt: Num, i: int)
    requires
        0 <= i < floats.len(),
        size(floats[i].y.value()) <= 1_000_000 * one(),
        size(floats[i].t.value()) <= 1000 * one(),
        0 <= dt.value() <= one(),
        1_000_000 * (115 * one() - 100 * (floats[i].t.value() + dt.value())) >= one(),
    ensures
        exists|j: int|
            0 <= j < moved_texts(floats, dt).len() && rose(#[trigger] moved_texts(floats, dt)[j], floats[i], dt.value()),
{
    let c = floats[i];
    let up = risen(floats, dt);
    let pick = |c: Caption| fresh(c);
    lemma_pow2_pos(1074);
    multiples_are_near(7, dt);
    sums_are_near(c.y, Num::spec_whole(7).spec_times(dt));
    sums_are_near(c.t, dt);
    lemma_fraction(115, 100);
    numbers_order_as_keys(c.t.spec_plus(dt), Num::spec_ratio(115, 100));
    assert(up[i] == lifted(c, dt));
    assert(pick(up[i]));
    up.lemma_filter_contains(pick, i);
    let kept = up.filter(pick);
    let j = choose|j: int| 0 <= j < kept.len() && kept[j] == up[i];
    assert(rose(moved_texts(floats, dt)[j], c, dt.value()));
}

/// In every step but those of a pause and of the crash itself each floating text rises by
/// seven rows a second and stays until it is 1.15 seconds old.
pub proof fn texts_rise_and_stay(
    before: GameModel,
    after: GameModel,
    dt: Num,
    view: Area,
    input: Input,
    dice: Dice,
    i: int,
)
    requires
        after.stepped(before, dt, view, input, dice),
        before.dash.state !is Paused,
        !(before.dash.state is Running && after.dash.state is Crashing),
        0 <= i < before.floats.len(),
        size(before.floats[i].y.value()) <= 1_000_000 * one(),
        size(before.floats[i].t.value()) <= 1000 * one(),
        0 <= dt.value() <= one(),
        1_000_000 * (115 * one() - 100 * (before.floats[i].t.value() + dt.value())) >= one(),
    ensures
        exists|j: int|
            0 <= j < after.floats.len() && rose(#[trigger] after.floats[j], before.floats[i], dt.value()),
{
    let now = before.ticked(dt);
    if before.dash.state is Running {
        let met = now.raced_on(dt, view, input, dice);
        if now.gets_hit(dt, view, input, dice) {
            crate::course::lemma_smash(after, now, dt, view, input, dice);
        } else {
            let things = lemma_rolled(after, met, dt, view, dice);
            let floats = met.gleaned(dt, view, dice).floats;
            lemma_texts_last(now, dt, view, input, dice, i);
            lemma_rise(floats, dt, i);
        }
    } else {
        lemma_rise(before.floats, dt, i);
        assert(after.floats == moved_texts(before.floats, dt));
    }
}

/// The texts that were there come first among those of a step.
proof fn lemma_texts_last(now: GameModel, dt: Num, view: Area, input: Input, dice: Dice, i: int)
    requires
        0 <= i < now.floats.len(),
    ensures
        ({
            let floats = now.raced_on(dt, view, input, dice).gleaned(dt, view, dice).floats;
            i < floats.len() && floats[i] == now.floats[i]
        }),
{
    let ridden = now.ridden(dt, input, dice.dust, view);
    assert(i < ridden.floats.len() && ridden.floats[i] == now.floats[i]) by {
        reveal(GameModel::ridden);
    }
    reveal(GameModel::encountered);
}

/// Whether a thing beside the road is another one so many rows further down.
pub open spec fn rolled_down(now: Scenery, was: Scenery, speed: int, dt: int) -> bool {
    let o = one();
    let rows = now.y.value() - was.y.value();
    &&& now.x == was.x
    &&& now.kind == was.kind
    &&& 1_000_000 * size(100 * (rows * o) - 11 * (speed * dt)) <= 2 * (o * o)
}

proof fn lemma_roll_down(things: Seq<Scenery>, speed: Num, dt: Num, view: Area, i: int)
    requires
        0 <= i < things.len(),
        size(things[i].y.value()) <= 1_000_000 * one(),
        0 <= speed.value() <= 500 * one(),
        0 <= dt.value() <= one(),
        things[i].y.value() + 60 * one() < (view.height + 10) * one(),
    ensures
        exists|j: int|
            0 <= j < scrolled(things, rows_in(speed, dt), view).len() && rolled_down(
                #[trigger] scrolled(things, rows_in(speed, dt), view)[j],
                things[i],
                speed.value(),
                dt.value(),
            ),
{
    let o = one();
    let s = things[i];
    let rows = rows_in(speed, dt);
    lemma_pow2_pos(1074);
    rows_are_near(speed, dt);
    sums_are_near(s.y, rows);
    let now = crate::verge::passed_by(s, rows);
    crate::handling::lemma_grown(now.y.value() - s.y.value(), rows.value(), 100, o);
    let v = speed.value();
    let d = dt.value();
    let r = rows.value();
    assert(v * d <= 500 * (o * o)) by (nonlinear_arith)
        requires
            0 <= v <= 500 * o,
            0 <= d <= o,
    ;
    assert(r <= 56 * o) by (nonlinear_arith)
        requires
            1_000_000 * size(100 * (r * o) - 11 * (v * d)) <= o * o,
            v * d <= 500 * (o * o),
            o > 0,
    ;
    whole_numbers_are_exact((view.height + 10) as i32);
    numbers_order_as_keys(now.y, Num::spec_whole(view.height + 10));
    let all = Seq::new(things.len(), |i: int| crate::verge::passed_by(things[i], rows));
    let pick = |s: Scenery| s.y.key < Num::spec_whole(view.height + 10).key;
    assert(all[i] == now);
    assert(pick(all[i]));
    all.lemma_filter_contains(pick, i);
    let kept = all.filter(pick);
    let j = choose|j: int| 0 <= j < kept.len() && kept[j] == all[i];
    assert(kept == scrolled(things, rows, view));
    assert(rolled_down(scrolled(things, rows, view)[j], s, v, d));
}

/// What stands beside the road comes down with it, eleven hundredths of a row for each second
/// and km/h, and stays as long as it is in view.
pub proof fn scenery_comes_down_with_the_road(
    before: GameModel,
    after: GameModel,
    dt: Num,
    view: Area,
    input: Input,
    dice: Dice,
    i: int,
)
    requires
        after.stepped(before, dt, view, input, dice),
        before.dash.state !is Paused && before.dash.state !is GameOver,
        !(before.dash.state is Running && after.dash.state is Crashing),
        0 <= i < before.scenery.len(),
        size(before.scenery[i].y.value()) <= 1_000_000 * one(),
        before.scenery[i].y.value() + 60 * one() < (view.height + 10) * one(),
        0 <= after.dash.speed.value() <= 500 * one(),
        0 <= dt.value() <= one(),
    ensures
        exists|j: int|
            0 <= j < after.scenery.len() && rolled_down(
                #[trigger] after.scenery[j],
                before.scenery[i],
                after.dash.speed.value(),
                dt.value(),
            ),
{
    let things = if before.dash.state is Running {
        lemma_verge_of_race(before, after, dt, view, input, dice)
    } else if before.dash.state is Menu {
        lemma_verge_of_show(before, after, dt, view, dice)
    } else if before.dash.state is Countdown {
        lemma_verge_of_countdown(before, after, dt, view, dice)
    } else {
        lemma_verge_of_crash(before, after, dt, view, dice);
        before.scenery
    };
    assert(things[i] == before.scenery[i]);
    lemma_roll_down(things, after.dash.speed, dt, view, i);
}

/// Whether things came down to what stands beside the road after a step, those that were
/// there before it first.
spec fn came_down(things: Seq<Scenery>, before: GameModel, after: GameModel, dt: Num, view: Area) -> bool {
    &&& after.scenery == scrolled(things, rows_in(after.dash.speed, dt), view)
    &&& things.len() >= before.scenery.len()
    &&& forall|i: int| #![trigger things[i]] 0 <= i < before.scenery.len() ==> things[i] == before.scenery[i]
}

proof fn lemma_verge_of_race(
    before: GameModel,
    after: GameModel,
    dt: Num,
    view: Area,
    input: Input,
    dice: Dice,
) -> (things: Seq<Scenery>)
    requires
        after.stepped(before, dt, view, input, dice),
        before.dash.state is Running,
        after.dash.state !is Crashing,
    ensures
        came_down(things, before, after, dt, view),
{
    let now = before.ticked(dt);
    let met = now.raced_on(dt, view, input, dice);
    if now.gets_hit(dt, view, input, dice) {
        crate::course::lemma_smash(after, now, dt, view, input, dice);
        before.scenery
    } else {
        lemma_verge_lasts(now, dt, view, input, dice);
        lemma_same_speed(after, met, dt, view, dice);
        lemma_rolled(after, met, dt, view, dice)
    }
}

proof fn lemma_same_speed(after: GameModel, met: GameModel, dt: Num, view: Area, dice: Dice)
    requires
        after.rolled_on(met, dt, view, dice),
    ensures
        after.dash.speed == met.dash.speed,
        after.dash.player_x == met.dash.player_x,
{
    crate::course::lemma_roll(after, met, dt, view, dice);
}

proof fn lemma_verge_of_show(before: GameModel, after: GameModel, dt: Num, view: Area, dice: Dice) -> (things: Seq<
    Scenery,
>)
    requires
        after.attracted(before.ticked(dt), dt, view, dice),
    ensures
        came_down(things, before, after, dt, view),
{
    let start = before.ticked(dt).cruising(dt, dice.sine, view);
    let rows = rows_in(start.dash.speed, dt);
    let (a, b) = choose|a: GameModel, b: GameModel|
        #![trigger a.sprouted(start, dt, dice.sprout, view), b.spawned(a.scenery_moved(rows, view), dt, dice.gap, dice.draft, view)]
        a.sprouted(start, dt, dice.sprout, view) && b.spawned(
            a.scenery_moved(rows, view),
            dt,
            dice.gap,
            dice.draft,
            view,
        ) && after == b.flowing(dt).thinned(view, -40).idling(dt, dice.smoke, view).adrift(dt, rows, view);
    lemma_sprouts(a, start, dt, dice.sprout, view);
    lemma_joins(b, a.scenery_moved(rows, view), dt, dice.gap, dice.draft, view);
    lemma_show_ends(b, dt, view, dice, rows);
    a.scenery
}

proof fn lemma_show_ends(b: GameModel, dt: Num, view: Area, dice: Dice, rows: Num)
    ensures
        ({
            let after = b.flowing(dt).thinned(view, -40).idling(dt, dice.smoke, view).adrift(dt, rows, view);
            after.scenery == b.scenery && after.dash.speed == b.dash.speed
        }),
{
}

proof fn lemma_sprouts(a: GameModel, start: GameModel, dt: Num, sprout: crate::dice::Sprout, view: Area)
    requires
        a.sprouted(start, dt, sprout, view),
    ensures
        a.dash == (Dash { scenery_t: a.dash.scenery_t, ..start.dash }),
        timer(a.dash.scenery_t, start.dash.scenery_t, dt, sprout.next),
        a.floats == start.floats,
        a.pickups == start.pickups,
        a.scenery.len() >= start.scenery.len(),
        forall|i: int| #![trigger a.scenery[i]] 0 <= i < start.scenery.len() ==> a.scenery[i] == start.scenery[i],
{
}

proof fn lemma_joins(b: GameModel, a: GameModel, dt: Num, next: Num, draft: crate::dice::Draft, view: Area)
    requires
        b.spawned(a, dt, next, draft, view),
    ensures
        b.dash == (Dash { spawn_t: b.dash.spawn_t, ..a.dash }),
        timer(b.dash.spawn_t, a.dash.spawn_t, dt, next),
        b.floats == a.floats,
        b.pickups == a.pickups,
        b.scenery == a.scenery,
{
}

proof fn lemma_drops(b: GameModel, a: GameModel, dt: Num, next: Num, view: Area)
    requires
        b.bestowed(a, dt, next, view),
    ensures
        b.dash == (Dash { pickup_t: b.dash.pickup_t, ..a.dash }),
        timer(b.dash.pickup_t, a.dash.pickup_t, dt, next),
        b.floats == a.floats,
        lasting_bonuses(b.pickups, a.pickups),
        b.scenery == a.scenery,
{
}

proof fn lemma_fumes(d: GameModel, c: GameModel, dt: Num, view: Area, dice: Dice)
    requires
        d.fumed(c, dt, dice.flames, dice.smoke, view),
    ensures
        d.dash == (Dash { exhaust_t: d.dash.exhaust_t, ..c.dash }),
        d.floats == c.floats,
        d.pickups == c.pickups,
        d.scenery == c.scenery,
{
}

proof fn lemma_roll_ends(d: GameModel, dt: Num, rows: Num, view: Area)
    ensures
        ({
            let after = d.adrift(dt, rows, view).calmed(Num::spec_ratio(22, 10), dt);
            &&& after.dash == (Dash { shake: after.dash.shake, ..d.dash })
            &&& after.floats == moved_texts(d.floats, dt)
            &&& after.pickups == d.pickups
            &&& after.scenery == d.scenery
        }),
{
}

proof fn lemma_verge_of_countdown(before: GameModel, after: GameModel, dt: Num, view: Area, dice: Dice) -> (things: Seq<
    Scenery,
>)
    requires
        after.counted_down(before.ticked(dt), dt, view, dice),
    ensures
        came_down(things, before, after, dt, view),
{
    let start = before.ticked(dt).warmed_up(dt);
    let rows = rows_in(start.dash.speed, dt);
    let a = choose|a: GameModel|
        #![trigger a.sprouted(start, dt, dice.sprout, view)]
        a.sprouted(start, dt, dice.sprout, view) && after == a.scenery_moved(rows, view).adrift(dt, rows, view).counted();
    a.scenery
}

proof fn lemma_verge_of_crash(before: GameModel, after: GameModel, dt: Num, view: Area, dice: Dice)
    requires
        after == before.ticked(dt).tumbled(dt, view, dice).concluded(),
    ensures
        after.scenery == scrolled(before.scenery, rows_in(after.dash.speed, dt), view),
{
}

proof fn lemma_verge_lasts(now: GameModel, dt: Num, view: Area, input: Input, dice: Dice)
    ensures
        now.raced_on(dt, view, input, dice).scenery == now.scenery,
{
    let ridden = now.ridden(dt, input, dice.dust, view);
    assert(ridden.scenery == now.scenery) by {
        reveal(GameModel::ridden);
    }
    reveal(GameModel::encountered);
}

/// Whether a bonus is another one so many rows further down, and so much older.
pub open spec fn bonus_came_down(now: Pickup, was: Pickup, speed: int, dt: int) -> bool {
    let o = one();
    let rows = now.y.value() - was.y.value();
    &&& now.x == was.x
    &&& close(now.t.value(), was.t.value() + dt)
    &&& 1_000_000 * size(100 * (rows * o) - 11 * (speed * dt)) <= 2 * (o * o)
}

/// A bonus out of reach is left.
proof fn lemma_left(s: Seq<Pickup>, x: Num, view: Area, i: int)
    requires
        0 <= i < s.len(),
        !in_reach(s[i], x, view),
    ensures
        left_over(s, x, view, 0).contains(s[i]),
{
    broadcast use vstd::seq_lib::group_to_multiset_ensures;

    let left = left_over(s, x, view, 0);
    let taken = haul(s, x, view, 0);
    crate::running::bonuses_are_taken_or_left(s, x, view, 0);
    lemma_haul_in_reach(s, x, view, 0);
    assert(s.contains(s[i]));
    assert(s.to_multiset().count(s[i]) > 0);
    assert(!taken.contains(s[i]));
    assert(taken.to_multiset().count(s[i]) == 0);
    assert(left.to_multiset().count(s[i]) > 0);
}

proof fn lemma_haul_in_reach(s: Seq<Pickup>, x: Num, view: Area, i: int)
    requires
        0 <= i <= s.len(),
    ensures
        forall|j: int| #![trigger haul(s, x, view, i)[j]]
            0 <= j < haul(s, x, view, i).len() ==> in_reach(haul(s, x, view, i)[j], x, view),
    decreases s.len() - i,
{
    if i < s.len() {
        lemma_haul_in_reach(s, x, view, i + 1);
        let rest = haul(s, x, view, i + 1);
        let all = haul(s, x, view, i);
        assert forall|j: int| #![trigger all[j]] 0 <= j < all.len() implies in_reach(all[j], x, view) by {
            if j < rest.len() {
                assert(all[j] == rest[j]);
            }
        }
    }
}

proof fn lemma_bonus_rolls(pickups: Seq<Pickup>, speed: Num, dt: Num, view: Area, i: int)
    requires
        0 <= i < pickups.len(),
        size(pickups[i].y.value()) <= 1_000_000 * one(),
        size(pickups[i].t.value()) <= 1_000_000 * one(),
        0 <= speed.value() <= 500 * one(),
        0 <= dt.value() <= one(),
        pickups[i].y.value() + 60 * one() < (view.height + 6) * one(),
    ensures
        exists|j: int|
            0 <= j < rolled(pickups, dt, rows_in(speed, dt), view).len() && bonus_came_down(
                #[trigger] rolled(pickups, dt, rows_in(speed, dt), view)[j],
                pickups[i],
                speed.value(),
                dt.value(),
            ),
{
    let o = one();
    let p = pickups[i];
    let rows = rows_in(speed, dt);
    lemma_pow2_pos(1074);
    rows_are_near(speed, dt);
    sums_are_near(p.y, rows);
    sums_are_near(p.t, dt);
    let now = crate::traffic::rolled_by(p, dt, rows);
    crate::handling::lemma_grown(now.y.value() - p.y.value(), rows.value(), 100, o);
    let v = speed.value();
    let d = dt.value();
    let r = rows.value();
    assert(v * d <= 500 * (o * o)) by (nonlinear_arith)
        requires
            0 <= v <= 500 * o,
            0 <= d <= o,
    ;
    assert(r <= 56 * o) by (nonlinear_arith)
        requires
            1_000_000 * size(100 * (r * o) - 11 * (v * d)) <= o * o,
            v * d <= 500 * (o * o),
            o > 0,
    ;
    whole_numbers_are_exact((view.height + 6) as i32);
    numbers_order_as_keys(now.y, Num::spec_whole(view.height + 6));
    let all = Seq::new(pickups.len(), |i: int| crate::traffic::rolled_by(pickups[i], dt, rows));
    let pick = |p: Pickup| p.y.key < Num::spec_whole(view.height + 6).key;
    assert(all[i] == now);
    assert(pick(all[i]));
    all.lemma_filter_contains(pick, i);
    let kept = all.filter(pick);
    let j = choose|j: int| 0 <= j < kept.len() && kept[j] == all[i];
    assert(kept == rolled(pickups, dt, rows, view));
    assert(bonus_came_down(rolled(pickups, dt, rows, view)[j], p, v, d));
}

/// In a race a bonus that is out of reach comes down with the road, and stays as long as it is
/// in view.
pub proof fn bonuses_come_down_with_the_road(
    before: GameModel,
    after: GameModel,
    dt: Num,
    view: Area,
    input: Input,
    dice: Dice,
    i: int,
)
    requires
        after.stepped(before, dt, view, input, dice),
        before.dash.state is Running,
        after.dash.state is Running,
        0 <= i < before.pickups.len(),
        size(before.pickups[i].x.value()) <= 1000 * one(),
        size(before.pickups[i].y.value()) <= 1_000_000 * one(),
        size(before.pickups[i].t.value()) <= 1_000_000 * one(),
        size(after.dash.player_x.value()) <= 1000 * one(),
        !reachable(before.pickups[i], after.dash.player_x.value(), view.height - 8, -1),
        before.pickups[i].y.value() + 60 * one() < (view.height + 6) * one(),
        0 <= after.dash.speed.value() <= 500 * one(),
        0 <= dt.value() <= one(),
    ensures
        exists|j: int|
            0 <= j < after.pickups.len() && bonus_came_down(
                #[trigger] after.pickups[j],
                before.pickups[i],
                after.dash.speed.value(),
                dt.value(),
            ),
{
    let p = before.pickups[i];
    let x = after.dash.player_x;
    reach_is_a_distance(p, x, view);
    lemma_left(before.pickups, x, view, i);
    let left = left_over(before.pickups, x, view, 0);
    let k = choose|k: int| 0 <= k < left.len() && left[k] == p;
    lemma_bonuses_of_race(before, after, dt, view, input, dice);
    lemma_bonus_rolls(left, after.dash.speed, dt, view, k);
    let kept = rolled(left, dt, rows_in(after.dash.speed, dt), view);
    let j = choose|j: int|
        0 <= j < kept.len() && bonus_came_down(#[trigger] kept[j], left[k], after.dash.speed.value(), dt.value());
    assert(after.pickups[j] == kept[j]);
}

proof fn lemma_bonuses_of_race(
    before: GameModel,
    after: GameModel,
    dt: Num,
    view: Area,
    input: Input,
    dice: Dice,
)
    requires
        after.stepped(before, dt, view, input, dice),
        before.dash.state is Running,
        after.dash.state is Running,
    ensures
        lasting_bonuses(
            after.pickups,
            rolled(left_over(before.pickups, after.dash.player_x, view, 0), dt, rows_in(after.dash.speed, dt), view),
        ),
{
    let now = before.ticked(dt);
    let met = now.raced_on(dt, view, input, dice);
    if now.gets_hit(dt, view, input, dice) {
        crate::course::lemma_smash(after, now, dt, view, input, dice);
    } else {
        let things = lemma_rolled(after, met, dt, view, dice);
        lemma_same_speed(after, met, dt, view, dice);
        crate::promises::lemma_race_goes_on(now, dt, view, input, dice);
    }
}

/// The share of the pause between cars that the speed leaves, in hundredths: 145 less 65 for
/// the top speed, between 60 and 150.
pub proof fn pauses_are_shorter_at_speed(speed: Num, d: Difficulty)
    requires
        0 <= speed.value() <= 500 * one(),
    ensures
        ({
            let o = one();
            let top = top_of(d);
            let exact = within(145 * (top * o) - 65 * speed.value(), 60 * (top * o), 150 * (top * o));
            1_000_000 * size(100 * (top * density(speed, d).value()) - exact) <= 1000 * o
        }),
{
    let o = one();
    let v = speed.value();
    let top = top_of(d);
    let k: int = 9_007_199_254_740_992;
    lemma_pow2_pos(1074);
    crate::measure::lemma_one_is_many();
    assert(d.top() == top);
    whole_numbers_are_exact(top as i32);
    let t = top * o;
    assert(160 * o <= t <= 265 * o) by (nonlinear_arith)
        requires
            160 <= top <= 265,
            t == top * o,
            o > 0,
    ;
    assert(0 <= v * o <= 500 * (o * o)) by (nonlinear_arith)
        requires
            0 <= v <= 500 * o,
            o > 0,
    ;
    assert(size(v * o) <= 0x1_0000_0000_0000_0000_0000_0000_0000_0000int * (t * o)) by (nonlinear_arith)
        requires
            0 <= v * o <= 500 * (o * o),
            160 * o <= t,
            o > 0,
    ;
    crate::measure::results_are_near(v * o, t as nat);
    let share = speed.spec_over(Num::spec_whole(top));
    let q = share.value();
    let e = q * top - v;
    assert(q * t - v * o == e * o) by (nonlinear_arith)
        requires
            t == top * o,
            e == q * top - v,
    ;
    assert(k * size(e * o) <= 501 * (o * o)) by (nonlinear_arith)
        requires
            k * size(e * o) <= v * o + 4_503_599_627_370_496 * t,
            0 <= v * o <= 500 * (o * o),
            t <= 265 * o,
            o >= 0x10_0000_0000_0000_0000_0000,
    ;
    assert(k * size(e) <= 501 * o) by (nonlinear_arith)
        requires
            k * size(e * o) <= 501 * (o * o),
            o > 0,
            k > 0,
    ;
    assert(1_000_000_000 * size(e) <= o) by (nonlinear_arith)
        requires
            k * size(e) <= 501 * o,
            k == 9_007_199_254_740_992,
            o > 0,
            size(e) >= 0,
    ;
    assert(size(q) <= 4 * o) by (nonlinear_arith)
        requires
            1_000_000_000 * size(q * top - v) <= o,
            0 <= v <= 500 * o,
            160 <= top,
            o > 0,
    ;
    parts_are_near(65, 100, share, 4);
    lemma_fraction(145, 100);
    lemma_fraction(6, 10);
    lemma_fraction(15, 10);
    let less = Num::spec_ratio(65, 100).spec_times(share);
    sums_are_near(Num::spec_ratio(145, 100), less);
    let rest = Num::spec_ratio(145, 100).spec_minus(less);
    crate::handling::lemma_limits(rest, Num::spec_ratio(6, 10), Num::spec_ratio(15, 10));
    let r = rest.value();
    let dens = density(speed, d).value();
    assert(1_000_000_000 * size(100 * r - (145 * o - 65 * q)) <= 200 * o);
    let whole = within(145 * o - 65 * q, 60 * o, 150 * o);
    assert(1_000_000_000 * size(100 * dens - whole) <= 400 * o);
    lemma_topped(dens, whole, q, v, top, o);
}

proof fn lemma_topped(dens: int, whole: int, q: int, v: int, top: int, o: int)
    requires
        o > 0,
        160 <= top <= 265,
        1_000_000_000 * size(q * top - v) <= o,
        whole == within(145 * o - 65 * q, 60 * o, 150 * o),
        1_000_000_000 * size(100 * dens - whole) <= 400 * o,
    ensures
        1_000_000 * size(100 * (top * dens) - within(145 * (top * o) - 65 * v, 60 * (top * o), 150 * (top * o))) <= 1000 * o,
{
    let t = top * o;
    let a = top * whole;
    let b = top * dens;
    let c = q * top;
    assert(1_000_000_000 * size(100 * b - a) <= 106_000 * o) by (nonlinear_arith)
        requires
            1_000_000_000 * size(100 * dens - whole) <= 400 * o,
            160 <= top <= 265,
            a == top * whole,
            b == top * dens,
            o > 0,
    ;
    assert(a == within(145 * t - 65 * c, 60 * t, 150 * t)) by (nonlinear_arith)
        requires
            whole == within(145 * o - 65 * q, 60 * o, 150 * o),
            a == top * whole,
            t == top * o,
            c == q * top,
            top > 0,
            o > 0,
    ;
    assert(t > 0) by (nonlinear_arith)
        requires
            t == top * o,
            top > 0,
            o > 0,
    ;
}

/// In a race the timers of the traffic, the bonuses and the scenery run down, and each is set
/// anew when it is up: that of the traffic to the pause that was drawn, times the share that
/// the speed leaves of it.
pub proof fn timers_run_down(
    before: GameModel,
    after: GameModel,
    dt: Num,
    view: Area,
    input: Input,
    dice: Dice,
)
    requires
        after.stepped(before, dt, view, input, dice),
        before.dash.state is Running,
        after.dash.state is Running,
        size(before.dash.spawn_t.value()) <= 1_000_000 * one(),
        size(before.dash.pickup_t.value()) <= 1_000_000 * one(),
        size(before.dash.scenery_t.value()) <= 1_000_000 * one(),
        size(dt.value()) <= 1_000_000 * one(),
    ensures
        ({
            let (b, a) = (before.dash, after.dash);
            let d = dt.value();
            &&& b.spawn_t.value() > d ==> close(a.spawn_t.value(), b.spawn_t.value() - d)
            &&& b.spawn_t.value() <= d ==> a.spawn_t == dice.gap.spec_times(density(a.speed, b.diff))
            &&& b.pickup_t.value() > d ==> close(a.pickup_t.value(), b.pickup_t.value() - d)
            &&& b.pickup_t.value() <= d ==> a.pickup_t == dice.bonus_gap
            &&& b.scenery_t.value() > d ==> close(a.scenery_t.value(), b.scenery_t.value() - d)
            &&& b.scenery_t.value() <= d ==> a.scenery_t == dice.sprout.next
        }),
{
    let now = before.ticked(dt);
    let met = now.raced_on(dt, view, input, dice);
    lemma_zero();
    sums_are_near(before.dash.spawn_t, dt);
    sums_are_near(before.dash.pickup_t, dt);
    sums_are_near(before.dash.scenery_t, dt);
    lemma_sign_of_difference(before.dash.spawn_t, dt);
    lemma_sign_of_difference(before.dash.pickup_t, dt);
    lemma_sign_of_difference(before.dash.scenery_t, dt);
    if now.gets_hit(dt, view, input, dice) {
        crate::course::lemma_smash(after, now, dt, view, input, dice);
    } else {
        let things = lemma_rolled(after, met, dt, view, dice);
        lemma_same_speed(after, met, dt, view, dice);
        lemma_timers_last(now, dt, view, input, dice);
    }
}

proof fn lemma_timers_last(now: GameModel, dt: Num, view: Area, input: Input, dice: Dice)
    ensures
        ({
            let met = now.raced_on(dt, view, input, dice);
            &&& met.dash.spawn_t == now.dash.spawn_t
            &&& met.dash.pickup_t == now.dash.pickup_t
            &&& met.dash.scenery_t == now.dash.scenery_t
            &&& met.dash.diff == now.dash.diff
        }),
{
    let ridden = now.ridden(dt, input, dice.dust, view);
    assert(ridden.dash.spawn_t == now.dash.spawn_t && ridden.dash.pickup_t == now.dash.pickup_t
        && ridden.dash.scenery_t == now.dash.scenery_t && ridden.dash.diff == now.dash.diff) by {
        reveal(GameModel::ridden);
    }
    reveal(GameModel::encountered);
}

/// Whether one of the floating texts says something in a colour, and is new.
pub open spec fn says(floats: Seq<Caption>, text: Seq<char>, hue: Rgb) -> bool {
    exists|j: int|
        0 <= j < floats.len() && (#[trigger] floats[j]).text == text && floats[j].color == hue && size(
            floats[j].t.value(),
        ) <= 2 * one()
}

/// The words for the near miss that makes the combo `n`: a hundred points and sixty for each
/// of the combo.
pub open spec fn close_words(n: nat) -> Seq<char> {
    let points = seq!['+'] + decimal(100 + 60 * n) + seq![' ', 'C', 'L', 'O', 'S', 'E', '!'];
    if n > 1 {
        points + seq![' ', 'x'] + decimal(n)
    } else {
        points
    }
}

/// A new text among those of a step is said after it.
proof fn lemma_said(floats: Seq<Caption>, dt: Num, i: int)
    requires
        0 <= i < floats.len(),
        floats[i].t.value() == 0,
        size(floats[i].y.value()) <= 1_000_000 * one(),
        0 <= dt.value() <= one(),
    ensures
        says(moved_texts(floats, dt), floats[i].text, floats[i].color),
{
    lemma_pow2_pos(1074);
    lemma_rise(floats, dt, i);
    let kept = moved_texts(floats, dt);
    let j = choose|j: int| 0 <= j < kept.len() && rose(#[trigger] kept[j], floats[i], dt.value());
    assert(kept[j].text == floats[i].text);
}

/// Whom the texts of a step are about.
proof fn lemma_texts_of_step(now: GameModel, dt: Num, view: Area, input: Input, dice: Dice, k: int, m: int)
    ensures
        ({
            let ridden = now.ridden(dt, input, dice.dust, view);
            let ahead = ridden.swaying(dt, dice.sines@, view);
            let met = now.raced_on(dt, view, input, dice);
            let floats = met.gleaned(dt, view, dice).floats;
            let near = ahead.near_ones(view);
            let taken = met.thinned(view, -60).catch(view);
            let r = ridden.floats.len();
            &&& floats.len() == r + near.len() + taken.len()
            &&& 0 <= k < near.len() ==> floats[r + k] == close_caption(
                ahead.traffic[near[k] as int].x,
                ridden.dash.combo + k + 1,
                view,
            )
            &&& 0 <= m < taken.len() ==> floats[r + near.len() + m] == haul_caption(taken[m])
            &&& forall|j: int| #![trigger floats[j]] 0 <= j < r ==> floats[j] == ridden.floats[j]
        }),
{
    reveal(GameModel::encountered);
}

proof fn lemma_words(n: nat)
    ensures
        close_text(n as int) == close_words(n),
{
    reveal_strlit(" CLOSE!");
    reveal_strlit(" x");
    assert(" CLOSE!"@ =~= seq![' ', 'C', 'L', 'O', 'S', 'E', '!']);
    assert(" x"@ =~= seq![' ', 'x']);
}

/// In a race that goes on every near miss is called out, with the points that it is worth.
pub proof fn near_misses_are_called_out(
    before: GameModel,
    after: GameModel,
    dt: Num,
    view: Area,
    input: Input,
    dice: Dice,
    k: nat,
)
    requires
        before.dash.state is Running,
        after.dash.state is Running,
        before.wf(),
        before.counts_misses(),
        after.stepped(before, dt, view, input, dice),
        size(before.dash.combo_t.value()) <= 1_000_000 * one(),
        0 <= dt.value() <= one(),
        1 <= k <= after.dash.near_misses - before.dash.near_misses,
    ensures
        says(after.floats, close_words((combo_left(before, dt) + k) as nat), color(255, 225, 90)),
{
    let now = before.ticked(dt);
    let met = now.raced_on(dt, view, input, dice);
    let ridden = now.ridden(dt, input, dice.dust, view);
    let floats = met.gleaned(dt, view, dice).floats;
    let i = ridden.floats.len() + k - 1;
    lemma_pow2_pos(1074);
    lemma_zero();
    lemma_misses_of_step(before, after, dt, view, input, dice);
    lemma_texts_of_step(now, dt, view, input, dice, k - 1, 0);
    lemma_words((combo_left(before, dt) + k) as nat);
    let o = one();
    let row = view.height - 10;
    whole_numbers_are_exact(row as i32);
    assert(size(row * o) <= 70_000 * o) by (nonlinear_arith)
        requires
            -10 <= row <= 65535,
            o > 0,
    ;
    assert(player_row(view) - 2 == row);
    lemma_said(floats, dt, i);
    lemma_floats_of_race(before, after, dt, view, input, dice);
}

proof fn lemma_floats_of_race(before: GameModel, after: GameModel, dt: Num, view: Area, input: Input, dice: Dice)
    requires
        before.dash.state is Running,
        after.dash.state is Running,
        after.stepped(before, dt, view, input, dice),
    ensures
        after.floats == moved_texts(
            before.ticked(dt).raced_on(dt, view, input, dice).gleaned(dt, view, dice).floats,
            dt,
        ),
{
    let now = before.ticked(dt);
    if now.gets_hit(dt, view, input, dice) {
        crate::course::lemma_smash(after, now, dt, view, input, dice);
    } else {
        let things = lemma_rolled(after, now.raced_on(dt, view, input, dice), dt, view, dice);
    }
}

proof fn lemma_misses_of_step(before: GameModel, after: GameModel, dt: Num, view: Area, input: Input, dice: Dice)
    requires
        before.dash.state is Running,
        before.wf(),
        before.counts_misses(),
        after.stepped(before, dt, view, input, dice),
        size(before.dash.combo_t.value()) <= 1_000_000 * one(),
        0 <= dt.value() <= one(),
    ensures
        ({
            let ridden = before.ticked(dt).ridden(dt, input, dice.dust, view);
            let ahead = ridden.swaying(dt, dice.sines@, view);
            &&& after.dash.near_misses - before.dash.near_misses == ahead.near_ones(view).len()
            &&& ridden.dash.combo == combo_left(before, dt)
        }),
{
    let ridden = before.ticked(dt).ridden(dt, input, dice.dust, view);
    lemma_zero();
    reveal(crate::promises::dash_met);
    crate::promises::lemma_counts(before, dt, view, input, dice);
    let taken = crate::promises::lemma_after_meeting(before, after, dt, view, input, dice);
    lemma_sign_of_difference(before.dash.combo_t, dt);
    assert(ridden.dash.combo == combo_left(before, dt)) by {
        reveal(GameModel::ridden);
    }
}

/// In a race that goes on every bonus that is taken is called out.
pub proof fn bonuses_are_called_out(
    before: GameModel,
    after: GameModel,
    dt: Num,
    view: Area,
    input: Input,
    dice: Dice,
    i: int,
)
    requires
        before.dash.state is Running,
        after.dash.state is Running,
        after.stepped(before, dt, view, input, dice),
        0 <= i < before.pickups.len(),
        size(before.pickups[i].x.value()) <= 1000 * one(),
        size(before.pickups[i].y.value()) <= 1_000_000 * one(),
        size(after.dash.player_x.value()) <= 1000 * one(),
        reachable(before.pickups[i], after.dash.player_x.value(), view.height - 8, 1),
        0 <= dt.value() <= one(),
    ensures
        says(after.floats, seq!['+', '2', '5', '0', ' ', '◆'], color(255, 205, 60)),
{
    let now = before.ticked(dt);
    let met = now.raced_on(dt, view, input, dice);
    let ridden = now.ridden(dt, input, dice.dust, view);
    let near = ridden.swaying(dt, dice.sines@, view).near_ones(view);
    let floats = met.gleaned(dt, view, dice).floats;
    lemma_zero();
    reach_is_a_distance(before.pickups[i], after.dash.player_x, view);
    lemma_haul_holds(before.pickups, after.dash.player_x, view, 0, i);
    let taken = haul(before.pickups, after.dash.player_x, view, 0);
    let m = choose|m: int| 0 <= m < taken.len() && taken[m] == before.pickups[i];
    lemma_catch_of_race(before, after, dt, view, input, dice);
    lemma_texts_of_step(now, dt, view, input, dice, 0, m);
    reveal_strlit("+250 ◆");
    assert("+250 ◆"@ =~= seq!['+', '2', '5', '0', ' ', '◆']);
    lemma_said(floats, dt, ridden.floats.len() + near.len() + m);
    lemma_floats_of_race(before, after, dt, view, input, dice);
}

proof fn lemma_catch_of_race(before: GameModel, after: GameModel, dt: Num, view: Area, input: Input, dice: Dice)
    requires
        before.dash.state is Running,
        after.dash.state is Running,
        after.stepped(before, dt, view, input, dice),
    ensures
        before.ticked(dt).raced_on(dt, view, input, dice).thinned(view, -60).catch(view) == haul(
            before.pickups,
            after.dash.player_x,
            view,
            0,
        ),
{
    let now = before.ticked(dt);
    crate::promises::lemma_race_goes_on(now, dt, view, input, dice);
    if now.gets_hit(dt, view, input, dice) {
        crate::course::lemma_smash(after, now, dt, view, input, dice);
    } else {
        lemma_same_speed(after, now.raced_on(dt, view, input, dice), dt, view, dice);
    }
}

/// A bonus in reach is taken.
proof fn lemma_haul_holds(s: Seq<Pickup>, x: Num, view: Area, i: int, k: int)
    requires
        0 <= i <= k < s.len(),
        in_reach(s[k], x, view),
    ensures
        haul(s, x, view, i).contains(s[k]),
    decreases s.len() - i,
{
    let all = haul(s, x, view, i);
    let rest = haul(s, x, view, i + 1);
    if i == k {
        assert(all[all.len() - 1] == s[k]);
    } else {
        lemma_haul_holds(s, x, view, i + 1, k);
        let j = choose|j: int| 0 <= j < rest.len() && rest[j] == s[k];
        assert(all[j] == rest[j]);
    }
}

/// Behind the menu the car comes near to 88 km/h, by seven tenths of what it lacks each
/// second, and weaves by three columns about the middle of the road.
pub proof fn the_show_goes_on(
    before: GameModel,
    after: GameModel,
    dt: Num,
    view: Area,
    input: Input,
    dice: Dice,
)
    requires
        before.dash.state is Menu,
        after.stepped(before, dt, view, input, dice),
        0 <= before.dash.speed.value() <= 400 * one(),
        size(dice.sine.value()) <= one(),
        0 <= dt.value() <= one(),
    ensures
        ({
            let o = one();
            let v = before.dash.speed.value();
            let more = after.dash.speed.value() - v;
            let middle = 2 * lane_columns(view.width as int);
            &&& after.dash.state is Menu
            &&& 1_000_000 * size(10 * (more * o) - 7 * ((88 * o - v) * dt.value())) <= o * o
            &&& about(after.dash.player_x.value(), middle * o + 3 * dice.sine.value())
            &&& after.hi == before.hi
            &&& after.dash.score == before.dash.score
        }),
{
    let start = before.ticked(dt).cruising(dt, dice.sine, view);
    crate::simulation::lemma_course(before, after, dt, view, input, dice);
    lemma_show_drive(before, after, dt, view, dice);
    lemma_cruise(before.dash.speed, dt);
    lemma_weave(dice.sine, view);
}

proof fn lemma_show_drive(before: GameModel, after: GameModel, dt: Num, view: Area, dice: Dice)
    requires
        after.attracted(before.ticked(dt), dt, view, dice),
    ensures
        after.dash.speed == before.ticked(dt).cruising(dt, dice.sine, view).dash.speed,
        after.dash.player_x == before.ticked(dt).cruising(dt, dice.sine, view).dash.player_x,
        after.dash.score == before.dash.score,
{
    let start = before.ticked(dt).cruising(dt, dice.sine, view);
    let rows = rows_in(start.dash.speed, dt);
    let (a, b) = choose|a: GameModel, b: GameModel|
        #![trigger a.sprouted(start, dt, dice.sprout, view), b.spawned(a.scenery_moved(rows, view), dt, dice.gap, dice.draft, view)]
        a.sprouted(start, dt, dice.sprout, view) && b.spawned(
            a.scenery_moved(rows, view),
            dt,
            dice.gap,
            dice.draft,
            view,
        ) && after == b.flowing(dt).thinned(view, -40).idling(dt, dice.smoke, view).adrift(dt, rows, view);
    lemma_sprouts(a, start, dt, dice.sprout, view);
    lemma_joins(b, a.scenery_moved(rows, view), dt, dice.gap, dice.draft, view);
    lemma_show_ends(b, dt, view, dice, rows);
}

proof fn lemma_cruise(speed: Num, dt: Num)
    requires
        0 <= speed.value() <= 400 * one(),
        0 <= dt.value() <= one(),
    ensures
        ({
            let o = one();
            let v = speed.value();
            let to = speed.spec_plus(
                Num::spec_whole(88).spec_minus(speed).spec_times(dt).spec_times(Num::spec_ratio(7, 10)),
            ).value();
            1_000_000 * size(10 * ((to - v) * o) - 7 * ((88 * o - v) * dt.value())) <= o * o
        }),
{
    let o = one();
    let v = speed.value();
    let d = dt.value();
    lemma_pow2_pos(1074);
    whole_numbers_are_exact(88);
    sums_are_near(Num::spec_whole(88), speed);
    let lack = Num::spec_whole(88).spec_minus(speed);
    let l = lack.value();
    products_are_near(lack, dt);
    let part = lack.spec_times(dt);
    let p = part.value();
    assert(size(l * d) <= 401 * (o * o)) by (nonlinear_arith)
        requires
            size(l) <= 401 * o,
            0 <= d <= o,
            o > 0,
    ;
    assert(size(p) <= 402 * o) by (nonlinear_arith)
        requires
            1_000_000_000 * size(p * o - l * d) <= o * o,
            size(l * d) <= 401 * (o * o),
            o > 0,
    ;
    parts_are_near(7, 10, part, 402);
    let step = part.spec_times(Num::spec_ratio(7, 10));
    let q = step.value();
    sums_are_near(speed, step);
    let to = speed.spec_plus(step).value();
    let e = l - (88 * o - v);
    let f = p * o - l * d;
    let g = 10 * q - 7 * p;
    let h = (to - v) - q;
    assert(10 * ((to - v) * o) - 7 * ((88 * o - v) * d) == 10 * (h * o) + g * o + 7 * f + 7 * (e * d)) by (nonlinear_arith)
        requires
            e == l - (88 * o - v),
            f == p * o - l * d,
            g == 10 * q - 7 * p,
            h == (to - v) - q,
    ;
    assert(1_000_000_000 * size(h * o) <= o * o && 1_000_000_000 * size(g * o) <= 402 * (o * o) && 1_000_000_000 * size(
        e * d,
    ) <= o * o) by (nonlinear_arith)
        requires
            1_000_000_000 * size(h) <= o,
            1_000_000_000 * size(g) <= 402 * o,
            1_000_000_000 * size(e) <= o,
            0 <= d <= o,
            o > 0,
    ;
    assert(0 <= o * o) by (nonlinear_arith);
}

proof fn lemma_weave(sine: Num, view: Area)
    requires
        size(sine.value()) <= one(),
    ensures
        about(
            mid_road(view).spec_plus(sine.spec_times(Num::spec_whole(3))).value(),
            2 * lane_columns(view.width as int) * one() + 3 * sine.value(),
        ),
{
    let o = one();
    let w = lane_columns(view.width as int);
    lemma_pow2_pos(1074);
    whole_numbers_are_exact(3);
    multiples_are_near(3, sine);
    let s = sine.value();
    assert(s * (3 * o) == (3 * o) * s) by (nonlinear_arith);
    assert(sine.spec_times(Num::spec_whole(3)) == Num::spec_whole(3).spec_times(sine));
    assert(crate::geometry::road(view.width as int).road_w == 4 * w);
    lemma_fraction((4 * w) as i32, 2);
    sums_are_near(mid_road(view), sine.spec_times(Num::spec_whole(3)));
    let m = w * o;
    assert(4 * w * o == 4 * m && 2 * w * o == 2 * m) by (nonlinear_arith)
        requires
            m == w * o,
    ;
}

/// The tremor and the texts that driving itself gives, in a step of the race that goes on.
proof fn lemma_shaken(before: GameModel, after: GameModel, dt: Num, view: Area, input: Input, dice: Dice)
    requires
        before.dash.state is Running,
        after.dash.state is Running,
        after.stepped(before, dt, view, input, dice),
    ensures
        ({
            let on = after.dash.nitro_on;
            let x = after.dash.player_x;
            let lit = if on {
                before.dash.shake.spec_max(Num::spec_ratio(12, 100))
            } else {
                before.dash.shake
            };
            let rough = if x.key < Num::spec_ratio(16, 10).key || x.key > verge_at(view).key {
                lit.spec_max(Num::spec_ratio(3, 10))
            } else {
                lit
            };
            after.dash.shake == rough.spec_minus(Num::spec_ratio(22, 10).spec_times(dt)).spec_max(Num::spec_whole(0))
        }),
{
    let now = before.ticked(dt);
    let met = now.raced_on(dt, view, input, dice);
    if now.gets_hit(dt, view, input, dice) {
        crate::course::lemma_smash(after, now, dt, view, input, dice);
    } else {
        lemma_same_speed(after, met, dt, view, dice);
        lemma_calm_roll(after, met, dt, view, dice);
        lemma_met_shake(now, dt, view, input, dice);
    }
}

proof fn lemma_calm_roll(after: GameModel, met: GameModel, dt: Num, view: Area, dice: Dice)
    requires
        after.rolled_on(met, dt, view, dice),
    ensures
        after.dash.shake == met.dash.shake.spec_minus(Num::spec_ratio(22, 10).spec_times(dt)).spec_max(Num::spec_whole(0)),
        after.dash.nitro_on == met.dash.nitro_on,
{
    reveal(GameModel::rolled_on);
    let road = met.gleaned(dt, view, dice);
    let rows = rows_in(met.dash.speed, dt);
    let next = dice.gap.spec_times(density(met.dash.speed, met.dash.diff));
    let (a, b, c, d) = choose|a: GameModel, b: GameModel, c: GameModel, d: GameModel|
        #![trigger a.spawned(road, dt, next, dice.draft, view), b.bestowed(a, dt, dice.bonus_gap, view), c.sprouted(b, dt, dice.sprout, view), d.fumed(c.scenery_moved(rows, view), dt, dice.flames, dice.smoke, view)]
        a.spawned(road, dt, next, dice.draft, view) && b.bestowed(a, dt, dice.bonus_gap, view) && c.sprouted(
            b,
            dt,
            dice.sprout,
            view,
        ) && d.fumed(c.scenery_moved(rows, view), dt, dice.flames, dice.smoke, view) && after == d.adrift(
            dt,
            rows,
            view,
        ).calmed(Num::spec_ratio(22, 10), dt);
    lemma_joins(a, road, dt, next, dice.draft, view);
    lemma_drops(b, a, dt, dice.bonus_gap, view);
    lemma_sprouts(c, b, dt, dice.sprout, view);
    lemma_fumes(d, c.scenery_moved(rows, view), dt, view, dice);
}

proof fn lemma_met_shake(now: GameModel, dt: Num, view: Area, input: Input, dice: Dice)
    ensures
        ({
            let met = now.raced_on(dt, view, input, dice);
            let x = met.dash.player_x;
            let lit = if met.dash.nitro_on {
                now.dash.shake.spec_max(Num::spec_ratio(12, 100))
            } else {
                now.dash.shake
            };
            met.dash.shake == if x.key < Num::spec_ratio(16, 10).key || x.key > verge_at(view).key {
                lit.spec_max(Num::spec_ratio(3, 10))
            } else {
                lit
            }
        }),
{
    let rough = now.rough_ridden(dt, input, dice.dust, view);
    let ridden = now.ridden(dt, input, dice.dust, view);
    assert(ridden.dash.shake == rough.dash.shake && ridden.dash.nitro_on == rough.dash.nitro_on
        && ridden.dash.player_x == rough.dash.player_x) by {
        reveal(GameModel::ridden);
    }
    reveal(GameModel::encountered);
}

/// In a race the view calms down by 2.2 a second. It is shaken by 0.12 at least while the nitro
/// burns, and by 0.3 at least on the grass.
pub proof fn the_race_shakes_the_view(
    before: GameModel,
    after: GameModel,
    dt: Num,
    view: Area,
    input: Input,
    dice: Dice,
)
    requires
        before.dash.state is Running,
        after.dash.state is Running,
        after.stepped(before, dt, view, input, dice),
        0 <= before.dash.shake.value() <= 100 * one(),
        0 <= dt.value() <= one(),
    ensures
        ({
            let o = one();
            let x = after.dash.player_x.value();
            let h = 100 * before.dash.shake.value();
            let lit = if after.dash.nitro_on {
                larger(h, 12 * o)
            } else {
                h
            };
            let calm = |v: int| larger(v - 220 * dt.value(), 0);
            &&& on_asphalt(x, view) ==> 10_000 * size(100 * after.dash.shake.value() - calm(lit)) <= o
            &&& on_grass(x, view) ==> 10_000 * size(100 * after.dash.shake.value() - calm(larger(lit, 30 * o))) <= o
        }),
{
    lemma_pow2_pos(1074);
    lemma_shaken(before, after, dt, view, input, dice);
    crate::handling::lemma_grass(after.dash.player_x, view);
    lemma_calmed(before.dash.shake, after.dash.nitro_on, false, dt);
    lemma_calmed(before.dash.shake, after.dash.nitro_on, true, dt);
}

proof fn lemma_calmed(shake: Num, on: bool, grass: bool, dt: Num)
    requires
        0 <= shake.value() <= 100 * one(),
        0 <= dt.value() <= one(),
    ensures
        ({
            let o = one();
            let lit = if on {
                shake.spec_max(Num::spec_ratio(12, 100))
            } else {
                shake
            };
            let rough = if grass {
                lit.spec_max(Num::spec_ratio(3, 10))
            } else {
                lit
            };
            let h = 100 * shake.value();
            let l = if on {
                larger(h, 12 * o)
            } else {
                h
            };
            let r = if grass {
                larger(l, 30 * o)
            } else {
                l
            };
            let now = rough.spec_minus(Num::spec_ratio(22, 10).spec_times(dt)).spec_max(Num::spec_whole(0)).value();
            10_000 * size(100 * now - larger(r - 220 * dt.value(), 0)) <= o
        }),
{
    let lit = if on {
        shake.spec_max(Num::spec_ratio(12, 100))
    } else {
        shake
    };
    let rough = if grass {
        lit.spec_max(Num::spec_ratio(3, 10))
    } else {
        lit
    };
    lemma_pow2_pos(1074);
    lemma_fraction(12, 100);
    lemma_fraction(3, 10);
    lemma_limits(shake, Num::spec_ratio(12, 100), Num::spec_ratio(12, 100));
    lemma_limits(lit, Num::spec_ratio(3, 10), Num::spec_ratio(3, 10));
    lemma_calms(rough, 22, dt);
}

/// When the nitro catches fire in a race that goes on, a text says so.
pub proof fn nitro_is_called_out(
    before: GameModel,
    after: GameModel,
    dt: Num,
    view: Area,
    input: Input,
    dice: Dice,
)
    requires
        before.dash.state is Running,
        after.dash.state is Running,
        after.stepped(before, dt, view, input, dice),
        !before.dash.nitro_on,
        after.dash.nitro_on,
        0 <= dt.value() <= one(),
    ensures
        says(after.floats, seq!['N', 'I', 'T', 'R', 'O', '!'], color(120, 230, 255)),
{
    let now = before.ticked(dt);
    let met = now.raced_on(dt, view, input, dice);
    let floats = met.gleaned(dt, view, dice).floats;
    let i = before.floats.len() as int;
    let o = one();
    let row = view.height - 11;
    lemma_pow2_pos(1074);
    lemma_zero();
    whole_numbers_are_exact(row as i32);
    assert(size(row * o) <= 70_000 * o) by (nonlinear_arith)
        requires
            -11 <= row <= 65535,
            o > 0,
    ;
    assert(player_row(view) - 3 == row);
    reveal_strlit("NITRO!");
    assert("NITRO!"@ =~= seq!['N', 'I', 'T', 'R', 'O', '!']);
    if now.gets_hit(dt, view, input, dice) {
        crate::course::lemma_smash(after, now, dt, view, input, dice);
    } else {
        lemma_calm_roll(after, met, dt, view, dice);
        lemma_flash(now, dt, view, input, dice);
        lemma_texts_of_step(now, dt, view, input, dice, 0, 0);
        lemma_floats_of_race(before, after, dt, view, input, dice);
        lemma_said(floats, dt, i);
    }
}

proof fn lemma_flash(now: GameModel, dt: Num, view: Area, input: Input, dice: Dice)
    requires
        !now.dash.nitro_on,
        now.raced_on(dt, view, input, dice).dash.nitro_on,
    ensures
        ({
            let ridden = now.ridden(dt, input, dice.dust, view);
            let i = now.floats.len() as int;
            &&& i < ridden.floats.len()
            &&& ridden.floats[i].text == "NITRO!"@
            &&& ridden.floats[i].color == color(120, 230, 255)
            &&& ridden.floats[i].t == Num::spec_whole(0)
            &&& ridden.floats[i].y == Num::spec_whole(player_row(view) - 3)
        }),
{
    let rough = now.rough_ridden(dt, input, dice.dust, view);
    let ridden = now.ridden(dt, input, dice.dust, view);
    assert(ridden.dash.nitro_on == rough.dash.nitro_on && ridden.floats == rough.floats) by {
        reveal(GameModel::ridden);
    }
    assert(now.raced_on(dt, view, input, dice).dash.nitro_on == ridden.dash.nitro_on) by {
        reveal(GameModel::encountered);
    }
}

/// Whether a particle is another one so many seconds later, moved by its own speed and by the
/// `rows` of the road if that carries it along.
pub open spec fn drifted_on(now: Particle, was: Particle, dt: int, rows: int) -> bool {
    let o = one();
    let across = now.x.value() - was.x.value();
    let along = now.y.value() - was.y.value() - if was.scrolls {
        rows
    } else {
        0
    };
    &&& now.ch == was.ch
    &&& now.color == was.color
    &&& now.max == was.max
    &&& close(now.life.value(), was.life.value() - dt)
    &&& 100_000_000 * size(across * o - was.vx.value() * dt) <= o * o
    &&& 100_000_000 * size(along * o - was.vy.value() * dt) <= o * o
}

proof fn lemma_pushed(at: Num, v: Num, dt: Num)
    requires
        size(at.value()) <= 1_000_000 * one(),
        size(v.value()) <= 1000 * one(),
        0 <= dt.value() <= one(),
    ensures
        ({
            let o = one();
            let to = at.spec_plus(v.spec_times(dt)).value();
            &&& 300_000_000 * size((to - at.value()) * o - v.value() * dt.value()) <= o * o
            &&& size(to - at.value()) <= 1002 * o
        }),
{
    let o = one();
    lemma_pow2_pos(1074);
    products_are_near(v, dt);
    let m = v.spec_times(dt);
    let mv = m.value();
    let vd = v.value() * dt.value();
    assert(size(vd) <= 1000 * (o * o)) by (nonlinear_arith)
        requires
            size(v.value()) <= 1000 * o,
            0 <= dt.value() <= o,
            vd == v.value() * dt.value(),
    ;
    assert(size(mv) <= 1001 * o) by (nonlinear_arith)
        requires
            1_000_000_000 * size(mv * o - vd) <= o * o,
            size(vd) <= 1000 * (o * o),
            o > 0,
    ;
    sums_are_near(at, m);
    let to = at.spec_plus(m).value();
    let e = to - at.value() - mv;
    assert(1_000_000_000 * size(e * o) <= o * o) by (nonlinear_arith)
        requires
            1_000_000_000 * size(e) <= o,
            o > 0,
    ;
    assert((to - at.value()) * o == e * o + mv * o) by (nonlinear_arith)
        requires
            e == to - at.value() - mv,
    ;
    assert(0 <= o * o) by (nonlinear_arith);
}

/// When particles move on, each goes its own way and stays as long as it has life left and is
/// near the view.
pub proof fn particles_drift_on(g: GameModel, dt: Num, rows: Num, view: Area, i: int)
    requires
        0 <= i < g.particles.len(),
        size(g.particles[i].x.value()) <= 1_000_000 * one(),
        size(g.particles[i].y.value()) <= 500_000 * one(),
        size(g.particles[i].vx.value()) <= 1000 * one(),
        size(g.particles[i].vy.value()) <= 1000 * one(),
        size(g.particles[i].life.value()) <= 1_000_000 * one(),
        size(rows.value()) <= 500 * one(),
        0 <= dt.value() <= one(),
        g.particles[i].life.value() > dt.value(),
        ({
            let p = blown(g.particles[i], dt, rows);
            -(8 * one()) < p.y.value() < (view.height + 6) * one()
        }),
    ensures
        exists|j: int|
            0 <= j < g.adrift(dt, rows, view).particles.len() && drifted_on(
                #[trigger] g.adrift(dt, rows, view).particles[j],
                g.particles[i],
                dt.value(),
                rows.value(),
            ),
{
    let o = one();
    let p = g.particles[i];
    let q = blown(p, dt, rows);
    lemma_pow2_pos(1074);
    lemma_zero();
    lemma_pushed(p.x, p.vx, dt);
    lemma_pushed(p.y, p.vy, dt);
    let y = p.y.spec_plus(p.vy.spec_times(dt));
    sums_are_near(y, rows);
    sums_are_near(p.life, dt);
    lemma_sign_of_difference(p.life, dt);
    whole_numbers_are_exact(-8i32);
    assert((-8) * o == -(8 * o));
    whole_numbers_are_exact((view.height + 6) as i32);
    numbers_order_as_keys(q.y, Num::spec_whole(view.height + 6));
    numbers_order_as_keys(Num::spec_whole(-8), q.y);
    if p.scrolls {
        let e = q.y.value() - y.value() - rows.value();
        assert(1_000_000_000 * size(e * o) <= o * o) by (nonlinear_arith)
            requires
                1_000_000_000 * size(e) <= o,
                o > 0,
        ;
        let along = q.y.value() - p.y.value() - rows.value();
        let own = y.value() - p.y.value();
        assert(along * o == own * o + e * o) by (nonlinear_arith)
            requires
                along == own + e,
        ;
    }
    assert(0 <= o * o) by (nonlinear_arith);
    assert(drifted_on(q, p, dt.value(), rows.value()));
    let all = drifted(g.particles, dt, rows);
    let pick = |p: Particle| lively(p, view);
    assert(all[i] == q);
    assert(pick(all[i]));
    all.lemma_filter_contains(pick, i);
    let kept = all.filter(pick);
    let j = choose|j: int| 0 <= j < kept.len() && kept[j] == all[i];
    assert(g.adrift(dt, rows, view).particles[j] == q);
}

} // verus!
