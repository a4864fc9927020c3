//! Who joins on the road, and when.

use crate::course::lemma_smash;
use crate::dice::Dice;
use crate::difficulty::Difficulty;
use crate::entities::{Car, Pickup};
use crate::game::GameModel;
use crate::geometry::Area;
use crate::handling::lemma_zero;
use crate::input::Input;
use crate::measure::size;
use crate::num::{numbers_order_as_keys, whole_numbers_are_exact, Num};
use crate::promises::{lane_columns, lemma_sign_of_difference};
use crate::rounding::one;
use crate::running::{density, is_up};
use crate::traffic::{lanes_open_below, new_car, open_lanes, taken};
use vstd::arithmetic::power2::lemma_pow2_pos;
use vstd::prelude::*;

verus! {

/// The slowest car of an intensity, in km/h.
pub open spec fn slow_of(d: Difficulty) -> int {
    match d {
        Difficulty::Chill => 50,
        Difficulty::Rush => 58,
        Difficulty::Mayhem => 66,
    }
}

/// The fastest car of an intensity, in km/h.
pub open spec fn fast_of(d: Difficulty) -> int {
    match d {
        Difficulty::Chill => 85,
        Difficulty::Rush => 105,
        Difficulty::Mayhem => 128,
    }
}

/// Whether a car has just joined at an intensity: ten rows above the view in the middle of a
/// lane, at a speed of the intensity, or four fifths of one for a truck.
pub open spec fn just_joined(c: Car, d: Difficulty, view: Area) -> bool {
    let o = one();
    let w = lane_columns(view.width as int);
    &&& c.lane < 4
    &&& !c.passed
    &&& c.y.value() == -(10 * o)
    &&& 1_000_000 * size(2 * c.x.value() - (w * (2 * c.lane + 1)) * o) <= o
    &&& !c.truck ==> 1_000_000 * (slow_of(d) * o - c.speed.value()) <= o && 1_000_000 * (c.speed.value() - fast_of(d)
        * o) <= o
    &&& c.truck ==> 100_000 * (4 * (slow_of(d) * o) - 5 * c.speed.value()) <= o && 100_000 * (5 * c.speed.value() - 4 * (
    fast_of(d) * o)) <= o
}

/// Two lanes without a car among their first twenty rows are both open.
proof fn lemma_two_lanes(traffic: Seq<Car>, a: int, b: int)
    requires
        0 <= a < b < 4,
        !taken(traffic, a, 20),
        !taken(traffic, b, 20),
    ensures
        open_lanes(traffic).len() >= 2,
{
    reveal_with_fuel(lanes_open_below, 5);
}

proof fn lemma_join(lane: int, p: int, before: GameModel, dice: Dice, view: Area)
    requires
        before.dash.state is Running,
        dice.fits(before),
        0 <= lane < 4,
    ensures
        just_joined(new_car(lane, p, dice.draft, view), before.dash.diff, view),
{
    let o = one();
    let d = before.dash.diff;
    let c = new_car(lane, p, dice.draft, view);
    lemma_pow2_pos(1074);
    whole_numbers_are_exact(-10i32);
    assert((-10) * o == -(10 * o));
    crate::contact::lemma_lane_middle(crate::geometry::road(view.width as int), lane);
    lemma_joining_speed(before, dice);
    let w = lane_columns(view.width as int);
    assert(crate::geometry::road(view.width as int).lane_w == w);
    let e = size(2 * c.x.value() - (w * (2 * lane + 1)) * o);
    assert(1_000_000 * e <= o) by (nonlinear_arith)
        requires
            9_007_199_254_740_992 * e <= 1_000 * o,
            e >= 0,
            o > 0,
    ;
}

proof fn lemma_joining_speed(before: GameModel, dice: Dice)
    requires
        before.dash.state is Running,
        dice.fits(before),
    ensures
        ({
            let o = one();
            let d = before.dash.diff;
            let v = dice.draft.speed.value();
            let t = dice.draft.speed.spec_times(Num::spec_ratio(8, 10)).value();
            &&& 1_000_000 * (slow_of(d) * o - v) <= o
            &&& 1_000_000 * (v - fast_of(d) * o) <= o
            &&& 100_000 * (4 * (slow_of(d) * o) - 5 * t) <= o
            &&& 100_000 * (5 * t - 4 * (fast_of(d) * o)) <= o
        }),
{
    let o = one();
    let d = before.dash.diff;
    let (slow, fast) = (slow_of(d), fast_of(d));
    lemma_pow2_pos(1074);
    let area = Area { x: 0, y: 0, width: 80, height: 24 };
    assert(before.governing() == d && d.slowest() == slow && d.fastest() == fast);
    let s = Num::spec_ratio(100 * slow, 100);
    let f = Num::spec_ratio(100 * fast, 100);
    crate::measure::fractions_are_near(100 * slow, 100);
    crate::measure::fractions_are_near(100 * fast, 100);
    let sv = s.value();
    let fv = f.value();
    let so = slow * o;
    let fo = fast * o;
    assert((100 * slow) * o == 100 * so && (100 * fast) * o == 100 * fo && size(100 * slow) * o == 100 * so && size(100 * fast)
        * o == 100 * fo && 0 < so <= 128 * o && 0 < fo <= 128 * o) by (nonlinear_arith)
        requires
            0 < slow <= 128,
            0 < fast <= 128,
            so == slow * o,
            fo == fast * o,
            o > 0,
    ;
    assert(1_000_000_000 * size(sv - so) <= o) by (nonlinear_arith)
        requires
            9_007_199_254_740_992 * size(sv * 100 - 100 * so) <= 100 * so,
            0 < so <= 128 * o,
            o > 0,
    ;
    assert(1_000_000_000 * size(fv - fo) <= o) by (nonlinear_arith)
        requires
            9_007_199_254_740_992 * size(fv * 100 - 100 * fo) <= 100 * fo,
            0 < fo <= 128 * o,
            o > 0,
    ;
    crate::odds::intensity_governs_the_traffic(before, dice, 0, 0, area);
    let v = dice.draft.speed;
    lemma_drafted(before, dice);
    numbers_order_as_keys(s, v);
    numbers_order_as_keys(v, f);
    crate::handling::parts_are_near(8, 10, v, 129);
}

/// The speed that was drawn for a car is one of the intensity.
proof fn lemma_drafted(before: GameModel, dice: Dice)
    requires
        before.dash.state is Running,
        dice.fits(before),
    ensures
        Num::spec_ratio(100 * before.dash.diff.slowest(), 100).key <= dice.draft.speed.key,
        dice.draft.speed.key <= Num::spec_ratio(100 * before.dash.diff.fastest(), 100).key,
{
}

/// A car joins when the timer is up and two lanes are open, and not before.
proof fn lemma_traffic_of_roll(after: GameModel, met: GameModel, dt: Num, view: Area, dice: Dice)
    requires
        after.rolled_on(met, dt, view, dice),
    ensures
        ({
            let road = met.thinned(view, -60).traffic;
            let up = is_up(met.dash.spawn_t.spec_minus(dt));
            &&& !up ==> after.traffic == road
            &&& up && open_lanes(road).len() >= 2 ==> exists|lane: int, p: int|
                0 <= lane < 4 && after.traffic == road.push(#[trigger] new_car(lane, p, dice.draft, view))
        }),
{
    reveal(GameModel::rolled_on);
    let road = met.gleaned(dt, view, dice);
    let rows = crate::drift::rows_in(met.dash.speed, dt);
    let next = dice.gap.spec_times(density(met.dash.speed, met.dash.diff));
    let (a, b, c, d) = choose|a: GameModel, b: GameModel, c: GameModel, d: GameModel|
        #![trigger a.spawned(road, dt, next, dice.draft, view), b.bestowed(a, dt, dice.bonus_gap, view), c.sprouted(b, dt, dice.sprout, view), d.fumed(c.scenery_moved(rows, view), dt, dice.flames, dice.smoke, view)]
        a.spawned(road, dt, next, dice.draft, view) && b.bestowed(a, dt, dice.bonus_gap, view) && c.sprouted(
            b,
            dt,
            dice.sprout,
            view,
        ) && d.fumed(c.scenery_moved(rows, view), dt, dice.flames, dice.smoke, view) && after == d.adrift(
            dt,
            rows,
            view,
        ).calmed(Num::spec_ratio(22, 10), dt);
    lemma_spawn(a, road, dt, next, dice, view);
    assert(b.traffic == a.traffic);
    assert(c.traffic == b.traffic);
    lemma_smoke(d, c.scenery_moved(rows, view), dt, view, dice);
}

proof fn lemma_smoke(d: GameModel, c: GameModel, dt: Num, view: Area, dice: Dice)
    requires
        d.fumed(c, dt, dice.flames, dice.smoke, view),
    ensures
        d.traffic == c.traffic,
        d.pickups == c.pickups,
{
}

proof fn lemma_spawn(a: GameModel, road: GameModel, dt: Num, next: Num, dice: Dice, view: Area)
    requires
        a.spawned(road, dt, next, dice.draft, view),
    ensures
        ({
            let up = is_up(road.dash.spawn_t.spec_minus(dt));
            &&& !up ==> a.traffic == road.traffic
            &&& up && open_lanes(road.traffic).len() >= 2 ==> exists|lane: int, p: int|
                0 <= lane < 4 && a.traffic == road.traffic.push(#[trigger] new_car(lane, p, dice.draft, view))
        }),
{
    let open = open_lanes(road.traffic);
    crate::traffic::lemma_open_lanes_rise(road.traffic, 4);
    if is_up(road.dash.spawn_t.spec_minus(dt)) && open.len() >= 2 {
        let start = road.spawn_timer(next);
        let (k, p) = choose|k: int, p: int|
            #![trigger open[k], crate::traffic::paint_of(p)]
            0 <= k < open.len() && 0 <= p < crate::traffic::PAINTS && a == start.joined(
                new_car(open[k] as int, p, dice.draft, view),
            );
        assert(a.traffic == road.traffic.push(new_car(open[k] as int, p, dice.draft, view)));
    }
}

/// Cars join a race in time: while the timer of the traffic runs none does, and when it is up
/// one does if two lanes are empty, at a speed of the intensity.
pub proof fn cars_join_in_time(
    before: GameModel,
    after: GameModel,
    dt: Num,
    view: Area,
    input: Input,
    dice: Dice,
    a: int,
    b: int,
)
    requires
        before.dash.state is Running,
        after.dash.state is Running,
        dice.fits(before),
        after.stepped(before, dt, view, input, dice),
        size(before.dash.spawn_t.value()) <= 1_000_000 * one(),
        size(dt.value()) <= 1_000_000 * one(),
        0 <= a < b < 4,
        forall|i: int| #![trigger before.traffic[i]]
            0 <= i < before.traffic.len() ==> before.traffic[i].lane != a && before.traffic[i].lane != b,
    ensures
        before.dash.spawn_t.value() > dt.value() ==> after.traffic.len() <= before.traffic.len(),
        before.dash.spawn_t.value() <= dt.value() ==> after.traffic.len() > 0 && just_joined(
            after.traffic.last(),
            before.dash.diff,
            view,
        ),
{
    let now = before.ticked(dt);
    let met = now.raced_on(dt, view, input, dice);
    lemma_zero();
    lemma_sign_of_difference(before.dash.spawn_t, dt);
    if now.gets_hit(dt, view, input, dice) {
        lemma_smash(after, now, dt, view, input, dice);
    } else {
        let road = met.thinned(view, -60).traffic;
        lemma_lanes_of_step(before, dt, view, input, dice, a, b);
        lemma_traffic_of_roll(after, met, dt, view, dice);
        lemma_two_lanes(road, a, b);
        if before.dash.spawn_t.value() <= dt.value() {
            let (lane, p) = choose|lane: int, p: int|
                0 <= lane < 4 && after.traffic == road.push(#[trigger] new_car(lane, p, dice.draft, view));
            lemma_join(lane, p, before, dice, view);
            assert(after.traffic.last() == new_car(lane, p, dice.draft, view));
        }
    }
}

proof fn lemma_lanes_of_step(before: GameModel, dt: Num, view: Area, input: Input, dice: Dice, a: int, b: int)
    requires
        forall|i: int| #![trigger before.traffic[i]]
            0 <= i < before.traffic.len() ==> before.traffic[i].lane != a && before.traffic[i].lane != b,
    ensures
        ({
            let met = before.ticked(dt).raced_on(dt, view, input, dice);
            let road = met.thinned(view, -60).traffic;
            &&& met.dash.spawn_t == before.dash.spawn_t
            &&& road.len() <= before.traffic.len()
            &&& !taken(road, a, 20)
            &&& !taken(road, b, 20)
        }),
{
    let now = before.ticked(dt);
    let ridden = now.ridden(dt, input, dice.dust, view);
    let met = now.raced_on(dt, view, input, dice);
    assert(ridden.traffic == before.traffic && ridden.dash.spawn_t == before.dash.spawn_t) by {
        reveal(GameModel::ridden);
    }
    reveal(GameModel::encountered);
    let good = |c: Car| c.lane != a && c.lane != b;
    let pick = |c: Car| crate::traffic::in_sight(c, view, -60);
    assert forall|i: int| #![trigger met.traffic[i]] 0 <= i < met.traffic.len() implies good(met.traffic[i]) by {
        assert(met.traffic[i].lane == before.traffic[i].lane);
    }
    crate::drift::lemma_filter_all(met.traffic, pick, good);
    met.traffic.lemma_filter_len(pick);
}

/// Whether a bonus was just dropped: four rows above the view, in the middle of a lane.
pub open spec fn just_dropped(p: Pickup, view: Area) -> bool {
    let o = one();
    let w = lane_columns(view.width as int);
    &&& p.y.value() == -(4 * o)
    &&& p.t.value() == 0
    &&& exists|lane: int|
        0 <= lane < 4 && 1_000_000 * size(2 * p.x.value() - (#[trigger] (w * (2 * lane + 1))) * o) <= o
}

/// A bonus is dropped when the timer is up and its lane is free, and not before.
proof fn lemma_bonuses_of_roll(after: GameModel, met: GameModel, dt: Num, view: Area, dice: Dice)
    requires
        after.rolled_on(met, dt, view, dice),
    ensures
        ({
            let road = met.gleaned(dt, view, dice);
            let up = is_up(met.dash.pickup_t.spec_minus(dt));
            let still = !is_up(met.dash.spawn_t.spec_minus(dt));
            &&& !up ==> after.pickups == road.pickups
            &&& up && still && road.traffic.len() == 0 ==> after.pickups.len() > 0 && just_dropped(
                after.pickups.last(),
                view,
            )
        }),
{
    reveal(GameModel::rolled_on);
    let road = met.gleaned(dt, view, dice);
    let rows = crate::drift::rows_in(met.dash.speed, dt);
    let next = dice.gap.spec_times(density(met.dash.speed, met.dash.diff));
    let (a, b, c, d) = choose|a: GameModel, b: GameModel, c: GameModel, d: GameModel|
        #![trigger a.spawned(road, dt, next, dice.draft, view), b.bestowed(a, dt, dice.bonus_gap, view), c.sprouted(b, dt, dice.sprout, view), d.fumed(c.scenery_moved(rows, view), dt, dice.flames, dice.smoke, view)]
        a.spawned(road, dt, next, dice.draft, view) && b.bestowed(a, dt, dice.bonus_gap, view) && c.sprouted(
            b,
            dt,
            dice.sprout,
            view,
        ) && d.fumed(c.scenery_moved(rows, view), dt, dice.flames, dice.smoke, view) && after == d.adrift(
            dt,
            rows,
            view,
        ).calmed(Num::spec_ratio(22, 10), dt);
    lemma_spawn(a, road, dt, next, dice, view);
    assert(a.pickups == road.pickups && a.dash.pickup_t == road.dash.pickup_t);
    lemma_drop(b, a, dt, dice.bonus_gap, view);
    assert(c.pickups == b.pickups);
    lemma_smoke(d, c.scenery_moved(rows, view), dt, view, dice);
}

proof fn lemma_drop(b: GameModel, a: GameModel, dt: Num, next: Num, view: Area)
    requires
        b.bestowed(a, dt, next, view),
    ensures
        ({
            let up = is_up(a.dash.pickup_t.spec_minus(dt));
            &&& !up ==> b.pickups == a.pickups
            &&& up && a.traffic.len() == 0 ==> b.pickups.len() > 0 && just_dropped(b.pickups.last(), view)
        }),
{
    let o = one();
    if is_up(a.dash.pickup_t.spec_minus(dt)) && a.traffic.len() == 0 {
        let start = a.pickup_timer(next);
        let lane = choose|lane: int|
            #![trigger a.pickup_timer(next).dropped(lane, view)]
            0 <= lane < 4 && b == a.pickup_timer(next).dropped(lane, view);
        assert(!taken(start.traffic, lane, 12));
        let way = crate::geometry::road(view.width as int);
        let w = lane_columns(view.width as int);
        let p = b.pickups.last();
        lemma_pow2_pos(1074);
        lemma_zero();
        whole_numbers_are_exact(-4i32);
        assert((-4) * o == -(4 * o));
        crate::contact::lemma_lane_middle(way, lane);
        assert(way.lane_w == w);
        let e = size(2 * p.x.value() - (w * (2 * lane + 1)) * o);
        assert(1_000_000 * e <= o) by (nonlinear_arith)
            requires
                9_007_199_254_740_992 * e <= 1_000 * o,
                e >= 0,
                o > 0,
        ;
    }
}

/// Bonuses are dropped in time: while their timer runs none is, and when it is up one is, if
/// no car is on the road.
pub proof fn bonuses_are_dropped_in_time(
    before: GameModel,
    after: GameModel,
    dt: Num,
    view: Area,
    input: Input,
    dice: Dice,
)
    requires
        before.dash.state is Running,
        after.dash.state is Running,
        after.stepped(before, dt, view, input, dice),
        size(before.dash.spawn_t.value()) <= 1_000_000 * one(),
        size(before.dash.pickup_t.value()) <= 1_000_000 * one(),
        size(dt.value()) <= 1_000_000 * one(),
    ensures
        before.dash.pickup_t.value() > dt.value() ==> after.pickups.len() <= before.pickups.len(),
        before.dash.pickup_t.value() <= dt.value() && before.dash.spawn_t.value() > dt.value() && before.traffic.len() == 0
            ==> after.pickups.len() > 0 && just_dropped(after.pickups.last(), view),
{
    let now = before.ticked(dt);
    let met = now.raced_on(dt, view, input, dice);
    lemma_zero();
    lemma_sign_of_difference(before.dash.spawn_t, dt);
    lemma_sign_of_difference(before.dash.pickup_t, dt);
    if now.gets_hit(dt, view, input, dice) {
        lemma_smash(after, now, dt, view, input, dice);
    } else {
        lemma_road_of_step(before, dt, view, input, dice);
        lemma_bonuses_of_roll(after, met, dt, view, dice);
    }
}

proof fn lemma_road_of_step(before: GameModel, dt: Num, view: Area, input: Input, dice: Dice)
    ensures
        ({
            let met = before.ticked(dt).raced_on(dt, view, input, dice);
            let road = met.gleaned(dt, view, dice);
            &&& met.dash.spawn_t == before.dash.spawn_t
            &&& met.dash.pickup_t == before.dash.pickup_t
            &&& road.traffic.len() <= before.traffic.len()
            &&& road.pickups.len() <= before.pickups.len()
        }),
{
    let now = before.ticked(dt);
    let ridden = now.ridden(dt, input, dice.dust, view);
    let met = now.raced_on(dt, view, input, dice);
    assert(ridden.traffic == before.traffic && ridden.pickups == before.pickups && ridden.dash.spawn_t
        == before.dash.spawn_t && ridden.dash.pickup_t == before.dash.pickup_t) by {
        reveal(GameModel::ridden);
    }
    reveal(GameModel::encountered);
    met.traffic.lemma_filter_len(|c: Car| crate::traffic::in_sight(c, view, -60));
    let rows = crate::drift::rows_in(met.dash.speed, dt);
    let left = crate::running::left_over(met.pickups, met.dash.player_x, view, 0);
    lemma_left_len(met.pickups, met.dash.player_x, view, 0);
    Seq::new(left.len(), |i: int| crate::traffic::rolled_by(left[i], dt, rows)).lemma_filter_len(
        |p: Pickup| p.y.key < Num::spec_whole(view.height + 6).key,
    );
}

proof fn lemma_left_len(s: Seq<Pickup>, x: Num, view: Area, i: int)
    requires
        0 <= i <= s.len(),
    ensures
        i <= crate::running::left_over(s, x, view, i).len() <= s.len(),
    decreases s.len() - i,
{
    if i < s.len() {
        lemma_left_len(s, x, view, i + 1);
    }
}

} // verus!
