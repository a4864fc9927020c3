//! Whom the car meets, in numbers: near misses and bonuses.

use crate::contact::{lemma_drive, lemma_sway};
use crate::course::lemma_meet;
use crate::dice::Dice;
use crate::entities::{Car, Pickup};
use crate::game::GameModel;
use crate::geometry::{player_row, Area};
use crate::handling::{bonuses_taken, sums_are_near};
use crate::input::Input;
use crate::measure::{lemma_one_is_many, size};
use crate::num::{numbers_order_as_keys, whole_numbers_are_exact, Num};
use crate::promises::{dash_met, is_moved, lemma_after_meeting, lemma_counts};
use crate::rounding::one;
use crate::running::{apart, grazed, grazes, haul, in_reach};
use vstd::arithmetic::power2::lemma_pow2_pos;
use vstd::prelude::*;

verus! {

/// How many of the numbers from 0 on below `n` have a property.
pub open spec fn how_many(f: spec_fn(int) -> bool, n: int) -> nat
    decreases n,
{
    if n <= 0 {
        0
    } else {
        how_many(f, n - 1) + if f(n - 1) {
            1nat
        } else {
            0
        }
    }
}

/// Whether a car at `y` rows and `x` columns that was not passed before has fallen behind the
/// player's car, within 6.4 columns of it and slower by more than 5 km/h, by a margin of so
/// many millionths.
pub open spec fn narrow(c: Car, y: int, x: int, player: int, speed: int, row: int, margin: int) -> bool {
    let o = one();
    &&& !c.passed
    &&& 1_000_000 * (y - (row + 5) * o) > margin * o
    &&& 1_000_000 * (64 * o - 10 * size(player - x)) > margin * o
    &&& 1_000_000 * (speed - c.speed.value() - 5 * o) > margin * o
}

/// A near miss is one by the numbers.
pub proof fn near_misses_are_narrow(c: Car, player: Num, speed: Num, view: Area)
    requires
        size(c.x.value()) <= 1000 * one(),
        size(player.value()) <= 1000 * one(),
        size(c.speed.value()) <= 10_000 * one(),
    ensures
        ({
            let (y, x) = (c.y.value(), c.x.value());
            let row = view.height - 8;
            &&& narrow(c, y, x, player.value(), speed.value(), row, 1) ==> grazed(c, player, speed, view)
            &&& grazed(c, player, speed, view) ==> narrow(c, y, x, player.value(), speed.value(), row, -1)
        }),
{
    let o = one();
    let row = view.height - 8;
    lemma_pow2_pos(1074);
    whole_numbers_are_exact((row + 5) as i32);
    whole_numbers_are_exact(5);
    numbers_order_as_keys(Num::spec_whole(row + 5), c.y);
    sums_are_near(c.speed, Num::spec_whole(5));
    numbers_order_as_keys(c.speed.spec_plus(Num::spec_whole(5)), speed);
    sums_are_near(player, c.x);
    let far = apart(player, c.x);
    crate::arith::results_are_bounded(player.value() - c.x.value(), 1);
    lemma_size_of(player.spec_minus(c.x));
    crate::handling::lemma_fraction(46, 10);
    crate::handling::lemma_fraction(18, 10);
    sums_are_near(far, Num::spec_ratio(46, 10));
    numbers_order_as_keys(far.spec_minus(Num::spec_ratio(46, 10)), Num::spec_ratio(18, 10));
}

/// The value of a number without its sign.
proof fn lemma_size_of(n: Num)
    requires
        n.key > i64::MIN,
    ensures
        n.spec_abs().value() == size(n.value()),
{
    numbers_order_as_keys(n, Num { key: 0 });
    numbers_order_as_keys(Num { key: 0 }, n);
    assert(crate::num::magnitude(0) == 0);
}

/// Where a car of the traffic is once it has moved.
proof fn lemma_moved(
    before: GameModel,
    after: GameModel,
    dt: Num,
    view: Area,
    input: Input,
    dice: Dice,
    i: int,
    y: int,
    x: int,
)
    requires
        before.dash.state is Running,
        before.wf(),
        dice.fits(before),
        after.stepped(before, dt, view, input, dice),
        0 <= i < before.traffic.len(),
        is_moved(before.traffic[i], after.dash.speed, dice.sines@[i], dt, view, y, x),
        size(before.traffic[i].y.value()) <= 1_000_000 * one(),
        size(before.traffic[i].speed.value()) <= 10_000 * one(),
        size(after.dash.speed.value()) <= 10_000 * one(),
        0 <= dt.value() <= one(),
    ensures
        ({
            let m = moved_traffic(before, dt, view, input, dice)[i];
            &&& 10_000_000 * size(m.y.value() - y) <= one()
            &&& 10_000_000 * size(m.x.value() - x) <= one()
            &&& size(m.x.value()) <= 1000 * one()
            &&& m.passed == before.traffic[i].passed
            &&& m.speed == before.traffic[i].speed
        }),
{
    let o = one();
    let now = before.ticked(dt);
    let ridden = now.ridden(dt, input, dice.dust, view);
    lemma_pow2_pos(1074);
    lemma_one_is_many();
    lemma_same_drive(before, after, dt, view, input, dice);
    reveal(moved_traffic);
    assert(ridden.traffic == before.traffic) by {
        reveal(GameModel::ridden);
    }
    let c = before.traffic[i];
    let sine = dice.sines@[i];
    assert(crate::odds::is_sine(sine));
    crate::num::fractions_have_opposites(1, 1);
    whole_numbers_are_exact(1);
    whole_numbers_are_exact(-1i32);
    numbers_order_as_keys(Num::spec_whole(-1), sine);
    numbers_order_as_keys(sine, Num::spec_whole(1));
    assert(1 * o == o && (-1) * o == -o);
    let speed = after.dash.speed;
    lemma_drive(c, speed, dt);
    lemma_sway(crate::traffic::driven(c, speed, dt), sine, dt, view);
    let m = moved_traffic(before, dt, view, input, dice)[i];
    let e = m.y.value() - y;
    assert(100 * (o * m.y.value()) - 100 * (o * y) == 100 * (o * e)) by (nonlinear_arith)
        requires
            e == m.y.value() - y,
    ;
    assert(10_000_000 * size(e) <= o) by (nonlinear_arith)
        requires
            1_000_000 * size(100 * (o * e)) <= o * o + 100_000_000 * o,
            o >= 0x10_0000_0000_0000_0000_0000,
    ;
    let w = crate::geometry::road(view.width as int).lane_w as int;
    let lane = c.lane as int;
    let q = 100 * (w * (2 * lane + 1));
    assert(0 <= q <= 5600) by (nonlinear_arith)
        requires
            0 <= w <= 8,
            0 <= lane < 4,
            q == 100 * (w * (2 * lane + 1)),
    ;
    assert(0 <= q * o <= 5600 * o) by (nonlinear_arith)
        requires
            0 <= q <= 5600,
            o > 0,
    ;
}

/// The traffic once it has moved.
#[verifier::opaque]
pub(crate) open spec fn moved_traffic(before: GameModel, dt: Num, view: Area, input: Input, dice: Dice) -> Seq<Car> {
    before.ticked(dt).ridden(dt, input, dice.dust, view).swaying(dt, dice.sines@, view).traffic
}

/// The traffic meets the car as it is after the step.
proof fn lemma_same_drive(before: GameModel, after: GameModel, dt: Num, view: Area, input: Input, dice: Dice)
    requires
        before.dash.state is Running,
        after.stepped(before, dt, view, input, dice),
    ensures
        ({
            let ridden = before.ticked(dt).ridden(dt, input, dice.dust, view);
            &&& ridden.dash.speed == after.dash.speed
            &&& ridden.dash.player_x == after.dash.player_x
        }),
{
    let now = before.ticked(dt);
    let met = now.raced_on(dt, view, input, dice);
    lemma_meet(now, dt, view, input, dice);
    if now.gets_hit(dt, view, input, dice) {
        crate::course::lemma_smash(after, now, dt, view, input, dice);
    } else {
        crate::course::lemma_roll(after, met, dt, view, dice);
    }
    reveal(GameModel::encountered);
}

proof fn lemma_grazes(traffic: Seq<Car>, x: Num, speed: Num, view: Area, n: int, f: spec_fn(int) -> bool)
    requires
        0 <= n <= traffic.len(),
        forall|i: int| 0 <= i < n ==> #[trigger] f(i) == grazed(traffic[i], x, speed, view),
    ensures
        grazes(traffic, x, speed, view, n).len() == how_many(f, n),
    decreases n,
{
    if n > 0 {
        lemma_grazes(traffic, x, speed, view, n - 1, f);
        assert(f(n - 1) == grazed(traffic[n - 1], x, speed, view));
    }
}

/// The near misses of a step are counted by those that the moved traffic gives.
proof fn lemma_misses(before: GameModel, after: GameModel, dt: Num, view: Area, input: Input, dice: Dice)
    requires
        before.dash.state is Running,
        before.wf(),
        before.counts_misses(),
        after.stepped(before, dt, view, input, dice),
        size(before.dash.combo_t.value()) <= 1_000_000 * one(),
        size(dt.value()) <= 1_000_000 * one(),
    ensures
        ({
            let cars = moved_traffic(before, dt, view, input, dice);
            &&& cars.len() == before.traffic.len()
            &&& after.dash.near_misses - before.dash.near_misses == grazes(
                cars,
                after.dash.player_x,
                after.dash.speed,
                view,
                cars.len() as int,
            ).len()
        }),
{
    reveal(moved_traffic);
    reveal(dash_met);
    lemma_counts(before, dt, view, input, dice);
    let taken = lemma_after_meeting(before, after, dt, view, input, dice);
    lemma_same_drive(before, after, dt, view, input, dice);
    assert(before.ticked(dt).ridden(dt, input, dice.dust, view).traffic == before.traffic) by {
        reveal(GameModel::ridden);
    }
}

/// A step of the race counts every car that was narrowly passed in it, and no other: where all
/// cars have moved to, given as `ys` and `xs`, each of them is one or is none for sure.
pub proof fn every_near_miss_counts(
    before: GameModel,
    after: GameModel,
    dt: Num,
    view: Area,
    input: Input,
    dice: Dice,
    ys: Seq<int>,
    xs: Seq<int>,
)
    requires
        before.dash.state is Running,
        before.wf(),
        before.counts_misses(),
        dice.fits(before),
        after.stepped(before, dt, view, input, dice),
        size(before.dash.combo_t.value()) <= 1_000_000 * one(),
        size(after.dash.player_x.value()) <= 1000 * one(),
        size(after.dash.speed.value()) <= 10_000 * one(),
        0 <= dt.value() <= one(),
        forall|i: int| #![trigger before.traffic[i]]
            0 <= i < before.traffic.len() ==> {
                let c = before.traffic[i];
                let (player, speed) = (after.dash.player_x.value(), after.dash.speed.value());
                &&& is_moved(c, after.dash.speed, dice.sines@[i], dt, view, ys[i], xs[i])
                &&& size(c.y.value()) <= 1_000_000 * one()
                &&& size(c.speed.value()) <= 10_000 * one()
                &&& narrow(c, ys[i], xs[i], player, speed, view.height - 8, 10) || !narrow(
                    c,
                    ys[i],
                    xs[i],
                    player,
                    speed,
                    view.height - 8,
                    -10,
                )
            },
    ensures
        after.dash.near_misses - before.dash.near_misses == how_many(
            |i: int|
                narrow(
                    before.traffic[i],
                    ys[i],
                    xs[i],
                    after.dash.player_x.value(),
                    after.dash.speed.value(),
                    view.height - 8,
                    0,
                ),
            before.traffic.len() as int,
        ),
{
    let o = one();
    let cars = moved_traffic(before, dt, view, input, dice);
    let x = after.dash.player_x;
    let speed = after.dash.speed;
    let row = view.height - 8;
    let f = |i: int| narrow(before.traffic[i], ys[i], xs[i], x.value(), speed.value(), row, 0);
    lemma_pow2_pos(1074);
    lemma_misses(before, after, dt, view, input, dice);
    assert forall|i: int| 0 <= i < cars.len() implies #[trigger] f(i) == grazed(cars[i], x, speed, view) by {
        let c = before.traffic[i];
        lemma_moved(before, after, dt, view, input, dice, i, ys[i], xs[i]);
        near_misses_are_narrow(cars[i], x, speed, view);
        let m = cars[i];
        lemma_margins(c, m, ys[i], xs[i], x.value(), speed.value(), row);
    }
    lemma_grazes(cars, x, speed, view, cars.len() as int, f);
}

proof fn lemma_margins(c: Car, m: Car, y: int, x: int, player: int, speed: int, row: int)
    requires
        m.passed == c.passed,
        m.speed == c.speed,
        10_000_000 * size(m.y.value() - y) <= one(),
        10_000_000 * size(m.x.value() - x) <= one(),
    ensures
        narrow(c, y, x, player, speed, row, 10) ==> narrow(m, m.y.value(), m.x.value(), player, speed, row, 1),
        narrow(c, y, x, player, speed, row, 10) ==> narrow(c, y, x, player, speed, row, 0),
        narrow(c, y, x, player, speed, row, 0) ==> narrow(c, y, x, player, speed, row, -10),
        narrow(m, m.y.value(), m.x.value(), player, speed, row, -1) ==> narrow(c, y, x, player, speed, row, -10),
{
    lemma_pow2_pos(1074);
}

/// Whether a bonus is less than 3 columns from the player's car and less than 3.2 rows from
/// its middle, by a margin of so many millionths.
pub open spec fn reachable(p: Pickup, player: int, row: int, margin: int) -> bool {
    let o = one();
    &&& 1_000_000 * (3 * o - size(p.x.value() - player)) > margin * o
    &&& 1_000_000 * (32 * o - 10 * size(p.y.value() - (row + 2) * o)) > margin * o
}

/// A bonus is in reach by the numbers.
pub proof fn reach_is_a_distance(p: Pickup, player: Num, view: Area)
    requires
        size(p.x.value()) <= 1000 * one(),
        size(p.y.value()) <= 1_000_000 * one(),
        size(player.value()) <= 1000 * one(),
    ensures
        reachable(p, player.value(), view.height - 8, 1) ==> in_reach(p, player, view),
        in_reach(p, player, view) ==> reachable(p, player.value(), view.height - 8, -1),
{
    let o = one();
    let row = view.height - 8;
    lemma_pow2_pos(1074);
    whole_numbers_are_exact((row + 2) as i32);
    whole_numbers_are_exact(3);
    let middle = Num::spec_whole(row + 2);
    assert(size((row + 2) * o) <= 70_000 * o) by (nonlinear_arith)
        requires
            -10 <= row <= 65535,
            o > 0,
    ;
    crate::handling::lemma_fraction(32, 10);
    sums_are_near(p.x, player);
    sums_are_near(p.y, middle);
    crate::arith::results_are_bounded(p.x.value() - player.value(), 1);
    crate::arith::results_are_bounded(p.y.value() - middle.value(), 1);
    lemma_size_of(p.x.spec_minus(player));
    lemma_size_of(p.y.spec_minus(middle));
    numbers_order_as_keys(apart(p.x, player), Num::spec_whole(3));
    numbers_order_as_keys(apart(p.y, middle), Num::spec_ratio(32, 10));
}

proof fn lemma_haul(s: Seq<Pickup>, x: Num, view: Area, i: int, f: spec_fn(int) -> bool)
    requires
        0 <= i <= s.len(),
        forall|j: int| 0 <= j < s.len() ==> #[trigger] f(j) == in_reach(s[j], x, view),
    ensures
        haul(s, x, view, i).len() == how_many(f, s.len() as int) - how_many(f, i),
    decreases s.len() - i,
{
    if i < s.len() {
        lemma_haul(s, x, view, i + 1, f);
        assert(f(i) == in_reach(s[i], x, view));
    }
}

proof fn lemma_catch(before: GameModel, after: GameModel, dt: Num, view: Area, input: Input, dice: Dice)
    requires
        before.dash.state is Running,
        after.stepped(before, dt, view, input, dice),
    ensures
        bonuses_taken(before, dt, view, input, dice) == haul(before.pickups, after.dash.player_x, view, 0).len(),
{
    let now = before.ticked(dt);
    reveal(bonuses_taken);
    lemma_same_drive(before, after, dt, view, input, dice);
    let ridden = now.ridden(dt, input, dice.dust, view);
    assert(ridden.pickups == before.pickups) by {
        reveal(GameModel::ridden);
    }
    reveal(GameModel::encountered);
}

/// A step of the race takes every bonus in reach of the car, and no other, where each of them
/// is in reach or is out of it for sure.
pub proof fn every_bonus_in_reach_is_taken(
    before: GameModel,
    after: GameModel,
    dt: Num,
    view: Area,
    input: Input,
    dice: Dice,
)
    requires
        before.dash.state is Running,
        after.stepped(before, dt, view, input, dice),
        size(after.dash.player_x.value()) <= 1000 * one(),
        forall|i: int| #![trigger before.pickups[i]]
            0 <= i < before.pickups.len() ==> {
                let p = before.pickups[i];
                &&& size(p.x.value()) <= 1000 * one()
                &&& size(p.y.value()) <= 1_000_000 * one()
                &&& reachable(p, after.dash.player_x.value(), view.height - 8, 1) || !reachable(
                    p,
                    after.dash.player_x.value(),
                    view.height - 8,
                    -1,
                )
            },
    ensures
        bonuses_taken(before, dt, view, input, dice) == how_many(
            |i: int| reachable(before.pickups[i], after.dash.player_x.value(), view.height - 8, 0),
            before.pickups.len() as int,
        ),
{
    let x = after.dash.player_x;
    let row = view.height - 8;
    let f = |i: int| reachable(before.pickups[i], x.value(), row, 0);
    lemma_pow2_pos(1074);
    lemma_catch(before, after, dt, view, input, dice);
    assert forall|i: int| 0 <= i < before.pickups.len() implies #[trigger] f(i) == in_reach(before.pickups[i], x, view) by {
        reach_is_a_distance(before.pickups[i], x, view);
    }
    lemma_haul(before.pickups, x, view, 0, f);
}

/// Whether a car is another one that has moved to `y` rows and `x` columns: passed once it is
/// behind the player's, and else the same.
pub open spec fn same_car(now: Car, was: Car, y: int, x: int) -> bool {
    &&& now.lane == was.lane
    &&& now.color == was.color
    &&& now.truck == was.truck
    &&& now.speed == was.speed
    &&& was.passed ==> now.passed
    &&& 10_000_000 * size(now.y.value() - y) <= one()
    &&& 10_000_000 * size(now.x.value() - x) <= one()
}

/// In a race that goes on every car moves at its own speed in its own lane, and stays until it
/// is 12 rows below the view or 60 above it. Once behind the player's car it is passed.
pub proof fn cars_stay_on_the_road(
    before: GameModel,
    after: GameModel,
    dt: Num,
    view: Area,
    input: Input,
    dice: Dice,
    i: int,
    y: int,
    x: int,
)
    requires
        before.dash.state is Running,
        after.dash.state is Running,
        before.wf(),
        dice.fits(before),
        after.stepped(before, dt, view, input, dice),
        0 <= i < before.traffic.len(),
        is_moved(before.traffic[i], after.dash.speed, dice.sines@[i], dt, view, y, x),
        size(before.traffic[i].y.value()) <= 1_000_000 * one(),
        size(before.traffic[i].speed.value()) <= 10_000 * one(),
        size(after.dash.speed.value()) <= 10_000 * one(),
        0 <= dt.value() <= one(),
        1_000_000 * ((view.height + 12) * one() - y) >= one(),
        1_000_000 * (y + 60 * one()) >= one(),
    ensures
        exists|j: int|
            0 <= j < after.traffic.len() && same_car(#[trigger] after.traffic[j], before.traffic[i], y, x) && (
            1_000_000 * (y - (view.height - 3) * one()) >= one() ==> after.traffic[j].passed),
{
    let o = one();
    let now = before.ticked(dt);
    let met = now.raced_on(dt, view, input, dice);
    lemma_pow2_pos(1074);
    lemma_moved(before, after, dt, view, input, dice, i, y, x);
    let cars = met.traffic;
    let m = moved_traffic(before, dt, view, input, dice)[i];
    lemma_met_car(before, dt, view, input, dice, i);
    whole_numbers_are_exact((view.height + 12) as i32);
    whole_numbers_are_exact(-60i32);
    whole_numbers_are_exact((view.height - 3) as i32);
    assert((-60) * o == -(60 * o));
    numbers_order_as_keys(cars[i].y, Num::spec_whole(view.height + 12));
    numbers_order_as_keys(Num::spec_whole(-60), cars[i].y);
    numbers_order_as_keys(Num::spec_whole(view.height - 3), cars[i].y);
    let pick = |c: Car| crate::traffic::in_sight(c, view, -60);
    assert(pick(cars[i]));
    cars.lemma_filter_contains(pick, i);
    let kept = cars.filter(pick);
    let j = choose|j: int| 0 <= j < kept.len() && kept[j] == cars[i];
    lemma_kept_cars(before, after, dt, view, input, dice);
    assert(after.traffic[j] == kept[j]);
    assert(same_car(after.traffic[j], before.traffic[i], y, x));
}

proof fn lemma_met_car(before: GameModel, dt: Num, view: Area, input: Input, dice: Dice, i: int)
    requires
        0 <= i < before.traffic.len(),
    ensures
        ({
            let met = before.ticked(dt).raced_on(dt, view, input, dice);
            let m = moved_traffic(before, dt, view, input, dice)[i];
            let c = before.traffic[i];
            &&& met.traffic.len() == before.traffic.len()
            &&& met.traffic[i] == (Car {
                passed: m.passed || m.y.key > Num::spec_whole(view.height - 3).key,
                ..m
            })
            &&& m.lane == c.lane && m.color == c.color && m.truck == c.truck && m.speed == c.speed
            &&& m.passed == c.passed
        }),
{
    reveal(moved_traffic);
    let ridden = before.ticked(dt).ridden(dt, input, dice.dust, view);
    assert(ridden.traffic == before.traffic) by {
        reveal(GameModel::ridden);
    }
    assert(player_row(view) + 5 == view.height - 3);
    reveal(GameModel::encountered);
}

proof fn lemma_kept_cars(before: GameModel, after: GameModel, dt: Num, view: Area, input: Input, dice: Dice)
    requires
        before.dash.state is Running,
        after.dash.state is Running,
        after.stepped(before, dt, view, input, dice),
    ensures
        ({
            let met = before.ticked(dt).raced_on(dt, view, input, dice);
            let kept = met.traffic.filter(|c: Car| crate::traffic::in_sight(c, view, -60));
            &&& kept.len() <= after.traffic.len() <= kept.len() + 1
            &&& forall|j: int| #![trigger after.traffic[j]] 0 <= j < kept.len() ==> after.traffic[j] == kept[j]
        }),
{
    let now = before.ticked(dt);
    if now.gets_hit(dt, view, input, dice) {
        crate::course::lemma_smash(after, now, dt, view, input, dice);
    } else {
        crate::course::lemma_roll(after, now.raced_on(dt, view, input, dice), dt, view, dice);
    }
}

} // verus!
