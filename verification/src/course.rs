//! What holds of a whole step of the race, whatever is drawn in it.

use crate::arith::{
    nothing_changes_nothing, results_are_bounded, sums_grow, sums_keep_their_order, sums_keep_their_sign,
    swings_are_parts, ENDLESS,
};
use crate::dice::Dice;
use crate::drift::{lemma_filter_all, rows_in};
use crate::entities::Car;
use crate::game::{Dash, GameModel};
use crate::geometry::{center_of, mid_road, player_row, road, Area};
use crate::input::{Control, Input};
use crate::num::{fractions_have_opposites, fractions_keep_their_order, lemma_wholes_are_small, Num};
use crate::odds::is_sine;
use crate::running::{
    beyond, car_stays_between_the_edges, driving_gains, hits, lemma_speed_is_positive, length_of, points_are_never_lost,
    refuelled, speed_limit, speed_stays_within_limits, tank_stays_between_empty_and_full,
};
use crate::traffic::{in_sight, lemma_open_lanes_rise, new_car};
use vstd::prelude::*;

verus! {

/// The readings that nothing touches but driving itself.
pub(crate) open spec fn same_drive(a: Dash, b: Dash) -> bool {
    &&& a.diff == b.diff
    &&& a.sel == b.sel
    &&& a.time == b.time
    &&& a.run_t == b.run_t
    &&& a.countdown == b.countdown
    &&& a.speed == b.speed
    &&& a.top_speed == b.top_speed
    &&& a.scroll == b.scroll
    &&& a.distance == b.distance
    &&& a.new_best == b.new_best
    &&& a.player_x == b.player_x
    &&& a.player_vx == b.player_vx
    &&& a.best_combo == b.best_combo
    &&& a.near_misses == b.near_misses
    &&& a.sound == b.sound
}

/// The readings that only keys and the end of a run touch.
pub(crate) open spec fn same_run(a: GameModel, b: GameModel) -> bool {
    &&& a.hi == b.hi
    &&& a.dash.diff == b.dash.diff
    &&& a.dash.sel == b.dash.sel
    &&& a.dash.time == b.dash.time
    &&& a.dash.countdown == b.dash.countdown
    &&& a.dash.new_best == b.dash.new_best
    &&& a.dash.sound == b.dash.sound
}

/// What comes after the traffic let the car pass leaves the drive as it is.
pub(crate) proof fn lemma_roll(after: GameModel, met: GameModel, dt: Num, view: Area, dice: Dice)
    requires
        after.rolled_on(met, dt, view, dice),
    ensures
        same_drive(after.dash, met.dash),
        after.hi == met.hi,
        after.dash.state == met.dash.state,
        after.dash.nitro_on == met.dash.nitro_on,
        after.dash.combo == met.dash.combo,
        after.dash.nitro == refuelled(met.dash.nitro, met.thinned(view, -60).catch(view).len()),
        after.dash.shake.key >= 0,
        after.traffic == met.thinned(view, -60).traffic || exists|lane: int, p: int|
            0 <= lane < 4 && after.traffic == met.thinned(view, -60).traffic.push(#[trigger] new_car(lane, p, dice.draft, view)),
{
    reveal(GameModel::rolled_on);
    assert(Num::spec_whole(0).key == 0);
    let road = met.gleaned(dt, view, dice);
    assert(road.traffic == met.thinned(view, -60).traffic);
    lemma_open_lanes_rise(road.traffic, 4);
    assert(same_drive(road.dash, met.dash));
}

/// A crash leaves the drive as it is.
pub(crate) proof fn lemma_smash(after: GameModel, before: GameModel, dt: Num, view: Area, input: Input, dice: Dice)
    requires
        after.smashed(before, dt, view, input, dice),
    ensures
        same_drive(after.dash, before.raced_on(dt, view, input, dice).dash),
        after.hi == before.raced_on(dt, view, input, dice).hi,
        after.traffic == before.raced_on(dt, view, input, dice).traffic,
        after.dash.nitro == before.raced_on(dt, view, input, dice).dash.nitro,
        after.dash.state is Crashing,
        after.dash.combo == 0,
        !after.dash.nitro_on,
        after.dash.shake.key >= 0,
{
    fractions_keep_their_order(0, 1, 13, 10);
    assert(Num::spec_whole(0).key == 0);
}

/// Meeting the traffic changes only what near misses count.
pub(crate) proof fn lemma_meet(before: GameModel, dt: Num, view: Area, input: Input, dice: Dice)
    ensures
        ({
            let rough = before.rough_ridden(dt, input, dice.dust, view);
            let on = rough.progressed(dt);
            let met = before.raced_on(dt, view, input, dice);
            &&& same_run(met, before)
            &&& met.dash.state == before.dash.state
            &&& met.dash.run_t == before.dash.run_t.spec_plus(dt)
            &&& met.dash.speed == rough.dash.speed
            &&& met.dash.top_speed == on.dash.top_speed
            &&& met.dash.scroll == on.dash.scroll
            &&& met.dash.distance == on.dash.distance
            &&& met.dash.player_x == rough.dash.player_x
            &&& met.dash.player_vx == rough.dash.player_vx
            &&& met.dash.nitro == rough.dash.nitro
            &&& met.dash.nitro_on == rough.dash.nitro_on
            &&& rough.dash.top_speed == before.dash.top_speed
            &&& rough.dash.scroll == before.dash.scroll
            &&& rough.dash.distance == before.dash.distance
            &&& rough.dash.score == before.dash.score
            &&& rough.dash.diff == before.dash.diff
        }),
{
    reveal(GameModel::ridden);
    reveal(GameModel::encountered);
}

/// Filling up keeps the tank between empty and full.
proof fn lemma_refuelling(nitro: Num, n: nat)
    requires
        0 <= nitro.key <= Num::spec_whole(1).key,
    ensures
        0 <= refuelled(nitro, n).key <= Num::spec_whole(1).key,
    decreases n,
{
    if n > 0 {
        let before = refuelled(nitro, (n - 1) as nat);
        lemma_refuelling(nitro, (n - 1) as nat);
        fractions_keep_their_order(0, 1, 35, 100);
        assert(Num::spec_whole(0).key == 0);
        sums_keep_their_sign(before, Num::spec_ratio(35, 100));
    }
}

/// The car after it was steered, fuelled and braked.
proof fn lemma_rough(before: GameModel, dt: Num, input: Input, dust: (Num, Num), view: Area)
    requires
        dt.key >= 0,
        0 <= before.dash.nitro.key <= Num::spec_whole(1).key,
    ensures
        ({
            let d = before.rough_ridden(dt, input, dust, view).dash;
            &&& Num::spec_ratio(-12, 10).key <= d.player_x.key <= beyond(view, 120).key
            &&& Num::spec_whole(-34).key <= d.player_vx.key <= Num::spec_whole(34).key
            &&& 0 <= d.nitro.key <= Num::spec_whole(1).key
            &&& Num::spec_whole(32).key <= d.speed.key <= Num::spec_whole(
                speed_limit(before.dash.diff, d.nitro_on),
            ).key
        }),
{
    let now = before.dash.time;
    let steered = before.run_timed(dt).steered(input.direction(now), dt);
    let placed = steered.settled(dt, view);
    let wanted = input.holds(Control::Nitro, now);
    let burned = placed.burned(wanted, dt, view);
    let paced = burned.paced(input.pull(now), dt);
    assert(Num::spec_whole(0).key == 0);
    fractions_keep_their_order(-34i32, 1, 0, 1);
    fractions_keep_their_order(0, 1, 34, 1);
    car_stays_between_the_edges(steered, dt, view);
    tank_stays_between_empty_and_full(placed, wanted, dt, view);
    speed_stays_within_limits(burned, input.pull(now), dt);
    fractions_keep_their_order(32, 1, 55, 1);
    let limit = speed_limit(before.dash.diff, burned.dash.nitro_on) as i32;
    fractions_keep_their_order(55, 1, limit, 1);
    lemma_wholes_are_small(85);
    lemma_wholes_are_small(limit as nat);
    lemma_wholes_are_small(32);
    sums_keep_their_sign(Num::spec_whole(85), dt);
    sums_grow(paced.dash.speed, Num::spec_whole(85).spec_times(dt));
}

/// In a step of the race the car stays between the edges of the road, its sideways speed
/// within what the wheel gives, the tank between empty and full and the speed within what
/// the intensity allows, with 55 km/h more for the nitro; the view never shakes less than not
/// at all.
pub proof fn a_race_stays_within_bounds(
    before: GameModel,
    after: GameModel,
    dt: Num,
    view: Area,
    input: Input,
    dice: Dice,
)
    requires
        dt.key >= 0,
        0 <= before.dash.nitro.key <= Num::spec_whole(1).key,
        after.ran(before, dt, view, input, dice),
    ensures
        Num::spec_ratio(-12, 10).key <= after.dash.player_x.key <= beyond(view, 120).key,
        Num::spec_whole(-34).key <= after.dash.player_vx.key <= Num::spec_whole(34).key,
        0 <= after.dash.nitro.key <= Num::spec_whole(1).key,
        after.dash.shake.key >= 0,
        Num::spec_whole(32).key <= after.dash.speed.key <= Num::spec_whole(before.dash.diff.top() + 55).key,
        after.dash.state !is Crashing && !after.dash.nitro_on ==> after.dash.speed.key <= Num::spec_whole(
            before.dash.diff.top(),
        ).key,
{
    let met = before.raced_on(dt, view, input, dice);
    lemma_rough(before, dt, input, dice.dust, view);
    lemma_meet(before, dt, view, input, dice);
    let top = before.dash.diff.top();
    fractions_keep_their_order(top as i32, 1, (top + 55) as i32, 1);
    if before.gets_hit(dt, view, input, dice) {
        lemma_smash(after, before, dt, view, input, dice);
    } else {
        lemma_roll(after, met, dt, view, dice);
        lemma_refuelling(met.dash.nitro, met.thinned(view, -60).catch(view).len());
    }
}

/// In a step of the race nothing that is counted falls: neither the score, the distance and
/// the rows that scrolled past, nor the best combo and the near misses. The top speed is the
/// highest one so far, and the clock of the run gains the step. Best scores, intensities and
/// sound stay.
pub proof fn a_race_only_gains(
    before: GameModel,
    after: GameModel,
    dt: Num,
    view: Area,
    input: Input,
    dice: Dice,
)
    requires
        before.wf(),
        before.counts_misses(),
        -ENDLESS <= before.dash.score.key <= ENDLESS,
        -ENDLESS <= before.dash.distance.key <= ENDLESS,
        -ENDLESS <= before.dash.scroll.key <= ENDLESS,
        dt.key >= 0,
        after.ran(before, dt, view, input, dice),
    ensures
        after.dash.score.key >= before.dash.score.key,
        after.dash.distance.key >= before.dash.distance.key,
        after.dash.scroll.key >= before.dash.scroll.key,
        after.dash.top_speed == before.dash.top_speed.spec_max(after.dash.speed),
        after.dash.best_combo >= before.dash.best_combo,
        after.dash.best_combo >= after.dash.combo,
        after.dash.near_misses >= before.dash.near_misses,
        after.dash.run_t == before.dash.run_t.spec_plus(dt),
        after.hi == before.hi,
        after.dash.new_best == before.dash.new_best,
        after.dash.diff == before.dash.diff,
        after.dash.sel == before.dash.sel,
        after.dash.sound == before.dash.sound,
        after.dash.time == before.dash.time,
        after.dash.countdown == before.dash.countdown,
{
    let rough = before.rough_ridden(dt, input, dice.dust, view);
    let ahead = before.ridden(dt, input, dice.dust, view).swaying(dt, dice.sines@, view);
    let met = before.raced_on(dt, view, input, dice);
    lemma_meet(before, dt, view, input, dice);
    lemma_speed_is_positive(before, dt, input, dice.dust, view);
    driving_gains(rough, dt);
    let speed = rough.dash.speed;
    fractions_keep_their_order(0, 1, 11, 100);
    assert(Num::spec_whole(0).key == 0);
    sums_keep_their_sign(speed, Num::spec_ratio(11, 100));
    sums_keep_their_sign(speed.spec_times(Num::spec_ratio(11, 100)), dt);
    sums_grow(before.dash.scroll, rows_in(speed, dt));
    points_are_never_lost(before, after, dt, view, input, dice);
    lemma_misses(before, dt, view, input, dice);
    if before.gets_hit(dt, view, input, dice) {
        lemma_smash(after, before, dt, view, input, dice);
    } else {
        lemma_roll(after, met, dt, view, dice);
    }
}

/// Near misses and combos only rise while the traffic is met.
proof fn lemma_misses(before: GameModel, dt: Num, view: Area, input: Input, dice: Dice)
    requires
        before.wf(),
        before.counts_misses(),
    ensures
        ({
            let met = before.raced_on(dt, view, input, dice);
            &&& met.dash.best_combo >= before.dash.best_combo
            &&& met.dash.best_combo >= met.dash.combo
            &&& met.dash.near_misses >= before.dash.near_misses
        }),
{
    let ridden = before.ridden(dt, input, dice.dust, view);
    let ahead = ridden.swaying(dt, dice.sines@, view);
    assert(ridden.traffic == before.traffic && ridden.dash.combo <= before.dash.combo
        && ridden.dash.best_combo == before.dash.best_combo && ridden.dash.near_misses
        == before.dash.near_misses) by {
        reveal(GameModel::ridden);
    }
    reveal(GameModel::encountered);
    crate::running::lemma_grazes_len(
        ahead.traffic,
        ahead.dash.player_x,
        ahead.dash.speed,
        view,
        ahead.traffic.len() as int,
    );
}

/// A car that has just joined touches nobody.
proof fn lemma_new_cars_are_far(lane: int, p: int, draft: crate::dice::Draft, x: Num, view: Area)
    requires
        view.height >= 8,
    ensures
        !hits(new_car(lane, p, draft, view), x, view),
{
    let c = new_car(lane, p, draft, view);
    let row = Num::spec_whole(player_row(view));
    let slack = Num::spec_ratio(7, 10);
    assert(Num::spec_whole(0).key == 0);
    fractions_keep_their_order(0, 1, 7, 10);
    fractions_keep_their_order(0, 1, player_row(view) as i32, 1);
    sums_keep_their_sign(row, slack);
    fractions_keep_their_order(length_of(c) as i32, 1, 10, 1);
    sums_keep_their_order(c.y, Num::spec_whole(length_of(c)), Num::spec_whole(10));
    crate::num::whole_numbers_are_exact(-10i32);
    crate::num::whole_numbers_are_exact(10);
    crate::num::whole_numbers_are_exact(0);
    assert(c.y.spec_plus(Num::spec_whole(10)).key == 0) by {
        crate::arith::lemma_nothing_is_nothing();
        assert(-10 * crate::rounding::one() + 10 * crate::rounding::one() == 0) by (nonlinear_arith);
    }
}

/// A step of the race goes on with it or ends it in a crash, and it ends it if and only if a
/// car of the traffic then touches the player's.
pub proof fn a_race_ends_when_a_car_is_touched(
    before: GameModel,
    after: GameModel,
    dt: Num,
    view: Area,
    input: Input,
    dice: Dice,
)
    requires
        before.dash.state is Running,
        view.height >= 8,
        after.ran(before, dt, view, input, dice),
    ensures
        after.dash.state is Running || after.dash.state is Crashing,
        after.dash.state is Crashing <==> after.is_hit(view),
{
    let ahead = before.ridden(dt, input, dice.dust, view).swaying(dt, dice.sines@, view);
    let met = before.raced_on(dt, view, input, dice);
    let x = met.dash.player_x;
    lemma_meet(before, dt, view, input, dice);
    assert(met.traffic.len() == ahead.traffic.len() && met.dash.player_x == ahead.dash.player_x && forall|i: int|
        #![trigger met.traffic[i]]
        0 <= i < met.traffic.len() ==> hits(met.traffic[i], x, view) == hits(ahead.traffic[i], x, view)) by {
        reveal(GameModel::encountered);
    }
    if before.gets_hit(dt, view, input, dice) {
        lemma_smash(after, before, dt, view, input, dice);
        let i = choose|i: int| #![trigger ahead.traffic[i]]
            0 <= i < ahead.traffic.len() && hits(ahead.traffic[i], ahead.dash.player_x, view);
        assert(hits(met.traffic[i], x, view));
        assert(hits(after.traffic[i], x, view));
    } else {
        lemma_roll(after, met, dt, view, dice);
        let safe = |c: Car| !hits(c, x, view);
        assert forall|i: int| #![trigger met.traffic[i]] 0 <= i < met.traffic.len() implies safe(met.traffic[i]) by {
            assert(!hits(ahead.traffic[i], x, view));
        }
        lemma_filter_all(met.traffic, |c: Car| in_sight(c, view, -60), safe);
        let left = met.thinned(view, -60).traffic;
        assert forall|i: int| #![trigger after.traffic[i]] 0 <= i < after.traffic.len() implies !hits(
            after.traffic[i],
            x,
            view,
        ) by {
            if i < left.len() {
                assert(after.traffic[i] == left[i]);
                assert(safe(left[i]));
            } else {
                let (lane, p) = choose|lane: int, p: int|
                    after.traffic == left.push(#[trigger] new_car(lane, p, dice.draft, view));
                lemma_new_cars_are_far(lane, p, dice.draft, x, view);
            }
        }
    }
}

/// In the show behind the menu the car stays within three columns of the middle of the road.
pub proof fn the_show_stays_in_the_middle(before: GameModel, after: GameModel, dt: Num, view: Area, dice: Dice)
    requires
        after.attracted(before, dt, view, dice),
        is_sine(dice.sine),
    ensures
        mid_road(view).spec_plus(Num::spec_whole(-3)).key <= after.dash.player_x.key <= mid_road(view).spec_plus(
            Num::spec_whole(3),
        ).key,
{
    let swing = dice.sine.spec_times(Num::spec_whole(3));
    assert(after.dash.player_x == mid_road(view).spec_plus(swing));
    lemma_wholes_are_small(3);
    fractions_keep_their_order(0, 1, 3, 1);
    assert(Num::spec_whole(0).key == 0);
    swings_are_parts(dice.sine, Num::spec_whole(3));
    fractions_have_opposites(3, 1);
    sums_keep_their_order(mid_road(view), Num::spec_whole(-3), swing);
    sums_keep_their_order(mid_road(view), swing, Num::spec_whole(3));
}

/// Whether a car is within its sway of the middle of its lane.
pub open spec fn keeps_its_lane(c: Car, view: Area) -> bool {
    let middle = center_of(road(view.width as int), c.lane as int);
    middle.spec_plus(Num::spec_ratio(-22, 100)).key <= c.x.key <= middle.spec_plus(Num::spec_ratio(22, 100)).key
}

/// A car in the middle of its lane, or swaying about it, keeps its lane.
proof fn lemma_keeps_lane(c: Car, sine: Num, view: Area)
    requires
        is_sine(sine),
        ({
            let middle = center_of(road(view.width as int), c.lane as int);
            c.x == middle || c.x == middle.spec_plus(sine.spec_times(Num::spec_ratio(22, 100)))
        }),
    ensures
        keeps_its_lane(c, view),
{
    let g = road(view.width as int);
    let middle = center_of(g, c.lane as int);
    let wide = Num::spec_ratio(22, 100);
    let swing = sine.spec_times(wide);
    fractions_keep_their_order(0, 1, 22, 100);
    fractions_keep_their_order(22, 100, 1, 1);
    lemma_wholes_are_small(1);
    assert(Num::spec_whole(0).key == 0);
    fractions_have_opposites(22, 100);
    swings_are_parts(sine, wide);
    results_are_bounded(
        Num::spec_whole(g.lane_w as int).value() * Num::spec_whole(c.lane as int).spec_plus(
            Num::spec_ratio(1, 2),
        ).value(),
        vstd::arithmetic::power2::pow2(1074),
    );
    sums_grow(middle, wide);
    nothing_changes_nothing(middle);
    sums_keep_their_order(middle, Num::spec_ratio(-22, 100), Num { key: 0 });
    sums_keep_their_order(middle, Num::spec_ratio(-22, 100), swing);
    sums_keep_their_order(middle, swing, wide);
}

/// In a race every car stays within twenty-two hundredths of a column of the middle of its
/// lane.
pub proof fn cars_keep_to_their_lanes(
    before: GameModel,
    after: GameModel,
    dt: Num,
    view: Area,
    input: Input,
    dice: Dice,
)
    requires
        before.wf(),
        dice.fits(before),
        after.ran(before, dt, view, input, dice),
    ensures
        forall|i: int| #![trigger after.traffic[i]] 0 <= i < after.traffic.len() ==> keeps_its_lane(after.traffic[i], view),
{
    let ridden = before.ridden(dt, input, dice.dust, view);
    let ahead = ridden.swaying(dt, dice.sines@, view);
    let met = before.raced_on(dt, view, input, dice);
    assert(ridden.traffic == before.traffic) by {
        reveal(GameModel::ridden);
    }
    assert(met.traffic.len() == ahead.traffic.len() && forall|i: int| #![trigger met.traffic[i]]
        0 <= i < met.traffic.len() ==> met.traffic[i].x == ahead.traffic[i].x && met.traffic[i].lane
            == ahead.traffic[i].lane) by {
        reveal(GameModel::encountered);
    }
    let good = |c: Car| keeps_its_lane(c, view);
    assert forall|i: int| #![trigger met.traffic[i]] 0 <= i < met.traffic.len() implies good(met.traffic[i]) by {
        assert(is_sine(dice.sines@[i]));
        assert(ahead.traffic[i].lane == before.traffic[i].lane);
        lemma_keeps_lane(met.traffic[i], dice.sines@[i], view);
    }
    if before.gets_hit(dt, view, input, dice) {
        lemma_smash(after, before, dt, view, input, dice);
        assert forall|i: int| #![trigger after.traffic[i]] 0 <= i < after.traffic.len() implies keeps_its_lane(
            after.traffic[i],
            view,
        ) by {
            assert(good(met.traffic[i]));
        }
    } else {
        lemma_roll(after, met, dt, view, dice);
        lemma_filter_all(met.traffic, |c: Car| in_sight(c, view, -60), good);
        let left = met.thinned(view, -60).traffic;
        assert forall|i: int| #![trigger after.traffic[i]] 0 <= i < after.traffic.len() implies keeps_its_lane(
            after.traffic[i],
            view,
        ) by {
            if i < left.len() {
                assert(after.traffic[i] == left[i]);
                assert(good(left[i]));
            } else {
                let (lane, p) = choose|lane: int, p: int|
                    0 <= lane < 4 && after.traffic == left.push(#[trigger] new_car(lane, p, dice.draft, view));
                lemma_keeps_lane(new_car(lane, p, dice.draft, view), dice.sine, view);
            }
        }
    }
}

} // verus!
