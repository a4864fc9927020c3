//! What the game signals outwards: bells, best scores to keep, and the trembling of the view.

use crate::angles::Tremor;
use crate::approach::count_at;
use crate::course::{lemma_meet, lemma_roll, lemma_smash};
use crate::dice::Dice;
use crate::frame::{moved, offset, with_world};
use crate::game::GameModel;
use crate::geometry::Area;
use crate::handling::{bonuses_taken, lemma_fraction, parts_are_near, products_are_near};
use crate::input::{Control, Input};
use crate::measure::size;
use crate::num::{numbers_order_as_keys, Num};
use crate::paint::Cells;
use crate::promises::{dash_met, lemma_after_meeting, lemma_counts};
use crate::rounding::{one, rounding_goes_to_the_nearest};
use crate::sights::{char_at, every_text_is_shown, text_stands_at};
use crate::style::BOLD;
use crate::world::start_of;
use vstd::arithmetic::power2::lemma_pow2_pos;
use vstd::prelude::*;

verus! {

/// The best scores are to be written down if and only if one of them changed.
pub proof fn a_changed_best_is_written_down(
    before: GameModel,
    after: GameModel,
    dt: Num,
    view: Area,
    input: Input,
    dice: Dice,
)
    requires
        before.wf(),
        after.stepped(before, dt, view, input, dice),
    ensures
        before.asks(dt, view, input, dice).best <==> after.hi != before.hi,
{
    let end = before.ticked(dt).tumbled(dt, view, dice);
    crate::simulation::lemma_course(before, after, dt, view, input, dice);
    if before.dash.state is Crashing {
        let i = end.dash.diff.place();
        assert(end.hi == before.hi && end.dash.diff == before.dash.diff);
        if before.asks(dt, view, input, dice).best {
            assert(after.hi[i] != before.hi[i]);
        } else {
            assert(after.hi == before.hi);
        }
    }
}

/// Without sound no bell rings, and no step rings one but those of a countdown and of a race.
pub proof fn no_bell_rings_in_silence(before: GameModel, dt: Num, view: Area, input: Input, dice: Dice)
    requires
        !before.dash.sound || !(before.dash.state is Countdown || before.dash.state is Running),
    ensures
        before.asks(dt, view, input, dice).bells == 0,
{
}

/// The countdown rings once for each new number, which is what is left of it in seconds,
/// begun ones counted in full, and twice more for the start.
pub proof fn the_countdown_rings(
    before: GameModel,
    after: GameModel,
    dt: Num,
    view: Area,
    input: Input,
    dice: Dice,
)
    requires
        before.dash.state is Countdown,
        before.dash.sound,
        after.stepped(before, dt, view, input, dice),
        size(before.dash.countdown.value()) <= 1000 * one(),
        0 <= dt.value() <= one(),
    ensures
        ({
            let o = one();
            &&& before.asks(dt, view, input, dice).bells == (if after.dash.last_count != before.dash.last_count {
                1int
            } else {
                0
            }) + (if after.dash.state is Running {
                2int
            } else {
                0
            })
            &&& 0 <= after.dash.last_count * o - after.dash.countdown.value() < o
        }),
{
    let o = one();
    let left = before.dash.countdown.spec_minus(dt);
    lemma_pow2_pos(1074);
    assert(after.dash.countdown == left && after.dash.last_count == count_at(left));
    crate::handling::sums_are_near(before.dash.countdown, dt);
    rounding_goes_to_the_nearest(left);
    let c = left.spec_ceil();
    let v = left.value();
    assert(-2000 <= c <= 2000) by (nonlinear_arith)
        requires
            0 <= c * o - v < o,
            -(1002 * o) <= v <= 1002 * o,
            o > 0,
    ;
}

/// The race rings once when the nitro catches fire, once for each near miss, twice for each
/// bonus, and three times for a crash, which takes no bonus.
pub proof fn the_race_rings(
    before: GameModel,
    after: GameModel,
    dt: Num,
    view: Area,
    input: Input,
    dice: Dice,
)
    requires
        before.dash.state is Running,
        before.dash.sound,
        before.wf(),
        before.counts_misses(),
        before.traffic.len() <= 1000,
        before.pickups.len() <= 1000,
        after.stepped(before, dt, view, input, dice),
        size(before.dash.combo_t.value()) <= 1_000_000 * one(),
        size(dt.value()) <= 1_000_000 * one(),
    ensures
        ({
            let bells = before.asks(dt, view, input, dice).bells;
            let misses = after.dash.near_misses - before.dash.near_misses;
            let held = input.holds(Control::Nitro, before.dash.time.spec_plus(dt));
            &&& after.dash.state is Running ==> bells == misses + 2 * bonuses_taken(before, dt, view, input, dice)
                + if after.dash.nitro_on && !before.dash.nitro_on {
                1int
            } else {
                0
            }
            &&& after.dash.state is Crashing ==> misses + 3 <= bells <= misses + 4
            &&& after.dash.state is Crashing && (before.dash.nitro_on || !held) ==> bells == misses + 3
        }),
{
    let now = before.ticked(dt);
    let met = now.raced_on(dt, view, input, dice);
    let ahead = now.ridden(dt, input, dice.dust, view).swaying(dt, dice.sines@, view);
    lemma_counts(before, dt, view, input, dice);
    let taken = lemma_after_meeting(before, after, dt, view, input, dice);
    assert(met.dash.near_misses == after.dash.near_misses && met.thinned(view, -60).catch(view).len() <= 1000) by {
        reveal(dash_met);
        crate::promises::lemma_haul_len(met.pickups, met.dash.player_x, view, 0);
    }
    assert(bonuses_taken(before, dt, view, input, dice) == met.thinned(view, -60).catch(view).len()) by {
        reveal(bonuses_taken);
    }
    lemma_fire(now, dt, view, input, dice);
    lemma_ends(now, after, dt, view, input, dice);
}

proof fn lemma_fire(now: GameModel, dt: Num, view: Area, input: Input, dice: Dice)
    ensures
        now.raced_on(dt, view, input, dice).dash.nitro_on == now.ignites(input.holds(Control::Nitro, now.dash.time)),
        now.raced_on(dt, view, input, dice).dash.state == now.dash.state,
{
    lemma_meet(now, dt, view, input, dice);
}

proof fn lemma_ends(now: GameModel, after: GameModel, dt: Num, view: Area, input: Input, dice: Dice)
    requires
        now.dash.state is Running,
        after.ran(now, dt, view, input, dice),
    ensures
        now.gets_hit(dt, view, input, dice) <==> after.dash.state is Crashing,
        after.dash.state is Running || after.dash.state is Crashing,
        after.dash.state is Running ==> after.dash.nitro_on == now.raced_on(dt, view, input, dice).dash.nitro_on,
{
    lemma_fire(now, dt, view, input, dice);
    if now.gets_hit(dt, view, input, dice) {
        lemma_smash(after, now, dt, view, input, dice);
    } else {
        lemma_roll(after, now.raced_on(dt, view, input, dice), dt, view, dice);
    }
}

proof fn lemma_tremble(s: Num, h: Num, p: i32)
    requires
        0 <= p <= 100,
        size(s.value()) <= one(),
        size(h.value()) <= 100 * one(),
    ensures
        ({
            let o = one();
            let off = s.spec_times(h).spec_times(Num::spec_ratio(p as int, 10));
            let n = off.spec_round();
            &&& 1_000_000 * size(10 * (n * (o * o)) - p * (s.value() * h.value())) <= 5_000_001 * (o * o)
            &&& -10_000 <= n <= 10_000
        }),
{
    let o = one();
    lemma_pow2_pos(1074);
    products_are_near(s, h);
    let a = s.spec_times(h);
    let av = a.value();
    let sh = s.value() * h.value();
    assert(size(sh) <= 100 * (o * o)) by (nonlinear_arith)
        requires
            size(s.value()) <= o,
            size(h.value()) <= 100 * o,
            sh == s.value() * h.value(),
    ;
    assert(size(av) <= 101 * o) by (nonlinear_arith)
        requires
            1_000_000_000 * size(av * o - sh) <= o * o,
            size(sh) <= 100 * (o * o),
            o > 0,
    ;
    parts_are_near(p, 10, a, 101);
    let off = a.spec_times(Num::spec_ratio(p as int, 10));
    let r = off.value();
    rounding_goes_to_the_nearest(off);
    let n = off.spec_round();
    let pa = p * av;
    assert(size(pa) <= 10_100 * o) by (nonlinear_arith)
        requires
            0 <= p <= 100,
            size(av) <= 101 * o,
            pa == p * av,
            o > 0,
    ;
    assert(-10_000 <= n <= 10_000) by (nonlinear_arith)
        requires
            -o <= 2 * (n * o - r) <= o,
            1_000_000_000 * size(10 * r - pa) <= 101 * o,
            size(pa) <= 10_100 * o,
            o > 0,
    ;
    let e = 10 * (n * o) - pa;
    assert(1_000_000_000 * size(e) <= 5_000_000_000 * o + 101 * o);
    assert(1_000_000_000 * size(e * o) <= 5_000_000_101 * (o * o)) by (nonlinear_arith)
        requires
            1_000_000_000 * size(e) <= 5_000_000_101 * o,
            o > 0,
    ;
    let g = av * o - sh;
    assert(1_000_000_000 * size(p * g) <= 100 * (o * o)) by (nonlinear_arith)
        requires
            1_000_000_000 * size(g) <= o * o,
            0 <= p <= 100,
    ;
    assert(10 * (n * (o * o)) - p * sh == e * o + p * g) by (nonlinear_arith)
        requires
            e == 10 * (n * o) - pa,
            pa == p * av,
            g == av * o - sh,
    ;
}

/// The view stands still unless it is shaken by more than a hundredth. Then it sways by 2.4
/// columns and 1.6 rows for a whole tremor, to the nearest cell.
pub proof fn the_view_trembles(g: GameModel, t: Tremor)
    requires
        size(t.sine.value()) <= one(),
        size(t.cosine.value()) <= one(),
        size(g.dash.shake.value()) <= 100 * one(),
    ensures
        ({
            let o = one();
            let h = g.dash.shake.value();
            let (x, y) = offset(g, t);
            &&& 1_000_000 * (o - 100 * h) >= o ==> x == 0 && y == 0
            &&& 1_000_000 * (100 * h - o) >= o ==> {
                &&& 1_000_000 * size(10 * (x * (o * o)) - 24 * (t.sine.value() * h)) <= 5_000_001 * (o * o)
                &&& 1_000_000 * size(10 * (y * (o * o)) - 16 * (t.cosine.value() * h)) <= 5_000_001 * (o * o)
            }
        }),
{
    lemma_pow2_pos(1074);
    lemma_fraction(1, 100);
    numbers_order_as_keys(Num::spec_ratio(1, 100), g.dash.shake);
    lemma_tremble(t.sine, g.dash.shake, 24);
    lemma_tremble(t.cosine, g.dash.shake, 16);
}

/// In a frame every character but blanks of every floating text whose cell is on the screen is
/// shown in the colour of the text, unless a later text covers it; with no tremor the column
/// and the row of the text count from the corner of the world.
pub proof fn texts_stand_in_the_frame(
    g: GameModel,
    t: Tremor,
    world: Area,
    cells: Cells,
    k: int,
    i: int,
    at: (u16, u16),
)
    requires
        cells.contains_key(at),
        1_000_000 * (one() - 100 * g.dash.shake.value()) >= one(),
        0 <= k < g.floats.len(),
        0 <= i < g.floats[k].text.len(),
        char_at(g.floats[k].text, i) != ' ',
        at.0 == world.x + start_of(g.floats[k], world) + i,
        at.1 == world.y + crate::world::cell(g.floats[k].y),
        forall|j: int|
            k < j < g.floats.len() ==> !#[trigger] text_stands_at(g.floats[j], world, at.0 - world.x, at.1 - world.y),
    ensures
        with_world(cells, world, g, t)[at].symbol == seq![char_at(g.floats[k].text, i)],
        with_world(cells, world, g, t)[at].fg == Some(g.floats[k].color),
        with_world(cells, world, g, t)[at].marks & BOLD == BOLD,
{
    lemma_pow2_pos(1074);
    lemma_fraction(1, 100);
    numbers_order_as_keys(Num::spec_ratio(1, 100), g.dash.shake);
    assert(moved(world.x as int, 0) == world.x && moved(world.y as int, 0) == world.y);
    every_text_is_shown(g, world, cells, world.x as int, world.y as int, k, at);
}

} // verus!
