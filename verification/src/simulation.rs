//! One step of the game.

use crate::dice::Dice;
use crate::drift::rows_in;
use crate::game::{lemma_still_wf, Dash, Game, GameModel, State};
use crate::geometry::Area;
use crate::input::Input;
use crate::num::Num;
use crate::odds::odds_of;
use crate::running::density;
use vstd::prelude::*;

verus! {

/// What a step asks of the world outside.
#[derive(Clone, Copy, PartialEq, Eq, Structural, Debug)]
pub struct Outcome {
    /// How many bells are to be rung.
    pub bells: usize,
    /// Whether the best scores are to be written down.
    pub best: bool,
}

impl GameModel {
    /// The game with its clock a step further.
    pub open spec fn ticked(self, dt: Num) -> GameModel {
        GameModel { dash: Dash { time: self.dash.time.spec_plus(dt), ..self.dash }, ..self }
    }

    /// Whether the game is `before` after a step.
    pub open spec fn stepped(self, before: GameModel, dt: Num, view: Area, input: Input, dice: Dice) -> bool {
        let now = before.ticked(dt);
        match before.dash.state {
            State::Menu => self.attracted(now, dt, view, dice),
            State::Countdown => self.counted_down(now, dt, view, dice),
            State::Running => self.ran(now, dt, view, input, dice),
            State::Crashing => self == now.tumbled(dt, view, dice).concluded(),
            State::GameOver => self == now.rested(dt, view, dice),
            State::Paused => self == now,
        }
    }

    /// What a step asks of the world outside.
    pub open spec fn asks(self, dt: Num, view: Area, input: Input, dice: Dice) -> Outcome {
        let now = self.ticked(dt);
        let end = now.tumbled(dt, view, dice);
        Outcome {
            bells: (match self.dash.state {
                State::Countdown => now.countdown_bells(dt),
                State::Running => now.race_bells(dt, view, input, dice),
                _ => 0,
            }) as usize,
            best: self.dash.state is Crashing && end.at_rest() && end.points()
                > end.hi[end.dash.diff.place()],
        }
    }
}

impl Game {
    /// Moves the game on by a step of `dt` seconds. Says what is asked of the world outside.
    pub fn update(&mut self, dt: Num, view: Area, input: &Input, dice: &Dice) -> (out: Outcome)
        requires
            old(self)@.dash.state is Menu || old(self)@.dash.state is Running ==> old(self)@.wf(),
            old(self)@.dash.state !is Paused ==> dice.obey(odds_of(old(self)@)),
            old(self)@.dash.state is Running ==> dice.fits(old(self)@),
            old(self)@.dash.state is Running ==> old(self)@.counts_misses(),
        ensures
            final(self)@.stepped(old(self)@, dt, view, *input, *dice),
            out == old(self)@.asks(dt, view, *input, *dice),
            old(self)@.wf() ==> final(self)@.wf(),
            old(self)@.dash.state is Paused ==> final(self).rng == old(self).rng,
    {
        self.dash.time = self.dash.time.plus(dt);
        proof {
            if old(self)@.wf() {
                lemma_still_wf(old(self)@, self@);
            }
        }
        let mut out: Outcome = Outcome { bells: 0, best: false };
        match self.dash.state {
            State::Menu => {
                self.update_attract(dt, view, dice);
            },
            State::Countdown => {
                out.bells = self.update_countdown(dt, view, dice);
            },
            State::Running => {
                out.bells = self.update_running(dt, view, input, dice);
            },
            State::Crashing => {
                out.best = self.update_crashing(dt, view, dice);
            },
            State::GameOver => {
                self.update_gameover(dt, view, dice);
            },
            State::Paused => {},
        }
        out
    }
}

/// Whether two games are in the same state at the same time with the same best scores.
spec fn alike(a: GameModel, b: GameModel) -> bool {
    a.dash.state == b.dash.state && a.dash.time == b.dash.time && a.hi == b.hi
}

proof fn lemma_chance_is_alike(a: GameModel, b: GameModel, dt: Num, view: Area, dice: Dice, next: Num)
    ensures
        a.spawned(b, dt, next, dice.draft, view) ==> alike(a, b),
        a.bestowed(b, dt, dice.bonus_gap, view) ==> alike(a, b),
        a.sprouted(b, dt, dice.sprout, view) ==> alike(a, b),
        a.fumed(b, dt, dice.flames, dice.smoke, view) ==> alike(a, b),
{
}

proof fn lemma_meeting_is_alike(g: GameModel, dt: Num, view: Area, input: Input, dice: Dice)
    ensures
        alike(g.raced_on(dt, view, input, dice), g),
{
    reveal(GameModel::ridden);
    reveal(GameModel::encountered);
}

proof fn lemma_rolling_is_alike(a: GameModel, b: GameModel, dt: Num, view: Area, dice: Dice)
    requires
        a.rolled_on(b, dt, view, dice),
    ensures
        alike(a, b),
{
    reveal(GameModel::rolled_on);
    let road = b.gleaned(dt, view, dice);
    let rows = rows_in(b.dash.speed, dt);
    let next = dice.gap.spec_times(density(b.dash.speed, b.dash.diff));
    let (w, x, y, z) = choose|w: GameModel, x: GameModel, y: GameModel, z: GameModel|
        #![trigger w.spawned(road, dt, next, dice.draft, view), x.bestowed(w, dt, dice.bonus_gap, view), y.sprouted(x, dt, dice.sprout, view), z.fumed(y.scenery_moved(rows, view), dt, dice.flames, dice.smoke, view)]
        w.spawned(road, dt, next, dice.draft, view) && x.bestowed(w, dt, dice.bonus_gap, view)
            && y.sprouted(x, dt, dice.sprout, view) && z.fumed(
            y.scenery_moved(rows, view),
            dt,
            dice.flames,
            dice.smoke,
            view,
        ) && a == z.adrift(dt, rows, view).calmed(Num::spec_ratio(22, 10), dt);
    lemma_chance_is_alike(w, road, dt, view, dice, next);
    lemma_chance_is_alike(x, w, dt, view, dice, next);
    lemma_chance_is_alike(y, x, dt, view, dice, next);
    lemma_chance_is_alike(z, y.scenery_moved(rows, view), dt, view, dice, next);
    assert(alike(road, b));
}

proof fn lemma_show_is_alike(a: GameModel, b: GameModel, dt: Num, view: Area, dice: Dice)
    requires
        a.attracted(b, dt, view, dice),
    ensures
        alike(a, b),
{
    let start = b.cruising(dt, dice.sine, view);
    let rows = rows_in(start.dash.speed, dt);
    let (x, y) = choose|x: GameModel, y: GameModel|
        #![trigger x.sprouted(start, dt, dice.sprout, view), y.spawned(x.scenery_moved(rows, view), dt, dice.gap, dice.draft, view)]
        x.sprouted(start, dt, dice.sprout, view) && y.spawned(
            x.scenery_moved(rows, view),
            dt,
            dice.gap,
            dice.draft,
            view,
        ) && a == y.flowing(dt).thinned(view, -40).idling(dt, dice.smoke, view).adrift(dt, rows, view);
    lemma_chance_is_alike(x, start, dt, view, dice, dice.gap);
    lemma_chance_is_alike(y, x.scenery_moved(rows, view), dt, view, dice, dice.gap);
}

proof fn lemma_countdown_is_alike(a: GameModel, b: GameModel, dt: Num, view: Area, dice: Dice)
    requires
        a.counted_down(b, dt, view, dice),
    ensures
        a.hi == b.hi,
        a.dash.time == b.dash.time,
        a.dash.state == b.dash.state || a.dash.state is Running,
{
    let start = b.warmed_up(dt);
    let rows = rows_in(start.dash.speed, dt);
    let x = choose|x: GameModel|
        #![trigger x.sprouted(start, dt, dice.sprout, view)]
        x.sprouted(start, dt, dice.sprout, view) && a == x.scenery_moved(rows, view).adrift(
            dt,
            rows,
            view,
        ).counted();
    lemma_chance_is_alike(x, start, dt, view, dice, dice.gap);
}

pub(crate) proof fn lemma_course(before: GameModel, after: GameModel, dt: Num, view: Area, input: Input, dice: Dice)
    requires
        after.stepped(before, dt, view, input, dice),
    ensures
        ({
            let now = after.dash.state;
            match before.dash.state {
                State::Menu => now is Menu,
                State::Countdown => now is Countdown || now is Running,
                State::Running => now is Running || now is Crashing,
                State::Crashing => now is Crashing || now is GameOver,
                State::GameOver => now is GameOver,
                State::Paused => now is Paused,
            }
        }),
        after.dash.time == before.dash.time.spec_plus(dt),
        before.dash.state !is Crashing ==> after.hi == before.hi,
        before.dash.state is Crashing && after.dash.state is Crashing ==> after.hi == before.hi,
        before.dash.state is Crashing ==> after.hi == before.hi || exists|end: GameModel|
            #![trigger end.committed()]
            end.hi == before.hi && after == end.committed() && end.dash.state is GameOver,
{
    let now = before.ticked(dt);
    match before.dash.state {
        State::Menu => {
            lemma_show_is_alike(after, now, dt, view, dice);
        },
        State::Countdown => {
            lemma_countdown_is_alike(after, now, dt, view, dice);
        },
        State::Running => {
            lemma_meeting_is_alike(now, dt, view, input, dice);
            if !now.gets_hit(dt, view, input, dice) {
                lemma_rolling_is_alike(after, now.raced_on(dt, view, input, dice), dt, view, dice);
            }
        },
        State::Crashing => {
            let end = now.tumbled(dt, view, dice);
            assert(end.hi == before.hi && end.dash.state is Crashing);
            if end.at_rest() {
                assert(after == end.in_state(State::GameOver).committed());
            }
        },
        State::GameOver => {},
        State::Paused => {},
    }
}

/// The clock gains the step whatever the game is doing.
pub proof fn the_clock_runs_on(
    before: GameModel,
    after: GameModel,
    dt: Num,
    view: Area,
    input: Input,
    dice: Dice,
)
    requires
        after.stepped(before, dt, view, input, dice),
    ensures
        after.dash.time == before.dash.time.spec_plus(dt),
{
    lemma_course(before, after, dt, view, input, dice);
}

/// A pause stops everything but the clock.
pub proof fn a_pause_stops_the_world(
    before: GameModel,
    after: GameModel,
    dt: Num,
    view: Area,
    input: Input,
    dice: Dice,
)
    requires
        before.dash.state is Paused,
        after.stepped(before, dt, view, input, dice),
    ensures
        after == (GameModel { dash: Dash { time: after.dash.time, ..before.dash }, ..before }),
{
}

/// The game takes its course: a countdown leads to the race, the race to a crash, the crash
/// to the end of the run. The menu, the end and a pause are left by keys alone.
pub proof fn the_game_takes_its_course(
    before: GameModel,
    after: GameModel,
    dt: Num,
    view: Area,
    input: Input,
    dice: Dice,
)
    requires
        after.stepped(before, dt, view, input, dice),
    ensures
        ({
            let now = after.dash.state;
            match before.dash.state {
                State::Menu => now is Menu,
                State::Countdown => now is Countdown || now is Running,
                State::Running => now is Running || now is Crashing,
                State::Crashing => now is Crashing || now is GameOver,
                State::GameOver => now is GameOver,
                State::Paused => now is Paused,
            }
        }),
{
    lemma_course(before, after, dt, view, input, dice);
}

/// No step lowers a best score, and only the end of a crash raises one.
pub proof fn steps_keep_the_best_scores(
    before: GameModel,
    after: GameModel,
    dt: Num,
    view: Area,
    input: Input,
    dice: Dice,
    i: int,
)
    requires
        before.wf(),
        after.stepped(before, dt, view, input, dice),
        0 <= i < 3,
    ensures
        after.hi[i] >= before.hi[i],
        after.hi[i] > before.hi[i] ==> before.dash.state is Crashing && after.dash.state is GameOver
            && after.dash.new_best,
{
    lemma_course(before, after, dt, view, input, dice);
}

} // verus!
