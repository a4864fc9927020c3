//! The show behind the menu and the countdown before a run.

use crate::dice::{Dice, Puff};
use crate::drift::{particle_of, rows_in, rows_passed, Waft};
use crate::game::{lemma_still_wf, Dash, Game, GameModel, State};
use crate::geometry::{geom, mid_road, player_row, player_y, Area};
use crate::num::Num;
use crate::rounding::limited;
use crate::running::is_up;
use crate::style::{color, rgb};
use vstd::prelude::*;

verus! {

/// The number that stands for the countdown at `left`: what is left, rounded up.
pub open spec fn count_at(left: Num) -> i32 {
    limited(left.spec_ceil(), i32::MIN as int, i32::MAX as int) as i32
}

impl GameModel {
    /// The game after a step of the show behind the menu: the car gets up to 88 km/h and
    /// weaves about the middle of the road.
    pub open spec fn cruising(self, dt: Num, sine: Num, view: Area) -> GameModel {
        let speed = self.dash.speed.spec_plus(
            Num::spec_whole(88).spec_minus(self.dash.speed).spec_times(dt).spec_times(
                Num::spec_ratio(7, 10),
            ),
        );
        GameModel {
            dash: Dash {
                speed,
                scroll: self.dash.scroll.spec_plus(rows_in(speed, dt)),
                player_x: mid_road(view).spec_plus(sine.spec_times(Num::spec_whole(3))),
                ..self.dash
            },
            ..self
        }
    }

    /// The game after a step of the smoke of the idling car.
    pub open spec fn idling(self, dt: Num, smoke: Puff, view: Area) -> GameModel {
        let t = self.dash.exhaust_t.spec_minus(dt);
        if !is_up(t) {
            self.exhaust_timer(t)
        } else {
            self.exhaust_timer(Num::spec_ratio(6, 100)).puffing(
                particle_of(
                    Waft {
                        x: self.dash.player_x.spec_plus(smoke.dx),
                        y: Num::spec_whole(player_row(view) + 5),
                        vx: smoke.vx,
                        vy: Num::spec_whole(8),
                    },
                    Num::spec_ratio(45, 100),
                    '░',
                    color(110, 110, 116),
                ),
            )
        }
    }

    /// Whether the game is `before` after a step of the show behind the menu.
    pub open spec fn attracted(self, before: GameModel, dt: Num, view: Area, dice: Dice) -> bool {
        let start = before.cruising(dt, dice.sine, view);
        let rows = rows_in(start.dash.speed, dt);
        exists|a: GameModel, b: GameModel|
            #![trigger a.sprouted(start, dt, dice.sprout, view), b.spawned(a.scenery_moved(rows, view), dt, dice.gap, dice.draft, view)]
            a.sprouted(start, dt, dice.sprout, view) && b.spawned(
                a.scenery_moved(rows, view),
                dt,
                dice.gap,
                dice.draft,
                view,
            ) && self == b.flowing(dt).thinned(view, -40).idling(dt, dice.smoke, view).adrift(
                dt,
                rows,
                view,
            )
    }

    /// The game with the countdown a step further and the engine warming up, to 42 km/h at
    /// most.
    pub open spec fn warmed_up(self, dt: Num) -> GameModel {
        let speed = self.dash.speed.spec_plus(Num::spec_whole(34).spec_times(dt)).spec_min(
            Num::spec_whole(42),
        );
        GameModel {
            dash: Dash {
                countdown: self.dash.countdown.spec_minus(dt),
                speed,
                scroll: self.dash.scroll.spec_plus(rows_in(speed, dt)),
                ..self.dash
            },
            ..self
        }
    }

    /// The game with the countdown read; when it is over the race is on.
    pub open spec fn counted(self) -> GameModel {
        let over = is_up(self.dash.countdown);
        GameModel {
            dash: Dash {
                last_count: count_at(self.dash.countdown),
                state: if over {
                    State::Running
                } else {
                    self.dash.state
                },
                run_t: if over {
                    Num::spec_whole(0)
                } else {
                    self.dash.run_t
                },
                ..self.dash
            },
            ..self
        }
    }

    /// Whether the game is `before` after a step of the countdown.
    pub open spec fn counted_down(self, before: GameModel, dt: Num, view: Area, dice: Dice) -> bool {
        let start = before.warmed_up(dt);
        let rows = rows_in(start.dash.speed, dt);
        exists|a: GameModel|
            #![trigger a.sprouted(start, dt, dice.sprout, view)]
            a.sprouted(start, dt, dice.sprout, view) && self == a.scenery_moved(rows, view).adrift(
                dt,
                rows,
                view,
            ).counted()
    }

    /// The bells of a step of the countdown: one for a new number and two for the start.
    pub open spec fn countdown_bells(self, dt: Num) -> int {
        let left = self.dash.countdown.spec_minus(dt);
        if !self.dash.sound {
            0
        } else {
            (if count_at(left) != self.dash.last_count {
                1int
            } else {
                0
            }) + (if is_up(left) {
                2int
            } else {
                0
            })
        }
    }
}

impl Game {
    /// Lets the car of the show drive on.
    fn attract_cruise(&mut self, dt: Num, sine: Num, view: Area)
        ensures
            final(self)@ == old(self)@.cruising(dt, sine, view),
            old(self)@.wf() ==> final(self)@.wf(),
    {
        let gain: Num = Num::whole(88).minus(self.dash.speed).times(dt).times(Num::ratio(7, 10));
        let speed: Num = self.dash.speed.plus(gain);
        let middle: Num = Num::ratio(geom(view).road_w, 2);
        self.dash.speed = speed;
        self.dash.scroll = self.dash.scroll.plus(rows_passed(speed, dt));
        self.dash.player_x = middle.plus(sine.times(Num::whole(3)));
        proof {
            if old(self)@.wf() {
                lemma_still_wf(old(self)@, self@);
            }
        }
    }

    /// Lets the timer of the exhaust run; when it is up the car gives off a puff of smoke.
    fn attract_smoke(&mut self, dt: Num, smoke: Puff, view: Area)
        ensures
            final(self)@ == old(self)@.idling(dt, smoke, view),
            old(self)@.wf() ==> final(self)@.wf(),
    {
        let t: Num = self.dash.exhaust_t.minus(dt);
        self.dash.exhaust_t = t;
        if t.le(Num::whole(0)) {
            self.dash.exhaust_t = Num::ratio(6, 100);
            let w: Waft = Waft {
                x: self.dash.player_x.plus(smoke.dx),
                y: Num::whole(player_y(view) + 5),
                vx: smoke.vx,
                vy: Num::whole(8),
            };
            self.puff(w, Num::ratio(45, 100), '░', rgb(110, 110, 116));
        }
        proof {
            if old(self)@.wf() {
                lemma_still_wf(old(self)@, self@);
            }
        }
    }

    /// A step of the show behind the menu.
    pub fn update_attract(&mut self, dt: Num, view: Area, dice: &Dice)
        requires
            old(self)@.wf(),
        ensures
            final(self)@.attracted(old(self)@, dt, view, *dice),
            final(self)@.wf(),
    {
        self.attract_cruise(dt, dice.sine, view);
        let ghost start = self@;
        let rows: Num = rows_passed(self.dash.speed, dt);
        self.update_scenery_spawn(dt, dice.sprout, view);
        let ghost a = self@;
        self.update_scenery_move(rows, view);
        self.tick_spawn(dt, dice.gap, dice.draft, view);
        let ghost b = self@;
        self.move_traffic(dt);
        self.thin_traffic(view, -40);
        self.attract_smoke(dt, dice.smoke, view);
        self.update_particles(dt, rows, view);
        proof {
            assert(a.sprouted(start, dt, dice.sprout, view));
            assert(b.spawned(a.scenery_moved(rows, view), dt, dice.gap, dice.draft, view));
        }
    }

    /// Warms the engine up for a step of the countdown.
    fn countdown_speed(&mut self, dt: Num)
        ensures
            final(self)@ == old(self)@.warmed_up(dt),
            old(self)@.wf() ==> final(self)@.wf(),
    {
        let speed: Num = self.dash.speed.plus(Num::whole(34).times(dt)).min(Num::whole(42));
        self.dash.countdown = self.dash.countdown.minus(dt);
        self.dash.speed = speed;
        self.dash.scroll = self.dash.scroll.plus(rows_passed(speed, dt));
        proof {
            if old(self)@.wf() {
                lemma_still_wf(old(self)@, self@);
            }
        }
    }

    /// Reads the countdown. A bell rings for each new number and two more for the start. Says
    /// how many ring.
    fn countdown_tick(&mut self) -> (rung: usize)
        ensures
            final(self)@ == old(self)@.counted(),
            rung == (if !old(self)@.dash.sound {
                0int
            } else {
                (if count_at(old(self)@.dash.countdown) != old(self)@.dash.last_count {
                    1int
                } else {
                    0
                }) + (if is_up(old(self)@.dash.countdown) {
                    2int
                } else {
                    0
                })
            }),
            old(self)@.wf() ==> final(self)@.wf(),
    {
        let mut rung: usize = 0;
        let left: Num = self.dash.countdown;
        let up: i64 = left.ceiled();
        let number: i32 = if up > 2_147_483_647 {
            2_147_483_647
        } else if up < -2_147_483_648 {
            -2_147_483_648
        } else {
            up as i32
        };
        if number != self.dash.last_count {
            self.dash.last_count = number;
            rung = self.bells(1);
        }
        if left.le(Num::whole(0)) {
            self.dash.state = State::Running;
            self.dash.run_t = Num::whole(0);
            rung = rung + self.bells(2);
        }
        proof {
            if old(self)@.wf() {
                lemma_still_wf(old(self)@, self@);
            }
        }
        rung
    }

    /// A step of the countdown. Says how many bells ring.
    pub fn update_countdown(&mut self, dt: Num, view: Area, dice: &Dice) -> (rung: usize)
        ensures
            final(self)@.counted_down(old(self)@, dt, view, *dice),
            rung == old(self)@.countdown_bells(dt),
            old(self)@.wf() ==> final(self)@.wf(),
    {
        self.countdown_speed(dt);
        let ghost start = self@;
        let rows: Num = rows_passed(self.dash.speed, dt);
        self.update_scenery_spawn(dt, dice.sprout, view);
        let ghost a = self@;
        self.update_scenery_move(rows, view);
        self.update_particles(dt, rows, view);
        proof {
            assert(a.sprouted(start, dt, dice.sprout, view));
        }
        self.countdown_tick()
    }
}

} // verus!
