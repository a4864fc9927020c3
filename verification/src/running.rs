//! The race: steering, nitro, speed, and what the car meets on the road.

use crate::arith::{
    quotients_keep_their_sign, results_are_bounded, sums_grow, sums_keep_their_sign, ENDLESS,
};
use crate::chance::draw;
use crate::crash::{gusts_of, wafts_of};
use crate::dice::{Dice, Puff, Ray, Spark, RAYS, SPARKS};
use crate::difficulty::Difficulty;
use crate::drift::{particle_of, rows_in, rows_passed, Gust, Waft};
use crate::entities::{puffed_all, Caption, Car, FloatText, Particle, Pickup, LONGEST};
use crate::game::{lemma_still_wf, Dash, Game, GameModel, QUIP_COUNT};
use crate::geometry::{geom, player_row, player_y, road, Area};
use crate::input::{Control, Input};
use crate::num::{
    fractions_keep_their_order, lemma_wholes_are_small, numbers_order_as_keys, whole_numbers_are_exact,
    Num,
};
use crate::style::{color, rgb, Rgb};
use crate::text::{decimal, lemma_decimal_length, push_decimal};
use vstd::prelude::*;
use vstd::string::StringExecFns;

verus! {

/// The longest combo whose points can be counted.
pub const MANY_MISSES: u32 = 71_582_786;

/// The points for the near miss that makes the combo `combo`.
pub open spec fn bonus_of(combo: int) -> int {
    100 + 60 * combo
}

/// The text for the near miss that makes the combo `combo`.
pub open spec fn close_text(combo: int) -> Seq<char> {
    let points = seq!['+'] + decimal(bonus_of(combo) as nat) + " CLOSE!"@;
    if combo > 1 {
        points + " x"@ + decimal(combo as nat)
    } else {
        points
    }
}

/// The floating text for a near miss of a car at column `x`.
pub open spec fn close_caption(x: Num, combo: int, view: Area) -> Caption {
    Caption {
        text: close_text(combo),
        x,
        y: Num::spec_whole(player_row(view) - 2),
        t: Num::spec_whole(0),
        color: color(255, 225, 90),
    }
}

/// How far two places are apart.
pub open spec fn apart(a: Num, b: Num) -> Num {
    a.spec_minus(b).spec_abs()
}

/// The rows of a car.
pub open spec fn length_of(c: Car) -> int {
    if c.truck {
        7
    } else {
        5
    }
}

/// Whether a car touches the player's car at column `x`.
pub open spec fn hits(c: Car, x: Num, view: Area) -> bool {
    let row = player_row(view);
    let slack = Num::spec_ratio(7, 10);
    &&& c.y.key < Num::spec_whole(row + 5).spec_minus(slack).key
    &&& c.y.spec_plus(Num::spec_whole(length_of(c))).key > Num::spec_whole(row).spec_plus(slack).key
    &&& apart(x, c.x).key < Num::spec_ratio(43, 10).key
}

/// Whether a car has just fallen behind the player's at column `x`, and was narrowly and
/// swiftly passed.
pub open spec fn grazed(c: Car, x: Num, speed: Num, view: Area) -> bool {
    &&& !c.passed
    &&& c.y.key > Num::spec_whole(player_row(view) + 5).key
    &&& apart(x, c.x).spec_minus(Num::spec_ratio(46, 10)).key < Num::spec_ratio(18, 10).key
    &&& speed.key > c.speed.spec_plus(Num::spec_whole(5)).key
}

/// The narrowly passed cars among the first `n`.
pub open spec fn grazes(traffic: Seq<Car>, x: Num, speed: Num, view: Area, n: int) -> Seq<usize>
    decreases n,
{
    if n <= 0 {
        Seq::empty()
    } else if grazed(traffic[n - 1], x, speed, view) {
        grazes(traffic, x, speed, view, n - 1).push((n - 1) as usize)
    } else {
        grazes(traffic, x, speed, view, n - 1)
    }
}

/// The score after `n` near misses that raise the combo from `combo` on.
pub open spec fn scored(score: Num, combo: int, n: nat) -> Num
    decreases n,
{
    if n == 0 {
        score
    } else {
        scored(score, combo, (n - 1) as nat).spec_plus(Num::spec_whole(bonus_of(combo + n)))
    }
}

/// Whether a bonus is in reach of the player's car at column `x`.
pub open spec fn in_reach(p: Pickup, x: Num, view: Area) -> bool {
    &&& apart(p.x, x).key < Num::spec_whole(3).key
    &&& apart(p.y, Num::spec_whole(player_row(view) + 2)).key < Num::spec_ratio(32, 10).key
}

/// The items without the one at `i`, whose place the last one takes.
pub open spec fn swapped_out(s: Seq<Pickup>, i: int) -> Seq<Pickup> {
    s.update(i, s.last()).drop_last()
}

/// The bonuses left when those in reach from `i` on are taken, the last one first.
pub open spec fn left_over(s: Seq<Pickup>, x: Num, view: Area, i: int) -> Seq<Pickup>
    decreases s.len() - i,
{
    if i >= s.len() || i < 0 {
        s
    } else if in_reach(s[i], x, view) {
        swapped_out(left_over(s, x, view, i + 1), i)
    } else {
        left_over(s, x, view, i + 1)
    }
}

/// The bonuses in reach from `i` on, the last one first.
pub open spec fn haul(s: Seq<Pickup>, x: Num, view: Area, i: int) -> Seq<Pickup>
    decreases s.len() - i,
{
    if i >= s.len() || i < 0 {
        Seq::empty()
    } else if in_reach(s[i], x, view) {
        haul(s, x, view, i + 1).push(s[i])
    } else {
        haul(s, x, view, i + 1)
    }
}

/// The floating text over a bonus that was taken.
pub open spec fn haul_caption(p: Pickup) -> Caption {
    Caption {
        text: "+250 ◆"@,
        x: p.x,
        y: p.y,
        t: Num::spec_whole(0),
        color: color(255, 205, 60),
    }
}

/// The score after `n` bonuses.
pub open spec fn enriched(score: Num, n: nat) -> Num
    decreases n,
{
    if n == 0 {
        score
    } else {
        enriched(score, (n - 1) as nat).spec_plus(Num::spec_whole(250))
    }
}

/// The nitro after `n` bonuses: a third of a tank more for each, up to a full one.
pub open spec fn refuelled(nitro: Num, n: nat) -> Num
    decreases n,
{
    if n == 0 {
        nitro
    } else {
        refuelled(nitro, (n - 1) as nat).spec_plus(Num::spec_ratio(35, 100)).spec_min(
            Num::spec_whole(1),
        )
    }
}

/// A spark of a near miss between the cars at columns `x` and `y`.
pub open spec fn near_spark(s: Spark, x: Num, y: Num, view: Area) -> Particle {
    particle_of(
        Waft {
            x: x.spec_plus(y).spec_over(Num::spec_whole(2)),
            y: Num::spec_whole(player_row(view) + 1),
            vx: s.vx,
            vy: s.vy,
        },
        Num::spec_ratio(3, 10),
        '*',
        color(255, 240, 150),
    )
}

/// The sparks of near misses, six for each.
pub open spec fn near_sparks(
    near: Seq<usize>,
    traffic: Seq<Car>,
    x: Num,
    sparks: Seq<Spark>,
    view: Area,
) -> Seq<Particle> {
    Seq::new(
        SPARKS as nat * near.len(),
        |j: int| near_spark(sparks[j], x, traffic[near[j / (SPARKS as int)] as int].x, view),
    )
}

/// A spark of a bonus that was taken.
pub open spec fn haul_spark(r: Ray, p: Pickup) -> Particle {
    particle_of(
        Waft {
            x: p.x,
            y: p.y,
            vx: r.cos.spec_times(Num::spec_whole(12)),
            vy: r.sin.spec_times(Num::spec_whole(12)),
        },
        Num::spec_ratio(4, 10),
        '*',
        color(255, 215, 90),
    )
}

/// The sparks of bonuses that were taken, ten for each.
pub open spec fn haul_sparks(taken: Seq<Pickup>, rays: Seq<Ray>) -> Seq<Particle> {
    Seq::new(
        RAYS as nat * taken.len(),
        |j: int| haul_spark(rays[j], taken[j / (RAYS as int)]),
    )
}

/// A flame of the nitro: three shapes and three blues.
pub open spec fn flame_of(g: Gust, shape: int, hue: int) -> Particle {
    particle_of(
        g.waft,
        g.life,
        if shape == 0 {
            '▓'
        } else if shape == 1 {
            '▒'
        } else {
            '░'
        },
        if hue == 0 {
            color(120, 230, 255)
        } else if hue == 1 {
            color(210, 245, 255)
        } else {
            color(80, 160, 255)
        },
    )
}

/// How a flame of the nitro leaves the car at column `x`.
pub open spec fn flame_gust(p: Puff, x: Num, view: Area) -> Gust {
    Gust {
        waft: Waft {
            x: x.spec_plus(p.dx),
            y: Num::spec_whole(player_row(view)).spec_plus(Num::spec_ratio(48, 10)),
            vx: p.vx,
            vy: p.vy,
        },
        life: p.life,
    }
}

/// The smoke of the exhaust of the car at column `x`.
pub open spec fn exhaust_of(p: Puff, x: Num, view: Area) -> Particle {
    particle_of(
        Waft {
            x: x.spec_plus(p.dx),
            y: Num::spec_whole(player_row(view) + 5),
            vx: p.vx,
            vy: p.vy,
        },
        p.life,
        if p.thin {
            '░'
        } else {
            '▒'
        },
        color(105, 105, 112),
    )
}

/// The dust of the wheel at column `x`.
pub open spec fn dust_of(x: Num, vx: Num, view: Area) -> Particle {
    particle_of(
        Waft { x, y: Num::spec_whole(player_row(view) + 4), vx, vy: Num::spec_whole(5) },
        Num::spec_ratio(4, 10),
        '░',
        color(165, 130, 70),
    )
}

/// The top speed of an intensity, higher while the nitro burns.
pub open spec fn speed_limit(d: Difficulty, nitro_on: bool) -> int {
    if nitro_on {
        d.top() + 55
    } else {
        d.top()
    }
}

/// Whether a timer is up.
pub open spec fn is_up(t: Num) -> bool {
    t.key <= Num::spec_whole(0).key
}

/// A place beyond the right edge of the road by `n` hundredths of a column.
pub open spec fn beyond(view: Area, n: int) -> Num {
    Num::spec_whole(road(view.width as int).road_w as int).spec_plus(Num::spec_ratio(n, 100))
}

/// From where on the car is off the road on the right.
pub open spec fn verge_at(view: Area) -> Num {
    Num::spec_whole(road(view.width as int).road_w as int).spec_minus(Num::spec_ratio(16, 10))
}

/// How much longer the pauses between cars are at low speed.
pub open spec fn density(speed: Num, d: Difficulty) -> Num {
    Num::spec_ratio(145, 100).spec_minus(
        Num::spec_ratio(65, 100).spec_times(speed.spec_over(Num::spec_whole(d.top()))),
    ).spec_clamp(Num::spec_ratio(6, 10), Num::spec_ratio(15, 10))
}

impl GameModel {
    /// The game with the sideways speed changed: pushed while the wheel is turned, eased
    /// while not.
    pub open spec fn steered(self, dir: int, dt: Num) -> GameModel {
        let vx = if dir != 0 {
            self.dash.player_vx.spec_plus(Num::spec_whole(130 * dir).spec_times(dt))
        } else {
            self.dash.player_vx.spec_times(
                Num::spec_whole(1).spec_minus(Num::spec_whole(10).spec_times(dt)).spec_clamp(
                    Num::spec_whole(0),
                    Num::spec_whole(1),
                ),
            )
        };
        GameModel {
            dash: Dash {
                player_vx: vx.spec_clamp(Num::spec_whole(-34), Num::spec_whole(34)),
                ..self.dash
            },
            ..self
        }
    }

    /// The game with the car moved sideways, kept between the edges; against an edge it stops.
    pub open spec fn settled(self, dt: Num, view: Area) -> GameModel {
        let x = self.dash.player_x.spec_plus(self.dash.player_vx.spec_times(dt));
        let at = x.spec_clamp(Num::spec_ratio(-12, 10), beyond(view, 120));
        let stuck = at.key <= Num::spec_ratio(-119, 100).key || at.key >= beyond(view, 119).key;
        GameModel {
            dash: Dash {
                player_x: at,
                player_vx: if stuck {
                    Num::spec_whole(0)
                } else {
                    self.dash.player_vx
                },
                ..self.dash
            },
            ..self
        }
    }

    /// Whether the car is off the road.
    pub open spec fn off_road(self, view: Area) -> bool {
        self.dash.player_x.key < Num::spec_ratio(16, 10).key || self.dash.player_x.key > verge_at(view).key
    }

    /// Whether nitro burns where it is called for: some has to be left.
    pub open spec fn ignites(self, wanted: bool) -> bool {
        wanted && self.dash.nitro.key > Num::spec_ratio(2, 100).key
    }

    /// The game with the nitro burning or filling up again.
    pub open spec fn burned(self, wanted: bool, dt: Num, view: Area) -> GameModel {
        let on = self.ignites(wanted);
        let lit = if on && !self.dash.nitro_on {
            self.flashed("NITRO!"@, color(120, 230, 255), view)
        } else {
            self
        };
        GameModel {
            dash: Dash {
                nitro_on: on,
                nitro: if on {
                    self.dash.nitro.spec_minus(Num::spec_ratio(32, 100).spec_times(dt)).spec_max(
                        Num::spec_whole(0),
                    )
                } else {
                    self.dash.nitro.spec_plus(Num::spec_ratio(55, 1000).spec_times(dt)).spec_min(
                        Num::spec_whole(1),
                    )
                },
                shake: if on {
                    self.dash.shake.spec_max(Num::spec_ratio(12, 100))
                } else {
                    self.dash.shake
                },
                ..self.dash
            },
            ..lit
        }
    }

    /// The game with the speed changed by `pull` km/h a second, within what the car can do.
    pub open spec fn paced(self, pull: int, dt: Num) -> GameModel {
        GameModel {
            dash: Dash {
                speed: self.dash.speed.spec_plus(Num::spec_whole(pull).spec_times(dt)).spec_clamp(
                    Num::spec_whole(32),
                    Num::spec_whole(speed_limit(self.dash.diff, self.dash.nitro_on)),
                ),
                ..self.dash
            },
            ..self
        }
    }

    /// The game after a step off the road: the car is slowed down and shaken, throws up dust
    /// and says so.
    pub open spec fn scraped(self, dt: Num, dust: (Num, Num), view: Area) -> GameModel {
        let dust_left = self.dash.dust_t.spec_minus(dt);
        let msg_left = self.dash.offroad_msg_t.spec_minus(dt);
        let slow = GameModel {
            dash: Dash {
                speed: self.dash.speed.spec_minus(Num::spec_whole(85).spec_times(dt)).spec_max(
                    Num::spec_whole(55),
                ),
                shake: self.dash.shake.spec_max(Num::spec_ratio(3, 10)),
                dust_t: if is_up(dust_left) {
                    Num::spec_ratio(6, 100)
                } else {
                    dust_left
                },
                offroad_msg_t: if is_up(msg_left) {
                    Num::spec_ratio(13, 10)
                } else {
                    msg_left
                },
                ..self.dash
            },
            ..self
        };
        let x = self.dash.player_x;
        let dusty = if is_up(dust_left) {
            slow.puffing(dust_of(x.spec_plus(Num::spec_whole(-2)), dust.0, view)).puffing(
                dust_of(x.spec_plus(Num::spec_whole(2)), dust.1, view),
            )
        } else {
            slow
        };
        if is_up(msg_left) {
            dusty.flashed("OFF ROAD!"@, color(255, 170, 80), view)
        } else {
            dusty
        }
    }

    /// What a step of driving adds to the score: more with a combo, and half as much again
    /// while the nitro burns.
    pub open spec fn gain(self, dt: Num) -> Num {
        let mult = Num::spec_whole(1).spec_plus(
            Num::spec_ratio(25, 100).spec_times(Num::spec_whole(self.dash.combo as int)),
        );
        self.dash.speed.spec_times(dt).spec_times(Num::spec_ratio(55, 100)).spec_times(mult).spec_times(
            if self.dash.nitro_on {
                Num::spec_ratio(15, 10)
            } else {
                Num::spec_whole(1)
            },
        )
    }

    /// The game with the road of a step and its points written down.
    pub open spec fn progressed(self, dt: Num) -> GameModel {
        let speed = self.dash.speed;
        GameModel {
            dash: Dash {
                top_speed: self.dash.top_speed.spec_max(speed),
                scroll: self.dash.scroll.spec_plus(rows_in(speed, dt)),
                distance: self.dash.distance.spec_plus(
                    speed.spec_over(Num::spec_ratio(36, 10)).spec_times(dt),
                ),
                score: self.dash.score.spec_plus(self.gain(dt)),
                ..self.dash
            },
            ..self
        }
    }

    /// The game with the combo a step older; when its time is up it is lost.
    pub open spec fn combo_aged(self, dt: Num) -> GameModel {
        let left = self.dash.combo_t.spec_minus(dt);
        if self.dash.combo == 0 {
            self
        } else {
            GameModel {
                dash: Dash {
                    combo_t: left,
                    combo: if is_up(left) {
                        0
                    } else {
                        self.dash.combo
                    },
                    ..self.dash
                },
                ..self
            }
        }
    }

    /// The game with the clock of the run a step further.
    pub open spec fn run_timed(self, dt: Num) -> GameModel {
        GameModel { dash: Dash { run_t: self.dash.run_t.spec_plus(dt), ..self.dash }, ..self }
    }

    /// The game after the player has driven for a step, before the car meets anything.
    #[verifier::opaque]
    pub open spec fn ridden(self, dt: Num, input: Input, dust: (Num, Num), view: Area) -> GameModel {
        self.rough_ridden(dt, input, dust, view).progressed(dt).combo_aged(dt)
    }

    /// The game after the car was steered, fuelled and braked for a step.
    pub open spec fn rough_ridden(self, dt: Num, input: Input, dust: (Num, Num), view: Area) -> GameModel {
        let now = self.dash.time;
        let placed = self.run_timed(dt).steered(input.direction(now), dt).settled(dt, view);
        let paced = placed.burned(input.holds(Control::Nitro, now), dt, view).paced(input.pull(now), dt);
        if placed.off_road(view) {
            paced.scraped(dt, dust, view)
        } else {
            paced
        }
    }

    /// Whether the nitro catches fire in a step.
    pub open spec fn catches_fire(self, input: Input) -> bool {
        !self.dash.nitro_on && self.ignites(input.holds(Control::Nitro, self.dash.time))
    }

    /// Whether a near miss with every car on the road can still be counted.
    pub open spec fn counts_misses(self) -> bool {
        &&& self.dash.combo + self.traffic.len() <= MANY_MISSES
        &&& self.dash.near_misses + self.traffic.len() <= u32::MAX
    }

    /// Whether a car hits the player's.
    pub open spec fn is_hit(self, view: Area) -> bool {
        exists|i: int| #![trigger self.traffic[i]]
            0 <= i < self.traffic.len() && hits(self.traffic[i], self.dash.player_x, view)
    }

    /// The cars that the player narrowly passes.
    pub open spec fn near_ones(self, view: Area) -> Seq<usize> {
        grazes(self.traffic, self.dash.player_x, self.dash.speed, view, self.traffic.len() as int)
    }

    /// The game after the first `n` cars were met: those behind are passed, and each one
    /// narrowly passed raises the combo.
    pub open spec fn met(self, view: Area, n: int) -> GameModel {
        let near = grazes(self.traffic, self.dash.player_x, self.dash.speed, view, n);
        let combo = self.dash.combo + near.len();
        GameModel {
            dash: Dash {
                combo: combo as u32,
                combo_t: if near.len() > 0 {
                    Num::spec_ratio(26, 10)
                } else {
                    self.dash.combo_t
                },
                best_combo: if near.len() > 0 && combo > self.dash.best_combo {
                    combo as u32
                } else {
                    self.dash.best_combo
                },
                near_misses: (self.dash.near_misses + near.len()) as u32,
                score: scored(self.dash.score, self.dash.combo as int, near.len()),
                ..self.dash
            },
            traffic: Seq::new(
                self.traffic.len(),
                |i: int|
                    Car {
                        passed: self.traffic[i].passed || (i < n && self.traffic[i].y.key
                            > Num::spec_whole(player_row(view) + 5).key),
                        ..self.traffic[i]
                    },
            ),
            floats: self.floats + Seq::new(
                near.len(),
                |k: int| close_caption(self.traffic[near[k] as int].x, self.dash.combo + k + 1, view),
            ),
            ..self
        }
    }

    /// The game after all cars were met, with the sparks of the near misses.
    #[verifier::opaque]
    pub open spec fn encountered(self, sparks: Seq<Spark>, view: Area) -> GameModel {
        let met = self.met(view, self.traffic.len() as int);
        GameModel {
            particles: puffed_all(
                self.particles,
                near_sparks(self.near_ones(view), self.traffic, self.dash.player_x, sparks, view),
            ),
            ..met
        }
    }

    /// The bonuses in reach, the last one first.
    pub open spec fn catch(self, view: Area) -> Seq<Pickup> {
        haul(self.pickups, self.dash.player_x, view, 0)
    }

    /// The game after the bonuses in reach were taken.
    pub open spec fn gathered(self, rays: Seq<Ray>, view: Area) -> GameModel {
        let taken = self.catch(view);
        GameModel {
            dash: Dash {
                score: enriched(self.dash.score, taken.len()),
                nitro: refuelled(self.dash.nitro, taken.len()),
                ..self.dash
            },
            pickups: left_over(self.pickups, self.dash.player_x, view, 0),
            floats: self.floats + taken.map_values(|p: Pickup| haul_caption(p)),
            particles: puffed_all(self.particles, haul_sparks(taken, rays)),
            ..self
        }
    }

    /// The game with the timer of the exhaust set.
    pub open spec fn exhaust_timer(self, t: Num) -> GameModel {
        GameModel { dash: Dash { exhaust_t: t, ..self.dash }, ..self }
    }

    /// Whether the game is `before` after a step of the exhaust. When its timer is up the car
    /// spits two flames while the nitro burns, of shapes and blues left to chance, and else
    /// one puff of smoke, thin or dense.
    pub open spec fn fumed(self, before: GameModel, dt: Num, flames: (Puff, Puff), smoke: Puff, view: Area) -> bool {
        let t = before.dash.exhaust_t.spec_minus(dt);
        let x = before.dash.player_x;
        if !is_up(t) {
            self == before.exhaust_timer(t)
        } else if before.dash.nitro_on {
            exists|a: int, b: int, c: int, d: int|
                #![trigger flame_of(flame_gust(flames.0, x, view), a, b), flame_of(flame_gust(flames.1, x, view), c, d)]
                0 <= a < 3 && 0 <= b < 3 && 0 <= c < 3 && 0 <= d < 3 && self == before.exhaust_timer(
                    Num::spec_ratio(3, 100),
                ).puffing(flame_of(flame_gust(flames.0, x, view), a, b)).puffing(
                    flame_of(flame_gust(flames.1, x, view), c, d),
                )
        } else {
            self == before.exhaust_timer(Num::spec_ratio(5, 100)).puffing(exhaust_of(smoke, x, view))
        }
    }

    /// The game with the tremor less by `rate` a second, never below none.
    pub open spec fn calmed(self, rate: Num, dt: Num) -> GameModel {
        GameModel {
            dash: Dash {
                shake: self.dash.shake.spec_minus(rate.spec_times(dt)).spec_max(Num::spec_whole(0)),
                ..self.dash
            },
            ..self
        }
    }

    /// The game after the player has driven for a step and met the traffic.
    pub open spec fn raced_on(self, dt: Num, view: Area, input: Input, dice: Dice) -> GameModel {
        self.ridden(dt, input, dice.dust, view).swaying(dt, dice.sines@, view).encountered(
            dice.sparks@,
            view,
        )
    }

    /// Whether the car is hit in a step of the race.
    pub open spec fn gets_hit(self, dt: Num, view: Area, input: Input, dice: Dice) -> bool {
        self.ridden(dt, input, dice.dust, view).swaying(dt, dice.sines@, view).is_hit(view)
    }

    /// Whether the game is `before` after a step of the race in which the car was hit.
    pub open spec fn smashed(self, before: GameModel, dt: Num, view: Area, input: Input, dice: Dice) -> bool {
        let met = before.raced_on(dt, view, input, dice);
        exists|quip: int|
            #![trigger met.crashed(quip)]
            0 <= quip < QUIP_COUNT && self.exploded(
                met.crashed(quip),
                gusts_of(dice.shards@, met.dash.player_x, view),
                wafts_of(dice.soot@, met.dash.player_x, view),
            )
    }

    /// The game after the traffic let the car pass and the bonuses in reach were taken.
    pub open spec fn gleaned(self, dt: Num, view: Area, dice: Dice) -> GameModel {
        self.thinned(view, -60).gathered(dice.rays@, view).bonuses_moved(
            dt,
            rows_in(self.dash.speed, dt),
            view,
        )
    }

    /// Whether the game is `before` after what comes when the traffic let the car pass:
    /// bonuses, new cars, scenery and smoke.
    #[verifier::opaque]
    pub open spec fn rolled_on(self, before: GameModel, dt: Num, view: Area, dice: Dice) -> bool {
        let road = before.gleaned(dt, view, dice);
        let rows = rows_in(before.dash.speed, dt);
        let next = dice.gap.spec_times(density(before.dash.speed, before.dash.diff));
        exists|a: GameModel, b: GameModel, c: GameModel, d: GameModel|
            #![trigger a.spawned(road, dt, next, dice.draft, view), b.bestowed(a, dt, dice.bonus_gap, view), c.sprouted(b, dt, dice.sprout, view), d.fumed(c.scenery_moved(rows, view), dt, dice.flames, dice.smoke, view)]
            a.spawned(road, dt, next, dice.draft, view) && b.bestowed(a, dt, dice.bonus_gap, view)
                && c.sprouted(b, dt, dice.sprout, view) && d.fumed(
                c.scenery_moved(rows, view),
                dt,
                dice.flames,
                dice.smoke,
                view,
            ) && self == d.adrift(dt, rows, view).calmed(Num::spec_ratio(22, 10), dt)
    }

    /// Whether the game is `before` after a step of the race in which the car was not hit.
    pub open spec fn raced(self, before: GameModel, dt: Num, view: Area, input: Input, dice: Dice) -> bool {
        self.rolled_on(before.raced_on(dt, view, input, dice), dt, view, dice)
    }

    /// Whether the game is `before` after a step of the race.
    pub open spec fn ran(self, before: GameModel, dt: Num, view: Area, input: Input, dice: Dice) -> bool {
        if before.gets_hit(dt, view, input, dice) {
            self.smashed(before, dt, view, input, dice)
        } else {
            self.raced(before, dt, view, input, dice)
        }
    }

    /// The bells of a step of the race: one for the nitro, one for each near miss, and two for
    /// each bonus or three for a crash.
    pub open spec fn race_bells(self, dt: Num, view: Area, input: Input, dice: Dice) -> int {
        let ahead = self.ridden(dt, input, dice.dust, view).swaying(dt, dice.sines@, view);
        let met = ahead.encountered(dice.sparks@, view);
        if !self.dash.sound {
            0
        } else {
            (if self.catches_fire(input) {
                1int
            } else {
                0
            }) + ahead.near_ones(view).len() + (if ahead.is_hit(view) {
                3
            } else {
                2 * met.thinned(view, -60).catch(view).len() as int
            })
        }
    }
}

/// The points for the near miss that makes the combo `combo`.
pub fn close_bonus(combo: u32) -> (r: u32)
    requires
        combo <= MANY_MISSES,
    ensures
        r == bonus_of(combo as int),
{
    100 + 60 * combo
}

/// The text for the near miss that makes the combo `combo`.
pub fn close_message(combo: u32) -> (r: String)
    requires
        combo <= MANY_MISSES,
    ensures
        r@ == close_text(combo as int),
{
    let mut r: String = String::new();
    r.push('+');
    push_decimal(&mut r, close_bonus(combo) as u64);
    r.append(" CLOSE!");
    assert(r@ =~= seq!['+'] + decimal(bonus_of(combo as int) as nat) + " CLOSE!"@);
    if combo > 1 {
        r.append(" x");
        push_decimal(&mut r, combo as u64);
    }
    r
}

/// How far two places are apart.
fn distance(a: Num, b: Num) -> (r: Num)
    ensures
        r == apart(a, b),
{
    a.minus(b).abs()
}

impl Game {
    /// Steers for a step: -1 to the left, 1 to the right.
    fn run_steering(&mut self, dir: i32, dt: Num)
        requires
            -1 <= dir <= 1,
        ensures
            final(self)@ == old(self)@.steered(dir as int, dt),
            old(self)@.wf() ==> final(self)@.wf(),
    {
        proof {
            fractions_keep_their_order(-34i32, 1, 34, 1);
            fractions_keep_their_order(0, 1, 1, 1);
        }
        let vx: Num = if dir != 0 {
            self.dash.player_vx.plus(Num::whole(130 * dir).times(dt))
        } else {
            let keep: Num = Num::whole(1).minus(Num::whole(10).times(dt)).clamp(
                Num::whole(0),
                Num::whole(1),
            );
            self.dash.player_vx.times(keep)
        };
        self.dash.player_vx = vx.clamp(Num::whole(-34), Num::whole(34));
    }

    /// Moves the car sideways, kept between the edges. Says whether it is off the road.
    fn run_place(&mut self, dt: Num, view: Area) -> (off: bool)
        ensures
            final(self)@ == old(self)@.settled(dt, view),
            off == final(self)@.off_road(view),
            old(self)@.wf() ==> final(self)@.wf(),
    {
        let road_w: Num = Num::whole(geom(view).road_w);
        let right: Num = road_w.plus(Num::ratio(120, 100));
        proof {
            lemma_right_of_left(view);
        }
        let x: Num = self.dash.player_x.plus(self.dash.player_vx.times(dt));
        let at: Num = x.clamp(Num::ratio(-12, 10), right);
        self.dash.player_x = at;
        if at.le(Num::ratio(-119, 100)) || road_w.plus(Num::ratio(119, 100)).le(at) {
            self.dash.player_vx = Num::whole(0);
        }
        at.lt(Num::ratio(16, 10)) || road_w.minus(Num::ratio(16, 10)).lt(at)
    }

    /// Burns nitro where it is called for and some is left, and fills it up again where
    /// not. Says how many bells ring.
    fn run_nitro(&mut self, wanted: bool, dt: Num, view: Area) -> (rung: usize)
        ensures
            final(self)@ == old(self)@.burned(wanted, dt, view),
            rung == (if old(self)@.dash.sound && old(self)@.ignites(wanted) && !old(self)@.dash.nitro_on {
                1int
            } else {
                0
            }),
            old(self)@.wf() ==> final(self)@.wf(),
    {
        let on: bool = wanted && Num::ratio(2, 100).lt(self.dash.nitro);
        let mut rung: usize = 0;
        proof {
            reveal_strlit("NITRO!");
        }
        if on && !self.dash.nitro_on {
            self.flash("NITRO!", rgb(120, 230, 255), view);
            rung = self.bells(1);
        }
        self.dash.nitro_on = on;
        if on {
            self.dash.nitro = self.dash.nitro.minus(Num::ratio(32, 100).times(dt)).max(Num::whole(0));
            self.dash.shake = self.dash.shake.max(Num::ratio(12, 100));
        } else {
            self.dash.nitro = self.dash.nitro.plus(Num::ratio(55, 1000).times(dt)).min(Num::whole(1));
        }
        rung
    }

    /// Changes the speed by `pull` km/h a second, within what the car can do.
    fn run_speed(&mut self, pull: i32, dt: Num)
        requires
            pull > i32::MIN,
        ensures
            final(self)@ == old(self)@.paced(pull as int, dt),
            old(self)@.wf() ==> final(self)@.wf(),
    {
        let top: i32 = self.dash.diff.max_speed();
        let limit: i32 = if self.dash.nitro_on {
            top + 55
        } else {
            top
        };
        proof {
            fractions_keep_their_order(32, 1, limit, 1);
        }
        self.dash.speed = self.dash.speed.plus(Num::whole(pull).times(dt)).clamp(
            Num::whole(32),
            Num::whole(limit),
        );
    }

    /// A step off the road: the car is slowed down and shaken, throws up dust and says so.
    fn run_offroad(&mut self, dt: Num, dust: (Num, Num), view: Area)
        ensures
            final(self)@ == old(self)@.scraped(dt, dust, view),
            old(self)@.wf() ==> final(self)@.wf(),
    {
        let none: Num = Num::whole(0);
        let x: Num = self.dash.player_x;
        let dust_left: Num = self.dash.dust_t.minus(dt);
        let msg_left: Num = self.dash.offroad_msg_t.minus(dt);
        self.dash.speed = self.dash.speed.minus(Num::whole(85).times(dt)).max(Num::whole(55));
        self.dash.shake = self.dash.shake.max(Num::ratio(3, 10));
        self.dash.dust_t = dust_left;
        if dust_left.le(none) {
            self.dash.dust_t = Num::ratio(6, 100);
            self.blow_dust(x.plus(Num::whole(-2)), dust.0, view);
            self.blow_dust(x.plus(Num::whole(2)), dust.1, view);
        }
        self.dash.offroad_msg_t = msg_left;
        proof {
            reveal_strlit("OFF ROAD!");
            if old(self)@.wf() {
                lemma_still_wf(old(self)@, self@);
            }
        }
        if msg_left.le(none) {
            self.dash.offroad_msg_t = Num::ratio(13, 10);
            proof {
                if old(self)@.wf() {
                    lemma_still_wf(old(self)@, self@);
                }
            }
            self.flash("OFF ROAD!", rgb(255, 170, 80), view);
        }
    }

    fn blow_dust(&mut self, x: Num, vx: Num, view: Area)
        ensures
            final(self)@ == old(self)@.puffing(dust_of(x, vx, view)),
            old(self)@.wf() ==> final(self)@.wf(),
    {
        let w: Waft = Waft { x, y: Num::whole(player_y(view) + 4), vx, vy: Num::whole(5) };
        self.puff(w, Num::ratio(4, 10), '░', rgb(165, 130, 70));
    }

    /// Writes down the road of a step and its points, and the speed if it is the highest yet.
    fn run_progress(&mut self, dt: Num)
        ensures
            final(self)@ == old(self)@.progressed(dt),
            old(self)@.wf() ==> final(self)@.wf(),
    {
        let speed: Num = self.dash.speed;
        let mult: Num = Num::whole(1).plus(Num::ratio(25, 100).times(Num::count(self.dash.combo)));
        let boost: Num = if self.dash.nitro_on {
            Num::ratio(15, 10)
        } else {
            Num::whole(1)
        };
        let gain: Num = speed.times(dt).times(Num::ratio(55, 100)).times(mult).times(boost);
        self.dash.top_speed = self.dash.top_speed.max(speed);
        self.dash.scroll = self.dash.scroll.plus(rows_passed(speed, dt));
        self.dash.distance = self.dash.distance.plus(speed.over(Num::ratio(36, 10)).times(dt));
        self.dash.score = self.dash.score.plus(gain);
        assert(self@ == old(self)@.progressed(dt));
        proof {
            if old(self)@.wf() {
                lemma_still_wf(old(self)@, self@);
            }
        }
    }

    /// Lets the time of a combo run; when it is up the combo is lost.
    fn run_combo(&mut self, dt: Num)
        ensures
            final(self)@ == old(self)@.combo_aged(dt),
            old(self)@.wf() ==> final(self)@.wf(),
    {
        if self.dash.combo > 0 {
            let left: Num = self.dash.combo_t.minus(dt);
            self.dash.combo_t = left;
            if left.le(Num::whole(0)) {
                self.dash.combo = 0;
            }
        }
    }

    /// Drives for a step, before the car meets anything. Says how many bells ring.
    fn ride(&mut self, dt: Num, input: &Input, dust: (Num, Num), view: Area) -> (rung: usize)
        requires
            old(self)@.wf(),
        ensures
            final(self)@ == old(self)@.ridden(dt, *input, dust, view),
            rung == (if old(self)@.dash.sound && old(self)@.catches_fire(*input) {
                1int
            } else {
                0
            }),
            final(self)@.wf(),
    {
        proof {
            reveal(GameModel::ridden);
        }
        let now: Num = self.dash.time;
        let ghost start = self@;
        self.dash.run_t = self.dash.run_t.plus(dt);
        proof {
            lemma_still_wf(start, self@);
        }
        self.run_steering(input.steer(now), dt);
        let off: bool = self.run_place(dt, view);
        let rung: usize = self.run_nitro(input.wants_nitro(now), dt, view);
        self.run_speed(input.throttle(now), dt);
        if off {
            self.run_offroad(dt, dust, view);
        }
        self.run_progress(dt);
        self.run_combo(dt);
        rung
    }

    /// Meets the traffic: finds whether a car hits the player's, and which ones were
    /// narrowly passed.
    fn run_contacts(&mut self, view: Area) -> (r: (bool, Vec<usize>))
        requires
            old(self)@.wf(),
            old(self)@.counts_misses(),
        ensures
            final(self)@ == old(self)@.met(view, old(self)@.traffic.len() as int),
            final(self)@.wf(),
            r.0 == old(self)@.is_hit(view),
            r.1@ == old(self)@.near_ones(view),
            r.1@.len() <= old(self)@.traffic.len(),
            forall|k: int| #![trigger r.1@[k]] 0 <= k < r.1@.len() ==> r.1@[k] < old(self)@.traffic.len(),
    {
        let ghost before = self@;
        let mut crashed: bool = false;
        let mut near: Vec<usize> = Vec::new();
        let x: Num = self.dash.player_x;
        let py: i32 = player_y(view);
        let slack: Num = Num::ratio(7, 10);
        let behind: Num = Num::whole(py + 5);
        let rear: Num = behind.minus(slack);
        let nose: Num = Num::whole(py).plus(slack);
        let width: Num = Num::ratio(43, 10);
        let side: Num = Num::ratio(46, 10);
        let close: Num = Num::ratio(18, 10);
        let five: Num = Num::whole(5);
        let seven: Num = Num::whole(7);
        let row: Num = Num::whole(py - 2);
        let mut i: usize = 0;
        proof {
            assert(before.met(view, 0).traffic =~= before.traffic);
            assert(before.met(view, 0).floats =~= before.floats);
        }
        while i < self.traffic.len()
            invariant
                i <= self.traffic.len() == before.traffic.len(),
                before.wf(),
                before.counts_misses(),
                self@ == before.met(view, i as int),
                x == before.dash.player_x,
                py == player_row(view),
                behind == Num::spec_whole(player_row(view) + 5),
                rear == behind.spec_minus(Num::spec_ratio(7, 10)),
                nose == Num::spec_whole(player_row(view)).spec_plus(Num::spec_ratio(7, 10)),
                width == Num::spec_ratio(43, 10),
                side == Num::spec_ratio(46, 10),
                close == Num::spec_ratio(18, 10),
                five == Num::spec_whole(5),
                seven == Num::spec_whole(7),
                row == Num::spec_whole(player_row(view) - 2),
                near@ == grazes(before.traffic, x, before.dash.speed, view, i as int),
                near@.len() <= i,
                forall|k: int| #![trigger near@[k]] 0 <= k < near@.len() ==> near@[k] < i,
                crashed <==> exists|k: int| #![trigger before.traffic[k]]
                    0 <= k < i && hits(before.traffic[k], x, view),
            decreases before.traffic.len() - i,
        {
            let c: Car = self.traffic[i];
            proof {
                assert(c == before.traffic[i as int]);
            }
            let rows: Num = if c.truck {
                seven
            } else {
                five
            };
            let dx: Num = distance(x, c.x);
            if c.y.lt(rear) && nose.lt(c.y.plus(rows)) && dx.lt(width) {
                crashed = true;
            }
            if !c.passed && behind.lt(c.y) {
                self.traffic.set(i, Car { passed: true, ..c });
                if dx.minus(side).lt(close) && c.speed.plus(five).lt(self.dash.speed) {
                    self.dash.combo = self.dash.combo + 1;
                    self.dash.combo_t = Num::ratio(26, 10);
                    if self.dash.combo > self.dash.best_combo {
                        self.dash.best_combo = self.dash.combo;
                    }
                    self.dash.near_misses = self.dash.near_misses + 1;
                    let combo: u32 = self.dash.combo;
                    near.push(i);
                    self.dash.score = self.dash.score.plus(Num::count(close_bonus(combo)));
                    self.add_float(
                        FloatText {
                            text: close_message(combo),
                            x: c.x,
                            y: row,
                            t: Num::whole(0),
                            color: rgb(255, 225, 90),
                        },
                    );
                }
            }
            i = i + 1;
            proof {
                let after = before.met(view, i as int);
                assert(self@.traffic =~= after.traffic);
                assert(self@.floats =~= after.floats);
                assert(self@.dash == after.dash);
            }
        }
        proof {
            assert forall|k: int| #![trigger self@.traffic[k]] 0 <= k < self@.traffic.len() implies self@.traffic[k].lane
                < 4 by {
                assert(before.traffic[k].lane < 4);
            }
            assert forall|k: int| #![trigger self@.floats[k]] 0 <= k < self@.floats.len() implies self@.floats[k].text.len()
                <= LONGEST by {
                if k < before.floats.len() {
                    assert(self@.floats[k] == before.floats[k]);
                } else {
                    lemma_close_text_short(before.dash.combo + (k - before.floats.len()) + 1);
                }
            }
        }
        (crashed, near)
    }

    /// Scatters the sparks of near misses, six for each.
    fn scatter_near(&mut self, near: &Vec<usize>, sparks: &Vec<Spark>, view: Area)
        requires
            sparks@.len() >= SPARKS * near@.len(),
            forall|k: int| #![trigger near@[k]] 0 <= k < near@.len() ==> near@[k] < old(self)@.traffic.len(),
        ensures
            final(self)@ == (GameModel {
                particles: puffed_all(
                    old(self)@.particles,
                    near_sparks(near@, old(self)@.traffic, old(self)@.dash.player_x, sparks@, view),
                ),
                ..old(self)@
            }),
            old(self)@.wf() ==> final(self)@.wf(),
    {
        let ghost all = near_sparks(near@, self@.traffic, self@.dash.player_x, sparks@, view);
        let row: Num = Num::whole(player_y(view) + 1);
        let two: Num = Num::whole(2);
        let life: Num = Num::ratio(3, 10);
        let supply: usize = sparks.len();
        assert(SPARKS * near@.len() <= supply);
        let total: usize = SPARKS * near.len();
        let mut j: usize = 0;
        assert(all.take(0) =~= Seq::<Particle>::empty());
        while j < total
            invariant
                j <= total == all.len() == SPARKS * near@.len(),
                sparks@.len() >= total,
                row == Num::spec_whole(player_row(view) + 1),
                two == Num::spec_whole(2),
                two.key != 0,
                life == Num::spec_ratio(3, 10),
                all == near_sparks(near@, old(self)@.traffic, old(self)@.dash.player_x, sparks@, view),
                forall|k: int| #![trigger near@[k]] 0 <= k < near@.len() ==> near@[k] < old(self)@.traffic.len(),
                self@ == (GameModel {
                    particles: puffed_all(old(self)@.particles, all.take(j as int)),
                    ..old(self)@
                }),
                old(self)@.wf() ==> self@.wf(),
            decreases total - j,
        {
            assert(near@[(j / SPARKS) as int] < old(self)@.traffic.len());
            let other: Num = self.traffic[near[j / SPARKS]].x;
            let s: Spark = sparks[j];
            let x: Num = self.dash.player_x.plus(other).over(two);
            self.puff(Waft { x, y: row, vx: s.vx, vy: s.vy }, life, '*', rgb(255, 240, 150));
            j = j + 1;
            proof {
                assert(all.take(j as int).drop_last() =~= all.take(j - 1));
            }
        }
        assert(all.take(j as int) =~= all);
    }

    /// Takes the bonuses in reach off the road. Gives them back, the last one first.
    fn run_pickups(&mut self, view: Area) -> (taken: Vec<Pickup>)
        ensures
            final(self)@ == (GameModel {
                dash: Dash {
                    score: enriched(old(self)@.dash.score, old(self)@.catch(view).len()),
                    nitro: refuelled(old(self)@.dash.nitro, old(self)@.catch(view).len()),
                    ..old(self)@.dash
                },
                pickups: left_over(old(self)@.pickups, old(self)@.dash.player_x, view, 0),
                floats: old(self)@.floats + old(self)@.catch(view).map_values(
                    |p: Pickup| haul_caption(p),
                ),
                ..old(self)@
            }),
            taken@ == old(self)@.catch(view),
            taken@.len() <= old(self)@.pickups.len(),
            old(self)@.wf() ==> final(self)@.wf(),
    {
        let ghost before = self@;
        let ghost all = self.pickups@;
        let x: Num = self.dash.player_x;
        let far_x: Num = Num::whole(3);
        let far_y: Num = Num::ratio(32, 10);
        let row: Num = Num::whole(player_y(view) + 2);
        let mut taken: Vec<Pickup> = Vec::new();
        let mut i: usize = self.pickups.len();
        proof {
            assert(before.floats + taken@.map_values(|p: Pickup| haul_caption(p)) =~= before.floats);
        }
        while i > 0
            invariant
                i <= all.len(),
                x == before.dash.player_x,
                far_x == Num::spec_whole(3),
                far_y == Num::spec_ratio(32, 10),
                row == Num::spec_whole(player_row(view) + 2),
                all == before.pickups,
                taken@ == haul(all, x, view, i as int),
                taken@.len() <= all.len() - i,
                self@ == (GameModel {
                    dash: Dash {
                        score: enriched(before.dash.score, taken@.len()),
                        nitro: refuelled(before.dash.nitro, taken@.len()),
                        ..before.dash
                    },
                    pickups: left_over(all, x, view, i as int),
                    floats: before.floats + taken@.map_values(|p: Pickup| haul_caption(p)),
                    ..before
                }),
            decreases i,
        {
            i = i - 1;
            proof {
                lemma_left_over(all, x, view, i + 1, i as int);
            }
            let p: Pickup = self.pickups[i];
            if distance(p.x, x).lt(far_x) && distance(p.y, row).lt(far_y) {
                self.pickups.swap_remove(i);
                taken.push(p);
                self.dash.score = self.dash.score.plus(Num::whole(250));
                self.dash.nitro = self.dash.nitro.plus(Num::ratio(35, 100)).min(Num::whole(1));
                self.add_float(
                    FloatText {
                        text: "+250 ◆".to_owned(),
                        x: p.x,
                        y: p.y,
                        t: Num::whole(0),
                        color: rgb(255, 205, 60),
                    },
                );
                assert(self@.floats =~= before.floats + taken@.map_values(|p: Pickup| haul_caption(p)));
            }
        }
        proof {
            reveal_strlit("+250 ◆");
            if old(self)@.wf() {
                assert forall|k: int| #![trigger self@.floats[k]] 0 <= k < self@.floats.len() implies self@.floats[k].text.len()
                    <= LONGEST by {
                    if k < before.floats.len() {
                        assert(self@.floats[k] == before.floats[k]);
                    }
                }
                lemma_still_wf(old(self)@, self@);
            }
        }
        taken
    }

    /// Scatters the sparks of bonuses that were taken, ten for each.
    fn scatter_haul(&mut self, taken: &Vec<Pickup>, rays: &Vec<Ray>)
        requires
            rays@.len() >= RAYS * taken@.len(),
        ensures
            final(self)@ == (GameModel {
                particles: puffed_all(old(self)@.particles, haul_sparks(taken@, rays@)),
                ..old(self)@
            }),
            old(self)@.wf() ==> final(self)@.wf(),
    {
        let ghost all = haul_sparks(taken@, rays@);
        let pace: Num = Num::whole(12);
        let life: Num = Num::ratio(4, 10);
        let supply: usize = rays.len();
        assert(RAYS * taken@.len() <= supply);
        let total: usize = RAYS * taken.len();
        let mut j: usize = 0;
        assert(all.take(0) =~= Seq::<Particle>::empty());
        while j < total
            invariant
                j <= total == all.len() == RAYS * taken@.len(),
                rays@.len() >= total,
                pace == Num::spec_whole(12),
                life == Num::spec_ratio(4, 10),
                all == haul_sparks(taken@, rays@),
                self@ == (GameModel {
                    particles: puffed_all(old(self)@.particles, all.take(j as int)),
                    ..old(self)@
                }),
                old(self)@.wf() ==> self@.wf(),
            decreases total - j,
        {
            let p: Pickup = taken[j / RAYS];
            let r: Ray = rays[j];
            let w: Waft = Waft { x: p.x, y: p.y, vx: r.cos.times(pace), vy: r.sin.times(pace) };
            self.puff(w, life, '*', rgb(255, 215, 90));
            j = j + 1;
            proof {
                assert(all.take(j as int).drop_last() =~= all.take(j - 1));
            }
        }
        assert(all.take(j as int) =~= all);
    }

    /// One flame of the nitro, of the shape and the blue drawn.
    pub fn flame(&mut self, g: Gust, shape: usize, hue: usize)
        ensures
            final(self)@ == old(self)@.puffing(flame_of(g, shape as int, hue as int)),
            old(self)@.wf() ==> final(self)@.wf(),
    {
        let ch: char = if shape == 0 {
            '▓'
        } else if shape == 1 {
            '▒'
        } else {
            '░'
        };
        let blue: Rgb = if hue == 0 {
            rgb(120, 230, 255)
        } else if hue == 1 {
            rgb(210, 245, 255)
        } else {
            rgb(80, 160, 255)
        };
        self.puff(g.waft, g.life, ch, blue);
    }

    /// How a flame of the nitro leaves the car.
    fn flame_path(&self, p: Puff, view: Area) -> (g: Gust)
        ensures
            g == flame_gust(p, self@.dash.player_x, view),
    {
        Gust {
            waft: Waft {
                x: self.dash.player_x.plus(p.dx),
                y: Num::whole(player_y(view)).plus(Num::ratio(48, 10)),
                vx: p.vx,
                vy: p.vy,
            },
            life: p.life,
        }
    }

    /// Lets the timer of the exhaust run. When it is up the car spits two flames while the
    /// nitro burns, of shapes and blues left to chance, and else one puff of smoke.
    pub fn run_exhaust(&mut self, dt: Num, flames: (Puff, Puff), smoke: Puff, view: Area)
        ensures
            final(self)@.fumed(old(self)@, dt, flames, smoke, view),
            old(self)@.wf() ==> final(self)@.wf(),
    {
        let t: Num = self.dash.exhaust_t.minus(dt);
        self.dash.exhaust_t = t;
        proof {
            if old(self)@.wf() {
                lemma_still_wf(old(self)@, self@);
            }
        }
        if t.le(Num::whole(0)) {
            if self.dash.nitro_on {
                self.dash.exhaust_t = Num::ratio(3, 100);
                proof {
                    if old(self)@.wf() {
                        lemma_still_wf(old(self)@, self@);
                    }
                }
                let first: Gust = self.flame_path(flames.0, view);
                let second: Gust = self.flame_path(flames.1, view);
                let a: usize = draw(&mut self.rng, 0, 3);
                let b: usize = draw(&mut self.rng, 0, 3);
                self.flame(first, a, b);
                let c: usize = draw(&mut self.rng, 0, 3);
                let d: usize = draw(&mut self.rng, 0, 3);
                self.flame(second, c, d);
                assert(self@ == old(self)@.exhaust_timer(Num::spec_ratio(3, 100)).puffing(
                    flame_of(
                        flame_gust(flames.0, old(self)@.dash.player_x, view),
                        a as int,
                        b as int,
                    ),
                ).puffing(
                    flame_of(
                        flame_gust(flames.1, old(self)@.dash.player_x, view),
                        c as int,
                        d as int,
                    ),
                ));
            } else {
                self.dash.exhaust_t = Num::ratio(5, 100);
                proof {
                    if old(self)@.wf() {
                        lemma_still_wf(old(self)@, self@);
                    }
                }
                let ch: char = if smoke.thin {
                    '░'
                } else {
                    '▒'
                };
                let w: Waft = Waft {
                    x: self.dash.player_x.plus(smoke.dx),
                    y: Num::whole(player_y(view) + 5),
                    vx: smoke.vx,
                    vy: smoke.vy,
                };
                self.puff(w, smoke.life, ch, rgb(105, 105, 112));
            }
        }
    }

    /// Lets the tremor fade by `rate` a second, never below none.
    pub fn run_calm(&mut self, rate: Num, dt: Num)
        ensures
            final(self)@ == old(self)@.calmed(rate, dt),
            old(self)@.wf() ==> final(self)@.wf(),
    {
        self.dash.shake = self.dash.shake.minus(rate.times(dt)).max(Num::whole(0));
        proof {
            if old(self)@.wf() {
                lemma_still_wf(old(self)@, self@);
            }
        }
    }

    /// The pause until the next car: longer at low speed.
    fn spawn_pause(&self, gap: Num) -> (r: Num)
        ensures
            r == gap.spec_times(density(self@.dash.speed, self@.dash.diff)),
    {
        proof {
            fractions_keep_their_order(6, 10, 15, 10);
        }
        let top: Num = Num::whole(self.dash.diff.max_speed());
        let share: Num = self.dash.speed.over(top);
        let dense: Num = Num::ratio(145, 100).minus(Num::ratio(65, 100).times(share)).clamp(
            Num::ratio(6, 10),
            Num::ratio(15, 10),
        );
        gap.times(dense)
    }

    /// What comes after the traffic let the car pass: bonuses, new cars, scenery and smoke.
    fn roll_on(&mut self, dt: Num, view: Area, dice: &Dice) -> (picked: usize)
        requires
            old(self)@.wf(),
            dice.rays@.len() >= RAYS * old(self)@.pickups.len(),
        ensures
            final(self)@.rolled_on(old(self)@, dt, view, *dice),
            final(self)@.dash.sound == old(self)@.dash.sound,
            picked == old(self)@.thinned(view, -60).catch(view).len(),
            picked <= old(self)@.pickups.len(),
            final(self)@.wf(),
    {
        let rows: Num = rows_passed(self.dash.speed, dt);
        self.thin_traffic(view, -60);
        let taken: Vec<Pickup> = self.run_pickups(view);
        self.scatter_haul(&taken, &dice.rays);
        self.move_pickups(dt, rows, view);
        let ghost road = self@;
        let next: Num = self.spawn_pause(dice.gap);
        self.tick_spawn(dt, next, dice.draft, view);
        let ghost a = self@;
        self.tick_pickup(dt, dice.bonus_gap, view);
        let ghost b = self@;
        self.update_scenery_spawn(dt, dice.sprout, view);
        let ghost c = self@;
        self.update_scenery_move(rows, view);
        self.run_exhaust(dt, dice.flames, dice.smoke, view);
        let ghost d = self@;
        self.update_particles(dt, rows, view);
        self.run_calm(Num::ratio(22, 10), dt);
        proof {
            reveal(GameModel::rolled_on);
            assert(road == old(self)@.gleaned(dt, view, *dice));
            assert(a.spawned(road, dt, next, dice.draft, view));
            assert(b.bestowed(a, dt, dice.bonus_gap, view));
            assert(c.sprouted(b, dt, dice.sprout, view));
            assert(d.fumed(c.scenery_moved(rows, view), dt, dice.flames, dice.smoke, view));
        }
        taken.len()
    }

    /// A step of the race. Says how many bells ring.
    pub fn update_running(&mut self, dt: Num, view: Area, input: &Input, dice: &Dice) -> (rung: usize)
        requires
            old(self)@.wf(),
            dice.fits(old(self)@),
            old(self)@.counts_misses(),
        ensures
            final(self)@.ran(old(self)@, dt, view, *input, *dice),
            rung == old(self)@.race_bells(dt, view, *input, *dice),
            final(self)@.wf(),
    {
        let supply: usize = dice.rays.len();
        assert(RAYS * old(self)@.pickups.len() <= supply);
        let (crashed, first): (bool, usize) = self.meet(dt, view, input, dice);
        if crashed {
            let last: usize = self.crash(&dice.shards, &dice.soot, view);
            return first + last;
        }
        let picked: usize = self.roll_on(dt, view, dice);
        let last: usize = if self.dash.sound {
            2 * picked
        } else {
            0
        };
        first + last
    }

    /// Drives for a step and meets the traffic. Says whether the car was hit, and how many
    /// bells ring.
    fn meet(&mut self, dt: Num, view: Area, input: &Input, dice: &Dice) -> (r: (bool, usize))
        requires
            old(self)@.wf(),
            dice.fits(old(self)@),
            old(self)@.counts_misses(),
        ensures
            final(self)@ == old(self)@.raced_on(dt, view, *input, *dice),
            final(self)@.wf(),
            final(self)@.dash.sound == old(self)@.dash.sound,
            final(self)@.pickups == old(self)@.pickups,
            r.0 == old(self)@.gets_hit(dt, view, *input, *dice),
            r.1 == (if old(self)@.dash.sound {
                (if old(self)@.catches_fire(*input) {
                    1int
                } else {
                    0
                }) + old(self)@.ridden(dt, *input, dice.dust, view).swaying(
                    dt,
                    dice.sines@,
                    view,
                ).near_ones(view).len()
            } else {
                0
            }),
            r.1 <= 1 + old(self)@.traffic.len(),
    {
        let first: usize = self.ride(dt, input, dice.dust, view);
        proof {
            lemma_ride_keeps(old(self)@, dt, *input, dice.dust, view);
        }
        self.weave_traffic(dt, &dice.sines, view);
        let ghost ahead = self@;
        let (crashed, near): (bool, Vec<usize>) = self.run_contacts(view);
        let ghost met = self@;
        self.scatter_near(&near, &dice.sparks, view);
        proof {
            reveal(GameModel::encountered);
            assert(near_sparks(near@, met.traffic, ahead.dash.player_x, dice.sparks@, view)
                =~= near_sparks(near@, ahead.traffic, ahead.dash.player_x, dice.sparks@, view));
        }
        let rung: usize = self.bells(near.len());
        (crashed, first + rung)
    }
}

/// The text for a near miss is short.
proof fn lemma_close_text_short(combo: int)
    requires
        0 <= combo <= MANY_MISSES,
    ensures
        close_text(combo).len() <= LONGEST,
{
    reveal_strlit(" CLOSE!");
    reveal_strlit(" x");
    assert(vstd::arithmetic::power::pow(10, 10) == 10_000_000_000) by {
        reveal_with_fuel(vstd::arithmetic::power::pow, 11);
    }
    lemma_decimal_length(bonus_of(combo) as nat, 10, 10_000_000_000);
    lemma_decimal_length(combo as nat, 10, 10_000_000_000);
}

/// Driving changes neither the cars nor the bonuses on the road.
proof fn lemma_ride_keeps(g: GameModel, dt: Num, input: Input, dust: (Num, Num), view: Area)
    ensures
        g.ridden(dt, input, dust, view).traffic == g.traffic,
        g.ridden(dt, input, dust, view).pickups == g.pickups,
        g.ridden(dt, input, dust, view).dash.near_misses == g.dash.near_misses,
        g.ridden(dt, input, dust, view).dash.combo <= g.dash.combo,
        g.ridden(dt, input, dust, view).dash.sound == g.dash.sound,
{
    reveal(GameModel::ridden);
}

/// The right edge is on the right of the left one.
proof fn lemma_right_of_left(view: Area)
    ensures
        Num::spec_ratio(-12, 10).key <= beyond(view, 120).key,
{
    let w = road(view.width as int).road_w;
    crate::num::whole_numbers_are_exact(w);
    fractions_keep_their_order(-12i32, 10, 0, 1);
    fractions_keep_their_order(0, 1, 120, 100);
    crate::num::whole_numbers_are_exact(0);
    crate::num::numbers_order_as_keys(Num::spec_whole(0), Num::spec_ratio(120, 100));
    crate::num::numbers_order_as_keys(Num::spec_whole(0), Num::spec_whole(w as int));
    crate::arith::sums_keep_their_sign(Num::spec_whole(w as int), Num::spec_ratio(120, 100));
}

/// Taking bonuses from `i` on does not touch those before `i`.
proof fn lemma_left_over(s: Seq<Pickup>, x: Num, view: Area, i: int, j: int)
    requires
        0 <= j < i <= s.len(),
    ensures
        left_over(s, x, view, i).len() >= i,
        left_over(s, x, view, i)[j] == s[j],
    decreases s.len() - i,
{
    if i < s.len() {
        lemma_left_over(s, x, view, i + 1, j);
        lemma_left_over(s, x, view, i + 1, i);
    }
}

proof fn lemma_swapped_out(s: Seq<Pickup>, i: int)
    requires
        0 <= i < s.len(),
    ensures
        swapped_out(s, i).to_multiset().insert(s[i]) == s.to_multiset(),
{
    broadcast use vstd::seq_lib::group_to_multiset_ensures;

    if i == s.len() - 1 {
        assert(swapped_out(s, i) =~= s.remove(i));
        assert(s.to_multiset().count(s[i]) > 0) by {
            assert(s.contains(s[i]));
        }
    } else {
        let last = s.last();
        let short = s.remove(s.len() - 1);
        assert(swapped_out(s, i) =~= short.remove(i).insert(i, last));
        assert(short[i] == s[i]);
        assert(short.contains(short[i]));
        assert(s.contains(last));
    }
    assert(swapped_out(s, i).to_multiset().insert(s[i]) =~= s.to_multiset());
}

/// Every bonus is either taken or left, and none is taken twice.
pub proof fn bonuses_are_taken_or_left(s: Seq<Pickup>, x: Num, view: Area, i: int)
    requires
        0 <= i <= s.len(),
    ensures
        left_over(s, x, view, i).to_multiset().add(haul(s, x, view, i).to_multiset()) == s.to_multiset(),
    decreases s.len() - i,
{
    broadcast use vstd::seq_lib::group_to_multiset_ensures;

    if i < s.len() {
        bonuses_are_taken_or_left(s, x, view, i + 1);
        if in_reach(s[i], x, view) {
            lemma_left_over(s, x, view, i + 1, i);
            lemma_swapped_out(left_over(s, x, view, i + 1), i);
        }
    }
    assert(left_over(s, x, view, i).to_multiset().add(haul(s, x, view, i).to_multiset())
        =~= s.to_multiset());
}

/// However hard the car is pushed, it stays between the edges of the road.
pub proof fn car_stays_between_the_edges(g: GameModel, dt: Num, view: Area)
    ensures
        Num::spec_ratio(-12, 10).key <= g.settled(dt, view).dash.player_x.key <= beyond(view, 120).key,
{
    lemma_right_of_left(view);
}

/// The speed stays within what the intensity allows, with 55 km/h more while the nitro burns.
pub proof fn speed_stays_within_limits(g: GameModel, pull: int, dt: Num)
    ensures
        Num::spec_whole(32).key <= g.paced(pull, dt).dash.speed.key <= Num::spec_whole(
            speed_limit(g.dash.diff, g.dash.nitro_on),
        ).key,
{
    fractions_keep_their_order(32, 1, speed_limit(g.dash.diff, g.dash.nitro_on) as i32, 1);
}

/// Nitro never burns from an almost empty tank.
pub proof fn no_nitro_from_an_empty_tank(g: GameModel, wanted: bool, dt: Num, view: Area)
    requires
        g.dash.nitro.key <= Num::spec_ratio(2, 100).key,
    ensures
        !g.burned(wanted, dt, view).dash.nitro_on,
{
}

/// Each near miss of a combo is worth sixty points more than the one before.
pub proof fn combos_pay_more(combo: int)
    ensures
        bonus_of(combo + 1) == bonus_of(combo) + 60,
        bonus_of(1) == 160,
{
}

/// Once passed, a car stays passed, and it is not narrowly passed a second time.
pub proof fn cars_are_passed_once(g: GameModel, view: Area, i: int, x: Num, speed: Num)
    requires
        0 <= i < g.traffic.len(),
        g.traffic[i].passed || grazed(g.traffic[i], g.dash.player_x, g.dash.speed, view),
    ensures
        ({
            let after = g.met(view, g.traffic.len() as int);
            after.traffic[i].passed && !grazed(after.traffic[i], x, speed, view)
        }),
{
}

/// The tank stays between empty and full.
pub proof fn tank_stays_between_empty_and_full(g: GameModel, wanted: bool, dt: Num, view: Area)
    requires
        0 <= g.dash.nitro.key <= Num::spec_whole(1).key,
        dt.key >= 0,
    ensures
        0 <= g.burned(wanted, dt, view).dash.nitro.key <= Num::spec_whole(1).key,
{
    let drain = Num::spec_ratio(32, 100);
    let flow = Num::spec_ratio(55, 1000);
    lemma_wholes_are_small(1);
    fractions_keep_their_order(0, 1, 32, 100);
    fractions_keep_their_order(0, 1, 55, 1000);
    assert(Num::spec_whole(0).key == 0);
    sums_keep_their_sign(drain, dt);
    sums_keep_their_sign(flow, dt);
    sums_grow(g.dash.nitro, drain.spec_times(dt));
    sums_grow(g.dash.nitro, flow.spec_times(dt));
}

/// Driving on never costs points, nor distance.
pub proof fn driving_gains(g: GameModel, dt: Num)
    requires
        g.dash.speed.key >= 0,
        dt.key >= 0,
        -ENDLESS <= g.dash.score.key <= ENDLESS,
        -ENDLESS <= g.dash.distance.key <= ENDLESS,
    ensures
        g.progressed(dt).dash.score.key >= g.dash.score.key,
        g.progressed(dt).dash.distance.key >= g.dash.distance.key,
        g.progressed(dt).dash.top_speed.key >= g.dash.speed.key,
        -ENDLESS <= g.progressed(dt).dash.score.key <= ENDLESS,
{
    let speed = g.dash.speed;
    assert(Num::spec_whole(0).key == 0);
    fractions_keep_their_order(0, 1, 55, 100);
    fractions_keep_their_order(0, 1, 25, 100);
    fractions_keep_their_order(0, 1, 15, 10);
    fractions_keep_their_order(0, 1, 1, 1);
    lemma_wholes_are_small(g.dash.combo as nat);
    let bonus = Num::spec_ratio(25, 100).spec_times(Num::spec_whole(g.dash.combo as int));
    let mult = Num::spec_whole(1).spec_plus(bonus);
    let boost = if g.dash.nitro_on {
        Num::spec_ratio(15, 10)
    } else {
        Num::spec_whole(1)
    };
    sums_keep_their_sign(Num::spec_ratio(25, 100), Num::spec_whole(g.dash.combo as int));
    sums_keep_their_sign(Num::spec_whole(1), bonus);
    sums_keep_their_sign(speed, dt);
    sums_keep_their_sign(speed.spec_times(dt), Num::spec_ratio(55, 100));
    sums_keep_their_sign(speed.spec_times(dt).spec_times(Num::spec_ratio(55, 100)), mult);
    sums_keep_their_sign(
        speed.spec_times(dt).spec_times(Num::spec_ratio(55, 100)).spec_times(mult),
        boost,
    );
    sums_grow(g.dash.score, g.gain(dt));
    lemma_pace_of_metres();
    quotients_keep_their_sign(speed, Num::spec_ratio(36, 10));
    sums_keep_their_sign(speed.spec_over(Num::spec_ratio(36, 10)), dt);
    sums_grow(g.dash.distance, speed.spec_over(Num::spec_ratio(36, 10)).spec_times(dt));
    results_are_bounded(g.dash.score.value() + g.gain(dt).value(), 1);
}

proof fn lemma_pace_of_metres()
    ensures
        Num::spec_ratio(36, 10).key > 0,
{
    fractions_keep_their_order(1, 1, 36, 10);
    whole_numbers_are_exact(1);
    whole_numbers_are_exact(0);
    vstd::arithmetic::power2::lemma_pow2_pos(1074);
    numbers_order_as_keys(Num::spec_whole(0), Num::spec_whole(1));
    assert(Num::spec_whole(0).key == 0);
}

/// Near misses never cost points.
pub proof fn near_misses_pay(score: Num, combo: int, n: nat)
    requires
        -ENDLESS <= score.key <= ENDLESS,
        0 <= combo,
        combo + n <= MANY_MISSES,
    ensures
        scored(score, combo, n).key >= score.key,
        -ENDLESS <= scored(score, combo, n).key <= ENDLESS,
    decreases n,
{
    if n > 0 {
        let before = scored(score, combo, (n - 1) as nat);
        let bonus = bonus_of(combo + n);
        near_misses_pay(score, combo, (n - 1) as nat);
        lemma_wholes_are_small(bonus as nat);
        sums_grow(before, Num::spec_whole(bonus));
        results_are_bounded(before.value() + Num::spec_whole(bonus).value(), 1);
    }
}

/// Bonuses never cost points.
pub proof fn bonuses_pay(score: Num, n: nat)
    requires
        -ENDLESS <= score.key <= ENDLESS,
    ensures
        enriched(score, n).key >= score.key,
        -ENDLESS <= enriched(score, n).key <= ENDLESS,
    decreases n,
{
    if n > 0 {
        let before = enriched(score, (n - 1) as nat);
        bonuses_pay(score, (n - 1) as nat);
        lemma_wholes_are_small(250);
        sums_grow(before, Num::spec_whole(250));
        results_are_bounded(before.value() + Num::spec_whole(250).value(), 1);
    }
}

pub(crate) proof fn lemma_grazes_len(traffic: Seq<Car>, x: Num, speed: Num, view: Area, n: int)
    requires
        0 <= n,
    ensures
        grazes(traffic, x, speed, view, n).len() <= n,
    decreases n,
{
    if n > 0 {
        lemma_grazes_len(traffic, x, speed, view, n - 1);
    }
}

/// Whatever happens in a step of the race, no points are lost by it.
pub proof fn points_are_never_lost(
    before: GameModel,
    after: GameModel,
    dt: Num,
    view: Area,
    input: Input,
    dice: Dice,
)
    requires
        before.wf(),
        before.counts_misses(),
        -ENDLESS <= before.dash.score.key <= ENDLESS,
        dt.key >= 0,
        after.smashed(before, dt, view, input, dice) || after.raced(before, dt, view, input, dice),
    ensures
        after.dash.score.key >= before.dash.score.key,
{
    let rough = before.rough_ridden(dt, input, dice.dust, view);
    let ridden = before.ridden(dt, input, dice.dust, view);
    let ahead = ridden.swaying(dt, dice.sines@, view);
    let met = before.raced_on(dt, view, input, dice);
    reveal(GameModel::ridden);
    assert(rough.dash.score == before.dash.score);
    lemma_speed_is_positive(before, dt, input, dice.dust, view);
    let measured = GameModel { dash: Dash { distance: Num { key: 0 }, ..rough.dash }, ..rough };
    driving_gains(measured, dt);
    assert(measured.gain(dt) == rough.gain(dt));
    assert(ridden.dash.score == rough.progressed(dt).dash.score);
    assert(ahead.dash.score.key >= before.dash.score.key);
    assert(ahead.dash.combo <= before.dash.combo);
    reveal(GameModel::encountered);
    lemma_grazes_len(
        ahead.traffic,
        ahead.dash.player_x,
        ahead.dash.speed,
        view,
        ahead.traffic.len() as int,
    );
    near_misses_pay(ahead.dash.score, ahead.dash.combo as int, ahead.near_ones(view).len());
    assert(met.dash.score.key >= before.dash.score.key);
    if after.raced(before, dt, view, input, dice) {
        reveal(GameModel::rolled_on);
        let taken = met.thinned(view, -60).catch(view);
        bonuses_pay(met.dash.score, taken.len());
        let road = met.gleaned(dt, view, dice);
        assert(road.dash.score.key >= met.dash.score.key);
    }
}

/// The car never stands still in a race.
pub(crate) proof fn lemma_speed_is_positive(g: GameModel, dt: Num, input: Input, dust: (Num, Num), view: Area)
    ensures
        g.rough_ridden(dt, input, dust, view).dash.speed.key >= 0,
{
    let now = g.dash.time;
    let placed = g.run_timed(dt).steered(input.direction(now), dt).settled(dt, view);
    let burned = placed.burned(input.holds(Control::Nitro, now), dt, view);
    speed_stays_within_limits(burned, input.pull(now), dt);
    assert(Num::spec_whole(0).key == 0);
    fractions_keep_their_order(0, 1, 32, 1);
    fractions_keep_their_order(0, 1, 55, 1);
}

} // verus!
