//! The crash and what comes after it.

use crate::chance::draw;
use crate::dice::{Dice, Puff, Shard, Soot};
use crate::drift::{particle_of, rows_in, rows_passed, Gust, Waft};
use crate::entities::{puffed_all, Particle};
use crate::game::{lemma_still_wf, Dash, Game, GameModel, State, QUIP_COUNT};
use crate::geometry::{player_row, player_y, Area};
use crate::num::Num;
use crate::running::is_up;
use crate::style::{color, rgb, Rgb};
use vstd::prelude::*;

verus! {

/// The character of a shard, by the number drawn.
pub open spec fn shard_char(i: int) -> char {
    if i == 0 {
        '█'
    } else if i == 1 {
        '▓'
    } else if i == 2 {
        '▒'
    } else if i == 3 {
        '░'
    } else {
        '*'
    }
}

/// The colour of a shard, by the number drawn.
pub open spec fn shard_color(i: int) -> Rgb {
    if i == 0 {
        color(255, 120, 40)
    } else if i == 1 {
        color(255, 200, 60)
    } else if i == 2 {
        color(255, 70, 40)
    } else if i == 3 {
        color(240, 240, 240)
    } else {
        color(130, 130, 135)
    }
}

/// A shard of the wreck.
pub open spec fn shard_of(g: Gust, shape: int, hue: int) -> Particle {
    particle_of(g.waft, g.life, shard_char(shape), shard_color(hue))
}

/// Whether a particle is the shard that flies as `g`, of one of the shapes and colours.
pub open spec fn is_shard(p: Particle, g: Gust) -> bool {
    exists|shape: int, hue: int|
        #![trigger shard_char(shape), shard_color(hue)]
        0 <= shape < 5 && 0 <= hue < 5 && p == shard_of(g, shape, hue)
}

/// How a shard flies from the middle of a car at column `x`.
pub open spec fn gust_of(s: Shard, x: Num, view: Area) -> Gust {
    Gust {
        waft: Waft {
            x: x.spec_plus(s.dx),
            y: blast_row(view).spec_plus(s.dy),
            vx: s.ray.cos.spec_times(s.pace),
            vy: s.ray.sin.spec_times(s.pace).spec_minus(Num::spec_whole(5)),
        },
        life: s.life,
    }
}

/// The row in which a car blows up.
pub open spec fn blast_row(view: Area) -> Num {
    Num::spec_whole(player_row(view)).spec_plus(Num::spec_ratio(15, 10))
}

/// How the shards fly from the middle of a car at column `x`.
pub open spec fn gusts_of(shards: Seq<Shard>, x: Num, view: Area) -> Seq<Gust> {
    Seq::new(shards.len(), |i: int| gust_of(shards[i], x, view))
}

/// How black smoke spreads from a car at column `x`.
pub open spec fn waft_of(s: Soot, x: Num, view: Area) -> Waft {
    Waft {
        x,
        y: blast_row(view).spec_plus(Num::spec_whole(1)),
        vx: s.ray.cos.spec_times(s.pace),
        vy: s.ray.sin.spec_times(s.pace).spec_minus(Num::spec_whole(3)),
    }
}

/// How the black smoke spreads from a car at column `x`.
pub open spec fn wafts_of(soot: Seq<Soot>, x: Num, view: Area) -> Seq<Waft> {
    Seq::new(soot.len(), |i: int| waft_of(soot[i], x, view))
}

/// The black smoke of the wreck.
pub open spec fn soot_of(wafts: Seq<Waft>) -> Seq<Particle> {
    Seq::new(wafts.len(), |i: int| particle_of(wafts[i], Num::spec_whole(1), '▓', color(55, 52, 50)))
}

impl GameModel {
    /// The game with these shards and the smoke after them.
    pub open spec fn blown_up(self, shards: Seq<Particle>, soot: Seq<Waft>) -> GameModel {
        GameModel { particles: puffed_all(puffed_all(self.particles, shards), soot_of(soot)), ..self }
    }

    /// Whether the game is `before` after an explosion: the shards fly as given, their
    /// shapes and colours are left to chance.
    pub open spec fn exploded(self, before: GameModel, shards: Seq<Gust>, soot: Seq<Waft>) -> bool {
        exists|flying: Seq<Particle>|
            #![trigger before.blown_up(flying, soot)]
            are_shards(flying, shards) && self == before.blown_up(flying, soot)
    }

    /// The game at the moment of a crash, with the remark of that number.
    pub open spec fn crashed(self, quip: int) -> GameModel {
        GameModel {
            dash: Dash {
                state: State::Crashing,
                crash_t: Num::spec_whole(0),
                wreck_t: Num::spec_whole(0),
                shake: Num::spec_ratio(13, 10),
                nitro_on: false,
                combo: 0,
                quip: quip as usize,
                ..self.dash
            },
            ..self
        }
    }

    /// The game while the wreck slides on for a step, ever slower.
    pub open spec fn sliding(self, dt: Num) -> GameModel {
        let speed = self.dash.speed.spec_minus(Num::spec_whole(300).spec_times(dt)).spec_max(
            Num::spec_whole(0),
        );
        GameModel {
            dash: Dash {
                crash_t: self.dash.crash_t.spec_plus(dt),
                speed,
                scroll: self.dash.scroll.spec_plus(rows_in(speed, dt)),
                ..self.dash
            },
            ..self
        }
    }

    /// The game with the timer of the smoke set.
    pub open spec fn wreck_timer(self, t: Num) -> GameModel {
        GameModel { dash: Dash { wreck_t: t, ..self.dash }, ..self }
    }

    /// The game after a step of the smoke of the sliding wreck. When the timer is up there is
    /// a puff, thin or dense, and an ember if one was drawn.
    pub open spec fn smouldering(self, dt: Num, smoke: Puff, ember: Option<Num>, view: Area) -> GameModel {
        let t = self.dash.wreck_t.spec_minus(dt);
        let x = self.dash.player_x;
        if !is_up(t) {
            self.wreck_timer(t)
        } else {
            let smoky = self.wreck_timer(Num::spec_ratio(9, 100)).puffing(
                particle_of(
                    Waft {
                        x: x.spec_plus(smoke.dx),
                        y: Num::spec_whole(player_row(view)).spec_plus(smoke.dy),
                        vx: smoke.vx,
                        vy: Num::spec_whole(-4),
                    },
                    Num::spec_ratio(9, 10),
                    if smoke.thin {
                        '░'
                    } else {
                        '▒'
                    },
                    color(90, 90, 96),
                ),
            );
            match ember {
                Some(dx) => smoky.puffing(
                    particle_of(
                        Waft {
                            x: x.spec_plus(dx),
                            y: Num::spec_whole(player_row(view) + 2),
                            vx: Num::spec_whole(0),
                            vy: Num::spec_whole(-2),
                        },
                        Num::spec_ratio(5, 10),
                        '*',
                        color(255, 140, 50),
                    ),
                ),
                None => smoky,
            }
        }
    }

    /// The game after a step of the smoke of the wreck at rest.
    pub open spec fn smoking(self, dt: Num, dx: Num, view: Area) -> GameModel {
        let t = self.dash.wreck_t.spec_minus(dt);
        if !is_up(t) {
            self.wreck_timer(t)
        } else {
            self.wreck_timer(Num::spec_ratio(16, 100)).puffing(
                particle_of(
                    Waft {
                        x: self.dash.player_x.spec_plus(dx),
                        y: Num::spec_whole(player_row(view) + 1),
                        vx: Num::spec_whole(0),
                        vy: Num::spec_ratio(-35, 10),
                    },
                    Num::spec_whole(1),
                    '░',
                    color(80, 80, 86),
                ),
            )
        }
    }

    /// The game after the run ended, if the wreck has come to rest: the score is entered.
    pub open spec fn concluded(self) -> GameModel {
        if self.at_rest() {
            self.in_state(State::GameOver).committed()
        } else {
            self
        }
    }

    /// The game after a step of a crash, before it may end.
    pub open spec fn tumbled(self, dt: Num, view: Area, dice: Dice) -> GameModel {
        let slid = self.sliding(dt);
        let rows = rows_in(slid.dash.speed, dt);
        slid.scenery_moved(rows, view).smouldering(dt, dice.smoke, dice.ember, view).adrift(
            dt,
            rows,
            view,
        ).calmed(Num::spec_ratio(14, 10), dt)
    }

    /// The game after a step at the end of a run.
    pub open spec fn rested(self, dt: Num, view: Area, dice: Dice) -> GameModel {
        self.smoking(dt, dice.smoke.dx, view).adrift(dt, Num::spec_whole(0), view).calmed(
            Num::spec_whole(2),
            dt,
        )
    }

    /// Whether the wreck has come to rest.
    pub open spec fn at_rest(self) -> bool {
        self.dash.crash_t.key > Num::spec_ratio(15, 10).key
    }
}

/// Whether these particles are the shards that fly so.
pub open spec fn are_shards(flying: Seq<Particle>, shards: Seq<Gust>) -> bool {
    &&& flying.len() == shards.len()
    &&& forall|i: int| #![trigger flying[i]] 0 <= i < flying.len() ==> is_shard(flying[i], shards[i])
}

impl Game {
    /// One shard of the wreck, of the shape and the colour drawn.
    pub fn shard(&mut self, g: Gust, shape: usize, hue: usize)
        requires
            shape < 5,
            hue < 5,
        ensures
            final(self)@ == old(self)@.puffing(shard_of(g, shape as int, hue as int)),
            old(self)@.wf() ==> final(self)@.wf(),
    {
        let ch: char = match shape {
            0 => '█',
            1 => '▓',
            2 => '▒',
            3 => '░',
            _ => '*',
        };
        let tint: Rgb = match hue {
            0 => rgb(255, 120, 40),
            1 => rgb(255, 200, 60),
            2 => rgb(255, 70, 40),
            3 => rgb(240, 240, 240),
            _ => rgb(130, 130, 135),
        };
        self.puff(g.waft, g.life, ch, tint);
    }

    /// Blows the car up: shards of shapes and colours left to chance, then black smoke.
    pub fn explode(&mut self, shards: &Vec<Gust>, soot: &Vec<Waft>)
        ensures
            final(self)@.exploded(old(self)@, shards@, soot@),
            old(self)@.wf() ==> final(self)@.wf(),
    {
        let ghost mut flying: Seq<Particle> = Seq::empty();
        let mut i: usize = 0;
        while i < shards.len()
            invariant
                i <= shards@.len(),
                flying.len() == i,
                forall|k: int| #![trigger flying[k]] 0 <= k < i ==> is_shard(flying[k], shards@[k]),
                self@ == (GameModel { particles: puffed_all(old(self)@.particles, flying), ..old(self)@ }),
                old(self)@.wf() ==> self@.wf(),
            decreases shards@.len() - i,
        {
            let shape: usize = draw(&mut self.rng, 0, 5);
            let hue: usize = draw(&mut self.rng, 0, 5);
            let g: Gust = shards[i];
            self.shard(g, shape, hue);
            proof {
                let p = shard_of(g, shape as int, hue as int);
                assert(shard_char(shape as int) == p.ch && shard_color(hue as int) == p.color);
                assert(is_shard(p, g));
                assert(flying.push(p).drop_last() =~= flying);
                flying = flying.push(p);
            }
            i = i + 1;
        }
        let ghost mid = self@;
        let ghost smoke = soot_of(soot@);
        let mut j: usize = 0;
        assert(smoke.take(0) =~= Seq::<Particle>::empty());
        while j < soot.len()
            invariant
                j <= soot@.len() == smoke.len(),
                smoke == soot_of(soot@),
                self@ == (GameModel { particles: puffed_all(mid.particles, smoke.take(j as int)), ..mid }),
                old(self)@.wf() ==> self@.wf(),
            decreases soot@.len() - j,
        {
            self.puff(soot[j], Num::whole(1), '▓', rgb(55, 52, 50));
            j = j + 1;
            proof {
                assert(smoke.take(j as int).drop_last() =~= smoke.take(j - 1));
            }
        }
        assert(smoke.take(j as int) =~= smoke);
        assert(self@ == old(self)@.blown_up(flying, soot@));
    }

    /// Crashes with the remark of that number.
    pub fn wreck(&mut self, quip: usize)
        requires
            quip < QUIP_COUNT,
        ensures
            final(self)@ == old(self)@.crashed(quip as int),
            old(self)@.wf() ==> final(self)@.wf(),
    {
        self.dash.state = State::Crashing;
        self.dash.crash_t = Num::whole(0);
        self.dash.wreck_t = Num::whole(0);
        self.dash.shake = Num::ratio(13, 10);
        self.dash.nitro_on = false;
        self.dash.combo = 0;
        self.dash.quip = quip;
    }

    /// Crashes, with a remark left to chance, and blows the car up. Says how many bells ring.
    pub fn crash(&mut self, shards: &Vec<Shard>, soot: &Vec<Soot>, view: Area) -> (rung: usize)
        ensures
            exists|quip: int|
                #![trigger old(self)@.crashed(quip)]
                0 <= quip < QUIP_COUNT && final(self)@.exploded(
                    old(self)@.crashed(quip),
                    gusts_of(shards@, old(self)@.dash.player_x, view),
                    wafts_of(soot@, old(self)@.dash.player_x, view),
                ),
            rung == (if old(self)@.dash.sound {
                3int
            } else {
                0
            }),
            old(self)@.wf() ==> final(self)@.wf(),
    {
        let x: Num = self.dash.player_x;
        let row: Num = Num::whole(player_y(view)).plus(Num::ratio(15, 10));
        let mut gusts: Vec<Gust> = Vec::new();
        let mut i: usize = 0;
        while i < shards.len()
            invariant
                i <= shards@.len(),
                row == blast_row(view),
                gusts@.len() == i,
                forall|k: int| #![trigger gusts@[k]] 0 <= k < i ==> gusts@[k] == gust_of(shards@[k], x, view),
            decreases shards@.len() - i,
        {
            let s: Shard = shards[i];
            let waft: Waft = Waft {
                x: x.plus(s.dx),
                y: row.plus(s.dy),
                vx: s.ray.cos.times(s.pace),
                vy: s.ray.sin.times(s.pace).minus(Num::whole(5)),
            };
            gusts.push(Gust { waft, life: s.life });
            i = i + 1;
        }
        let mut wafts: Vec<Waft> = Vec::new();
        let low: Num = row.plus(Num::whole(1));
        let mut j: usize = 0;
        while j < soot.len()
            invariant
                j <= soot@.len(),
                low == blast_row(view).spec_plus(Num::spec_whole(1)),
                wafts@.len() == j,
                forall|k: int| #![trigger wafts@[k]] 0 <= k < j ==> wafts@[k] == waft_of(soot@[k], x, view),
            decreases soot@.len() - j,
        {
            let s: Soot = soot[j];
            wafts.push(
                Waft {
                    x,
                    y: low,
                    vx: s.ray.cos.times(s.pace),
                    vy: s.ray.sin.times(s.pace).minus(Num::whole(3)),
                },
            );
            j = j + 1;
        }
        assert(gusts@ =~= gusts_of(shards@, x, view));
        assert(wafts@ =~= wafts_of(soot@, x, view));
        let quip: usize = draw(&mut self.rng, 0, QUIP_COUNT);
        self.wreck(quip);
        self.explode(&gusts, &wafts);
        assert(self@.exploded(old(self)@.crashed(quip as int), gusts@, wafts@));
        self.bells(3)
    }

    /// Lets the wreck slide on for a step.
    fn crash_slide(&mut self, dt: Num)
        ensures
            final(self)@ == old(self)@.sliding(dt),
            old(self)@.wf() ==> final(self)@.wf(),
    {
        self.dash.crash_t = self.dash.crash_t.plus(dt);
        let speed: Num = self.dash.speed.minus(Num::whole(300).times(dt)).max(Num::whole(0));
        self.dash.speed = speed;
        self.dash.scroll = self.dash.scroll.plus(rows_passed(speed, dt));
        proof {
            if old(self)@.wf() {
                lemma_still_wf(old(self)@, self@);
            }
        }
    }

    /// Lets the timer of the smoke of the sliding wreck run.
    fn crash_smoke(&mut self, dt: Num, smoke: Puff, ember: Option<Num>, view: Area)
        ensures
            final(self)@ == old(self)@.smouldering(dt, smoke, ember, view),
            old(self)@.wf() ==> final(self)@.wf(),
    {
        let x: Num = self.dash.player_x;
        let py: i32 = player_y(view);
        let t: Num = self.dash.wreck_t.minus(dt);
        self.dash.wreck_t = t;
        if t.le(Num::whole(0)) {
            self.dash.wreck_t = Num::ratio(9, 100);
            let ch: char = if smoke.thin {
                '░'
            } else {
                '▒'
            };
            let w: Waft = Waft {
                x: x.plus(smoke.dx),
                y: Num::whole(py).plus(smoke.dy),
                vx: smoke.vx,
                vy: Num::whole(-4),
            };
            self.puff(w, Num::ratio(9, 10), ch, rgb(90, 90, 96));
            if let Some(dx) = ember {
                let e: Waft = Waft {
                    x: x.plus(dx),
                    y: Num::whole(py + 2),
                    vx: Num::whole(0),
                    vy: Num::whole(-2),
                };
                self.puff(e, Num::ratio(5, 10), '*', rgb(255, 140, 50));
            }
        }
        proof {
            if old(self)@.wf() {
                lemma_still_wf(old(self)@, self@);
            }
        }
    }

    /// Ends the run once the wreck has come to rest, and enters the score. Says whether it
    /// is a new best, to be written down.
    fn crash_end(&mut self) -> (best: bool)
        ensures
            final(self)@ == old(self)@.concluded(),
            best == (old(self)@.at_rest() && old(self)@.points() > old(self)@.hi[old(self)@.dash.diff.place()]),
            old(self)@.wf() ==> final(self)@.wf(),
    {
        if Num::ratio(15, 10).lt(self.dash.crash_t) {
            self.dash.state = State::GameOver;
            self.commit_hi()
        } else {
            false
        }
    }

    /// A step of a crash. Says whether the run ended with a new best, to be written down.
    pub fn update_crashing(&mut self, dt: Num, view: Area, dice: &Dice) -> (best: bool)
        ensures
            final(self)@ == old(self)@.tumbled(dt, view, *dice).concluded(),
            best == ({
                let end = old(self)@.tumbled(dt, view, *dice);
                end.at_rest() && end.points() > end.hi[end.dash.diff.place()]
            }),
            old(self)@.wf() ==> final(self)@.wf(),
    {
        self.crash_slide(dt);
        let rows: Num = rows_passed(self.dash.speed, dt);
        self.update_scenery_move(rows, view);
        self.crash_smoke(dt, dice.smoke, dice.ember, view);
        self.update_particles(dt, rows, view);
        self.run_calm(Num::ratio(14, 10), dt);
        self.crash_end()
    }

    /// Lets the timer of the smoke of the wreck at rest run.
    fn gameover_smoke(&mut self, dt: Num, dx: Num, view: Area)
        ensures
            final(self)@ == old(self)@.smoking(dt, dx, view),
            old(self)@.wf() ==> final(self)@.wf(),
    {
        let t: Num = self.dash.wreck_t.minus(dt);
        self.dash.wreck_t = t;
        if t.le(Num::whole(0)) {
            self.dash.wreck_t = Num::ratio(16, 100);
            let w: Waft = Waft {
                x: self.dash.player_x.plus(dx),
                y: Num::whole(player_y(view) + 1),
                vx: Num::whole(0),
                vy: Num::ratio(-35, 10),
            };
            self.puff(w, Num::whole(1), '░', rgb(80, 80, 86));
        }
        proof {
            if old(self)@.wf() {
                lemma_still_wf(old(self)@, self@);
            }
        }
    }

    /// A step at the end of a run.
    pub fn update_gameover(&mut self, dt: Num, view: Area, dice: &Dice)
        ensures
            final(self)@ == old(self)@.rested(dt, view, *dice),
            old(self)@.wf() ==> final(self)@.wf(),
    {
        self.gameover_smoke(dt, dice.smoke.dx, view);
        self.update_particles(dt, Num::whole(0), view);
        self.run_calm(Num::whole(2), dt);
    }
}

/// Entering a score never lowers a best score, and touches none of another intensity.
pub proof fn best_scores_never_fall(g: GameModel, i: int)
    requires
        g.wf(),
        0 <= i < 3,
    ensures
        g.committed().hi[i] >= g.hi[i],
        i != g.dash.diff.place() ==> g.committed().hi[i] == g.hi[i],
        g.committed().hi[g.dash.diff.place()] >= g.points(),
        g.committed().hi != g.hi <==> g.points() > g.hi[g.dash.diff.place()],
{
}

/// Entering the same score twice is the same as entering it once.
pub proof fn a_score_counts_once(g: GameModel)
    requires
        g.wf(),
    ensures
        g.committed().committed() == g.committed(),
{
}

/// A crash costs the combo but not the best one, nor the near misses.
pub proof fn a_crash_keeps_the_record(g: GameModel, quip: int)
    ensures
        g.crashed(quip).dash.combo == 0,
        g.crashed(quip).dash.best_combo == g.dash.best_combo,
        g.crashed(quip).dash.near_misses == g.dash.near_misses,
        g.crashed(quip).dash.score == g.dash.score,
{
}

} // verus!
