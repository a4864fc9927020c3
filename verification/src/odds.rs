//! The ranges from which chance draws, and how likely it is to say yes.

use crate::arith::rounding_keeps_the_order;
use crate::dice::{Dice, Draft, Puff, Ray, Shard, Soot, Spark};
use crate::difficulty::Difficulty;
use crate::game::{Game, GameModel, State};
use crate::geometry::Area;
use crate::num::{fractions_keep_their_order, numbers_order_as_keys, Num};
use crate::traffic::new_car;
use vstd::prelude::*;

verus! {

/// From where to where a number is drawn, in hundredths: the first end is in, the other not.
#[derive(Clone, Copy, PartialEq, Eq, Structural, Debug)]
pub struct Bounds {
    pub lo: i32,
    pub hi: i32,
}

/// The odds of a puff of smoke or a flame.
#[derive(Clone, Copy, PartialEq, Eq, Structural, Debug)]
pub struct PuffOdds {
    pub dx: Bounds,
    pub dy: Bounds,
    pub vx: Bounds,
    pub vy: Bounds,
    pub life: Bounds,
    /// How often it is thin, in a hundred times.
    pub thin: u32,
}

/// The odds of a step.
#[derive(Clone, Copy, PartialEq, Eq, Structural, Debug)]
pub struct Odds {
    /// The pause until the next thing beside the road.
    pub sprout: Bounds,
    /// How often that comes on the left, in a hundred times.
    pub left: u32,
    /// What it is to be.
    pub roll: Bounds,
    /// The pause until the next car.
    pub gap: Bounds,
    /// How often that is a truck, in a hundred times.
    pub truck: u32,
    /// How fast it is.
    pub speed: Bounds,
    pub wob: Bounds,
    pub wob_f: Bounds,
    /// The pause until the next bonus.
    pub bonus: Bounds,
    pub dust: Bounds,
    pub smoke: PuffOdds,
    pub flame: PuffOdds,
    /// How often the wreck throws an ember, in a hundred times.
    pub ember: u32,
    pub ember_dx: Bounds,
    pub spark_vx: Bounds,
    pub spark_vy: Bounds,
    pub shard_pace: Bounds,
    pub shard_dx: Bounds,
    pub shard_dy: Bounds,
    pub shard_life: Bounds,
    pub soot_pace: Bounds,
}

impl Bounds {
    /// Whether a number lies within the bounds.
    pub open spec fn holds(self, n: Num) -> bool {
        Num::spec_ratio(self.lo as int, 100).key <= n.key < Num::spec_ratio(self.hi as int, 100).key
    }

    /// From `lo` to `hi` hundredths.
    pub open spec fn of(lo: int, hi: int) -> Bounds {
        Bounds { lo: lo as i32, hi: hi as i32 }
    }
}

impl PuffOdds {
    /// Whether a puff was drawn at these odds.
    pub open spec fn gave(self, p: Puff) -> bool {
        &&& self.dx.holds(p.dx)
        &&& self.dy.holds(p.dy)
        &&& self.vx.holds(p.vx)
        &&& self.vy.holds(p.vy)
        &&& self.life.holds(p.life)
    }
}

/// Whether a number can be a sine or a cosine: it is between minus one and one.
pub open spec fn is_sine(n: Num) -> bool {
    Num::spec_whole(-1).key <= n.key <= Num::spec_whole(1).key
}

/// Whether a direction is one of the circle: neither part is longer than one.
pub open spec fn is_direction(r: Ray) -> bool {
    is_sine(r.cos) && is_sine(r.sin)
}

impl Odds {
    /// Whether a car was drafted at these odds.
    pub open spec fn drafted(self, d: Draft) -> bool {
        &&& self.speed.holds(d.speed)
        &&& self.wob.holds(d.wob)
        &&& self.wob_f.holds(d.wob_f)
    }

    /// Whether a shard was thrown at these odds.
    pub open spec fn threw(self, s: Shard) -> bool {
        &&& is_direction(s.ray)
        &&& self.shard_pace.holds(s.pace)
        &&& self.shard_dx.holds(s.dx)
        &&& self.shard_dy.holds(s.dy)
        &&& self.shard_life.holds(s.life)
    }

    /// Whether soot spread at these odds.
    pub open spec fn spread(self, s: Soot) -> bool {
        is_direction(s.ray) && self.soot_pace.holds(s.pace)
    }

    /// Whether a spark flew at these odds.
    pub open spec fn struck(self, s: Spark) -> bool {
        self.spark_vx.holds(s.vx) && self.spark_vy.holds(s.vy)
    }
}

impl Dice {
    /// Whether all was drawn at these odds, and the sines are such.
    pub open spec fn obey(self, o: Odds) -> bool {
        &&& o.sprout.holds(self.sprout.next)
        &&& o.roll.holds(self.sprout.roll)
        &&& o.gap.holds(self.gap)
        &&& o.drafted(self.draft)
        &&& o.bonus.holds(self.bonus_gap)
        &&& o.dust.holds(self.dust.0)
        &&& o.dust.holds(self.dust.1)
        &&& o.smoke.gave(self.smoke)
        &&& o.flame.gave(self.flames.0)
        &&& o.flame.gave(self.flames.1)
        &&& self.ember is Some ==> o.ember_dx.holds(self.ember->0)
        &&& is_sine(self.sine)
        &&& forall|i: int| #![trigger self.sines@[i]] 0 <= i < self.sines@.len() ==> is_sine(self.sines@[i])
        &&& forall|i: int| #![trigger self.sparks@[i]] 0 <= i < self.sparks@.len() ==> o.struck(self.sparks@[i])
        &&& forall|i: int| #![trigger self.rays@[i]] 0 <= i < self.rays@.len() ==> is_direction(self.rays@[i])
        &&& forall|i: int| #![trigger self.shards@[i]] 0 <= i < self.shards@.len() ==> o.threw(self.shards@[i])
        &&& forall|i: int| #![trigger self.soot@[i]] 0 <= i < self.soot@.len() ==> o.spread(self.soot@[i])
    }
}

impl GameModel {
    /// The intensity that governs the traffic: the selected one in the menu, else that of the
    /// run.
    pub open spec fn governing(self) -> Difficulty {
        if self.dash.state is Menu {
            self.dash.sel
        } else {
            self.dash.diff
        }
    }
}

/// The odds of smoke: that of a wreck spreads wider.
pub open spec fn smoke_odds(state: State) -> PuffOdds {
    if state is Crashing || state is GameOver {
        PuffOdds {
            dx: Bounds::of(-150, 150),
            dy: Bounds::of(0, 300),
            vx: Bounds::of(-200, 200),
            vy: Bounds::of(700, 1000),
            life: Bounds::of(35, 55),
            thin: 60,
        }
    } else {
        PuffOdds {
            dx: Bounds::of(-70, 70),
            dy: Bounds::of(0, 300),
            vx: Bounds::of(-150, 150),
            vy: Bounds::of(700, 1000),
            life: Bounds::of(35, 55),
            thin: 50,
        }
    }
}

/// The odds of a flame.
pub open spec fn flame_odds() -> PuffOdds {
    PuffOdds {
        dx: Bounds::of(-100, 100),
        dy: Bounds::of(0, 300),
        vx: Bounds::of(-300, 300),
        vy: Bounds::of(1600, 2400),
        life: Bounds::of(18, 30),
        thin: 50,
    }
}

/// The odds of a step of this game.
pub open spec fn odds_of(g: GameModel) -> Odds {
    let d = g.governing();
    Odds {
        sprout: Bounds::of(18, 55),
        left: 50,
        roll: Bounds::of(0, 100),
        gap: if g.dash.state is Menu {
            Bounds::of(180, 320)
        } else {
            Bounds::of(d.shortest_gap(), d.longest_gap())
        },
        truck: 22,
        speed: Bounds::of(100 * d.slowest(), 100 * d.fastest()),
        wob: Bounds::of(0, 628),
        wob_f: Bounds::of(70, 190),
        bonus: Bounds::of(400, 800),
        dust: Bounds::of(-300, 300),
        smoke: smoke_odds(g.dash.state),
        flame: flame_odds(),
        ember: 40,
        ember_dx: Bounds::of(-150, 150),
        spark_vx: Bounds::of(-1400, 1400),
        spark_vy: Bounds::of(-1000, 1000),
        shard_pace: Bounds::of(500, 3200),
        shard_dx: Bounds::of(-150, 150),
        shard_dy: Bounds::of(-100, 200),
        shard_life: Bounds::of(50, 120),
        soot_pace: Bounds::of(200, 1000),
    }
}

fn bounds(lo: i32, hi: i32) -> (b: Bounds)
    ensures
        b == Bounds::of(lo as int, hi as int),
{
    Bounds { lo, hi }
}

fn smoke_chances(state: State) -> (p: PuffOdds)
    ensures
        p == smoke_odds(state),
{
    match state {
        State::Crashing | State::GameOver => PuffOdds {
            dx: bounds(-150, 150),
            dy: bounds(0, 300),
            vx: bounds(-200, 200),
            vy: bounds(700, 1000),
            life: bounds(35, 55),
            thin: 60,
        },
        _ => PuffOdds {
            dx: bounds(-70, 70),
            dy: bounds(0, 300),
            vx: bounds(-150, 150),
            vy: bounds(700, 1000),
            life: bounds(35, 55),
            thin: 50,
        },
    }
}

impl Game {
    /// The odds of the next step.
    pub fn odds(&self) -> (o: Odds)
        ensures
            o == odds_of(self@),
    {
        let menu: bool = self.dash.state == State::Menu;
        let d: Difficulty = if menu {
            self.dash.sel
        } else {
            self.dash.diff
        };
        let (slow, fast): (i32, i32) = d.traffic();
        let (short, long): (i32, i32) = d.spawn_gap();
        Odds {
            sprout: bounds(18, 55),
            left: 50,
            roll: bounds(0, 100),
            gap: if menu {
                bounds(180, 320)
            } else {
                bounds(short, long)
            },
            truck: 22,
            speed: bounds(100 * slow, 100 * fast),
            wob: bounds(0, 628),
            wob_f: bounds(70, 190),
            bonus: bounds(400, 800),
            dust: bounds(-300, 300),
            smoke: smoke_chances(self.dash.state),
            flame: PuffOdds {
                dx: bounds(-100, 100),
                dy: bounds(0, 300),
                vx: bounds(-300, 300),
                vy: bounds(1600, 2400),
                life: bounds(18, 30),
                thin: 50,
            },
            ember: 40,
            ember_dx: bounds(-150, 150),
            spark_vx: bounds(-1400, 1400),
            spark_vy: bounds(-1000, 1000),
            shard_pace: bounds(500, 3200),
            shard_dx: bounds(-150, 150),
            shard_dy: bounds(-100, 200),
            shard_life: bounds(50, 120),
            soot_pace: bounds(200, 1000),
        }
    }
}

/// Products with the same positive number keep their order.
proof fn lemma_products_keep_their_order(a: Num, b: Num, c: Num)
    requires
        a.key <= b.key,
        c.key >= 0,
    ensures
        a.spec_times(c).key <= b.spec_times(c).key,
{
    numbers_order_as_keys(a, b);
    let x = a.value();
    let y = b.value();
    let z = c.value();
    assert(x * z <= y * z) by (nonlinear_arith)
        requires
            x <= y,
            z >= 0,
    ;
    vstd::arithmetic::power2::lemma_pow2_pos(1074);
    rounding_keeps_the_order(x * z, y * z, vstd::arithmetic::power2::pow2(1074));
}

/// The intensity governs the traffic: a car that joins is as fast as its slowest and at most
/// as fast as its fastest, a truck by a fifth slower, and the next one waits as long as it
/// says.
pub proof fn intensity_governs_the_traffic(g: GameModel, dice: Dice, lane: int, paint: int, view: Area)
    requires
        dice.obey(odds_of(g)),
    ensures
        ({
            let c = new_car(lane, paint, dice.draft, view);
            let slow = Num::spec_ratio(100 * g.governing().slowest(), 100);
            let fast = Num::spec_ratio(100 * g.governing().fastest(), 100);
            let share = Num::spec_ratio(8, 10);
            &&& !c.truck ==> slow.key <= c.speed.key < fast.key
            &&& c.truck ==> slow.spec_times(share).key <= c.speed.key <= fast.spec_times(share).key
        }),
        g.dash.state !is Menu ==> Bounds::of(g.dash.diff.shortest_gap(), g.dash.diff.longest_gap()).holds(
            dice.gap,
        ),
        g.dash.state is Menu ==> Bounds::of(180, 320).holds(dice.gap),
{
    let slow = Num::spec_ratio(100 * g.governing().slowest(), 100);
    let fast = Num::spec_ratio(100 * g.governing().fastest(), 100);
    let share = Num::spec_ratio(8, 10);
    fractions_keep_their_order(0, 1, 8, 10);
    assert(Num::spec_whole(0).key == 0);
    lemma_products_keep_their_order(slow, dice.draft.speed, share);
    lemma_products_keep_their_order(dice.draft.speed, fast, share);
}

} // verus!
