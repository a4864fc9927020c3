//! What a step of the game is given from outside: random draws, and sines and cosines.

use crate::game::GameModel;
use crate::num::Num;
use crate::odds::odds_of;
use vstd::prelude::*;

verus! {

/// What chance decides of the scenery, besides the slogan and the column.
#[derive(Clone, Copy, Debug)]
pub struct Sprout {
    /// The pause until the next thing comes.
    pub next: Num,
    /// Whether this one comes on the left.
    pub left: bool,
    /// What it is to be.
    pub roll: Num,
}

/// What chance decides of a new car, besides its lane and its paint.
#[derive(Clone, Copy, Debug)]
pub struct Draft {
    pub truck: bool,
    /// How fast it is; a truck is slower by a fifth.
    pub speed: Num,
    pub wob: Num,
    pub wob_f: Num,
}

/// What chance decides of a puff of smoke or a flame.
#[derive(Clone, Copy, Debug)]
pub struct Puff {
    /// How far from its source it begins.
    pub dx: Num,
    pub dy: Num,
    pub vx: Num,
    pub vy: Num,
    pub life: Num,
    /// Whether it is thin smoke.
    pub thin: bool,
}

/// How a spark flies.
#[derive(Clone, Copy, Debug)]
pub struct Spark {
    pub vx: Num,
    pub vy: Num,
}

/// A direction: the cosine and the sine of an angle.
#[derive(Clone, Copy, Debug)]
pub struct Ray {
    pub cos: Num,
    pub sin: Num,
}

/// How a shard of the wreck flies.
#[derive(Clone, Copy, Debug)]
pub struct Shard {
    pub ray: Ray,
    pub pace: Num,
    /// How far from the middle of the car it begins.
    pub dx: Num,
    pub dy: Num,
    pub life: Num,
}

/// How the black smoke of the wreck spreads.
#[derive(Clone, Copy, Debug)]
pub struct Soot {
    pub ray: Ray,
    pub pace: Num,
}

/// All that a step of the game is given from outside.
pub struct Dice {
    pub sprout: Sprout,
    /// The pause until the next car, before the density of the traffic.
    pub gap: Num,
    pub draft: Draft,
    /// The pause until the next bonus.
    pub bonus_gap: Num,
    /// How the dust of the left and of the right wheel flies sideways.
    pub dust: (Num, Num),
    pub smoke: Puff,
    pub flames: (Puff, Puff),
    /// How far from the middle of the wreck an ember begins, if there is one.
    pub ember: Option<Num>,
    /// Six sparks for each car that might be narrowly passed.
    pub sparks: Vec<Spark>,
    /// Ten directions for each bonus that might be taken.
    pub rays: Vec<Ray>,
    pub shards: Vec<Shard>,
    pub soot: Vec<Soot>,
    /// The sine of the sway of each car after this step.
    pub sines: Vec<Num>,
    /// The sine of the way of the car in the show behind the menu.
    pub sine: Num,
}

/// The shards of an explosion.
pub const SHARDS: usize = 44;

/// The clouds of smoke of an explosion.
pub const CLOUDS: usize = 12;

/// The sparks of a near miss.
pub const SPARKS: usize = 6;

/// The sparks of a bonus.
pub const RAYS: usize = 10;

impl Dice {
    /// Whether all was drawn at the odds of this game, and there is enough for a step of it.
    pub open spec fn fits(self, g: GameModel) -> bool {
        &&& self.obey(odds_of(g))
        &&& self.sines@.len() == g.traffic.len()
        &&& self.sparks@.len() >= SPARKS * g.traffic.len()
        &&& self.rays@.len() >= RAYS * g.pickups.len()
        &&& self.shards@.len() == SHARDS
        &&& self.soot@.len() == CLOUDS
    }
}

} // verus!
