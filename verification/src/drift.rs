//! Particles and floating texts: how they come, move on and go.

use crate::entities::{
    lemma_captions_filter, puff, puffed, retain, Caption, FloatText, Particle, LONGEST,
};
use crate::game::{Game, GameModel};
use crate::geometry::Area;
use crate::num::Num;
use crate::style::Rgb;
use vstd::prelude::*;

verus! {

/// Where a particle begins and how it moves, in columns and rows and per second.
#[derive(Clone, Copy, Debug)]
pub struct Waft {
    pub x: Num,
    pub y: Num,
    pub vx: Num,
    pub vy: Num,
}

/// A particle with a life of its own.
#[derive(Clone, Copy, Debug)]
pub struct Gust {
    pub waft: Waft,
    pub life: Num,
}

/// The rows that pass in a step at this speed.
pub open spec fn rows_in(speed: Num, dt: Num) -> Num {
    speed.spec_times(Num::spec_ratio(11, 100)).spec_times(dt)
}

/// The rows that pass in a step at this speed.
pub fn rows_passed(speed: Num, dt: Num) -> (r: Num)
    ensures
        r == rows_in(speed, dt),
{
    speed.times(Num::ratio(11, 100)).times(dt)
}

/// A new particle that the road carries along.
pub open spec fn particle_of(w: Waft, life: Num, ch: char, color: Rgb) -> Particle {
    Particle { x: w.x, y: w.y, vx: w.vx, vy: w.vy, life, max: life, ch, color, scrolls: true }
}

/// A new particle that the road carries along.
pub fn particle(w: Waft, life: Num, ch: char, color: Rgb) -> (p: Particle)
    ensures
        p == particle_of(w, life, ch, color),
{
    Particle { x: w.x, y: w.y, vx: w.vx, vy: w.vy, life, max: life, ch, color, scrolls: true }
}

/// A particle after a step in which the road moved on by `rows`.
pub open spec fn blown(p: Particle, dt: Num, rows: Num) -> Particle {
    let y = p.y.spec_plus(p.vy.spec_times(dt));
    Particle {
        x: p.x.spec_plus(p.vx.spec_times(dt)),
        y: if p.scrolls {
            y.spec_plus(rows)
        } else {
            y
        },
        life: p.life.spec_minus(dt),
        ..p
    }
}

/// The particles after a step.
pub open spec fn drifted(particles: Seq<Particle>, dt: Num, rows: Num) -> Seq<Particle> {
    Seq::new(particles.len(), |i: int| blown(particles[i], dt, rows))
}

/// Whether a particle is alive and still near the view.
pub open spec fn lively(p: Particle, view: Area) -> bool {
    &&& p.life.key > Num::spec_whole(0).key
    &&& p.y.key < Num::spec_whole(view.height + 6).key
    &&& p.y.key > Num::spec_whole(-8).key
}

/// A floating text after a step: it rises by seven rows a second.
pub open spec fn lifted(c: Caption, dt: Num) -> Caption {
    Caption {
        y: c.y.spec_minus(Num::spec_whole(7).spec_times(dt)),
        t: c.t.spec_plus(dt),
        ..c
    }
}

/// The floating texts after a step.
pub open spec fn risen(floats: Seq<Caption>, dt: Num) -> Seq<Caption> {
    Seq::new(floats.len(), |i: int| lifted(floats[i], dt))
}

/// Whether a floating text is still to be seen.
pub open spec fn fresh(c: Caption) -> bool {
    c.t.key < Num::spec_ratio(115, 100).key
}

impl GameModel {
    /// The game with one more particle.
    pub open spec fn puffing(self, p: Particle) -> GameModel {
        GameModel { particles: puffed(self.particles, p), ..self }
    }

    /// The game after particles and texts moved on, the spent ones gone.
    pub open spec fn adrift(self, dt: Num, rows: Num, view: Area) -> GameModel {
        GameModel {
            particles: drifted(self.particles, dt, rows).filter(|p: Particle| lively(p, view)),
            floats: risen(self.floats, dt).filter(|c: Caption| fresh(c)),
            ..self
        }
    }
}

impl Game {
    /// Adds a particle that the road carries along.
    pub fn puff(&mut self, w: Waft, life: Num, ch: char, color: Rgb)
        ensures
            final(self)@ == old(self)@.puffing(particle_of(w, life, ch, color)),
            old(self)@.wf() ==> final(self)@.wf(),
    {
        puff(&mut self.particles, particle(w, life, ch, color));
    }

    /// Moves particles and floating texts on while the road moves on by `rows`, and drops
    /// the spent ones.
    pub fn update_particles(&mut self, dt: Num, rows: Num, view: Area)
        ensures
            final(self)@ == old(self)@.adrift(dt, rows, view),
            old(self)@.wf() ==> final(self)@.wf(),
    {
        self.move_particles(dt, rows);
        let low: Num = Num::whole(view.height as i32 + 6);
        let high: Num = Num::whole(-8);
        let none: Num = Num::whole(0);
        let stays = |p: &Particle| -> (b: bool)
            ensures
                b == lively(*p, view),
        {
            none.lt(p.life) && p.y.lt(low) && high.lt(p.y)
        };
        retain(&mut self.particles, stays, Ghost(|p: Particle| lively(p, view)));
        self.raise_floats(dt);
        let spent: Num = Num::ratio(115, 100);
        let ghost shown = self.floats@;
        let ghost pick = |f: FloatText| fresh(f@);
        let shows = |f: &FloatText| -> (b: bool)
            ensures
                b == fresh(f@),
        {
            f.t.lt(spent)
        };
        retain(&mut self.floats, shows, Ghost(pick));
        proof {
            lemma_captions_filter(shown, pick, |c: Caption| fresh(c));
            lemma_filter_len(drifted(old(self)@.particles, dt, rows), |p: Particle| lively(p, view));
            if old(self)@.wf() {
                let short = |c: Caption| c.text.len() <= LONGEST;
                let all = risen(old(self)@.floats, dt);
                assert forall|i: int| #![trigger all[i]] 0 <= i < all.len() implies short(all[i]) by {
                    assert(old(self)@.floats[i].text.len() <= LONGEST);
                }
                lemma_filter_all(all, |c: Caption| fresh(c), short);
                assert forall|i: int| #![trigger self@.floats[i]] 0 <= i < self@.floats.len() implies self@.floats[i].text.len()
                    <= LONGEST by {
                    assert(short(self@.floats[i]));
                }
            }
        }
    }

    fn move_particles(&mut self, dt: Num, rows: Num)
        ensures
            final(self)@ == (GameModel {
                particles: drifted(old(self)@.particles, dt, rows),
                ..old(self)@
            }),
    {
        let ghost all = self.particles@;
        let mut i: usize = 0;
        while i < self.particles.len()
            invariant
                i <= self.particles.len() == all.len(),
                self@ == (GameModel { particles: self.particles@, ..old(self)@ }),
                forall|k: int| #![trigger self.particles@[k]]
                    0 <= k < i ==> self.particles@[k] == blown(all[k], dt, rows),
                forall|k: int| #![trigger self.particles@[k]] i <= k < all.len() ==> self.particles@[k] == all[k],
            decreases all.len() - i,
        {
            let p: Particle = self.particles[i];
            let y: Num = p.y.plus(p.vy.times(dt));
            let moved: Particle = Particle {
                x: p.x.plus(p.vx.times(dt)),
                y: if p.scrolls {
                    y.plus(rows)
                } else {
                    y
                },
                life: p.life.minus(dt),
                ..p
            };
            self.particles.set(i, moved);
            i = i + 1;
        }
        assert(self.particles@ =~= drifted(all, dt, rows));
    }

    fn raise_floats(&mut self, dt: Num)
        ensures
            final(self)@ == (GameModel { floats: risen(old(self)@.floats, dt), ..old(self)@ }),
    {
        let ghost all = self@.floats;
        let rise: Num = Num::whole(7).times(dt);
        let mut i: usize = 0;
        while i < self.floats.len()
            invariant
                i <= self.floats.len() == all.len(),
                rise == Num::spec_whole(7).spec_times(dt),
                self@ == (GameModel { floats: self@.floats, ..old(self)@ }),
                forall|k: int| #![trigger self@.floats[k]] 0 <= k < i ==> self@.floats[k] == lifted(all[k], dt),
                forall|k: int| #![trigger self@.floats[k]] i <= k < all.len() ==> self@.floats[k] == all[k],
            decreases all.len() - i,
        {
            let ghost before = self@.floats;
            self.floats[i].y = self.floats[i].y.minus(rise);
            self.floats[i].t = self.floats[i].t.plus(dt);
            assert(self@.floats =~= before.update(i as int, lifted(before[i as int], dt)));
            i = i + 1;
        }
        assert(self@.floats =~= risen(all, dt));
    }
}

/// Choosing items never makes more of them.
pub(crate) proof fn lemma_filter_len<T>(s: Seq<T>, pick: spec_fn(T) -> bool)
    ensures
        s.filter(pick).len() <= s.len(),
    decreases s.len(),
{
    reveal(Seq::filter);
    if s.len() > 0 {
        lemma_filter_len(s.drop_last(), pick);
    }
}

/// What holds of every item holds of every chosen one.
pub(crate) proof fn lemma_filter_all<T>(s: Seq<T>, pick: spec_fn(T) -> bool, good: spec_fn(T) -> bool)
    requires
        forall|i: int| #![trigger s[i]] 0 <= i < s.len() ==> good(s[i]),
    ensures
        forall|i: int| #![trigger s.filter(pick)[i]] 0 <= i < s.filter(pick).len() ==> good(
            s.filter(pick)[i],
        ),
    decreases s.len(),
{
    reveal(Seq::filter);
    if s.len() > 0 {
        let rest = s.drop_last();
        assert forall|i: int| #![trigger rest[i]] 0 <= i < rest.len() implies good(rest[i]) by {
            assert(rest[i] == s[i]);
        }
        lemma_filter_all(rest, pick, good);
        assert(good(s.last()));
        assert forall|i: int| #![trigger s.filter(pick)[i]] 0 <= i < s.filter(pick).len() implies good(
            s.filter(pick)[i],
        ) by {
            if i < rest.filter(pick).len() {
                assert(s.filter(pick)[i] == rest.filter(pick)[i]);
            }
        }
    }
}

/// After moving on, every particle has life left and every text is still to be seen.
pub proof fn only_the_living_stay(g: GameModel, dt: Num, rows: Num, view: Area)
    ensures
        forall|i: int| #![trigger g.adrift(dt, rows, view).particles[i]]
            0 <= i < g.adrift(dt, rows, view).particles.len() ==> lively(
                g.adrift(dt, rows, view).particles[i],
                view,
            ),
        forall|i: int| #![trigger g.adrift(dt, rows, view).floats[i]]
            0 <= i < g.adrift(dt, rows, view).floats.len() ==> fresh(g.adrift(dt, rows, view).floats[i]),
{
    lemma_filter_picks(drifted(g.particles, dt, rows), |p: Particle| lively(p, view));
    lemma_filter_picks(risen(g.floats, dt), |c: Caption| fresh(c));
}

proof fn lemma_filter_picks<T>(s: Seq<T>, pick: spec_fn(T) -> bool)
    ensures
        forall|i: int| #![trigger s.filter(pick)[i]] 0 <= i < s.filter(pick).len() ==> pick(s.filter(pick)[i]),
    decreases s.len(),
{
    reveal(Seq::filter);
    if s.len() > 0 {
        lemma_filter_picks(s.drop_last(), pick);
    }
}

} // verus!
