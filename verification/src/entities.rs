//! What moves on the road and beside it.

use crate::num::Num;
use crate::style::Rgb;
use vstd::prelude::*;

verus! {

/// A car of the traffic. Columns count from the left edge of the road, rows from the top.
#[derive(Clone, Copy, Debug)]
pub struct Car {
    pub lane: usize,
    pub x: Num,
    pub y: Num,
    pub speed: Num,
    pub color: Rgb,
    pub truck: bool,
    /// Whether the player has left it behind.
    pub passed: bool,
    pub wob: Num,
    pub wob_f: Num,
}

/// A bonus that lies on the road.
#[derive(Clone, Copy, Debug)]
pub struct Pickup {
    pub x: Num,
    pub y: Num,
    /// How long it has been there.
    pub t: Num,
}

/// A puff of smoke, a flame or a spark.
#[derive(Clone, Copy, Debug)]
pub struct Particle {
    pub x: Num,
    pub y: Num,
    pub vx: Num,
    pub vy: Num,
    pub life: Num,
    /// The life it began with.
    pub max: Num,
    pub ch: char,
    pub color: Rgb,
    /// Whether the road carries it along.
    pub scrolls: bool,
}

/// What stands beside the road.
#[derive(Clone, Copy, PartialEq, Eq, Structural, Debug)]
pub enum SceneryKind {
    Tree,
    Bush,
    Rock,
    /// A billboard with the slogan of that number.
    Sign(usize),
}

/// A thing beside the road.
#[derive(Clone, Copy, Debug)]
pub struct Scenery {
    pub x: i32,
    pub y: Num,
    pub kind: SceneryKind,
}

/// A text that rises from the road and fades.
pub struct FloatText {
    pub text: String,
    pub x: Num,
    pub y: Num,
    /// How long it has been there.
    pub t: Num,
    pub color: Rgb,
}

/// A floating text as the contracts see it.
pub struct Caption {
    pub text: Seq<char>,
    pub x: Num,
    pub y: Num,
    pub t: Num,
    pub color: Rgb,
}

impl View for FloatText {
    type V = Caption;

    open spec fn view(&self) -> Caption {
        Caption { text: self.text@, x: self.x, y: self.y, t: self.t, color: self.color }
    }
}

/// The floating texts as the contracts see them.
pub open spec fn captions(floats: Seq<FloatText>) -> Seq<Caption> {
    floats.map_values(|f: FloatText| f@)
}

/// Floating texts have no more characters than this.
pub const LONGEST: usize = 1000;

/// Whether all floating texts are short.
pub open spec fn all_short(floats: Seq<Caption>) -> bool {
    forall|i: int| #![trigger floats[i]] 0 <= i < floats.len() ==> floats[i].text.len() <= LONGEST
}

/// More particles than this are never kept before a new one comes.
pub const CROWD: usize = 320;

/// The particles after one more was added: of a crowd the forty oldest leave first.
pub open spec fn puffed(particles: Seq<Particle>, p: Particle) -> Seq<Particle> {
    (if particles.len() > CROWD {
        particles.skip(40)
    } else {
        particles
    }).push(p)
}

/// The particles after several were added one by one.
pub open spec fn puffed_all(particles: Seq<Particle>, new: Seq<Particle>) -> Seq<Particle>
    decreases new.len(),
{
    if new.len() == 0 {
        particles
    } else {
        puffed(puffed_all(particles, new.drop_last()), new.last())
    }
}

/// Adds a particle; of a crowd the forty oldest leave first.
pub fn puff(particles: &mut Vec<Particle>, p: Particle)
    ensures
        final(particles)@ == puffed(old(particles)@, p),
{
    if particles.len() > CROWD {
        let mut rest: Vec<Particle> = particles.split_off(40);
        std::mem::swap(particles, &mut rest);
        assert(particles@ =~= old(particles)@.skip(40));
    }
    particles.push(p);
}

/// Keeps the items that `keep` picks, in their order.
pub(crate) fn retain<T, F: Fn(&T) -> bool>(items: &mut Vec<T>, keep: F, Ghost(picks): Ghost<spec_fn(T) -> bool>)
    requires
        forall|x: &T| #[trigger] call_requires(keep, (x,)),
        forall|x: &T, b: bool| #[trigger] call_ensures(keep, (x,), b) ==> b == picks(*x),
    ensures
        final(items)@ == old(items)@.filter(picks),
{
    let ghost all = items@;
    let ghost mut seen: int = 0;
    let mut i: usize = 0;
    assert(all.take(0).filter(picks) + all.skip(0) =~= all) by {
        reveal(Seq::filter);
    }
    while i < items.len()
        invariant
            forall|x: &T| #[trigger] call_requires(keep, (x,)),
            forall|x: &T, b: bool| #[trigger] call_ensures(keep, (x,), b) ==> b == picks(*x),
            0 <= seen <= all.len(),
            items@ == all.take(seen).filter(picks) + all.skip(seen),
            i == all.take(seen).filter(picks).len(),
        decreases items@.len() - i,
    {
        proof {
            reveal(Seq::filter);
            assert(all.take(seen + 1).drop_last() =~= all.take(seen));
            assert(all.skip(seen) =~= seq![all[seen]] + all.skip(seen + 1));
            assert(items@[i as int] == all[seen]);
        }
        if keep(&items[i]) {
            i = i + 1;
        } else {
            items.remove(i);
        }
        proof {
            seen = seen + 1;
            assert(items@ =~= all.take(seen).filter(picks) + all.skip(seen));
        }
    }
    assert(all.skip(seen) =~= Seq::<T>::empty()) by {
        assert(items@.len() == all.take(seen).filter(picks).len() + all.skip(seen).len());
    }
    assert(all.take(seen) =~= all);
    assert(items@ =~= all.filter(picks));
}

/// Choosing floating texts by what is seen of them chooses what is seen.
pub(crate) proof fn lemma_captions_filter(
    floats: Seq<FloatText>,
    pick: spec_fn(FloatText) -> bool,
    seen: spec_fn(Caption) -> bool,
)
    requires
        forall|f: FloatText| #[trigger] pick(f) == seen(f@),
    ensures
        captions(floats.filter(pick)) == captions(floats).filter(seen),
    decreases floats.len(),
{
    reveal(Seq::filter);
    if floats.len() > 0 {
        lemma_captions_filter(floats.drop_last(), pick, seen);
        assert(captions(floats).drop_last() =~= captions(floats.drop_last()));
        assert(pick(floats.last()) == seen(floats.last()@));
        assert(captions(floats).last() == floats.last()@);
        assert(captions(floats.drop_last().filter(pick).push(floats.last())) =~= captions(
            floats.drop_last().filter(pick),
        ).push(floats.last()@));
    }
    assert(captions(floats.filter(pick)) =~= captions(floats).filter(seen));
}

/// There are never more than 321 particles, if there were not before.
pub proof fn particles_stay_few(particles: Seq<Particle>, p: Particle)
    requires
        particles.len() <= CROWD + 1,
    ensures
        puffed(particles, p).len() <= CROWD + 1,
{
}

/// The newest particle is always kept, behind the ones that were there.
pub proof fn newest_particle_is_last(particles: Seq<Particle>, p: Particle)
    ensures
        puffed(particles, p).last() == p,
        particles.len() <= CROWD ==> puffed(particles, p).drop_last() == particles,
{
    assert(particles.push(p).drop_last() =~= particles);
}

} // verus!
