//! The angles whose sines and cosines sway the cars and the view.

use crate::entities::Car;
use crate::game::{Game, GameModel};
use crate::num::Num;
use vstd::prelude::*;

verus! {

/// The angles of a step.
pub struct Angles {
    /// That of the player's car on its cruise behind the menu.
    pub cruise: Num,
    /// Those of the cars in the traffic, in their order.
    pub weave: Vec<Num>,
}

/// The sine and the cosine by which the view trembles.
#[derive(Clone, Copy, Debug)]
pub struct Tremor {
    pub sine: Num,
    pub cosine: Num,
}

/// The angle of a car after a step.
pub open spec fn weave_angle(c: Car, dt: Num) -> Num {
    c.wob.spec_plus(dt.spec_times(c.wob_f))
}

impl GameModel {
    /// The angle of the player's car on its cruise after a step.
    pub open spec fn cruise_angle(self, dt: Num) -> Num {
        self.dash.time.spec_plus(dt).spec_times(Num::spec_ratio(8, 10))
    }

    /// The angles of the cars after a step.
    pub open spec fn weave_angles(self, dt: Num) -> Seq<Num> {
        Seq::new(self.traffic.len(), |i: int| weave_angle(self.traffic[i], dt))
    }

    /// The angles whose sine and whose cosine make the view tremble.
    pub open spec fn tremor_angles(self) -> (Num, Num) {
        (
            self.dash.time.spec_times(Num::spec_whole(87)),
            self.dash.time.spec_times(Num::spec_whole(71)),
        )
    }
}

impl Game {
    /// The angles of a step of `dt` seconds.
    pub fn angles(&self, dt: Num) -> (a: Angles)
        ensures
            a.cruise == self@.cruise_angle(dt),
            a.weave@ == self@.weave_angles(dt),
    {
        let mut weave: Vec<Num> = Vec::new();
        let mut i: usize = 0;
        while i < self.traffic.len()
            invariant
                i <= self.traffic.len(),
                weave@ == self@.weave_angles(dt).take(i as int),
            decreases self.traffic.len() - i,
        {
            let c: Car = self.traffic[i];
            weave.push(c.wob.plus(dt.times(c.wob_f)));
            i = i + 1;
            assert(weave@ =~= self@.weave_angles(dt).take(i as int));
        }
        assert(weave@ =~= self@.weave_angles(dt));
        Angles { cruise: self.dash.time.plus(dt).times(Num::ratio(8, 10)), weave }
    }

    /// The angles whose sine and whose cosine make the view tremble.
    pub fn tremor(&self) -> (r: (Num, Num))
        ensures
            r == self@.tremor_angles(),
    {
        (self.dash.time.times(Num::whole(87)), self.dash.time.times(Num::whole(71)))
    }
}

} // verus!
