//! The traffic and the bonuses on the road: how they come, move and leave.

use crate::chance::draw;
use crate::dice::Draft;
use crate::drift::{lemma_filter_all, rows_in, rows_passed};
use crate::entities::{retain, Car, Pickup};
use crate::game::{lemma_still_wf, Dash, Game, GameModel};
use crate::geometry::{center_of, geom, lane_center, road, Area, Geom};
use crate::num::Num;
use crate::running::is_up;
use crate::style::{color, rgb, Rgb};
use vstd::prelude::*;

verus! {

/// The number of paints for cars.
pub const PAINTS: usize = 8;

/// The paint of that number.
pub open spec fn paint_of(i: int) -> Rgb {
    if i == 0 {
        color(95, 165, 255)
    } else if i == 1 {
        color(125, 220, 130)
    } else if i == 2 {
        color(225, 228, 235)
    } else if i == 3 {
        color(255, 200, 90)
    } else if i == 4 {
        color(205, 130, 255)
    } else if i == 5 {
        color(255, 145, 145)
    } else if i == 6 {
        color(140, 220, 230)
    } else {
        color(255, 170, 95)
    }
}

/// The paint of that number.
pub fn paint(i: usize) -> (c: Rgb)
    requires
        i < PAINTS,
    ensures
        c == paint_of(i as int),
{
    match i {
        0 => rgb(95, 165, 255),
        1 => rgb(125, 220, 130),
        2 => rgb(225, 228, 235),
        3 => rgb(255, 200, 90),
        4 => rgb(205, 130, 255),
        5 => rgb(255, 145, 145),
        6 => rgb(140, 220, 230),
        _ => rgb(255, 170, 95),
    }
}

/// Whether a car is in the lane above the row.
pub open spec fn taken(traffic: Seq<Car>, lane: int, row: int) -> bool {
    exists|i: int| #![trigger traffic[i]]
        0 <= i < traffic.len() && traffic[i].lane == lane && traffic[i].y.key < Num::spec_whole(row).key
}

/// The lanes in which no car is among the first twenty rows, from the left.
pub open spec fn open_lanes(traffic: Seq<Car>) -> Seq<usize> {
    lanes_open_below(traffic, 4)
}

/// The open lanes among the first `n`.
pub open spec fn lanes_open_below(traffic: Seq<Car>, n: int) -> Seq<usize>
    decreases n,
{
    if n <= 0 {
        Seq::empty()
    } else if taken(traffic, n - 1, 20) {
        lanes_open_below(traffic, n - 1)
    } else {
        lanes_open_below(traffic, n - 1).push((n - 1) as usize)
    }
}

/// A new car above the view.
pub open spec fn new_car(lane: int, paint: int, draft: Draft, view: Area) -> Car {
    Car {
        lane: lane as usize,
        x: center_of(road(view.width as int), lane),
        y: Num::spec_whole(-10),
        speed: if draft.truck {
            draft.speed.spec_times(Num::spec_ratio(8, 10))
        } else {
            draft.speed
        },
        color: paint_of(paint),
        truck: draft.truck,
        passed: false,
        wob: draft.wob,
        wob_f: draft.wob_f,
    }
}

/// A car after a step in which the player drove at `speed`.
pub open spec fn driven(c: Car, speed: Num, dt: Num) -> Car {
    Car { y: c.y.spec_plus(rows_in(speed.spec_minus(c.speed), dt)), ..c }
}

/// A car after a step of its sway, whose sine is then `sine`.
pub open spec fn swayed(c: Car, sine: Num, dt: Num, view: Area) -> Car {
    Car {
        wob: c.wob.spec_plus(dt.spec_times(c.wob_f)),
        x: center_of(road(view.width as int), c.lane as int).spec_plus(
            sine.spec_times(Num::spec_ratio(22, 100)),
        ),
        ..c
    }
}

/// Whether a car is still near the view: not further up than the row `top`.
pub open spec fn in_sight(c: Car, view: Area, top: int) -> bool {
    &&& c.y.key < Num::spec_whole(view.height + 12).key
    &&& c.y.key > Num::spec_whole(top).key
}

/// A bonus `rows` further down, a step later.
pub open spec fn rolled_by(p: Pickup, dt: Num, rows: Num) -> Pickup {
    Pickup { y: p.y.spec_plus(rows), t: p.t.spec_plus(dt), ..p }
}

/// The bonuses `rows` further down, those below the view gone.
pub open spec fn rolled(pickups: Seq<Pickup>, dt: Num, rows: Num, view: Area) -> Seq<Pickup> {
    Seq::new(pickups.len(), |i: int| rolled_by(pickups[i], dt, rows)).filter(
        |p: Pickup| p.y.key < Num::spec_whole(view.height + 6).key,
    )
}

impl GameModel {
    /// The game with one more car.
    pub open spec fn joined(self, c: Car) -> GameModel {
        GameModel { traffic: self.traffic.push(c), ..self }
    }

    /// The game with a bonus in a lane above the view, unless a car is just there.
    pub open spec fn dropped(self, lane: int, view: Area) -> GameModel {
        if taken(self.traffic, lane, 12) {
            self
        } else {
            GameModel {
                pickups: self.pickups.push(
                    Pickup {
                        x: center_of(road(view.width as int), lane),
                        y: Num::spec_whole(-4),
                        t: Num::spec_whole(0),
                    },
                ),
                ..self
            }
        }
    }

    /// The game with the timer of the traffic set.
    pub open spec fn spawn_timer(self, t: Num) -> GameModel {
        GameModel { dash: Dash { spawn_t: t, ..self.dash }, ..self }
    }

    /// The game with the timer of the bonuses set.
    pub open spec fn pickup_timer(self, t: Num) -> GameModel {
        GameModel { dash: Dash { pickup_t: t, ..self.dash }, ..self }
    }

    /// The game with the cars moved on while the player drives past them.
    pub open spec fn flowing(self, dt: Num) -> GameModel {
        GameModel {
            traffic: Seq::new(
                self.traffic.len(),
                |i: int| driven(self.traffic[i], self.dash.speed, dt),
            ),
            ..self
        }
    }

    /// The game with the cars moved on and swaying in their lanes.
    pub open spec fn swaying(self, dt: Num, sines: Seq<Num>, view: Area) -> GameModel {
        GameModel {
            traffic: Seq::new(
                self.traffic.len(),
                |i: int| swayed(driven(self.traffic[i], self.dash.speed, dt), sines[i], dt, view),
            ),
            ..self
        }
    }

    /// The game without the cars that are below the view or further up than the row `top`.
    pub open spec fn thinned(self, view: Area, top: int) -> GameModel {
        GameModel { traffic: self.traffic.filter(|c: Car| in_sight(c, view, top)), ..self }
    }

    /// The game with the bonuses `rows` further down.
    pub open spec fn bonuses_moved(self, dt: Num, rows: Num, view: Area) -> GameModel {
        GameModel { pickups: rolled(self.pickups, dt, rows, view), ..self }
    }

    /// Whether the game is `before` after a step in which a car may have joined: only if the
    /// timer was up, which is then set to `next`.
    pub open spec fn spawned(self, before: GameModel, dt: Num, next: Num, draft: Draft, view: Area) -> bool {
        let t = before.dash.spawn_t.spec_minus(dt);
        if is_up(t) {
            self.maybe_joined(before.spawn_timer(next), draft, view)
        } else {
            self == before.spawn_timer(t)
        }
    }

    /// Whether the game is `before` after a step in which a bonus may have been dropped into
    /// a lane left to chance: only if the timer was up, which is then set to `next`.
    pub open spec fn bestowed(self, before: GameModel, dt: Num, next: Num, view: Area) -> bool {
        let t = before.dash.pickup_t.spec_minus(dt);
        if is_up(t) {
            exists|lane: int|
                #![trigger before.pickup_timer(next).dropped(lane, view)]
                0 <= lane < 4 && self == before.pickup_timer(next).dropped(lane, view)
        } else {
            self == before.pickup_timer(t)
        }
    }

    /// Whether the game is `before` after a car may have joined: one did if and only if
    /// two lanes were open, in one of those.
    pub open spec fn maybe_joined(self, before: GameModel, draft: Draft, view: Area) -> bool {
        let open = open_lanes(before.traffic);
        if open.len() <= 1 {
            self == before
        } else {
            exists|k: int, p: int|
                #![trigger open[k], paint_of(p)]
                0 <= k < open.len() && 0 <= p < PAINTS && self == before.joined(
                    new_car(open[k] as int, p, draft, view),
                )
        }
    }
}

/// Whether a car is in the lane above the row.
pub fn lane_taken(traffic: &Vec<Car>, lane: usize, row: i32) -> (r: bool)
    requires
        row > i32::MIN,
    ensures
        r == taken(traffic@, lane as int, row as int),
{
    let line: Num = Num::whole(row);
    let mut i: usize = 0;
    while i < traffic.len()
        invariant
            i <= traffic.len(),
            line == Num::spec_whole(row as int),
            forall|k: int| #![trigger traffic@[k]]
                0 <= k < i ==> !(traffic@[k].lane == lane && traffic@[k].y.key < line.key),
        decreases traffic.len() - i,
    {
        let c: Car = traffic[i];
        if c.lane == lane && c.y.lt(line) {
            assert(traffic@[i as int].lane == lane);
            return true;
        }
        i = i + 1;
    }
    false
}

/// The lanes in which no car is among the first twenty rows, from the left.
pub fn free_lanes(traffic: &Vec<Car>) -> (r: Vec<usize>)
    ensures
        r@ == open_lanes(traffic@),
        forall|i: int| #![trigger r@[i]] 0 <= i < r@.len() ==> r@[i] < 4,
{
    let mut free: Vec<usize> = Vec::new();
    let mut lane: usize = 0;
    while lane < 4
        invariant
            lane <= 4,
            free@ == lanes_open_below(traffic@, lane as int),
            forall|i: int| #![trigger free@[i]] 0 <= i < free@.len() ==> free@[i] < lane,
        decreases 4 - lane,
    {
        if !lane_taken(traffic, lane, 20) {
            free.push(lane);
        }
        lane = lane + 1;
    }
    free
}

impl Game {
    /// Lets a car join in a lane.
    pub fn join(&mut self, lane: usize, number: usize, draft: Draft, view: Area)
        requires
            lane < 4,
            number < PAINTS,
        ensures
            final(self)@ == old(self)@.joined(new_car(lane as int, number as int, draft, view)),
            old(self)@.wf() ==> final(self)@.wf(),
    {
        let g: Geom = geom(view);
        let speed: Num = if draft.truck {
            draft.speed.times(Num::ratio(8, 10))
        } else {
            draft.speed
        };
        self.traffic.push(
            Car {
                lane,
                x: lane_center(&g, lane),
                y: Num::whole(-10),
                speed,
                color: paint(number),
                truck: draft.truck,
                passed: false,
                wob: draft.wob,
                wob_f: draft.wob_f,
            },
        );
    }

    /// Lets a car join in an open lane, if a second one stays open: there is always a
    /// lane to escape to. Which lane and which paint is left to chance.
    pub fn spawn_traffic(&mut self, draft: Draft, view: Area)
        requires
            old(self)@.wf(),
        ensures
            final(self)@.maybe_joined(old(self)@, draft, view),
            final(self)@.wf(),
    {
        let free: Vec<usize> = free_lanes(&self.traffic);
        if free.len() <= 1 {
            return ;
        }
        let k: usize = draw(&mut self.rng, 0, free.len());
        let number: usize = draw(&mut self.rng, 0, PAINTS);
        let lane: usize = free[k];
        self.join(lane, number, draft, view);
        assert(open_lanes(old(self)@.traffic)[k as int] == lane && paint_of(number as int) == paint_of(
            number as int,
        ));
    }

    /// Lets the timer of the traffic run. When it is up a car may join, and the timer is set
    /// to `next`.
    pub fn tick_spawn(&mut self, dt: Num, next: Num, draft: Draft, view: Area)
        requires
            old(self)@.wf(),
        ensures
            final(self)@.spawned(old(self)@, dt, next, draft, view),
            final(self)@.wf(),
    {
        let t: Num = self.dash.spawn_t.minus(dt);
        let up: bool = t.le(Num::whole(0));
        self.dash.spawn_t = if up {
            next
        } else {
            t
        };
        proof {
            lemma_still_wf(old(self)@, self@);
        }
        if up {
            self.spawn_traffic(draft, view);
        }
    }

    /// Moves the cars on while the player drives past them.
    pub fn move_traffic(&mut self, dt: Num)
        ensures
            final(self)@ == old(self)@.flowing(dt),
            old(self)@.wf() ==> final(self)@.wf(),
    {
        let ghost all = self.traffic@;
        let speed: Num = self.dash.speed;
        let mut i: usize = 0;
        while i < self.traffic.len()
            invariant
                i <= self.traffic.len() == all.len(),
                speed == old(self)@.dash.speed,
                self@ == (GameModel { traffic: self.traffic@, ..old(self)@ }),
                forall|k: int| #![trigger self.traffic@[k]]
                    0 <= k < i ==> self.traffic@[k] == driven(all[k], speed, dt),
                forall|k: int| #![trigger self.traffic@[k]] i <= k < all.len() ==> self.traffic@[k] == all[k],
            decreases all.len() - i,
        {
            let c: Car = self.traffic[i];
            self.traffic.set(i, Car { y: c.y.plus(rows_passed(speed.minus(c.speed), dt)), ..c });
            i = i + 1;
        }
        assert(self.traffic@ =~= old(self)@.flowing(dt).traffic);
        proof {
            if old(self)@.wf() {
                assert forall|k: int| #![trigger self@.traffic[k]] 0 <= k < self@.traffic.len() implies self@.traffic[k].lane
                    < 4 by {
                    assert(all[k].lane < 4);
                }
            }
        }
    }

    /// Lets the cars sway in their lanes.
    fn sway_traffic(&mut self, dt: Num, sines: &Vec<Num>, view: Area)
        requires
            old(self)@.wf(),
            sines@.len() == old(self)@.traffic.len(),
        ensures
            final(self)@ == (GameModel {
                traffic: Seq::new(
                    old(self)@.traffic.len(),
                    |i: int| swayed(old(self)@.traffic[i], sines@[i], dt, view),
                ),
                ..old(self)@
            }),
            final(self)@.wf(),
    {
        let ghost all = self.traffic@;
        let g: Geom = geom(view);
        let wide: Num = Num::ratio(22, 100);
        let mut i: usize = 0;
        while i < self.traffic.len()
            invariant
                i <= self.traffic.len() == all.len() == sines@.len(),
                g == road(view.width as int),
                wide == Num::spec_ratio(22, 100),
                self@ == (GameModel { traffic: self.traffic@, ..old(self)@ }),
                forall|k: int| #![trigger all[k]] 0 <= k < all.len() ==> all[k].lane < 4,
                forall|k: int| #![trigger self.traffic@[k]]
                    0 <= k < i ==> self.traffic@[k] == swayed(all[k], sines@[k], dt, view),
                forall|k: int| #![trigger self.traffic@[k]] i <= k < all.len() ==> self.traffic@[k] == all[k],
            decreases all.len() - i,
        {
            let c: Car = self.traffic[i];
            assert(all[i as int].lane < 4);
            let x: Num = lane_center(&g, c.lane).plus(sines[i].times(wide));
            self.traffic.set(i, Car { wob: c.wob.plus(dt.times(c.wob_f)), x, ..c });
            i = i + 1;
        }
        assert(self.traffic@ =~= Seq::new(all.len(), |i: int| swayed(all[i], sines@[i], dt, view)));
        assert forall|k: int| #![trigger self@.traffic[k]] 0 <= k < self@.traffic.len() implies self@.traffic[k].lane
            < 4 by {
            assert(all[k].lane < 4);
        }
    }

    /// Moves the cars on while the player drives past them, swaying in their lanes.
    pub fn weave_traffic(&mut self, dt: Num, sines: &Vec<Num>, view: Area)
        requires
            old(self)@.wf(),
            sines@.len() == old(self)@.traffic.len(),
        ensures
            final(self)@ == old(self)@.swaying(dt, sines@, view),
            final(self)@.wf(),
    {
        self.move_traffic(dt);
        self.sway_traffic(dt, sines, view);
        assert(self@.traffic =~= old(self)@.swaying(dt, sines@, view).traffic);
    }

    /// Drops the cars that are below the view or further up than the row `top`.
    pub fn thin_traffic(&mut self, view: Area, top: i32)
        requires
            top > i32::MIN,
        ensures
            final(self)@ == old(self)@.thinned(view, top as int),
            old(self)@.wf() ==> final(self)@.wf(),
    {
        let low: Num = Num::whole(view.height as i32 + 12);
        let high: Num = Num::whole(top);
        let stays = |c: &Car| -> (b: bool)
            ensures
                b == in_sight(*c, view, top as int),
        {
            c.y.lt(low) && high.lt(c.y)
        };
        let ghost all = self.traffic@;
        retain(&mut self.traffic, stays, Ghost(|c: Car| in_sight(c, view, top as int)));
        proof {
            let good = |c: Car| c.lane < 4;
            if old(self)@.wf() {
                lemma_filter_all(all, |c: Car| in_sight(c, view, top as int), good);
                assert forall|k: int| #![trigger self@.traffic[k]] 0 <= k < self@.traffic.len() implies self@.traffic[k].lane
                    < 4 by {
                    assert(good(self@.traffic[k]));
                }
            }
        }
    }

    /// Drops a bonus into a lane above the view, unless a car is just there.
    pub fn drop_pickup(&mut self, lane: usize, view: Area)
        requires
            lane < 4,
        ensures
            final(self)@ == old(self)@.dropped(lane as int, view),
            old(self)@.wf() ==> final(self)@.wf(),
    {
        if !lane_taken(&self.traffic, lane, 12) {
            let g: Geom = geom(view);
            self.pickups.push(Pickup { x: lane_center(&g, lane), y: Num::whole(-4), t: Num::whole(0) });
        }
    }

    /// Lets the timer of the bonuses run. When it is up a bonus is dropped into a lane that
    /// is left to chance, and the timer is set to `next`.
    pub fn tick_pickup(&mut self, dt: Num, next: Num, view: Area)
        ensures
            final(self)@.bestowed(old(self)@, dt, next, view),
            old(self)@.wf() ==> final(self)@.wf(),
    {
        self.dash.pickup_t = self.dash.pickup_t.minus(dt);
        if self.dash.pickup_t.le(Num::whole(0)) {
            self.dash.pickup_t = next;
            let lane: usize = draw(&mut self.rng, 0, 4);
            self.drop_pickup(lane, view);
            assert(self@ == old(self)@.pickup_timer(next).dropped(lane as int, view));
        }
    }

    /// Moves the bonuses down by `rows` and drops those below the view.
    pub fn move_pickups(&mut self, dt: Num, rows: Num, view: Area)
        ensures
            final(self)@ == old(self)@.bonuses_moved(dt, rows, view),
            old(self)@.wf() ==> final(self)@.wf(),
    {
        let ghost all = self.pickups@;
        let ghost moved = Seq::new(all.len(), |k: int| rolled_by(all[k], dt, rows));
        let mut i: usize = 0;
        while i < self.pickups.len()
            invariant
                i <= self.pickups.len() == all.len(),
                self@ == (GameModel { pickups: self.pickups@, ..old(self)@ }),
                moved == Seq::new(all.len(), |k: int| rolled_by(all[k], dt, rows)),
                forall|k: int| #![trigger self.pickups@[k]] 0 <= k < i ==> self.pickups@[k] == moved[k],
                forall|k: int| #![trigger self.pickups@[k]] i <= k < all.len() ==> self.pickups@[k] == all[k],
            decreases all.len() - i,
        {
            let p: Pickup = self.pickups[i];
            self.pickups.set(i, Pickup { y: p.y.plus(rows), t: p.t.plus(dt), ..p });
            i = i + 1;
        }
        assert(self.pickups@ =~= moved);
        let low: Num = Num::whole(view.height as i32 + 6);
        let stays = |p: &Pickup| -> (b: bool)
            ensures
                b == (p.y.key < Num::spec_whole(view.height + 6).key),
        {
            p.y.lt(low)
        };
        retain(&mut self.pickups, stays, Ghost(|p: Pickup| p.y.key < Num::spec_whole(view.height + 6).key));
    }
}

/// A lane is listed as open if and only if no car is among its first twenty rows.
proof fn lemma_open_lanes(traffic: Seq<Car>, n: int, lane: int)
    requires
        0 <= n <= 4,
        0 <= lane < 4,
    ensures
        lanes_open_below(traffic, n).contains(lane as usize) <==> lane < n && !taken(traffic, lane, 20),
        lanes_open_below(traffic, n).len() <= n,
    decreases n,
{
    if n > 0 {
        lemma_open_lanes(traffic, n - 1, lane);
        let before = lanes_open_below(traffic, n - 1);
        let now = lanes_open_below(traffic, n);
        if !taken(traffic, n - 1, 20) {
            assert(now == before.push((n - 1) as usize));
            assert(now[now.len() - 1] == (n - 1) as usize);
            if before.contains(lane as usize) {
                let i = choose|i: int| 0 <= i < before.len() && before[i] == lane as usize;
                assert(now[i] == lane as usize);
            }
            if now.contains(lane as usize) && lane != n - 1 {
                let i = choose|i: int| 0 <= i < now.len() && now[i] == lane as usize;
                assert(before[i] == lane as usize);
            }
        }
    }
}

/// The open lanes are listed once each.
pub(crate) proof fn lemma_open_lanes_rise(traffic: Seq<Car>, n: int)
    requires
        0 <= n <= 4,
    ensures
        forall|i: int| #![trigger lanes_open_below(traffic, n)[i]]
            0 <= i < lanes_open_below(traffic, n).len() ==> lanes_open_below(traffic, n)[i] < n,
        forall|i: int, j: int|
            #![trigger lanes_open_below(traffic, n)[i], lanes_open_below(traffic, n)[j]]
            0 <= i < j < lanes_open_below(traffic, n).len() ==> lanes_open_below(traffic, n)[i]
                < lanes_open_below(traffic, n)[j],
    decreases n,
{
    if n > 0 {
        lemma_open_lanes_rise(traffic, n - 1);
        let before = lanes_open_below(traffic, n - 1);
        let now = lanes_open_below(traffic, n);
        assert(forall|i: int| #![trigger now[i]] 0 <= i < before.len() ==> now[i] == before[i]);
    }
}

/// There is always a lane to escape to: whichever car joins, some lane still has no car
/// among its first twenty rows, if one had none before.
pub proof fn an_escape_lane_stays_open(before: GameModel, after: GameModel, draft: Draft, view: Area)
    requires
        after.maybe_joined(before, draft, view),
        exists|lane: int| 0 <= lane < 4 && !#[trigger] taken(before.traffic, lane, 20),
    ensures
        exists|lane: int| 0 <= lane < 4 && !#[trigger] taken(after.traffic, lane, 20),
{
    let open = open_lanes(before.traffic);
    if open.len() > 1 {
        let (k, p) = choose|k: int, p: int|
            #![trigger open[k], paint_of(p)]
            0 <= k < open.len() && 0 <= p < PAINTS && after == before.joined(
                new_car(open[k] as int, p, draft, view),
            );
        let other = if k == 0 {
            open[1] as int
        } else {
            open[0] as int
        };
        lemma_open_lanes_rise(before.traffic, 4);
        assert(open.contains(other as usize));
        lemma_open_lanes(before.traffic, 4, other);
        assert(open[k] != other as usize);
        assert(!taken(after.traffic, other, 20)) by {
            if taken(after.traffic, other, 20) {
                let i = choose|i: int|
                    #![trigger after.traffic[i]]
                    0 <= i < after.traffic.len() && after.traffic[i].lane == other && after.traffic[i].y.key
                        < Num::spec_whole(20).key;
                if i < before.traffic.len() {
                    assert(before.traffic[i] == after.traffic[i]);
                }
            }
        }
    }
}

/// A car never joins in a lane that has another one among its first twenty rows, and the
/// cars that were there stay as they were.
pub proof fn cars_join_in_open_lanes(before: GameModel, after: GameModel, draft: Draft, view: Area)
    requires
        after.maybe_joined(before, draft, view),
        after != before,
    ensures
        after.traffic.len() == before.traffic.len() + 1,
        after.traffic.drop_last() == before.traffic,
        after.traffic.last().lane < 4,
        !taken(before.traffic, after.traffic.last().lane as int, 20),
{
    let open = open_lanes(before.traffic);
    let (k, p) = choose|k: int, p: int|
        #![trigger open[k], paint_of(p)]
        0 <= k < open.len() && 0 <= p < PAINTS && after == before.joined(
            new_car(open[k] as int, p, draft, view),
        );
    assert(after.traffic.drop_last() =~= before.traffic);
    lemma_open_lanes_rise(before.traffic, 4);
    lemma_open_lanes(before.traffic, 4, open[k] as int);
    assert(open.contains(open[k]));
}

} // verus!
