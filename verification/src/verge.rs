//! What grows and stands beside the road.

use crate::chance::draw;
use crate::dice::Sprout;
use crate::drift::lemma_filter_all;
use crate::entities::{retain, Scenery, SceneryKind};
use crate::game::{Dash, Game, GameModel, SIGN_COUNT};
use crate::geometry::{geom, road, Area, Geom};
use crate::num::Num;
use crate::running::is_up;
use vstd::prelude::*;

verus! {

/// The slogan of billboard `i`.
pub open spec fn slogan(i: int) -> Seq<char> {
    if i == 0 {
        "CHEZ REMY"@
    } else if i == 1 {
        "GO GO GO!"@
    } else if i == 2 {
        "BON APPÉTIT"@
    } else if i == 3 {
        "NITRO TIME"@
    } else {
        "RATATOUILLE!"@
    }
}

/// The bytes of the slogan of billboard `i`: an accented letter takes two.
pub open spec fn slogan_bytes(i: int) -> int {
    if i == 0 || i == 1 {
        9
    } else if i == 3 {
        10
    } else {
        12
    }
}

/// The slogan of billboard `i`.
pub fn sign(i: usize) -> (r: &'static str)
    requires
        i < SIGN_COUNT,
    ensures
        r@ == slogan(i as int),
{
    match i {
        0 => "CHEZ REMY",
        1 => "GO GO GO!",
        2 => "BON APPÉTIT",
        3 => "NITRO TIME",
        _ => "RATATOUILLE!",
    }
}

/// The bytes of the slogan of billboard `i`.
pub fn sign_bytes(i: usize) -> (r: i32)
    requires
        i < SIGN_COUNT,
    ensures
        r == slogan_bytes(i as int),
{
    match i {
        0 | 1 => 9,
        3 => 10,
        _ => 12,
    }
}

/// The columns beside the road on one side of the view.
pub open spec fn verge_width(view: Area, left: bool) -> int {
    let g = road(view.width as int);
    if left {
        g.rx - 2
    } else {
        view.width - (g.rx + g.road_w + 3) - 1
    }
}

/// The first column at which something is planted on a side of the view.
pub open spec fn first_plot(view: Area, left: bool) -> int {
    let g = road(view.width as int);
    if left {
        1
    } else {
        g.rx + g.road_w + 3
    }
}

/// How many columns something can be planted at on a side of the view.
pub open spec fn plots(view: Area, left: bool) -> int {
    let span = verge_width(view, left);
    if span <= 5 {
        1
    } else {
        span - 4
    }
}

/// What is planted for a roll of the dice: a billboard only where it has room.
pub open spec fn plant_kind(view: Area, left: bool, roll: Num, board: usize) -> SceneryKind {
    if roll.key < Num::spec_ratio(42, 100).key {
        SceneryKind::Tree
    } else if roll.key < Num::spec_ratio(66, 100).key {
        SceneryKind::Bush
    } else if roll.key < Num::spec_ratio(82, 100).key {
        SceneryKind::Rock
    } else if verge_width(view, left) < slogan_bytes(board as int) + 6 {
        SceneryKind::Tree
    } else {
        SceneryKind::Sign(board)
    }
}

/// A thing beside the road, `rows` further down.
pub open spec fn passed_by(s: Scenery, rows: Num) -> Scenery {
    Scenery { y: s.y.spec_plus(rows), ..s }
}

/// The scenery `rows` further down the screen, what has left the view gone.
pub open spec fn scrolled(scenery: Seq<Scenery>, rows: Num, view: Area) -> Seq<Scenery> {
    Seq::new(scenery.len(), |i: int| passed_by(scenery[i], rows)).filter(
        |s: Scenery| s.y.key < Num::spec_whole(view.height + 10).key,
    )
}

impl GameModel {
    /// The game with something planted above the view.
    pub open spec fn planted(self, x: int, kind: SceneryKind) -> GameModel {
        GameModel {
            scenery: self.scenery.push(Scenery { x: x as i32, y: Num::spec_whole(-8), kind }),
            ..self
        }
    }

    /// The game with the timer of the scenery set.
    pub open spec fn plant_timer(self, t: Num) -> GameModel {
        GameModel { dash: Dash { scenery_t: t, ..self.dash }, ..self }
    }

    /// Whether the game is `before` after a step in which something may have been planted:
    /// it was if and only if the timer was up and the verge of the side drawn is four
    /// columns wide. Which billboard and at which column is left to chance.
    pub open spec fn sprouted(self, before: GameModel, dt: Num, sprout: Sprout, view: Area) -> bool {
        let t = before.dash.scenery_t.spec_minus(dt);
        if !is_up(t) {
            self == before.plant_timer(t)
        } else if verge_width(view, sprout.left) < 4 {
            self == before.plant_timer(sprout.next)
        } else {
            exists|board: usize, plot: int|
                #![trigger plant_kind(view, sprout.left, sprout.roll, board), first_plot(view, sprout.left) + plot]
                board < SIGN_COUNT && 0 <= plot < plots(view, sprout.left) && self == before.plant_timer(
                    sprout.next,
                ).planted(
                    first_plot(view, sprout.left) + plot,
                    plant_kind(view, sprout.left, sprout.roll, board),
                )
        }
    }

    /// The game with the scenery `rows` further down.
    pub open spec fn scenery_moved(self, rows: Num, view: Area) -> GameModel {
        GameModel { scenery: scrolled(self.scenery, rows, view), ..self }
    }
}

/// The columns beside the road on one side of the view.
pub fn verge_span(view: Area, left: bool) -> (r: i32)
    ensures
        r == verge_width(view, left),
{
    let g: Geom = geom(view);
    if left {
        g.rx - 2
    } else {
        view.width as i32 - (g.rx + g.road_w + 3) - 1
    }
}

impl Game {
    /// Plants what the dice ask for at the column drawn.
    pub fn plant(&mut self, view: Area, left: bool, roll: Num, board: usize, plot: usize)
        requires
            board < SIGN_COUNT,
            plot < plots(view, left),
        ensures
            final(self)@ == old(self)@.planted(
                first_plot(view, left) + plot,
                plant_kind(view, left, roll, board),
            ),
            old(self)@.wf() ==> final(self)@.wf(),
    {
        let g: Geom = geom(view);
        let first: i32 = if left {
            1
        } else {
            g.rx + g.road_w + 3
        };
        let kind: SceneryKind = if roll.lt(Num::ratio(42, 100)) {
            SceneryKind::Tree
        } else if roll.lt(Num::ratio(66, 100)) {
            SceneryKind::Bush
        } else if roll.lt(Num::ratio(82, 100)) {
            SceneryKind::Rock
        } else if verge_span(view, left) < sign_bytes(board) + 6 {
            SceneryKind::Tree
        } else {
            SceneryKind::Sign(board)
        };
        self.scenery.push(Scenery { x: first + plot as i32, y: Num::whole(-8), kind });
    }

    /// Lets the timer of the scenery run. When it is up something is planted beside the
    /// road, where there is room for it: which billboard and at which column is left to
    /// chance.
    pub fn update_scenery_spawn(&mut self, dt: Num, sprout: Sprout, view: Area)
        ensures
            final(self)@.sprouted(old(self)@, dt, sprout, view),
            old(self)@.wf() ==> final(self)@.wf(),
    {
        self.dash.scenery_t = self.dash.scenery_t.minus(dt);
        if Num::whole(0).lt(self.dash.scenery_t) {
            return ;
        }
        self.dash.scenery_t = sprout.next;
        let board: usize = draw(&mut self.rng, 0, SIGN_COUNT);
        let span: i32 = verge_span(view, sprout.left);
        if span < 4 {
            return ;
        }
        let count: usize = if span <= 5 {
            1
        } else {
            (span - 4) as usize
        };
        let plot: usize = draw(&mut self.rng, 0, count);
        self.plant(view, sprout.left, sprout.roll, board, plot);
        assert(self@ == old(self)@.plant_timer(sprout.next).planted(
            first_plot(view, sprout.left) + (plot as int),
            plant_kind(view, sprout.left, sprout.roll, board),
        ));
    }

    /// Moves the scenery down by `rows` and drops what has left the view.
    pub fn update_scenery_move(&mut self, rows: Num, view: Area)
        ensures
            final(self)@ == old(self)@.scenery_moved(rows, view),
            old(self)@.wf() ==> final(self)@.wf(),
    {
        let ghost all = self.scenery@;
        let ghost moved = Seq::new(all.len(), |k: int| passed_by(all[k], rows));
        let mut i: usize = 0;
        while i < self.scenery.len()
            invariant
                i <= self.scenery.len() == all.len(),
                self@ == (GameModel { scenery: self.scenery@, ..old(self)@ }),
                moved == Seq::new(all.len(), |k: int| passed_by(all[k], rows)),
                forall|k: int| #![trigger self.scenery@[k]] 0 <= k < i ==> self.scenery@[k] == moved[k],
                forall|k: int| #![trigger self.scenery@[k]] i <= k < all.len() ==> self.scenery@[k] == all[k],
            decreases all.len() - i,
        {
            let s: Scenery = self.scenery[i];
            self.scenery.set(i, Scenery { y: s.y.plus(rows), ..s });
            i = i + 1;
        }
        assert(self.scenery@ =~= moved);
        let low: Num = Num::whole(view.height as i32 + 10);
        let stays = |s: &Scenery| -> (b: bool)
            ensures
                b == (s.y.key < Num::spec_whole(view.height + 10).key),
        {
            s.y.lt(low)
        };
        retain(
            &mut self.scenery,
            stays,
            Ghost(|s: Scenery| s.y.key < Num::spec_whole(view.height + 10).key),
        );
        proof {
            let good = |s: Scenery|
                (s.kind matches SceneryKind::Sign(n) ==> n < SIGN_COUNT);
            if old(self)@.wf() {
                assert forall|k: int| #![trigger moved[k]] 0 <= k < moved.len() implies good(moved[k]) by {
                    assert(moved[k].kind == all[k].kind);
                }
                lemma_filter_all(moved, |s: Scenery| s.y.key < Num::spec_whole(view.height + 10).key, good);
                assert forall|k: int| #![trigger self@.scenery[k]] 0 <= k < self@.scenery.len() implies (
                self@.scenery[k].kind matches SceneryKind::Sign(n) ==> n < SIGN_COUNT) by {
                    assert(good(self@.scenery[k]));
                }
            }
        }
    }
}

/// Nothing is planted on the road or on its curbs.
pub proof fn scenery_starts_beside_the_road(view: Area, left: bool, plot: int)
    requires
        verge_width(view, left) >= 4,
        0 <= plot < plots(view, left),
    ensures
        ({
            let g = road(view.width as int);
            let x = first_plot(view, left) + plot;
            &&& 1 <= x < view.width
            &&& left ==> x < g.rx - 2
            &&& !left ==> x >= g.rx + g.road_w + 2
        }),
{
}

} // verus!
