//! One frame of the game.

use crate::angles::Tremor;
use crate::game::{Game, GameModel, State};
use crate::geometry::{centered, centered_rect, rows_of, split_rows, Area, Screen, FOOTER_ROWS, HUD_ROWS};
use crate::hud::{draw_footer, draw_hud, with_footer, with_hud};
use crate::num::Num;
use crate::paint::{
    area_of, buffer_area, buffer_cells, covers, lemma_short_line, painted, painting_keeps_the_grid, set_page, typeset, Align, Cells, Painter,
};
use crate::panels::{
    countdown_overlay, gameover_overlay, go_overlay, menu_overlay, pause_overlay, with_countdown,
    with_gameover, with_go, with_menu, with_pause,
};
use crate::rounding::limited;
use crate::style::{bare, ink, Style};
use crate::text::{Line, Page, Piece};
use crate::world::{render_world, world_strokes};
use ratatui::buffer::Buffer;
use vstd::prelude::*;

verus! {

/// Whether the screen is too small for the game.
pub open spec fn too_small(area: Area) -> bool {
    area.width < 46 || area.height < 17
}

/// How far the view is off, in columns and rows: it sways while the shaking lasts.
pub open spec fn offset(g: GameModel, t: Tremor) -> (int, int) {
    if g.dash.shake.key > Num::spec_ratio(1, 100).key {
        let across = t.sine.spec_times(g.dash.shake).spec_times(Num::spec_ratio(24, 10));
        let along = t.cosine.spec_times(g.dash.shake).spec_times(Num::spec_ratio(16, 10));
        (
            limited(across.spec_round(), i32::MIN as int, i32::MAX as int),
            limited(along.spec_round(), i32::MIN as int, i32::MAX as int),
        )
    } else {
        (0, 0)
    }
}

/// How far the view is off, in columns and rows: it sways while the shaking lasts.
pub fn shake(g: &Game, t: &Tremor) -> (off: (i32, i32))
    ensures
        off.0 == offset(g@, *t).0,
        off.1 == offset(g@, *t).1,
{
    if Num::ratio(1, 100).lt(g.dash.shake) {
        (
            t.sine.times(g.dash.shake).times(Num::ratio(24, 10)).nearest(),
            t.cosine.times(g.dash.shake).times(Num::ratio(16, 10)).nearest(),
        )
    } else {
        (0, 0)
    }
}

/// A place `off` from `at`, as far as 32 bits go.
pub open spec fn moved(at: int, off: int) -> int {
    limited(at + off, i32::MIN as int, i32::MAX as int)
}

/// A place `off` from `at`, as far as 32 bits go.
fn shifted(at: u16, off: i32) -> (r: i32)
    ensures
        r == moved(at as int, off as int),
{
    if off > i32::MAX - at as i32 {
        i32::MAX
    } else {
        at as i32 + off
    }
}

/// The screen with the world drawn on it.
pub open spec fn with_world(cells: Cells, world: Area, g: GameModel, t: Tremor) -> Cells {
    painted(
        cells,
        moved(world.x as int, offset(g, t).0),
        moved(world.y as int, offset(g, t).1),
        world_strokes(g, world),
    )
}

/// The screen with the panel of the game's state over it.
pub open spec fn with_overlay(cells: Cells, area: Area, g: GameModel) -> Cells {
    let world = rows_of(area).world;
    match g.dash.state {
        State::Menu => with_menu(cells, area, g),
        State::GameOver => with_gameover(cells, area, g),
        State::Paused => with_pause(cells, area),
        State::Countdown => with_countdown(cells, g, world),
        State::Running => if g.dash.run_t.key < Num::spec_ratio(9, 10).key {
            with_go(cells, g, world)
        } else {
            cells
        },
        State::Crashing => cells,
    }
}

/// The screen with the request for a larger one.
pub open spec fn with_request(cells: Cells, area: Area) -> Cells {
    typeset(
        cells,
        centered(40, 1, area),
        seq![seq![Piece { text: "terminal too small — need at least 46×17"@, style: bare() }]],
        Align::Left,
        ink(255, 170, 90),
    )
}

/// The screen of a frame: the world, the instruments, the key line and a panel, one over
/// the other, or the request for a larger screen.
pub open spec fn frame(cells: Cells, area: Area, g: GameModel, t: Tremor) -> Cells {
    if too_small(area) {
        with_request(cells, area)
    } else {
        let rows = rows_of(area);
        let world = with_world(cells, rows.world, g, t);
        with_overlay(with_footer(with_hud(world, rows.hud, g), rows.footer, g), area, g)
    }
}

/// Whether all cells of `before` but those of an area are as they were.
pub open spec fn spared(after: Cells, before: Cells, area: Area) -> bool {
    &&& after.dom() == before.dom()
    &&& forall|x: u16, y: u16| #![trigger after[(x, y)]]
        !area.holds(x as int, y as int) && before.contains_key((x, y)) ==> after[(x, y)] == before[(x, y)]
}

/// Whether no panel lies over the world: in a crash, and in a race once its start signal is
/// gone.
pub open spec fn open_view(g: GameModel) -> bool {
    g.dash.state is Crashing || (g.dash.state is Running && g.dash.run_t.key >= Num::spec_ratio(9, 10).key)
}

/// Whether the cells of an area show the world and nothing over it.
pub open spec fn world_shows(after: Cells, before: Cells, world: Area, g: GameModel, t: Tremor) -> bool {
    forall|x: u16, y: u16| #![trigger after[(x, y)]]
        world.holds(x as int, y as int) ==> after[(x, y)] == with_world(before, world, g, t)[(x, y)]
}

/// Draws a frame of the game all over the buffer, and says whether it did: not if the buffer
/// stands for positions beyond those of a terminal. Without a panel the cells of the world
/// show the world. On a screen too
/// small for the game only the cells of the request for a larger one change.
pub fn draw(buf: &mut Buffer, g: &Game, t: &Tremor) -> (drawn: bool)
    requires
        g@.wf(),
    ensures
        drawn == buffer_area(*old(buf)).fits(),
        drawn ==> buffer_cells(*final(buf)) == frame(
            buffer_cells(*old(buf)),
            buffer_area(*old(buf)),
            g@,
            *t,
        ),
        drawn && !too_small(buffer_area(*old(buf))) && open_view(g@) ==> world_shows(
            buffer_cells(*final(buf)),
            buffer_cells(*old(buf)),
            rows_of(buffer_area(*old(buf))).world,
            g@,
            *t,
        ),
        drawn && too_small(buffer_area(*old(buf))) ==> spared(
            buffer_cells(*final(buf)),
            buffer_cells(*old(buf)),
            centered(40, 1, buffer_area(*old(buf))),
        ),
        !drawn ==> *final(buf) == *old(buf),
{
    let area: Area = area_of(buf);
    if area.x <= 65535 - area.width && area.y <= 65535 - area.height {
        draw_in(buf, area, g, t);
        true
    } else {
        false
    }
}

/// Draws a frame of the game into an area of the buffer. In an area too small for the game
/// only the cells of the request for a larger one change.
pub fn draw_in(buf: &mut Buffer, area: Area, g: &Game, t: &Tremor)
    requires
        area.fits(),
        covers(buffer_cells(*old(buf)), area),
        g@.wf(),
    ensures
        buffer_cells(*final(buf)) == frame(buffer_cells(*old(buf)), area, g@, *t),
        !too_small(area) && open_view(g@) ==> world_shows(
            buffer_cells(*final(buf)),
            buffer_cells(*old(buf)),
            rows_of(area).world,
            g@,
            *t,
        ),
        too_small(area) ==> spared(
            buffer_cells(*final(buf)),
            buffer_cells(*old(buf)),
            centered(40, 1, area),
        ),
        buffer_cells(*final(buf)).dom() == buffer_cells(*old(buf)).dom(),
{
    if area.width < 46 || area.height < 17 {
        let page: Page = Page::of(
            Line::of("terminal too small — need at least 46×17", Style::plain()),
        );
        let rect: Area = centered_rect(40, 1, area);
        proof {
            reveal_strlit("terminal too small — need at least 46×17");
            lemma_short_line(page@[0], 1, 40);
        }
        set_page(buf, rect, &page, Align::Left, Style::fg(255, 170, 90));
        return ;
    }
    let rows: Screen = split_rows(area, HUD_ROWS, FOOTER_ROWS);
    let off: (i32, i32) = shake(g, t);
    draw_world(buf, rows.world, off, g);
    draw_hud(buf, rows.hud, g);
    draw_footer(buf, rows.footer, g);
    match g.dash.state {
        State::Menu => menu_overlay(buf, area, g),
        State::GameOver => gameover_overlay(buf, area, g),
        State::Paused => pause_overlay(buf, area),
        State::Countdown => countdown_overlay(buf, g, rows.world),
        State::Running => {
            if g.dash.run_t.lt(Num::ratio(9, 10)) {
                go_overlay(buf, g, rows.world);
            }
        },
        State::Crashing => {},
    }
}

/// Draws the world, `off` columns and rows from its place.
fn draw_world(buf: &mut Buffer, world: Area, off: (i32, i32), g: &Game)
    requires
        g@.wf(),
    ensures
        buffer_cells(*final(buf)) == painted(
            buffer_cells(*old(buf)),
            moved(world.x as int, off.0 as int),
            moved(world.y as int, off.1 as int),
            world_strokes(g@, world),
        ),
        buffer_cells(*final(buf)).dom() == buffer_cells(*old(buf)).dom(),
{
    proof {
        painting_keeps_the_grid(
            buffer_cells(*buf),
            moved(world.x as int, off.0 as int),
            moved(world.y as int, off.1 as int),
            world_strokes(g@, world),
        );
    }
    let mut p: Painter = Painter::new(buf, (shifted(world.x, off.0), shifted(world.y, off.1)));
    render_world(&mut p, g, world);
}

} // verus!
