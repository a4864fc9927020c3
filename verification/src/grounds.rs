//! What a frame shows of the ground.

use crate::game::GameModel;
use crate::geometry::{road, Area, Geom};
use crate::paint::{painted, painting_keeps_the_grid, Cells, Stroke};
use crate::promises::lane_columns;
use crate::sights::{
    lemma_over, lemma_push, looks, over, stroke_look, the_uppermost_thing_is_seen, world_look, Look,
};
use crate::style::{color, Style};
use crate::terrain::{ground, ground_row, ground_rows, ground_stroke, lane_marks, Rush};
use crate::world::{rows_past, rush_of, world_strokes};
use vstd::prelude::*;

verus! {

/// The look of the first `n` columns of the ground in row `top`.
spec fn columns_look(top: int, scroll: int, g: Geom, rush: Rush, x: int, y: int, n: int) -> Look {
    if y == top && 0 <= x < n {
        Some(ground(x, scroll + top, g, rush))
    } else {
        None
    }
}

proof fn lemma_columns(
    cells: Cells,
    ox: int,
    oy: int,
    top: int,
    scroll: int,
    g: Geom,
    rush: Rush,
    n: nat,
    at: (u16, u16),
)
    requires
        cells.contains_key(at),
    ensures
        looks(
            cells,
            ox,
            oy,
            Seq::new(n, |x: int| ground_stroke(x, top, scroll, g, rush)),
            at,
            columns_look(top, scroll, g, rush, at.0 - ox, at.1 - oy, n as int),
        ),
    decreases n,
{
    let all = Seq::new(n, |x: int| ground_stroke(x, top, scroll, g, rush));
    let x = at.0 - ox;
    let y = at.1 - oy;
    if n > 0 {
        let m = (n - 1) as nat;
        let less = Seq::new(m, |x: int| ground_stroke(x, top, scroll, g, rush));
        let s = ground_stroke(n - 1, top, scroll, g, rush);
        let first = columns_look(top, scroll, g, rush, x, y, n - 1);
        lemma_columns(cells, ox, oy, top, scroll, g, rush, m, at);
        lemma_push(cells, ox, oy, less, s, at, first);
        assert(less.push(s) =~= all);
        assert(over(stroke_look(s, x, y), first) == columns_look(top, scroll, g, rush, x, y, n as int));
    } else {
        assert(all.len() == 0);
    }
}

/// The style of the marks between the lanes.
pub open spec fn mark_style() -> Style {
    Style { fg: None, bg: Some(color(215, 215, 225)), marks: 0 }
}

/// The look of the first `n` marks between the lanes of row `top`.
spec fn marks_look(top: int, scroll: int, g: Geom, x: int, y: int, n: int) -> Look {
    if y == top && (scroll + top) % 4 < 2 && exists|k: int| 1 <= k <= n && x == #[trigger] (g.rx + g.lane_w * k) {
        Some((' ', mark_style()))
    } else {
        None
    }
}

proof fn lemma_marks(cells: Cells, ox: int, oy: int, top: int, scroll: int, g: Geom, n: int, at: (u16, u16))
    requires
        cells.contains_key(at),
        0 <= n,
    ensures
        looks(
            cells,
            ox,
            oy,
            lane_marks(top, scroll, g, n),
            at,
            marks_look(top, scroll, g, at.0 - ox, at.1 - oy, n),
        ),
    decreases n,
{
    let x = at.0 - ox;
    let y = at.1 - oy;
    if n > 0 && (scroll + top) % 4 < 2 {
        let before = lane_marks(top, scroll, g, n - 1);
        let s = Stroke { x: g.rx + g.lane_w * n, y: top, ch: ' ', style: mark_style() };
        let first = marks_look(top, scroll, g, x, y, n - 1);
        lemma_marks(cells, ox, oy, top, scroll, g, n - 1, at);
        lemma_push(cells, ox, oy, before, s, at, first);
        assert(lane_marks(top, scroll, g, n) == before.push(s));
        assert(over(stroke_look(s, x, y), first) == marks_look(top, scroll, g, x, y, n)) by {
            if first is Some {
                let k = choose|k: int| 1 <= k <= n - 1 && x == #[trigger] (g.rx + g.lane_w * k);
                assert(1 <= k <= n && x == g.rx + g.lane_w * k);
            }
            if stroke_look(s, x, y) is Some {
                assert(x == g.rx + g.lane_w * n);
            }
        }
    } else {
        assert(lane_marks(top, scroll, g, n).len() == 0);
    }
}

/// The look of the ground in row `top`.
spec fn row_look(top: int, view: Area, scroll: int, rush: Rush, x: int, y: int) -> Look {
    let g = road(view.width as int);
    over(
        marks_look(top, scroll, g, x, y, 3),
        columns_look(top, scroll, g, rush, x, y, view.width as int),
    )
}

proof fn lemma_row(
    cells: Cells,
    ox: int,
    oy: int,
    top: int,
    view: Area,
    scroll: int,
    rush: Rush,
    at: (u16, u16),
)
    requires
        cells.contains_key(at),
    ensures
        looks(
            cells,
            ox,
            oy,
            ground_row(top, view, scroll, rush),
            at,
            row_look(top, view, scroll, rush, at.0 - ox, at.1 - oy),
        ),
{
    let g = road(view.width as int);
    let a = Seq::new(view.width as nat, |x: int| ground_stroke(x, top, scroll, g, rush));
    let b = lane_marks(top, scroll, g, 3);
    let x = at.0 - ox;
    let y = at.1 - oy;
    lemma_columns(cells, ox, oy, top, scroll, g, rush, view.width as nat, at);
    painting_keeps_the_grid(cells, ox, oy, a);
    lemma_marks(painted(cells, ox, oy, a), ox, oy, top, scroll, g, 3, at);
    lemma_over(
        cells,
        ox,
        oy,
        a,
        b,
        at,
        columns_look(top, scroll, g, rush, x, y, view.width as int),
        marks_look(top, scroll, g, x, y, 3),
    );
    assert(ground_row(top, view, scroll, rush) == a + b);
}

proof fn lemma_rows(
    cells: Cells,
    ox: int,
    oy: int,
    view: Area,
    scroll: int,
    rush: Rush,
    n: int,
    at: (u16, u16),
)
    requires
        cells.contains_key(at),
        0 <= n,
    ensures
        ({
            let x = at.0 - ox;
            let y = at.1 - oy;
            looks(
                cells,
                ox,
                oy,
                ground_rows(view, scroll, rush, n),
                at,
                if 0 <= y < n {
                    row_look(y, view, scroll, rush, x, y)
                } else {
                    None
                },
            )
        }),
    decreases n,
{
    let x = at.0 - ox;
    let y = at.1 - oy;
    if n > 0 {
        let a = ground_rows(view, scroll, rush, n - 1);
        let b = ground_row(n - 1, view, scroll, rush);
        let first = if 0 <= y < n - 1 {
            row_look(y, view, scroll, rush, x, y)
        } else {
            None
        };
        lemma_rows(cells, ox, oy, view, scroll, rush, n - 1, at);
        painting_keeps_the_grid(cells, ox, oy, a);
        lemma_row(painted(cells, ox, oy, a), ox, oy, n - 1, view, scroll, rush, at);
        lemma_over(cells, ox, oy, a, b, at, first, row_look(n - 1, view, scroll, rush, x, y));
    } else {
        assert(ground_rows(view, scroll, rush, n).len() == 0);
    }
}

/// The ground is shown wherever nothing stands on it: asphalt between white edges, with marks
/// between its four lanes in two rows of four and streaks only while the nitro burns, curbs in
/// red and white by turns of two rows, and grass in two greens by turns of five.
pub proof fn the_ground_is_shown(g: GameModel, view: Area, cells: Cells, ox: int, oy: int, at: (u16, u16))
    requires
        cells.contains_key(at),
        0 <= at.0 - ox < view.width,
        0 <= at.1 - oy < view.height,
        rows_past(g, view) >= 0,
        world_look(g, view, at.0 - ox, at.1 - oy) is None,
    ensures
        ({
            let now = painted(cells, ox, oy, world_strokes(g, view))[at];
            let lane = lane_columns(view.width as int);
            let left = road(view.width as int).rx as int;
            let x = at.0 - ox - left;
            let wy = rows_past(g, view) + at.1 - oy;
            let on_line = x == lane || x == 2 * lane || x == 3 * lane;
            &&& on_line && wy % 4 < 2 ==> now.symbol == seq![' '] && now.bg == Some(color(215, 215, 225))
            &&& (-2 <= x < 0 || 4 * lane <= x < 4 * lane + 2) ==> now.symbol == seq!['█'] && now.fg == Some(
                if (wy / 2) % 2 == 0 {
                    color(205, 60, 55)
                } else {
                    color(235, 235, 235)
                },
            )
            &&& (x == 0 || x == 4 * lane - 1) ==> now.symbol == seq![' '] && now.bg == Some(color(235, 235, 240))
            &&& 0 < x < 4 * lane - 1 && !(on_line && wy % 4 < 2) ==> {
                &&& now.bg == Some(color(27, 27, 33)) || now.bg == Some(color(33, 33, 40))
                &&& now.symbol == seq![' '] || (now.symbol == seq!['╎'] && g.dash.nitro_on)
            }
            &&& (x < -2 || x >= 4 * lane + 2) ==> now.bg == Some(
                if (wy / 5) % 2 == 0 {
                    color(14, 40, 22)
                } else {
                    color(19, 52, 28)
                },
            )
        }),
{
    let x = at.0 - ox;
    let y = at.1 - oy;
    let way = road(view.width as int);
    let scroll = rows_past(g, view);
    let lane = lane_columns(view.width as int);
    the_uppermost_thing_is_seen(g, view, cells, ox, oy, at);
    lemma_rows(cells, ox, oy, view, scroll, rush_of(g), view.height as int, at);
    assert(way.lane_w == lane && way.road_w == 4 * lane);
    let lines = marks_look(y, scroll, way, x, y, 3);
    if lines is Some {
        let k = choose|k: int| 1 <= k <= 3 && x == #[trigger] (way.rx + way.lane_w * k);
        assert(way.lane_w * 1 == lane && way.lane_w * 2 == 2 * lane && way.lane_w * 3 == 3 * lane);
        assert(k == 1 || k == 2 || k == 3);
    } else {
        assert(way.lane_w * 1 == lane && way.lane_w * 2 == 2 * lane && way.lane_w * 3 == 3 * lane);
        if (scroll + y) % 4 < 2 {
            assert(x != way.rx + way.lane_w * 1);
            assert(x != way.rx + way.lane_w * 2);
            assert(x != way.rx + way.lane_w * 3);
        }
    }
}

} // verus!
