//! Where things stand on the screen: the split of the terminal, the road and its lanes.

use crate::num::Num;
use ratatui::layout::{Constraint, Layout, Rect};
use vstd::prelude::*;

verus! {

/// A rectangle of terminal cells.
#[derive(Clone, Copy, PartialEq, Eq, Structural, Debug)]
pub struct Area {
    pub x: u16,
    pub y: u16,
    pub width: u16,
    pub height: u16,
}

impl Area {
    /// Whether the cell at column `x` of row `y` lies in the rectangle.
    pub open spec fn holds(self, x: int, y: int) -> bool {
        &&& self.x <= x < self.x + self.width
        &&& self.y <= y < self.y + self.height
    }

    /// Whether every cell of the rectangle has coordinates that a terminal can name.
    pub open spec fn fits(self) -> bool {
        &&& self.x + self.width <= u16::MAX
        &&& self.y + self.height <= u16::MAX
    }

    /// Whether this rectangle lies inside `outer`.
    pub open spec fn within(self, outer: Area) -> bool {
        &&& outer.x <= self.x
        &&& outer.y <= self.y
        &&& self.x + self.width <= outer.x + outer.width
        &&& self.y + self.height <= outer.y + outer.height
    }
}

/// The road on the screen: four lanes side by side.
#[derive(Clone, Copy, PartialEq, Eq, Structural, Debug)]
pub struct Geom {
    pub lane_w: i32,
    /// The first asphalt column.
    pub rx: i32,
    pub road_w: i32,
}

/// The columns of a lane in a view of `width` columns.
pub open spec fn lane_width(width: int) -> int {
    if width >= 44 {
        8
    } else if width >= 28 {
        (width - 8) / 4 - 1
    } else {
        4
    }
}

/// The road in a view of `width` columns: centred with a curb of two columns on each side.
pub open spec fn road(width: int) -> Geom {
    let lane_w = lane_width(width);
    let spare = width - (4 * lane_w + 4);
    Geom {
        lane_w: lane_w as i32,
        rx: (if spare >= 0 {
            spare / 2 + 2
        } else {
            2 - (-spare) / 2
        }) as i32,
        road_w: (4 * lane_w) as i32,
    }
}

/// Lays the road out in the view.
pub fn geom(view: Area) -> (g: Geom)
    ensures
        g == road(view.width as int),
{
    let width: i32 = view.width as i32;
    let lane_w: i32 = if width >= 44 {
        8
    } else if width >= 28 {
        (width - 8) / 4 - 1
    } else {
        4
    };
    let road_w: i32 = lane_w * 4;
    let spare: i32 = width - (road_w + 4);
    let rx: i32 = if spare >= 0 {
        spare / 2 + 2
    } else {
        2 - (-spare) / 2
    };
    Geom { lane_w, rx, road_w }
}

/// The middle of lane `lane`, in columns from the left edge of the road.
pub open spec fn center_of(g: Geom, lane: int) -> Num {
    Num::spec_whole(g.lane_w as int).spec_times(Num::spec_whole(lane).spec_plus(Num::spec_ratio(1, 2)))
}

/// The middle of a lane, in columns from the left edge of the road.
pub fn lane_center(g: &Geom, lane: usize) -> (r: Num)
    requires
        lane <= i32::MAX,
        g.lane_w > i32::MIN,
    ensures
        r == center_of(*g, lane as int),
{
    Num::whole(g.lane_w).times(Num::whole(lane as i32).plus(Num::ratio(1, 2)))
}

/// The middle of the road, in columns from its left edge.
pub open spec fn mid_road(view: Area) -> Num {
    Num::spec_ratio(road(view.width as int).road_w as int, 2)
}

/// The row of the player's front bumper.
pub open spec fn player_row(view: Area) -> int {
    view.height - 8
}

/// The row of the player's front bumper.
pub fn player_y(view: Area) -> (r: i32)
    ensures
        r == player_row(view),
{
    view.height as i32 - 8
}

/// A rectangle of at most `w` by `h` cells in the middle of `area`.
pub open spec fn centered(w: int, h: int, area: Area) -> Area {
    let width = if w < area.width {
        w
    } else {
        area.width as int
    };
    let height = if h < area.height {
        h
    } else {
        area.height as int
    };
    Area {
        x: (area.x + (area.width - width) / 2) as u16,
        y: (area.y + (area.height - height) / 2) as u16,
        width: width as u16,
        height: height as u16,
    }
}

/// Centres a rectangle of at most `w` by `h` cells in `area`.
pub fn centered_rect(w: u16, h: u16, area: Area) -> (r: Area)
    requires
        area.x + (area.width - w) / 2 <= u16::MAX,
        area.y + (area.height - h) / 2 <= u16::MAX,
    ensures
        r == centered(w as int, h as int, area),
        r.within(area),
        area.fits() ==> r.fits(),
{
    let width: u16 = if w < area.width {
        w
    } else {
        area.width
    };
    let height: u16 = if h < area.height {
        h
    } else {
        area.height
    };
    Area {
        x: area.x + (area.width - width) / 2,
        y: area.y + (area.height - height) / 2,
        width,
        height,
    }
}

/// The rows of the screen: the instruments, the world and the key line.
pub struct Screen {
    pub hud: Area,
    pub world: Area,
    pub footer: Area,
}

/// The rows that the instruments take.
pub const HUD_ROWS: u16 = 3;

/// The rows that the key line takes.
pub const FOOTER_ROWS: u16 = 1;

/// The screen split into `top` rows above the world, the world, and `bottom` rows below it.
pub open spec fn parted(full: Area, top: int, bottom: int) -> Screen {
    Screen {
        hud: Area { x: full.x, y: full.y, width: full.width, height: top as u16 },
        world: Area {
            x: full.x,
            y: (full.y + top) as u16,
            width: full.width,
            height: (full.height - top - bottom) as u16,
        },
        footer: Area {
            x: full.x,
            y: (full.y + full.height - bottom) as u16,
            width: full.width,
            height: bottom as u16,
        },
    }
}

/// The screen split into three rows above the world, the world, and one row below it.
pub open spec fn rows_of(full: Area) -> Screen {
    parted(full, HUD_ROWS as int, FOOTER_ROWS as int)
}

/// How ratatui splits the screen into `top` rows, the rest, and `bottom` rows.
pub uninterp spec fn split_of(full: Area, top: u16, bottom: u16) -> Screen;

/// Splits the screen with ratatui's `Layout::split` under the constraints `Length(top)`,
/// `Min(0)` and `Length(bottom)`. Where that many rows are there, both lengths are met and
/// the rest goes to the middle. On fewer rows the lengths compete in ratatui's solver: of the
/// outcome it is only claimed that it follows from the rectangle and the lengths.
#[verifier::external_body]
pub(crate) fn split_rows(full: Area, top: u16, bottom: u16) -> (s: Screen)
    ensures
        s == split_of(full, top, bottom),
        full.fits() && top + bottom <= full.height ==> s == parted(full, top as int, bottom as int),
{
    let r = Rect { x: full.x, y: full.y, width: full.width, height: full.height };
    let rows = Layout::vertical([Constraint::Length(top), Constraint::Min(0), Constraint::Length(bottom)]).split(r);
    let plain = |r: Rect| Area { x: r.x, y: r.y, width: r.width, height: r.height };
    Screen { hud: plain(rows[0]), world: plain(rows[1]), footer: plain(rows[2]) }
}

/// The rectangle in which the world is drawn and simulated.
pub fn world_rect(full: Area) -> (r: Area)
    ensures
        r == split_of(full, HUD_ROWS, FOOTER_ROWS).world,
        full.fits() && full.height >= 4 ==> r == rows_of(full).world,
{
    split_rows(full, HUD_ROWS, FOOTER_ROWS).world
}

/// The road never leaves the view, curbs included, once the view has twenty columns.
pub proof fn road_stays_in_view(width: int)
    requires
        20 <= width <= u16::MAX,
    ensures
        road(width).rx - 2 >= 0,
        road(width).rx + road(width).road_w + 2 <= width,
        road(width).road_w == 4 * road(width).lane_w,
        4 <= road(width).lane_w <= 8,
{
}

/// The verges to the left and to the right of the road differ by at most one column.
pub proof fn road_is_centred(width: int)
    requires
        20 <= width <= u16::MAX,
    ensures
        0 <= (width - (road(width).rx + road(width).road_w + 2)) - (road(width).rx - 2) <= 1,
{
}

} // verus!
