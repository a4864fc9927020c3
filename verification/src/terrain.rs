//! The ground: grass, curbs, asphalt and lane marks.

use crate::geometry::{geom, road, Area, Geom};
use crate::paint::{
    lemma_painted_add, lemma_then, lemma_then_one, painted, painting_keeps_the_grid, painting_spares_other_cells,
    Cells, Painter, Stroke,
};
use crate::style::{color, rgb, Rgb, Style};
use vstd::prelude::*;

verus! {

/// A scatter of the plane of columns and world rows over 31 bits.
pub open spec fn scatter(x: i32, wy: i64) -> u32 {
    let a = (x as i64).wrapping_mul(374_761_393) ^ wy.wrapping_mul(668_265_263);
    let b = (a ^ (a >> 13)).wrapping_mul(1_274_126_177);
    ((b ^ (b >> 16)) & 0x7fff_ffff) as u32
}

/// The tuft of grass for a scatter value: most of the ground is bare.
pub open spec fn tuft(h: u32) -> char {
    if h % 29 == 0 {
        '\''
    } else if h % 29 == 1 {
        '.'
    } else if h % 29 == 2 {
        ','
    } else if h % 29 == 3 {
        '`'
    } else {
        ' '
    }
}

/// Scatters columns and world rows over 31 bits.
pub fn hash2(x: i32, wy: i64) -> (r: u32)
    ensures
        r == scatter(x, wy),
        r <= 0x7fff_ffff,
{
    let a: i64 = (x as i64).wrapping_mul(374_761_393) ^ wy.wrapping_mul(668_265_263);
    let b: i64 = (a ^ (a >> 13)).wrapping_mul(1_274_126_177);
    let c: i64 = b ^ (b >> 16);
    assert(0 <= (c & 0x7fff_ffff) <= 0x7fff_ffff) by (bit_vector);
    (c & 0x7fff_ffff) as u32
}

/// The tuft of grass at a column of a world row.
pub fn grass_char(x: i32, wy: i64) -> (r: char)
    ensures
        r == tuft(scatter(x, wy)),
{
    match hash2(x, wy) % 29 {
        0 => '\'',
        1 => '.',
        2 => ',',
        3 => '`',
        _ => ' ',
    }
}

/// `a / b` with what is left cut off, towards zero.
pub open spec fn cut(a: int, b: int) -> int {
    if a >= 0 {
        a / b
    } else {
        -((-a) / b)
    }
}

/// How the ground is lit: whether the world rushes past, and whether the nitro burns.
#[derive(Clone, Copy, Debug)]
pub struct Rush {
    pub fast: bool,
    pub nitro: bool,
}

/// The character and the style of the ground in column `x` of world row `wy`.
pub open spec fn ground(x: int, wy: int, g: Geom, rush: Rush) -> (char, Style) {
    let h = scatter(x as i32, wy as i64);
    if x < g.rx - 2 || x >= g.rx + g.road_w + 2 {
        let streak = rush.fast && scatter((x * 7 + 3) as i32, wy as i64) % 23 == 0;
        let grass = if cut(wy, 5) % 2 == 0 {
            color(14, 40, 22)
        } else {
            color(19, 52, 28)
        };
        (
            if streak {
                '│'
            } else {
                tuft(h)
            },
            Style {
                fg: Some(
                    if streak {
                        color(150, 235, 165)
                    } else {
                        color(46, 92, 48)
                    },
                ),
                bg: Some(grass),
                marks: 0,
            },
        )
    } else if x < g.rx || x >= g.rx + g.road_w {
        let curb = if cut(wy, 2) % 2 == 0 {
            color(205, 60, 55)
        } else {
            color(235, 235, 235)
        };
        ('█', Style { fg: Some(curb), bg: Some(curb), marks: 0 })
    } else if x == g.rx || x == g.rx + g.road_w - 1 {
        (' ', Style { fg: None, bg: Some(color(235, 235, 240)), marks: 0 })
    } else {
        let asphalt = if h % 41 == 0 {
            color(27, 27, 33)
        } else {
            color(33, 33, 40)
        };
        if rush.nitro && scatter((x * 13 + 5) as i32, wy as i64) % 11 == 0 {
            ('╎', Style { fg: Some(color(120, 210, 255)), bg: Some(asphalt), marks: 0 })
        } else {
            (' ', Style { fg: None, bg: Some(asphalt), marks: 0 })
        }
    }
}

/// The stroke of the ground in column `x` of row `y`.
pub open spec fn ground_stroke(x: int, y: int, scroll: int, g: Geom, rush: Rush) -> Stroke {
    let (ch, style) = ground(x, scroll + y, g, rush);
    Stroke { x, y, ch, style }
}

/// The strokes of the first `n` marks between the lanes in row `y`: two rows of four have them.
pub open spec fn lane_marks(y: int, scroll: int, g: Geom, n: int) -> Seq<Stroke>
    decreases n,
{
    if n <= 0 || (scroll + y) % 4 >= 2 {
        Seq::empty()
    } else {
        lane_marks(y, scroll, g, n - 1).push(
            Stroke {
                x: g.rx + g.lane_w * n,
                y,
                ch: ' ',
                style: Style { fg: None, bg: Some(color(215, 215, 225)), marks: 0 },
            },
        )
    }
}

/// The strokes of the ground in row `y`.
pub open spec fn ground_row(y: int, view: Area, scroll: int, rush: Rush) -> Seq<Stroke> {
    let g = road(view.width as int);
    Seq::new(view.width as nat, |x: int| ground_stroke(x, y, scroll, g, rush)) + lane_marks(
        y,
        scroll,
        g,
        3,
    )
}

/// The strokes of the ground in the first `n` rows.
pub open spec fn ground_rows(view: Area, scroll: int, rush: Rush, n: int) -> Seq<Stroke>
    decreases n,
{
    if n <= 0 {
        Seq::empty()
    } else {
        ground_rows(view, scroll, rush, n - 1) + ground_row(n - 1, view, scroll, rush)
    }
}

/// The character and the style of the ground in column `x` of world row `wy`.
pub fn ground_at(x: i32, wy: i64, g: &Geom, rush: Rush) -> (r: (char, Style))
    requires
        0 <= x <= 65535,
        -100 <= g.rx <= 65535,
        0 <= g.road_w <= 32,
    ensures
        r == ground(x as int, wy as int, *g, rush),
{
    if x < g.rx - 2 || x >= g.rx + g.road_w + 2 {
        let grass: Rgb = if ((wy / 5) % 2 + 2) % 2 == 0 {
            rgb(14, 40, 22)
        } else {
            rgb(19, 52, 28)
        };
        let mut ch: char = grass_char(x, wy);
        let mut fg: Rgb = rgb(46, 92, 48);
        if rush.fast && hash2(x * 7 + 3, wy) % 23 == 0 {
            ch = '│';
            fg = rgb(150, 235, 165);
        }
        (ch, Style { fg: Some(fg), bg: Some(grass), marks: 0 })
    } else if x < g.rx || x >= g.rx + g.road_w {
        let curb: Rgb = if ((wy / 2) % 2 + 2) % 2 == 0 {
            rgb(205, 60, 55)
        } else {
            rgb(235, 235, 235)
        };
        ('█', Style { fg: Some(curb), bg: Some(curb), marks: 0 })
    } else if x == g.rx || x == g.rx + g.road_w - 1 {
        (' ', Style::ground(rgb(235, 235, 240)))
    } else {
        let asphalt: Rgb = if hash2(x, wy) % 41 == 0 {
            rgb(27, 27, 33)
        } else {
            rgb(33, 33, 40)
        };
        if rush.nitro && hash2(x * 13 + 5, wy) % 11 == 0 {
            ('╎', Style { fg: Some(rgb(120, 210, 255)), bg: Some(asphalt), marks: 0 })
        } else {
            (' ', Style::ground(asphalt))
        }
    }
}

/// Whether the lanes are marked in world row `wy`.
fn is_marked(wy: i64) -> (r: bool)
    ensures
        r == (wy as int % 4 < 2),
{
    ((wy % 4) + 4) % 4 < 2
}

/// Paints the ground of one row.
fn draw_ground_row(p: &mut Painter, y: i32, view: Area, scroll: i64, rush: Rush)
    requires
        0 <= y <= 65535,
        scroll + y <= i64::MAX,
    ensures
        final(p).drew(*old(p), ground_row(y as int, view, scroll as int, rush)),
        *final(final(p).buf) == *final(old(p).buf),
{
    let g: Geom = geom(view);
    let wy: i64 = scroll + y as i64;
    let w: i32 = view.width as i32;
    let ghost line = Seq::new(
        view.width as nat,
        |x: int| ground_stroke(x, y as int, scroll as int, g, rush),
    );
    let mut x: i32 = 0;
    assert(line.take(0) =~= Seq::<Stroke>::empty());
    while x < w
        invariant
            0 <= x <= w == view.width,
            0 <= y <= 65535,
            g == road(view.width as int),
            wy == scroll + y,
            line == Seq::new(
                view.width as nat,
                |x: int| ground_stroke(x, y as int, scroll as int, g, rush),
            ),
                p.drew(*old(p), line.take(x as int)),
            *final(p.buf) == *final(old(p).buf),
        decreases w - x,
    {
        let (ch, style): (char, Style) = ground_at(x, wy, &g, rush);
        let ghost mid = *p;
        p.put(x, y, ch, style);
        proof {
            lemma_then_one(*p, mid, *old(p), line.take(x as int), line[x as int]);
            assert(line.take(x as int).push(line[x as int]) =~= line.take(x + 1));
        }
        x = x + 1;
    }
    let ghost paved = *p;
    assert(line.take(w as int) =~= line);
    let mark: Style = Style::ground(rgb(215, 215, 225));
    if is_marked(wy) {
        let mut i: i32 = 1;
        while i < 4
            invariant
                1 <= i <= 4,
                0 <= y <= 65535,
                g == road(view.width as int),
                wy == scroll + y,
                wy as int % 4 < 2,
                mark == (Style { fg: None, bg: Some(color(215, 215, 225)), marks: 0 }),
                p.drew(paved, lane_marks(y as int, scroll as int, g, i - 1)),
                *final(p.buf) == *final(paved.buf),
            decreases 4 - i,
        {
            let ghost mid = *p;
            assert(g.lane_w * i <= 32) by (nonlinear_arith)
                requires
                    4 <= g.lane_w <= 8,
                    1 <= i < 4,
            ;
            p.put(g.rx + g.lane_w * i, y, ' ', mark);
            proof {
                lemma_then_one(
                    *p,
                    mid,
                    paved,
                    lane_marks(y as int, scroll as int, g, i - 1),
                    Stroke { x: g.rx + g.lane_w * i, y: y as int, ch: ' ', style: mark },
                );
            }
            i = i + 1;
        }
    }
    proof {
        lemma_then(*p, paved, *old(p), line, lane_marks(y as int, scroll as int, g, 3));
    }
}

/// Paints the ground of the whole view.
pub fn draw_ground(p: &mut Painter, view: Area, scroll: i64, rush: Rush)
    requires
        view.height > 0 ==> scroll + view.height - 1 <= i64::MAX,
    ensures
        final(p).drew(*old(p), ground_rows(view, scroll as int, rush, view.height as int)),
        *final(final(p).buf) == *final(old(p).buf),
{
    let mut y: i32 = 0;
    while y < view.height as i32
        invariant
            0 <= y <= view.height,
            view.height > 0 ==> scroll + view.height - 1 <= i64::MAX,
                p.drew(*old(p), ground_rows(view, scroll as int, rush, y as int)),
            *final(p.buf) == *final(old(p).buf),
        decreases view.height - y,
    {
        let ghost mid = *p;
        draw_ground_row(p, y, view, scroll, rush);
        proof {
            lemma_then(
                *p,
                mid,
                *old(p),
                ground_rows(view, scroll as int, rush, y as int),
                ground_row(y as int, view, scroll as int, rush),
            );
        }
        y = y + 1;
    }
}

/// What a cell shows after some strokes hangs on nothing but what it showed before.
pub proof fn lemma_cells_are_apart(a: Cells, b: Cells, ox: int, oy: int, strokes: Seq<Stroke>, at: (u16, u16))
    requires
        a.contains_key(at),
        b.contains_key(at),
        a[at] == b[at],
    ensures
        painted(a, ox, oy, strokes).contains_key(at),
        painted(b, ox, oy, strokes).contains_key(at),
        painted(a, ox, oy, strokes)[at] == painted(b, ox, oy, strokes)[at],
    decreases strokes.len(),
{
    painting_keeps_the_grid(a, ox, oy, strokes);
    painting_keeps_the_grid(b, ox, oy, strokes);
    if strokes.len() > 0 {
        lemma_cells_are_apart(a, b, ox, oy, strokes.drop_last(), at);
    }
}

/// The marks of a row are the same, and in that row.
proof fn lemma_marks_shift(y: int, scroll: int, g: Geom, n: int)
    ensures
        lane_marks(y, scroll + 1, g, n).len() == lane_marks(y + 1, scroll, g, n).len(),
        forall|i: int| #![trigger lane_marks(y, scroll + 1, g, n)[i]]
            0 <= i < lane_marks(y, scroll + 1, g, n).len() ==> lane_marks(y, scroll + 1, g, n)[i] == (Stroke {
                y,
                ..lane_marks(y + 1, scroll, g, n)[i]
            }),
        forall|i: int| #![trigger lane_marks(y + 1, scroll, g, n)[i]]
            0 <= i < lane_marks(y + 1, scroll, g, n).len() ==> lane_marks(y + 1, scroll, g, n)[i].y == y + 1,
    decreases n,
{
    if n > 0 {
        lemma_marks_shift(y, scroll, g, n - 1);
    }
}

/// All strokes of a row are in that row.
proof fn lemma_row_is_level(y: int, view: Area, scroll: int, rush: Rush)
    ensures
        forall|i: int| #![trigger ground_row(y, view, scroll, rush)[i]]
            0 <= i < ground_row(y, view, scroll, rush).len() ==> ground_row(y, view, scroll, rush)[i].y == y,
{
    lemma_marks_shift(y - 1, scroll, road(view.width as int), 3);
}

/// A cell of the ground shows what its own row paints there.
proof fn lemma_rows_are_apart(
    cells: Cells,
    ox: int,
    oy: int,
    view: Area,
    scroll: int,
    rush: Rush,
    n: int,
    at: (u16, u16),
)
    requires
        cells.contains_key(at),
        0 <= at.1 - oy,
    ensures
        painted(cells, ox, oy, ground_rows(view, scroll, rush, n)).contains_key(at),
        at.1 - oy >= n ==> painted(cells, ox, oy, ground_rows(view, scroll, rush, n))[at] == cells[at],
        at.1 - oy < n ==> painted(cells, ox, oy, ground_rows(view, scroll, rush, n))[at] == painted(
            cells,
            ox,
            oy,
            ground_row(at.1 - oy, view, scroll, rush),
        )[at],
    decreases n,
{
    if n > 0 {
        let above = ground_rows(view, scroll, rush, n - 1);
        let row = ground_row(n - 1, view, scroll, rush);
        let mid = painted(cells, ox, oy, above);
        lemma_rows_are_apart(cells, ox, oy, view, scroll, rush, n - 1, at);
        lemma_painted_add(cells, ox, oy, above, row);
        painting_keeps_the_grid(mid, ox, oy, row);
        if at.1 - oy == n - 1 {
            lemma_cells_are_apart(mid, cells, ox, oy, row, at);
        } else {
            lemma_row_is_level(n - 1, view, scroll, rush);
            painting_spares_other_cells(mid, ox, oy, row, at);
        }
    }
}

/// The same strokes one row lower paint the same, one row lower.
proof fn lemma_lower(cells: Cells, ox: int, oy: int, a: Seq<Stroke>, b: Seq<Stroke>, at: (u16, u16), low: (u16, u16))
    requires
        cells.contains_key(at),
        cells.contains_key(low),
        cells[at] == cells[low],
        low.0 == at.0,
        low.1 == at.1 + 1,
        a.len() == b.len(),
        forall|i: int| #![trigger a[i]] 0 <= i < a.len() ==> a[i] == (Stroke { y: b[i].y - 1, ..b[i] }),
    ensures
        painted(cells, ox, oy, a)[at] == painted(cells, ox, oy, b)[low],
    decreases a.len(),
{
    painting_keeps_the_grid(cells, ox, oy, a);
    painting_keeps_the_grid(cells, ox, oy, b);
    if a.len() > 0 {
        let x = a.drop_last();
        let y = b.drop_last();
        assert forall|i: int| #![trigger x[i]] 0 <= i < x.len() implies x[i] == (Stroke { y: y[i].y - 1, ..y[i] }) by {
            assert(x[i] == a[i] && y[i] == b[i]);
        }
        lemma_lower(cells, ox, oy, x, y, at, low);
        painting_keeps_the_grid(cells, ox, oy, x);
        painting_keeps_the_grid(cells, ox, oy, y);
        let s = a.last();
        let t = b.last();
        assert(a[a.len() - 1] == s);
        assert(s.x == t.x && s.ch == t.ch && s.style == t.style && s.y == t.y - 1);
    }
}

/// The ground moves with the world as one sheet: a row further on, each cell shows what the
/// one below it showed.
pub proof fn ground_scrolls(
    cells: Cells,
    ox: int,
    oy: int,
    view: Area,
    scroll: int,
    rush: Rush,
    at: (u16, u16),
    low: (u16, u16),
)
    requires
        cells.contains_key(at),
        cells.contains_key(low),
        cells[at] == cells[low],
        low.0 == at.0,
        low.1 == at.1 + 1,
        0 <= at.1 - oy,
        low.1 - oy < view.height,
    ensures
        painted(cells, ox, oy, ground_rows(view, scroll + 1, rush, view.height as int))[at] == painted(
            cells,
            ox,
            oy,
            ground_rows(view, scroll, rush, view.height as int),
        )[low],
{
    let y = at.1 - oy;
    let g = road(view.width as int);
    let a = ground_row(y, view, scroll + 1, rush);
    let b = ground_row(y + 1, view, scroll, rush);
    lemma_rows_are_apart(cells, ox, oy, view, scroll + 1, rush, view.height as int, at);
    lemma_rows_are_apart(cells, ox, oy, view, scroll, rush, view.height as int, low);
    lemma_marks_shift(y, scroll, g, 3);
    lemma_row_is_level(y + 1, view, scroll, rush);
    assert forall|i: int| #![trigger a[i]] 0 <= i < a.len() implies a[i] == (Stroke { y: b[i].y - 1, ..b[i] }) by {
        if i < view.width {
            assert(a[i] == ground_stroke(i, y, scroll + 1, g, rush));
            assert(b[i] == ground_stroke(i, y + 1, scroll, g, rush));
        } else {
            assert(a[i] == lane_marks(y, scroll + 1, g, 3)[i - view.width]);
            assert(b[i] == lane_marks(y + 1, scroll, g, 3)[i - view.width]);
        }
    }
    lemma_lower(cells, ox, oy, a, b, at, low);
}

} // verus!
