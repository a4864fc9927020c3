//! Painting into a ratatui buffer.

use crate::geometry::Area;
use crate::style::{Rgb, Style};
use crate::text::{Page, Piece};
use ratatui::buffer::Buffer;
use ratatui::layout::{Alignment, Position, Rect};
use ratatui::style::{Color, Modifier, Style as Pen};
use ratatui::text::{Line as Row, Span as Run, Text};
use ratatui::widgets::{Block, BorderType, Clear, Paragraph, Widget};
use vstd::prelude::*;
use vstd::string::StrSliceExecFns;

verus! {

/// ratatui's `Buffer`, the grid of cells of one frame.
#[verifier::external_type_specification]
#[verifier::external_body]
pub struct ExBuffer(Buffer);

/// One cell of a buffer. A colour other than a red, green and blue triple counts as none.
pub struct Cell {
    pub symbol: Seq<char>,
    pub fg: Option<Rgb>,
    pub bg: Option<Rgb>,
    pub marks: u16,
}

/// The cells of a buffer by column and row.
pub type Cells = Map<(u16, u16), Cell>;

/// What a buffer holds: its cells by column and row.
pub uninterp spec fn buffer_cells(buf: Buffer) -> Map<(u16, u16), Cell>;

/// The area that a buffer stands for.
pub uninterp spec fn buffer_area(buf: Buffer) -> Area;

/// A cell after a style was laid over it.
pub open spec fn patched(c: Cell, s: Style) -> Cell {
    Cell {
        symbol: c.symbol,
        fg: if s.fg is Some {
            s.fg
        } else {
            c.fg
        },
        bg: if s.bg is Some {
            s.bg
        } else {
            c.bg
        },
        marks: c.marks | (s.marks & 0x1ff),
    }
}

/// A cell after a character was written into it in a style.
pub open spec fn inked(c: Cell, ch: char, s: Style) -> Cell {
    Cell { symbol: seq![ch], ..patched(c, s) }
}

/// A cell with nothing in it.
pub open spec fn blank() -> Cell {
    Cell { symbol: seq![' '], fg: None, bg: None, marks: 0 }
}

/// The cells after a character was written at column `x` of row `y`; beyond the
/// buffer nothing is written.
pub open spec fn put_cell(cells: Cells, x: int, y: int, ch: char, s: Style) -> Cells {
    let at = (x as u16, y as u16);
    if 0 <= x <= u16::MAX && 0 <= y <= u16::MAX && cells.contains_key(at) {
        cells.insert(at, inked(cells[at], ch, s))
    } else {
        cells
    }
}

/// One character that is painted, relative to the painter's origin.
pub struct Stroke {
    pub x: int,
    pub y: int,
    pub ch: char,
    pub style: Style,
}

/// The cells after the strokes were painted one after the other.
pub open spec fn painted(cells: Cells, ox: int, oy: int, strokes: Seq<Stroke>) -> Cells
    decreases strokes.len(),
{
    if strokes.len() == 0 {
        cells
    } else {
        let s = strokes.last();
        put_cell(painted(cells, ox, oy, strokes.drop_last()), s.x + ox, s.y + oy, s.ch, s.style)
    }
}

/// The strokes of a line of text; spaces paint nothing.
pub open spec fn text_strokes(x: int, y: int, text: Seq<char>, style: Style) -> Seq<Stroke>
    decreases text.len(),
{
    if text.len() == 0 {
        Seq::empty()
    } else {
        let before = text_strokes(x, y, text.drop_last(), style);
        if text.last() == ' ' {
            before
        } else {
            before.push(Stroke { x: x + text.len() - 1, y, ch: text.last(), style })
        }
    }
}

/// Whether every cell of the area is in the buffer.
pub open spec fn covers(cells: Cells, area: Area) -> bool {
    forall|x: u16, y: u16| #![trigger cells.contains_key((x, y))]
        area.holds(x as int, y as int) ==> cells.contains_key((x, y))
}

/// The cells after all those of an area were emptied.
pub open spec fn cleared(cells: Cells, area: Area) -> Cells {
    cells.map_entries(
        |at: (u16, u16), c: Cell|
            if area.holds(at.0 as int, at.1 as int) {
                blank()
            } else {
                c
            },
    )
}

/// The line drawing of a frame.
#[derive(Clone, Copy, PartialEq, Eq, Structural, Debug)]
pub enum Border {
    Plain,
    Double,
}

/// The character of a frame round `area` at column `x` of row `y`, if it has one there.
pub open spec fn frame_char(area: Area, border: Border, x: int, y: int) -> Option<char> {
    let left = x == area.x;
    let right = x == area.x + area.width - 1;
    let top = y == area.y;
    let bottom = y == area.y + area.height - 1;
    let double = border is Double;
    if !area.holds(x, y) {
        None
    } else if top && left {
        Some(if double { '╔' } else { '┌' })
    } else if bottom && left {
        Some(if double { '╚' } else { '└' })
    } else if top && right {
        Some(if double { '╗' } else { '┐' })
    } else if bottom && right {
        Some(if double { '╝' } else { '┘' })
    } else if top || bottom {
        Some(if double { '═' } else { '─' })
    } else if left || right {
        Some(if double { '║' } else { '│' })
    } else {
        None
    }
}

/// The cells after an area was filled with a background and framed.
pub open spec fn framed(cells: Cells, area: Area, border: Border, edge: Rgb, fill: Rgb) -> Cells {
    cells.map_entries(
        |at: (u16, u16), c: Cell|
            {
                let filled = patched(c, Style { fg: None, bg: Some(fill), marks: 0 });
                if !area.holds(at.0 as int, at.1 as int) {
                    c
                } else if frame_char(area, border, at.0 as int, at.1 as int) is Some {
                    inked(
                        filled,
                        frame_char(area, border, at.0 as int, at.1 as int)->0,
                        Style { fg: Some(edge), bg: None, marks: 0 },
                    )
                } else {
                    filled
                }
            },
    )
}

/// Where the lines of a page stand in their area.
#[derive(Clone, Copy, PartialEq, Eq, Structural, Debug)]
pub enum Align {
    Left,
    Centre,
}

/// The cells after ratatui set a page of text into an area over a base style.
pub uninterp spec fn typeset(
    cells: Map<(u16, u16), Cell>,
    area: Area,
    page: Seq<Seq<Piece>>,
    align: Align,
    base: Style,
) -> Map<(u16, u16), Cell>;

/// `Buffer::area`: the area that the buffer stands for. Where that fits into a terminal's
/// coordinates the buffer has a cell for each of its positions and no other.
#[verifier::external_body]
pub(crate) fn area_of(buf: &Buffer) -> (r: Area)
    ensures
        r == buffer_area(*buf),
        forall|x: u16, y: u16| #![trigger buffer_cells(*buf).contains_key((x, y))]
            r.fits() ==> (buffer_cells(*buf).contains_key((x, y)) <==> r.holds(x as int, y as int)),
{
    let area = buf.area();
    Area { x: area.x, y: area.y, width: area.width, height: area.height }
}

/// Writes one cell: `Buffer::cell_mut` finds it, or finds that the buffer has no such
/// cell; `Cell::set_char` sets its symbol, and `Cell::set_style` the colours that the
/// style names and the marks that it adds.
#[verifier::external_body]
fn write_cell(buf: &mut Buffer, x: u16, y: u16, ch: char, style: Style)
    ensures
        buffer_cells(*final(buf)) == put_cell(buffer_cells(*old(buf)), x as int, y as int, ch, style),
{
    if let Some(cell) = buf.cell_mut(Position { x, y }) {
        cell.set_char(ch);
        cell.set_style(Pen {
            fg: style.fg.map(|c| Color::Rgb(c.r, c.g, c.b)),
            bg: style.bg.map(|c| Color::Rgb(c.r, c.g, c.b)),
            add_modifier: Modifier::from_bits_truncate(style.marks),
            ..Pen::default()
        });
    }
}

/// Renders ratatui's `Clear`: every cell of the area is reset. `Clear` indexes the
/// buffer and panics beyond it, so the buffer has to cover the area.
#[verifier::external_body]
pub(crate) fn clear_area(buf: &mut Buffer, area: Area)
    requires
        area.fits(),
        covers(buffer_cells(*old(buf)), area),
    ensures
        buffer_cells(*final(buf)) == cleared(buffer_cells(*old(buf)), area),
{
    Clear.render(Rect::new(area.x, area.y, area.width, area.height), buf);
}

/// Renders ratatui's `Block` with borders on all sides: the fill goes over the whole
/// area, then the sides and the corners are written in the edge colour. Where corners fall
/// together the left one is written over the right one, and the upper over the lower.
#[verifier::external_body]
pub(crate) fn frame_area(buf: &mut Buffer, area: Area, border: Border, edge: Rgb, fill: Rgb)
    requires
        area.fits(),
        covers(buffer_cells(*old(buf)), area),
    ensures
        buffer_cells(*final(buf)) == framed(buffer_cells(*old(buf)), area, border, edge, fill),
{
    let kind = match border {
        Border::Plain => BorderType::Plain,
        Border::Double => BorderType::Double,
    };
    Block::bordered()
        .border_type(kind)
        .border_style(Color::Rgb(edge.r, edge.g, edge.b))
        .style(Pen::default().bg(Color::Rgb(fill.r, fill.g, fill.b)))
        .render(Rect::new(area.x, area.y, area.width, area.height), buf);
}

/// Whether a character takes one column: those of ASCII that can be seen, the middle dot and
/// the four arrows.
pub open spec fn slim(c: char) -> bool {
    ' ' <= c <= '~' || c == '·' || '←' <= c <= '↓'
}

/// How many columns a character takes at most.
pub open spec fn most_columns(c: char) -> int {
    if slim(c) {
        1
    } else {
        3
    }
}

/// How many columns the first `n` characters of a text take at most.
pub open spec fn room_up_to(text: Seq<char>, n: int) -> int
    decreases n,
{
    if n <= 0 {
        0
    } else {
        room_up_to(text, n - 1) + most_columns(text[n - 1])
    }
}

/// How many columns the first `n` pieces of a line take at most.
pub open spec fn line_up_to(line: Seq<Piece>, n: int) -> int
    decreases n,
{
    if n <= 0 {
        0
    } else {
        line_up_to(line, n - 1) + room_up_to(line[n - 1].text, line[n - 1].text.len() as int)
    }
}

/// How many columns a line takes at most.
pub open spec fn line_room(line: Seq<Piece>) -> int {
    line_up_to(line, line.len() as int)
}

/// Whether 16 bits count the columns of each line of a page.
pub open spec fn countable(page: Seq<Seq<Piece>>) -> bool {
    forall|i: int| #![trigger page[i]] 0 <= i < page.len() ==> line_room(page[i]) <= u16::MAX
}

/// A text takes three columns for each character at most.
proof fn lemma_text_room(text: Seq<char>, n: int)
    requires
        0 <= n,
    ensures
        0 <= room_up_to(text, n) <= 3 * n,
    decreases n,
{
    if n > 0 {
        lemma_text_room(text, n - 1);
    }
}

/// Slim characters take a column each.
pub(crate) proof fn lemma_slim_text(text: Seq<char>, n: int)
    requires
        0 <= n <= text.len(),
        forall|i: int| #![trigger text[i]] 0 <= i < text.len() ==> slim(text[i]),
    ensures
        room_up_to(text, n) == n,
    decreases n,
{
    if n > 0 {
        lemma_slim_text(text, n - 1);
    }
}

/// The room of two texts is that of both together.
pub(crate) proof fn lemma_rooms_add(a: Seq<char>, b: Seq<char>, n: int)
    requires
        0 <= n <= b.len(),
    ensures
        room_up_to(a + b, a.len() + n) == room_up_to(a, a.len() as int) + room_up_to(b, n),
    decreases n,
{
    if n > 0 {
        lemma_rooms_add(a, b, n - 1);
        assert((a + b)[a.len() + n - 1] == b[n - 1]);
    } else {
        lemma_same_start(a, a + b, a.len() as int);
    }
}

proof fn lemma_same_start(a: Seq<char>, b: Seq<char>, n: int)
    requires
        0 <= n <= a.len(),
        n <= b.len(),
        forall|i: int| #![trigger a[i]] 0 <= i < n ==> a[i] == b[i],
    ensures
        room_up_to(a, n) == room_up_to(b, n),
    decreases n,
{
    if n > 0 {
        lemma_same_start(a, b, n - 1);
        assert(a[n - 1] == b[n - 1]);
    }
}

/// A line of short pieces takes little room.
pub(crate) proof fn lemma_short_line(line: Seq<Piece>, n: int, longest: int)
    requires
        0 <= n <= line.len(),
        0 <= longest,
        forall|k: int| #![trigger line[k]] 0 <= k < line.len() ==> line[k].text.len() <= longest,
    ensures
        0 <= line_up_to(line, n) <= 3 * longest * n,
    decreases n,
{
    if n > 0 {
        lemma_short_line(line, n - 1, longest);
        lemma_text_room(line[n - 1].text, line[n - 1].text.len() as int);
        assert(3 * longest * (n - 1) + 3 * longest == 3 * longest * n) by (nonlinear_arith);
    }
}

/// Renders ratatui's `Paragraph` without wrapping. It writes no cell outside the area and
/// adds none to the buffer. It indexes the buffer and panics beyond it, so the buffer has
/// to cover the area; it counts the columns of a line in 16 bits, so no line may take more.
/// The widths are those of the crate unicode-width: no character takes more than three
/// columns, and the slim ones take one.
#[verifier::external_body]
pub(crate) fn set_page(buf: &mut Buffer, area: Area, page: &Page, align: Align, base: Style)
    requires
        area.fits(),
        countable(page@),
        covers(buffer_cells(*old(buf)), area),
    ensures
        buffer_cells(*final(buf)) == typeset(buffer_cells(*old(buf)), area, page@, align, base),
        buffer_cells(*final(buf)).dom() == buffer_cells(*old(buf)).dom(),
        forall|x: u16, y: u16| #![trigger buffer_cells(*final(buf))[(x, y)]]
            !area.holds(x as int, y as int) && buffer_cells(*old(buf)).contains_key((x, y))
                ==> buffer_cells(*final(buf))[(x, y)] == buffer_cells(*old(buf))[(x, y)],
{
    let side = match align {
        Align::Left => Alignment::Left,
        Align::Centre => Alignment::Center,
    };
    let hue = |c: Rgb| Color::Rgb(c.r, c.g, c.b);
    let pen = |s: Style| Pen {
        fg: s.fg.map(hue),
        bg: s.bg.map(hue),
        add_modifier: Modifier::from_bits_truncate(s.marks),
        ..Pen::default()
    };
    Paragraph::new(Text::from_iter(page.lines.iter().map(
        |l| Row::from_iter(l.spans.iter().map(|s| Run::styled(&s.text, pen(s.style)))),
    ))).alignment(side).style(pen(base)).render(Rect::new(area.x, area.y, area.width, area.height), buf);
}

/// Paints characters at coordinates relative to an origin.
pub struct Painter<'a> {
    pub buf: &'a mut Buffer,
    pub ox: i32,
    pub oy: i32,
}

/// Whether 32 bits hold a coordinate.
pub open spec fn fits_32(v: int) -> bool {
    i32::MIN <= v <= i32::MAX
}

/// Whether a coordinate can be added to an origin in 64 bits.
pub open spec fn modest(v: int) -> bool {
    -0x2000_0000_0000_0000 <= v <= 0x2000_0000_0000_0000
}

impl<'a> Painter<'a> {
    /// The cells under the brush.
    pub open spec fn cells(self) -> Cells {
        buffer_cells(*self.buf)
    }

    /// Whether this painter is `before` after it painted the strokes.
    pub open spec fn drew(self, before: Painter<'a>, strokes: Seq<Stroke>) -> bool {
        &&& self.cells() == painted(before.cells(), before.ox as int, before.oy as int, strokes)
        &&& self.ox == before.ox
        &&& self.oy == before.oy
    }

    /// A painter on the buffer with its origin at `off`.
    pub fn new(buf: &'a mut Buffer, off: (i32, i32)) -> (p: Painter<'a>)
        ensures
            p.ox == off.0,
            p.oy == off.1,
            *p.buf == *old(buf),
            *final(p.buf) == *final(buf),
    {
        Painter { buf, ox: off.0, oy: off.1 }
    }

    /// Paints one character; beyond the buffer nothing is painted.
    pub fn put(&mut self, x: i32, y: i32, ch: char, style: Style)
        ensures
            final(self).drew(*old(self), seq![Stroke { x: x as int, y: y as int, ch, style }]),
            *final(final(self).buf) == *final(old(self).buf),
    {
        self.mark(x as i64, y as i64, ch, style);
    }

    /// Paints one character, however far from the origin.
    pub(crate) fn mark(&mut self, x: i64, y: i64, ch: char, style: Style)
        requires
            modest(x as int),
            modest(y as int),
        ensures
            final(self).drew(*old(self), seq![Stroke { x: x as int, y: y as int, ch, style }]),
            *final(final(self).buf) == *final(old(self).buf),
    {
        let px: i64 = x + self.ox as i64;
        let py: i64 = y + self.oy as i64;
        proof {
            let s = Stroke { x: x as int, y: y as int, ch, style };
            assert(seq![s].drop_last() =~= Seq::<Stroke>::empty());
            reveal_with_fuel(painted, 2);
        }
        if px < 0 || py < 0 || px > 65535 || py > 65535 {
            return ;
        }
        write_cell(self.buf, px as u16, py as u16, ch, style);
    }

    /// Paints a line of text; spaces leave the cell under them as it is.
    pub fn put_str(&mut self, x: i32, y: i32, s: &str, style: Style)
        requires
            s@.len() > 0 ==> fits_32(x + s@.len() - 1),
        ensures
            final(self).drew(*old(self), text_strokes(x as int, y as int, s@, style)),
            *final(final(self).buf) == *final(old(self).buf),
    {
        self.write(x as i64, y as i64, s, style);
    }

    /// Paints a line of text, however far from the origin.
    pub(crate) fn write(&mut self, x: i64, y: i64, s: &str, style: Style)
        requires
            modest(x as int),
            modest(x + s@.len()),
            modest(y as int),
        ensures
            final(self).drew(*old(self), text_strokes(x as int, y as int, s@, style)),
            *final(final(self).buf) == *final(old(self).buf),
    {
        let n: usize = s.unicode_len();
        let mut i: usize = 0;
        while i < n
            invariant
                i <= n == s@.len(),
                modest(x as int),
                modest(x + s@.len()),
                modest(y as int),
                self.drew(*old(self), text_strokes(x as int, y as int, s@.take(i as int), style)),
                *final(self.buf) == *final(old(self).buf),
            decreases n - i,
        {
            let ch: char = s.get_char(i);
            let ghost before = *self;
            proof {
                assert(s@.take(i + 1).drop_last() =~= s@.take(i as int));
                assert(s@.take(i + 1).last() == ch);
            }
            if ch != ' ' {
                self.mark(x + i as i64, y, ch, style);
                proof {
                    lemma_then_one(
                        *self,
                        before,
                        *old(self),
                        text_strokes(x as int, y as int, s@.take(i as int), style),
                        Stroke { x: x + i, y: y as int, ch, style },
                    );
                }
            }
            i = i + 1;
        }
        assert(s@.take(n as int) =~= s@);
    }
}

/// Painting more strokes is painting the longer list.
pub proof fn lemma_painted_add(cells: Cells, ox: int, oy: int, a: Seq<Stroke>, b: Seq<Stroke>)
    ensures
        painted(painted(cells, ox, oy, a), ox, oy, b) == painted(cells, ox, oy, a + b),
    decreases b.len(),
{
    if b.len() == 0 {
        assert(a + b =~= a);
    } else {
        lemma_painted_add(cells, ox, oy, a, b.drop_last());
        assert((a + b).drop_last() =~= a + b.drop_last());
        assert((a + b).last() == b.last());
    }
}

/// A painter that drew one list of strokes and then another drew both.
pub proof fn lemma_then(now: Painter, mid: Painter, first: Painter, a: Seq<Stroke>, b: Seq<Stroke>)
    requires
        now.drew(mid, b),
        mid.drew(first, a),
    ensures
        now.drew(first, a + b),
{
    lemma_painted_add(first.cells(), first.ox as int, first.oy as int, a, b);
}

/// A painter that drew a list of strokes and then one more drew the longer list.
pub proof fn lemma_then_one(now: Painter, mid: Painter, first: Painter, a: Seq<Stroke>, s: Stroke)
    requires
        now.drew(mid, seq![s]),
        mid.drew(first, a),
    ensures
        now.drew(first, a.push(s)),
{
    lemma_then(now, mid, first, a, seq![s]);
    assert(a + seq![s] =~= a.push(s));
}

/// Painting adds no cell to the buffer and takes none away.
pub proof fn painting_keeps_the_grid(cells: Cells, ox: int, oy: int, strokes: Seq<Stroke>)
    ensures
        painted(cells, ox, oy, strokes).dom() == cells.dom(),
    decreases strokes.len(),
{
    if strokes.len() > 0 {
        painting_keeps_the_grid(cells, ox, oy, strokes.drop_last());
        assert(painted(cells, ox, oy, strokes).dom() =~= cells.dom());
    }
}

/// A cell on which no stroke falls stays as it was.
pub proof fn painting_spares_other_cells(cells: Cells, ox: int, oy: int, strokes: Seq<Stroke>, at: (u16, u16))
    requires
        forall|i: int| #![trigger strokes[i]]
            0 <= i < strokes.len() ==> strokes[i].x + ox != at.0 || strokes[i].y + oy != at.1,
    ensures
        painted(cells, ox, oy, strokes)[at] == cells[at],
    decreases strokes.len(),
{
    if strokes.len() > 0 {
        let rest = strokes.drop_last();
        assert forall|i: int| #![trigger rest[i]] 0 <= i < rest.len() implies rest[i].x + ox != at.0
            || rest[i].y + oy != at.1 by {
            assert(rest[i] == strokes[i]);
        }
        painting_spares_other_cells(cells, ox, oy, rest, at);
        let s = strokes.last();
        assert(strokes[strokes.len() - 1] == s);
    }
}

} // verus!
