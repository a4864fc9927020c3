//! The instruments above the world and the key line below it.

use crate::arith::{shares_are_parts, ENDLESS};
use crate::difficulty::Difficulty;
use crate::figures::{doubles_are_written_shortly, fixed, fixed_text};
use crate::frame::spared;
use crate::game::{Game, GameModel, State};
use crate::geometry::Area;
use crate::num::{fractions_keep_their_order, Num};
use crate::paint::{
    buffer_cells, countable, covers, frame_area, framed, lemma_rooms_add, lemma_short_line, lemma_slim_text, line_room,
    line_up_to, room_up_to, set_page, typeset, Align, Border, Cells,
};
use crate::rounding::{rounding_keeps_order, rounding_keeps_whole_numbers};
use crate::style::{bare, color, ink, marked, rgb, Rgb, Style, BOLD};
use crate::text::{decimal, lemma_decimal_length, number, pad_left, padded, repeat, repeated, Line, Page, Piece};
use ratatui::buffer::Buffer;
use vstd::prelude::*;
use vstd::string::{StrSliceExecFns, StringExecFns};

verus! {

/// The distance in km, with two decimals.
pub open spec fn km_text(g: GameModel) -> Seq<char> {
    fixed_text(g.dash.distance.spec_over(Num::spec_whole(1000)), 2)
}

/// The distance in km, with two decimals.
pub fn kilometres(g: &Game) -> (r: String)
    ensures
        r@ == km_text(g@),
{
    proof {
        crate::num::whole_numbers_are_exact(1000);
    }
    fixed(g.dash.distance.over(Num::whole(1000)), 2)
}

/// Whether a sign that blinks `hz` times a second is lit at the time `t`.
pub open spec fn lit(t: Num, hz: Num) -> bool {
    t.spec_times(hz).spec_fraction().key < Num::spec_ratio(62, 100).key
}

/// Whether a sign that blinks `hz` times a second is lit at the time `t`.
pub fn blink(t: Num, hz: Num) -> (r: bool)
    ensures
        r == lit(t, hz),
{
    t.times(hz).fraction().lt(Num::ratio(62, 100))
}

/// The colour of a speed, green, yellow or red, by its share of the top speed.
pub open spec fn speed_hue(share: Num) -> Rgb {
    if share.key < Num::spec_ratio(55, 100).key {
        color(90, 230, 120)
    } else if share.key < Num::spec_ratio(85, 100).key {
        color(255, 210, 80)
    } else {
        color(255, 90, 70)
    }
}

/// The colour of a speed by its share of the top speed.
pub fn speed_color(share: Num) -> (c: Rgb)
    ensures
        c == speed_hue(share),
{
    if share.lt(Num::ratio(55, 100)) {
        rgb(90, 230, 120)
    } else if share.lt(Num::ratio(85, 100)) {
        rgb(255, 210, 80)
    } else {
        rgb(255, 90, 70)
    }
}

/// A gauge of `n` notches, the first of them lit.
pub open spec fn notches(filled: int, n: int, on: Rgb) -> Seq<Piece> {
    seq![
        Piece { text: repeated('█', filled), style: Style { fg: Some(on), bg: None, marks: 0 } },
        Piece { text: repeated('░', n - filled), style: ink(58, 58, 68) },
    ]
}

/// How many of `n` notches are lit at this share.
pub open spec fn lit_notches(share: Num, n: int) -> int {
    share.spec_clamp(Num::spec_whole(0), Num::spec_whole(1)).spec_times(Num::spec_whole(n)).spec_round()
}

/// Never more notches are lit than there are, and none less than none.
pub proof fn gauges_stay_within(share: Num, n: i32)
    requires
        n >= 0,
    ensures
        0 <= lit_notches(share, n as int) <= n,
{
    fractions_keep_their_order(0, 1, 1, 1);
    fractions_keep_their_order(0, 1, n, 1);
    fractions_keep_their_order(n, 1, i32::MAX, 1);
    let part = share.spec_clamp(Num::spec_whole(0), Num::spec_whole(1));
    let whole = Num::spec_whole(n as int);
    assert(Num::spec_whole(0).key == 0);
    rounding_keeps_whole_numbers(i32::MAX);
    rounding_keeps_whole_numbers(n);
    rounding_keeps_whole_numbers(0);
    lemma_finite(n);
    shares_are_parts(part, whole);
    rounding_keeps_order(Num::spec_whole(0), part.spec_times(whole));
    rounding_keeps_order(part.spec_times(whole), whole);
}

/// Appends a gauge of `n` notches, lit by a share of something.
pub fn gauge(line: &mut Line, share: Num, n: u16, on: Rgb)
    ensures
        final(line)@ == old(line)@ + notches(lit_notches(share, n as int), n as int, on),
{
    proof {
        fractions_keep_their_order(0, 1, 1, 1);
        gauges_stay_within(share, n as i32);
    }
    let part: Num = share.clamp(Num::whole(0), Num::whole(1));
    let filled: usize = part.times(Num::whole(n as i32)).rounded(65_535) as usize;
    line.push_string(repeat('█', filled), Style::tint(on));
    line.push_string(repeat('░', n as usize - filled), Style::fg(58, 58, 68));
    assert(line@ =~= old(line)@ + notches(filled as int, n as int, on));
}

/// A score with six digits at least.
pub open spec fn six_digits(n: int) -> Seq<char> {
    padded(decimal(n as nat), '0', 6)
}

/// A score with six digits at least.
pub fn score_digits(n: u64) -> (r: String)
    ensures
        r@ == six_digits(n as int),
{
    pad_left(number(n).as_str(), '0', 6)
}

/// The score on the instruments, which have six digits.
pub open spec fn shown_score(g: GameModel) -> int {
    if g.points() < 999_999 {
        g.points() as int
    } else {
        999_999
    }
}

impl GameModel {
    /// The speed as a share of the top speed.
    pub open spec fn share(self) -> Num {
        self.dash.speed.spec_over(Num::spec_whole(self.dash.diff.top()))
    }
}

/// The line of the instruments.
pub open spec fn hud_line(g: GameModel) -> Seq<Piece> {
    let label = ink(118, 118, 134);
    seq![
        Piece { text: " SCORE "@, style: label },
        Piece { text: six_digits(shown_score(g)), style: marked(245, 245, 250, BOLD) },
        Piece { text: "   HI "@, style: label },
        Piece {
            text: six_digits(g.hi[g.dash.diff.place()] as int),
            style: marked(255, 205, 70, BOLD),
        },
        Piece { text: "   SPD "@, style: label },
    ] + notches(lit_notches(g.share(), 8), 8, speed_hue(g.share())) + seq![
        Piece {
            text: " "@ + padded(fixed_text(g.dash.speed, 0), ' ', 3) + " km/h"@,
            style: Style { fg: Some(speed_hue(g.share())), bg: None, marks: BOLD },
        },
        Piece { text: "   NITRO "@, style: label },
    ] + notches(lit_notches(g.dash.nitro, 6), 6, color(110, 225, 255)) + (if g.dash.nitro_on && lit(
        g.dash.time,
        Num::spec_whole(4),
    ) {
        seq![Piece { text: " »»"@, style: marked(140, 235, 255, BOLD) }]
    } else {
        Seq::empty()
    }) + (if g.dash.combo > 1 {
        seq![
            Piece {
                text: "   COMBO x"@ + decimal(g.dash.combo as nat),
                style: marked(255, 120, 220, BOLD),
            },
        ]
    } else {
        Seq::empty()
    }) + seq![
        Piece { text: "   DIST "@, style: label },
        Piece { text: km_text(g) + " km"@, style: ink(190, 190, 200) },
    ]
}

/// `n` without as many as are taken away, none at least.
pub open spec fn less(n: int, away: int) -> int {
    if n > away {
        n - away
    } else {
        0
    }
}

/// The cells of an area without those at its edges.
pub open spec fn inside(area: Area) -> Area {
    Area {
        x: (area.x + if area.width > 0 {
            1int
        } else {
            0
        }) as u16,
        y: (area.y + if area.height > 0 {
            1int
        } else {
            0
        }) as u16,
        width: less(area.width as int, 2) as u16,
        height: less(area.height as int, 2) as u16,
    }
}

/// The screen after the instruments were drawn.
pub open spec fn with_hud(cells: Cells, area: Area, g: GameModel) -> Cells {
    typeset(
        framed(cells, area, Border::Plain, color(64, 64, 76), color(12, 12, 16)),
        inside(area),
        seq![hud_line(g)],
        Align::Left,
        bare(),
    )
}

/// Two texts one after the other.
pub(crate) fn joined(a: &str, b: &str) -> (r: String)
    ensures
        r@ == a@ + b@,
{
    let mut r: String = String::new();
    r.append(a);
    r.append(b);
    assert(r@ =~= a@ + b@);
    r
}

/// Writes the line of the instruments.
fn write_hud(g: &Game) -> (line: Line)
    requires
        g@.wf(),
    ensures
        line@ == hud_line(g@),
{
    let label: Style = Style::fg(118, 118, 134);
    let points: u64 = g.dash.score.truncated();
    let shown: u64 = if points < 999_999 {
        points
    } else {
        999_999
    };
    let mut line: Line = Line::new();
    line.push(" SCORE ", label);
    line.push_string(score_digits(shown), Style::with(245, 245, 250, BOLD));
    line.push("   HI ", label);
    line.push_string(score_digits(g.hi[g.dash.diff.index()]), Style::with(255, 205, 70, BOLD));
    line.push("   SPD ", label);
    let share: Num = g.dash.speed.over(Num::whole(g.dash.diff.max_speed()));
    let hue: Rgb = speed_color(share);
    gauge(&mut line, share, 8, hue);
    let speed: String = joined(" ", pad_left(fixed(g.dash.speed, 0).as_str(), ' ', 3).as_str());
    line.push_string(
        joined(speed.as_str(), " km/h"),
        Style { fg: Some(hue), bg: None, marks: BOLD },
    );
    line.push("   NITRO ", label);
    gauge(&mut line, g.dash.nitro, 6, rgb(110, 225, 255));
    if g.dash.nitro_on && blink(g.dash.time, Num::whole(4)) {
        line.push(" »»", Style::with(140, 235, 255, BOLD));
    }
    if g.dash.combo > 1 {
        line.push_string(
            joined("   COMBO x", number(g.dash.combo as u64).as_str()),
            Style::with(255, 120, 220, BOLD),
        );
    }
    line.push("   DIST ", label);
    line.push_string(joined(kilometres(g).as_str(), " km"), Style::fg(190, 190, 200));
    assert(line@ =~= hud_line(g@));
    line
}

/// Draws the instruments in a frame.
pub fn draw_hud(buf: &mut Buffer, area: Area, g: &Game)
    requires
        area.fits(),
        covers(buffer_cells(*old(buf)), area),
        g@.wf(),
    ensures
        buffer_cells(*final(buf)) == with_hud(buffer_cells(*old(buf)), area, g@),
        spared(buffer_cells(*final(buf)), buffer_cells(*old(buf)), area),
        buffer_cells(*final(buf)).dom() == buffer_cells(*old(buf)).dom(),
{
    frame_area(buf, area, Border::Plain, rgb(64, 64, 76), rgb(12, 12, 16));
    let inner: Area = Area {
        x: if area.width > 0 {
            area.x + 1
        } else {
            area.x
        },
        y: if area.height > 0 {
            area.y + 1
        } else {
            area.y
        },
        width: if area.width > 2 {
            area.width - 2
        } else {
            0
        },
        height: if area.height > 2 {
            area.height - 2
        } else {
            0
        },
    };
    let page: Page = Page::of(write_hud(g));
    proof {
        lemma_hud_countable(g@);
    }
    assert(buffer_cells(*buf).dom() =~= buffer_cells(*old(buf)).dom());
    set_page(buf, inner, &page, Align::Left, Style::plain());
}

/// The keys that the key line names.
pub open spec fn key_help() -> Seq<char> {
    " ←→ steer · ↑ gas · ↓ brake · SPACE nitro · P pause · M snd · Q quit "@
}

/// The intensity that the key line names: the selected one in the menu, else that of the run.
pub open spec fn named(g: GameModel) -> Difficulty {
    if g.dash.state is Menu {
        g.dash.sel
    } else {
        g.dash.diff
    }
}

/// Whether the sound is on, in words.
pub open spec fn on_off(on: bool) -> Seq<char> {
    if on {
        "ON"@
    } else {
        "OFF"@
    }
}

/// The settings at the end of the key line.
pub open spec fn settings(g: GameModel) -> Seq<char> {
    " "@ + named(g).label() + " · SND "@ + on_off(g.dash.sound) + " · v1.0 "@
}

/// The key line, `width` columns wide where that is room enough.
pub open spec fn footer_line(g: GameModel, width: int) -> Seq<Piece> {
    seq![
        Piece { text: key_help(), style: ink(105, 105, 120) },
        Piece {
            text: repeated(' ', width - key_help().len() - settings(g).len()),
            style: bare(),
        },
        Piece { text: settings(g), style: ink(170, 150, 90) },
    ]
}

/// The screen after the key line was drawn.
pub open spec fn with_footer(cells: Cells, area: Area, g: GameModel) -> Cells {
    typeset(
        cells,
        area,
        seq![footer_line(g, area.width as int)],
        Align::Left,
        Style { fg: None, bg: Some(color(12, 12, 16)), marks: 0 },
    )
}

/// Whether the sound is on, in words.
pub fn sound_word(on: bool) -> (r: &'static str)
    ensures
        r@ == on_off(on),
{
    if on {
        "ON"
    } else {
        "OFF"
    }
}

/// Draws the key line.
pub fn draw_footer(buf: &mut Buffer, area: Area, g: &Game)
    requires
        area.fits(),
        covers(buffer_cells(*old(buf)), area),
    ensures
        buffer_cells(*final(buf)) == with_footer(buffer_cells(*old(buf)), area, g@),
        spared(buffer_cells(*final(buf)), buffer_cells(*old(buf)), area),
        buffer_cells(*final(buf)).dom() == buffer_cells(*old(buf)).dom(),
{
    let name: &'static str = if g.dash.state == State::Menu {
        g.dash.sel.name()
    } else {
        g.dash.diff.name()
    };
    let left: &'static str = " ←→ steer · ↑ gas · ↓ brake · SPACE nitro · P pause · M snd · Q quit ";
    let mut right: String = String::new();
    right.append(" ");
    right.append(name);
    right.append(" · SND ");
    right.append(sound_word(g.dash.sound));
    right.append(" · v1.0 ");
    assert(right@ =~= settings(g@));
    let mut line: Line = Line::new();
    line.push(left, Style::fg(105, 105, 120));
    let used: usize = left.unicode_len();
    let wanted: usize = right.as_str().unicode_len();
    let width: usize = area.width as usize;
    let pad: usize = if used <= width && wanted <= width - used {
        width - used - wanted
    } else {
        0
    };
    line.push_string(repeat(' ', pad), Style::plain());
    line.push_string(right, Style::fg(170, 150, 90));
    proof {
        let gap = width - used - wanted;
        assert(repeated(' ', pad as int) =~= repeated(' ', gap));
        assert(line@ =~= footer_line(g@, area.width as int));
    }
    let page: Page = Page::of(line);
    proof {
        lemma_footer_countable(g@, area.width as int);
    }
    set_page(buf, area, &page, Align::Left, Style::ground(rgb(12, 12, 16)));
}

/// A score takes no more than twenty digits.
pub(crate) proof fn lemma_score_digits(n: u64)
    ensures
        six_digits(n as int).len() <= 20,
        decimal(n as nat).len() <= 20,
{
    assert(vstd::arithmetic::power::pow(10, 20) == 100_000_000_000_000_000_000) by {
        reveal_with_fuel(vstd::arithmetic::power::pow, 21);
    }
    lemma_decimal_length(n as nat, 20, 100_000_000_000_000_000_000);
}

proof fn lemma_hud_countable(g: GameModel)
    ensures
        countable(seq![hud_line(g)]),
{
    reveal_strlit(" SCORE ");
    reveal_strlit("   HI ");
    reveal_strlit("   SPD ");
    reveal_strlit(" ");
    reveal_strlit(" km/h");
    reveal_strlit("   NITRO ");
    reveal_strlit(" »»");
    reveal_strlit("   COMBO x");
    reveal_strlit("   DIST ");
    reveal_strlit(" km");
    lemma_score_digits(shown_score(g) as u64);
    lemma_score_digits(g.hi[g.dash.diff.place()]);
    lemma_score_digits(g.dash.combo as u64);
    doubles_are_written_shortly(g.dash.speed, 0);
    doubles_are_written_shortly(g.dash.distance.spec_over(Num::spec_whole(1000)), 2);
    gauges_stay_within(g.share(), 8);
    gauges_stay_within(g.dash.nitro, 6);
    let line = hud_line(g);
    assert(line.len() <= 15);
    lemma_short_line(line, line.len() as int, 1200);
}

/// The key line takes a column for each of its characters.
proof fn lemma_footer_countable(g: GameModel, width: int)
    requires
        width <= u16::MAX,
    ensures
        countable(seq![footer_line(g, width)]),
{
    let line = footer_line(g, width);
    let help = key_help();
    let pad = line[1].text;
    let tail = settings(g);
    reveal_strlit(" ←→ steer · ↑ gas · ↓ brake · SPACE nitro · P pause · M snd · Q quit ");
    assert(room_up_to(help, help.len() as int) == help.len()) by {
        reveal_with_fuel(room_up_to, 80);
    }
    lemma_slim_text(pad, pad.len() as int);
    lemma_settings_room(g);
    reveal_with_fuel(line_up_to, 4);
    assert(line_room(line) == help.len() + pad.len() + tail.len());
}

/// The settings take a column for each of their characters.
proof fn lemma_settings_room(g: GameModel)
    ensures
        room_up_to(settings(g), settings(g).len() as int) == settings(g).len(),
        settings(g).len() <= 40,
{
    reveal_strlit(" ");
    reveal_strlit(" · SND ");
    reveal_strlit("ON");
    reveal_strlit("OFF");
    reveal_strlit(" · v1.0 ");
    reveal_strlit("CHILL");
    reveal_strlit("RUSH");
    reveal_strlit("MAYHEM");
    let a = " "@;
    let b = named(g).label();
    let c = " · SND "@;
    let d = on_off(g.dash.sound);
    let e = " · v1.0 "@;
    assert(room_up_to(a, a.len() as int) == a.len() && room_up_to(b, b.len() as int) == b.len() && room_up_to(
        c,
        c.len() as int,
    ) == c.len() && room_up_to(d, d.len() as int) == d.len() && room_up_to(e, e.len() as int) == e.len()) by {
        reveal_with_fuel(room_up_to, 10);
    }
    lemma_rooms_add(a, b, b.len() as int);
    lemma_rooms_add(a + b, c, c.len() as int);
    lemma_rooms_add(a + b + c, d, d.len() as int);
    lemma_rooms_add(a + b + c + d, e, e.len() as int);
}

/// The score on the instruments takes six digits, whatever it is.
pub proof fn the_score_takes_six_digits(g: GameModel)
    ensures
        six_digits(shown_score(g)).len() == 6,
{
    assert(vstd::arithmetic::power::pow(10, 6) == 1_000_000) by {
        reveal_with_fuel(vstd::arithmetic::power::pow, 7);
    }
    lemma_decimal_length(shown_score(g) as nat, 6, 1_000_000);
}

/// A gauge is as long as it has notches, however many are lit.
pub proof fn gauges_keep_their_length(filled: int, n: int, on: Rgb)
    requires
        0 <= filled <= n,
    ensures
        notches(filled, n, on)[0].text.len() + notches(filled, n, on)[1].text.len() == n,
{
}

/// The key line fills its row where the row has room for it.
pub proof fn the_key_line_fills_its_row(g: GameModel, width: int)
    requires
        width >= key_help().len() + settings(g).len(),
    ensures
        footer_line(g, width)[0].text.len() + footer_line(g, width)[1].text.len() + footer_line(
            g,
            width,
        )[2].text.len() == width,
{
}

/// Whole numbers are finite.
proof fn lemma_finite(n: i32)
    requires
        n >= 0,
    ensures
        Num::spec_whole(n as int).key < ENDLESS,
{
    crate::num::lemma_wholes_are_small(n as nat);
}

} // verus!
