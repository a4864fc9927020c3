//! The panels over the world: the menu, the end of a run, the pause, the countdown.

use crate::approach::count_at;
use crate::difficulty::{lemma_names_are_short, Difficulty};
use crate::figures::{doubles_are_written_shortly, fixed, fixed_text};
use crate::game::{Game, GameModel, QUIP_COUNT};
use crate::geometry::{centered, centered_rect, Area};
use crate::hud::{
    blink, joined, kilometres, km_text, lemma_score_digits, lit, on_off, score_digits, six_digits, sound_word,
};
use crate::letters::{big_text, block_letters_line_up, word_row};
use crate::num::Num;
use crate::paint::{
    buffer_cells, clear_area, cleared, covers, frame_area, countable, framed, lemma_short_line, lemma_then, line_room,
    painted,
    painting_keeps_the_grid, set_page, text_strokes, typeset, Align, Border, Cells, Painter, Stroke,
};
use crate::rounding::limited;
use crate::sprites::{big_strokes, draw_big, word_rows};
use crate::style::{bare, color, ink, marked, rgb, Rgb, Style, BOLD, ITALIC};
use crate::text::{decimal, number, Line, Page, Piece};
use ratatui::buffer::Buffer;
use vstd::prelude::*;
use vstd::string::{StrSliceExecFns, StringExecFns};

verus! {

/// A row of `n` squares, light and dark in turn.
pub open spec fn checkers(n: int) -> Seq<Piece> {
    Seq::new(
        n as nat,
        |i: int|
            Piece {
                text: "▚"@,
                style: if i % 2 == 0 {
                    ink(235, 235, 240)
                } else {
                    ink(70, 70, 78)
                },
            },
    )
}

/// Writes a row of `n` squares, light and dark in turn.
pub fn checker_line(n: usize) -> (line: Line)
    ensures
        line@ == checkers(n as int),
{
    let mut line: Line = Line::new();
    let mut i: usize = 0;
    while i < n
        invariant
            i <= n,
            line@ == checkers(i as int),
        decreases n - i,
    {
        let style: Style = if i % 2 == 0 {
            Style::fg(235, 235, 240)
        } else {
            Style::fg(70, 70, 78)
        };
        line.push("▚", style);
        i = i + 1;
        assert(line@ =~= checkers(i as int));
    }
    line
}

/// The panel of a page of at most `w` by `h` cells on a screen.
pub open spec fn panel_rect(w: int, h: int, screen: Area) -> Area {
    centered(w, h, screen)
}

/// The cells of a panel inside its frame.
pub open spec fn panel_inside(rect: Area) -> Area {
    centered(rect.width - 2, rect.height - 2, rect)
}

/// The screen with an empty panel on it.
pub open spec fn with_frame(cells: Cells, rect: Area, edge: Rgb) -> Cells {
    framed(cleared(cells, rect), rect, Border::Double, edge, color(10, 10, 14))
}

/// The screen with a panel that holds a page.
pub open spec fn with_panel(cells: Cells, rect: Area, edge: Rgb, page: Seq<Seq<Piece>>) -> Cells {
    typeset(with_frame(cells, rect, edge), panel_inside(rect), page, Align::Centre, bare())
}

/// Draws an empty panel.
fn draw_frame(buf: &mut Buffer, rect: Area, edge: Rgb)
    requires
        rect.fits(),
        rect.width >= 2,
        rect.height >= 2,
        covers(buffer_cells(*old(buf)), rect),
    ensures
        buffer_cells(*final(buf)) == with_frame(buffer_cells(*old(buf)), rect, edge),
        buffer_cells(*final(buf)).dom() == buffer_cells(*old(buf)).dom(),
{
    clear_area(buf, rect);
    assert(buffer_cells(*buf).dom() =~= buffer_cells(*old(buf)).dom());
    frame_area(buf, rect, Border::Double, edge, rgb(10, 10, 14));
    assert(buffer_cells(*buf).dom() =~= buffer_cells(*old(buf)).dom());
}

/// Draws a panel with a page in it. The rest of the screen stays as it was.
fn draw_panel(buf: &mut Buffer, rect: Area, edge: Rgb, page: &Page)
    requires
        rect.fits(),
        rect.width >= 2,
        countable(page@),
        rect.height >= 2,
        covers(buffer_cells(*old(buf)), rect),
    ensures
        buffer_cells(*final(buf)) == with_panel(buffer_cells(*old(buf)), rect, edge, page@),
        buffer_cells(*final(buf)).dom() == buffer_cells(*old(buf)).dom(),
        forall|x: u16, y: u16| #![trigger buffer_cells(*final(buf))[(x, y)]]
            !rect.holds(x as int, y as int) && buffer_cells(*old(buf)).contains_key((x, y))
                ==> buffer_cells(*final(buf))[(x, y)] == buffer_cells(*old(buf))[(x, y)],
{
    draw_frame(buf, rect, edge);
    let inner: Area = centered_rect(rect.width - 2, rect.height - 2, rect);
    set_page(buf, inner, page, Align::Centre, Style::plain());
}

/// The rat of the menu on its way.
pub open spec fn rat_frame(i: int) -> Seq<char> {
    if i % 4 == 0 {
        "<:3)~~~~"@
    } else if i % 4 == 1 {
        "<:3)~~~"@
    } else if i % 4 == 2 {
        "<:3)~~~~~~"@
    } else {
        "<:3) ~~~"@
    }
}

/// How often the rat of the menu has moved: seven times a second.
pub open spec fn rat_steps(g: GameModel) -> int {
    limited(g.dash.time.spec_times(Num::spec_whole(7)).spec_floor(), 0, u64::MAX as int)
}

/// The rat of the menu on its way.
fn rat_at(i: u64) -> (r: &'static str)
    ensures
        r@ == rat_frame(i as int),
{
    match i % 4 {
        0 => "<:3)~~~~",
        1 => "<:3)~~~",
        2 => "<:3)~~~~~~",
        _ => "<:3) ~~~",
    }
}

/// An intensity in the menu, marked if it is selected.
pub open spec fn choice(d: Difficulty, sel: Difficulty) -> Seq<Piece> {
    let name = "["@ + decimal((d.place() + 1) as nat) + "] "@ + d.label() + " "@;
    seq![
        if d == sel {
            Piece { text: "▶ "@ + name, style: marked(255, 214, 80, BOLD) }
        } else {
            Piece { text: "  "@ + name, style: ink(110, 110, 125) }
        },
        Piece { text: "  "@, style: bare() },
    ]
}

/// Appends an intensity of the menu, marked if it is selected.
fn push_choice(line: &mut Line, d: Difficulty, sel: Difficulty)
    ensures
        final(line)@ == old(line)@ + choice(d, sel),
{
    let mut text: String = String::new();
    text.append(
        if d == sel {
            "▶ "
        } else {
            "  "
        },
    );
    text.append("[");
    text.append(number(d.index() as u64 + 1).as_str());
    text.append("] ");
    text.append(d.name());
    text.append(" ");
    let style: Style = if d == sel {
        Style::with(255, 214, 80, BOLD)
    } else {
        Style::fg(110, 110, 125)
    };
    assert(text@ =~= choice(d, sel)[0].text);
    line.push_string(text, style);
    line.push("  ", Style::plain());
    assert(line@ =~= old(line)@ + choice(d, sel));
}

/// The keys that the menu names.
pub open spec fn menu_keys() -> Seq<Piece> {
    let key = marked(240, 240, 245, BOLD);
    let what = ink(110, 110, 125);
    seq![
        Piece { text: "←→"@, style: key },
        Piece { text: " steer   "@, style: what },
        Piece { text: "↑"@, style: key },
        Piece { text: " gas   "@, style: what },
        Piece { text: "↓"@, style: key },
        Piece { text: " brake   "@, style: what },
        Piece { text: "SPACE"@, style: key },
        Piece { text: " nitro   "@, style: what },
        Piece { text: "P"@, style: key },
        Piece { text: " pause"@, style: what },
    ]
}

fn write_menu_keys() -> (line: Line)
    ensures
        line@ == menu_keys(),
{
    let key: Style = Style::with(240, 240, 245, BOLD);
    let what: Style = Style::fg(110, 110, 125);
    let mut line: Line = Line::new();
    line.push("←→", key);
    line.push(" steer   ", what);
    line.push("↑", key);
    line.push(" gas   ", what);
    line.push("↓", key);
    line.push(" brake   ", what);
    line.push("SPACE", key);
    line.push(" nitro   ", what);
    line.push("P", key);
    line.push(" pause", what);
    line
}

/// The best scores that the menu names.
pub open spec fn menu_scores(hi: Seq<u64>) -> Seq<char> {
    "best · chill "@ + six_digits(hi[0] as int) + " · rush "@ + six_digits(hi[1] as int)
        + " · mayhem "@ + six_digits(hi[2] as int)
}

fn write_menu_scores(hi: &[u64; 3]) -> (r: String)
    ensures
        r@ == menu_scores(hi@),
{
    let mut r: String = String::new();
    r.append("best · chill ");
    r.append(score_digits(hi[0]).as_str());
    r.append(" · rush ");
    r.append(score_digits(hi[1]).as_str());
    r.append(" · mayhem ");
    r.append(score_digits(hi[2]).as_str());
    assert(r@ =~= menu_scores(hi@));
    r
}

/// A row of a title in block letters, as a line.
pub open spec fn title_row(word: Seq<char>, row: int, style: Style) -> Seq<Piece> {
    seq![Piece { text: word_row(word, row), style }]
}

/// A title in block letters between two rows of squares, and a blank line.
pub open spec fn title(word: Seq<char>, style: Style, width: int) -> Seq<Seq<Piece>> {
    seq![
        checkers(width),
        title_row(word, 0, style),
        title_row(word, 1, style),
        title_row(word, 2, style),
        checkers(width),
        Seq::empty(),
    ]
}

/// Begins a page with a title in block letters.
fn write_title(word: &str, style: Style, width: usize) -> (page: Page)
    ensures
        page@ == title(word@, style, width as int),
{
    let rows: [String; 3] = big_text(word);
    let mut page: Page = Page::new();
    page.push(checker_line(width));
    page.push(Line::of(rows[0].as_str(), style));
    page.push(Line::of(rows[1].as_str(), style));
    page.push(Line::of(rows[2].as_str(), style));
    page.push(checker_line(width));
    page.push(Line::new());
    page
}

/// The page of the menu.
pub open spec fn menu_page(g: GameModel, width: int) -> Seq<Seq<Piece>> {
    let grey = ink(110, 110, 125);
    title("RAT RACER"@, marked(255, 204, 60, BOLD), width) + seq![
        seq![
            Piece {
                text: "rémy the rat has a lead foot. keep up."@,
                style: marked(150, 150, 165, ITALIC),
            },
        ],
        seq![
            Piece { text: rat_frame(rat_steps(g)), style: marked(240, 240, 245, BOLD) },
            Piece { text: "   « the driver »"@, style: grey },
        ],
        Seq::empty(),
        seq![Piece { text: "— INTENSITY —"@, style: grey }],
        choice(Difficulty::Chill, g.dash.sel) + choice(Difficulty::Rush, g.dash.sel) + choice(
            Difficulty::Mayhem,
            g.dash.sel,
        ),
        seq![Piece { text: g.dash.sel.tagline(), style: ink(110, 200, 220) }],
        Seq::empty(),
        menu_keys(),
        Seq::empty(),
        seq![
            Piece {
                text: "▶ PRESS ENTER TO IGNITE ◀"@,
                style: if lit(g.dash.time, Num::spec_ratio(14, 10)) {
                    marked(130, 255, 150, BOLD)
                } else {
                    ink(60, 110, 70)
                },
            },
        ],
        Seq::empty(),
        seq![Piece { text: menu_scores(g.hi), style: ink(160, 140, 80) }],
        seq![
            Piece {
                text: "M sound: "@ + on_off(g.dash.sound) + "      Q quit"@,
                style: ink(90, 90, 105),
            },
        ],
    ]
}

/// Writes the page of the menu.
fn write_menu(g: &Game, width: usize) -> (page: Page)
    ensures
        page@ == menu_page(g@, width as int),
{
    let grey: Style = Style::fg(110, 110, 125);
    let sel: Difficulty = g.dash.sel;
    let mut page: Page = write_title("RAT RACER", Style::with(255, 204, 60, BOLD), width);
    page.push(
        Line::of("rémy the rat has a lead foot. keep up.", Style::with(150, 150, 165, ITALIC)),
    );
    let mut driver: Line = Line::of(rat_at(g.dash.time.times(Num::whole(7)).truncated()), Style::with(240, 240, 245, BOLD));
    driver.push("   « the driver »", grey);
    page.push(driver);
    page.push(Line::new());
    page.push(Line::of("— INTENSITY —", grey));
    let mut choices: Line = Line::new();
    push_choice(&mut choices, Difficulty::Chill, sel);
    push_choice(&mut choices, Difficulty::Rush, sel);
    push_choice(&mut choices, Difficulty::Mayhem, sel);
    proof {
        assert(choices@ =~= choice(Difficulty::Chill, sel) + choice(Difficulty::Rush, sel) + choice(
            Difficulty::Mayhem,
            sel,
        ));
    }
    page.push(choices);
    page.push(Line::of(sel.blurb(), Style::fg(110, 200, 220)));
    page.push(Line::new());
    page.push(write_menu_keys());
    page.push(Line::new());
    let prompt: Style = if blink(g.dash.time, Num::ratio(14, 10)) {
        Style::with(130, 255, 150, BOLD)
    } else {
        Style::fg(60, 110, 70)
    };
    page.push(Line::of("▶ PRESS ENTER TO IGNITE ◀", prompt));
    page.push(Line::new());
    page.push(Line::of(write_menu_scores(&g.hi).as_str(), Style::fg(160, 140, 80)));
    let sound: String = joined("M sound: ", sound_word(g.dash.sound));
    page.push(Line::of(joined(sound.as_str(), "      Q quit").as_str(), Style::fg(90, 90, 105)));
    assert(page@ =~~= menu_page(g@, width as int));
    page
}

proof fn lemma_title_countable(word: Seq<char>, style: Style, width: int)
    requires
        word.len() <= 100,
        0 <= width <= 1000,
    ensures
        countable(title(word, style, width)),
{
    let page = title(word, style, width);
    reveal_strlit("▚");
    block_letters_line_up(word);
    assert forall|i: int| #![trigger page[i]] 0 <= i < page.len() implies line_room(page[i]) <= u16::MAX by {
        if i == 0 || i == 4 {
            assert(page[i] == checkers(width));
            lemma_short_line(page[i], page[i].len() as int, 1);
        } else {
            assert(page[i].len() <= 1);
            lemma_short_line(page[i], page[i].len() as int, 600);
        }
    }
}

proof fn lemma_choice_is_short(d: Difficulty, sel: Difficulty)
    ensures
        choice(d, sel)[0].text.len() <= 100,
        choice(d, sel)[1].text.len() <= 100,
{
    reveal_strlit("[");
    reveal_strlit("] ");
    reveal_strlit(" ");
    reveal_strlit("▶ ");
    reveal_strlit("  ");
    lemma_names_are_short(d);
    lemma_score_digits((d.place() + 1) as u64);
}

proof fn lemma_menu_keys_are_short()
    ensures
        forall|k: int| #![trigger menu_keys()[k]] 0 <= k < menu_keys().len() ==> menu_keys()[k].text.len() <= 100,
{
    reveal_strlit("←→");
    reveal_strlit(" steer   ");
    reveal_strlit("↑");
    reveal_strlit(" gas   ");
    reveal_strlit("↓");
    reveal_strlit(" brake   ");
    reveal_strlit("SPACE");
    reveal_strlit(" nitro   ");
    reveal_strlit("P");
    reveal_strlit(" pause");
}

proof fn lemma_menu_countable(g: GameModel, width: int)
    requires
        g.hi.len() == 3,
        0 <= width <= 1000,
    ensures
        countable(menu_page(g, width)),
{
    let page = menu_page(g, width);
    let head = title("RAT RACER"@, marked(255, 204, 60, BOLD), width);
    reveal_strlit("RAT RACER");
    lemma_title_countable("RAT RACER"@, marked(255, 204, 60, BOLD), width);
    reveal_strlit("rémy the rat has a lead foot. keep up.");
    reveal_strlit("<:3)~~~~");
    reveal_strlit("<:3)~~~");
    reveal_strlit("<:3)~~~~~~");
    reveal_strlit("<:3) ~~~");
    reveal_strlit("   « the driver »");
    reveal_strlit("— INTENSITY —");
    reveal_strlit("▶ PRESS ENTER TO IGNITE ◀");
    reveal_strlit("best · chill ");
    reveal_strlit(" · rush ");
    reveal_strlit(" · mayhem ");
    reveal_strlit("M sound: ");
    reveal_strlit("ON");
    reveal_strlit("OFF");
    reveal_strlit("      Q quit");
    lemma_names_are_short(g.dash.sel);
    lemma_score_digits(g.hi[0]);
    lemma_score_digits(g.hi[1]);
    lemma_score_digits(g.hi[2]);
    lemma_choice_is_short(Difficulty::Chill, g.dash.sel);
    lemma_choice_is_short(Difficulty::Rush, g.dash.sel);
    lemma_choice_is_short(Difficulty::Mayhem, g.dash.sel);
    lemma_menu_keys_are_short();
    assert forall|i: int| #![trigger page[i]] 0 <= i < page.len() implies line_room(page[i]) <= u16::MAX by {
        if i < 6 {
            assert(page[i] == head[i]);
        } else {
            if i == 13 {
                assert(page[i] == menu_keys());
            }
            assert(page[i].len() <= 10);
            lemma_short_line(page[i], page[i].len() as int, 200);
        }
    }
}

/// The columns of the squares on a panel.
pub open spec fn squares(rect: Area) -> int {
    if rect.width < 4 {
        0
    } else {
        rect.width - 4
    }
}

/// The columns of the squares on a panel.
fn square_count(rect: Area) -> (n: usize)
    ensures
        n == squares(rect),
{
    if rect.width < 4 {
        0
    } else {
        (rect.width - 4) as usize
    }
}

/// The screen with the menu on it.
pub open spec fn with_menu(cells: Cells, area: Area, g: GameModel) -> Cells {
    let rect = panel_rect(62, 22, area);
    with_panel(cells, rect, color(170, 130, 40), menu_page(g, squares(rect)))
}

/// Draws the menu.
pub fn menu_overlay(buf: &mut Buffer, area: Area, g: &Game)
    requires
        area.fits(),
        area.width >= 2,
        area.height >= 2,
        covers(buffer_cells(*old(buf)), area),
    ensures
        buffer_cells(*final(buf)) == with_menu(buffer_cells(*old(buf)), area, g@),
        buffer_cells(*final(buf)).dom() == buffer_cells(*old(buf)).dom(),
        forall|x: u16, y: u16| #![trigger buffer_cells(*final(buf))[(x, y)]]
            !panel_rect(62, 22, area).holds(x as int, y as int) && buffer_cells(*old(buf)).contains_key((x, y))
                ==> buffer_cells(*final(buf))[(x, y)] == buffer_cells(*old(buf))[(x, y)],
{
    let rect: Area = centered_rect(62, 22, area);
    let page: Page = write_menu(g, square_count(rect));
    proof {
        lemma_menu_countable(g@, squares(rect));
    }
    draw_panel(buf, rect, rgb(170, 130, 40), &page);
}

/// The remark on a crash of that number.
pub open spec fn remark(i: int) -> Seq<char> {
    if i == 0 {
        "the rat walked away. the car didn't."@
    } else if i == 1 {
        "insurance rates: now astronomical."@
    } else if i == 2 {
        "rémy demands a recount."@
    } else {
        "that other car came out of nowhere. probably."@
    }
}

/// The remark on a crash of that number.
pub fn quip(i: usize) -> (r: &'static str)
    requires
        i < QUIP_COUNT,
    ensures
        r@ == remark(i as int),
{
    match i {
        0 => "the rat walked away. the car didn't.",
        1 => "insurance rates: now astronomical.",
        2 => "rémy demands a recount.",
        _ => "that other car came out of nowhere. probably.",
    }
}

/// A line of the summary of a run.
pub open spec fn entry(label: Seq<char>, value: Seq<char>) -> Seq<Piece> {
    seq![
        Piece { text: label, style: ink(118, 118, 134) },
        Piece { text: value, style: marked(245, 245, 250, BOLD) },
    ]
}

fn write_entry(label: &str, value: &str) -> (line: Line)
    ensures
        line@ == entry(label@, value@),
{
    let mut line: Line = Line::of(label, Style::fg(118, 118, 134));
    line.push(value, Style::with(245, 245, 250, BOLD));
    line
}

/// The page at the end of a run.
pub open spec fn gameover_page(g: GameModel, width: int) -> Seq<Seq<Piece>> {
    title("WRECKED!"@, marked(255, 80, 65, BOLD), width) + seq![
        seq![Piece { text: remark(g.dash.quip as int), style: marked(150, 150, 165, ITALIC) }],
        Seq::empty(),
        if g.dash.new_best && lit(g.dash.time, Num::spec_whole(3)) {
            entry("SCORE      "@, six_digits(g.points() as int)).push(
                Piece { text: "  ★ NEW BEST!"@, style: marked(255, 214, 80, BOLD) },
            )
        } else {
            entry("SCORE      "@, six_digits(g.points() as int))
        },
        entry("DISTANCE   "@, km_text(g) + " km"@),
        entry("TOP SPEED  "@, fixed_text(g.dash.top_speed, 0) + " km/h"@),
        entry("NEAR MISS  "@, decimal(g.dash.near_misses as nat)),
        entry("BEST COMBO "@, "x"@ + decimal(g.dash.best_combo as nat)),
        Seq::empty(),
        seq![Piece { text: "ENTER retry · ESC menu"@, style: ink(110, 110, 125) }],
    ]
}

/// Writes the page at the end of a run.
fn write_gameover(g: &Game, width: usize) -> (page: Page)
    requires
        g@.wf(),
    ensures
        page@ == gameover_page(g@, width as int),
{
    let mut page: Page = write_title("WRECKED!", Style::with(255, 80, 65, BOLD), width);
    page.push(Line::of(quip(g.dash.quip), Style::with(150, 150, 165, ITALIC)));
    page.push(Line::new());
    let mut score: Line = write_entry("SCORE      ", score_digits(g.dash.score.truncated()).as_str());
    if g.dash.new_best && blink(g.dash.time, Num::whole(3)) {
        score.push("  ★ NEW BEST!", Style::with(255, 214, 80, BOLD));
    }
    page.push(score);
    page.push(write_entry("DISTANCE   ", joined(kilometres(g).as_str(), " km").as_str()));
    page.push(write_entry("TOP SPEED  ", joined(fixed(g.dash.top_speed, 0).as_str(), " km/h").as_str()));
    page.push(write_entry("NEAR MISS  ", number(g.dash.near_misses as u64).as_str()));
    page.push(
        write_entry("BEST COMBO ", joined("x", number(g.dash.best_combo as u64).as_str()).as_str()),
    );
    page.push(Line::new());
    page.push(Line::of("ENTER retry · ESC menu", Style::fg(110, 110, 125)));
    assert(page@ =~= gameover_page(g@, width as int));
    page
}

proof fn lemma_gameover_countable(g: GameModel, width: int)
    requires
        0 <= width <= 1000,
    ensures
        countable(gameover_page(g, width)),
{
    let page = gameover_page(g, width);
    let head = title("WRECKED!"@, marked(255, 80, 65, BOLD), width);
    reveal_strlit("WRECKED!");
    lemma_title_countable("WRECKED!"@, marked(255, 80, 65, BOLD), width);
    reveal_strlit("the rat walked away. the car didn't.");
    reveal_strlit("insurance rates: now astronomical.");
    reveal_strlit("rémy demands a recount.");
    reveal_strlit("that other car came out of nowhere. probably.");
    reveal_strlit("SCORE      ");
    reveal_strlit("  ★ NEW BEST!");
    reveal_strlit("DISTANCE   ");
    reveal_strlit(" km");
    reveal_strlit("TOP SPEED  ");
    reveal_strlit(" km/h");
    reveal_strlit("NEAR MISS  ");
    reveal_strlit("BEST COMBO ");
    reveal_strlit("x");
    reveal_strlit("ENTER retry · ESC menu");
    lemma_score_digits(g.points());
    lemma_score_digits(g.dash.near_misses as u64);
    lemma_score_digits(g.dash.best_combo as u64);
    doubles_are_written_shortly(g.dash.top_speed, 0);
    doubles_are_written_shortly(g.dash.distance.spec_over(Num::spec_whole(1000)), 2);
    assert forall|i: int| #![trigger page[i]] 0 <= i < page.len() implies line_room(page[i]) <= u16::MAX by {
        if i < 6 {
            assert(page[i] == head[i]);
        } else {
            assert(page[i].len() <= 3);
            lemma_short_line(page[i], page[i].len() as int, 1200);
        }
    }
}

/// The screen with the end of a run on it.
pub open spec fn with_gameover(cells: Cells, area: Area, g: GameModel) -> Cells {
    let rect = panel_rect(54, 19, area);
    with_panel(cells, rect, color(160, 60, 50), gameover_page(g, squares(rect)))
}

/// Draws the end of a run.
pub fn gameover_overlay(buf: &mut Buffer, area: Area, g: &Game)
    requires
        area.fits(),
        area.width >= 2,
        area.height >= 2,
        covers(buffer_cells(*old(buf)), area),
        g@.wf(),
    ensures
        buffer_cells(*final(buf)) == with_gameover(buffer_cells(*old(buf)), area, g@),
        buffer_cells(*final(buf)).dom() == buffer_cells(*old(buf)).dom(),
        forall|x: u16, y: u16| #![trigger buffer_cells(*final(buf))[(x, y)]]
            !panel_rect(54, 19, area).holds(x as int, y as int) && buffer_cells(*old(buf)).contains_key((x, y))
                ==> buffer_cells(*final(buf))[(x, y)] == buffer_cells(*old(buf))[(x, y)],
{
    let rect: Area = centered_rect(54, 19, area);
    let page: Page = write_gameover(g, square_count(rect));
    proof {
        lemma_gameover_countable(g@, squares(rect));
    }
    draw_panel(buf, rect, rgb(160, 60, 50), &page);
}

/// The strokes inside the panel of the pause.
pub open spec fn pause_strokes(inner: Area) -> Seq<Stroke> {
    let middle = inner.width as int / 2;
    big_strokes(
        middle,
        1,
        word_rows("PAUSED"@),
        marked(255, 214, 80, BOLD),
        Some(ink(40, 35, 10)),
    ) + text_strokes(middle - 8, 5, "P resume · Q quit"@, ink(110, 110, 125))
}

/// The screen with the panel of the pause on it.
pub open spec fn with_pause(cells: Cells, area: Area) -> Cells {
    let rect = panel_rect(42, 9, area);
    let inner = panel_inside(rect);
    painted(
        with_frame(cells, rect, color(120, 120, 140)),
        inner.x as int,
        inner.y as int,
        pause_strokes(inner),
    )
}

/// Draws the panel of the pause.
pub fn pause_overlay(buf: &mut Buffer, area: Area)
    requires
        area.fits(),
        area.width >= 2,
        area.height >= 2,
        covers(buffer_cells(*old(buf)), area),
    ensures
        buffer_cells(*final(buf)) == with_pause(buffer_cells(*old(buf)), area),
        buffer_cells(*final(buf)).dom() == buffer_cells(*old(buf)).dom(),
{
    let rect: Area = centered_rect(42, 9, area);
    draw_frame(buf, rect, rgb(120, 120, 140));
    let inner: Area = centered_rect(rect.width - 2, rect.height - 2, rect);
    let ghost plain = buffer_cells(*buf);
    let mut p: Painter = Painter::new(buf, (inner.x as i32, inner.y as i32));
    let ghost first = p;
    let rows: [String; 3] = big_text("PAUSED");
    let middle: i32 = inner.width as i32 / 2;
    proof {
        reveal_strlit("PAUSED");
        reveal_strlit("P resume · Q quit");
        block_letters_line_up("PAUSED"@);
        painting_keeps_the_grid(plain, inner.x as int, inner.y as int, pause_strokes(inner));
    }
    draw_big(
        &mut p,
        middle,
        1,
        &rows,
        Style::with(255, 214, 80, BOLD),
        Some(Style::fg(40, 35, 10)),
    );
    let ghost mid = p;
    p.put_str(middle - 8, 5, "P resume · Q quit", Style::fg(110, 110, 125));
    proof {
        lemma_then(
            p,
            mid,
            first,
            big_strokes(
                middle as int,
                1,
                word_rows("PAUSED"@),
                marked(255, 214, 80, BOLD),
                Some(ink(40, 35, 10)),
            ),
            text_strokes(middle - 8, 5, "P resume · Q quit"@, ink(110, 110, 125)),
        );
    }
}

/// The number that the countdown shows: one, two or three.
pub open spec fn shown_count(g: GameModel) -> int {
    limited(count_at(g.dash.countdown) as int, 1, 3)
}

/// The strokes of the countdown.
pub open spec fn countdown_strokes(g: GameModel, world: Area) -> Seq<Stroke> {
    let middle = world.width as int / 2;
    let hint = "get ready — steer with ← →"@;
    big_strokes(
        middle,
        world.height as int / 2 - 4,
        word_rows(decimal(shown_count(g) as nat)),
        marked(255, 214, 80, BOLD),
        Some(ink(70, 30, 10)),
    ) + text_strokes(
        middle - hint.len() as int / 2,
        world.height as int / 2 + 1,
        hint,
        ink(120, 120, 135),
    )
}

/// The screen with the countdown over the world.
pub open spec fn with_countdown(cells: Cells, g: GameModel, world: Area) -> Cells {
    painted(cells, world.x as int, world.y as int, countdown_strokes(g, world))
}

/// The number that the countdown shows.
fn count_shown(left: Num) -> (n: u64)
    ensures
        n == limited(count_at(left) as int, 1, 3),
{
    let up: i64 = left.ceiled();
    if up < 1 {
        1
    } else if up > 3 {
        3
    } else {
        up as u64
    }
}

/// Draws the countdown.
pub fn countdown_overlay(buf: &mut Buffer, g: &Game, world: Area)
    ensures
        buffer_cells(*final(buf)) == with_countdown(buffer_cells(*old(buf)), g@, world),
        buffer_cells(*final(buf)).dom() == buffer_cells(*old(buf)).dom(),
{
    let ghost before = buffer_cells(*buf);
    let hint: &'static str = "get ready — steer with ← →";
    let n: u64 = count_shown(g.dash.countdown);
    let digit: String = number(n);
    let rows: [String; 3] = big_text(digit.as_str());
    let middle: i32 = world.width as i32 / 2;
    let half: i32 = world.height as i32 / 2;
    let mut p: Painter = Painter::new(buf, (world.x as i32, world.y as i32));
    let ghost first = p;
    proof {
        reveal_strlit("get ready — steer with ← →");
        block_letters_line_up(digit@);
        painting_keeps_the_grid(before, world.x as int, world.y as int, countdown_strokes(g@, world));
    }
    draw_big(
        &mut p,
        middle,
        half - 4,
        &rows,
        Style::with(255, 214, 80, BOLD),
        Some(Style::fg(70, 30, 10)),
    );
    let ghost mid = p;
    let lead: i32 = hint.unicode_len() as i32 / 2;
    p.put_str(middle - lead, half + 1, hint, Style::fg(120, 120, 135));
    proof {
        lemma_then(
            p,
            mid,
            first,
            big_strokes(
                middle as int,
                half - 4,
                word_rows(decimal(n as nat)),
                marked(255, 214, 80, BOLD),
                Some(ink(70, 30, 10)),
            ),
            text_strokes(middle - lead, half + 1, hint@, ink(120, 120, 135)),
        );
    }
}

/// The strokes of the start signal, dim towards its end.
pub open spec fn go_strokes(g: GameModel, world: Area) -> Seq<Stroke> {
    big_strokes(
        world.width as int / 2,
        world.height as int / 2 - 3,
        word_rows("GO!"@),
        marked(
            130,
            255,
            150,
            if g.dash.run_t.key > Num::spec_ratio(5, 10).key {
                3
            } else {
                BOLD
            },
        ),
        Some(ink(15, 50, 25)),
    )
}

/// The screen with the start signal over the world.
pub open spec fn with_go(cells: Cells, g: GameModel, world: Area) -> Cells {
    painted(cells, world.x as int, world.y as int, go_strokes(g, world))
}

/// Draws the start signal.
pub fn go_overlay(buf: &mut Buffer, g: &Game, world: Area)
    ensures
        buffer_cells(*final(buf)) == with_go(buffer_cells(*old(buf)), g@, world),
        buffer_cells(*final(buf)).dom() == buffer_cells(*old(buf)).dom(),
{
    let ghost before = buffer_cells(*buf);
    let mut p: Painter = Painter::new(buf, (world.x as i32, world.y as i32));
    let marks: u16 = if Num::ratio(5, 10).lt(g.dash.run_t) {
        3
    } else {
        BOLD
    };
    let rows: [String; 3] = big_text("GO!");
    proof {
        reveal_strlit("GO!");
        block_letters_line_up("GO!"@);
        painting_keeps_the_grid(before, world.x as int, world.y as int, go_strokes(g@, world));
    }
    draw_big(
        &mut p,
        world.width as i32 / 2,
        world.height as i32 / 2 - 3,
        &rows,
        Style::with(130, 255, 150, marks),
        Some(Style::fg(15, 50, 25)),
    );
}

} // verus!
