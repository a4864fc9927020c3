//! What a frame shows of the world: who is seen where, and over whom.

use crate::entities::{Caption, Car, Particle, Pickup, Scenery, SceneryKind};
use crate::game::GameModel;
use crate::geometry::{player_row, road, Area};
use crate::measure::{fractions_are_near, lemma_near_sum, lemma_one_is_many, size};
use crate::num::{whole_numbers_are_exact, Num};
use crate::paint::{lemma_painted_add, painted, painting_keeps_the_grid, text_strokes, Cell, Cells, Stroke};
use crate::rounding::{one, rounding_goes_to_the_nearest};
use crate::sprites::{car_row, car_strokes, car_style, Livery, SEDAN, TRUCK};
use crate::style::{color, ink, Rgb, Style, BOLD};
use crate::terrain::ground_rows;
use crate::verge::{slogan, slogan_bytes};
use crate::world::{
    all_floats, all_particles, all_pickups, all_scenery, all_traffic, beat_of, board_edges, board_strokes, board_text,
    caption_style, cell, particle_stroke, pickup_strokes, player_livery, player_strokes, rows_past, rush_of,
    scenery_strokes, spot, start_of, traffic_car, traffic_livery, world_strokes,
};
use vstd::arithmetic::power2::lemma_pow2_pos;
use vstd::prelude::*;
use vstd::utf8::encode_utf8;

verus! {

/// What is seen of a thing in a cell: a character in a style, or nothing.
pub type Look = Option<(char, Style)>;

/// Whether a cell shows a character in a style.
pub open spec fn shows(c: Cell, ch: char, style: Style) -> bool {
    &&& c.symbol == seq![ch]
    &&& style.fg is Some ==> c.fg == style.fg
    &&& style.bg is Some ==> c.bg == style.bg
    &&& c.marks & (style.marks & 0x1ff) == style.marks & 0x1ff
}

/// Whether strokes show a look at a cell, or leave it as it was where there is none.
pub open spec fn looks(cells: Cells, ox: int, oy: int, strokes: Seq<Stroke>, at: (u16, u16), look: Look) -> bool {
    let now = painted(cells, ox, oy, strokes)[at];
    match look {
        Some((ch, style)) => shows(now, ch, style),
        None => now == cells[at],
    }
}

/// The upper of two looks, where there is one.
pub open spec fn over(upper: Look, lower: Look) -> Look {
    if upper is Some {
        upper
    } else {
        lower
    }
}

/// What is painted later lies over what was painted first.
pub(crate) proof fn lemma_over(
    cells: Cells,
    ox: int,
    oy: int,
    a: Seq<Stroke>,
    b: Seq<Stroke>,
    at: (u16, u16),
    first: Look,
    then: Look,
)
    requires
        looks(cells, ox, oy, a, at, first),
        looks(painted(cells, ox, oy, a), ox, oy, b, at, then),
    ensures
        looks(cells, ox, oy, a + b, at, over(then, first)),
{
    lemma_painted_add(cells, ox, oy, a, b);
}

/// The look of one stroke.
pub open spec fn stroke_look(s: Stroke, x: int, y: int) -> Look {
    if s.x == x && s.y == y {
        Some((s.ch, s.style))
    } else {
        None
    }
}

proof fn lemma_stroke(cells: Cells, ox: int, oy: int, s: Stroke, at: (u16, u16))
    requires
        cells.contains_key(at),
    ensures
        looks(cells, ox, oy, seq![s], at, stroke_look(s, at.0 - ox, at.1 - oy)),
{
    assert(seq![s].drop_last() =~= Seq::<Stroke>::empty());
    assert(painted(cells, ox, oy, seq![s].drop_last()) == cells);
    let was = cells[at].marks;
    let more = s.style.marks & 0x1ff;
    assert((was | more) & more == more) by (bit_vector);
}

pub(crate) proof fn lemma_push(cells: Cells, ox: int, oy: int, a: Seq<Stroke>, s: Stroke, at: (u16, u16), first: Look)
    requires
        cells.contains_key(at),
        looks(cells, ox, oy, a, at, first),
    ensures
        looks(cells, ox, oy, a.push(s), at, over(stroke_look(s, at.0 - ox, at.1 - oy), first)),
{
    painting_keeps_the_grid(cells, ox, oy, a);
    lemma_stroke(painted(cells, ox, oy, a), ox, oy, s, at);
    lemma_over(cells, ox, oy, a, seq![s], at, first, stroke_look(s, at.0 - ox, at.1 - oy));
    assert(a + seq![s] =~= a.push(s));
}

/// The character at a place of a text.
pub open spec fn char_at(text: Seq<char>, i: int) -> char {
    text[i]
}

/// The look of the first `n` characters of a text that starts in column `left` of row `top`.
pub open spec fn text_look(left: int, top: int, text: Seq<char>, style: Style, x: int, y: int, n: int) -> Look {
    if y == top && left <= x < left + n && char_at(text, x - left) != ' ' {
        Some((char_at(text, x - left), style))
    } else {
        None
    }
}

proof fn lemma_text_grows(left: int, top: int, text: Seq<char>, style: Style)
    requires
        text.len() > 0,
        char_at(text, text.len() - 1) != ' ',
    ensures
        text_strokes(left, top, text, style) == text_strokes(left, top, text.drop_last(), style).push(
            Stroke { x: left + text.len() - 1, y: top, ch: text.last(), style },
        ),
{
}

proof fn lemma_text(cells: Cells, ox: int, oy: int, left: int, top: int, text: Seq<char>, style: Style, at: (u16, u16))
    requires
        cells.contains_key(at),
    ensures
        looks(
            cells,
            ox,
            oy,
            text_strokes(left, top, text, style),
            at,
            text_look(left, top, text, style, at.0 - ox, at.1 - oy, text.len() as int),
        ),
    decreases text.len(),
{
    if text.len() > 0 {
        let rest = text.drop_last();
        lemma_text(cells, ox, oy, left, top, rest, style, at);
        let before = text_strokes(left, top, rest, style);
        let x = at.0 - ox;
        let y = at.1 - oy;
        let first = text_look(left, top, rest, style, x, y, rest.len() as int);
        let now = text_look(left, top, text, style, x, y, text.len() as int);
        if left <= x < left + rest.len() {
            assert(char_at(rest, x - left) == char_at(text, x - left));
            assert(now == first);
        } else if x == left + rest.len() {
            assert(char_at(text, x - left) == char_at(text, text.len() - 1));
        }
        if char_at(text, text.len() - 1) != ' ' {
            lemma_push(
                cells,
                ox,
                oy,
                before,
                Stroke { x: left + text.len() - 1, y: top, ch: text.last(), style },
                at,
                first,
            );
            let s = Stroke { x: left + text.len() - 1, y: top, ch: text.last(), style };
            assert(over(stroke_look(s, x, y), first) == now);
            lemma_text_grows(left, top, text, style);
        } else {
            assert(now == first);
            assert(text_strokes(left, top, text, style) == before);
        }
    } else {
        assert(text_strokes(left, top, text, style).len() == 0);
        assert(painted(cells, ox, oy, text_strokes(left, top, text, style)) == cells);
    }
}

/// The uppermost of the first `n` looks.
pub open spec fn topmost(look: spec_fn(int) -> Look, n: int) -> Look
    decreases n,
{
    if n <= 0 {
        None
    } else {
        over(look(n - 1), topmost(look, n - 1))
    }
}

proof fn lemma_topmost(look: spec_fn(int) -> Look, n: int, k: int)
    requires
        0 <= k < n,
        look(k) is Some,
        forall|j: int| k < j < n ==> #[trigger] look(j) is None,
    ensures
        topmost(look, n) == look(k),
    decreases n,
{
    if k < n - 1 {
        assert(look(n - 1) is None);
        lemma_topmost(look, n - 1, k);
    }
}

proof fn lemma_nothing_on_top(look: spec_fn(int) -> Look, n: int)
    requires
        forall|j: int| 0 <= j < n ==> #[trigger] look(j) is None,
    ensures
        topmost(look, n) is None,
    decreases n,
{
    if n > 0 {
        assert(look(n - 1) is None);
        lemma_nothing_on_top(look, n - 1);
    }
}

/// The look of a floating text.
pub open spec fn caption_look(c: Caption, view: Area, x: int, y: int) -> Look {
    text_look(start_of(c, view), cell(c.y), c.text, caption_style(c), x, y, c.text.len() as int)
}

proof fn lemma_floats(cells: Cells, ox: int, oy: int, floats: Seq<Caption>, view: Area, n: int, at: (u16, u16))
    requires
        cells.contains_key(at),
        0 <= n <= floats.len(),
    ensures
        looks(
            cells,
            ox,
            oy,
            all_floats(floats, view, n),
            at,
            topmost(|j: int| caption_look(floats[j], view, at.0 - ox, at.1 - oy), n),
        ),
    decreases n,
{
    let look = |j: int| caption_look(floats[j], view, at.0 - ox, at.1 - oy);
    if n > 0 {
        let a = all_floats(floats, view, n - 1);
        let c = floats[n - 1];
        let b = text_strokes(start_of(c, view), cell(c.y), c.text, caption_style(c));
        lemma_floats(cells, ox, oy, floats, view, n - 1, at);
        painting_keeps_the_grid(cells, ox, oy, a);
        lemma_text(painted(cells, ox, oy, a), ox, oy, start_of(c, view), cell(c.y), c.text, caption_style(c), at);
        lemma_over(cells, ox, oy, a, b, at, topmost(look, n - 1), look(n - 1));
    } else {
        assert(all_floats(floats, view, n).len() == 0);
    }
}

/// The look of a particle.
pub open spec fn particle_look(p: Particle, x: int, y: int) -> Look {
    stroke_look(particle_stroke(p), x, y)
}

proof fn lemma_particles(cells: Cells, ox: int, oy: int, particles: Seq<Particle>, n: int, at: (u16, u16))
    requires
        cells.contains_key(at),
        0 <= n <= particles.len(),
    ensures
        looks(
            cells,
            ox,
            oy,
            all_particles(particles).take(n),
            at,
            topmost(|j: int| particle_look(particles[j], at.0 - ox, at.1 - oy), n),
        ),
    decreases n,
{
    let look = |j: int| particle_look(particles[j], at.0 - ox, at.1 - oy);
    let all = all_particles(particles);
    if n > 0 {
        lemma_particles(cells, ox, oy, particles, n - 1, at);
        let s = particle_stroke(particles[n - 1]);
        lemma_push(cells, ox, oy, all.take(n - 1), s, at, topmost(look, n - 1));
        assert(all.take(n) =~= all.take(n - 1).push(s));
        assert(look(n - 1) == stroke_look(s, at.0 - ox, at.1 - oy));
    } else {
        assert(all.take(n).len() == 0);
    }
}

/// The look of the first `n` characters of row `r` of a car whose corner is at `left`, `top`.
spec fn row_look(left: int, top: int, row: Seq<char>, l: Livery, r: int, x: int, y: int, n: int) -> Look {
    let ch = char_at(row, x - left);
    if y == top + r && left <= x < left + n && ch != ' ' {
        Some((ch, car_style(l, r, x - left, ch)))
    } else {
        None
    }
}

proof fn lemma_row_grows(left: int, top: int, row: Seq<char>, l: Livery, r: int, n: int)
    requires
        0 < n <= row.len(),
    ensures
        ({
            let ch = char_at(row, n - 1);
            let before = car_row(left, top, row, l, r, n - 1);
            car_row(left, top, row, l, r, n) == if ch == ' ' {
                before
            } else {
                before.push(Stroke { x: left + n - 1, y: top + r, ch, style: car_style(l, r, n - 1, ch) })
            }
        }),
{
}

proof fn lemma_row(
    cells: Cells,
    ox: int,
    oy: int,
    left: int,
    top: int,
    row: Seq<char>,
    l: Livery,
    r: int,
    n: int,
    at: (u16, u16),
)
    requires
        cells.contains_key(at),
        0 <= n <= row.len(),
    ensures
        looks(
            cells,
            ox,
            oy,
            car_row(left, top, row, l, r, n),
            at,
            row_look(left, top, row, l, r, at.0 - ox, at.1 - oy, n),
        ),
    decreases n,
{
    let x = at.0 - ox;
    let y = at.1 - oy;
    if n > 0 {
        let before = car_row(left, top, row, l, r, n - 1);
        let first = row_look(left, top, row, l, r, x, y, n - 1);
        let ch = char_at(row, n - 1);
        lemma_row(cells, ox, oy, left, top, row, l, r, n - 1, at);
        lemma_row_grows(left, top, row, l, r, n);
        if ch != ' ' {
            let s = Stroke { x: left + n - 1, y: top + r, ch, style: car_style(l, r, n - 1, ch) };
            lemma_push(cells, ox, oy, before, s, at, first);
            assert(over(stroke_look(s, x, y), first) == row_look(left, top, row, l, r, x, y, n));
        } else {
            assert(first == row_look(left, top, row, l, r, x, y, n));
        }
    } else {
        assert(car_row(left, top, row, l, r, n).len() == 0);
    }
}

/// The look of the first `n` rows of a car.
spec fn rows_look(left: int, top: int, rows: Seq<&'static str>, l: Livery, x: int, y: int, n: int) -> Look {
    if top <= y < top + n {
        row_look(left, top, rows[y - top]@, l, y - top, x, y, rows[y - top]@.len() as int)
    } else {
        None
    }
}

proof fn lemma_rows(
    cells: Cells,
    ox: int,
    oy: int,
    left: int,
    top: int,
    rows: Seq<&'static str>,
    l: Livery,
    n: int,
    at: (u16, u16),
)
    requires
        cells.contains_key(at),
        0 <= n <= rows.len(),
    ensures
        looks(
            cells,
            ox,
            oy,
            car_strokes(left, top, rows, l, n),
            at,
            rows_look(left, top, rows, l, at.0 - ox, at.1 - oy, n),
        ),
    decreases n,
{
    let x = at.0 - ox;
    let y = at.1 - oy;
    if n > 0 {
        let a = car_strokes(left, top, rows, l, n - 1);
        let row = rows[n - 1]@;
        let b = car_row(left, top, row, l, n - 1, row.len() as int);
        lemma_rows(cells, ox, oy, left, top, rows, l, n - 1, at);
        painting_keeps_the_grid(cells, ox, oy, a);
        lemma_row(painted(cells, ox, oy, a), ox, oy, left, top, row, l, n - 1, row.len() as int, at);
        let first = rows_look(left, top, rows, l, x, y, n - 1);
        let next = row_look(left, top, row, l, n - 1, x, y, row.len() as int);
        lemma_over(cells, ox, oy, a, b, at, first, next);
        assert(over(next, first) == rows_look(left, top, rows, l, x, y, n));
    } else {
        assert(car_strokes(left, top, rows, l, n).len() == 0);
    }
}

/// How many rows a car takes.
pub open spec fn rows_long(truck: bool) -> int {
    if truck {
        7
    } else {
        5
    }
}

/// The character in column `i` of row `r` of a car: round corners, a bumper at both ends, a
/// wheel on both sides, and windows, or the load of a truck, in the middle.
pub open spec fn car_char(truck: bool, r: int, i: int) -> Option<char> {
    let last = rows_long(truck) - 1;
    if !(0 <= r <= last && 0 <= i < 5) {
        None
    } else if r == 0 || r == last {
        if i == 0 || i == 4 {
            None
        } else if r == 0 {
            Some('▄')
        } else {
            Some('▀')
        }
    } else if i == 0 {
        Some('▐')
    } else if i == 4 {
        Some('▌')
    } else if i == 2 && (r == 1 || (!truck && r == 3)) {
        Some('▓')
    } else if i == 2 && truck && (r == 3 || r == 4) {
        Some('░')
    } else {
        Some('█')
    }
}

/// The colour of that character.
pub open spec fn car_color(truck: bool, r: int, i: int, l: Livery) -> Rgb {
    let end = r == 0 || r == rows_long(truck) - 1;
    if end && (i == 1 || i == 3) && l.lights is Some && (l.lights->0).0 == r {
        (l.lights->0).1
    } else if !end && (i == 0 || i == 4) {
        color(14, 14, 18)
    } else if i == 2 && (r == 1 || (!truck && r == 3)) {
        l.glass
    } else if i == 2 && truck && (r == 3 || r == 4) {
        color(150, 150, 162)
    } else {
        l.body
    }
}

/// The look of a car whose corner is at `left`, `top`.
pub open spec fn car_look(left: int, top: int, truck: bool, l: Livery, x: int, y: int) -> Look {
    match car_char(truck, y - top, x - left) {
        Some(ch) => Some(
            (ch, Style { fg: Some(car_color(truck, y - top, x - left, l)), bg: None, marks: 0 }),
        ),
        None => None,
    }
}

proof fn lemma_sedan(left: int, top: int, l: Livery, x: int, y: int)
    ensures
        SEDAN@.len() == 5,
        rows_look(left, top, SEDAN@, l, x, y, 5) == car_look(left, top, false, l, x, y),
{
    reveal_strlit(" ▄▄▄ ");
    reveal_strlit("▐█▓█▌");
    reveal_strlit("▐███▌");
    reveal_strlit(" ▀▀▀ ");
    let r = y - top;
    let i = x - left;
    if 0 <= r < 5 && 0 <= i < 5 {
        assert(SEDAN@[r]@.len() == 5);
        let ch = char_at(SEDAN@[r]@, i);
        assert(match car_char(false, r, i) {
            Some(c) => ch == c,
            None => ch == ' ',
        });
    }
}

proof fn lemma_truck(left: int, top: int, l: Livery, x: int, y: int)
    ensures
        TRUCK@.len() == 7,
        rows_look(left, top, TRUCK@, l, x, y, 7) == car_look(left, top, true, l, x, y),
{
    reveal_strlit(" ▄▄▄ ");
    reveal_strlit("▐█▓█▌");
    reveal_strlit("▐███▌");
    reveal_strlit("▐█░█▌");
    reveal_strlit(" ▀▀▀ ");
    let r = y - top;
    let i = x - left;
    if 0 <= r < 7 && 0 <= i < 5 {
        assert(TRUCK@[r]@.len() == 5);
        let ch = char_at(TRUCK@[r]@, i);
        assert(match car_char(true, r, i) {
            Some(c) => ch == c,
            None => ch == ' ',
        });
    }
}

/// The colours of a car of the traffic: its own, with red lights at its tail.
pub open spec fn colors_of(c: Car) -> Livery {
    Livery {
        body: c.color,
        glass: color(120, 170, 210),
        lights: Some(((rows_long(c.truck) - 1) as usize, color(255, 70, 55))),
    }
}

/// The look of a car of the traffic, which is five columns wide about its place on the road.
pub open spec fn traffic_look(c: Car, view: Area, x: int, y: int) -> Look {
    car_look(road(view.width as int).rx + cell(c.x) - 2, cell(c.y), c.truck, colors_of(c), x, y)
}

proof fn lemma_traffic(cells: Cells, ox: int, oy: int, cars: Seq<Car>, view: Area, n: int, at: (u16, u16))
    requires
        cells.contains_key(at),
        0 <= n <= cars.len(),
    ensures
        looks(
            cells,
            ox,
            oy,
            all_traffic(cars, road(view.width as int), n),
            at,
            topmost(|j: int| traffic_look(cars[j], view, at.0 - ox, at.1 - oy), n),
        ),
    decreases n,
{
    let look = |j: int| traffic_look(cars[j], view, at.0 - ox, at.1 - oy);
    let way = road(view.width as int);
    if n > 0 {
        let a = all_traffic(cars, way, n - 1);
        let c = cars[n - 1];
        let base = painted(cells, ox, oy, a);
        let left = way.rx + cell(c.x) - 2;
        let top = cell(c.y);
        lemma_traffic(cells, ox, oy, cars, view, n - 1, at);
        painting_keeps_the_grid(cells, ox, oy, a);
        assert(traffic_livery(c) == colors_of(c));
        if c.truck {
            lemma_truck(left, top, colors_of(c), at.0 - ox, at.1 - oy);
            lemma_rows(base, ox, oy, left, top, TRUCK@, colors_of(c), 7, at);
        } else {
            lemma_sedan(left, top, colors_of(c), at.0 - ox, at.1 - oy);
            lemma_rows(base, ox, oy, left, top, SEDAN@, colors_of(c), 5, at);
        }
        lemma_over(cells, ox, oy, a, traffic_car(c, way), at, topmost(look, n - 1), look(n - 1));
    } else {
        assert(all_traffic(cars, way, n).len() == 0);
    }
}

/// The colours of the player's car, with white lights at its front, or of its wreck.
pub open spec fn player_colors(wrecked: bool) -> Livery {
    if wrecked {
        Livery { body: color(58, 55, 52), glass: color(82, 82, 86), lights: None }
    } else {
        Livery {
            body: color(255, 96, 60),
            glass: color(150, 210, 250),
            lights: Some((0usize, color(255, 240, 150))),
        }
    }
}

/// The look of the player's car.
pub open spec fn player_look(g: GameModel, view: Area, x: int, y: int) -> Look {
    car_look(
        road(view.width as int).rx + cell(g.dash.player_x) - 2,
        player_row(view),
        false,
        player_colors(g.dash.state is Crashing || g.dash.state is GameOver),
        x,
        y,
    )
}

proof fn lemma_player(cells: Cells, ox: int, oy: int, g: GameModel, view: Area, at: (u16, u16))
    requires
        cells.contains_key(at),
    ensures
        looks(cells, ox, oy, player_strokes(g, view), at, player_look(g, view, at.0 - ox, at.1 - oy)),
{
    let l = player_colors(g.dash.state is Crashing || g.dash.state is GameOver);
    let left = road(view.width as int).rx + cell(g.dash.player_x) - 2;
    assert(player_livery(g.dash.state) == l);
    lemma_sedan(left, player_row(view), l, at.0 - ox, at.1 - oy);
    lemma_rows(cells, ox, oy, left, player_row(view), SEDAN@, l, 5, at);
}

/// The look of a bonus: a diamond that blinks between two dots.
pub open spec fn bonus_look(p: Pickup, x: int, y: int) -> Look {
    if y != cell(p.y) {
        None
    } else if x == cell(p.x) {
        Some(
            (
                if beat_of(p) % 2 == 0 {
                    '◆'
                } else {
                    '◇'
                },
                Style { fg: Some(color(255, 205, 60)), bg: Some(color(60, 50, 15)), marks: BOLD },
            ),
        )
    } else if x == cell(p.x) - 1 || x == cell(p.x) + 1 {
        Some(('·', ink(150, 120, 40)))
    } else {
        None
    }
}

proof fn lemma_bonus(cells: Cells, ox: int, oy: int, p: Pickup, at: (u16, u16))
    requires
        cells.contains_key(at),
    ensures
        looks(
            cells,
            ox,
            oy,
            pickup_strokes(spot(p.x, p.y), beat_of(p)),
            at,
            bonus_look(p, at.0 - ox, at.1 - oy),
        ),
{
    let all = pickup_strokes(spot(p.x, p.y), beat_of(p));
    let x = at.0 - ox;
    let y = at.1 - oy;
    let none = Seq::<Stroke>::empty();
    let first = stroke_look(all[0], x, y);
    let next = over(stroke_look(all[1], x, y), first);
    assert(looks(cells, ox, oy, none, at, None));
    lemma_push(cells, ox, oy, none, all[0], at, None);
    lemma_push(cells, ox, oy, none.push(all[0]), all[1], at, first);
    lemma_push(cells, ox, oy, none.push(all[0]).push(all[1]), all[2], at, next);
    assert(none.push(all[0]).push(all[1]).push(all[2]) =~= all);
    assert(over(stroke_look(all[2], x, y), next) == bonus_look(p, x, y));
}

proof fn lemma_bonuses(cells: Cells, ox: int, oy: int, pickups: Seq<Pickup>, n: int, at: (u16, u16))
    requires
        cells.contains_key(at),
        0 <= n <= pickups.len(),
    ensures
        looks(
            cells,
            ox,
            oy,
            all_pickups(pickups, n),
            at,
            topmost(|j: int| bonus_look(pickups[j], at.0 - ox, at.1 - oy), n),
        ),
    decreases n,
{
    let look = |j: int| bonus_look(pickups[j], at.0 - ox, at.1 - oy);
    if n > 0 {
        let a = all_pickups(pickups, n - 1);
        let p = pickups[n - 1];
        lemma_bonuses(cells, ox, oy, pickups, n - 1, at);
        painting_keeps_the_grid(cells, ox, oy, a);
        lemma_bonus(painted(cells, ox, oy, a), ox, oy, p, at);
        lemma_over(
            cells,
            ox,
            oy,
            a,
            pickup_strokes(spot(p.x, p.y), beat_of(p)),
            at,
            topmost(look, n - 1),
            look(n - 1),
        );
    } else {
        assert(all_pickups(pickups, n).len() == 0);
    }
}

/// The look of the first `n` columns of the edges of a billboard.
spec fn edges_look(left: int, top: int, x: int, y: int, n: int) -> Look {
    if !(left <= x < left + n) {
        None
    } else if y == top {
        Some(('▄', ink(240, 190, 60)))
    } else if y == top + 2 {
        Some(('▀', ink(240, 190, 60)))
    } else {
        None
    }
}

proof fn lemma_edges(cells: Cells, ox: int, oy: int, left: int, top: int, n: int, at: (u16, u16))
    requires
        cells.contains_key(at),
        0 <= n,
    ensures
        looks(cells, ox, oy, board_edges(left, top, n), at, edges_look(left, top, at.0 - ox, at.1 - oy, n)),
    decreases n,
{
    let x = at.0 - ox;
    let y = at.1 - oy;
    if n > 0 {
        let before = board_edges(left, top, n - 1);
        let up = Stroke { x: left + n - 1, y: top, ch: '▄', style: ink(240, 190, 60) };
        let down = Stroke { x: left + n - 1, y: top + 2, ch: '▀', style: ink(240, 190, 60) };
        let first = edges_look(left, top, x, y, n - 1);
        let next = over(stroke_look(up, x, y), first);
        lemma_edges(cells, ox, oy, left, top, n - 1, at);
        lemma_push(cells, ox, oy, before, up, at, first);
        lemma_push(cells, ox, oy, before.push(up), down, at, next);
        assert(over(stroke_look(down, x, y), next) == edges_look(left, top, x, y, n));
    } else {
        assert(board_edges(left, top, n).len() == 0);
    }
}

/// The style of a slogan.
pub open spec fn slogan_style() -> Style {
    Style { fg: Some(color(240, 240, 245)), bg: Some(color(24, 44, 96)), marks: 0 }
}

/// The look of the first `n` places of the text of a billboard.
spec fn board_text_look(left: int, top: int, text: Seq<char>, x: int, y: int, n: int) -> Look {
    let i = x - left - 1;
    if !(0 <= i < n && y == top + 1) {
        None
    } else if i < text.len() {
        Some((char_at(text, i), slogan_style()))
    } else {
        Some((' ', slogan_style()))
    }
}

proof fn lemma_board_text(cells: Cells, ox: int, oy: int, left: int, top: int, text: Seq<char>, n: int, at: (u16, u16))
    requires
        cells.contains_key(at),
        0 <= n,
    ensures
        looks(
            cells,
            ox,
            oy,
            board_text(left, top, text, n),
            at,
            board_text_look(left, top, text, at.0 - ox, at.1 - oy, n),
        ),
    decreases n,
{
    let x = at.0 - ox;
    let y = at.1 - oy;
    if n > 0 {
        let s = Stroke {
            x: left + n,
            y: top + 1,
            ch: if n - 1 < text.len() {
                char_at(text, n - 1)
            } else {
                ' '
            },
            style: slogan_style(),
        };
        let before = board_text(left, top, text, n - 1);
        let first = board_text_look(left, top, text, x, y, n - 1);
        lemma_board_text(cells, ox, oy, left, top, text, n - 1, at);
        lemma_push(cells, ox, oy, before, s, at, first);
        assert(board_text(left, top, text, n) == before.push(s));
        assert(over(stroke_look(s, x, y), first) == board_text_look(left, top, text, x, y, n));
    } else {
        assert(board_text(left, top, text, n).len() == 0);
    }
}

/// The look of a billboard: a yellow frame, four columns wider than its slogan takes bytes,
/// round the slogan in white on blue, on two posts.
pub open spec fn board_look(left: int, top: int, k: int, x: int, y: int) -> Look {
    let w = slogan_bytes(k) + 4;
    let i = x - left;
    let r = y - top;
    if !(0 <= i < w) {
        None
    } else if r == 0 {
        Some(('▄', ink(240, 190, 60)))
    } else if r == 2 {
        Some(('▀', ink(240, 190, 60)))
    } else if r == 1 {
        if i == 0 || i == w - 1 {
            Some(('█', ink(240, 190, 60)))
        } else if i - 1 < slogan(k).len() {
            Some((char_at(slogan(k), i - 1), slogan_style()))
        } else {
            Some((' ', slogan_style()))
        }
    } else if r == 3 && (i == 1 || i == w - 2) {
        Some(('█', ink(90, 90, 96)))
    } else {
        None
    }
}

proof fn lemma_board(cells: Cells, ox: int, oy: int, left: int, top: int, k: int, at: (u16, u16))
    requires
        cells.contains_key(at),
        slogan_bytes(k) >= 0,
    ensures
        looks(cells, ox, oy, board_strokes(left, top, k), at, board_look(left, top, k, at.0 - ox, at.1 - oy)),
{
    let x = at.0 - ox;
    let y = at.1 - oy;
    let w = slogan_bytes(k) + 4;
    let edges = board_edges(left, top, w);
    let west = Stroke { x: left, y: top + 1, ch: '█', style: ink(240, 190, 60) };
    let east = Stroke { x: left + w - 1, y: top + 1, ch: '█', style: ink(240, 190, 60) };
    let frame = edges.push(west).push(east);
    let text = board_text(left, top, slogan(k), w - 2);
    let near = Stroke { x: left + 1, y: top + 3, ch: '█', style: ink(90, 90, 96) };
    let far = Stroke { x: left + w - 2, y: top + 3, ch: '█', style: ink(90, 90, 96) };
    let a = edges_look(left, top, x, y, w);
    let b = over(stroke_look(west, x, y), a);
    let c = over(stroke_look(east, x, y), b);
    let t = board_text_look(left, top, slogan(k), x, y, w - 2);
    let d = over(t, c);
    let e = over(stroke_look(near, x, y), d);
    lemma_edges(cells, ox, oy, left, top, w, at);
    lemma_push(cells, ox, oy, edges, west, at, a);
    lemma_push(cells, ox, oy, edges.push(west), east, at, b);
    painting_keeps_the_grid(cells, ox, oy, frame);
    lemma_board_text(painted(cells, ox, oy, frame), ox, oy, left, top, slogan(k), w - 2, at);
    lemma_over(cells, ox, oy, frame, text, at, c, t);
    lemma_push(cells, ox, oy, frame + text, near, at, d);
    lemma_push(cells, ox, oy, (frame + text).push(near), far, at, e);
    assert(board_strokes(left, top, k) == (frame + text).push(near).push(far));
    assert(over(stroke_look(far, x, y), e) == board_look(left, top, k, x, y));
}

/// The look of a thing beside the road: trees in three rows, bushes in one, rocks in two, and
/// billboards.
pub open spec fn scenery_look(s: Scenery, x: int, y: int) -> Look {
    let left = s.x as int;
    let top = cell(s.y);
    match s.kind {
        SceneryKind::Tree => if y == top {
            text_look(left, top, " ▄█▄ "@, ink(52, 150, 64), x, y, 5)
        } else if y == top + 1 {
            text_look(left, top + 1, "▐███▌"@, ink(38, 120, 50), x, y, 5)
        } else {
            text_look(left, top + 2, " ▀▄▀ "@, ink(30, 95, 42), x, y, 5)
        },
        SceneryKind::Bush => text_look(left, top, "▄▓▄"@, ink(40, 110, 48), x, y, 3),
        SceneryKind::Rock => if y == top {
            text_look(left, top, "▄▓▄"@, ink(115, 115, 122), x, y, 3)
        } else {
            text_look(left, top + 1, "▀▀▀"@, ink(85, 85, 92), x, y, 3)
        },
        SceneryKind::Sign(k) => board_look(left, top, k as int, x, y),
    }
}

proof fn lemma_thing(cells: Cells, ox: int, oy: int, s: Scenery, at: (u16, u16))
    requires
        cells.contains_key(at),
        s.kind matches SceneryKind::Sign(k) ==> slogan_bytes(k as int) >= 0,
    ensures
        looks(
            cells,
            ox,
            oy,
            scenery_strokes(s.x as int, cell(s.y), s.kind),
            at,
            scenery_look(s, at.0 - ox, at.1 - oy),
        ),
{
    let left = s.x as int;
    let top = cell(s.y);
    let x = at.0 - ox;
    let y = at.1 - oy;
    match s.kind {
        SceneryKind::Tree => {
            reveal_strlit(" ▄█▄ ");
            reveal_strlit("▐███▌");
            reveal_strlit(" ▀▄▀ ");
            let a = text_strokes(left, top, " ▄█▄ "@, ink(52, 150, 64));
            let b = text_strokes(left, top + 1, "▐███▌"@, ink(38, 120, 50));
            let c = text_strokes(left, top + 2, " ▀▄▀ "@, ink(30, 95, 42));
            let p = text_look(left, top, " ▄█▄ "@, ink(52, 150, 64), x, y, 5);
            let q = text_look(left, top + 1, "▐███▌"@, ink(38, 120, 50), x, y, 5);
            let r = text_look(left, top + 2, " ▀▄▀ "@, ink(30, 95, 42), x, y, 5);
            lemma_text(cells, ox, oy, left, top, " ▄█▄ "@, ink(52, 150, 64), at);
            painting_keeps_the_grid(cells, ox, oy, a);
            lemma_text(painted(cells, ox, oy, a), ox, oy, left, top + 1, "▐███▌"@, ink(38, 120, 50), at);
            lemma_over(cells, ox, oy, a, b, at, p, q);
            painting_keeps_the_grid(cells, ox, oy, a + b);
            lemma_text(painted(cells, ox, oy, a + b), ox, oy, left, top + 2, " ▀▄▀ "@, ink(30, 95, 42), at);
            lemma_over(cells, ox, oy, a + b, c, at, over(q, p), r);
        },
        SceneryKind::Bush => {
            reveal_strlit("▄▓▄");
            lemma_text(cells, ox, oy, left, top, "▄▓▄"@, ink(40, 110, 48), at);
        },
        SceneryKind::Rock => {
            reveal_strlit("▄▓▄");
            reveal_strlit("▀▀▀");
            let a = text_strokes(left, top, "▄▓▄"@, ink(115, 115, 122));
            let b = text_strokes(left, top + 1, "▀▀▀"@, ink(85, 85, 92));
            let p = text_look(left, top, "▄▓▄"@, ink(115, 115, 122), x, y, 3);
            let q = text_look(left, top + 1, "▀▀▀"@, ink(85, 85, 92), x, y, 3);
            lemma_text(cells, ox, oy, left, top, "▄▓▄"@, ink(115, 115, 122), at);
            painting_keeps_the_grid(cells, ox, oy, a);
            lemma_text(painted(cells, ox, oy, a), ox, oy, left, top + 1, "▀▀▀"@, ink(85, 85, 92), at);
            lemma_over(cells, ox, oy, a, b, at, p, q);
        },
        SceneryKind::Sign(k) => {
            lemma_board(cells, ox, oy, left, top, k as int, at);
        },
    }
}

proof fn lemma_scenery(cells: Cells, ox: int, oy: int, things: Seq<Scenery>, n: int, at: (u16, u16))
    requires
        cells.contains_key(at),
        0 <= n <= things.len(),
    ensures
        looks(
            cells,
            ox,
            oy,
            all_scenery(things, n),
            at,
            topmost(|j: int| scenery_look(things[j], at.0 - ox, at.1 - oy), n),
        ),
    decreases n,
{
    let look = |j: int| scenery_look(things[j], at.0 - ox, at.1 - oy);
    if n > 0 {
        let a = all_scenery(things, n - 1);
        let s = things[n - 1];
        lemma_scenery(cells, ox, oy, things, n - 1, at);
        painting_keeps_the_grid(cells, ox, oy, a);
        lemma_thing(painted(cells, ox, oy, a), ox, oy, s, at);
        lemma_over(
            cells,
            ox,
            oy,
            a,
            scenery_strokes(s.x as int, cell(s.y), s.kind),
            at,
            topmost(look, n - 1),
            look(n - 1),
        );
    } else {
        assert(all_scenery(things, n).len() == 0);
    }
}

/// The look of all floating texts, the newest uppermost.
pub open spec fn texts_look(g: GameModel, view: Area, x: int, y: int) -> Look {
    topmost(|j: int| caption_look(g.floats[j], view, x, y), g.floats.len() as int)
}

/// The look of all particles.
pub open spec fn smoke_look(g: GameModel, x: int, y: int) -> Look {
    topmost(|j: int| particle_look(g.particles[j], x, y), g.particles.len() as int)
}

/// The look of the whole traffic.
pub open spec fn cars_look(g: GameModel, view: Area, x: int, y: int) -> Look {
    topmost(|j: int| traffic_look(g.traffic[j], view, x, y), g.traffic.len() as int)
}

/// The look of all bonuses.
pub open spec fn bonuses_look(g: GameModel, x: int, y: int) -> Look {
    topmost(|j: int| bonus_look(g.pickups[j], x, y), g.pickups.len() as int)
}

/// The look of everything beside the road.
pub open spec fn verge_look(g: GameModel, x: int, y: int) -> Look {
    topmost(|j: int| scenery_look(g.scenery[j], x, y), g.scenery.len() as int)
}

/// The look of the world in column `x` of row `y` of the view, the ground left out: texts over
/// smoke over the player's car over the traffic over the bonuses over what stands beside the
/// road.
pub open spec fn world_look(g: GameModel, view: Area, x: int, y: int) -> Look {
    let low = over(bonuses_look(g, x, y), verge_look(g, x, y));
    let cars = over(player_look(g, view, x, y), over(cars_look(g, view, x, y), low));
    over(texts_look(g, view, x, y), over(smoke_look(g, x, y), cars))
}

/// The ground under the world.
pub open spec fn bare_ground(cells: Cells, ox: int, oy: int, g: GameModel, view: Area) -> Cells {
    painted(cells, ox, oy, ground_rows(view, rows_past(g, view), rush_of(g), view.height as int))
}

/// A frame shows the world cell by cell: the uppermost thing, and the ground where there is
/// none.
pub proof fn the_uppermost_thing_is_seen(g: GameModel, view: Area, cells: Cells, ox: int, oy: int, at: (u16, u16))
    requires
        cells.contains_key(at),
    ensures
        match world_look(g, view, at.0 - ox, at.1 - oy) {
            Some((ch, style)) => shows(painted(cells, ox, oy, world_strokes(g, view))[at], ch, style),
            None => painted(cells, ox, oy, world_strokes(g, view))[at] == bare_ground(cells, ox, oy, g, view)[at],
        },
{
    let x = at.0 - ox;
    let y = at.1 - oy;
    let ground = ground_rows(view, rows_past(g, view), rush_of(g), view.height as int);
    let base = bare_ground(cells, ox, oy, g, view);
    painting_keeps_the_grid(cells, ox, oy, ground);
    let a = all_scenery(g.scenery, g.scenery.len() as int);
    let b = all_pickups(g.pickups, g.pickups.len() as int);
    let c = all_traffic(g.traffic, road(view.width as int), g.traffic.len() as int);
    let d = player_strokes(g, view);
    let e = all_particles(g.particles);
    let f = all_floats(g.floats, view, g.floats.len() as int);
    let p = verge_look(g, x, y);
    lemma_scenery(base, ox, oy, g.scenery, g.scenery.len() as int, at);
    painting_keeps_the_grid(base, ox, oy, a);
    lemma_bonuses(painted(base, ox, oy, a), ox, oy, g.pickups, g.pickups.len() as int, at);
    lemma_over(base, ox, oy, a, b, at, p, bonuses_look(g, x, y));
    let q = over(bonuses_look(g, x, y), p);
    painting_keeps_the_grid(base, ox, oy, a + b);
    lemma_traffic(painted(base, ox, oy, a + b), ox, oy, g.traffic, view, g.traffic.len() as int, at);
    lemma_over(base, ox, oy, a + b, c, at, q, cars_look(g, view, x, y));
    let r = over(cars_look(g, view, x, y), q);
    painting_keeps_the_grid(base, ox, oy, a + b + c);
    lemma_player(painted(base, ox, oy, a + b + c), ox, oy, g, view, at);
    lemma_over(base, ox, oy, a + b + c, d, at, r, player_look(g, view, x, y));
    let s = over(player_look(g, view, x, y), r);
    painting_keeps_the_grid(base, ox, oy, a + b + c + d);
    assert(e.take(e.len() as int) =~= e);
    lemma_particles(painted(base, ox, oy, a + b + c + d), ox, oy, g.particles, g.particles.len() as int, at);
    lemma_over(base, ox, oy, a + b + c + d, e, at, s, smoke_look(g, x, y));
    let t = over(smoke_look(g, x, y), s);
    painting_keeps_the_grid(base, ox, oy, a + b + c + d + e);
    lemma_floats(painted(base, ox, oy, a + b + c + d + e), ox, oy, g.floats, view, g.floats.len() as int, at);
    lemma_over(base, ox, oy, a + b + c + d + e, f, at, t, texts_look(g, view, x, y));
    lemma_painted_add(cells, ox, oy, ground, a + b + c + d + e + f);
    assert(ground + (a + b + c + d + e + f) =~= world_strokes(g, view));
}

/// Whether a floating text has a character other than a blank in column `x` of row `y`.
pub open spec fn text_stands_at(c: Caption, view: Area, x: int, y: int) -> bool {
    let i = x - start_of(c, view);
    y == cell(c.y) && 0 <= i < c.text.len() && char_at(c.text, i) != ' '
}

/// Every character but blanks of every floating text is shown in its colour and bold, for
/// texts of any length, unless a later text covers it.
pub proof fn every_text_is_shown(
    g: GameModel,
    view: Area,
    cells: Cells,
    ox: int,
    oy: int,
    k: int,
    at: (u16, u16),
)
    requires
        cells.contains_key(at),
        0 <= k < g.floats.len(),
        text_stands_at(g.floats[k], view, at.0 - ox, at.1 - oy),
        forall|j: int|
            k < j < g.floats.len() ==> !#[trigger] text_stands_at(g.floats[j], view, at.0 - ox, at.1 - oy),
    ensures
        ({
            let now = painted(cells, ox, oy, world_strokes(g, view))[at];
            let c = g.floats[k];
            &&& now.symbol == seq![char_at(c.text, at.0 - ox - start_of(c, view))]
            &&& now.fg == Some(c.color)
            &&& now.marks & BOLD == BOLD
        }),
{
    let x = at.0 - ox;
    let y = at.1 - oy;
    let look = |j: int| caption_look(g.floats[j], view, x, y);
    the_uppermost_thing_is_seen(g, view, cells, ox, oy, at);
    assert(look(k) is Some);
    assert forall|j: int| k < j < g.floats.len() implies #[trigger] look(j) is None by {
        assert(!text_stands_at(g.floats[j], view, x, y));
    }
    lemma_topmost(look, g.floats.len() as int, k);
    assert(texts_look(g, view, x, y) == look(k));
    let now = painted(cells, ox, oy, world_strokes(g, view))[at].marks;
    let marks = caption_style(g.floats[k]).marks;
    assert(now & BOLD == BOLD) by (bit_vector)
        requires
            now & (marks & 0x1ff) == marks & 0x1ff,
            marks == 3 || marks == 1,
            BOLD == 1,
    ;
}

/// Whether a particle is in column `x` of row `y`.
pub open spec fn particle_stands_at(p: Particle, x: int, y: int) -> bool {
    x == cell(p.x) && y == cell(p.y)
}

/// Every particle is shown in its colour, unless a later one or a text covers it.
pub proof fn every_particle_is_shown(
    g: GameModel,
    view: Area,
    cells: Cells,
    ox: int,
    oy: int,
    k: int,
    at: (u16, u16),
)
    requires
        cells.contains_key(at),
        0 <= k < g.particles.len(),
        particle_stands_at(g.particles[k], at.0 - ox, at.1 - oy),
        forall|j: int|
            k < j < g.particles.len() ==> !#[trigger] particle_stands_at(g.particles[j], at.0 - ox, at.1 - oy),
        forall|j: int|
            0 <= j < g.floats.len() ==> !#[trigger] text_stands_at(g.floats[j], view, at.0 - ox, at.1 - oy),
    ensures
        ({
            let now = painted(cells, ox, oy, world_strokes(g, view))[at];
            &&& now.symbol == seq![g.particles[k].ch]
            &&& now.fg == Some(g.particles[k].color)
        }),
{
    let x = at.0 - ox;
    let y = at.1 - oy;
    let look = |j: int| particle_look(g.particles[j], x, y);
    the_uppermost_thing_is_seen(g, view, cells, ox, oy, at);
    lemma_no_text(g, view, x, y);
    assert(look(k) is Some);
    assert forall|j: int| k < j < g.particles.len() implies #[trigger] look(j) is None by {
        assert(!particle_stands_at(g.particles[j], x, y));
    }
    lemma_topmost(look, g.particles.len() as int, k);
    assert(smoke_look(g, x, y) == look(k));
}

proof fn lemma_no_text(g: GameModel, view: Area, x: int, y: int)
    requires
        forall|j: int| 0 <= j < g.floats.len() ==> !#[trigger] text_stands_at(g.floats[j], view, x, y),
    ensures
        texts_look(g, view, x, y) is None,
{
    let look = |j: int| caption_look(g.floats[j], view, x, y);
    assert forall|j: int| 0 <= j < g.floats.len() implies #[trigger] look(j) is None by {
        assert(!text_stands_at(g.floats[j], view, x, y));
    }
    lemma_nothing_on_top(look, g.floats.len() as int);
}

/// Whether neither a text nor a particle is in column `x` of row `y`.
pub open spec fn clear_sight(g: GameModel, view: Area, x: int, y: int) -> bool {
    &&& forall|j: int| 0 <= j < g.floats.len() ==> !#[trigger] text_stands_at(g.floats[j], view, x, y)
    &&& forall|j: int| 0 <= j < g.particles.len() ==> !#[trigger] particle_stands_at(g.particles[j], x, y)
}

proof fn lemma_clear_sight(g: GameModel, view: Area, x: int, y: int)
    requires
        clear_sight(g, view, x, y),
    ensures
        texts_look(g, view, x, y) is None,
        smoke_look(g, x, y) is None,
{
    let look = |j: int| particle_look(g.particles[j], x, y);
    lemma_no_text(g, view, x, y);
    assert forall|j: int| 0 <= j < g.particles.len() implies #[trigger] look(j) is None by {
        assert(!particle_stands_at(g.particles[j], x, y));
    }
    lemma_nothing_on_top(look, g.particles.len() as int);
}

/// The player's car is shown wherever no text and no particle covers it: orange, or burnt out
/// after a crash.
pub proof fn the_player_is_shown(
    g: GameModel,
    view: Area,
    cells: Cells,
    ox: int,
    oy: int,
    r: int,
    i: int,
    at: (u16, u16),
)
    requires
        cells.contains_key(at),
        at.0 == ox + road(view.width as int).rx + cell(g.dash.player_x) - 2 + i,
        at.1 == oy + player_row(view) + r,
        car_char(false, r, i) is Some,
        clear_sight(g, view, at.0 - ox, at.1 - oy),
    ensures
        ({
            let now = painted(cells, ox, oy, world_strokes(g, view))[at];
            let wreck = g.dash.state is Crashing || g.dash.state is GameOver;
            &&& now.symbol == seq![car_char(false, r, i)->0]
            &&& now.fg == Some(car_color(false, r, i, player_colors(wreck)))
        }),
{
    the_uppermost_thing_is_seen(g, view, cells, ox, oy, at);
    lemma_clear_sight(g, view, at.0 - ox, at.1 - oy);
}

/// Whether a car of the traffic has a part in column `x` of row `y`.
pub open spec fn car_stands_at(c: Car, view: Area, x: int, y: int) -> bool {
    car_char(c.truck, y - cell(c.y), x - (road(view.width as int).rx + cell(c.x) - 2)) is Some
}

/// Whether the player's car has a part in column `x` of row `y`.
pub open spec fn player_stands_at(g: GameModel, view: Area, x: int, y: int) -> bool {
    car_char(false, y - player_row(view), x - (road(view.width as int).rx + cell(g.dash.player_x) - 2)) is Some
}

/// Every car of the traffic is shown in its own colour wherever nothing covers it: no text, no
/// particle, not the player's car and no car that joined later.
pub proof fn every_car_is_shown(
    g: GameModel,
    view: Area,
    cells: Cells,
    ox: int,
    oy: int,
    k: int,
    at: (u16, u16),
)
    requires
        cells.contains_key(at),
        0 <= k < g.traffic.len(),
        car_stands_at(g.traffic[k], view, at.0 - ox, at.1 - oy),
        forall|j: int|
            k < j < g.traffic.len() ==> !#[trigger] car_stands_at(g.traffic[j], view, at.0 - ox, at.1 - oy),
        clear_sight(g, view, at.0 - ox, at.1 - oy),
        !player_stands_at(g, view, at.0 - ox, at.1 - oy),
    ensures
        ({
            let now = painted(cells, ox, oy, world_strokes(g, view))[at];
            let c = g.traffic[k];
            let r = at.1 - oy - cell(c.y);
            let i = at.0 - ox - (road(view.width as int).rx + cell(c.x) - 2);
            &&& now.symbol == seq![car_char(c.truck, r, i)->0]
            &&& now.fg == Some(car_color(c.truck, r, i, colors_of(c)))
        }),
{
    let x = at.0 - ox;
    let y = at.1 - oy;
    let look = |j: int| traffic_look(g.traffic[j], view, x, y);
    the_uppermost_thing_is_seen(g, view, cells, ox, oy, at);
    lemma_clear_sight(g, view, x, y);
    assert(look(k) is Some);
    assert forall|j: int| k < j < g.traffic.len() implies #[trigger] look(j) is None by {
        assert(!car_stands_at(g.traffic[j], view, x, y));
    }
    lemma_topmost(look, g.traffic.len() as int, k);
    assert(cars_look(g, view, x, y) == look(k));
}

/// Whether a bonus takes column `x` of row `y`.
pub open spec fn bonus_stands_at(p: Pickup, x: int, y: int) -> bool {
    y == cell(p.y) && cell(p.x) - 1 <= x <= cell(p.x) + 1
}

/// Every bonus is shown wherever nothing covers it: a golden diamond between two dots.
pub proof fn every_bonus_is_shown(
    g: GameModel,
    view: Area,
    cells: Cells,
    ox: int,
    oy: int,
    k: int,
    at: (u16, u16),
)
    requires
        cells.contains_key(at),
        0 <= k < g.pickups.len(),
        bonus_stands_at(g.pickups[k], at.0 - ox, at.1 - oy),
        forall|j: int| k < j < g.pickups.len() ==> !#[trigger] bonus_stands_at(g.pickups[j], at.0 - ox, at.1 - oy),
        forall|j: int|
            0 <= j < g.traffic.len() ==> !#[trigger] car_stands_at(g.traffic[j], view, at.0 - ox, at.1 - oy),
        clear_sight(g, view, at.0 - ox, at.1 - oy),
        !player_stands_at(g, view, at.0 - ox, at.1 - oy),
    ensures
        ({
            let now = painted(cells, ox, oy, world_strokes(g, view))[at];
            let middle = at.0 - ox == cell(g.pickups[k].x);
            &&& middle ==> (now.symbol == seq!['◆'] || now.symbol == seq!['◇']) && now.fg == Some(color(255, 205, 60))
            &&& !middle ==> now.symbol == seq!['·'] && now.fg == Some(color(150, 120, 40))
        }),
{
    let x = at.0 - ox;
    let y = at.1 - oy;
    let look = |j: int| bonus_look(g.pickups[j], x, y);
    let cars = |j: int| traffic_look(g.traffic[j], view, x, y);
    the_uppermost_thing_is_seen(g, view, cells, ox, oy, at);
    lemma_clear_sight(g, view, x, y);
    assert forall|j: int| 0 <= j < g.traffic.len() implies #[trigger] cars(j) is None by {
        assert(!car_stands_at(g.traffic[j], view, x, y));
    }
    lemma_nothing_on_top(cars, g.traffic.len() as int);
    assert(look(k) is Some);
    assert forall|j: int| k < j < g.pickups.len() implies #[trigger] look(j) is None by {
        assert(!bonus_stands_at(g.pickups[j], x, y));
    }
    lemma_topmost(look, g.pickups.len() as int, k);
    assert(bonuses_look(g, x, y) == look(k));
}

/// A floating text is centred over its place: its first column is where half of its bytes
/// are to the left, and its row is the nearest one.
pub proof fn texts_are_centred(c: Caption, view: Area)
    requires
        size(c.x.value()) <= 1_000_000 * one(),
        size(c.y.value()) <= 1_000_000 * one(),
        encode_utf8(c.text).len() <= 1_000_000,
    ensures
        ({
            let o = one();
            let middle = 2 * road(view.width as int).rx * o + 2 * c.x.value();
            let bytes = encode_utf8(c.text).len();
            &&& 1_000_000 * size(2 * start_of(c, view) * o + bytes * o - middle) <= 1_000_001 * o
            &&& 2 * size(cell(c.y) * o - c.y.value()) <= o
        }),
{
    let o = one();
    lemma_pow2_pos(1074);
    lemma_one_is_many();
    let rx = road(view.width as int).rx;
    let bytes = encode_utf8(c.text).len() as int;
    assert(-100 <= rx <= 65535);
    whole_numbers_are_exact(rx);
    let a = Num::spec_whole(rx as int);
    assert(size(rx * o) <= 65535 * o) by (nonlinear_arith)
        requires
            -100 <= rx <= 65535,
            o > 0,
    ;
    let b = a.spec_plus(c.x);
    let cx = c.x.value();
    lemma_near_sum(rx * o + cx, 1_100_000);
    let h = Num::spec_ratio(bytes, 2);
    fractions_are_near(bytes, 2);
    assert(0 <= bytes * o <= 1_000_000 * o) by (nonlinear_arith)
        requires
            0 <= bytes <= 1_000_000,
            o > 0,
    ;
    let bv = b.value();
    let hv = h.value();
    assert(1_000_000_000 * size(bv - (rx * o + cx)) <= o) by (nonlinear_arith)
        requires
            9_007_199_254_740_992 * size(bv - (rx * o + cx)) <= (1_100_000 + 1) * o,
            o > 0,
    ;
    assert(1_000_000_000 * size(2 * hv - bytes * o) <= o) by (nonlinear_arith)
        requires
            9_007_199_254_740_992 * size(hv * 2 - bytes * o) <= bytes * o,
            bytes * o <= 1_000_000 * o,
            o > 0,
    ;
    let d = b.spec_minus(h);
    let dv = d.value();
    lemma_near_sum(bv - hv, 3_000_000);
    assert(1_000_000_000 * size(dv - (bv - hv)) <= o) by (nonlinear_arith)
        requires
            9_007_199_254_740_992 * size(dv - (bv - hv)) <= (3_000_000 + 1) * o,
            o > 0,
    ;
    rounding_goes_to_the_nearest(d);
    rounding_goes_to_the_nearest(c.y);
    lemma_within_32(d, 4_000_000);
    lemma_within_32(c.y, 1_000_000);
    let start = start_of(c, view);
    assert(start == d.spec_round());
    let middle = 2 * rx * o + 2 * cx;
    assert(2 * rx * o == 2 * (rx * o) && 2 * start * o == 2 * (start * o)) by (nonlinear_arith);
}

/// The nearest whole number to one that is not large is not large.
proof fn lemma_within_32(n: Num, most: int)
    requires
        size(n.value()) <= most * one(),
        0 <= most <= 2_000_000_000,
    ensures
        cell(n) == n.spec_round(),
{
    let o = one();
    let r = n.spec_round();
    lemma_pow2_pos(1074);
    rounding_goes_to_the_nearest(n);
    assert(most * o <= 2_000_000_000 * o) by (nonlinear_arith)
        requires
            most <= 2_000_000_000,
            o > 0,
    ;
    assert(-2_000_000_001 <= r <= 2_000_000_001) by (nonlinear_arith)
        requires
            -o <= 2 * (r * o - n.value()) <= o,
            -(2_000_000_000 * o) <= n.value() <= 2_000_000_000 * o,
            o > 0,
    ;
}

/// A thing is seen in the cell nearest to its place.
pub proof fn cells_are_nearest(n: Num)
    requires
        size(n.value()) <= 2_000_000_000 * one(),
    ensures
        2 * size(cell(n) * one() - n.value()) <= one(),
{
    rounding_goes_to_the_nearest(n);
    lemma_within_32(n, 2_000_000_000);
}

/// Whether anything but scenery hides column `x` of row `y`.
pub open spec fn hidden(g: GameModel, view: Area, x: int, y: int) -> bool {
    ||| !clear_sight(g, view, x, y)
    ||| player_stands_at(g, view, x, y)
    ||| exists|j: int| 0 <= j < g.traffic.len() && #[trigger] car_stands_at(g.traffic[j], view, x, y)
    ||| exists|j: int| 0 <= j < g.pickups.len() && #[trigger] bonus_stands_at(g.pickups[j], x, y)
}

/// Every thing beside the road is shown wherever nothing on the road and no later thing covers
/// it.
pub proof fn every_thing_is_shown(
    g: GameModel,
    view: Area,
    cells: Cells,
    ox: int,
    oy: int,
    k: int,
    at: (u16, u16),
)
    requires
        cells.contains_key(at),
        0 <= k < g.scenery.len(),
        scenery_look(g.scenery[k], at.0 - ox, at.1 - oy) is Some,
        forall|j: int|
            k < j < g.scenery.len() ==> #[trigger] scenery_look(g.scenery[j], at.0 - ox, at.1 - oy) is None,
        !hidden(g, view, at.0 - ox, at.1 - oy),
    ensures
        ({
            let (ch, style) = scenery_look(g.scenery[k], at.0 - ox, at.1 - oy)->0;
            shows(painted(cells, ox, oy, world_strokes(g, view))[at], ch, style)
        }),
{
    let x = at.0 - ox;
    let y = at.1 - oy;
    let look = |j: int| scenery_look(g.scenery[j], x, y);
    let cars = |j: int| traffic_look(g.traffic[j], view, x, y);
    let gems = |j: int| bonus_look(g.pickups[j], x, y);
    the_uppermost_thing_is_seen(g, view, cells, ox, oy, at);
    lemma_clear_sight(g, view, x, y);
    assert forall|j: int| 0 <= j < g.traffic.len() implies #[trigger] cars(j) is None by {
        assert(!car_stands_at(g.traffic[j], view, x, y));
    }
    lemma_nothing_on_top(cars, g.traffic.len() as int);
    assert forall|j: int| 0 <= j < g.pickups.len() implies #[trigger] gems(j) is None by {
        assert(!bonus_stands_at(g.pickups[j], x, y));
    }
    lemma_nothing_on_top(gems, g.pickups.len() as int);
    assert(look(k) is Some);
    assert forall|j: int| k < j < g.scenery.len() implies #[trigger] look(j) is None by {
        assert(scenery_look(g.scenery[j], x, y) is None);
    }
    lemma_topmost(look, g.scenery.len() as int, k);
    assert(verge_look(g, x, y) == look(k));
}

} // verus!
