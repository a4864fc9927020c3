//! The cars and the block letters, painted character by character.

use crate::letters::word_row;
use crate::paint::{fits_32, lemma_then, lemma_then_one, modest, text_strokes, Painter, Stroke};
use crate::style::{ink, Rgb, Style};
use vstd::prelude::*;
use vstd::string::StrSliceExecFns;

verus! {

/// A car from above.
pub const SEDAN: [&'static str; 5] = [" ▄▄▄ ", "▐█▓█▌", "▐███▌", "▐█▓█▌", " ▀▀▀ "];

/// A truck from above.
pub const TRUCK: [&'static str; 7] = [
    " ▄▄▄ ",
    "▐█▓█▌",
    "▐███▌",
    "▐█░█▌",
    "▐█░█▌",
    "▐███▌",
    " ▀▀▀ ",
];

/// The colours of a car: its body, its windows, and the row and colour of its lights.
#[derive(Clone, Copy, Debug)]
pub struct Livery {
    pub body: Rgb,
    pub glass: Rgb,
    pub lights: Option<(usize, Rgb)>,
}

/// The style of the character `ch` in column `i` of row `r` of a car.
pub open spec fn car_style(l: Livery, r: int, i: int, ch: char) -> Style {
    let lit = l.lights is Some && (l.lights->0).0 == r && (i == 1 || i == 3) && (ch == '▄' || ch == '▀');
    if lit {
        Style { fg: Some((l.lights->0).1), bg: None, marks: 0 }
    } else if ch == '▐' || ch == '▌' {
        ink(14, 14, 18)
    } else if ch == '▓' {
        Style { fg: Some(l.glass), bg: None, marks: 0 }
    } else if ch == '░' {
        ink(150, 150, 162)
    } else {
        Style { fg: Some(l.body), bg: None, marks: 0 }
    }
}

/// The strokes of the first `n` characters of row `r` of a car.
pub open spec fn car_row(x: int, y: int, row: Seq<char>, l: Livery, r: int, n: int) -> Seq<Stroke>
    decreases n,
{
    if n <= 0 {
        Seq::empty()
    } else {
        let before = car_row(x, y, row, l, r, n - 1);
        let ch = row[n - 1];
        if ch == ' ' {
            before
        } else {
            before.push(Stroke { x: x + n - 1, y: y + r, ch, style: car_style(l, r, n - 1, ch) })
        }
    }
}

/// The strokes of the first `n` rows of a car.
pub open spec fn car_strokes(x: int, y: int, rows: Seq<&'static str>, l: Livery, n: int) -> Seq<Stroke>
    decreases n,
{
    if n <= 0 {
        Seq::empty()
    } else {
        car_strokes(x, y, rows, l, n - 1) + car_row(
            x,
            y,
            rows[n - 1]@,
            l,
            n - 1,
            rows[n - 1]@.len() as int,
        )
    }
}

/// Whether the characters of a row of a car can be painted in 64 bits.
pub open spec fn in_view(x: int, y: int, r: int, n: int) -> bool {
    n > 0 ==> modest(x) && modest(x + n) && modest(y) && modest(y + r)
}

/// Paints a car with its left upper corner at column `x` of row `y`.
pub fn draw_car(p: &mut Painter, x: i64, y: i64, rows: &[&'static str], l: Livery)
    requires
        forall|r: int| #![trigger rows@[r]]
            0 <= r < rows@.len() ==> in_view(x as int, y as int, r, rows@[r]@.len() as int),
    ensures
        final(p).drew(
            *old(p),
            car_strokes(x as int, y as int, rows@, l, rows@.len() as int),
        ),
        *final(final(p).buf) == *final(old(p).buf),
{
    let mut r: usize = 0;
    while r < rows.len()
        invariant
            r <= rows@.len(),
            forall|r: int| #![trigger rows@[r]]
                0 <= r < rows@.len() ==> in_view(x as int, y as int, r, rows@[r]@.len() as int),
            p.drew(*old(p), car_strokes(x as int, y as int, rows@, l, r as int)),
            *final(p.buf) == *final(old(p).buf),
        decreases rows@.len() - r,
    {
        let ghost mid = *p;
        assert(in_view(x as int, y as int, r as int, rows@[r as int]@.len() as int));
        draw_car_row(p, x, y, rows[r], l, r);
        proof {
            lemma_then(
                *p,
                mid,
                *old(p),
                car_strokes(x as int, y as int, rows@, l, r as int),
                car_row(x as int, y as int, rows@[r as int]@, l, r as int, rows@[r as int]@.len() as int),
            );
        }
        r = r + 1;
    }
}

fn draw_car_row(p: &mut Painter, x: i64, y: i64, row: &'static str, l: Livery, r: usize)
    requires
        in_view(x as int, y as int, r as int, row@.len() as int),
    ensures
        final(p).drew(*old(p), car_row(x as int, y as int, row@, l, r as int, row@.len() as int)),
        *final(final(p).buf) == *final(old(p).buf),
{
    let n: usize = row.unicode_len();
    let mut i: usize = 0;
    while i < n
        invariant
            i <= n == row@.len(),
            in_view(x as int, y as int, r as int, row@.len() as int),
            p.drew(*old(p), car_row(x as int, y as int, row@, l, r as int, i as int)),
            *final(p.buf) == *final(old(p).buf),
        decreases n - i,
    {
        let ch: char = row.get_char(i);
        if ch != ' ' {
            let mut style: Style = match ch {
                '▐' | '▌' => Style::fg(14, 14, 18),
                '▓' => Style::tint(l.glass),
                '░' => Style::fg(150, 150, 162),
                _ => Style::tint(l.body),
            };
            if let Some((lr, lc)) = l.lights {
                if r == lr && (i == 1 || i == 3) && (ch == '▄' || ch == '▀') {
                    style = Style::tint(lc);
                }
            }
            let ghost mid = *p;
            p.mark(x + i as i64, y + r as i64, ch, style);
            proof {
                lemma_then_one(
                    *p,
                    mid,
                    *old(p),
                    car_row(x as int, y as int, row@, l, r as int, i as int),
                    Stroke { x: x + i, y: y + r, ch, style },
                );
            }
        }
        i = i + 1;
    }
}

/// The strokes of one row of block letters, its shadow under it.
pub open spec fn big_row(x: int, y: int, row: Seq<char>, style: Style, shadow: Option<Style>) -> Seq<Stroke> {
    match shadow {
        Some(sh) => text_strokes(x + 1, y + 1, row, sh) + text_strokes(x, y, row, style),
        None => text_strokes(x, y, row, style),
    }
}

/// The strokes of a text in block letters, centred on column `cx`, from row `y` on.
pub open spec fn big_strokes(
    cx: int,
    y: int,
    rows: (Seq<char>, Seq<char>, Seq<char>),
    style: Style,
    shadow: Option<Style>,
) -> Seq<Stroke> {
    let x = cx - rows.0.len() as int / 2;
    big_row(x, y, rows.0, style, shadow) + big_row(x, y + 1, rows.1, style, shadow) + big_row(
        x,
        y + 2,
        rows.2,
        style,
        shadow,
    )
}

/// A word in block letters.
pub open spec fn word_rows(word: Seq<char>) -> (Seq<char>, Seq<char>, Seq<char>) {
    (word_row(word, 0), word_row(word, 1), word_row(word, 2))
}

/// Whether 32 bits hold the coordinates of a row of `n` characters and of its shadow.
pub open spec fn row_fits(x: int, y: int, n: int) -> bool {
    fits_32(x) && fits_32(x + n) && fits_32(y) && fits_32(y + 1)
}

fn draw_big_row(p: &mut Painter, x: i32, y: i32, row: &str, style: Style, shadow: Option<Style>)
    requires
        row_fits(x as int, y as int, row@.len() as int),
        x < i32::MAX,
    ensures
        final(p).drew(*old(p), big_row(x as int, y as int, row@, style, shadow)),
        *final(final(p).buf) == *final(old(p).buf),
{
    if let Some(sh) = shadow {
        p.put_str(x + 1, y + 1, row, sh);
        let ghost mid = *p;
        p.put_str(x, y, row, style);
        proof {
            lemma_then(
                *p,
                mid,
                *old(p),
                text_strokes(x + 1, y + 1, row@, sh),
                text_strokes(x as int, y as int, row@, style),
            );
        }
    } else {
        p.put_str(x, y, row, style);
    }
}

/// Paints a text in block letters, centred on column `cx`, from row `y` on.
pub fn draw_big(
    p: &mut Painter,
    cx: i32,
    y: i32,
    rows: &[String; 3],
    style: Style,
    shadow: Option<Style>,
)
    requires
        fits_32(rows[0]@.len() as int),
        cx - rows[0]@.len() as int / 2 < i32::MAX,
        forall|k: int| #![trigger rows[k]]
            0 <= k < 3 ==> row_fits(
                cx - rows[0]@.len() as int / 2,
                y + k,
                rows[k]@.len() as int,
            ),
    ensures
        final(p).drew(
            *old(p),
            big_strokes(cx as int, y as int, (rows[0]@, rows[1]@, rows[2]@), style, shadow),
        ),
        *final(final(p).buf) == *final(old(p).buf),
{
    let w: usize = rows[0].as_str().unicode_len();
    proof {
        let left = cx - rows[0]@.len() as int / 2;
        assert(row_fits(left, y + 0, rows[0]@.len() as int));
        assert(row_fits(left, y + 1, rows[1]@.len() as int));
        assert(row_fits(left, y + 2, rows[2]@.len() as int));
    }
    let x: i32 = cx - (w / 2) as i32;
    draw_big_row(p, x, y, rows[0].as_str(), style, shadow);
    let ghost one = *p;
    draw_big_row(p, x, y + 1, rows[1].as_str(), style, shadow);
    let ghost two = *p;
    draw_big_row(p, x, y + 2, rows[2].as_str(), style, shadow);
    proof {
        let a = big_row(x as int, y as int, rows[0]@, style, shadow);
        let b = big_row(x as int, y + 1, rows[1]@, style, shadow);
        let c = big_row(x as int, y + 2, rows[2]@, style, shadow);
        lemma_then(two, one, *old(p), a, b);
        lemma_then(*p, two, *old(p), a + b, c);
    }
}

} // verus!
