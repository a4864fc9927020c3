//! The world in a frame: the ground and everything on it.

use crate::difficulty::Difficulty;
use crate::entities::{all_short, captions, Caption, Car, FloatText, Particle, Pickup, Scenery, SceneryKind};
use crate::game::{Dash, Game, GameModel, State, SIGN_COUNT};
use crate::geometry::{geom, player_row, player_y, road, Area, Geom};
use crate::num::Num;
use crate::paint::{
    fits_32, lemma_painted_add, lemma_then, lemma_then_one, painted, painting_spares_other_cells, text_strokes, Cells, Painter,
    Stroke,
};
use crate::rounding::limited;
use crate::sprites::{car_row, car_strokes, car_style, draw_car, Livery, SEDAN, TRUCK};
use crate::style::{color, ink, rgb, Style, BOLD, DIM};
use crate::terrain::{draw_ground, ground_rows, ground_scrolls, Rush};
use crate::verge::{sign, sign_bytes, slogan, slogan_bytes};
use vstd::prelude::*;
use vstd::string::StrSliceExecFns;
use vstd::utf8::encode_utf8;

verus! {

/// A column and a row of the view.
#[derive(Clone, Copy, PartialEq, Eq, Structural, Debug)]
pub struct Spot {
    pub x: i32,
    pub y: i32,
}

/// The cell coordinate nearest to a position, as far as 32 bits go.
pub open spec fn cell(v: Num) -> int {
    limited(v.spec_round(), i32::MIN as int, i32::MAX as int)
}

/// The last world row from which on a view can show its rows: further on their numbers
/// overflow.
pub open spec fn last_row(view: Area) -> int {
    i64::MAX - (if view.height > 0 {
        view.height - 1
    } else {
        0
    })
}

/// The world rows that have scrolled past.
pub open spec fn rows_past(g: GameModel, view: Area) -> int {
    limited(g.dash.scroll.spec_floor(), i64::MIN as int, last_row(view))
}

/// The cell at a position on the road.
pub open spec fn spot(x: Num, y: Num) -> Spot {
    Spot { x: cell(x) as i32, y: cell(y) as i32 }
}

/// How often a bonus has blinked.
pub open spec fn beat_of(p: Pickup) -> int {
    limited(p.t.spec_times(Num::spec_whole(5)).spec_trunc(), i64::MIN as int, i64::MAX as int)
}

/// Whether a particle fades: less than two fifths of its life is left.
pub open spec fn fading(p: Particle) -> bool {
    if p.max.key == 0 {
        p.life.key < 0
    } else {
        p.life.spec_over(p.max).key < Num::spec_ratio(4, 10).key
    }
}

/// The first column of a floating text: it is centred by the bytes it takes.
pub open spec fn start_of(c: Caption, view: Area) -> int {
    cell(
        Num::spec_whole(road(view.width as int).rx as int).spec_plus(c.x).spec_minus(
            Num::spec_ratio(encode_utf8(c.text).len() as int, 2),
        ),
    )
}

/// The speed from which on the world rushes past: four fifths of the top speed.
pub open spec fn rush_from(d: Difficulty) -> int {
    match d {
        Difficulty::Chill => 128,
        Difficulty::Rush => 172,
        Difficulty::Mayhem => 212,
    }
}

/// How the ground is lit.
pub open spec fn rush_of(g: GameModel) -> Rush {
    Rush {
        fast: g.dash.speed.key > Num::spec_whole(rush_from(g.dash.diff)).key || g.dash.nitro_on,
        nitro: g.dash.nitro_on,
    }
}

/// The strokes of the upper and the lower edge of the first `n` columns of a billboard.
pub open spec fn board_edges(x: int, y: int, n: int) -> Seq<Stroke>
    decreases n,
{
    if n <= 0 {
        Seq::empty()
    } else {
        board_edges(x, y, n - 1).push(
            Stroke { x: x + n - 1, y, ch: '▄', style: ink(240, 190, 60) },
        ).push(Stroke { x: x + n - 1, y: y + 2, ch: '▀', style: ink(240, 190, 60) })
    }
}

/// The strokes of the first `n` characters of a slogan, blanks after its end.
pub open spec fn board_text(x: int, y: int, text: Seq<char>, n: int) -> Seq<Stroke>
    decreases n,
{
    if n <= 0 {
        Seq::empty()
    } else {
        board_text(x, y, text, n - 1).push(
            Stroke {
                x: x + n,
                y: y + 1,
                ch: if n - 1 < text.len() {
                    text[n - 1]
                } else {
                    ' '
                },
                style: Style { fg: Some(color(240, 240, 245)), bg: Some(color(24, 44, 96)), marks: 0 },
            },
        )
    }
}

/// The strokes of a billboard.
pub open spec fn board_strokes(x: int, y: int, i: int) -> Seq<Stroke> {
    let w = slogan_bytes(i) + 4;
    let frame = ink(240, 190, 60);
    let post = ink(90, 90, 96);
    (board_edges(x, y, w).push(Stroke { x, y: y + 1, ch: '█', style: frame }).push(
        Stroke { x: x + w - 1, y: y + 1, ch: '█', style: frame },
    ) + board_text(x, y, slogan(i), w - 2)).push(
        Stroke { x: x + 1, y: y + 3, ch: '█', style: post },
    ).push(Stroke { x: x + w - 2, y: y + 3, ch: '█', style: post })
}

/// The strokes of a thing beside the road.
pub open spec fn scenery_strokes(x: int, y: int, kind: SceneryKind) -> Seq<Stroke> {
    match kind {
        SceneryKind::Tree => text_strokes(x, y, " ▄█▄ "@, ink(52, 150, 64)) + text_strokes(
            x,
            y + 1,
            "▐███▌"@,
            ink(38, 120, 50),
        ) + text_strokes(x, y + 2, " ▀▄▀ "@, ink(30, 95, 42)),
        SceneryKind::Bush => text_strokes(x, y, "▄▓▄"@, ink(40, 110, 48)),
        SceneryKind::Rock => text_strokes(x, y, "▄▓▄"@, ink(115, 115, 122)) + text_strokes(
            x,
            y + 1,
            "▀▀▀"@,
            ink(85, 85, 92),
        ),
        SceneryKind::Sign(i) => board_strokes(x, y, i as int),
    }
}

/// The strokes of the first `n` things beside the road.
pub open spec fn all_scenery(things: Seq<Scenery>, n: int) -> Seq<Stroke>
    decreases n,
{
    if n <= 0 {
        Seq::empty()
    } else {
        all_scenery(things, n - 1) + scenery_strokes(
            things[n - 1].x as int,
            cell(things[n - 1].y),
            things[n - 1].kind,
        )
    }
}

/// The strokes of a bonus.
pub open spec fn pickup_strokes(at: Spot, beat: int) -> Seq<Stroke> {
    let x = at.x as int;
    let y = at.y as int;
    seq![
        Stroke {
            x,
            y,
            ch: if beat % 2 == 0 {
                '◆'
            } else {
                '◇'
            },
            style: Style { fg: Some(color(255, 205, 60)), bg: Some(color(60, 50, 15)), marks: BOLD },
        },
        Stroke { x: x - 1, y, ch: '·', style: ink(150, 120, 40) },
        Stroke { x: x + 1, y, ch: '·', style: ink(150, 120, 40) },
    ]
}

/// The strokes of the first `n` bonuses.
pub open spec fn all_pickups(pickups: Seq<Pickup>, n: int) -> Seq<Stroke>
    decreases n,
{
    if n <= 0 {
        Seq::empty()
    } else {
        all_pickups(pickups, n - 1) + pickup_strokes(
            spot(pickups[n - 1].x, pickups[n - 1].y),
            beat_of(pickups[n - 1]),
        )
    }
}

/// The colours of a car of the traffic, its tail lights on.
pub open spec fn traffic_livery(c: Car) -> Livery {
    Livery {
        body: c.color,
        glass: color(120, 170, 210),
        lights: Some(
            (
                if c.truck {
                    6usize
                } else {
                    4usize
                },
                color(255, 70, 55),
            ),
        ),
    }
}

/// The strokes of a car of the traffic.
pub open spec fn traffic_car(c: Car, g: Geom) -> Seq<Stroke> {
    if c.truck {
        car_strokes(g.rx + cell(c.x) - 2, cell(c.y), TRUCK@, traffic_livery(c), 7)
    } else {
        car_strokes(g.rx + cell(c.x) - 2, cell(c.y), SEDAN@, traffic_livery(c), 5)
    }
}

/// The strokes of the first `n` cars of the traffic.
pub open spec fn all_traffic(cars: Seq<Car>, g: Geom, n: int) -> Seq<Stroke>
    decreases n,
{
    if n <= 0 {
        Seq::empty()
    } else {
        all_traffic(cars, g, n - 1) + traffic_car(cars[n - 1], g)
    }
}

/// The colours of the player's car, or of its wreck.
pub open spec fn player_livery(state: State) -> Livery {
    if state is Crashing || state is GameOver {
        Livery { body: color(58, 55, 52), glass: color(82, 82, 86), lights: None }
    } else {
        Livery {
            body: color(255, 96, 60),
            glass: color(150, 210, 250),
            lights: Some((0usize, color(255, 240, 150))),
        }
    }
}

/// The stroke of a particle, dim towards its end.
pub open spec fn particle_stroke(p: Particle) -> Stroke {
    Stroke {
        x: cell(p.x),
        y: cell(p.y),
        ch: p.ch,
        style: Style {
            fg: Some(p.color),
            bg: None,
            marks: if fading(p) {
                DIM
            } else {
                0
            },
        },
    }
}

/// The strokes of the particles.
pub open spec fn all_particles(particles: Seq<Particle>) -> Seq<Stroke> {
    Seq::new(particles.len(), |i: int| particle_stroke(particles[i]))
}

/// The style of a floating text: bold, and dim towards its end.
pub open spec fn caption_style(c: Caption) -> Style {
    Style {
        fg: Some(c.color),
        bg: None,
        marks: if c.t.key > Num::spec_ratio(55, 100).key {
            3
        } else {
            BOLD
        },
    }
}

/// The strokes of the first `n` floating texts.
pub open spec fn all_floats(floats: Seq<Caption>, view: Area, n: int) -> Seq<Stroke>
    decreases n,
{
    if n <= 0 {
        Seq::empty()
    } else {
        all_floats(floats, view, n - 1) + text_strokes(
            start_of(floats[n - 1], view),
            cell(floats[n - 1].y),
            floats[n - 1].text,
            caption_style(floats[n - 1]),
        )
    }
}

/// The strokes of the player's car.
pub open spec fn player_strokes(g: GameModel, view: Area) -> Seq<Stroke> {
    car_strokes(
        road(view.width as int).rx + cell(g.dash.player_x) - 2,
        player_row(view),
        SEDAN@,
        player_livery(g.dash.state),
        5,
    )
}

/// The strokes of the whole world, from the ground up.
pub open spec fn world_strokes(g: GameModel, view: Area) -> Seq<Stroke> {
    ground_rows(view, rows_past(g, view), rush_of(g), view.height as int) + all_scenery(
        g.scenery,
        g.scenery.len() as int,
    ) + all_pickups(g.pickups, g.pickups.len() as int) + all_traffic(
        g.traffic,
        road(view.width as int),
        g.traffic.len() as int,
    ) + player_strokes(g, view) + all_particles(g.particles) + all_floats(
        g.floats,
        view,
        g.floats.len() as int,
    )
}

/// Paints a billboard.
fn draw_board(p: &mut Painter, x: i64, y: i64, i: usize)
    requires
        fits_32(x as int),
        fits_32(y as int),
        i < SIGN_COUNT,
    ensures
        final(p).drew(*old(p), board_strokes(x as int, y as int, i as int)),
        *final(final(p).buf) == *final(old(p).buf),
{
    let w: i64 = sign_bytes(i) as i64 + 4;
    let msg: &'static str = sign(i);
    let len: i64 = msg.unicode_len() as i64;
    let frame: Style = Style::fg(240, 190, 60);
    let letters: Style = Style {
        fg: Some(rgb(240, 240, 245)),
        bg: Some(rgb(24, 44, 96)),
        marks: 0,
    };
    let post: Style = Style::fg(90, 90, 96);
    proof {
        reveal_strlit("CHEZ REMY");
        reveal_strlit("GO GO GO!");
        reveal_strlit("BON APPÉTIT");
        reveal_strlit("NITRO TIME");
        reveal_strlit("RATATOUILLE!");
    }
    let mut k: i64 = 0;
    while k < w
        invariant
            0 <= k <= w <= 16,
            fits_32(x as int),
            fits_32(y as int),
            frame == ink(240, 190, 60),
            p.drew(*old(p), board_edges(x as int, y as int, k as int)),
            *final(p.buf) == *final(old(p).buf),
        decreases w - k,
    {
        let ghost done = board_edges(x as int, y as int, k as int);
        let ghost up = Stroke { x: x + k, y: y as int, ch: '▄', style: frame };
        let ghost down = Stroke { x: x + k, y: y + 2, ch: '▀', style: frame };
        let ghost one = *p;
        p.mark(x + k, y, '▄', frame);
        let ghost two = *p;
        p.mark(x + k, y + 2, '▀', frame);
        proof {
            lemma_then_one(two, one, *old(p), done, up);
            lemma_then_one(*p, two, *old(p), done.push(up), down);
        }
        k = k + 1;
    }
    let ghost edges = board_edges(x as int, y as int, w as int);
    let ghost left = Stroke { x: x as int, y: y + 1, ch: '█', style: frame };
    let ghost right = Stroke { x: x + w - 1, y: y + 1, ch: '█', style: frame };
    let ghost a = *p;
    p.mark(x, y + 1, '█', frame);
    let ghost b = *p;
    p.mark(x + w - 1, y + 1, '█', frame);
    let ghost framed = *p;
    let ghost outline = edges.push(left).push(right);
    proof {
        lemma_then_one(b, a, *old(p), edges, left);
        lemma_then_one(framed, b, *old(p), edges.push(left), right);
    }
    let mut j: i64 = 0;
    while j < w - 2
        invariant
            0 <= j <= w - 2,
            w <= 16,
            fits_32(x as int),
            fits_32(y as int),
            len == msg@.len(),
            letters == (Style {
                fg: Some(color(240, 240, 245)),
                bg: Some(color(24, 44, 96)),
                marks: 0,
            }),
            p.drew(framed, board_text(x as int, y as int, msg@, j as int)),
            *final(p.buf) == *final(framed.buf),
        decreases w - j,
    {
        let ch: char = if j < len {
            msg.get_char(j as usize)
        } else {
            ' '
        };
        let ghost one = *p;
        p.mark(x + 1 + j, y + 1, ch, letters);
        proof {
            lemma_then_one(
                *p,
                one,
                framed,
                board_text(x as int, y as int, msg@, j as int),
                Stroke { x: x + 1 + j, y: y + 1, ch, style: letters },
            );
        }
        j = j + 1;
    }
    let ghost lettered = *p;
    let ghost face = outline + board_text(x as int, y as int, msg@, w - 2);
    let ghost post_l = Stroke { x: x + 1, y: y + 3, ch: '█', style: post };
    let ghost post_r = Stroke { x: x + w - 2, y: y + 3, ch: '█', style: post };
    p.mark(x + 1, y + 3, '█', post);
    let ghost one = *p;
    p.mark(x + w - 2, y + 3, '█', post);
    proof {
        lemma_then(lettered, framed, *old(p), outline, board_text(x as int, y as int, msg@, w - 2));
        lemma_then_one(one, lettered, *old(p), face, post_l);
        lemma_then_one(*p, one, *old(p), face.push(post_l), post_r);
    }
}

/// Paints a thing beside the road.
fn draw_thing(p: &mut Painter, x: i64, y: i64, kind: SceneryKind)
    requires
        fits_32(x as int),
        fits_32(y as int),
        kind matches SceneryKind::Sign(n) ==> n < SIGN_COUNT,
    ensures
        final(p).drew(*old(p), scenery_strokes(x as int, y as int, kind)),
        *final(final(p).buf) == *final(old(p).buf),
{
    proof {
        reveal_strlit(" ▄█▄ ");
        reveal_strlit("▐███▌");
        reveal_strlit(" ▀▄▀ ");
        reveal_strlit("▄▓▄");
        reveal_strlit("▀▀▀");
    }
    match kind {
        SceneryKind::Tree => {
            let ghost a = text_strokes(x as int, y as int, " ▄█▄ "@, ink(52, 150, 64));
            let ghost b = text_strokes(x as int, y + 1, "▐███▌"@, ink(38, 120, 50));
            let ghost c = text_strokes(x as int, y + 2, " ▀▄▀ "@, ink(30, 95, 42));
            p.write(x, y, " ▄█▄ ", Style::fg(52, 150, 64));
            let ghost one = *p;
            p.write(x, y + 1, "▐███▌", Style::fg(38, 120, 50));
            let ghost two = *p;
            p.write(x, y + 2, " ▀▄▀ ", Style::fg(30, 95, 42));
            proof {
                lemma_then(two, one, *old(p), a, b);
                lemma_then(*p, two, *old(p), a + b, c);
            }
        },
        SceneryKind::Bush => {
            p.write(x, y, "▄▓▄", Style::fg(40, 110, 48));
        },
        SceneryKind::Rock => {
            let ghost a = text_strokes(x as int, y as int, "▄▓▄"@, ink(115, 115, 122));
            let ghost b = text_strokes(x as int, y + 1, "▀▀▀"@, ink(85, 85, 92));
            p.write(x, y, "▄▓▄", Style::fg(115, 115, 122));
            let ghost one = *p;
            p.write(x, y + 1, "▀▀▀", Style::fg(85, 85, 92));
            proof {
                lemma_then(*p, one, *old(p), a, b);
            }
        },
        SceneryKind::Sign(i) => {
            draw_board(p, x, y, i);
        },
    }
}

/// Paints what stands beside the road.
fn draw_scenery(p: &mut Painter, things: &Vec<Scenery>)
    requires
        forall|i: int| #![trigger things@[i]]
            0 <= i < things@.len() ==> (things@[i].kind matches SceneryKind::Sign(n) ==> n < SIGN_COUNT),
    ensures
        final(p).drew(*old(p), all_scenery(things@, things@.len() as int)),
        *final(final(p).buf) == *final(old(p).buf),
{
    let mut i: usize = 0;
    while i < things.len()
        invariant
            i <= things@.len(),
            forall|i: int| #![trigger things@[i]]
                0 <= i < things@.len() ==> (things@[i].kind matches SceneryKind::Sign(n) ==> n < SIGN_COUNT),
            p.drew(*old(p), all_scenery(things@, i as int)),
            *final(p.buf) == *final(old(p).buf),
        decreases things@.len() - i,
    {
        let s: Scenery = things[i];
        let y: i32 = s.y.nearest();
        let ghost mid = *p;
        draw_thing(p, s.x as i64, y as i64, s.kind);
        proof {
            lemma_then(
                *p,
                mid,
                *old(p),
                all_scenery(things@, i as int),
                scenery_strokes(s.x as int, y as int, s.kind),
            );
        }
        i = i + 1;
    }
}

/// Paints a bonus.
fn draw_pickup(p: &mut Painter, at: Spot, beat: i64)
    ensures
        final(p).drew(*old(p), pickup_strokes(at, beat as int)),
        *final(final(p).buf) == *final(old(p).buf),
{
    let gold: Style = Style {
        fg: Some(rgb(255, 205, 60)),
        bg: Some(rgb(60, 50, 15)),
        marks: BOLD,
    };
    let ch: char = if beat % 2 == 0 {
        '◆'
    } else {
        '◇'
    };
    let dot: Style = Style::fg(150, 120, 40);
    let ghost strokes = pickup_strokes(at, beat as int);
    p.mark(at.x as i64, at.y as i64, ch, gold);
    let ghost one = *p;
    p.mark(at.x as i64 - 1, at.y as i64, '·', dot);
    let ghost two = *p;
    p.mark(at.x as i64 + 1, at.y as i64, '·', dot);
    proof {
        lemma_then_one(two, one, *old(p), seq![strokes[0]], strokes[1]);
        lemma_then_one(*p, two, *old(p), seq![strokes[0]].push(strokes[1]), strokes[2]);
        assert(seq![strokes[0]].push(strokes[1]).push(strokes[2]) =~= strokes);
    }
}

/// Paints the bonuses.
fn draw_pickups(p: &mut Painter, pickups: &Vec<Pickup>)
    ensures
        final(p).drew(*old(p), all_pickups(pickups@, pickups@.len() as int)),
        *final(final(p).buf) == *final(old(p).buf),
{
    let mut i: usize = 0;
    while i < pickups.len()
        invariant
            i <= pickups@.len(),
            p.drew(*old(p), all_pickups(pickups@, i as int)),
            *final(p.buf) == *final(old(p).buf),
        decreases pickups@.len() - i,
    {
        let at: Spot = Spot { x: pickups[i].x.nearest(), y: pickups[i].y.nearest() };
        let beat: i64 = pickups[i].t.times(Num::whole(5)).cut_off();
        let ghost mid = *p;
        draw_pickup(p, at, beat);
        proof {
            lemma_then(
                *p,
                mid,
                *old(p),
                all_pickups(pickups@, i as int),
                pickup_strokes(at, beat as int),
            );
        }
        i = i + 1;
    }
}

/// The sprites are small.
proof fn lemma_sprite_sizes()
    ensures
        SEDAN@.len() == 5,
        TRUCK@.len() == 7,
        forall|r: int| #![trigger SEDAN@[r]] 0 <= r < 5 ==> SEDAN@[r]@.len() == 5,
        forall|r: int| #![trigger TRUCK@[r]] 0 <= r < 7 ==> TRUCK@[r]@.len() == 5,
{
    reveal_strlit(" ▄▄▄ ");
    reveal_strlit("▐█▓█▌");
    reveal_strlit("▐███▌");
    reveal_strlit("▐█░█▌");
    reveal_strlit(" ▀▀▀ ");
}

/// Paints the traffic.
fn draw_traffic(p: &mut Painter, cars: &Vec<Car>, g: &Geom)
    requires
        -100 <= g.rx <= 65535,
    ensures
        final(p).drew(*old(p), all_traffic(cars@, *g, cars@.len() as int)),
        *final(final(p).buf) == *final(old(p).buf),
{
    let mut i: usize = 0;
    while i < cars.len()
        invariant
            i <= cars@.len(),
            -100 <= g.rx <= 65535,
            p.drew(*old(p), all_traffic(cars@, *g, i as int)),
            *final(p.buf) == *final(old(p).buf),
        decreases cars@.len() - i,
    {
        let c: Car = cars[i];
        let x: i64 = g.rx as i64 + c.x.nearest() as i64 - 2;
        let y: i64 = c.y.nearest() as i64;
        let ghost mid = *p;
        proof {
            lemma_sprite_sizes();
        }
        if c.truck {
            let l: Livery = Livery {
                body: c.color,
                glass: rgb(120, 170, 210),
                lights: Some((6, rgb(255, 70, 55))),
            };
            draw_car(p, x, y, TRUCK.as_slice(), l);
        } else {
            let l: Livery = Livery {
                body: c.color,
                glass: rgb(120, 170, 210),
                lights: Some((4, rgb(255, 70, 55))),
            };
            draw_car(p, x, y, SEDAN.as_slice(), l);
        }
        proof {
            lemma_then(*p, mid, *old(p), all_traffic(cars@, *g, i as int), traffic_car(c, *g));
        }
        i = i + 1;
    }
}

/// Paints the player's car, or its wreck.
fn draw_player(p: &mut Painter, g: &Game, view: Area)
    ensures
        final(p).drew(*old(p), player_strokes(g@, view)),
        *final(final(p).buf) == *final(old(p).buf),
{
    let left: i64 = geom(view).rx as i64 + g.dash.player_x.nearest() as i64 - 2;
    let row: i64 = player_y(view) as i64;
    proof {
        lemma_sprite_sizes();
    }
    match g.dash.state {
        State::Crashing | State::GameOver => {
            let l: Livery = Livery { body: rgb(58, 55, 52), glass: rgb(82, 82, 86), lights: None };
            draw_car(p, left, row, SEDAN.as_slice(), l);
        },
        _ => {
            let l: Livery = Livery {
                body: rgb(255, 96, 60),
                glass: rgb(150, 210, 250),
                lights: Some((0, rgb(255, 240, 150))),
            };
            draw_car(p, left, row, SEDAN.as_slice(), l);
        },
    }
}

/// Paints the particles.
fn draw_particles(p: &mut Painter, particles: &Vec<Particle>)
    ensures
        final(p).drew(*old(p), all_particles(particles@)),
        *final(final(p).buf) == *final(old(p).buf),
{
    let ghost all = all_particles(particles@);
    let low: Num = Num::ratio(4, 10);
    let mut i: usize = 0;
    assert(all.take(0) =~= Seq::<Stroke>::empty());
    while i < particles.len()
        invariant
            i <= particles@.len() == all.len(),
            all == all_particles(particles@),
            low == Num::spec_ratio(4, 10),
            p.drew(*old(p), all.take(i as int)),
            *final(p.buf) == *final(old(p).buf),
        decreases particles@.len() - i,
    {
        let pt: Particle = particles[i];
        let fades: bool = if pt.max.key == 0 {
            pt.life.key < 0
        } else {
            pt.life.over(pt.max).lt(low)
        };
        let marks: u16 = if fades {
            DIM
        } else {
            0
        };
        let ghost mid = *p;
        p.put(
            pt.x.nearest(),
            pt.y.nearest(),
            pt.ch,
            Style { fg: Some(pt.color), bg: None, marks },
        );
        proof {
            lemma_then_one(*p, mid, *old(p), all.take(i as int), all[i as int]);
            assert(all.take(i as int).push(all[i as int]) =~= all.take(i + 1));
        }
        i = i + 1;
    }
    assert(all.take(i as int) =~= all);
}

/// A text takes four bytes for each character at most.
proof fn lemma_bytes(text: Seq<char>)
    ensures
        encode_utf8(text).len() <= 4 * text.len(),
    decreases text.len(),
{
    if text.len() > 0 {
        lemma_bytes(text.drop_first());
    }
}

/// Paints the floating texts.
fn draw_floats(p: &mut Painter, floats: &Vec<FloatText>, view: Area)
    requires
        all_short(captions(floats@)),
    ensures
        final(p).drew(*old(p), all_floats(captions(floats@), view, floats@.len() as int)),
        *final(final(p).buf) == *final(old(p).buf),
{
    let late: Num = Num::ratio(55, 100);
    let left: Num = Num::whole(geom(view).rx);
    let ghost seen = captions(floats@);
    let mut i: usize = 0;
    while i < floats.len()
        invariant
            i <= floats@.len(),
            seen == captions(floats@),
            all_short(seen),
            late == Num::spec_ratio(55, 100),
            left == Num::spec_whole(road(view.width as int).rx as int),
            p.drew(*old(p), all_floats(seen, view, i as int)),
            *final(p.buf) == *final(old(p).buf),
        decreases floats@.len() - i,
    {
        let f: &FloatText = &floats[i];
        assert(seen[i as int] == f@);
        proof {
            lemma_bytes(f.text@);
        }
        let bytes: usize = f.text.as_str().as_bytes().len();
        let x: i32 = left.plus(f.x).minus(Num::ratio(bytes as i32, 2)).nearest();
        let y: i32 = f.y.nearest();
        let marks: u16 = if late.lt(f.t) {
            3
        } else {
            BOLD
        };
        let ghost mid = *p;
        p.write(x as i64, y as i64, f.text.as_str(), Style { fg: Some(f.color), bg: None, marks });
        proof {
            lemma_then(
                *p,
                mid,
                *old(p),
                all_floats(seen, view, i as int),
                text_strokes(x as int, y as int, f.text@, caption_style(f@)),
            );
        }
        i = i + 1;
    }
}

/// Paints the world: the ground, what stands beside the road, the bonuses, the traffic,
/// the player's car, the particles and the floating texts, one over the other.
pub fn render_world(p: &mut Painter, g: &Game, view: Area)
    requires
        g@.wf(),
    ensures
        final(p).drew(*old(p), world_strokes(g@, view)),
        *final(final(p).buf) == *final(old(p).buf),
{
    let gm: Geom = geom(view);
    let from: i32 = match g.dash.diff {
        Difficulty::Chill => 128,
        Difficulty::Rush => 172,
        Difficulty::Mayhem => 212,
    };
    let rush: Rush = Rush {
        fast: Num::whole(from).lt(g.dash.speed) || g.dash.nitro_on,
        nitro: g.dash.nitro_on,
    };
    let ghost s1 = ground_rows(view, rows_past(g@, view), rush_of(g@), view.height as int);
    let ghost s2 = all_scenery(g@.scenery, g@.scenery.len() as int);
    let ghost s3 = all_pickups(g@.pickups, g@.pickups.len() as int);
    let ghost s4 = all_traffic(g@.traffic, gm, g@.traffic.len() as int);
    let ghost s5 = player_strokes(g@, view);
    let ghost s6 = all_particles(g@.particles);
    let ghost s7 = all_floats(g@.floats, view, g@.floats.len() as int);
    let last: i64 = if view.height > 0 {
        i64::MAX - (view.height as i64 - 1)
    } else {
        i64::MAX
    };
    let past: i64 = g.dash.scroll.floored();
    let row: i64 = if past > last {
        last
    } else {
        past
    };
    draw_ground(p, view, row, rush);
    let ghost p1 = *p;
    draw_scenery(p, &g.scenery);
    let ghost p2 = *p;
    draw_pickups(p, &g.pickups);
    let ghost p3 = *p;
    draw_traffic(p, &g.traffic, &gm);
    let ghost p4 = *p;
    draw_player(p, g, view);
    let ghost p5 = *p;
    draw_particles(p, &g.particles);
    let ghost p6 = *p;
    draw_floats(p, &g.floats, view);
    proof {
        lemma_then(p2, p1, *old(p), s1, s2);
        lemma_then(p3, p2, *old(p), s1 + s2, s3);
        lemma_then(p4, p3, *old(p), s1 + s2 + s3, s4);
        lemma_then(p5, p4, *old(p), s1 + s2 + s3 + s4, s5);
        lemma_then(p6, p5, *old(p), s1 + s2 + s3 + s4 + s5, s6);
        lemma_then(*p, p6, *old(p), s1 + s2 + s3 + s4 + s5 + s6, s7);
    }
}

/// Whether a column and a row of the view are under the player's car.
pub open spec fn under_player(g: GameModel, view: Area, x: int, y: int) -> bool {
    let left = road(view.width as int).rx + cell(g.dash.player_x) - 2;
    left <= x < left + 5 && player_row(view) <= y < player_row(view) + 5
}

/// Whether all strokes are in the columns from `x` on before `end` of row `y`.
spec fn level(strokes: Seq<Stroke>, x: int, end: int, y: int) -> bool {
    forall|i: int| #![trigger strokes[i]] 0 <= i < strokes.len() ==> x <= strokes[i].x < end && strokes[i].y == y
}

proof fn lemma_level_push(strokes: Seq<Stroke>, s: Stroke, x: int, end: int, y: int)
    requires
        level(strokes, x, end - 1, y),
        s.x == end - 1,
        x <= s.x,
        s.y == y,
    ensures
        level(strokes.push(s), x, end, y),
        level(strokes, x, end, y),
{
}

/// The character at a place of a text.
spec fn char_at(text: Seq<char>, i: int) -> char {
    text[i]
}

/// A row of a car stays within its columns.
proof fn lemma_car_row_box(x: int, y: int, row: Seq<char>, l: Livery, r: int, n: int)
    ensures
        level(car_row(x, y, row, l, r, n), x, x + n, y + r),
    decreases n,
{
    if n > 0 {
        let ch = char_at(row, n - 1);
        let before = car_row(x, y, row, l, r, n - 1);
        lemma_car_row_box(x, y, row, l, r, n - 1);
        lemma_level_push(
            before,
            Stroke { x: x + n - 1, y: y + r, ch, style: car_style(l, r, n - 1, ch) },
            x,
            x + n,
            y + r,
        );
    }
}

/// A car stays within its box.
proof fn lemma_car_box(x: int, y: int, rows: Seq<&'static str>, l: Livery, n: int, w: int)
    requires
        0 <= n <= rows.len(),
        forall|r: int| #![trigger rows[r]] 0 <= r < rows.len() ==> rows[r]@.len() <= w,
    ensures
        forall|i: int| #![trigger car_strokes(x, y, rows, l, n)[i]]
            0 <= i < car_strokes(x, y, rows, l, n).len() ==> x <= car_strokes(x, y, rows, l, n)[i].x < x + w && y
                <= car_strokes(x, y, rows, l, n)[i].y < y + n,
    decreases n,
{
    if n > 0 {
        lemma_car_box(x, y, rows, l, n - 1, w);
        lemma_car_row_box(x, y, rows[n - 1]@, l, n - 1, rows[n - 1]@.len() as int);
    }
}

/// What is painted of an empty world beside the player's car is the ground.
proof fn lemma_empty_world(g: GameModel, cells: Cells, ox: int, oy: int, view: Area, at: (u16, u16))
    requires
        g.scenery.len() == 0,
        g.pickups.len() == 0,
        g.traffic.len() == 0,
        g.particles.len() == 0,
        g.floats.len() == 0,
        !under_player(g, view, at.0 - ox, at.1 - oy),
    ensures
        painted(cells, ox, oy, world_strokes(g, view))[at] == painted(
            cells,
            ox,
            oy,
            ground_rows(view, rows_past(g, view), rush_of(g), view.height as int),
        )[at],
{
    let ground = ground_rows(view, rows_past(g, view), rush_of(g), view.height as int);
    let car = player_strokes(g, view);
    assert(world_strokes(g, view) =~= ground + car);
    lemma_painted_add(cells, ox, oy, ground, car);
    lemma_sprite_sizes();
    lemma_car_box(
        road(view.width as int).rx + cell(g.dash.player_x) - 2,
        player_row(view),
        SEDAN@,
        player_livery(g.dash.state),
        5,
        5,
    );
    painting_spares_other_cells(painted(cells, ox, oy, ground), ox, oy, car, at);
}

/// The world scrolls as one sheet: of two games that differ in nothing but that one has
/// scrolled a row further, with nothing on the road or beside it, that one shows in each
/// cell what the other shows in the one below, but for the cells under the player's car.
pub proof fn the_world_scrolls_as_one_sheet(
    one: GameModel,
    next: GameModel,
    cells: Cells,
    ox: int,
    oy: int,
    view: Area,
    at: (u16, u16),
    low: (u16, u16),
)
    requires
        next == (GameModel { dash: Dash { scroll: next.dash.scroll, ..one.dash }, ..one }),
        rows_past(next, view) == rows_past(one, view) + 1,
        one.scenery.len() == 0,
        one.pickups.len() == 0,
        one.traffic.len() == 0,
        one.particles.len() == 0,
        one.floats.len() == 0,
        cells.contains_key(at),
        cells.contains_key(low),
        cells[at] == cells[low],
        low.0 == at.0,
        low.1 == at.1 + 1,
        0 <= at.1 - oy,
        low.1 - oy < view.height,
        !under_player(one, view, at.0 - ox, at.1 - oy),
        !under_player(one, view, low.0 - ox, low.1 - oy),
    ensures
        painted(cells, ox, oy, world_strokes(next, view))[at] == painted(
            cells,
            ox,
            oy,
            world_strokes(one, view),
        )[low],
{
    lemma_empty_world(one, cells, ox, oy, view, low);
    lemma_empty_world(next, cells, ox, oy, view, at);
    ground_scrolls(cells, ox, oy, view, rows_past(one, view), rush_of(one), at, low);
}

} // verus!
