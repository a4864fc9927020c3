//! Frames against the same frames set with the widgets of ratatui.

use rat_racer::angles::Tremor;
use rat_racer::difficulty::Difficulty;
use rat_racer::entities::{Car, FloatText, Particle, Pickup, Scenery, SceneryKind};
use rat_racer::frame::{draw, shake};
use rat_racer::game::{Game, State};
use rat_racer::geometry::{geom, Area};
use rat_racer::hud::{blink, draw_hud, score_digits, speed_color};
use rat_racer::letters::{big_text, glyph};
use rat_racer::num::Num;
use rat_racer::paint::Painter;
use rat_racer::panels::{checker_line, quip};
use rat_racer::style::Rgb;
use rat_racer::terrain::grass_char;
use rat_racer::world::render_world;
use ratatui::buffer::Buffer;
use ratatui::layout::{Alignment, Constraint, Layout, Position, Rect};
use ratatui::style::{Color, Modifier, Style};
use ratatui::text::{Line, Span};
use ratatui::widgets::{Block, BorderType, Clear, Paragraph, Widget};

fn num(f: f64) -> Num {
    Num::from_bits(f.to_bits())
}

fn val(n: Num) -> f64 {
    f64::from_bits(n.to_bits())
}

fn color(c: Rgb) -> Color {
    Color::Rgb(c.r, c.g, c.b)
}

fn ink(r: u8, g: u8, b: u8) -> Style {
    Style::default().fg(Color::Rgb(r, g, b))
}

fn bold(r: u8, g: u8, b: u8) -> Style {
    ink(r, g, b).add_modifier(Modifier::BOLD)
}

fn tremor(g: &Game) -> Tremor {
    let time = val(g.dash.time);
    let (across, along) = g.tremor();
    assert_eq!((val(across), val(along)), (time * 87.0, time * 71.0));
    Tremor { sine: num(val(across).sin()), cosine: num(val(along).cos()) }
}

/// Puts characters one by one.
struct Pen<'a> {
    buf: &'a mut Buffer,
    ox: i32,
    oy: i32,
}

impl<'a> Pen<'a> {
    fn put(&mut self, x: i32, y: i32, ch: char, style: Style) {
        let (px, py) = (x + self.ox, y + self.oy);
        if px < 0 || py < 0 || px > 65535 || py > 65535 {
            return;
        }
        if let Some(cell) = self.buf.cell_mut(Position { x: px as u16, y: py as u16 }) {
            cell.set_char(ch);
            cell.set_style(style);
        }
    }

    fn put_str(&mut self, x: i32, y: i32, s: &str, style: Style) {
        for (i, ch) in s.chars().enumerate() {
            if ch != ' ' {
                self.put(x + i as i32, y, ch, style);
            }
        }
    }

    fn car(&mut self, x: i32, y: i32, rows: &[&str], body: Color, glass: Color, lights: Option<(usize, Color)>) {
        for (r, row) in rows.iter().enumerate() {
            for (i, ch) in row.chars().enumerate() {
                if ch == ' ' {
                    continue;
                }
                let mut st = match ch {
                    '▐' | '▌' => ink(14, 14, 18),
                    '▓' => Style::default().fg(glass),
                    '░' => ink(150, 150, 162),
                    _ => Style::default().fg(body),
                };
                if let Some((lr, lc)) = lights {
                    if r == lr && (i == 1 || i == 3) && (ch == '▄' || ch == '▀') {
                        st = Style::default().fg(lc);
                    }
                }
                self.put(x + i as i32, y + r as i32, ch, st);
            }
        }
    }

    fn big(&mut self, cx: i32, y: i32, rows: &[String; 3], style: Style, shadow: Style) {
        let x = cx - rows[0].chars().count() as i32 / 2;
        for (i, row) in rows.iter().enumerate() {
            self.put_str(x + 1, y + i as i32 + 1, row, shadow);
            self.put_str(x, y + i as i32, row, style);
        }
    }
}

const SEDAN: [&str; 5] = [" ▄▄▄ ", "▐█▓█▌", "▐███▌", "▐█▓█▌", " ▀▀▀ "];
const TRUCK: [&str; 7] = [" ▄▄▄ ", "▐█▓█▌", "▐███▌", "▐█░█▌", "▐█░█▌", "▐███▌", " ▀▀▀ "];
const SIGNS: [&str; 5] = ["CHEZ REMY", "GO GO GO!", "BON APPÉTIT", "NITRO TIME", "RATATOUILLE!"];

fn hash(x: i32, wy: i64) -> u32 {
    let mut h = (x as i64).wrapping_mul(374_761_393) ^ wy.wrapping_mul(668_265_263);
    h = (h ^ (h >> 13)).wrapping_mul(1_274_126_177);
    ((h ^ (h >> 16)) & 0x7fff_ffff) as u32
}

fn world(p: &mut Pen, g: &Game, view: Rect) {
    let lane_w = ((((view.width as i32) - 8) / 4) - 1).clamp(4, 8);
    let road_w = lane_w * 4;
    let rx = ((view.width as i32) - (road_w + 4)) / 2 + 2;
    let scroll = val(g.dash.scroll).floor() as i64;
    let fast = val(g.dash.speed) > g.dash.diff.max_speed() as f64 * 0.8 || g.dash.nitro_on;
    for yi in 0..view.height as i32 {
        let wy = scroll + yi as i64;
        let stripe = ((wy / 5) % 2 + 2) % 2 == 0;
        let grass = if stripe { Color::Rgb(14, 40, 22) } else { Color::Rgb(19, 52, 28) };
        for xi in 0..view.width as i32 {
            if xi < rx - 2 || xi >= rx + road_w + 2 {
                let mut ch = match hash(xi, wy) % 29 {
                    0 => '\'',
                    1 => '.',
                    2 => ',',
                    3 => '`',
                    _ => ' ',
                };
                let mut fg = Color::Rgb(46, 92, 48);
                if fast && hash(xi * 7 + 3, wy) % 23 == 0 {
                    ch = '│';
                    fg = Color::Rgb(150, 235, 165);
                }
                p.put(xi, yi, ch, Style::default().fg(fg).bg(grass));
            } else if xi < rx || xi >= rx + road_w {
                let c = if ((wy / 2) % 2 + 2) % 2 == 0 {
                    Color::Rgb(205, 60, 55)
                } else {
                    Color::Rgb(235, 235, 235)
                };
                p.put(xi, yi, '█', Style::default().fg(c).bg(c));
            } else if xi == rx || xi == rx + road_w - 1 {
                p.put(xi, yi, ' ', Style::default().bg(Color::Rgb(235, 235, 240)));
            } else {
                let bg = if hash(xi, wy) % 41 == 0 { Color::Rgb(27, 27, 33) } else { Color::Rgb(33, 33, 40) };
                if g.dash.nitro_on && hash(xi * 13 + 5, wy) % 11 == 0 {
                    p.put(xi, yi, '╎', ink(120, 210, 255).bg(bg));
                } else {
                    p.put(xi, yi, ' ', Style::default().bg(bg));
                }
            }
        }
        for i in 1..4 {
            if ((wy % 4) + 4) % 4 < 2 {
                p.put(rx + lane_w * i, yi, ' ', Style::default().bg(Color::Rgb(215, 215, 225)));
            }
        }
    }
    for s in &g.scenery {
        let y = val(s.y).round() as i32;
        match s.kind {
            SceneryKind::Tree => {
                p.put_str(s.x, y, " ▄█▄ ", ink(52, 150, 64));
                p.put_str(s.x, y + 1, "▐███▌", ink(38, 120, 50));
                p.put_str(s.x, y + 2, " ▀▄▀ ", ink(30, 95, 42));
            }
            SceneryKind::Bush => p.put_str(s.x, y, "▄▓▄", ink(40, 110, 48)),
            SceneryKind::Rock => {
                p.put_str(s.x, y, "▄▓▄", ink(115, 115, 122));
                p.put_str(s.x, y + 1, "▀▀▀", ink(85, 85, 92));
            }
            SceneryKind::Sign(si) => {
                let msg = SIGNS[si];
                let bw = msg.len() as i32 + 4;
                let yellow = ink(240, 190, 60);
                for i in 0..bw {
                    p.put(s.x + i, y, '▄', yellow);
                    p.put(s.x + i, y + 2, '▀', yellow);
                }
                p.put(s.x, y + 1, '█', yellow);
                p.put(s.x + bw - 1, y + 1, '█', yellow);
                for i in 0..bw - 2 {
                    let ch = msg.chars().nth(i as usize).unwrap_or(' ');
                    p.put(s.x + 1 + i, y + 1, ch, ink(240, 240, 245).bg(Color::Rgb(24, 44, 96)));
                }
                p.put(s.x + 1, y + 3, '█', ink(90, 90, 96));
                p.put(s.x + bw - 2, y + 3, '█', ink(90, 90, 96));
            }
        }
    }
    for pk in &g.pickups {
        let (x, y) = (val(pk.x).round() as i32, val(pk.y).round() as i32);
        let solid = (val(pk.t) * 5.0) as i64 % 2 == 0;
        let st = bold(255, 205, 60).bg(Color::Rgb(60, 50, 15));
        p.put(x, y, if solid { '◆' } else { '◇' }, st);
        p.put(x - 1, y, '·', ink(150, 120, 40));
        p.put(x + 1, y, '·', ink(150, 120, 40));
    }
    for c in &g.traffic {
        let (x, y) = (rx + val(c.x).round() as i32 - 2, val(c.y).round() as i32);
        let glass = Color::Rgb(120, 170, 210);
        let red = Color::Rgb(255, 70, 55);
        if c.truck {
            p.car(x, y, &TRUCK, color(c.color), glass, Some((6, red)));
        } else {
            p.car(x, y, &SEDAN, color(c.color), glass, Some((4, red)));
        }
    }
    let (px, py) = (rx + val(g.dash.player_x).round() as i32 - 2, view.height as i32 - 8);
    match g.dash.state {
        State::Crashing | State::GameOver => {
            p.car(px, py, &SEDAN, Color::Rgb(58, 55, 52), Color::Rgb(82, 82, 86), None)
        }
        _ => p.car(
            px,
            py,
            &SEDAN,
            Color::Rgb(255, 96, 60),
            Color::Rgb(150, 210, 250),
            Some((0, Color::Rgb(255, 240, 150))),
        ),
    }
    for pt in &g.particles {
        let mut st = Style::default().fg(color(pt.color));
        if val(pt.life) / val(pt.max) < 0.4 {
            st = st.add_modifier(Modifier::DIM);
        }
        p.put(val(pt.x).round() as i32, val(pt.y).round() as i32, pt.ch, st);
    }
    for ft in &g.floats {
        let mut st = Style::default().fg(color(ft.color)).add_modifier(Modifier::BOLD);
        if val(ft.t) > 0.55 {
            st = st.add_modifier(Modifier::DIM);
        }
        let x = (rx as f64 + val(ft.x) - ft.text.len() as f64 / 2.0).round() as i32;
        p.put_str(x, val(ft.y).round() as i32, &ft.text, st);
    }
}

fn blinks(t: f64, hz: f64) -> bool {
    (t * hz) % 1.0 < 0.62
}

fn hue(frac: f64) -> Color {
    if frac < 0.55 {
        Color::Rgb(90, 230, 120)
    } else if frac < 0.85 {
        Color::Rgb(255, 210, 80)
    } else {
        Color::Rgb(255, 90, 70)
    }
}

fn bars(frac: f64, n: usize, on: Color) -> Vec<Span<'static>> {
    let filled = (frac.clamp(0.0, 1.0) * n as f64).round() as usize;
    vec![
        Span::styled("█".repeat(filled), Style::default().fg(on)),
        Span::styled("░".repeat(n - filled), ink(58, 58, 68)),
    ]
}

fn hud(g: &Game, area: Rect, buf: &mut Buffer) {
    let block = Block::bordered()
        .border_type(BorderType::Plain)
        .border_style(ink(64, 64, 76))
        .style(Style::default().bg(Color::Rgb(12, 12, 16)));
    let inner = block.inner(area);
    block.render(area, buf);
    let lbl = ink(118, 118, 134);
    let speed = val(g.dash.speed);
    let frac = speed / g.dash.diff.max_speed() as f64;
    let mut spans: Vec<Span> = vec![Span::styled(" SCORE ", lbl)];
    spans.push(Span::styled(
        format!("{:06}", (val(g.dash.score) as u64).min(999_999)),
        bold(245, 245, 250),
    ));
    spans.push(Span::styled("   HI ", lbl));
    spans.push(Span::styled(format!("{:06}", g.hi[g.dash.diff.index()]), bold(255, 205, 70)));
    spans.push(Span::styled("   SPD ", lbl));
    spans.extend(bars(frac, 8, hue(frac)));
    spans.push(Span::styled(
        format!(" {:>3.0} km/h", speed),
        Style::default().fg(hue(frac)).add_modifier(Modifier::BOLD),
    ));
    spans.push(Span::styled("   NITRO ", lbl));
    spans.extend(bars(val(g.dash.nitro), 6, Color::Rgb(110, 225, 255)));
    if g.dash.nitro_on && blinks(val(g.dash.time), 4.0) {
        spans.push(Span::styled(" »»", bold(140, 235, 255)));
    }
    if g.dash.combo > 1 {
        spans.push(Span::styled(format!("   COMBO x{}", g.dash.combo), bold(255, 120, 220)));
    }
    spans.push(Span::styled("   DIST ", lbl));
    spans.push(Span::styled(format!("{:.2} km", val(g.dash.distance) / 1000.0), ink(190, 190, 200)));
    Paragraph::new(Line::from(spans)).render(inner, buf);
}

fn footer(g: &Game, area: Rect, buf: &mut Buffer) {
    let name = if g.dash.state == State::Menu { g.dash.sel.name() } else { g.dash.diff.name() };
    let left = " ←→ steer · ↑ gas · ↓ brake · SPACE nitro · P pause · M snd · Q quit ";
    let right = format!(" {} · SND {} · v1.0 ", name, if g.dash.sound { "ON" } else { "OFF" });
    let pad = area
        .width
        .saturating_sub(left.chars().count() as u16 + right.chars().count() as u16) as usize;
    let line = Line::from(vec![
        Span::styled(left, ink(105, 105, 120)),
        Span::raw(" ".repeat(pad)),
        Span::styled(right, ink(170, 150, 90)),
    ]);
    Paragraph::new(line).style(Style::default().bg(Color::Rgb(12, 12, 16))).render(area, buf);
}

fn centred(w: u16, h: u16, area: Rect) -> Rect {
    Rect::new(
        area.x + area.width.saturating_sub(w) / 2,
        area.y + area.height.saturating_sub(h) / 2,
        w.min(area.width),
        h.min(area.height),
    )
}

fn squares(n: usize) -> Line<'static> {
    let spans: Vec<Span> = (0..n)
        .map(|i| Span::styled("▚", if i % 2 == 0 { ink(235, 235, 240) } else { ink(70, 70, 78) }))
        .collect();
    Line::from(spans)
}

fn panel(border: Color) -> Block<'static> {
    Block::bordered()
        .border_type(BorderType::Double)
        .border_style(Style::default().fg(border))
        .style(Style::default().bg(Color::Rgb(10, 10, 14)))
}

fn titled(word: &str, style: Style, rect: Rect) -> Vec<Line<'static>> {
    let n = rect.width.saturating_sub(4) as usize;
    let mut lines = vec![squares(n)];
    for row in big_text(word) {
        lines.push(Line::from(Span::styled(row, style)));
    }
    lines.push(squares(n));
    lines.push(Line::from(""));
    lines
}

fn show(lines: Vec<Line>, border: Color, rect: Rect, buf: &mut Buffer) {
    Clear.render(rect, buf);
    panel(border).render(rect, buf);
    Paragraph::new(lines)
        .alignment(Alignment::Center)
        .render(centred(rect.width - 2, rect.height - 2, rect), buf);
}

fn menu(g: &Game, area: Rect, buf: &mut Buffer) {
    let rect = centred(62, 22, area);
    let grey = ink(110, 110, 125);
    let time = val(g.dash.time);
    let mut lines = titled("RAT RACER", bold(255, 204, 60), rect);
    lines.push(Line::from(Span::styled(
        "rémy the rat has a lead foot. keep up.",
        ink(150, 150, 165).add_modifier(Modifier::ITALIC),
    )));
    let frames = ["<:3)~~~~", "<:3)~~~", "<:3)~~~~~~", "<:3) ~~~"];
    lines.push(Line::from(vec![
        Span::styled(frames[(time * 7.0) as usize % 4], bold(240, 240, 245)),
        Span::styled("   « the driver »", grey),
    ]));
    lines.push(Line::from(""));
    lines.push(Line::from(Span::styled("— INTENSITY —", grey)));
    let mut choices: Vec<Span> = Vec::new();
    for (i, d) in Difficulty::ALL.iter().enumerate() {
        if *d == g.dash.sel {
            choices.push(Span::styled(format!("▶ [{}] {} ", i + 1, d.name()), bold(255, 214, 80)));
        } else {
            choices.push(Span::styled(format!("  [{}] {} ", i + 1, d.name()), grey));
        }
        choices.push(Span::raw("  "));
    }
    lines.push(Line::from(choices));
    lines.push(Line::from(Span::styled(g.dash.sel.blurb(), ink(110, 200, 220))));
    lines.push(Line::from(""));
    let key = bold(240, 240, 245);
    lines.push(Line::from(vec![
        Span::styled("←→", key),
        Span::styled(" steer   ", grey),
        Span::styled("↑", key),
        Span::styled(" gas   ", grey),
        Span::styled("↓", key),
        Span::styled(" brake   ", grey),
        Span::styled("SPACE", key),
        Span::styled(" nitro   ", grey),
        Span::styled("P", key),
        Span::styled(" pause", grey),
    ]));
    lines.push(Line::from(""));
    let prompt = if blinks(time, 1.4) { bold(130, 255, 150) } else { ink(60, 110, 70) };
    lines.push(Line::from(Span::styled("▶ PRESS ENTER TO IGNITE ◀", prompt)));
    lines.push(Line::from(""));
    lines.push(Line::from(Span::styled(
        format!("best · chill {:06} · rush {:06} · mayhem {:06}", g.hi[0], g.hi[1], g.hi[2]),
        ink(160, 140, 80),
    )));
    lines.push(Line::from(Span::styled(
        format!("M sound: {}      Q quit", if g.dash.sound { "ON" } else { "OFF" }),
        ink(90, 90, 105),
    )));
    show(lines, Color::Rgb(170, 130, 40), rect, buf);
}

fn gameover(g: &Game, area: Rect, buf: &mut Buffer) {
    let rect = centred(54, 19, area);
    let lbl = ink(118, 118, 134);
    let value = bold(245, 245, 250);
    let mut lines = titled("WRECKED!", bold(255, 80, 65), rect);
    lines.push(Line::from(Span::styled(
        quip(g.dash.quip),
        ink(150, 150, 165).add_modifier(Modifier::ITALIC),
    )));
    lines.push(Line::from(""));
    let mut score = vec![
        Span::styled("SCORE      ", lbl),
        Span::styled(format!("{:06}", val(g.dash.score) as u64), value),
    ];
    if g.dash.new_best && blinks(val(g.dash.time), 3.0) {
        score.push(Span::styled("  ★ NEW BEST!", bold(255, 214, 80)));
    }
    lines.push(Line::from(score));
    for (label, text) in [
        ("DISTANCE   ", format!("{:.2} km", val(g.dash.distance) / 1000.0)),
        ("TOP SPEED  ", format!("{:.0} km/h", val(g.dash.top_speed))),
        ("NEAR MISS  ", format!("{}", g.dash.near_misses)),
        ("BEST COMBO ", format!("x{}", g.dash.best_combo)),
    ] {
        lines.push(Line::from(vec![Span::styled(label, lbl), Span::styled(text, value)]));
    }
    lines.push(Line::from(""));
    lines.push(Line::from(Span::styled("ENTER retry · ESC menu", ink(110, 110, 125))));
    show(lines, Color::Rgb(160, 60, 50), rect, buf);
}

fn pause(area: Rect, buf: &mut Buffer) {
    let rect = centred(42, 9, area);
    Clear.render(rect, buf);
    panel(Color::Rgb(120, 120, 140)).render(rect, buf);
    let inner = centred(rect.width - 2, rect.height - 2, rect);
    let mut p = Pen { buf, ox: inner.x as i32, oy: inner.y as i32 };
    let middle = inner.width as i32 / 2;
    p.big(middle, 1, &big_text("PAUSED"), bold(255, 214, 80), ink(40, 35, 10));
    p.put_str(middle - 8, 5, "P resume · Q quit", ink(110, 110, 125));
}

fn expected(g: &Game, buf: &mut Buffer) {
    let area = buf.area;
    if area.width < 46 || area.height < 17 {
        Paragraph::new("terminal too small — need at least 46×17")
            .style(ink(255, 170, 90))
            .render(centred(40, 1, area), buf);
        return;
    }
    let chunks =
        Layout::vertical([Constraint::Length(3), Constraint::Min(0), Constraint::Length(1)]).split(area);
    let view = chunks[1];
    let time = val(g.dash.time);
    let tremor = val(g.dash.shake);
    let (sx, sy) = if tremor > 0.01 {
        (
            ((time * 87.0).sin() * tremor * 2.4).round() as i32,
            ((time * 71.0).cos() * tremor * 1.6).round() as i32,
        )
    } else {
        (0, 0)
    };
    let mut p = Pen { buf, ox: view.x as i32 + sx, oy: view.y as i32 + sy };
    world(&mut p, g, view);
    hud(g, chunks[0], buf);
    footer(g, chunks[2], buf);
    let (middle, half) = (view.width as i32 / 2, view.height as i32 / 2);
    match g.dash.state {
        State::Menu => menu(g, area, buf),
        State::GameOver => gameover(g, area, buf),
        State::Paused => pause(area, buf),
        State::Countdown => {
            let n = (val(g.dash.countdown).ceil() as i32).clamp(1, 3);
            let mut p = Pen { buf, ox: view.x as i32, oy: view.y as i32 };
            p.big(middle, half - 4, &big_text(&n.to_string()), bold(255, 214, 80), ink(70, 30, 10));
            let hint = "get ready — steer with ← →";
            p.put_str(middle - hint.chars().count() as i32 / 2, half + 1, hint, ink(120, 120, 135));
        }
        State::Running if val(g.dash.run_t) < 0.9 => {
            let mut p = Pen { buf, ox: view.x as i32, oy: view.y as i32 };
            let mut st = bold(130, 255, 150);
            if val(g.dash.run_t) > 0.5 {
                st = st.add_modifier(Modifier::DIM);
            }
            p.big(middle, half - 3, &big_text("GO!"), st, ink(15, 50, 25));
        }
        _ => {}
    }
}

struct Chance {
    state: u64,
}

impl Chance {
    fn next(&mut self) -> u64 {
        self.state ^= self.state << 13;
        self.state ^= self.state >> 7;
        self.state ^= self.state << 17;
        self.state
    }

    fn range(&mut self, lo: f64, hi: f64) -> f64 {
        lo + (hi - lo) * ((self.next() >> 11) as f64 / (1u64 << 53) as f64)
    }

    fn rgb(&mut self) -> Rgb {
        let n = self.next();
        Rgb { r: n as u8, g: (n >> 8) as u8, b: (n >> 16) as u8 }
    }

    fn game(&mut self) -> Game {
        let mut g = Game::new([self.next() % 100, self.next() % 2_000_000, self.next()]);
        let states =
            [State::Menu, State::Countdown, State::Running, State::Paused, State::Crashing, State::GameOver];
        g.dash.state = states[(self.next() % 6) as usize];
        g.dash.diff = Difficulty::ALL[(self.next() % 3) as usize];
        g.dash.sel = Difficulty::ALL[(self.next() % 3) as usize];
        g.dash.time = num(self.range(0.0, 500.0));
        g.dash.run_t = num(self.range(0.0, 1.5));
        g.dash.countdown = num(self.range(-1.0, 4.0));
        g.dash.speed = num(self.range(0.0, 330.0));
        g.dash.top_speed = num(self.range(0.0, 330.0));
        g.dash.scroll = num(self.range(-500.0, 5000.0));
        g.dash.distance = num(self.range(0.0, 90_000.0));
        g.dash.score = num(self.range(0.0, 1_500_000.0));
        g.dash.new_best = self.next() % 2 == 0;
        g.dash.nitro = num(self.range(-0.1, 1.1));
        g.dash.nitro_on = self.next() % 2 == 0;
        g.dash.player_x = num(self.range(-1.2, 33.2));
        g.dash.combo = (self.next() % 4) as u32;
        g.dash.best_combo = g.dash.combo + 3;
        g.dash.near_misses = g.dash.best_combo + 5;
        g.dash.shake = num(self.range(-0.2, 1.3));
        g.dash.quip = (self.next() % 4) as usize;
        g.dash.sound = self.next() % 2 == 0;
        for _ in 0..self.next() % 6 {
            g.traffic.push(Car {
                lane: (self.next() % 4) as usize,
                x: num(self.range(0.0, 32.0)),
                y: num(self.range(-12.0, 40.0)),
                speed: num(60.0),
                color: self.rgb(),
                truck: self.next() % 2 == 0,
                passed: false,
                wob: num(0.0),
                wob_f: num(1.0),
            });
            g.pickups.push(Pickup {
                x: num(self.range(-3.0, 90.0)),
                y: num(self.range(-5.0, 40.0)),
                t: num(self.range(0.0, 9.0)),
            });
            g.scenery.push(Scenery {
                x: (self.next() % 100) as i32 - 5,
                y: num(self.range(-9.0, 40.0)),
                kind: match self.next() % 4 {
                    0 => SceneryKind::Tree,
                    1 => SceneryKind::Bush,
                    2 => SceneryKind::Rock,
                    _ => SceneryKind::Sign((self.next() % 5) as usize),
                },
            });
            g.floats.push(FloatText {
                text: ["+250 ◆", "+160 CLOSE!", "OFF ROAD!"][(self.next() % 3) as usize].to_string(),
                x: num(self.range(0.0, 32.0)),
                y: num(self.range(-3.0, 30.0)),
                t: num(self.range(0.0, 1.2)),
                color: self.rgb(),
            });
        }
        for _ in 0..self.next() % 40 {
            let max = self.range(0.1, 1.2);
            g.particles.push(Particle {
                x: num(self.range(-3.0, 90.0)),
                y: num(self.range(-8.0, 40.0)),
                vx: num(0.0),
                vy: num(0.0),
                life: num(self.range(0.0, max)),
                max: num(max),
                ch: ['█', '░', '*'][(self.next() % 3) as usize],
                color: self.rgb(),
                scrolls: true,
            });
        }
        g
    }
}

fn rows(buf: &Buffer) -> Vec<String> {
    let area = buf.area;
    (area.top()..area.bottom())
        .map(|y| (area.left()..area.right()).map(|x| buf[(x, y)].symbol().to_string()).collect())
        .collect()
}

#[test]
fn frames_are_those_of_the_widgets() {
    let mut chance = Chance { state: 0xabcd_ef01_2345_6789 };
    let sizes = [(80, 24), (46, 17), (47, 18), (120, 40), (61, 21), (200, 50)];
    for round in 0..300 {
        let g = chance.game();
        let (w, h) = sizes[round % sizes.len()];
        let mut mine = Buffer::empty(Rect::new(0, 0, w, h));
        let mut theirs = mine.clone();
        assert!(draw(&mut mine, &g, &tremor(&g)));
        expected(&g, &mut theirs);
        for y in 0..h {
            for x in 0..w {
                assert_eq!(mine[(x, y)], theirs[(x, y)], "round {} at {} {}", round, x, y);
            }
        }
    }
}

#[test]
fn small_screens_ask_for_more() {
    let g = Game::new([0; 3]);
    for (w, h) in [(45, 24), (80, 16), (10, 3), (0, 0)] {
        let mut mine = Buffer::empty(Rect::new(0, 0, w, h));
        let mut theirs = mine.clone();
        assert!(draw(&mut mine, &g, &tremor(&g)));
        expected(&g, &mut theirs);
        assert_eq!(mine, theirs);
    }
    let mut buf = Buffer::empty(Rect::new(0, 0, 45, 3));
    draw(&mut buf, &g, &tremor(&g));
    assert_eq!(rows(&buf)[1].trim(), "terminal too small — need at least 46×17");
}

#[test]
fn frames_are_drawn_where_the_buffer_lies() {
    let mut chance = Chance { state: 0x77 };
    let g = chance.game();
    let mut mine = Buffer::empty(Rect { x: 7, y: 9, width: 80, height: 24 });
    let mut theirs = mine.clone();
    assert!(draw(&mut mine, &g, &tremor(&g)));
    expected(&g, &mut theirs);
    assert_eq!(mine, theirs);
}

#[test]
fn buffers_beyond_a_terminal_are_left_alone() {
    let g = Game::new([0; 3]);
    let mut buf = Buffer::empty(Rect { x: 65500, y: 0, width: 80, height: 24 });
    let before = buf.clone();
    assert!(!draw(&mut buf, &g, &tremor(&g)));
    assert_eq!(buf, before);
}

#[test]
fn the_menu_names_what_there_is() {
    let mut g = Game::new([1, 22, 1_000_000]);
    g.dash.sel = Difficulty::Mayhem;
    let mut buf = Buffer::empty(Rect::new(0, 0, 80, 24));
    draw(&mut buf, &g, &tremor(&g));
    let text = rows(&buf).join("\n");
    assert!(text.contains("▶ [3] MAYHEM"));
    assert!(text.contains("  [1] CHILL"));
    assert!(text.contains("gridlock chaos · no mercy · top 265 km/h"));
    assert!(text.contains("best · chill 000001 · rush 000022 · mayhem 1000000"));
    assert!(text.contains("▶ PRESS ENTER TO IGNITE ◀"));
    assert!(text.contains("╔") && text.contains("╝") && text.contains("┌") && text.contains("┘"));
    assert!(rows(&buf)[23].starts_with(" ←→ steer · ↑ gas"));
}

#[test]
fn views_sway_while_they_shake() {
    let mut g = Game::new([0; 3]);
    let mut r = tremor(&g);
    r.sine = num(1.0);
    r.cosine = num(-1.0);
    g.dash.shake = num(1.0);
    assert_eq!(shake(&g, &r), (2, -2));
    g.dash.shake = num(0.01);
    assert_eq!(shake(&g, &r), (0, 0));
    g.dash.shake = num(0.0);
    assert_eq!(shake(&g, &r), (0, 0));
    g.dash.shake = num(1e6);
    assert_eq!(shake(&g, &r), (2_400_000, -1_600_000));
    g.dash.shake = num(1e300);
    assert_eq!(shake(&g, &r), (i32::MAX, i32::MIN));
}

#[test]
fn signs_blink() {
    for i in 0..2000 {
        let t = i as f64 * 0.017;
        for hz in [1.4, 3.0, 4.0] {
            assert_eq!(blink(num(t), num(hz)), blinks(t, hz));
        }
    }
    assert!(blink(num(0.0), num(4.0)));
    assert!(!blink(num(0.2), num(4.0)));
}

#[test]
fn speeds_have_colours() {
    assert_eq!(color(speed_color(num(0.54))), Color::Rgb(90, 230, 120));
    assert_eq!(color(speed_color(num(0.55))), Color::Rgb(255, 210, 80));
    assert_eq!(color(speed_color(num(0.85))), Color::Rgb(255, 90, 70));
    assert_eq!(score_digits(42), "000042");
    assert_eq!(score_digits(12_345_678), "12345678");
}

#[test]
fn painters_stay_in_the_buffer() {
    let mut buf = Buffer::empty(Rect::new(0, 0, 4, 2));
    let mut p = Painter::new(&mut buf, (-1, 1));
    p.put_str(0, 0, "ab c", rat_racer::style::Style::fg(1, 2, 3));
    p.put(1, -1, 'x', rat_racer::style::Style::plain());
    p.put(5, 0, 'y', rat_racer::style::Style::plain());
    p.put(-2_000_000_000, 2_000_000_000, 'z', rat_racer::style::Style::plain());
    assert_eq!(rows(&buf), vec!["x   ".to_string(), "b c ".to_string()]);
    assert_eq!(buf[(0, 1)].fg, Color::Rgb(1, 2, 3));
    assert_eq!(buf[(1, 1)].fg, Color::Reset);
}

#[test]
fn lines_are_checkered() {
    let line = checker_line(3);
    assert_eq!(line.spans.len(), 3);
    assert_eq!(line.spans[0].text, "▚");
    assert_eq!(line.spans[0].style, line.spans[2].style);
    assert!(line.spans[0].style != line.spans[1].style);
    assert_eq!(checker_line(0).spans.len(), 0);
}

#[test]
fn letters_line_up() {
    for c in "RATCEGOWKDPUS123!x".chars() {
        let rows = glyph(c);
        let widths: Vec<usize> = rows.iter().map(|r| r.chars().count()).collect();
        assert!(widths[0] == widths[1] && widths[1] == widths[2] && widths[0] <= 5);
    }
    let rows = big_text("RAT RACER");
    assert_eq!(rows[0].chars().count(), rows[2].chars().count());
}

#[test]
fn remarks_differ() {
    assert_eq!(quip(0), "the rat walked away. the car didn't.");
    assert_eq!(quip(1), "insurance rates: now astronomical.");
    assert_eq!(quip(2), "rémy demands a recount.");
    assert_eq!(quip(3), "that other car came out of nowhere. probably.");
}

#[test]
fn panels_have_frames() {
    let mut g = Game::new([0, 0, 0]);
    g.dash.state = State::Running;
    g.dash.run_t = num(2.0);
    let mut below = Buffer::empty(Rect::new(0, 0, 80, 24));
    assert!(draw(&mut below, &g, &tremor(&g)));
    g.dash.state = State::Paused;
    let mut buf = Buffer::empty(Rect::new(0, 0, 80, 24));
    assert!(draw(&mut buf, &g, &tremor(&g)));
    let world = Rect::new(0, 3, 80, 20);
    let left = (0..80).find(|&x| (3..23).any(|y| buf[(x, y)].symbol() == "╔")).unwrap();
    let top = (3..23).find(|&y| buf[(left, y)].symbol() == "╔").unwrap();
    let right = (left + 1..80).find(|&x| buf[(x, top)].symbol() == "╗").unwrap();
    let bottom = (top + 1..23).find(|&y| buf[(left, y)].symbol() == "╚").unwrap();
    let panel = Rect::new(left, top, right - left + 1, bottom - top + 1);
    assert_eq!(panel, Rect::new(19, 7, 42, 9));
    assert_eq!(buf[(right, bottom)].symbol(), "╝");
    for x in left + 1..right {
        assert_eq!(buf[(x, top)].symbol(), "═");
        assert_eq!(buf[(x, bottom)].symbol(), "═");
    }
    for y in top + 1..bottom {
        assert_eq!(buf[(left, y)].symbol(), "║");
        assert_eq!(buf[(right, y)].symbol(), "║");
    }
    for spot in world.positions() {
        let edge = panel.contains(spot)
            && (spot.x == left || spot.x == right || spot.y == top || spot.y == bottom);
        if edge {
            assert_eq!(buf[spot].fg, Color::Rgb(120, 120, 140));
        }
        if panel.contains(spot) {
            assert_eq!(buf[spot].bg, Color::Rgb(10, 10, 14));
        } else {
            assert_eq!(buf[spot], below[spot]);
        }
    }
}

#[test]
fn the_widest_frames_are_drawn() {
    let mut g = Game::new([1, 2, 3]);
    for (w, state) in [(32768, State::Running), (65535, State::GameOver), (65535, State::Menu)] {
        g.dash.state = state;
        g.dash.run_t = num(2.0);
        let mut mine = Buffer::empty(Rect::new(0, 0, w, 17));
        let mut theirs = mine.clone();
        assert!(draw(&mut mine, &g, &tremor(&g)));
        expected(&g, &mut theirs);
        assert!(mine == theirs, "{}", w);
    }
    let mut flat = Buffer::empty(Rect::new(0, 0, 65535, 3));
    assert!(draw(&mut flat, &g, &tremor(&g)));
    assert!(rows(&flat)[1].contains("terminal too small — need at least 46×17"));
}

#[test]
fn far_things_are_drawn_where_they_are() {
    let mut g = Game::new([0; 3]);
    g.dash.state = State::Crashing;
    let t = Tremor { sine: num(-1.0), cosine: num(1.0) };
    for shaking in [4.2e8, 8.9e8] {
        g.dash.shake = num(shaking);
        let off = shake(&g, &t);
        assert!(off.0 < -1_000_000_000 && off.1 > 600_000_000);
        g.particles = vec![Particle {
            x: num(5.0 - off.0 as f64),
            y: num(4.0 - off.1 as f64),
            vx: num(0.0),
            vy: num(0.0),
            life: num(1.0),
            max: num(1.0),
            ch: '*',
            color: Rgb { r: 1, g: 2, b: 3 },
            scrolls: true,
        }];
        let mut buf = Buffer::empty(Rect::new(0, 0, 80, 24));
        assert!(draw(&mut buf, &g, &t));
        assert_eq!(buf[(5, 7)].symbol(), "*");
        assert_eq!(buf[(0, 7)].symbol(), " ");
    }
}

#[test]
fn requests_leave_the_rest_alone() {
    let mut chance = Chance { state: 0x1234_5678 };
    let area = Rect::new(0, 0, 60, 9);
    let mut first: Option<Buffer> = None;
    for _ in 0..20 {
        let g = chance.game();
        let mut buf = Buffer::filled(area, ratatui::buffer::Cell::new("x"));
        assert!(draw(&mut buf, &g, &tremor(&g)));
        for spot in area.positions() {
            if !centred(40, 1, area).contains(spot) {
                assert_eq!(buf[spot], ratatui::buffer::Cell::new("x"));
            }
        }
        if let Some(f) = &first {
            assert_eq!(f, &buf);
        }
        first = Some(buf);
    }
}

#[test]
fn the_ground_scrolls_as_one_sheet() {
    let view = Area { x: 0, y: 0, width: 70, height: 30 };
    let mut g = Game::new([0; 3]);
    g.dash.speed = num(300.0);
    for scroll in [-7.5, 0.0, 12.25, 1e6, 9007199254740000.0] {
        let mut one = Buffer::empty(Rect::new(0, 0, 70, 30));
        let mut next = one.clone();
        g.dash.scroll = num(scroll);
        render_world(&mut Painter::new(&mut one, (0, 0)), &g, view);
        g.dash.scroll = num(scroll + 1.0);
        render_world(&mut Painter::new(&mut next, (0, 0)), &g, view);
        let left = geom(view).rx as u16 + 16 - 2;
        for y in 0..29 {
            for x in 0..70 {
                let under = (left..left + 5).contains(&x) && (21..27).contains(&y);
                if !under {
                    assert_eq!(next[(x, y)], one[(x, y + 1)], "{} {}", x, y);
                }
            }
        }
    }
}

#[test]
fn far_scrolls_show_their_own_rows() {
    let view = Area { x: 0, y: 0, width: 50, height: 20 };
    let mut g = Game::new([0; 3]);
    for scroll in [9223372036854774784.0f64, -9223372036854775808.0] {
        g.dash.scroll = num(scroll);
        let mut buf = Buffer::empty(Rect::new(0, 0, 50, 20));
        render_world(&mut Painter::new(&mut buf, (0, 0)), &g, view);
        for y in 0..10u16 {
            let wy = scroll as i64 + y as i64;
            for x in 0..3u16 {
                assert_eq!(buf[(x, y)].symbol(), grass_char(x as i32, wy).to_string());
            }
        }
    }
}

#[test]
fn long_ago_bonuses_still_blink() {
    let view = Area { x: 0, y: 0, width: 50, height: 20 };
    let mut g = Game::new([0; 3]);
    g.pickups.push(Pickup { x: num(10.0), y: num(2.0), t: num(-1e300) });
    let mut buf = Buffer::empty(Rect::new(0, 0, 50, 20));
    render_world(&mut Painter::new(&mut buf, (0, 0)), &g, view);
    let beat = (-1e300f64 * 5.0) as i64;
    assert_eq!(buf[(10, 2)].symbol(), if beat % 2 == 0 { "◆" } else { "◇" });
}

#[test]
fn instruments_show_the_figures() {
    let mut g = Game::new([0; 3]);
    g.dash.state = State::Running;
    g.dash.speed = num(86.5);
    g.dash.distance = num(12345.6);
    let mut buf = Buffer::empty(Rect::new(0, 0, 140, 24));
    assert!(draw(&mut buf, &g, &tremor(&g)));
    assert!(rows(&buf)[1].contains("  86 km/h"));
    assert!(rows(&buf)[1].contains("DIST 12.35 km"));
}

#[test]
fn instruments_fit_into_any_space() {
    let g = Game::new([0; 3]);
    for (w, h) in [(0, 0), (1, 1), (1, 5), (5, 1), (2, 2), (3, 3), (40, 2), (2, 9)] {
        let mut mine = Buffer::empty(Rect::new(0, 0, 50, 12));
        let mut theirs = mine.clone();
        draw_hud(&mut mine, Area { x: 3, y: 2, width: w, height: h }, &g);
        hud(&g, Rect::new(3, 2, w, h), &mut theirs);
        assert_eq!(mine, theirs, "{} {}", w, h);
    }
}
