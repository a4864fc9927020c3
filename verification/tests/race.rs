//! The steps of the game against the same steps in the machine's own doubles.

use rat_racer::dice::{Dice, Draft, Puff, Ray, Shard, Soot, Spark, Sprout, CLOUDS, RAYS, SHARDS, SPARKS};
use rat_racer::difficulty::Difficulty;
use rat_racer::entities::SceneryKind;
use rat_racer::game::{Game, State};
use rat_racer::geometry::{geom, Area};
use rat_racer::input::{Input, Key};
use rat_racer::num::Num;
use rat_racer::odds::{Bounds, PuffOdds};
use rat_racer::simulation::Outcome;
use rat_racer::style::Rgb;
use rat_racer::verge::sign;

const VIEW: Area = Area { x: 0, y: 3, width: 100, height: 30 };

fn num(f: f64) -> Num {
    Num::from_bits(f.to_bits())
}

fn val(n: Num) -> f64 {
    f64::from_bits(n.to_bits())
}

struct Chance {
    state: u64,
}

impl Chance {
    fn next(&mut self) -> u64 {
        self.state ^= self.state << 13;
        self.state ^= self.state >> 7;
        self.state ^= self.state << 17;
        self.state
    }

    fn unit(&mut self) -> f64 {
        (self.next() >> 11) as f64 / (1u64 << 53) as f64
    }

    fn range(&mut self, lo: f64, hi: f64) -> f64 {
        lo + (hi - lo) * self.unit()
    }

    fn ray(&mut self) -> Ray {
        let a = self.range(0.0, 6.28);
        Ray { cos: num(a.cos()), sin: num(a.sin()) }
    }

    fn within(&mut self, b: Bounds) -> Num {
        num(self.range(b.lo as f64 / 100.0, b.hi as f64 / 100.0))
    }

    fn odd(&mut self, percent: u32) -> bool {
        self.unit() < percent as f64 / 100.0
    }

    fn puff(&mut self, o: PuffOdds) -> Puff {
        Puff {
            dx: self.within(o.dx),
            dy: self.within(o.dy),
            vx: self.within(o.vx),
            vy: self.within(o.vy),
            life: self.within(o.life),
            thin: self.odd(o.thin),
        }
    }

    fn dice(&mut self, g: &Game, dt: f64) -> Dice {
        let o = g.odds();
        let angles = g.angles(num(dt));
        assert_eq!(val(angles.cruise), (val(g.dash.time) + dt) * 0.8);
        assert_eq!(angles.weave.len(), g.traffic.len());
        for (a, c) in angles.weave.iter().zip(g.traffic.iter()) {
            assert_eq!(val(*a), val(c.wob) + dt * val(c.wob_f));
        }
        Dice {
            sprout: Sprout {
                next: self.within(o.sprout),
                left: self.odd(o.left),
                roll: self.within(o.roll),
            },
            gap: self.within(o.gap),
            draft: Draft {
                truck: self.odd(o.truck),
                speed: self.within(o.speed),
                wob: self.within(o.wob),
                wob_f: self.within(o.wob_f),
            },
            bonus_gap: self.within(o.bonus),
            dust: (self.within(o.dust), self.within(o.dust)),
            smoke: self.puff(o.smoke),
            flames: (self.puff(o.flame), self.puff(o.flame)),
            ember: if self.odd(o.ember) { Some(self.within(o.ember_dx)) } else { None },
            sparks: (0..SPARKS * g.traffic.len())
                .map(|_| Spark { vx: self.within(o.spark_vx), vy: self.within(o.spark_vy) })
                .collect(),
            rays: (0..RAYS * g.pickups.len()).map(|_| self.ray()).collect(),
            shards: (0..SHARDS)
                .map(|_| Shard {
                    ray: self.ray(),
                    pace: self.within(o.shard_pace),
                    dx: self.within(o.shard_dx),
                    dy: self.within(o.shard_dy),
                    life: self.within(o.shard_life),
                })
                .collect(),
            soot: (0..CLOUDS)
                .map(|_| Soot { ray: self.ray(), pace: self.within(o.soot_pace) })
                .collect(),
            sines: angles.weave.iter().map(|a| num(val(*a).sin())).collect(),
            sine: num(val(angles.cruise).sin()),
        }
    }
}

#[derive(Clone, Debug, PartialEq)]
struct Car {
    lane: usize,
    x: f64,
    y: f64,
    speed: f64,
    color: Rgb,
    truck: bool,
    passed: bool,
    wob: f64,
    wob_f: f64,
}

#[derive(Clone, Debug, PartialEq)]
struct Particle {
    x: f64,
    y: f64,
    vx: f64,
    vy: f64,
    life: f64,
    max: f64,
    ch: char,
    color: Rgb,
}

#[derive(Clone, Debug, PartialEq)]
struct Text {
    text: String,
    x: f64,
    y: f64,
    t: f64,
    color: Rgb,
}

/// The game in plain doubles.
#[derive(Clone, Debug, PartialEq)]
struct Plain {
    state: State,
    diff: Difficulty,
    time: f64,
    run_t: f64,
    countdown: f64,
    last_count: i32,
    crash_t: f64,
    speed: f64,
    top_speed: f64,
    scroll: f64,
    distance: f64,
    score: f64,
    hi: [u64; 3],
    new_best: bool,
    nitro: f64,
    nitro_on: bool,
    player_x: f64,
    player_vx: f64,
    combo: u32,
    combo_t: f64,
    best_combo: u32,
    near_misses: u32,
    shake: f64,
    spawn_t: f64,
    pickup_t: f64,
    scenery_t: f64,
    exhaust_t: f64,
    dust_t: f64,
    wreck_t: f64,
    offroad_msg_t: f64,
    quip: usize,
    sound: bool,
    traffic: Vec<Car>,
    pickups: Vec<(f64, f64, f64)>,
    particles: Vec<Particle>,
    scenery: Vec<(i32, f64, SceneryKind)>,
    floats: Vec<Text>,
}

fn plain(g: &Game) -> Plain {
    let d = &g.dash;
    Plain {
        state: d.state,
        diff: d.diff,
        time: val(d.time),
        run_t: val(d.run_t),
        countdown: val(d.countdown),
        last_count: d.last_count,
        crash_t: val(d.crash_t),
        speed: val(d.speed),
        top_speed: val(d.top_speed),
        scroll: val(d.scroll),
        distance: val(d.distance),
        score: val(d.score),
        hi: g.hi,
        new_best: d.new_best,
        nitro: val(d.nitro),
        nitro_on: d.nitro_on,
        player_x: val(d.player_x),
        player_vx: val(d.player_vx),
        combo: d.combo,
        combo_t: val(d.combo_t),
        best_combo: d.best_combo,
        near_misses: d.near_misses,
        shake: val(d.shake),
        spawn_t: val(d.spawn_t),
        pickup_t: val(d.pickup_t),
        scenery_t: val(d.scenery_t),
        exhaust_t: val(d.exhaust_t),
        dust_t: val(d.dust_t),
        wreck_t: val(d.wreck_t),
        offroad_msg_t: val(d.offroad_msg_t),
        quip: d.quip,
        sound: d.sound,
        traffic: g
            .traffic
            .iter()
            .map(|c| Car {
                lane: c.lane,
                x: val(c.x),
                y: val(c.y),
                speed: val(c.speed),
                color: c.color,
                truck: c.truck,
                passed: c.passed,
                wob: val(c.wob),
                wob_f: val(c.wob_f),
            })
            .collect(),
        pickups: g.pickups.iter().map(|p| (val(p.x), val(p.y), val(p.t))).collect(),
        particles: g
            .particles
            .iter()
            .map(|p| Particle {
                x: val(p.x),
                y: val(p.y),
                vx: val(p.vx),
                vy: val(p.vy),
                life: val(p.life),
                max: val(p.max),
                ch: p.ch,
                color: p.color,
            })
            .collect(),
        scenery: g.scenery.iter().map(|s| (s.x, val(s.y), s.kind)).collect(),
        floats: g
            .floats
            .iter()
            .map(|f| Text { text: f.text.clone(), x: val(f.x), y: val(f.y), t: val(f.t), color: f.color })
            .collect(),
    }
}

fn rgb(r: u8, g: u8, b: u8) -> Rgb {
    Rgb { r, g, b }
}

const K_ROWS: f64 = 0.11;

/// Steps the plain game; what the library left to chance is read off `lib`, the library's
/// game after the same step.
struct Stepper<'a> {
    g: Plain,
    lib: &'a Game,
    dt: f64,
    dice: &'a Dice,
    bells: usize,
    best: bool,
    fresh: usize,
}

impl<'a> Stepper<'a> {
    fn py(&self) -> f64 {
        VIEW.height as f64 - 8.0
    }

    fn puff(&mut self, x: f64, y: f64, vx: f64, vy: f64, life: f64, ch: char, color: Rgb) {
        if self.g.particles.len() > 320 {
            self.g.particles.drain(0..40);
        }
        self.g.particles.push(Particle { x, y, vx, vy, life, max: life, ch, color });
    }

    fn flash(&mut self, text: &str, color: Rgb) {
        let (x, y) = (self.g.player_x, self.py() - 3.0);
        self.g.floats.push(Text { text: text.to_string(), x, y, t: 0.0, color });
    }

    fn beep(&mut self, n: usize) {
        if self.g.sound {
            self.bells += n;
        }
    }

    fn update_particles(&mut self, rows: f64) {
        let dt = self.dt;
        for pt in &mut self.g.particles {
            pt.x += pt.vx * dt;
            pt.y += pt.vy * dt;
            pt.y += rows;
            pt.life -= dt;
        }
        self.g.particles.retain(|p| p.life > 0.0 && p.y < VIEW.height as f64 + 6.0 && p.y > -8.0);
        for ft in &mut self.g.floats {
            ft.t += dt;
            ft.y -= 7.0 * dt;
        }
        self.g.floats.retain(|f| f.t < 1.15);
    }

    fn scenery_spawn(&mut self) {
        self.g.scenery_t -= self.dt;
        if self.g.scenery_t > 0.0 {
            return;
        }
        let sprout = self.dice.sprout;
        self.g.scenery_t = val(sprout.next);
        let g = geom(VIEW);
        let left_w = g.rx - 2;
        let right_x = g.rx + g.road_w + 3;
        let right_w = VIEW.width as i32 - right_x - 1;
        let span = if sprout.left { left_w } else { right_w };
        if span < 4 {
            return;
        }
        let new = *self.lib.scenery.last().unwrap();
        let roll = val(sprout.roll);
        let kind = if roll < 0.42 {
            SceneryKind::Tree
        } else if roll < 0.66 {
            SceneryKind::Bush
        } else if roll < 0.82 {
            SceneryKind::Rock
        } else {
            match new.kind {
                SceneryKind::Sign(i) => {
                    assert!(span >= sign(i).len() as i32 + 6);
                    SceneryKind::Sign(i)
                }
                _ => {
                    assert!(span < 12 + 6);
                    SceneryKind::Tree
                }
            }
        };
        if sprout.left {
            assert!(1 <= new.x && new.x < (span - 3).max(2));
        } else {
            assert!(right_x <= new.x && new.x < right_x + (span - 4).max(1));
        }
        self.g.scenery.push((new.x, -8.0, kind));
    }

    fn scenery_move(&mut self, rows: f64) {
        for s in &mut self.g.scenery {
            s.1 += rows;
        }
        self.g.scenery.retain(|s| s.1 < VIEW.height as f64 + 10.0);
    }

    fn spawn_traffic(&mut self) {
        let g = geom(VIEW);
        let mut blocked: Vec<usize> =
            self.g.traffic.iter().filter(|c| c.y < 20.0).map(|c| c.lane).collect();
        blocked.sort_unstable();
        blocked.dedup();
        if blocked.len() >= 3 {
            return;
        }
        let new = *self.lib.traffic.last().unwrap();
        assert!(new.lane < 4 && !blocked.contains(&new.lane));
        let draft = self.dice.draft;
        let mut speed = val(draft.speed);
        if draft.truck {
            speed *= 0.8;
        }
        self.fresh += 1;
        self.g.traffic.push(Car {
            lane: new.lane,
            x: g.lane_w as f64 * (new.lane as f64 + 0.5),
            y: -10.0,
            speed,
            color: new.color,
            truck: draft.truck,
            passed: false,
            wob: val(draft.wob),
            wob_f: val(draft.wob_f),
        });
    }

    fn attract(&mut self) {
        let dt = self.dt;
        self.g.speed += (88.0 - self.g.speed) * dt * 0.7;
        let rows = self.g.speed * K_ROWS * dt;
        self.g.scroll += rows;
        let g = geom(VIEW);
        self.g.player_x = g.road_w as f64 / 2.0 + (self.g.time * 0.8).sin() * 3.0;
        self.scenery_spawn();
        self.scenery_move(rows);
        self.g.spawn_t -= dt;
        if self.g.spawn_t <= 0.0 {
            self.spawn_traffic();
            self.g.spawn_t = val(self.dice.gap);
        }
        let speed = self.g.speed;
        for c in &mut self.g.traffic {
            c.y += (speed - c.speed) * K_ROWS * dt;
        }
        self.g.traffic.retain(|c| c.y < VIEW.height as f64 + 12.0 && c.y > -40.0);
        self.g.exhaust_t -= dt;
        if self.g.exhaust_t <= 0.0 {
            self.g.exhaust_t = 0.06;
            let p = self.dice.smoke;
            let (x, y) = (self.g.player_x + val(p.dx), self.py() + 5.0);
            self.puff(x, y, val(p.vx), 8.0, 0.45, '░', rgb(110, 110, 116));
        }
        self.update_particles(rows);
    }

    fn countdown(&mut self) {
        let dt = self.dt;
        self.g.countdown -= dt;
        self.g.speed = (self.g.speed + 34.0 * dt).min(42.0);
        let rows = self.g.speed * K_ROWS * dt;
        self.g.scroll += rows;
        self.scenery_spawn();
        self.scenery_move(rows);
        self.update_particles(rows);
        let n = self.g.countdown.ceil() as i32;
        if n != self.g.last_count {
            self.g.last_count = n;
            self.beep(1);
        }
        if self.g.countdown <= 0.0 {
            self.g.state = State::Running;
            self.g.run_t = 0.0;
            self.beep(2);
        }
    }

    fn running(&mut self, input: &Input) {
        let dt = self.dt;
        let dice = self.dice;
        self.g.run_t += dt;
        let geo = geom(VIEW);
        let road_w = geo.road_w as f64;
        let now = num(self.g.time);
        let py = self.py();
        let steer = input.steer(now) as f64;
        if steer != 0.0 {
            self.g.player_vx += steer * 130.0 * dt;
        } else {
            self.g.player_vx *= (1.0 - 10.0 * dt).clamp(0.0, 1.0);
        }
        self.g.player_vx = self.g.player_vx.clamp(-34.0, 34.0);
        self.g.player_x = (self.g.player_x + self.g.player_vx * dt).clamp(-1.2, road_w + 1.2);
        if self.g.player_x <= -1.19 || self.g.player_x >= road_w + 1.19 {
            self.g.player_vx = 0.0;
        }
        let offroad = self.g.player_x < 1.6 || self.g.player_x > road_w - 1.6;
        let want = input.held(input.nitro, input.nitro_t, now) && self.g.nitro > 0.02;
        if want && !self.g.nitro_on {
            self.flash("NITRO!", rgb(120, 230, 255));
            self.beep(1);
        }
        self.g.nitro_on = want;
        if want {
            self.g.nitro = (self.g.nitro - 0.32 * dt).max(0.0);
            self.g.shake = self.g.shake.max(0.12);
        } else {
            self.g.nitro = (self.g.nitro + 0.055 * dt).min(1.0);
        }
        let top = self.g.diff.max_speed() as f64;
        let max = top + if want { 55.0 } else { 0.0 };
        let accel = if input.held(input.down, input.down_t, now) {
            -130.0
        } else if input.held(input.up, input.up_t, now) {
            62.0
        } else {
            17.0
        };
        self.g.speed = (self.g.speed + accel * dt).clamp(32.0, max);
        if offroad {
            self.g.speed = (self.g.speed - 85.0 * dt).max(55.0);
            self.g.shake = self.g.shake.max(0.3);
            self.g.dust_t -= dt;
            if self.g.dust_t <= 0.0 {
                self.g.dust_t = 0.06;
                for (dx, vx) in [(-2.0, dice.dust.0), (2.0, dice.dust.1)] {
                    let x = self.g.player_x + dx;
                    self.puff(x, py + 4.0, val(vx), 5.0, 0.4, '░', rgb(165, 130, 70));
                }
            }
            self.g.offroad_msg_t -= dt;
            if self.g.offroad_msg_t <= 0.0 {
                self.g.offroad_msg_t = 1.3;
                self.flash("OFF ROAD!", rgb(255, 170, 80));
            }
        }
        self.g.top_speed = self.g.top_speed.max(self.g.speed);
        let rows = self.g.speed * K_ROWS * dt;
        self.g.scroll += rows;
        self.g.distance += self.g.speed / 3.6 * dt;
        let mult = 1.0 + 0.25 * self.g.combo as f64;
        self.g.score += self.g.speed * dt * 0.55 * mult * if want { 1.5 } else { 1.0 };
        if self.g.combo > 0 {
            self.g.combo_t -= dt;
            if self.g.combo_t <= 0.0 {
                self.g.combo = 0;
            }
        }
        let speed = self.g.speed;
        for c in &mut self.g.traffic {
            c.y += (speed - c.speed) * K_ROWS * dt;
            c.wob += dt * c.wob_f;
            c.x = geo.lane_w as f64 * (c.lane as f64 + 0.5) + c.wob.sin() * 0.22;
        }
        let mut crashed = false;
        let mut used = 0;
        for i in 0..self.g.traffic.len() {
            let c = self.g.traffic[i].clone();
            let ch = if c.truck { 7.0 } else { 5.0 };
            let dx = (self.g.player_x - c.x).abs();
            let overlap = c.y < py + 5.0 - 0.7 && c.y + ch > py + 0.7;
            if overlap && dx < 4.3 {
                crashed = true;
            }
            if !c.passed && c.y > py + 5.0 {
                self.g.traffic[i].passed = true;
                let gap = dx - 4.6;
                if gap < 1.8 && speed > c.speed + 5.0 {
                    self.g.combo += 1;
                    self.g.combo_t = 2.6;
                    self.g.best_combo = self.g.best_combo.max(self.g.combo);
                    self.g.near_misses += 1;
                    let bonus = 100 + 60 * self.g.combo;
                    self.g.score += bonus as f64;
                    let text = if self.g.combo > 1 {
                        format!("+{} CLOSE! x{}", bonus, self.g.combo)
                    } else {
                        format!("+{} CLOSE!", bonus)
                    };
                    self.g.floats.push(Text { text, x: c.x, y: py - 2.0, t: 0.0, color: rgb(255, 225, 90) });
                    for _ in 0..6 {
                        let s = dice.sparks[used];
                        used += 1;
                        let x = (self.g.player_x + c.x) / 2.0;
                        self.puff(x, py + 1.0, val(s.vx), val(s.vy), 0.3, '*', rgb(255, 240, 150));
                    }
                    self.beep(1);
                }
            }
        }
        if crashed {
            self.crash();
            return;
        }
        self.g.traffic.retain(|c| c.y < VIEW.height as f64 + 12.0 && c.y > -60.0);
        let mut collected = Vec::new();
        for (i, pk) in self.g.pickups.iter().enumerate() {
            if (pk.0 - self.g.player_x).abs() < 3.0 && (pk.1 - (py + 2.0)).abs() < 3.2 {
                collected.push(i);
            }
        }
        let mut ray = 0;
        for &i in collected.iter().rev() {
            let pk = self.g.pickups[i];
            self.g.pickups.swap_remove(i);
            self.g.score += 250.0;
            self.g.nitro = (self.g.nitro + 0.35).min(1.0);
            self.g.floats.push(Text {
                text: "+250 ◆".to_string(),
                x: pk.0,
                y: pk.1,
                t: 0.0,
                color: rgb(255, 205, 60),
            });
            for _ in 0..10 {
                let r = dice.rays[ray];
                ray += 1;
                self.puff(pk.0, pk.1, val(r.cos) * 12.0, val(r.sin) * 12.0, 0.4, '*', rgb(255, 215, 90));
            }
            self.beep(2);
        }
        for pk in &mut self.g.pickups {
            pk.1 += rows;
            pk.2 += dt;
        }
        self.g.pickups.retain(|pk| pk.1 < VIEW.height as f64 + 6.0);
        self.g.spawn_t -= dt;
        if self.g.spawn_t <= 0.0 {
            self.spawn_traffic();
            let density = (1.45 - 0.65 * (self.g.speed / top)).clamp(0.6, 1.5);
            self.g.spawn_t = val(dice.gap) * density;
        }
        self.g.pickup_t -= dt;
        if self.g.pickup_t <= 0.0 {
            self.g.pickup_t = val(dice.bonus_gap);
            if self.lib.pickups.len() > self.g.pickups.len() {
                let x = val(self.lib.pickups.last().unwrap().x);
                let lane = (x / geo.lane_w as f64 - 0.5).round() as usize;
                assert_eq!(x, geo.lane_w as f64 * (lane as f64 + 0.5));
                assert!(!self.g.traffic.iter().any(|c| c.lane == lane && c.y < 12.0));
                self.g.pickups.push((x, -4.0, 0.0));
            } else {
                assert!(self.g.traffic.iter().any(|c| c.y < 12.0));
            }
        }
        self.scenery_spawn();
        self.scenery_move(rows);
        self.g.exhaust_t -= dt;
        if self.g.exhaust_t <= 0.0 {
            self.g.exhaust_t = if want { 0.03 } else { 0.05 };
            if want {
                for p in [dice.flames.0, dice.flames.1] {
                    let x = self.g.player_x + val(p.dx);
                    // The shape and the blue are left to chance and compared by hand below.
                    self.puff(x, py + 4.8, val(p.vx), val(p.vy), val(p.life), '?', rgb(0, 0, 0));
                }
            } else {
                let p = dice.smoke;
                let x = self.g.player_x + val(p.dx);
                let ch = if p.thin { '░' } else { '▒' };
                self.puff(x, py + 5.0, val(p.vx), val(p.vy), val(p.life), ch, rgb(105, 105, 112));
            }
        }
        self.update_particles(rows);
        self.g.shake = (self.g.shake - 2.2 * dt).max(0.0);
    }

    fn crash(&mut self) {
        self.g.state = State::Crashing;
        self.g.crash_t = 0.0;
        self.g.wreck_t = 0.0;
        self.g.shake = 1.3;
        self.g.nitro_on = false;
        self.g.combo = 0;
        assert!(self.lib.dash.quip < 4);
        self.g.quip = self.lib.dash.quip;
        let (x, y) = (self.g.player_x, self.py() + 1.5);
        for i in 0..SHARDS {
            let s = self.dice.shards[i];
            self.puff(
                x + val(s.dx),
                y + val(s.dy),
                val(s.ray.cos) * val(s.pace),
                val(s.ray.sin) * val(s.pace) - 5.0,
                val(s.life),
                '?',
                rgb(0, 0, 0),
            );
        }
        for i in 0..CLOUDS {
            let s = self.dice.soot[i];
            self.puff(
                x,
                y + 1.0,
                val(s.ray.cos) * val(s.pace),
                val(s.ray.sin) * val(s.pace) - 3.0,
                1.0,
                '▓',
                rgb(55, 52, 50),
            );
        }
        self.beep(3);
    }

    fn crashing(&mut self) {
        let dt = self.dt;
        self.g.crash_t += dt;
        self.g.speed = (self.g.speed - 300.0 * dt).max(0.0);
        let rows = self.g.speed * K_ROWS * dt;
        self.g.scroll += rows;
        self.scenery_move(rows);
        self.g.wreck_t -= dt;
        if self.g.wreck_t <= 0.0 {
            self.g.wreck_t = 0.09;
            let py = self.py();
            let p = self.dice.smoke;
            let ch = if p.thin { '░' } else { '▒' };
            let x = self.g.player_x;
            self.puff(x + val(p.dx), py + val(p.dy), val(p.vx), -4.0, 0.9, ch, rgb(90, 90, 96));
            if let Some(ex) = self.dice.ember {
                self.puff(x + val(ex), py + 2.0, 0.0, -2.0, 0.5, '*', rgb(255, 140, 50));
            }
        }
        self.update_particles(rows);
        self.g.shake = (self.g.shake - 1.4 * dt).max(0.0);
        if self.g.crash_t > 1.5 {
            self.g.state = State::GameOver;
            let s = self.g.score as u64;
            let i = self.g.diff.index();
            if s > self.g.hi[i] {
                self.g.hi[i] = s;
                self.g.new_best = true;
                self.best = true;
            }
        }
    }

    fn gameover(&mut self) {
        let dt = self.dt;
        self.g.wreck_t -= dt;
        if self.g.wreck_t <= 0.0 {
            self.g.wreck_t = 0.16;
            let (x, y) = (self.g.player_x + val(self.dice.smoke.dx), self.py() + 1.0);
            self.puff(x, y, 0.0, -3.5, 1.0, '░', rgb(80, 80, 86));
        }
        self.update_particles(0.0);
        self.g.shake = (self.g.shake - 2.0 * dt).max(0.0);
    }

    fn step(&mut self, input: &Input) {
        self.g.time += self.dt;
        match self.g.state {
            State::Menu => self.attract(),
            State::Countdown => self.countdown(),
            State::Running => self.running(input),
            State::Crashing => self.crashing(),
            State::GameOver => self.gameover(),
            State::Paused => {}
        }
        // Shapes and colours that are left to chance.
        let flames = ['▓', '▒', '░'];
        let shards = ['█', '▓', '▒', '░', '*'];
        for (mine, theirs) in self.g.particles.iter_mut().zip(self.lib.particles.iter()) {
            if mine.ch == '?' {
                assert!(flames.contains(&theirs.ch) || shards.contains(&theirs.ch));
                mine.ch = theirs.ch;
                mine.color = theirs.color;
            }
        }
    }
}

fn advance(g: &mut Game, chance: &mut Chance, dt: f64, input: &Input) -> Outcome {
    let before = plain(g);
    let dice = chance.dice(g, dt);
    let out = g.update(num(dt), VIEW, input, &dice);
    let mut s = Stepper { g: before, lib: g, dt, dice: &dice, bells: 0, best: false, fresh: 0 };
    s.step(input);
    assert_eq!(s.g, plain(g));
    assert_eq!((s.bells, s.best), (out.bells, out.best));
    out
}

#[test]
fn the_show_runs_behind_the_menu() {
    let mut g = Game::new([1, 2, 3]);
    let mut chance = Chance { state: 0x1357_9bdf_2468_ace1 };
    let input = Input::default();
    for _ in 0..3000 {
        let dt = chance.range(0.004, 0.03);
        let out = advance(&mut g, &mut chance, dt, &input);
        assert_eq!(out, Outcome { bells: 0, best: false });
        assert_eq!(g.dash.state, State::Menu);
        let middle = geom(VIEW).road_w as f64 / 2.0;
        assert!(middle - 3.0 <= val(g.dash.player_x) && val(g.dash.player_x) <= middle + 3.0);
    }
    assert!(!g.traffic.is_empty() || !g.scenery.is_empty());
}

#[test]
fn races_run_from_start_to_end() {
    let mut chance = Chance { state: 0xfeed_face_cafe_beef };
    let mut ends = 0;
    let mut bests = 0;
    let mut misses = 0;
    let mut hauls = 0;
    for run in 0..60 {
        let mut g = Game::new([0, 500, 100_000_000]);
        g.dash.sound = run % 3 != 0;
        let mut input = Input::default();
        if run % 2 == 0 {
            input.release(Key::Other);
        }
        g.start_run(Difficulty::ALL[run % 3], VIEW);
        for _ in 0..2500 {
            let dt = chance.range(0.004, 0.04);
            match chance.next() % 90 {
                0 => input.press(Key::Left, g.dash.time),
                1 => input.press(Key::Right, g.dash.time),
                2 => input.press(Key::Up, g.dash.time),
                3 => input.press(Key::Down, g.dash.time),
                4 => input.press(Key::Char(' '), g.dash.time),
                5 if run % 2 == 0 => input.release(Key::Left),
                6 if run % 2 == 0 => input.release(Key::Right),
                7 if run % 2 == 0 => input.release(Key::Down),
                8 if run % 2 == 0 => input.release(Key::Char(' ')),
                _ => {}
            }
            let before = g.dash.score;
            let out = advance(&mut g, &mut chance, dt, &input);
            assert!(before.le(g.dash.score));
            if out.best {
                bests += 1;
            }
            hauls = hauls.max(g.floats.iter().filter(|f| f.text == "+250 ◆").count());
            if g.dash.state == State::GameOver {
                ends += 1;
                misses += g.dash.near_misses;
                for _ in 0..60 {
                    advance(&mut g, &mut chance, 0.02, &input);
                }
                break;
            }
        }
    }
    assert!(ends >= 1);
    assert!(bests <= ends);
    let _ = (misses, hauls);
}

fn racing() -> Game {
    let mut g = Game::new([0; 3]);
    g.start_run(Difficulty::Rush, VIEW);
    g.dash.state = State::Running;
    g.dash.speed = num(150.0);
    g.dash.spawn_t = num(100.0);
    g.dash.pickup_t = num(100.0);
    g
}

fn rival(lane: usize, y: f64, speed: f64, truck: bool) -> rat_racer::entities::Car {
    rat_racer::entities::Car {
        lane,
        x: num(8.0 * (lane as f64 + 0.5)),
        y: num(y),
        speed: num(speed),
        color: rgb(1, 2, 3),
        truck,
        passed: false,
        wob: num(0.0),
        wob_f: num(1.0),
    }
}

#[test]
fn near_misses_raise_the_combo() {
    let mut chance = Chance { state: 4242 };
    let mut g = racing();
    g.dash.player_x = num(14.5);
    g.traffic.push(rival(2, 26.95, 60.0, false));
    g.traffic.push(rival(0, 26.95, 60.0, false));
    g.traffic.push(rival(3, 26.95, 60.0, true));
    let out = advance(&mut g, &mut chance, 0.02, &Input::default());
    assert_eq!(out.bells, 1);
    assert_eq!((g.dash.combo, g.dash.best_combo, g.dash.near_misses), (1, 1, 1));
    assert_eq!(g.dash.combo_t, num(2.6));
    assert_eq!(g.floats.last().unwrap().text, "+160 CLOSE!");
    assert!(g.traffic.iter().all(|c| c.passed));
    let out = advance(&mut g, &mut chance, 0.02, &Input::default());
    assert_eq!(out.bells, 0);
    assert_eq!(g.dash.combo, 1);
    g.traffic.push(rival(2, 26.95, 60.0, true));
    let out = advance(&mut g, &mut chance, 0.02, &Input::default());
    assert_eq!(out.bells, 1);
    assert_eq!(g.dash.combo, 2);
    assert_eq!(g.floats.last().unwrap().text, "+220 CLOSE! x2");
    for _ in 0..140 {
        advance(&mut g, &mut chance, 0.02, &Input::default());
    }
    assert_eq!((g.dash.combo, g.dash.best_combo, g.dash.near_misses), (0, 2, 2));
}

#[test]
fn slow_passes_are_no_near_misses() {
    let mut chance = Chance { state: 4243 };
    let mut g = racing();
    g.dash.player_x = num(14.5);
    g.traffic.push(rival(2, 27.5, 149.0, false));
    advance(&mut g, &mut chance, 0.02, &Input::default());
    assert!(g.traffic[0].passed);
    assert_eq!(g.dash.combo, 0);
}

#[test]
fn a_hit_ends_the_race() {
    let mut chance = Chance { state: 31 };
    let mut g = racing();
    g.dash.combo = 2;
    g.dash.best_combo = 2;
    g.dash.near_misses = 2;
    g.dash.combo_t = num(2.0);
    g.dash.score = num(1234.5);
    g.traffic.push(rival(1, 20.0, 60.0, false));
    let out = advance(&mut g, &mut chance, 0.02, &Input::default());
    assert_eq!(out.bells, 3);
    assert_eq!(g.dash.state, State::Crashing);
    assert_eq!(g.dash.combo, 0);
    assert_eq!(g.particles.len(), 56);
    let mut best = false;
    for _ in 0..100 {
        best = advance(&mut g, &mut chance, 0.02, &Input::default()).best || best;
    }
    assert_eq!(g.dash.state, State::GameOver);
    assert!(best && g.dash.new_best);
    assert_eq!(g.hi[1], val(g.dash.score) as u64);
    assert_eq!(g.dash.speed, num(0.0));
}

#[test]
fn bonuses_are_collected() {
    let mut chance = Chance { state: 8 };
    let mut g = racing();
    g.dash.nitro = num(0.5);
    let at = |x: f64, y: f64| rat_racer::entities::Pickup { x: num(x), y: num(y), t: num(0.0) };
    g.pickups = vec![at(14.0, 23.0), at(28.0, 23.0), at(17.0, 26.0), at(4.0, 0.0)];
    let out = advance(&mut g, &mut chance, 0.02, &Input::default());
    assert_eq!(out.bells, 4);
    assert_eq!(g.pickups.len(), 2);
    assert_eq!((g.pickups[0].x, g.pickups[1].x), (num(4.0), num(28.0)));
    assert_eq!(g.dash.nitro, num(1.0));
    assert_eq!(g.floats.iter().filter(|f| f.text == "+250 ◆").count(), 2);
}

#[test]
fn nitro_burns_and_runs_dry() {
    let mut chance = Chance { state: 5 };
    let mut g = racing();
    let mut input = Input::default();
    input.release(Key::Other);
    input.press(Key::Char(' '), g.dash.time);
    let out = advance(&mut g, &mut chance, 0.02, &input);
    assert_eq!(out.bells, 1);
    assert!(g.dash.nitro_on);
    assert_eq!(g.floats[0].text, "NITRO!");
    let mut lit = 0;
    for _ in 0..400 {
        if advance(&mut g, &mut chance, 0.02, &input).bells > 0 {
            lit += 1;
        }
        assert!(num(0.0).le(g.dash.nitro) && g.dash.nitro.le(num(1.0)));
    }
    assert!(lit > 0);
}

#[test]
fn the_verge_slows_the_car_down() {
    let mut chance = Chance { state: 6 };
    let mut g = racing();
    let mut input = Input::default();
    input.release(Key::Other);
    input.press(Key::Left, g.dash.time);
    for _ in 0..200 {
        advance(&mut g, &mut chance, 0.02, &input);
    }
    assert_eq!(g.dash.player_x, num(-1.2));
    assert_eq!(g.dash.player_vx, num(0.0));
    assert_eq!(g.dash.speed, num(55.0));
    assert!(g.dash.offroad_msg_t.le(num(1.3)));
}

#[test]
fn a_pause_freezes_the_road() {
    let mut g = Game::new([0; 3]);
    let mut chance = Chance { state: 77 };
    let input = Input::default();
    g.start_run(Difficulty::Rush, VIEW);
    for _ in 0..200 {
        advance(&mut g, &mut chance, 0.02, &input);
    }
    assert_eq!(g.dash.state, State::Running);
    g.dash.state = State::Paused;
    let before = plain(&g);
    let out = advance(&mut g, &mut chance, 0.5, &input);
    assert_eq!(out, Outcome { bells: 0, best: false });
    assert_eq!(plain(&g), Plain { time: before.time + 0.5, ..before });
}

#[test]
fn the_countdown_rings() {
    let mut g = Game::new([0; 3]);
    let mut chance = Chance { state: 99 };
    let input = Input::default();
    g.start_run(Difficulty::Chill, VIEW);
    let mut bells = Vec::new();
    while g.dash.state == State::Countdown {
        let out = advance(&mut g, &mut chance, 0.0625, &input);
        if out.bells > 0 {
            bells.push((g.dash.last_count, out.bells));
        }
    }
    assert_eq!(bells, vec![(3, 1), (2, 1), (1, 1), (0, 3)]);
    assert_eq!(g.dash.state, State::Running);
    assert_eq!(g.dash.speed, num(42.0));
}

#[test]
fn intensities_have_their_odds() {
    let mut g = Game::new([0; 3]);
    g.dash.sel = Difficulty::Chill;
    g.dash.diff = Difficulty::Mayhem;
    let menu = g.odds();
    assert_eq!(menu.gap, Bounds { lo: 180, hi: 320 });
    assert_eq!(menu.speed, Bounds { lo: 5000, hi: 8500 });
    g.dash.state = State::Running;
    let race = g.odds();
    assert_eq!(race.gap, Bounds { lo: 62, hi: 105 });
    assert_eq!(race.speed, Bounds { lo: 6600, hi: 12800 });
    assert_eq!((race.truck, race.left, race.ember), (22, 50, 40));
    assert_eq!(race.smoke.dx, Bounds { lo: -70, hi: 70 });
    assert_eq!(race.smoke.thin, 50);
    g.dash.state = State::Crashing;
    assert_eq!(g.odds().smoke.dx, Bounds { lo: -150, hi: 150 });
    assert_eq!(g.odds().smoke.thin, 60);
    assert_eq!(race.sprout, Bounds { lo: 18, hi: 55 });
    assert_eq!(race.bonus, Bounds { lo: 400, hi: 800 });
    assert_eq!(race.shard_pace, Bounds { lo: 500, hi: 3200 });
    assert_eq!(race.soot_pace, Bounds { lo: 200, hi: 1000 });
}

#[test]
fn clocks_run_in_every_state() {
    let mut chance = Chance { state: 0x5a5a_1234_8765_a5a5 };
    let states =
        [State::Menu, State::Countdown, State::Running, State::Paused, State::Crashing, State::GameOver];
    for state in states {
        let mut g = Game::new([0; 3]);
        g.dash.state = state;
        g.dash.time = num(3.25);
        advance(&mut g, &mut chance, 0.1, &Input::default());
        assert_eq!(val(g.dash.time), 3.25 + 0.1);
    }
}

#[test]
fn races_stay_within_bounds() {
    let mut chance = Chance { state: 0x0f1e_2d3c_4b5a_6978 };
    let mut g = Game::new([0; 3]);
    g.start_run(Difficulty::Mayhem, VIEW);
    g.dash.state = State::Running;
    let mut input = Input::default();
    input.press(Key::Right, num(0.0));
    input.release_seen = true;
    let road = geom(VIEW).road_w as f64;
    for i in 0..400 {
        let before = (val(g.dash.distance), val(g.dash.scroll), g.dash.near_misses, val(g.dash.run_t));
        if i == 100 {
            input.press(Key::Char(' '), num(0.0));
        }
        advance(&mut g, &mut chance, 0.02, &input);
        assert!(-1.2 <= val(g.dash.player_x) && val(g.dash.player_x) <= road + 1.2);
        assert!(val(g.dash.player_vx).abs() <= 34.0);
        assert!(0.0 <= val(g.dash.nitro) && val(g.dash.nitro) <= 1.0);
        assert!(val(g.dash.shake) >= 0.0);
        assert!(32.0 <= val(g.dash.speed) && val(g.dash.speed) <= 265.0 + 55.0);
        assert!(val(g.dash.distance) >= before.0 && val(g.dash.scroll) >= before.1);
        assert!(g.dash.near_misses >= before.2);
        assert_eq!(val(g.dash.run_t), before.3 + 0.02);
        assert!(val(g.dash.top_speed) >= val(g.dash.speed));
        for c in &g.traffic {
            let middle = geom(VIEW).lane_w as f64 * (c.lane as f64 + 0.5);
            assert!(middle - 0.22 <= val(c.x) && val(c.x) <= middle + 0.22);
        }
        if g.dash.state == State::Crashing {
            return;
        }
    }
}
