use rat_racer::difficulty::Difficulty;
use rat_racer::drift::{Gust, Waft};
use rat_racer::dice::Draft;
use rat_racer::entities::{puff, Car, Particle, Pickup, SceneryKind};
use rat_racer::game::{Flow, Game, State};
use rat_racer::geometry::Area;
use rat_racer::input::{Input, Key, KeyKind};
use rat_racer::num::Num;
use rat_racer::running::{close_bonus, close_message};
use rat_racer::style::Rgb;
use rat_racer::traffic::{free_lanes, lane_taken};
use rat_racer::verge::{sign, sign_bytes};

const VIEW: Area = Area { x: 0, y: 3, width: 80, height: 20 };

fn num(f: f64) -> Num {
    Num::from_bits(f.to_bits())
}

fn press(g: &mut Game, input: &mut Input, key: Key) -> Flow {
    g.on_key(input, key, KeyKind::Press, false, VIEW)
}

fn car(lane: usize, y: f64) -> Car {
    Car {
        lane,
        x: num(4.0),
        y: num(y),
        speed: num(60.0),
        color: Rgb { r: 1, g: 2, b: 3 },
        truck: false,
        passed: false,
        wob: num(0.0),
        wob_f: num(1.0),
    }
}

#[test]
fn a_new_game_is_in_the_menu() {
    let g = Game::new([7, 8, 9]);
    assert_eq!(g.dash.state, State::Menu);
    assert_eq!((g.dash.diff, g.dash.sel), (Difficulty::Rush, Difficulty::Rush));
    assert_eq!(g.hi, [7, 8, 9]);
    assert_eq!(g.dash.nitro, num(1.0));
    assert_eq!(g.dash.player_x, num(16.0));
    assert_eq!((g.dash.spawn_t, g.dash.pickup_t, g.dash.scenery_t), (num(1.0), num(5.0), num(0.2)));
    assert_eq!(g.dash.last_count, 99);
    assert!(g.dash.sound);
    assert!(g.traffic.is_empty() && g.floats.is_empty());
}

#[test]
fn enter_starts_the_selected_intensity() {
    let mut g = Game::new([0; 3]);
    let mut input = Input::default();
    assert_eq!(press(&mut g, &mut input, Key::Char('3')), Flow::Stay);
    g.traffic.push(car(0, 3.0));
    g.dash.score = num(55.0);
    press(&mut g, &mut input, Key::Enter);
    assert_eq!(g.dash.state, State::Countdown);
    assert_eq!(g.dash.diff, Difficulty::Mayhem);
    assert_eq!(g.dash.countdown, num(2.999));
    assert_eq!((g.dash.spawn_t, g.dash.pickup_t), (num(0.8), num(4.0)));
    assert_eq!(g.dash.score, num(0.0));
    assert_eq!(g.dash.player_x, num(16.0));
    assert!(g.traffic.is_empty());
    g.dash.state = State::GameOver;
    press(&mut g, &mut input, Key::Char('1'));
    assert_eq!(g.dash.sel, Difficulty::Chill);
    press(&mut g, &mut input, Key::Enter);
    assert_eq!(g.dash.diff, Difficulty::Mayhem);
    g.dash.state = State::Running;
    press(&mut g, &mut input, Key::Enter);
    assert_eq!(g.dash.state, State::Running);
}

#[test]
fn the_menu_is_walked_left_and_right() {
    let mut g = Game::new([0; 3]);
    let mut input = Input::default();
    let mut seen = Vec::new();
    for _ in 0..4 {
        press(&mut g, &mut input, Key::Right);
        seen.push(g.dash.sel);
    }
    assert_eq!(
        seen,
        vec![Difficulty::Mayhem, Difficulty::Chill, Difficulty::Rush, Difficulty::Mayhem]
    );
    press(&mut g, &mut input, Key::Left);
    assert_eq!(g.dash.sel, Difficulty::Rush);
    g.on_key(&mut input, Key::Left, KeyKind::Repeat, false, VIEW);
    assert_eq!(g.dash.sel, Difficulty::Rush);
    g.dash.state = State::Running;
    press(&mut g, &mut input, Key::Left);
    assert_eq!(g.dash.sel, Difficulty::Rush);
    assert!(input.left && input.right);
}

#[test]
fn pausing_twice_goes_on() {
    let mut g = Game::new([0; 3]);
    let mut input = Input::default();
    g.dash.state = State::Running;
    press(&mut g, &mut input, Key::Char('p'));
    assert_eq!(g.dash.state, State::Paused);
    press(&mut g, &mut input, Key::Char('p'));
    assert_eq!(g.dash.state, State::Running);
    g.on_key(&mut input, Key::Char('p'), KeyKind::Repeat, false, VIEW);
    assert_eq!(g.dash.state, State::Running);
}

#[test]
fn escape_leaves_the_end_for_the_menu() {
    let mut g = Game::new([0; 3]);
    let mut input = Input::default();
    g.dash.state = State::GameOver;
    g.dash.speed = num(12.0);
    g.dash.shake = num(0.5);
    g.traffic.push(car(1, 1.0));
    assert_eq!(press(&mut g, &mut input, Key::Esc), Flow::Stay);
    assert_eq!(g.dash.state, State::Menu);
    assert_eq!((g.dash.speed, g.dash.shake), (num(0.0), num(0.0)));
    assert!(g.traffic.is_empty());
    assert_eq!(press(&mut g, &mut input, Key::Esc), Flow::Quit);
}

#[test]
fn some_keys_quit() {
    for state in [State::Menu, State::Countdown, State::Running, State::Paused, State::Crashing, State::GameOver] {
        let mut g = Game::new([0; 3]);
        let mut input = Input::default();
        g.dash.state = state;
        assert_eq!(press(&mut g, &mut input, Key::Char('q')), Flow::Quit);
        assert_eq!(g.on_key(&mut input, Key::Char('c'), KeyKind::Press, true, VIEW), Flow::Quit);
        assert_eq!(g.on_key(&mut input, Key::Char('c'), KeyKind::Release, true, VIEW), Flow::Quit);
        assert_eq!(g.on_key(&mut input, Key::Char('c'), KeyKind::Press, false, VIEW), Flow::Stay);
        assert_eq!(g.on_key(&mut input, Key::Char('q'), KeyKind::Release, false, VIEW), Flow::Stay);
        assert!(input.release_seen);
        assert_eq!(g.on_key(&mut input, Key::Esc, KeyKind::Release, false, VIEW), Flow::Stay);
        assert_eq!(g.dash.state, state);
        if state != State::GameOver {
            assert_eq!(press(&mut g, &mut input, Key::Esc), Flow::Quit);
            assert_eq!(g.on_key(&mut input, Key::Esc, KeyKind::Repeat, false, VIEW), Flow::Quit);
            assert_eq!(g.dash.state, state);
        }
    }
}

#[test]
fn the_sound_is_switched() {
    let mut g = Game::new([0; 3]);
    let mut input = Input::default();
    assert_eq!(g.bells(3), 3);
    press(&mut g, &mut input, Key::Char('m'));
    assert!(!g.dash.sound);
    assert_eq!(g.bells(3), 0);
    g.on_key(&mut input, Key::Char('m'), KeyKind::Repeat, false, VIEW);
    assert!(!g.dash.sound);
    press(&mut g, &mut input, Key::Char('m'));
    assert!(g.dash.sound);
}

#[test]
fn countdowns_and_crashes_are_not_left_by_keys() {
    for state in [State::Countdown, State::Crashing] {
        for key in [Key::Enter, Key::Char('p'), Key::Left, Key::Char('2')] {
            let mut g = Game::new([0; 3]);
            let mut input = Input::default();
            g.dash.state = state;
            assert_eq!(press(&mut g, &mut input, key), Flow::Stay);
            assert_eq!(g.dash.state, state);
        }
    }
}

#[test]
fn best_scores_are_entered_once() {
    let mut g = Game::new([10, 20, 30]);
    g.dash.score = num(20.9);
    assert!(!g.commit_hi());
    assert_eq!(g.hi, [10, 20, 30]);
    g.dash.score = num(21.0);
    assert!(g.commit_hi());
    assert_eq!(g.hi, [10, 21, 30]);
    assert!(g.dash.new_best);
    assert!(!g.commit_hi());
    g.dash.score = num(-5.0);
    assert!(!g.commit_hi());
    assert_eq!(g.hi, [10, 21, 30]);
    g.dash.score = num(1e30);
    assert!(g.commit_hi());
    assert_eq!(g.hi[1], u64::MAX);
}

#[test]
fn texts_rise_above_the_car() {
    let mut g = Game::new([0; 3]);
    g.dash.player_x = num(11.5);
    g.flash("HELLO", Rgb { r: 1, g: 2, b: 3 }, VIEW);
    let f = &g.floats[0];
    assert_eq!(f.text, "HELLO");
    assert_eq!((f.x, f.y, f.t), (num(11.5), num(9.0), num(0.0)));
}

#[test]
fn close_calls_pay() {
    assert_eq!(close_bonus(1), 160);
    assert_eq!(close_bonus(2), 220);
    assert_eq!(close_message(1), "+160 CLOSE!");
    assert_eq!(close_message(3), "+280 CLOSE! x3");
}

#[test]
fn crowds_of_particles_lose_their_oldest() {
    let mut particles: Vec<Particle> = Vec::new();
    let one = |i: usize| Particle {
        x: num(i as f64),
        y: num(0.0),
        vx: num(0.0),
        vy: num(0.0),
        life: num(1.0),
        max: num(1.0),
        ch: '*',
        color: Rgb { r: 0, g: 0, b: 0 },
        scrolls: true,
    };
    for i in 0..321 {
        puff(&mut particles, one(i));
    }
    assert_eq!(particles.len(), 321);
    assert_eq!(particles[0].x, num(0.0));
    puff(&mut particles, one(321));
    assert_eq!(particles.len(), 282);
    assert_eq!(particles[0].x, num(40.0));
    assert_eq!(particles[281].x, num(321.0));
}

#[test]
fn lanes_are_free_or_taken() {
    let traffic = vec![car(0, 5.0), car(2, 19.99), car(3, 20.0)];
    assert_eq!(free_lanes(&traffic), vec![1, 3]);
    assert!(lane_taken(&traffic, 0, 12));
    assert!(!lane_taken(&traffic, 2, 12));
    assert!(!lane_taken(&traffic, 1, 20));
    assert_eq!(free_lanes(&Vec::new()), vec![0, 1, 2, 3]);
}

#[test]
fn an_escape_lane_stays_open_for_ever() {
    let draft = Draft { truck: true, speed: num(50.0), wob: num(0.5), wob_f: num(1.5) };
    for _ in 0..200 {
        let mut g = Game::new([0; 3]);
        for _ in 0..10 {
            g.spawn_traffic(draft, VIEW);
        }
        assert_eq!(g.traffic.len(), 3);
        assert_eq!(free_lanes(&g.traffic).len(), 1);
        for c in &g.traffic {
            assert_eq!(c.speed, num(40.0));
            assert_eq!(c.x, num(8.0 * (c.lane as f64 + 0.5)));
            assert_eq!((c.y, c.wob, c.wob_f), (num(-10.0), num(0.5), num(1.5)));
        }
    }
}

#[test]
fn all_lanes_and_paints_come_up() {
    let draft = Draft { truck: false, speed: num(50.0), wob: num(0.5), wob_f: num(1.5) };
    let mut lanes = [0; 4];
    let mut colors: Vec<Rgb> = Vec::new();
    for _ in 0..400 {
        let mut g = Game::new([0; 3]);
        g.spawn_traffic(draft, VIEW);
        lanes[g.traffic[0].lane] += 1;
        if !colors.contains(&g.traffic[0].color) {
            colors.push(g.traffic[0].color);
        }
    }
    assert!(lanes.iter().all(|&n| n > 0));
    assert_eq!(colors.len(), 8);
}

#[test]
fn bonuses_avoid_cars() {
    let mut g = Game::new([0; 3]);
    g.traffic.push(car(1, 11.0));
    g.drop_pickup(1, VIEW);
    assert!(g.pickups.is_empty());
    g.drop_pickup(2, VIEW);
    let p: Pickup = g.pickups[0];
    assert_eq!((p.x, p.y, p.t), (num(20.0), num(-4.0), num(0.0)));
}

#[test]
fn things_are_planted_beside_the_road() {
    let wide = Area { x: 0, y: 3, width: 120, height: 20 };
    let mut g = Game::new([0; 3]);
    g.plant(wide, true, num(0.41), 0, 0);
    g.plant(wide, true, num(0.42), 0, 5);
    g.plant(wide, false, num(0.66), 0, 0);
    g.plant(wide, false, num(0.82), 4, 3);
    g.plant(VIEW, true, num(0.9), 4, 0);
    let kinds: Vec<SceneryKind> = g.scenery.iter().map(|s| s.kind).collect();
    assert_eq!(
        kinds,
        vec![SceneryKind::Tree, SceneryKind::Bush, SceneryKind::Rock, SceneryKind::Sign(4), SceneryKind::Sign(4)]
    );
    let columns: Vec<i32> = g.scenery.iter().map(|s| s.x).collect();
    assert_eq!(columns, vec![1, 6, 79, 82, 1]);
    let narrow = Area { x: 0, y: 3, width: 70, height: 20 };
    g.plant(narrow, true, num(0.9), 4, 0);
    assert_eq!(g.scenery.last().unwrap().kind, SceneryKind::Tree);
    assert_eq!(g.scenery.last().unwrap().y, num(-8.0));
}

#[test]
fn slogans_have_their_lengths() {
    for i in 0..5 {
        assert_eq!(sign_bytes(i) as usize, sign(i).len());
    }
    assert_eq!(sign(2), "BON APPÉTIT");
}

#[test]
fn wrecks_have_remarks_and_shards_have_shapes() {
    let mut g = Game::new([0; 3]);
    g.dash.state = State::Running;
    g.dash.combo = 3;
    g.dash.best_combo = 3;
    g.dash.near_misses = 4;
    g.wreck(2);
    assert_eq!(g.dash.state, State::Crashing);
    assert_eq!((g.dash.quip, g.dash.combo, g.dash.best_combo), (2, 0, 3));
    assert_eq!(g.dash.shake, num(1.3));
    let gust = Gust {
        waft: Waft { x: num(1.0), y: num(2.0), vx: num(3.0), vy: num(4.0) },
        life: num(0.7),
    };
    g.shard(gust, 4, 2);
    g.flame(gust, 1, 2);
    assert_eq!((g.particles[0].ch, g.particles[0].color), ('*', Rgb { r: 255, g: 70, b: 40 }));
    assert_eq!((g.particles[1].ch, g.particles[1].color), ('▒', Rgb { r: 80, g: 160, b: 255 }));
    assert_eq!(g.particles[0].max, num(0.7));
}
