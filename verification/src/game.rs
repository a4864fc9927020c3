//! The state of the game and what the player does to it outside the race.

use crate::chance::thread_rng;
use crate::difficulty::Difficulty;
use crate::entities::{all_short, captions, Caption, Car, FloatText, Particle, Pickup, Scenery, SceneryKind, CROWD, LONGEST};
use crate::geometry::{geom, mid_road, player_row, player_y, Area};
use crate::input::{Input, Key, KeyKind};
use crate::num::Num;
use crate::rounding::limited;
use crate::style::Rgb;
use rand::rngs::ThreadRng;
use vstd::prelude::*;

verus! {

/// What the game is doing.
#[derive(Clone, Copy, PartialEq, Eq, Structural, Debug)]
pub enum State {
    Menu,
    Countdown,
    Running,
    Paused,
    Crashing,
    GameOver,
}

/// Every reading of the game that is a single value.
#[derive(Clone, Copy, Debug)]
pub struct Dash {
    pub state: State,
    /// The intensity of the run.
    pub diff: Difficulty,
    /// The intensity that the menu has selected.
    pub sel: Difficulty,
    pub time: Num,
    pub run_t: Num,
    pub countdown: Num,
    pub last_count: i32,
    pub crash_t: Num,
    pub speed: Num,
    pub top_speed: Num,
    pub scroll: Num,
    pub distance: Num,
    pub score: Num,
    pub new_best: bool,
    pub nitro: Num,
    pub nitro_on: bool,
    pub player_x: Num,
    pub player_vx: Num,
    /// Near misses in a row.
    pub combo: u32,
    pub combo_t: Num,
    pub best_combo: u32,
    pub near_misses: u32,
    pub shake: Num,
    pub spawn_t: Num,
    pub pickup_t: Num,
    pub scenery_t: Num,
    pub exhaust_t: Num,
    pub dust_t: Num,
    pub wreck_t: Num,
    pub offroad_msg_t: Num,
    /// The number of the remark on the last crash.
    pub quip: usize,
    pub sound: bool,
}

/// The game.
pub struct Game {
    pub dash: Dash,
    /// The best score of each intensity.
    pub hi: [u64; 3],
    pub traffic: Vec<Car>,
    pub pickups: Vec<Pickup>,
    pub particles: Vec<Particle>,
    pub scenery: Vec<Scenery>,
    pub floats: Vec<FloatText>,
    pub rng: ThreadRng,
}

/// The game as the contracts see it.
pub struct GameModel {
    pub dash: Dash,
    pub hi: Seq<u64>,
    pub traffic: Seq<Car>,
    pub pickups: Seq<Pickup>,
    pub particles: Seq<Particle>,
    pub scenery: Seq<Scenery>,
    pub floats: Seq<Caption>,
}

/// The remarks on a crash.
pub const QUIP_COUNT: usize = 4;

/// The slogans on billboards.
pub const SIGN_COUNT: usize = 5;

impl GameModel {
    /// What holds of the game at any time.
    pub open spec fn wf(self) -> bool {
        &&& self.hi.len() == 3
        &&& self.dash.combo <= self.dash.best_combo <= self.dash.near_misses
        &&& self.dash.quip < QUIP_COUNT
        &&& self.particles.len() <= CROWD + 1
        &&& all_short(self.floats)
        &&& forall|i: int| #![trigger self.traffic[i]]
            0 <= i < self.traffic.len() ==> self.traffic[i].lane < 4
        &&& forall|i: int| #![trigger self.scenery[i]]
            0 <= i < self.scenery.len() ==> (self.scenery[i].kind matches SceneryKind::Sign(n) ==> n
                < SIGN_COUNT)
    }

    /// The game after the start of a run at intensity `d`.
    pub open spec fn started(self, d: Difficulty, view: Area) -> GameModel {
        GameModel {
            dash: Dash {
                state: State::Countdown,
                diff: d,
                countdown: Num::spec_ratio(2999, 1000),
                last_count: 99,
                run_t: Num::spec_whole(0),
                crash_t: Num::spec_whole(0),
                speed: Num::spec_whole(0),
                top_speed: Num::spec_whole(0),
                distance: Num::spec_whole(0),
                score: Num::spec_whole(0),
                new_best: false,
                nitro: Num::spec_whole(1),
                nitro_on: false,
                player_x: mid_road(view),
                player_vx: Num::spec_whole(0),
                combo: 0,
                combo_t: Num::spec_whole(0),
                best_combo: 0,
                near_misses: 0,
                shake: Num::spec_whole(0),
                spawn_t: Num::spec_ratio(8, 10),
                pickup_t: Num::spec_whole(4),
                offroad_msg_t: Num::spec_whole(0),
                ..self.dash
            },
            traffic: Seq::empty(),
            pickups: Seq::empty(),
            particles: Seq::empty(),
            floats: Seq::empty(),
            ..self
        }
    }

    /// The game back in the menu.
    pub open spec fn in_menu(self) -> GameModel {
        GameModel {
            dash: Dash {
                state: State::Menu,
                speed: Num::spec_whole(0),
                shake: Num::spec_whole(0),
                nitro_on: false,
                ..self.dash
            },
            traffic: Seq::empty(),
            pickups: Seq::empty(),
            particles: Seq::empty(),
            floats: Seq::empty(),
            ..self
        }
    }

    /// The game in another state, all else as it was.
    pub open spec fn in_state(self, state: State) -> GameModel {
        GameModel { dash: Dash { state, ..self.dash }, ..self }
    }

    /// The game with another intensity selected.
    pub open spec fn selected(self, sel: Difficulty) -> GameModel {
        GameModel { dash: Dash { sel, ..self.dash }, ..self }
    }

    /// The game with a text above the car.
    pub open spec fn flashed(self, text: Seq<char>, color: Rgb, view: Area) -> GameModel {
        GameModel {
            floats: self.floats.push(
                Caption {
                    text,
                    x: self.dash.player_x,
                    y: Num::spec_whole(player_row(view) - 3),
                    t: Num::spec_whole(0),
                    color,
                },
            ),
            ..self
        }
    }

    /// The score in whole points.
    pub open spec fn points(self) -> u64 {
        limited(self.dash.score.spec_floor(), 0, u64::MAX as int) as u64
    }

    /// The game after the score of the run was entered.
    pub open spec fn committed(self) -> GameModel {
        let place = self.dash.diff.place();
        if self.points() > self.hi[place] {
            GameModel {
                dash: Dash { new_best: true, ..self.dash },
                hi: self.hi.update(place, self.points()),
                ..self
            }
        } else {
            self
        }
    }

    /// The game with the pause begun or ended.
    pub open spec fn pause_toggled(self) -> GameModel {
        match self.dash.state {
            State::Running => self.in_state(State::Paused),
            State::Paused => self.in_state(State::Running),
            _ => self,
        }
    }

    /// The game after a key was pressed, or repeated if `press` is false.
    pub open spec fn keyed(self, key: Key, press: bool, world: Area) -> GameModel {
        match key {
            Key::Esc => if self.dash.state is GameOver {
                self.in_menu()
            } else {
                self
            },
            Key::Enter => if self.dash.state is Menu {
                self.started(self.dash.sel, world)
            } else if self.dash.state is GameOver {
                self.started(self.dash.diff, world)
            } else {
                self
            },
            Key::Left => if self.dash.state is Menu && press {
                self.selected(Difficulty::at(self.dash.sel.place() + 2))
            } else {
                self
            },
            Key::Right => if self.dash.state is Menu && press {
                self.selected(Difficulty::at(self.dash.sel.place() + 1))
            } else {
                self
            },
            Key::Char(c) => if c == 'm' && press {
                GameModel { dash: Dash { sound: !self.dash.sound, ..self.dash }, ..self }
            } else if c == 'p' && press {
                self.pause_toggled()
            } else if c == '1' {
                self.selected(Difficulty::Chill)
            } else if c == '2' {
                self.selected(Difficulty::Rush)
            } else if c == '3' {
                self.selected(Difficulty::Mayhem)
            } else {
                self
            },
            _ => self,
        }
    }
}

/// Whether a key ends the program in this state.
pub open spec fn quits(state: State, key: Key, kind: KeyKind, ctrl: bool) -> bool {
    ||| ctrl && key == Key::Char('c')
    ||| kind !is Release && key == Key::Char('q')
    ||| kind !is Release && key is Esc && state !is GameOver
}

/// Whether a key is a command of the game and not handed to the controls.
pub open spec fn is_command(key: Key) -> bool {
    match key {
        Key::Enter | Key::Esc => true,
        Key::Char(c) => c == 'q' || c == 'm' || c == 'p' || c == '1' || c == '2' || c == '3',
        _ => false,
    }
}

/// What the program does after a key.
#[derive(Clone, Copy, PartialEq, Eq, Structural, Debug)]
pub enum Flow {
    Stay,
    Quit,
}

impl View for Game {
    type V = GameModel;

    open spec fn view(&self) -> GameModel {
        GameModel {
            dash: self.dash,
            hi: self.hi@,
            traffic: self.traffic@,
            pickups: self.pickups@,
            particles: self.particles@,
            scenery: self.scenery@,
            floats: captions(self.floats@),
        }
    }
}

/// The readings of a game that has just been opened.
pub open spec fn fresh_dash() -> Dash {
    Dash {
        state: State::Menu,
        diff: Difficulty::Rush,
        sel: Difficulty::Rush,
        time: Num::spec_whole(0),
        run_t: Num::spec_whole(0),
        countdown: Num::spec_whole(0),
        last_count: 99,
        crash_t: Num::spec_whole(0),
        speed: Num::spec_whole(0),
        top_speed: Num::spec_whole(0),
        scroll: Num::spec_whole(0),
        distance: Num::spec_whole(0),
        score: Num::spec_whole(0),
        new_best: false,
        nitro: Num::spec_whole(1),
        nitro_on: false,
        player_x: Num::spec_whole(16),
        player_vx: Num::spec_whole(0),
        combo: 0,
        combo_t: Num::spec_whole(0),
        best_combo: 0,
        near_misses: 0,
        shake: Num::spec_whole(0),
        spawn_t: Num::spec_whole(1),
        pickup_t: Num::spec_whole(5),
        scenery_t: Num::spec_ratio(2, 10),
        exhaust_t: Num::spec_whole(0),
        dust_t: Num::spec_whole(0),
        wreck_t: Num::spec_whole(0),
        offroad_msg_t: Num::spec_whole(0),
        quip: 0,
        sound: true,
    }
}

impl Game {
    /// A game in the menu with these best scores.
    pub fn new(hi: [u64; 3]) -> (g: Game)
        ensures
            g@.dash == fresh_dash(),
            g@.hi == hi@,
            g@.traffic == Seq::<Car>::empty(),
            g@.pickups == Seq::<Pickup>::empty(),
            g@.particles == Seq::<Particle>::empty(),
            g@.scenery == Seq::<Scenery>::empty(),
            g@.floats == Seq::<Caption>::empty(),
            g@.wf(),
    {
        let zero: Num = Num::whole(0);
        let dash: Dash = Dash {
            state: State::Menu,
            diff: Difficulty::Rush,
            sel: Difficulty::Rush,
            time: zero,
            run_t: zero,
            countdown: zero,
            last_count: 99,
            crash_t: zero,
            speed: zero,
            top_speed: zero,
            scroll: zero,
            distance: zero,
            score: zero,
            new_best: false,
            nitro: Num::whole(1),
            nitro_on: false,
            player_x: Num::whole(16),
            player_vx: zero,
            combo: 0,
            combo_t: zero,
            best_combo: 0,
            near_misses: 0,
            shake: zero,
            spawn_t: Num::whole(1),
            pickup_t: Num::whole(5),
            scenery_t: Num::ratio(2, 10),
            exhaust_t: zero,
            dust_t: zero,
            wreck_t: zero,
            offroad_msg_t: zero,
            quip: 0,
            sound: true,
        };
        let g: Game = Game {
            dash,
            hi,
            traffic: Vec::new(),
            pickups: Vec::new(),
            particles: Vec::new(),
            scenery: Vec::new(),
            floats: Vec::new(),
            rng: thread_rng(),
        };
        assert(g@.floats =~= Seq::<Caption>::empty());
        g
    }

    /// Starts a run at intensity `d`.
    pub fn start_run(&mut self, d: Difficulty, view: Area)
        ensures
            final(self)@ == old(self)@.started(d, view),
            old(self)@.wf() ==> final(self)@.wf(),
            final(self).rng == old(self).rng,
    {
        let road_w: i32 = geom(view).road_w;
        let zero: Num = Num::whole(0);
        self.dash.diff = d;
        self.dash.state = State::Countdown;
        self.dash.countdown = Num::ratio(2999, 1000);
        self.dash.last_count = 99;
        self.dash.run_t = zero;
        self.dash.crash_t = zero;
        self.dash.speed = zero;
        self.dash.top_speed = zero;
        self.dash.distance = zero;
        self.dash.score = zero;
        self.dash.new_best = false;
        self.dash.nitro = Num::whole(1);
        self.dash.nitro_on = false;
        self.dash.player_x = Num::ratio(road_w, 2);
        self.dash.player_vx = zero;
        self.dash.combo = 0;
        self.dash.combo_t = zero;
        self.dash.best_combo = 0;
        self.dash.near_misses = 0;
        self.dash.shake = zero;
        self.dash.spawn_t = Num::ratio(8, 10);
        self.dash.pickup_t = Num::whole(4);
        self.dash.offroad_msg_t = zero;
        self.clear_road();
    }

    /// Goes back to the menu.
    pub fn to_menu(&mut self)
        ensures
            final(self)@ == old(self)@.in_menu(),
            old(self)@.wf() ==> final(self)@.wf(),
            final(self).rng == old(self).rng,
    {
        self.dash.state = State::Menu;
        self.dash.speed = Num::whole(0);
        self.dash.shake = Num::whole(0);
        self.dash.nitro_on = false;
        self.clear_road();
    }

    /// Takes everything off the road; what stands beside it stays.
    fn clear_road(&mut self)
        ensures
            final(self)@ == (GameModel {
                traffic: Seq::empty(),
                pickups: Seq::empty(),
                particles: Seq::empty(),
                floats: Seq::empty(),
                ..old(self)@
            }),
            final(self).rng == old(self).rng,
    {
        self.traffic.clear();
        self.pickups.clear();
        self.particles.clear();
        self.floats.clear();
        assert(self@.floats =~= Seq::<Caption>::empty());
    }

    /// Shows a floating text.
    pub(crate) fn add_float(&mut self, text: FloatText)
        ensures
            final(self)@ == (GameModel { floats: old(self)@.floats.push(text@), ..old(self)@ }),
    {
        let ghost seen = text@;
        self.floats.push(text);
        assert(self@.floats =~= old(self)@.floats.push(seen));
    }

    /// Shows a text above the car.
    pub fn flash(&mut self, text: &str, color: Rgb, view: Area)
        ensures
            final(self)@ == old(self)@.flashed(text@, color, view),
            old(self)@.wf() && text@.len() <= LONGEST ==> final(self)@.wf(),
    {
        let x: Num = self.dash.player_x;
        self.add_float(
            FloatText {
                text: text.to_owned(),
                x,
                y: Num::whole(player_y(view) - 3),
                t: Num::whole(0),
                color,
            },
        );
    }

    /// How many bells ring where `n` are asked for.
    pub fn bells(&self, n: usize) -> (r: usize)
        ensures
            r == (if self@.dash.sound {
                n as int
            } else {
                0
            }),
    {
        if self.dash.sound {
            n
        } else {
            0
        }
    }

    /// Enters the score of the run. Says whether it is a new best, to be written down.
    pub fn commit_hi(&mut self) -> (best: bool)
        ensures
            final(self)@ == old(self)@.committed(),
            best == (old(self)@.points() > old(self)@.hi[old(self)@.dash.diff.place()]),
            old(self)@.wf() ==> final(self)@.wf(),
            final(self).rng == old(self).rng,
    {
        let score: u64 = self.dash.score.truncated();
        let i: usize = self.dash.diff.index();
        if score > self.hi[i] {
            self.hi[i] = score;
            self.dash.new_best = true;
            true
        } else {
            false
        }
    }

    /// Begins or ends the pause.
    fn toggle_pause(&mut self)
        ensures
            final(self)@ == old(self)@.pause_toggled(),
            final(self).rng == old(self).rng,
    {
        match self.dash.state {
            State::Running => {
                self.dash.state = State::Paused;
            },
            State::Paused => {
                self.dash.state = State::Running;
            },
            _ => {},
        }
    }

    /// Reacts to a key. A key that is no command goes to the controls.
    pub fn on_key(&mut self, input: &mut Input, key: Key, kind: KeyKind, ctrl: bool, world: Area) -> (flow:
        Flow)
        ensures
            old(self)@.wf() ==> final(self)@.wf(),
            final(self).rng == old(self).rng,
            flow is Quit <==> quits(old(self)@.dash.state, key, kind, ctrl),
            flow is Quit ==> final(self)@ == old(self)@ && *final(input) == *old(input),
            flow is Stay && kind is Release ==> final(self)@ == old(self)@ && *final(input) == old(
                input,
            ).released(key),
            flow is Stay && kind !is Release ==> final(self)@ == old(self)@.keyed(
                key,
                kind is Press,
                world,
            ),
            flow is Stay && kind !is Release ==> *final(input) == (if is_command(key) {
                *old(input)
            } else {
                old(input).pressed(key, old(self)@.dash.time)
            }),
    {
        if ctrl && key == Key::Char('c') {
            return Flow::Quit;
        }
        if kind == KeyKind::Release {
            input.release(key);
            return Flow::Stay;
        }
        let press: bool = kind == KeyKind::Press;
        let now: Num = self.dash.time;
        match key {
            Key::Char('q') => {
                return Flow::Quit;
            },
            Key::Esc => match self.dash.state {
                State::GameOver => self.to_menu(),
                _ => {
                    return Flow::Quit;
                },
            },
            Key::Char('m') => {
                if press {
                    self.dash.sound = !self.dash.sound;
                }
            },
            Key::Char('p') => {
                if press {
                    self.toggle_pause();
                }
            },
            Key::Enter => match self.dash.state {
                State::Menu => {
                    let d: Difficulty = self.dash.sel;
                    self.start_run(d, world);
                },
                State::GameOver => {
                    let d: Difficulty = self.dash.diff;
                    self.start_run(d, world);
                },
                _ => {},
            },
            Key::Char('1') => {
                self.dash.sel = Difficulty::Chill;
            },
            Key::Char('2') => {
                self.dash.sel = Difficulty::Rush;
            },
            Key::Char('3') => {
                self.dash.sel = Difficulty::Mayhem;
            },
            Key::Left => {
                if self.dash.state == State::Menu && press {
                    self.dash.sel = self.dash.sel.further(2);
                }
                input.press(key, now);
            },
            Key::Right => {
                if self.dash.state == State::Menu && press {
                    self.dash.sel = self.dash.sel.further(1);
                }
                input.press(key, now);
            },
            _ => {
                input.press(key, now);
            },
        }
        Flow::Stay
    }
}

/// What holds of the game at any time does not hang on its timers and readings.
pub(crate) proof fn lemma_still_wf(a: GameModel, b: GameModel)
    requires
        a.wf(),
        b.hi == a.hi,
        b.dash.combo == a.dash.combo,
        b.dash.best_combo == a.dash.best_combo,
        b.dash.near_misses == a.dash.near_misses,
        b.dash.quip == a.dash.quip,
        b.particles.len() <= CROWD + 1,
        all_short(b.floats),
        b.traffic == a.traffic,
        b.scenery == a.scenery,
    ensures
        b.wf(),
{
}

/// Pausing and going on leaves the game as it was.
pub proof fn a_pause_changes_nothing(g: GameModel, world: Area)
    requires
        g.dash.state is Running || g.dash.state is Paused,
    ensures
        g.keyed(Key::Char('p'), true, world).keyed(Key::Char('p'), true, world) == g,
        g.keyed(Key::Char('p'), true, world).dash.state != g.dash.state,
{
}

/// Q ends the program wherever the game is, and Esc does but at the end of a run, where it
/// leads to the menu.
pub proof fn q_and_esc_quit(g: GameModel, kind: KeyKind, ctrl: bool, press: bool, world: Area)
    requires
        kind !is Release,
    ensures
        quits(g.dash.state, Key::Char('q'), kind, ctrl),
        quits(g.dash.state, Key::Esc, kind, ctrl) <==> g.dash.state !is GameOver,
        g.dash.state is GameOver ==> g.keyed(Key::Esc, press, world).dash.state is Menu,
{
}

/// In the menu one step to the left and one to the right cancel out, and three steps one
/// way lead back.
pub proof fn the_menu_goes_round(g: GameModel, world: Area)
    requires
        g.dash.state is Menu,
    ensures
        g.keyed(Key::Left, true, world).keyed(Key::Right, true, world) == g,
        g.keyed(Key::Right, true, world).keyed(Key::Left, true, world) == g,
        g.keyed(Key::Right, true, world).keyed(Key::Right, true, world).keyed(Key::Right, true, world) == g,
        g.keyed(Key::Left, true, world).keyed(Key::Left, true, world).keyed(Key::Left, true, world) == g,
{
}

/// Switching the sound twice leaves the game as it was.
pub proof fn the_sound_switches_back(g: GameModel, world: Area)
    ensures
        g.keyed(Key::Char('m'), true, world).keyed(Key::Char('m'), true, world) == g,
        g.keyed(Key::Char('m'), true, world).dash.sound == !g.dash.sound,
{
}

/// No key leads out of a countdown or a crash, but out of the program.
pub proof fn countdowns_and_crashes_run_their_course(g: GameModel, key: Key, press: bool, world: Area)
    requires
        g.dash.state is Countdown || g.dash.state is Crashing,
    ensures
        g.keyed(key, press, world).dash.state == g.dash.state,
        g.keyed(key, press, world).traffic == g.traffic,
        g.keyed(key, press, world).dash.score == g.dash.score,
{
}

/// A run is left only through its end: no key leads from a race to the menu or to a new run.
pub proof fn a_race_is_not_left_by_a_key(g: GameModel, key: Key, press: bool, world: Area)
    requires
        g.dash.state is Running || g.dash.state is Paused,
    ensures
        g.keyed(key, press, world).dash.state is Running || g.keyed(key, press, world).dash.state is Paused,
        g.keyed(key, press, world).dash.score == g.dash.score,
        g.keyed(key, press, world).traffic == g.traffic,
{
}

/// No key touches a best score or what stands beside the road.
pub proof fn keys_keep_the_best_scores(g: GameModel, key: Key, press: bool, world: Area)
    ensures
        g.keyed(key, press, world).hi == g.hi,
        g.keyed(key, press, world).scenery == g.scenery,
{
}

/// Enter in the menu starts a run at the selected intensity, and after a run another one at
/// the same; elsewhere it does nothing.
pub proof fn enter_starts_and_retries(g: GameModel, press: bool, world: Area)
    ensures
        g.dash.state is Menu ==> g.keyed(Key::Enter, press, world).dash.diff == g.dash.sel,
        g.dash.state is GameOver ==> g.keyed(Key::Enter, press, world).dash.diff == g.dash.diff,
        g.dash.state is Menu || g.dash.state is GameOver ==> g.keyed(Key::Enter, press, world).dash.state is Countdown,
        !(g.dash.state is Menu || g.dash.state is GameOver) ==> g.keyed(Key::Enter, press, world) == g,
{
}

/// A run starts alike whatever run came before it: only the clock, the scenery, the settings
/// and the best scores last.
pub proof fn a_run_starts_afresh(g: GameModel, h: GameModel, d: Difficulty, view: Area)
    requires
        g.hi == h.hi,
        g.scenery == h.scenery,
        g.dash.sel == h.dash.sel,
        g.dash.time == h.dash.time,
        g.dash.scroll == h.dash.scroll,
        g.dash.sound == h.dash.sound,
        g.dash.quip == h.dash.quip,
        g.dash.scenery_t == h.dash.scenery_t,
        g.dash.exhaust_t == h.dash.exhaust_t,
        g.dash.dust_t == h.dash.dust_t,
        g.dash.wreck_t == h.dash.wreck_t,
    ensures
        g.started(d, view) == h.started(d, view),
        g.started(d, view).points() == 0,
{
    assert(g.started(d, view) =~= h.started(d, view));
    crate::rounding::rounding_keeps_whole_numbers(0);
}

} // verus!
