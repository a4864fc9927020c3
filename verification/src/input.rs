//! Keys, and which controls are held down.
//!
//! A terminal that reports releases says how long a key is held. One that does not is
//! taken to hold a key for a moment after each press.

use crate::num::Num;
use vstd::prelude::*;

verus! {

/// A key of the keyboard.
#[derive(Clone, Copy, PartialEq, Eq, Structural, Debug)]
pub enum Key {
    Left,
    Right,
    Up,
    Down,
    Enter,
    Esc,
    Char(char),
    Other,
}

/// What happened to a key.
#[derive(Clone, Copy, PartialEq, Eq, Structural, Debug)]
pub enum KeyKind {
    Press,
    Repeat,
    Release,
}

/// A control of the car.
#[derive(Clone, Copy, PartialEq, Eq, Structural, Debug)]
pub enum Control {
    Left,
    Right,
    Gas,
    Brake,
    Nitro,
}

/// Which controls are held down.
#[derive(Clone, Copy, PartialEq, Eq, Structural, Debug)]
pub struct Input {
    pub left: bool,
    pub right: bool,
    pub up: bool,
    pub down: bool,
    pub nitro: bool,
    /// Until when each control counts as held on a terminal without releases.
    pub left_t: Num,
    pub right_t: Num,
    pub up_t: Num,
    pub down_t: Num,
    pub nitro_t: Num,
    /// Whether the terminal reports releases.
    pub release_seen: bool,
}

/// The control that a key works, if it works one.
pub open spec fn control_of(key: Key) -> Option<Control> {
    match key {
        Key::Left => Some(Control::Left),
        Key::Right => Some(Control::Right),
        Key::Up => Some(Control::Gas),
        Key::Down => Some(Control::Brake),
        Key::Char(c) => if c == 'a' {
            Some(Control::Left)
        } else if c == 'd' {
            Some(Control::Right)
        } else if c == 'w' {
            Some(Control::Gas)
        } else if c == 's' {
            Some(Control::Brake)
        } else if c == ' ' {
            Some(Control::Nitro)
        } else {
            None
        },
        _ => None,
    }
}

/// The control that a key works, if it works one.
pub fn control(key: Key) -> (r: Option<Control>)
    ensures
        r == control_of(key),
{
    match key {
        Key::Left | Key::Char('a') => Some(Control::Left),
        Key::Right | Key::Char('d') => Some(Control::Right),
        Key::Up | Key::Char('w') => Some(Control::Gas),
        Key::Down | Key::Char('s') => Some(Control::Brake),
        Key::Char(' ') => Some(Control::Nitro),
        _ => None,
    }
}

impl Input {
    /// Whether a control was pressed and not released since.
    pub open spec fn flag(self, c: Control) -> bool {
        match c {
            Control::Left => self.left,
            Control::Right => self.right,
            Control::Gas => self.up,
            Control::Brake => self.down,
            Control::Nitro => self.nitro,
        }
    }

    /// Until when a control counts as held on a terminal without releases.
    pub open spec fn deadline(self, c: Control) -> Num {
        match c {
            Control::Left => self.left_t,
            Control::Right => self.right_t,
            Control::Gas => self.up_t,
            Control::Brake => self.down_t,
            Control::Nitro => self.nitro_t,
        }
    }

    /// Whether a control is held at the time `now`.
    pub open spec fn holds(self, c: Control, now: Num) -> bool {
        if self.release_seen {
            self.flag(c)
        } else {
            now.key < self.deadline(c).key
        }
    }

    /// The input with one control set.
    pub open spec fn with_control(self, c: Control, on: bool, t: Num) -> Input {
        match c {
            Control::Left => Input { left: on, left_t: t, ..self },
            Control::Right => Input { right: on, right_t: t, ..self },
            Control::Gas => Input { up: on, up_t: t, ..self },
            Control::Brake => Input { down: on, down_t: t, ..self },
            Control::Nitro => Input { nitro: on, nitro_t: t, ..self },
        }
    }

    /// The input after a key was pressed at the time `now`; without a release it counts as
    /// held for a quarter of a second.
    pub open spec fn pressed(self, key: Key, now: Num) -> Input {
        match control_of(key) {
            Some(c) => self.with_control(c, true, now.spec_plus(Num::spec_ratio(25, 100))),
            None => self,
        }
    }

    /// The input after a key was released.
    pub open spec fn released(self, key: Key) -> Input {
        let seen = Input { release_seen: true, ..self };
        match control_of(key) {
            Some(c) => seen.with_control(c, false, seen.deadline(c)),
            None => seen,
        }
    }

    /// The way the car is steered: -1 to the left, 1 to the right, 0 if neither or both.
    pub open spec fn direction(self, now: Num) -> int {
        (if self.holds(Control::Right, now) {
            1int
        } else {
            0
        }) - (if self.holds(Control::Left, now) {
            1int
        } else {
            0
        })
    }

    /// The acceleration in km/h per second: the brake beats the gas, and without either
    /// the car still gains a little.
    pub open spec fn pull(self, now: Num) -> int {
        if self.holds(Control::Brake, now) {
            -130
        } else if self.holds(Control::Gas, now) {
            62
        } else {
            17
        }
    }

    /// Takes note of a key pressed at the time `now`; without a release it counts as held for
    /// a quarter of a second.
    pub fn press(&mut self, code: Key, now: Num)
        ensures
            *final(self) == old(self).pressed(code, now),
    {
        let t: Num = now.plus(Num::ratio(25, 100));
        match control(code) {
            Some(Control::Left) => {
                self.left = true;
                self.left_t = t;
            },
            Some(Control::Right) => {
                self.right = true;
                self.right_t = t;
            },
            Some(Control::Gas) => {
                self.up = true;
                self.up_t = t;
            },
            Some(Control::Brake) => {
                self.down = true;
                self.down_t = t;
            },
            Some(Control::Nitro) => {
                self.nitro = true;
                self.nitro_t = t;
            },
            None => {},
        }
    }

    /// Takes note of a released key.
    pub fn release(&mut self, code: Key)
        ensures
            *final(self) == old(self).released(code),
    {
        self.release_seen = true;
        match control(code) {
            Some(Control::Left) => {
                self.left = false;
            },
            Some(Control::Right) => {
                self.right = false;
            },
            Some(Control::Gas) => {
                self.up = false;
            },
            Some(Control::Brake) => {
                self.down = false;
            },
            Some(Control::Nitro) => {
                self.nitro = false;
            },
            None => {},
        }
    }

    /// Whether a control with this flag and this deadline is held at the time `now`.
    pub fn held(&self, flag: bool, timer: Num, now: Num) -> (r: bool)
        ensures
            r == (if self.release_seen {
                flag
            } else {
                now.key < timer.key
            }),
    {
        if self.release_seen {
            flag
        } else {
            now.lt(timer)
        }
    }

    /// The way the car is steered: -1 to the left, 1 to the right, 0 if neither or both.
    pub fn steer(&self, now: Num) -> (r: i32)
        ensures
            r == self.direction(now),
            -1 <= r <= 1,
    {
        let r: i32 = if self.held(self.right, self.right_t, now) {
            1
        } else {
            0
        };
        let l: i32 = if self.held(self.left, self.left_t, now) {
            1
        } else {
            0
        };
        r - l
    }

    /// The acceleration in km/h per second: the brake beats the gas, and without either
    /// the car still gains a little.
    pub fn throttle(&self, now: Num) -> (r: i32)
        ensures
            r == self.pull(now),
            -130 <= r <= 62,
    {
        if self.held(self.down, self.down_t, now) {
            -130
        } else if self.held(self.up, self.up_t, now) {
            62
        } else {
            17
        }
    }

    /// Whether nitro is called for.
    pub fn wants_nitro(&self, now: Num) -> (r: bool)
        ensures
            r == self.holds(Control::Nitro, now),
    {
        self.held(self.nitro, self.nitro_t, now)
    }
}

impl Default for Input {
    /// Nothing is held, and no release was reported yet.
    fn default() -> (r: Input)
        ensures
            forall|c: Control| #![trigger r.flag(c)] !r.flag(c),
            forall|c: Control| #![trigger r.deadline(c)] r.deadline(c).key == 0,
            !r.release_seen,
    {
        let zero: Num = Num { key: 0 };
        Input {
            left: false,
            right: false,
            up: false,
            down: false,
            nitro: false,
            left_t: zero,
            right_t: zero,
            up_t: zero,
            down_t: zero,
            nitro_t: zero,
            release_seen: false,
        }
    }
}

/// A pressed control is held until its release on a terminal that reports releases, and for
/// a quarter of a second on one that does not; the other controls keep their state.
pub proof fn press_holds_one_control(i: Input, key: Key, then: Num, now: Num, other: Control)
    ensures
        control_of(key) is Some ==> i.pressed(key, then).holds(control_of(key)->0, now) == (i.release_seen
            || now.key < then.spec_plus(Num::spec_ratio(25, 100)).key),
        control_of(key) != Some(other) ==> i.pressed(key, then).holds(other, now) == i.holds(other, now),
{
}

/// After a release the control is off, and stays off whatever the time, until it is pressed.
pub proof fn release_frees_the_control(i: Input, key: Key, now: Num)
    requires
        control_of(key) is Some,
    ensures
        !i.released(key).holds(control_of(key)->0, now),
        i.released(key).release_seen,
{
}

/// Once a release was seen, a press and the release of the same key leave every control
/// but that one as it was, and that one off.
pub proof fn press_then_release(i: Input, key: Key, t: Num, now: Num, other: Control)
    requires
        i.release_seen,
        control_of(key) is Some,
    ensures
        !i.pressed(key, t).released(key).holds(control_of(key)->0, now),
        other != control_of(key)->0 ==> i.pressed(key, t).released(key).holds(other, now) == i.holds(
            other,
            now,
        ),
{
}

/// Holding both ways steers neither way.
pub proof fn both_ways_cancel(i: Input, now: Num)
    requires
        i.holds(Control::Left, now),
        i.holds(Control::Right, now),
    ensures
        i.direction(now) == 0,
{
}

} // verus!
