use rat_racer::input::{control, Control, Input, Key};
use rat_racer::num::Num;

fn at(f: f64) -> Num {
    Num::from_bits(f.to_bits())
}

#[test]
fn keys_work_controls() {
    assert_eq!(control(Key::Left), Some(Control::Left));
    assert_eq!(control(Key::Char('a')), Some(Control::Left));
    assert_eq!(control(Key::Char('d')), Some(Control::Right));
    assert_eq!(control(Key::Right), Some(Control::Right));
    assert_eq!(control(Key::Char('w')), Some(Control::Gas));
    assert_eq!(control(Key::Up), Some(Control::Gas));
    assert_eq!(control(Key::Char('s')), Some(Control::Brake));
    assert_eq!(control(Key::Down), Some(Control::Brake));
    assert_eq!(control(Key::Char(' ')), Some(Control::Nitro));
    assert_eq!(control(Key::Char('A')), None);
    assert_eq!(control(Key::Enter), None);
    assert_eq!(control(Key::Other), None);
}

#[test]
fn nothing_is_held_at_first() {
    let input = Input::default();
    assert_eq!(input.steer(at(0.0)), 0);
    assert_eq!(input.throttle(at(0.0)), 17);
    assert!(!input.wants_nitro(at(0.0)));
}

#[test]
fn presses_last_a_quarter_of_a_second_without_releases() {
    let mut input = Input::default();
    input.press(Key::Left, at(1.0));
    assert_eq!(input.left_t, at(1.25));
    assert_eq!(input.steer(at(1.2)), -1);
    assert_eq!(input.steer(at(1.25)), 0);
    input.press(Key::Char('d'), at(1.2));
    assert_eq!(input.steer(at(1.22)), 0);
    assert_eq!(input.steer(at(1.4)), 1);
    input.press(Key::Up, at(2.0));
    assert_eq!(input.throttle(at(2.1)), 62);
    input.press(Key::Down, at(2.0));
    assert_eq!(input.throttle(at(2.1)), -130);
    input.press(Key::Char(' '), at(2.0));
    assert!(input.wants_nitro(at(2.2)));
    assert!(!input.wants_nitro(at(2.3)));
}

#[test]
fn releases_end_presses_where_they_are_reported() {
    let mut input = Input::default();
    input.release(Key::Other);
    input.press(Key::Right, at(1.0));
    assert_eq!(input.steer(at(50.0)), 1);
    input.press(Key::Left, at(1.0));
    assert_eq!(input.steer(at(50.0)), 0);
    input.release(Key::Char('d'));
    assert_eq!(input.steer(at(50.0)), -1);
    input.release(Key::Left);
    assert_eq!(input.steer(at(1.1)), 0);
    assert!(input.held(true, at(0.0), at(9.0)));
    assert!(!input.held(false, at(10.0), at(9.0)));
}

#[test]
fn both_ways_steer_neither() {
    let mut input = Input::default();
    input.press(Key::Left, at(0.0));
    input.press(Key::Right, at(0.0));
    assert_eq!(input.steer(at(0.1)), 0);
}
