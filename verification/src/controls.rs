//! What the keys do, in numbers.

use crate::handling::{lemma_fraction, sums_are_near};
use crate::input::{Control, Input, Key};
use crate::measure::size;
use crate::num::{numbers_order_as_keys, Num};
use crate::rounding::one;
use vstd::arithmetic::power2::lemma_pow2_pos;
use vstd::prelude::*;

verus! {

/// The keys of a control: an arrow and a letter each, and the space bar for the nitro.
pub open spec fn works(c: Control, key: Key) -> bool {
    match c {
        Control::Left => key == Key::Left || key == Key::Char('a'),
        Control::Right => key == Key::Right || key == Key::Char('d'),
        Control::Gas => key == Key::Up || key == Key::Char('w'),
        Control::Brake => key == Key::Down || key == Key::Char('s'),
        Control::Nitro => key == Key::Char(' '),
    }
}

/// A key that was pressed at `then` holds its controls: on a terminal that reports releases
/// until its own, on another one for a quarter of a second. Other controls are not touched.
pub proof fn keys_hold_their_controls(i: Input, key: Key, c: Control, then: Num, now: Num)
    requires
        size(then.value()) <= 1_000_000 * one(),
    ensures
        ({
            let o = one();
            let on = i.pressed(key, then).holds(c, now);
            let wait = now.value() - then.value();
            &&& works(c, key) && i.release_seen ==> on
            &&& works(c, key) && !i.release_seen && 1_000_000 * (o - 4 * wait) >= o ==> on
            &&& works(c, key) && !i.release_seen && 1_000_000 * (4 * wait - o) >= o ==> !on
            &&& !works(c, key) ==> on == i.holds(c, now)
        }),
{
    lemma_pow2_pos(1074);
    lemma_fraction(25, 100);
    let until = then.spec_plus(Num::spec_ratio(25, 100));
    sums_are_near(then, Num::spec_ratio(25, 100));
    numbers_order_as_keys(now, until);
}

/// A key that is released frees its controls, and from then on releases count.
pub proof fn releases_free_their_controls(i: Input, key: Key, c: Control, now: Num)
    ensures
        i.released(key).release_seen,
        works(c, key) ==> !i.released(key).holds(c, now),
        !works(c, key) && i.release_seen ==> i.released(key).holds(c, now) == i.holds(c, now),
{
}

} // verus!
