//! When cars touch, in numbers.

use crate::entities::Car;
use crate::geometry::{center_of, road, Area, Geom};
use crate::measure::{
    fractions_are_near, lemma_near_product, lemma_near_sum, lemma_one_is_many, lemma_stays_above, lemma_stays_below,
    size,
};
use crate::num::{magnitude, numbers_order_as_keys, whole_numbers_are_exact, Num};
use crate::rounding::one;
use crate::running::{apart, hits};
use crate::traffic::{driven, swayed};
use vstd::arithmetic::power2::lemma_pow2_pos;
use vstd::prelude::*;

verus! {

/// Whether a car of `length` rows from `y` on, with its middle at column `x`, touches the
/// player's car in column `player`, whose front is in the row `row`: seven tenths of a row of
/// each may overlap, and the columns are less than 4.3 apart. All but the rows are in units of
/// the least double. By `slack` thousand-millionths each side has to be beyond its bound.
pub open spec fn touches(y: int, x: int, length: int, player: int, row: int, slack: int) -> bool {
    let o = one();
    let n: int = 1_000_000_000;
    &&& n * y + slack * o < n * (row * o) + 4_300_000_000 * o
    &&& n * y + n * (length * o) > n * (row * o) + 700_000_000 * o + slack * o
    &&& n * size(player - x) + slack * o < 4_300_000_000 * o
}

/// The rows of a car: a truck has seven, any other five.
pub open spec fn rows_of_car(c: Car) -> int {
    if c.truck {
        7
    } else {
        5
    }
}

/// Whether a car touches the player's on a view, in numbers.
pub open spec fn car_touches(c: Car, player: Num, view: Area, slack: int) -> bool {
    touches(c.y.value(), c.x.value(), rows_of_car(c), player.value(), view.height - 8, slack)
}

/// The distance of two places is that of their numbers, rounded.
pub(crate) proof fn lemma_apart(a: Num, b: Num, c: Num)
    requires
        0 <= c.value() <= 100_000 * one(),
    ensures
        2_000_000_000 * size(a.value() - b.value()) + one() <= 2_000_000_000 * c.value() ==> apart(a, b).key < c.key,
        2_000_000_000 * size(a.value() - b.value()) >= 2_000_000_000 * c.value() + one() ==> apart(a, b).key > c.key,
{
    let v = a.value() - b.value();
    let d = a.spec_minus(b);
    let back = Num { key: (-c.key) as i64 };
    assert(magnitude(0) == 0);
    lemma_pow2_pos(1074);
    numbers_order_as_keys(Num { key: 0 }, c);
    assert(back.value() == -c.value());
    crate::arith::results_are_bounded(v, 1);
    if 2_000_000_000 * size(v) + one() <= 2_000_000_000 * c.value() {
        lemma_stays_below(v, c);
        lemma_stays_above(v, back);
    }
    if 2_000_000_000 * size(v) >= 2_000_000_000 * c.value() + one() {
        if v >= 0 {
            lemma_stays_above(v, c);
        } else {
            lemma_stays_below(v, back);
        }
    }
}

/// A car touches the player's as the numbers say, but for a thousand-millionth of a row or
/// column.
pub proof fn touching_is_overlapping(c: Car, player: Num, view: Area)
    ensures
        car_touches(c, player, view, 1) ==> hits(c, player, view),
        hits(c, player, view) ==> car_touches(c, player, view, -1),
{
    let o = one();
    let row = view.height - 8;
    let len = rows_of_car(c);
    lemma_pow2_pos(1074);
    lemma_one_is_many();
    let slack = Num::spec_ratio(7, 10);
    fractions_are_near(7, 10);
    assert(7 * o == size(7) * o);
    whole_numbers_are_exact((row + 5) as i32);
    whole_numbers_are_exact(row as i32);
    whole_numbers_are_exact(len as i32);
    assert((row + 5) * o == row * o + 5 * o) by (nonlinear_arith);
    assert(-65536 * o <= row * o <= 65536 * o) by (nonlinear_arith)
        requires
            -65536 <= row <= 65536,
            o > 0,
    ;
    let rear = Num::spec_whole(row + 5).spec_minus(slack);
    let nose = Num::spec_whole(row).spec_plus(slack);
    lemma_near_sum(row * o + 5 * o - slack.value(), 70_000);
    lemma_near_sum(row * o + slack.value(), 70_000);
    assert(9_007_199_254_740_992 * size(rear.value() - (row * o + 5 * o - slack.value())) <= 70_001 * o);
    assert(9_007_199_254_740_992 * size(nose.value() - (row * o + slack.value())) <= 70_001 * o);
    // The rear.
    numbers_order_as_keys(c.y, rear);
    // The nose.
    let v = c.y.value() + len * o;
    if 1_000_000_000 * v > 1_000_000_000 * (row * o) + 701_000_000 * o - 999_999 * o {
        lemma_stays_above(v, nose);
    }
    if 1_000_000_000 * v <= 1_000_000_000 * (row * o) + 700_000_000 * o - o {
        lemma_stays_below(v, nose);
    }
    // The columns.
    let width = Num::spec_ratio(43, 10);
    fractions_are_near(43, 10);
    assert(43 * o == size(43) * o);
    lemma_apart(player, c.x, width);
    assert(9_007_199_254_740_992 * size(width.value() * 10 - 43 * o) <= 43 * o);
}

/// Where a car is after a step: as much further down as the player is faster, eleven
/// hundredths of a row for each km/h and second.
pub(crate) proof fn lemma_drive(c: Car, speed: Num, dt: Num)
    requires
        size(c.y.value()) <= 1_000_000 * one(),
        size(c.speed.value()) <= 10_000 * one(),
        size(speed.value()) <= 10_000 * one(),
        0 <= dt.value() <= one(),
    ensures
        ({
            let o = one();
            let exact = 100 * (o * c.y.value()) + 11 * ((speed.value() - c.speed.value()) * dt.value());
            1_000_000 * size(100 * (o * driven(c, speed, dt).y.value()) - exact) <= o * o
        }),
{
    let o = one();
    lemma_pow2_pos(1074);
    lemma_one_is_many();
    let k: int = 9_007_199_254_740_992;
    let diff = speed.value() - c.speed.value();
    let d = dt.value();
    let first = speed.spec_minus(c.speed);
    let d1 = first.value();
    lemma_near_sum(diff, 20_000);
    assert(k * size(d1 - diff) <= 20_001 * o);
    let share = Num::spec_ratio(11, 100);
    let r = share.value();
    fractions_are_near(11, 100);
    assert(size(11) * o == 11 * o);
    assert(k * size(r * 100 - 11 * o) <= 11 * o);
    assert(size(d1) <= 20_001 * o);
    assert(size(r) <= 1 * o);
    lemma_near_product(first, share, 20_001, 1);
    let second = first.spec_times(share);
    let d2 = second.value();
    assert(k * size(d2 * o - d1 * r) <= 20_002 * (o * o));
    let gap = 100 * d2 - 11 * d1;
    assert(gap * o == 100 * (d2 * o - d1 * r) + d1 * (r * 100 - 11 * o)) by (nonlinear_arith)
        requires
            gap == 100 * d2 - 11 * d1,
    ;
    assert(k * size(d1 * (r * 100 - 11 * o)) <= 220_011 * (o * o)) by (nonlinear_arith)
        requires
            size(d1) <= 20_001 * o,
            k * size(r * 100 - 11 * o) <= 11 * o,
            o > 0,
            k > 0,
    ;
    assert(k * size(gap * o) <= 2_300_000 * (o * o));
    assert(k * size(gap) <= 2_300_000 * o) by (nonlinear_arith)
        requires
            k * size(gap * o) <= 2_300_000 * (o * o),
            o > 0,
            k > 0,
    ;
    assert(k * size(100 * d2 - 11 * diff) <= 3_000_000 * o);
    assert(size(d2) <= 3_000 * o);
    lemma_near_product(second, dt, 3_000, 1);
    let third = second.spec_times(dt);
    let d3 = third.value();
    assert(k * size(d3 * o - d2 * d) <= 3_001 * (o * o));
    let off = 100 * d2 - 11 * diff;
    assert(k * size(off * d) <= 3_000_000 * (o * o)) by (nonlinear_arith)
        requires
            k * size(off) <= 3_000_000 * o,
            0 <= d <= o,
            k > 0,
    ;
    assert(100 * (o * d3) - 11 * (diff * d) == 100 * (d3 * o - d2 * d) + off * d) by (nonlinear_arith)
        requires
            off == 100 * d2 - 11 * diff,
    ;
    assert(k * size(100 * (o * d3) - 11 * (diff * d)) <= 3_400_000 * (o * o));
    assert(size(d3) <= 3_001 * o) by (nonlinear_arith)
        requires
            k * size(d3 * o - d2 * d) <= 3_001 * (o * o),
            size(d2) <= 3_000 * o,
            0 <= d <= o,
            o > 0,
            k == 9_007_199_254_740_992,
    ;
    let y = c.y.value();
    lemma_near_sum(y + d3, 1_003_001);
    let last = driven(c, speed, dt).y.value();
    assert(k * size(last - (y + d3)) <= 1_003_002 * o);
    let e = last - (y + d3);
    assert(100 * (o * last) - 100 * (o * y) - 100 * (o * d3) == 100 * (o * e)) by (nonlinear_arith)
        requires
            e == last - (y + d3),
    ;
    assert(k * size(o * e) <= 1_003_002 * (o * o)) by (nonlinear_arith)
        requires
            k * size(e) <= 1_003_002 * o,
            o > 0,
            k > 0,
    ;
    let total = 100 * (o * last) - (100 * (o * y) + 11 * (diff * d));
    assert(k * size(total) <= 110_000_000 * (o * o));
    assert(1_000_000 * size(total) <= o * o) by (nonlinear_arith)
        requires
            k * size(total) <= 110_000_000 * (o * o),
            k == 9_007_199_254_740_992,
            size(total) >= 0,
            o > 0,
    ;
}

/// The middle of a lane is half a lane further than its left edge.
pub(crate) proof fn lemma_lane_middle(g: Geom, lane: int)
    requires
        4 <= g.lane_w <= 8,
        0 <= lane < 4,
    ensures
        9_007_199_254_740_992 * size(2 * center_of(g, lane).value() - (g.lane_w * (2 * lane + 1)) * one()) <= 1_000 * one(),
        size(center_of(g, lane).value()) <= 40 * one(),
{
    let o = one();
    lemma_pow2_pos(1074);
    lemma_one_is_many();
    let k: int = 9_007_199_254_740_992;
    let w = g.lane_w as int;
    whole_numbers_are_exact(g.lane_w);
    whole_numbers_are_exact(lane as i32);
    fractions_are_near(1, 2);
    assert(size(1) * o == o && 1 * o == o);
    let r = Num::spec_ratio(1, 2).value();
    assert(k * size(r * 2 - o) <= o);
    assert(0 <= r <= o) by (nonlinear_arith)
        requires
            k * size(r * 2 - o) <= o,
            k == 9_007_199_254_740_992,
            o > 0,
    ;
    let l = lane * o;
    assert(0 <= l <= 3 * o) by (nonlinear_arith)
        requires
            0 <= lane <= 3,
            l == lane * o,
            o > 0,
    ;
    let first = Num::spec_whole(lane).spec_plus(Num::spec_ratio(1, 2));
    let c1 = first.value();
    lemma_near_sum(l + r, 5);
    assert(k * size(c1 - (l + r)) <= 6 * o);
    let wo = w * o;
    assert(0 <= wo <= 8 * o) by (nonlinear_arith)
        requires
            0 <= w <= 8,
            wo == w * o,
            o > 0,
    ;
    lemma_near_product(Num::spec_whole(w), first, 8, 5);
    let c2 = center_of(g, lane).value();
    assert(k * size(c2 * o - wo * c1) <= 41 * (o * o));
    let gap = c2 - w * c1;
    assert(gap * o == c2 * o - wo * c1) by (nonlinear_arith)
        requires
            gap == c2 - w * c1,
            wo == w * o,
    ;
    assert(k * size(gap) <= 41 * o) by (nonlinear_arith)
        requires
            k * size(gap * o) <= 41 * (o * o),
            o > 0,
            k > 0,
    ;
    let e = 2 * c1 - (2 * l + o);
    assert(k * size(e) <= 13 * o) by (nonlinear_arith)
        requires
            k * size(c1 - (l + r)) <= 6 * o,
            k * size(r * 2 - o) <= o,
            e == 2 * c1 - (2 * l + o),
            k == 9_007_199_254_740_992,
    ;
    assert(2 * c2 - (w * (2 * lane + 1)) * o == 2 * gap + w * e) by (nonlinear_arith)
        requires
            gap == c2 - w * c1,
            e == 2 * c1 - (2 * l + o),
            l == lane * o,
    ;
    assert(k * size(w * e) <= 104 * o) by (nonlinear_arith)
        requires
            k * size(e) <= 13 * o,
            0 <= w <= 8,
            k > 0,
            o > 0,
    ;
    assert(0 <= w * (2 * lane + 1) <= 56) by (nonlinear_arith)
        requires
            0 <= w <= 8,
            0 <= lane < 4,
    ;
    let m = w * (2 * lane + 1);
    assert(0 <= m * o <= 56 * o) by (nonlinear_arith)
        requires
            0 <= m <= 56,
            o > 0,
    ;
}

/// Where a car sways to: twenty-two hundredths of a column for a whole sine.
pub(crate) proof fn lemma_sway(c: Car, sine: Num, dt: Num, view: Area)
    requires
        c.lane < 4,
        size(sine.value()) <= one(),
    ensures
        ({
            let o = one();
            let w = road(view.width as int).lane_w;
            let exact = (100 * (w * (2 * c.lane + 1))) * o + 44 * sine.value();
            1_000_000 * size(200 * swayed(c, sine, dt, view).x.value() - exact) <= o
        }),
{
    let o = one();
    lemma_pow2_pos(1074);
    lemma_one_is_many();
    let k: int = 9_007_199_254_740_992;
    let g = road(view.width as int);
    let lane = c.lane as int;
    let middle = center_of(g, lane);
    lemma_lane_middle(g, lane);
    let wide = Num::spec_ratio(22, 100);
    let r = wide.value();
    fractions_are_near(22, 100);
    assert(size(22) * o == 22 * o);
    assert(k * size(r * 100 - 22 * o) <= 22 * o);
    let s = sine.value();
    lemma_near_product(sine, wide, 1, 1);
    let s1 = sine.spec_times(wide).value();
    assert(k * size(s1 * o - s * r) <= 2 * (o * o));
    let gap = 100 * s1 - 22 * s;
    assert(gap * o == 100 * (s1 * o - s * r) + s * (r * 100 - 22 * o)) by (nonlinear_arith)
        requires
            gap == 100 * s1 - 22 * s,
    ;
    assert(k * size(s * (r * 100 - 22 * o)) <= 22 * (o * o)) by (nonlinear_arith)
        requires
            size(s) <= o,
            k * size(r * 100 - 22 * o) <= 22 * o,
            k > 0,
            o > 0,
    ;
    assert(k * size(gap) <= 222 * o) by (nonlinear_arith)
        requires
            k * size(gap * o) <= 222 * (o * o),
            o > 0,
            k > 0,
    ;
    lemma_near_sum(middle.value() + s1, 42);
    let x = swayed(c, sine, dt, view).x.value();
    let m = (g.lane_w * (2 * lane + 1)) * o;
    assert((100 * (g.lane_w * (2 * lane + 1))) * o == 100 * m) by (nonlinear_arith)
        requires
            m == (g.lane_w * (2 * lane + 1)) * o,
    ;
    assert(k * size(x - (middle.value() + s1)) <= 43 * o);
    let total = 200 * x - (100 * m + 44 * s);
    assert(k * size(total) <= 200_000 * o);
    assert(1_000_000 * size(total) <= o) by (nonlinear_arith)
        requires
            k * size(total) <= 200_000 * o,
            k == 9_007_199_254_740_992,
            size(total) >= 0,
            o > 0,
    ;
}

} // verus!
