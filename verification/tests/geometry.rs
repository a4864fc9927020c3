use rat_racer::geometry::{centered_rect, geom, lane_center, player_y, world_rect, Area, Geom};
use rat_racer::num::Num;

fn area(x: u16, y: u16, width: u16, height: u16) -> Area {
    Area { x, y, width, height }
}

#[test]
fn roads_are_laid_out() {
    assert_eq!(geom(area(0, 0, 80, 24)), Geom { lane_w: 8, rx: 24, road_w: 32 });
    assert_eq!(geom(area(0, 0, 46, 24)), Geom { lane_w: 8, rx: 7, road_w: 32 });
    assert_eq!(geom(area(0, 0, 40, 24)), Geom { lane_w: 7, rx: 6, road_w: 28 });
    assert_eq!(geom(area(0, 0, 10, 24)), Geom { lane_w: 4, rx: -3, road_w: 16 });
    assert_eq!(geom(area(0, 0, 15, 24)), Geom { lane_w: 4, rx: 0, road_w: 16 });
    for width in 0..500u16 {
        let g = geom(area(0, 0, width, 24));
        let lane = (((width as i32 - 8) / 4) - 1).clamp(4, 8);
        assert_eq!(g.lane_w, lane);
        assert_eq!(g.road_w, lane * 4);
        assert_eq!(g.rx, (width as i32 - (lane * 4 + 4)) / 2 + 2);
    }
}

#[test]
fn roads_stay_in_view() {
    for width in 20..500u16 {
        let g = geom(area(0, 0, width, 24));
        let left = g.rx - 2;
        let right = width as i32 - (g.rx + g.road_w + 2);
        assert!(left >= 0 && right >= 0);
        assert!(right - left == 0 || right - left == 1);
    }
}

#[test]
fn lanes_have_middles() {
    let g = geom(area(0, 0, 80, 24));
    for lane in 0..4usize {
        let middle = g.lane_w as f64 * (lane as f64 + 0.5);
        assert_eq!(lane_center(&g, lane), Num::from_bits(middle.to_bits()));
    }
    let g = geom(area(0, 0, 40, 24));
    assert_eq!(lane_center(&g, 1), Num::from_bits(10.5f64.to_bits()));
}

#[test]
fn the_player_sits_near_the_bottom() {
    assert_eq!(player_y(area(0, 3, 80, 20)), 12);
    assert_eq!(player_y(area(0, 3, 80, 4)), -4);
}

#[test]
fn rectangles_are_centred() {
    assert_eq!(centered_rect(62, 22, area(0, 0, 80, 24)), area(9, 1, 62, 22));
    assert_eq!(centered_rect(62, 22, area(0, 0, 46, 17)), area(0, 0, 46, 17));
    assert_eq!(centered_rect(40, 1, area(2, 3, 45, 16)), area(4, 10, 40, 1));
}

#[test]
fn the_world_lies_between_instruments_and_keys() {
    for height in 4..200u16 {
        assert_eq!(world_rect(area(0, 0, 80, height)), area(0, 3, 80, height - 4));
        assert_eq!(world_rect(area(5, 7, 33, height)), area(5, 10, 33, height - 4));
    }
    assert_eq!(world_rect(area(0, 0, 0, 24)), area(0, 3, 0, 20));
    assert_eq!(world_rect(area(0, 0, 65535, 65535)), area(0, 3, 65535, 65531));
}
