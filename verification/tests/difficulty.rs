use rat_racer::difficulty::Difficulty;

#[test]
fn intensities_differ() {
    let [chill, rush, mayhem] = Difficulty::ALL;
    assert_eq!([chill.index(), rush.index(), mayhem.index()], [0, 1, 2]);
    assert_eq!([chill.name(), rush.name(), mayhem.name()], ["CHILL", "RUSH", "MAYHEM"]);
    assert_eq!([chill.max_speed(), rush.max_speed(), mayhem.max_speed()], [160, 215, 265]);
    assert_eq!(chill.spawn_gap(), (150, 230));
    assert_eq!(rush.spawn_gap(), (100, 160));
    assert_eq!(mayhem.spawn_gap(), (62, 105));
    assert_eq!(chill.traffic(), (50, 85));
    assert_eq!(rush.traffic(), (58, 105));
    assert_eq!(mayhem.traffic(), (66, 128));
    assert_eq!(chill.blurb(), "sunday cruise · light traffic · top 160 km/h");
    assert_eq!(rush.blurb(), "rush hour · dense lanes · top 215 km/h");
    assert_eq!(mayhem.blurb(), "gridlock chaos · no mercy · top 265 km/h");
}

#[test]
fn intensities_go_round() {
    for d in Difficulty::ALL {
        assert_eq!(d.further(1).further(2), d);
        assert_eq!(d.further(2).further(1), d);
        assert_eq!(d.further(0), d);
    }
    assert_eq!(Difficulty::Mayhem.further(1), Difficulty::Chill);
    assert_eq!(Difficulty::Chill.further(2), Difficulty::Mayhem);
}

#[test]
fn a_rush_begins_at_four_fifths() {
    for (d, from) in [(Difficulty::Chill, 128.0), (Difficulty::Rush, 172.0), (Difficulty::Mayhem, 212.0)] {
        assert_eq!(d.max_speed() as f64 * 0.8, from);
    }
}
