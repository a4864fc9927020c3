use rat_racer::letters::{big_text, glyph};

#[test]
fn letters_stand_side_by_side() {
    assert_eq!(glyph('G'), ["▄▀▀▀", "█░░█", "▀▀▀█"]);
    assert_eq!(big_text("T!"), ["▄█▄ █", " █   ", " ▀  ▀"]);
}
