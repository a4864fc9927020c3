use rat_racer::terrain::{grass_char, hash2};

fn scattered(x: i32, wy: i64) -> u32 {
    let mut h = (x as i64).wrapping_mul(374_761_393) ^ wy.wrapping_mul(668_265_263);
    h = (h ^ (h >> 13)).wrapping_mul(1_274_126_177);
    ((h ^ (h >> 16)) & 0x7fff_ffff) as u32
}

#[test]
fn the_ground_is_scattered() {
    assert_eq!(hash2(0, 0), 0);
    for x in -50..50 {
        for wy in -50..50i64 {
            assert_eq!(hash2(x, wy), scattered(x, wy));
            assert_eq!(hash2(x * 31_415_927, wy * 3_141_592_653_589), scattered(x * 31_415_927, wy * 3_141_592_653_589));
        }
    }
    assert_eq!(hash2(i32::MIN, i64::MIN), scattered(i32::MIN, i64::MIN));
    assert_eq!(hash2(i32::MAX, i64::MAX), scattered(i32::MAX, i64::MAX));
}

#[test]
fn grass_grows_in_tufts() {
    let mut seen = Vec::new();
    for x in 0..80 {
        for wy in 0..80i64 {
            let expected = match scattered(x, wy) % 29 {
                0 => '\'',
                1 => '.',
                2 => ',',
                3 => '`',
                _ => ' ',
            };
            assert_eq!(grass_char(x, wy), expected);
            if !seen.contains(&expected) {
                seen.push(expected);
            }
        }
    }
    assert_eq!(seen.len(), 5);
}
