use rat_racer::hiscore::{decode_hi, encode_hi};

/// What reading line by line with the standard library gives.
fn expected(text: &str) -> [u64; 3] {
    let mut hi = [0u64; 3];
    for (i, line) in text.lines().take(3).enumerate() {
        hi[i] = line.trim().parse().unwrap_or(0);
    }
    hi
}

#[test]
fn scores_come_back_from_the_file() {
    for hi in [[0, 0, 0], [1, 22, 333], [u64::MAX, 0, 12_345_678_901], [999_999, 1_000_000, 10]] {
        let text = encode_hi(&hi);
        assert_eq!(text, format!("{}\n{}\n{}\n", hi[0], hi[1], hi[2]));
        assert_eq!(decode_hi(&text), hi);
    }
}

#[test]
fn files_are_read_leniently() {
    let texts = [
        "",
        "\n",
        "7",
        "7\n8",
        "7\r\n8\r\n9\r\n",
        "  12  \n\t34\t\n\u{a0}56\u{3000}\n78\n",
        "x\n5\n",
        "+5\n-5\n--5",
        "+\n-\n",
        "1 2\n3\n4",
        "18446744073709551615\n18446744073709551616\n99999999999999999999999",
        "000000000000000000000000042\n0\n1",
        "1\n\n3\n",
        "1\r2\n3\n4\n",
        "٣\n１\n2",
        "1\r\r\n2\r",
        "\u{feff}1\n2\n3",
    ];
    for text in texts {
        assert_eq!(decode_hi(text), expected(text), "{:?}", text);
    }
    assert_eq!(decode_hi("5\nbroken\n7\n8\n"), [5, 0, 7]);
    assert_eq!(decode_hi(""), [0, 0, 0]);
}

#[test]
fn blanks_are_those_of_the_language() {
    for code in 0..=0x10ffffu32 {
        if let Some(c) = char::from_u32(code) {
            if c.is_whitespace() || code < 0x300 || (0x2000..0x3100).contains(&code) {
                let text: String = [c, '4', '2', c].iter().collect();
                assert_eq!(decode_hi(&text), expected(&text), "{:x}", code);
            }
        }
    }
}
