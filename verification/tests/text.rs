use hitormiss::text::{
    chars_of, is_whitespace, parse_u8, precedes, same_text, u8_to_text, write_number,
};

#[test]
fn separators_are_the_unicode_white_space() {
    let mut code: u32 = 0;
    while code <= 0x10FFFF {
        if let Some(c) = char::from_u32(code) {
            assert_eq!(is_whitespace(c), c.is_whitespace(), "U+{:04X}", code);
        }
        code += 1;
    }
}

#[test]
fn decimal_bytes_are_read_as_the_standard_library_reads_them() {
    let samples = [
        "0", "7", "10", "99", "100", "255", "256", "999", "+5", "+255", "+256", "+", "", "-1",
        "-0", "007", "0000000000255", "00000000000256", "1a", "a1", " 1", "1 ", "٣", "++1", "1+",
        "25５",
    ];
    for s in samples {
        assert_eq!(parse_u8(s), s.parse::<u8>().ok(), "{:?}", s);
    }
}

#[test]
fn every_byte_is_written_and_read_back() {
    for n in 0..=255u8 {
        let text = u8_to_text(n);
        assert_eq!(text, n.to_string());
        assert_eq!(parse_u8(&text), Some(n));
    }
}

#[test]
fn exact_decimal_texts() {
    assert_eq!(u8_to_text(0), "0");
    assert_eq!(u8_to_text(9), "9");
    assert_eq!(u8_to_text(10), "10");
    assert_eq!(u8_to_text(105), "105");
    assert_eq!(u8_to_text(255), "255");
    assert_eq!(parse_u8("42"), Some(42));
    assert_eq!(parse_u8("+42"), Some(42));
    assert_eq!(parse_u8("300"), None);
}

#[test]
fn characters_of_a_text() {
    let chars = chars_of("aé\u{1F600}b");
    assert_eq!(chars, vec!['a', 'é', '\u{1F600}', 'b']);
    assert_eq!(chars_of(""), Vec::<char>::new());
}

#[test]
fn numbers_are_appended_in_decimal() {
    for n in [0u16, 1, 9, 10, 11, 99, 100, 101, 999, 1000, 9999, 10000, 65535] {
        let mut text = String::from("x:");
        write_number(&mut text, n);
        assert_eq!(text, format!("x:{}", n));
    }
}

#[test]
fn texts_are_the_same_when_their_characters_are() {
    assert!(same_text("GET", "GET"));
    assert!(!same_text("GET", "GEt"));
    assert!(!same_text("GET", "GETS"));
    assert!(!same_text("", "a"));
    assert!(same_text("", ""));
    assert!(same_text("é", "\u{e9}"));
}

#[test]
fn texts_are_ordered_as_strings_are() {
    let samples =
        ["", "a", "b", "ab", "aa", "a:", "127.0.0.1:1", "127.0.0.1:10", "127.0.0.1:2", "é", "z"];
    for a in samples {
        for b in samples {
            assert_eq!(precedes(a, b), a < b, "{:?} {:?}", a, b);
        }
    }
    assert!(precedes("127.0.0.1:10", "127.0.0.1:2"));
    assert!(!precedes("a", "a"));
}
