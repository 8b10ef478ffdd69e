use shoal::text::{
    chars_of, comes_before, decimal_text, hex, parse_i64, parse_u64, signed_decimal_text, split, trim,
};

#[test]
fn texts_are_ordered_as_their_bytes() {
    let texts = ["", "0001", "0002", "00020", "1", "a", "b", "\u{e9}", "\u{ffff}", "\u{10000}"];
    for a in texts {
        for b in texts {
            assert_eq!(comes_before(a, b), a.as_bytes() < b.as_bytes(), "{a:?} {b:?}");
        }
    }
}

#[test]
fn trimming_takes_unicode_white_space() {
    for s in ["", "  ", "a", " a b ", "\u{a0}x\u{2003}", "\u{3000}y\n", "\t\u{85}z\u{200b}", "\u{1680}q\u{2029}"] {
        assert_eq!(trim(s), s.trim());
    }
    for code in 0..=0x3000u32 {
        if let Some(c) = char::from_u32(code) {
            let s: String = [c, 'x', c].iter().collect();
            assert_eq!(trim(&s), s.trim(), "{code:x}");
        }
    }
}

#[test]
fn splitting_keeps_empty_pieces() {
    for s in ["", ",", "a", "a,b", ",a,,b,", "a;b"] {
        let expected: Vec<String> = s.split(',').map(|p| p.to_string()).collect();
        assert_eq!(split(s, ','), expected);
    }
}

#[test]
fn numbers_are_written_in_decimal() {
    assert_eq!(decimal_text(0), "0");
    assert_eq!(decimal_text(1000), "1000");
    assert_eq!(decimal_text(u64::MAX), "18446744073709551615");
    assert_eq!(signed_decimal_text(i64::MIN), "-9223372036854775808");
    assert_eq!(signed_decimal_text(-7), "-7");
    assert_eq!(signed_decimal_text(42), "42");
}

#[test]
fn numbers_are_read_as_the_standard_library_reads_them() {
    let texts = [
        "", "0", "-0", "+0", "+", "-", "007", "-7", "+7", " 7", "7 ", "1_0", "12a", "--1", "+-1",
        "9223372036854775807", "9223372036854775808", "-9223372036854775808", "-9223372036854775809",
        "18446744073709551615", "18446744073709551616", "99999999999999999999999", "\u{661}",
    ];
    for s in texts {
        assert_eq!(parse_i64(s), s.parse::<i64>().ok(), "{s:?}");
        assert_eq!(parse_u64(s), s.parse::<u64>().ok(), "{s:?}");
    }
}

#[test]
fn bytes_are_written_in_hexadecimal() {
    assert_eq!(hex(&[]), "");
    assert_eq!(hex(&[0, 1, 15, 16, 171, 255]), "00010f10abff");
}

#[test]
fn characters_come_in_order() {
    assert_eq!(chars_of("a\u{e9}\u{10000}"), vec!['a', '\u{e9}', '\u{10000}']);
}
