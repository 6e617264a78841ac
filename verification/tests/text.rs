use nse_scraper::text::{
    char_is_whitespace, chars_of, digit_of, push_decimal, push_signed_decimal, trim_bounds,
};

#[test]
fn chars_of_lists_the_characters() {
    assert_eq!(chars_of(""), Vec::<char>::new());
    assert_eq!(chars_of("a-1"), vec!['a', '-', '1']);
    assert_eq!(chars_of("é\u{3000}z"), vec!['é', '\u{3000}', 'z']);
}

#[test]
fn digit_of_reads_ascii_digits_only() {
    assert_eq!(digit_of('0'), Some(0));
    assert_eq!(digit_of('7'), Some(7));
    assert_eq!(digit_of('9'), Some(9));
    assert_eq!(digit_of('/'), None);
    assert_eq!(digit_of(':'), None);
    assert_eq!(digit_of('a'), None);
    assert_eq!(digit_of('\u{663}'), None);
}

#[test]
fn white_space_is_what_std_calls_white_space() {
    for code in 0u32..=0x10ffff {
        if let Some(c) = char::from_u32(code) {
            assert_eq!(char_is_whitespace(c), c.is_whitespace(), "code point {:#x}", code);
        }
    }
}

#[test]
fn trim_bounds_cut_white_space_at_both_ends() {
    assert_eq!(trim_bounds(&chars_of("")), (0, 0));
    assert_eq!(trim_bounds(&chars_of("abc")), (0, 3));
    assert_eq!(trim_bounds(&chars_of("  a b \n")), (2, 5));
    let blank = trim_bounds(&chars_of(" \t "));
    assert_eq!(blank.0, blank.1);
}

#[test]
fn push_decimal_writes_base_ten() {
    for (n, text) in [(0u64, "0"), (7, "7"), (10, "10"), (2024, "2024"), (u64::MAX, "18446744073709551615")] {
        let mut out = String::from("x");
        push_decimal(&mut out, n);
        assert_eq!(out, format!("x{}", text));
        assert_eq!(out, format!("x{}", n));
    }
}

#[test]
fn push_signed_decimal_writes_the_sign() {
    for n in [0i64, 5, -5, 2024, -2024, i64::MAX, i64::MIN, i64::MIN + 1] {
        let mut out = String::new();
        push_signed_decimal(&mut out, n);
        assert_eq!(out, n.to_string());
    }
}
