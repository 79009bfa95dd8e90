use wrt::text::{
    char_is_digit, char_is_space, chars_of, parse_decimal, render_decimal, render_signed, string_of,
};

fn all_chars() -> impl Iterator<Item = char> {
    (0..=0x10ffffu32).filter_map(char::from_u32)
}

#[test]
fn white_space_is_what_the_standard_library_trims() {
    for c in all_chars() {
        assert_eq!(char_is_space(c), c.is_whitespace(), "U+{:04X}", u32::from(c));
        let s = format!("{c}x{c}");
        assert_eq!(s.trim() == "x", char_is_space(c), "U+{:04X}", u32::from(c));
    }
}

#[test]
fn digits_are_the_ascii_digits() {
    for c in all_chars() {
        assert_eq!(char_is_digit(c), c.is_ascii_digit(), "U+{:04X}", u32::from(c));
    }
}

#[test]
fn strings_and_characters_convert_both_ways() {
    for s in ["", "a", "héllo wörld", "日本語\n\t", "'\"\\"] {
        let v = chars_of(s);
        assert_eq!(v, s.chars().collect::<Vec<char>>());
        assert_eq!(string_of(&v), s);
    }
}

#[test]
fn decimal_numbers_are_written_and_read() {
    for (n, s) in [(0u64, "0"), (7, "7"), (10, "10"), (65535, "65535"), (u64::MAX, "18446744073709551615")] {
        assert_eq!(string_of(&render_decimal(n)), s);
    }
    for (n, s) in [(0i64, "0"), (-1, "-1"), (42, "42"), (i64::MIN, "-9223372036854775808"), (i64::MAX, "9223372036854775807")] {
        assert_eq!(string_of(&render_signed(n)), s);
    }
    let v = chars_of("x0080y");
    assert_eq!(parse_decimal(&v, 1, 5, 100), Some(80));
    assert_eq!(parse_decimal(&v, 1, 5, 79), None);
    assert_eq!(parse_decimal(&v, 1, 1, 0), Some(0));
    let big = chars_of("99999999999999999999999999");
    assert_eq!(parse_decimal(&big, 0, big.len(), 0xffff_ffff_ffff), None);
    let max = chars_of("281474976710655");
    assert_eq!(parse_decimal(&max, 0, max.len(), 0xffff_ffff_ffff), Some(0xffff_ffff_ffff));
}
