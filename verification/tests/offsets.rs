use hextatui::bounds::{align_line, max_u64, min_u64};
use hextatui::cli::{clean_offset_chars, hex_prefixed, parse_clean_offset, parse_offset};
use hextatui::keys::parse_goto_offset;
use hextatui::number::{parse_number, NumberFault};
use hextatui::result::{format_with_commas, Encoding};
use hextatui::text::{
    chars_of, contains_chars, drop_hash_chars, is_space_char, push_decimal, push_decimal_right,
    push_hex, push_left_aligned, push_right_aligned, string_of, trim_chars,
};

fn chars(s: &str) -> Vec<char> {
    s.chars().collect()
}

#[test]
fn offsets_are_read_in_both_bases() {
    assert_eq!(parse_offset("0x28100"), Ok(164096));
    assert_eq!(parse_offset("164096"), Ok(164096));
    assert_eq!(parse_offset("0X28350"), Ok(164688));
    assert_eq!(parse_offset("164688"), Ok(164688));
    assert_eq!(parse_offset("0xdeadBEEF"), Ok(0xdead_beef));
    assert_eq!(parse_offset("+7"), Ok(7));
    assert_eq!(parse_offset("0x+7"), Ok(7));
    assert_eq!(parse_offset("18446744073709551615"), Ok(u64::MAX));
    assert_eq!(parse_offset("0xFFFFFFFFFFFFFFFF"), Ok(u64::MAX));
}

#[test]
fn separators_and_blanks_are_dropped_from_offsets() {
    assert_eq!(parse_offset("  1,234_567 \t"), Ok(1234567));
    assert_eq!(parse_offset("0x_12_34"), Ok(0x1234));
    assert_eq!(parse_offset("0_x10"), Ok(16));
    assert_eq!(string_of(&clean_offset_chars(" 1_0,0 ")), "100");
}

#[test]
fn faulty_offsets_say_what_is_wrong() {
    assert_eq!(
        parse_offset(""),
        Err("invalid offset '': cannot parse integer from empty string".to_string())
    );
    assert_eq!(
        parse_offset("12z"),
        Err("invalid offset '12z': invalid digit found in string".to_string())
    );
    assert_eq!(
        parse_offset("-1"),
        Err("invalid offset '-1': invalid digit found in string".to_string())
    );
    assert_eq!(
        parse_offset("18446744073709551616"),
        Err("invalid offset '18446744073709551616': number too large to fit in target type".to_string())
    );
    assert_eq!(
        parse_offset("0x"),
        Err("invalid hex offset '0x': cannot parse integer from empty string".to_string())
    );
    assert_eq!(
        parse_offset("0xG"),
        Err("invalid hex offset '0xG': invalid digit found in string".to_string())
    );
    assert_eq!(
        parse_offset("0x10000000000000000"),
        Err("invalid hex offset '0x10000000000000000': number too large to fit in target type".to_string())
    );
}

#[test]
fn offset_faults_are_those_of_the_standard_library() {
    for s in [
        "", "+", "-", "++1", "1+", "007", "99999999999999999999", "99999999999999999999z",
        "z99999999999999999999", "18446744073709551615", "1844674407370955161z", "é", "1é",
    ] {
        let ours = parse_number(&chars(s), 10, u64::MAX).map_err(|e| e.message());
        let theirs = s.parse::<u64>().map_err(|e| e.to_string());
        assert_eq!(ours, theirs, "{s:?}");
    }
    for s in ["", "+", "fF", "FFFFFFFFFFFFFFFF", "FFFFFFFFFFFFFFFFF", "g", "0x1", "-f"] {
        let ours = parse_number(&chars(s), 16, u64::MAX).map_err(|e| e.message());
        let theirs = u64::from_str_radix(s, 16).map_err(|e| e.to_string());
        assert_eq!(ours, theirs, "{s:?}");
    }
}

#[test]
fn number_faults_by_kind() {
    assert_eq!(parse_number(&chars(""), 10, 5), Err(NumberFault::Empty));
    assert_eq!(parse_number(&chars("x"), 10, 5), Err(NumberFault::InvalidDigit));
    assert_eq!(parse_number(&chars("6"), 10, 5), Err(NumberFault::TooLarge));
    assert_eq!(parse_number(&chars("5"), 10, 5), Ok(5));
}

#[test]
fn clean_offsets_are_read_by_prefix() {
    assert!(hex_prefixed(&chars("0x")));
    assert!(!hex_prefixed(&chars("0")));
    assert_eq!(parse_clean_offset(&chars("0x10")), Ok(16));
    assert_eq!(parse_clean_offset(&chars("10")), Ok(10));
    assert_eq!(parse_clean_offset(&chars("1 0")), Err(NumberFault::InvalidDigit));
}

#[test]
fn goto_offsets_have_plain_complaints() {
    assert_eq!(parse_goto_offset("0x1_0"), Ok(16));
    assert_eq!(parse_goto_offset(" 1,000 "), Ok(1000));
    assert_eq!(parse_goto_offset("x"), Err("invalid digit found in string".to_string()));
}

#[test]
fn written_offsets_read_back() {
    for n in [0, 9, 10, 999, 1000, 123456, 1234567, 0xdead_beef, u64::MAX] {
        assert_eq!(parse_offset(&format_with_commas(n)), Ok(n));
        let mut hex = String::from("0x");
        push_hex(&mut hex, n, 8);
        assert_eq!(parse_offset(&hex), Ok(n));
        assert_eq!(hex, format!("0x{n:08X}"));
    }
}

#[test]
fn commas_group_three_digits() {
    assert_eq!(format_with_commas(0), "0");
    assert_eq!(format_with_commas(999), "999");
    assert_eq!(format_with_commas(1000), "1,000");
    assert_eq!(format_with_commas(12345), "12,345");
    assert_eq!(format_with_commas(1234567), "1,234,567");
    assert_eq!(format_with_commas(u64::MAX), "18,446,744,073,709,551,615");
}

#[test]
fn padding_is_that_of_the_standard_library() {
    for n in [0u64, 7, 123, 123456789] {
        let mut s = String::new();
        push_decimal(&mut s, n);
        push_decimal_right(&mut s, n, 6);
        push_hex(&mut s, n, 4);
        push_hex(&mut s, n, 0);
        assert_eq!(s, format!("{n}{n:>6}{n:04X}{n:X}"));
    }
    for t in ["", "ab", "äöü", "abcdefgh"] {
        let mut s = String::new();
        push_right_aligned(&mut s, t, 4);
        push_left_aligned(&mut s, t, 6);
        assert_eq!(s, format!("{t:>4}{t:<6}"));
    }
}

#[test]
fn white_space_is_that_of_the_standard_library() {
    for n in 0..0x11_0000u32 {
        if let Some(c) = char::from_u32(n) {
            assert_eq!(is_space_char(c), c.is_whitespace(), "{n:X}");
        }
    }
    for s in ["", " ", " a ", "\u{a0}a b\u{3000}", "a", "\t\n"] {
        assert_eq!(string_of(&trim_chars(&chars_of(s))), s.trim());
    }
}

#[test]
fn number_signs_are_dropped_in_front() {
    assert_eq!(string_of(&drop_hash_chars(&chars("##4#"))), "4#");
    assert_eq!(string_of(&drop_hash_chars(&chars("4"))), "4");
    assert_eq!(string_of(&drop_hash_chars(&chars("##"))), "");
}

#[test]
fn texts_are_found_in_texts() {
    for (hay, needle) in [("hello", "ll"), ("hello", ""), ("", "a"), ("aab", "ab"), ("abc", "abcd"), ("abc", "c")] {
        assert_eq!(contains_chars(&chars(hay), &chars(needle)), hay.contains(needle));
    }
}

#[test]
fn numbers_are_kept_in_bounds() {
    assert_eq!(min_u64(3, 4), 3);
    assert_eq!(min_u64(4, 3), 3);
    assert_eq!(max_u64(3, 4), 4);
    assert_eq!(max_u64(4, 3), 4);
    assert_eq!(align_line(0), 0);
    assert_eq!(align_line(15), 0);
    assert_eq!(align_line(0x28107), 0x28100);
    assert_eq!(align_line(u64::MAX), u64::MAX - 15);
}

#[test]
fn the_encoding_has_a_name() {
    assert_eq!(Encoding::Ascii.label(), "ASCII");
}
