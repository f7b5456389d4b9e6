use speedy_md::tokenizer::utils::{
    is_digit_byte, is_new_line, is_space, is_string_numeric, not_new_line,
};

#[test]
fn line_feed_and_carriage_return_are_new_lines() {
    assert!(!not_new_line(b'\n'));
    assert!(!not_new_line(b'\r'));
    assert!(is_new_line(b'\n'));
    assert!(is_new_line(b'\r'));
}

#[test]
fn other_bytes_are_no_new_lines() {
    for byte in 0..=255u8 {
        if byte != b'\n' && byte != b'\r' {
            assert!(not_new_line(byte));
            assert!(!is_new_line(byte));
        }
    }
}

#[test]
fn space_and_digits() {
    assert!(is_space(b' '));
    assert!(!is_space(b'\t'));
    for byte in 0..=255u8 {
        assert_eq!(is_digit_byte(byte), byte.is_ascii_digit());
    }
}

#[test]
fn numeric_strings() {
    assert!(is_string_numeric("0123456789"));
    assert!(is_string_numeric("7"));
    assert!(is_string_numeric("\u{663}"));
    assert!(is_string_numeric("\u{bd}\u{2167}"));
}

#[test]
fn empty_string_is_numeric() {
    assert!(is_string_numeric(""));
}

#[test]
fn strings_with_other_characters_are_not_numeric() {
    assert!(!is_string_numeric("4a"));
    assert!(!is_string_numeric("a4"));
    assert!(!is_string_numeric("12 "));
    assert!(!is_string_numeric("1.5"));
    assert!(!is_string_numeric("-1"));
    assert!(!is_string_numeric("K"));
}
