//! The character tests and numerals against the standard library.

use logic_theorist::text::{char_is_alphanumeric, char_is_whitespace, push_char, push_decimal};

#[test]
fn whitespace_agrees_with_std() {
    for u in 0u32..0x110000 {
        if let Some(c) = char::from_u32(u) {
            assert_eq!(char_is_whitespace(c), c.is_whitespace(), "U+{u:04X}");
        }
    }
}

#[test]
fn alphanumeric_on_ascii_is_letters_and_digits() {
    for u in 0u32..0x80 {
        let c = char::from_u32(u).unwrap();
        assert_eq!(char_is_alphanumeric(c), c.is_ascii_alphanumeric(), "U+{u:04X}");
    }
    assert!(char_is_alphanumeric('é'));
    assert!(char_is_alphanumeric('藏'));
    assert!(!char_is_alphanumeric('¬'));
}

#[test]
fn decimal_numerals() {
    for n in [0u64, 7, 10, 1234, u64::MAX] {
        let mut s = String::from("#");
        push_decimal(&mut s, n);
        assert_eq!(s, format!("#{n}"));
    }
    let mut s = String::from("a");
    push_char(&mut s, 'β');
    assert_eq!(s, "aβ");
}
