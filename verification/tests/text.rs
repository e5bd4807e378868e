use uri_parser::text::{begins_with, is_empty, lower, take_while, CharClass};

#[test]
fn classes_of_ascii_bytes() {
    for b in 0u8..=255 {
        let c = b as char;
        assert_eq!(
            CharClass::AlphaNumeric.accepts(b),
            c.is_ascii_alphanumeric(),
            "{}",
            b
        );
        assert_eq!(CharClass::Digit.accepts(b), c.is_ascii_digit(), "{}", b);
        assert_eq!(
            CharClass::UserInfo.accepts(b),
            !matches!(b, b'@' | b'/' | b'?' | b'#')
        );
        assert_eq!(
            CharClass::HostName.accepts(b),
            !matches!(b, b'/' | b':' | b'?' | b'#')
        );
        assert_eq!(
            CharClass::Segment.accepts(b),
            !matches!(b, b'/' | b'?' | b'#')
        );
        assert_eq!(CharClass::Key.accepts(b), !matches!(b, b'=' | b'&' | b'#'));
        assert_eq!(CharClass::Value.accepts(b), !matches!(b, b'&' | b'#'));
        assert!(CharClass::Any.accepts(b));
    }
}

#[test]
fn small_letters() {
    for b in 0u8..=255 {
        assert_eq!(lower(b), b.to_ascii_lowercase(), "{}", b);
    }
    assert_eq!(lower(b'A'), b'a');
    assert_eq!(lower(b'Z'), b'z');
    assert_eq!(lower(b'@'), b'@');
    assert_eq!(lower(b'['), b'[');
}

#[test]
fn longest_run() {
    assert_eq!(take_while("abc123.org", CharClass::AlphaNumeric), ("abc123", ".org"));
    assert_eq!(take_while("abc", CharClass::AlphaNumeric), ("abc", ""));
    assert_eq!(take_while(".org", CharClass::AlphaNumeric), ("", ".org"));
    assert_eq!(take_while("", CharClass::AlphaNumeric), ("", ""));
    assert_eq!(take_while("0129a", CharClass::Digit), ("0129", "a"));
    assert_eq!(take_while("a/b", CharClass::Segment), ("a", "/b"));
    assert_eq!(take_while("a=b&c", CharClass::Key), ("a", "=b&c"));
    assert_eq!(take_while("a=b&c", CharClass::Value), ("a=b", "&c"));
    assert_eq!(take_while("a=b&c#d", CharClass::Any), ("a=b&c#d", ""));
}

#[test]
fn longest_run_next_to_characters_of_several_bytes() {
    assert_eq!(
        take_while("ab\u{e4}c", CharClass::AlphaNumeric),
        ("ab", "\u{e4}c")
    );
    assert_eq!(
        take_while("\u{e4}bc", CharClass::AlphaNumeric),
        ("", "\u{e4}bc")
    );
    assert_eq!(
        take_while("\u{e4}\u{1f600}/\u{f6}", CharClass::Segment),
        ("\u{e4}\u{1f600}", "/\u{f6}")
    );
    assert_eq!(
        take_while("\u{e4}\u{1f600}", CharClass::HostName),
        ("\u{e4}\u{1f600}", "")
    );
    assert_eq!(take_while("7\u{663}", CharClass::Digit), ("7", "\u{663}"));
}

#[test]
fn first_byte_and_emptiness() {
    assert!(begins_with("/a", b'/'));
    assert!(!begins_with("a/", b'/'));
    assert!(!begins_with("", b'/'));
    assert!(!begins_with("\u{e4}", 0xe4));
    assert!(begins_with("\u{e4}", 0xc3));
    assert!(is_empty(""));
    assert!(!is_empty(" "));
    assert!(!is_empty("\u{e4}"));
}
