use uri_parser::{port, ErrorKind, ParseError};

fn failure<'a>(at: &'a str, kind: ErrorKind, input: &'a str) -> ParseError<'a> {
    ParseError {
        errors: vec![(at, kind), (input, ErrorKind::Context("port"))],
    }
}

#[test]
fn port_number() {
    assert_eq!(port(":80"), Ok(("", 80)));
    assert_eq!(port(":80/x"), Ok(("/x", 80)));
    assert_eq!(port(":8080?q"), Ok(("?q", 8080)));
    assert_eq!(port(":443#f"), Ok(("#f", 443)));
    assert_eq!(port(":12345"), Ok(("", 12345)));
    assert_eq!(port(":0"), Ok(("", 0)));
    assert_eq!(port(":1"), Ok(("", 1)));
}

#[test]
fn port_at_the_limit() {
    assert_eq!(port(":65535"), Ok(("", 65535)));
    assert_eq!(
        port(":65536"),
        Err(failure("65536", ErrorKind::TooLarge, ":65536"))
    );
    assert_eq!(
        port(":65536/x"),
        Err(failure("65536/x", ErrorKind::TooLarge, ":65536/x"))
    );
    assert_eq!(
        port(":70000"),
        Err(failure("70000", ErrorKind::TooLarge, ":70000"))
    );
    assert_eq!(
        port(":100000"),
        Err(failure("100000", ErrorKind::TooLarge, ":100000"))
    );
}

#[test]
fn port_of_many_digits() {
    assert_eq!(
        port(":4294967296"),
        Err(failure("4294967296", ErrorKind::TooLarge, ":4294967296"))
    );
    assert_eq!(
        port(":4294967376"),
        Err(failure("4294967376", ErrorKind::TooLarge, ":4294967376"))
    );
    assert_eq!(
        port(":18446744073709551696"),
        Err(failure(
            "18446744073709551696",
            ErrorKind::TooLarge,
            ":18446744073709551696"
        ))
    );
    assert_eq!(
        port(":99999999999999999999999999999999999999999"),
        Err(failure(
            "99999999999999999999999999999999999999999",
            ErrorKind::TooLarge,
            ":99999999999999999999999999999999999999999"
        ))
    );
}

#[test]
fn port_with_zeros_in_front() {
    assert_eq!(port(":0080"), Ok(("", 80)));
    assert_eq!(port(":00000000000000000000000065535"), Ok(("", 65535)));
    assert_eq!(port(":000"), Ok(("", 0)));
    assert_eq!(
        port(":065536"),
        Err(failure("065536", ErrorKind::TooLarge, ":065536"))
    );
}

#[test]
fn port_without_colon() {
    assert_eq!(port("80"), Err(failure("80", ErrorKind::Tag, "80")));
    assert_eq!(port(""), Err(failure("", ErrorKind::Tag, "")));
    assert_eq!(port("/x"), Err(failure("/x", ErrorKind::Tag, "/x")));
    assert_eq!(port(" :80"), Err(failure(" :80", ErrorKind::Tag, " :80")));
}

#[test]
fn port_without_digits() {
    assert_eq!(port(":"), Err(failure("", ErrorKind::Digit, ":")));
    assert_eq!(port(":x"), Err(failure("x", ErrorKind::Digit, ":x")));
    assert_eq!(port(":/"), Err(failure("/", ErrorKind::Digit, ":/")));
    assert_eq!(port("::80"), Err(failure(":80", ErrorKind::Digit, "::80")));
    assert_eq!(port(":-1"), Err(failure("-1", ErrorKind::Digit, ":-1")));
    assert_eq!(port(":+1"), Err(failure("+1", ErrorKind::Digit, ":+1")));
    assert_eq!(
        port(":\u{662}"),
        Err(failure("\u{662}", ErrorKind::Digit, ":\u{662}"))
    );
}

#[test]
fn port_followed_by_other_text() {
    assert_eq!(port(":80abc"), Ok(("abc", 80)));
    assert_eq!(port(":80 "), Ok((" ", 80)));
    assert_eq!(port(":80\u{e4}"), Ok(("\u{e4}", 80)));
}

#[test]
fn port_may_match_again_on_what_it_left() {
    let (rest, first) = port(":80:90").unwrap();
    assert_eq!((rest, first), (":90", 80));
    assert_eq!(port(rest), Ok(("", 90)));
}
