use uri_parser::{scheme, ErrorKind, ParseError, Scheme, UnknownScheme};

fn no_scheme(input: &str) -> ParseError<'_> {
    ParseError {
        errors: vec![
            (input, ErrorKind::Tag),
            (input, ErrorKind::Alt),
            (input, ErrorKind::Context("scheme")),
        ],
    }
}

#[test]
fn test_scheme() {
    assert_eq!(scheme("HTTP://"), Ok(("", Scheme::HTTP)));
    assert_eq!(scheme("HTTPS://"), Ok(("", Scheme::HTTPS)));
    assert_eq!(scheme("https://yay"), Ok(("yay", Scheme::HTTPS)));
    assert_eq!(scheme("http://yay"), Ok(("yay", Scheme::HTTP)));
    assert_eq!(
        scheme("bla://yay"),
        Err(ParseError {
            errors: vec![
                ("bla://yay", ErrorKind::Tag),
                ("bla://yay", ErrorKind::Alt),
                ("bla://yay", ErrorKind::Context("scheme")),
            ]
        })
    );
}

#[test]
fn scheme_literals_in_any_case() {
    assert_eq!(scheme("http://"), Ok(("", Scheme::HTTP)));
    assert_eq!(scheme("HTTP://"), Ok(("", Scheme::HTTP)));
    assert_eq!(scheme("Http://"), Ok(("", Scheme::HTTP)));
    assert_eq!(scheme("https://"), Ok(("", Scheme::HTTPS)));
    assert_eq!(scheme("HTTPS://"), Ok(("", Scheme::HTTPS)));
    assert_eq!(scheme("hTtPs://"), Ok(("", Scheme::HTTPS)));
}

#[test]
fn scheme_consumes_the_literal_and_no_more() {
    assert_eq!(scheme("http://://"), Ok(("://", Scheme::HTTP)));
    assert_eq!(scheme("https:///"), Ok(("/", Scheme::HTTPS)));
    assert_eq!(scheme("http://s://"), Ok(("s://", Scheme::HTTP)));
    assert_eq!(scheme("http://\u{fc}ber"), Ok(("\u{fc}ber", Scheme::HTTP)));
}

#[test]
fn scheme_refuses_what_is_no_literal() {
    for input in [
        "",
        "h",
        "http:/",
        "http:/ /",
        "https:/",
        "httpss://",
        "ftp://x",
        " http://x",
        "http//x",
        "htt\u{70}s:\u{2f}",
        "\u{212a}ttp://",
        "http\u{17f}://x",
        "\u{ff48}ttp://x",
    ] {
        assert_eq!(scheme(input), Err(no_scheme(input)), "{:?}", input);
    }
}

#[test]
fn scheme_may_match_again_on_what_it_left() {
    let (rest, first) = scheme("http://https://x").unwrap();
    assert_eq!((rest, first), ("https://x", Scheme::HTTP));
    assert_eq!(scheme(rest), Ok(("x", Scheme::HTTPS)));
}

#[test]
fn scheme_from_literal() {
    assert_eq!(Scheme::from("http://"), Ok(Scheme::HTTP));
    assert_eq!(Scheme::from("HTTP://"), Ok(Scheme::HTTP));
    assert_eq!(Scheme::from("hTTp://"), Ok(Scheme::HTTP));
    assert_eq!(Scheme::from("https://"), Ok(Scheme::HTTPS));
    assert_eq!(Scheme::from("HTTPS://"), Ok(Scheme::HTTPS));
}

#[test]
fn scheme_from_other_text() {
    assert_eq!(Scheme::from(""), Err(UnknownScheme));
    assert_eq!(Scheme::from("http"), Err(UnknownScheme));
    assert_eq!(Scheme::from("http://x"), Err(UnknownScheme));
    assert_eq!(Scheme::from("https://x"), Err(UnknownScheme));
    assert_eq!(Scheme::from("ftp://"), Err(UnknownScheme));
    assert_eq!(Scheme::from("bla://yay"), Err(UnknownScheme));
    assert_eq!(Scheme::from("http:/\u{2215}"), Err(UnknownScheme));
}
