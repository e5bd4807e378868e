use uri_parser::host::{address, dotted_octet, octet};
use uri_parser::{host, ErrorKind, Host, ParseError};

fn name(text: &str) -> Host {
    Host::HOST(text.to_string())
}

fn no_host(input: &str) -> ParseError<'_> {
    ParseError {
        errors: vec![
            (input, ErrorKind::IsNot),
            (input, ErrorKind::Alt),
            (input, ErrorKind::Context("host")),
        ],
    }
}

#[test]
fn host_name() {
    assert_eq!(host("zupzup.org"), Ok(("", name("zupzup.org"))));
    assert_eq!(host("example.com/path"), Ok(("/path", name("example.com"))));
    assert_eq!(host("localhost:8080"), Ok((":8080", name("localhost"))));
    assert_eq!(host("h?q"), Ok(("?q", name("h"))));
    assert_eq!(host("h#f"), Ok(("#f", name("h"))));
    assert_eq!(host("a@b"), Ok(("", name("a@b"))));
    assert_eq!(host("a b&c=d"), Ok(("", name("a b&c=d"))));
}

#[test]
fn host_name_that_is_not_ascii() {
    assert_eq!(
        host("m\u{fc}nchen.de/"),
        Ok(("/", name("m\u{fc}nchen.de")))
    );
    assert_eq!(
        host("\u{4f8b}\u{3048}.jp:80"),
        Ok((":80", name("\u{4f8b}\u{3048}.jp")))
    );
    assert_eq!(host("\u{1f600}"), Ok(("", name("\u{1f600}"))));
}

#[test]
fn host_address() {
    assert_eq!(host("127.0.0.1"), Ok(("", Host::IP([127, 0, 0, 1]))));
    assert_eq!(host("127.0.0.1:80"), Ok((":80", Host::IP([127, 0, 0, 1]))));
    assert_eq!(host("0.0.0.0/"), Ok(("/", Host::IP([0, 0, 0, 0]))));
    assert_eq!(
        host("255.255.255.255?x"),
        Ok(("?x", Host::IP([255, 255, 255, 255])))
    );
    assert_eq!(host("1.2.3.4#f"), Ok(("#f", Host::IP([1, 2, 3, 4]))));
    assert_eq!(host("192.168.10.99"), Ok(("", Host::IP([192, 168, 10, 99]))));
}

#[test]
fn host_address_with_zeros_in_front() {
    assert_eq!(host("01.2.3.4"), Ok(("", Host::IP([1, 2, 3, 4]))));
    assert_eq!(host("001.002.003.004"), Ok(("", Host::IP([1, 2, 3, 4]))));
    assert_eq!(host("000.000.000.000"), Ok(("", Host::IP([0, 0, 0, 0]))));
    assert_eq!(host("0001.2.3.4"), Ok(("", name("0001.2.3.4"))));
}

#[test]
fn host_that_only_looks_like_an_address() {
    assert_eq!(host("256.1.1.1"), Ok(("", name("256.1.1.1"))));
    assert_eq!(host("1.2.3.256"), Ok(("", name("1.2.3.256"))));
    assert_eq!(host("999.999.999.999/"), Ok(("/", name("999.999.999.999"))));
    assert_eq!(host("1.2.3"), Ok(("", name("1.2.3"))));
    assert_eq!(host("1.2.3."), Ok(("", name("1.2.3."))));
    assert_eq!(host("1..2.3"), Ok(("", name("1..2.3"))));
    assert_eq!(host(".1.2.3.4"), Ok(("", name(".1.2.3.4"))));
    assert_eq!(host("1.2.3.4.5"), Ok(("", name("1.2.3.4.5"))));
    assert_eq!(host("1.2.3.4a"), Ok(("", name("1.2.3.4a"))));
    assert_eq!(host("1.2.3.4.:80"), Ok((":80", name("1.2.3.4."))));
    assert_eq!(host("1.2.3.4@h"), Ok(("", name("1.2.3.4@h"))));
    assert_eq!(host("1.2.3.1234"), Ok(("", name("1.2.3.1234"))));
}

#[test]
fn host_missing() {
    assert_eq!(host(""), Err(no_host("")));
    assert_eq!(host("/path"), Err(no_host("/path")));
    assert_eq!(host(":80"), Err(no_host(":80")));
    assert_eq!(host("?q"), Err(no_host("?q")));
    assert_eq!(host("#f"), Err(no_host("#f")));
}

#[test]
fn host_does_not_match_again_on_what_it_left() {
    for input in ["a:80", "1.2.3.4/x", "h", "h?q#f", "m\u{fc}/"] {
        let (rest, _) = host(input).unwrap();
        assert!(rest.len() < input.len());
        assert!(input.ends_with(rest));
        assert_eq!(host(rest), Err(no_host(rest)));
    }
}

#[test]
fn octet_alone() {
    assert_eq!(octet("0"), Some(("", 0)));
    assert_eq!(octet("7."), Some((".", 7)));
    assert_eq!(octet("12.3"), Some((".3", 12)));
    assert_eq!(octet("255/"), Some(("/", 255)));
    assert_eq!(octet("099x"), Some(("x", 99)));
    assert_eq!(octet("256"), None);
    assert_eq!(octet("999"), None);
    assert_eq!(octet("1234"), None);
    assert_eq!(octet("0000"), None);
    assert_eq!(octet(""), None);
    assert_eq!(octet(".1"), None);
    assert_eq!(octet("x"), None);
    assert_eq!(octet("\u{661}"), None);
}

#[test]
fn dotted_octet_alone() {
    assert_eq!(dotted_octet(".0"), Some(("", 0)));
    assert_eq!(dotted_octet(".25.1"), Some((".1", 25)));
    assert_eq!(dotted_octet("25"), None);
    assert_eq!(dotted_octet("."), None);
    assert_eq!(dotted_octet(".."), None);
    assert_eq!(dotted_octet(".300"), None);
    assert_eq!(dotted_octet(""), None);
}

#[test]
fn address_alone() {
    assert_eq!(address("1.2.3.4"), Some(("", [1, 2, 3, 4])));
    assert_eq!(address("10.0.0.255:1"), Some((":1", [10, 0, 0, 255])));
    assert_eq!(address("1.2.3.4/"), Some(("/", [1, 2, 3, 4])));
    assert_eq!(address("1.2.3.4 "), None);
    assert_eq!(address("1.2.3.4.5"), None);
    assert_eq!(address("1.2.3"), None);
    assert_eq!(address("1.2.3.x"), None);
    assert_eq!(address("a.2.3.4"), None);
    assert_eq!(address(""), None);
}
