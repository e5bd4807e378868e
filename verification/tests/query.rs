use uri_parser::query::param;
use uri_parser::{query, ErrorKind, ParseError};

fn failure<'a>(at: &'a str, kind: ErrorKind, input: &'a str) -> ParseError<'a> {
    ParseError {
        errors: vec![(at, kind), (input, ErrorKind::Context("query"))],
    }
}

#[test]
fn query_keeps_order_and_repeated_keys() {
    assert_eq!(
        query("?a=1&b=2&a=3"),
        Ok((
            "",
            vec![("a", Some("1")), ("b", Some("2")), ("a", Some("3"))]
        ))
    );
    assert_eq!(
        query("?z=1&a=2&m=3&a=2"),
        Ok((
            "",
            vec![
                ("z", Some("1")),
                ("a", Some("2")),
                ("m", Some("3")),
                ("a", Some("2"))
            ]
        ))
    );
}

#[test]
fn query_without_parameters() {
    assert_eq!(query("?"), Ok(("", vec![])));
    assert_eq!(query("?#f"), Ok(("#f", vec![])));
}

#[test]
fn query_key_without_value() {
    assert_eq!(query("?a"), Ok(("", vec![("a", None)])));
    assert_eq!(query("?a&b"), Ok(("", vec![("a", None), ("b", None)])));
    assert_eq!(
        query("?a&b=1&c"),
        Ok(("", vec![("a", None), ("b", Some("1")), ("c", None)]))
    );
}

#[test]
fn query_key_with_empty_value() {
    assert_eq!(query("?a="), Ok(("", vec![("a", Some(""))])));
    assert_eq!(
        query("?a=&b="),
        Ok(("", vec![("a", Some("")), ("b", Some(""))]))
    );
    assert_eq!(query("?a=#f"), Ok(("#f", vec![("a", Some(""))])));
}

#[test]
fn query_value_holds_other_delimiters() {
    assert_eq!(query("?a=b=c"), Ok(("", vec![("a", Some("b=c"))])));
    assert_eq!(query("?a=/?:@"), Ok(("", vec![("a", Some("/?:@"))])));
    assert_eq!(query("?a/b?c=1"), Ok(("", vec![("a/b?c", Some("1"))])));
    assert_eq!(query("??"), Ok(("", vec![("?", None)])));
}

#[test]
fn query_stops_at_the_fragment() {
    assert_eq!(query("?a=1#frag"), Ok(("#frag", vec![("a", Some("1"))])));
    assert_eq!(
        query("?a=1&b#x&y=z"),
        Ok(("#x&y=z", vec![("a", Some("1")), ("b", None)]))
    );
}

#[test]
fn query_that_is_not_ascii() {
    assert_eq!(
        query("?k=\u{fc}&\u{f6}#\u{e4}"),
        Ok(("#\u{e4}", vec![("k", Some("\u{fc}")), ("\u{f6}", None)]))
    );
}

#[test]
fn query_without_question_mark() {
    assert_eq!(query(""), Err(failure("", ErrorKind::Tag, "")));
    assert_eq!(query("a=1"), Err(failure("a=1", ErrorKind::Tag, "a=1")));
    assert_eq!(query("#f"), Err(failure("#f", ErrorKind::Tag, "#f")));
    assert_eq!(query("&a"), Err(failure("&a", ErrorKind::Tag, "&a")));
}

#[test]
fn query_with_a_missing_key() {
    assert_eq!(query("?&a"), Err(failure("&a", ErrorKind::IsNot, "?&a")));
    assert_eq!(query("?a&"), Err(failure("", ErrorKind::IsNot, "?a&")));
    assert_eq!(query("?a&&b"), Err(failure("&b", ErrorKind::IsNot, "?a&&b")));
    assert_eq!(query("?=v"), Err(failure("=v", ErrorKind::IsNot, "?=v")));
    assert_eq!(
        query("?a=1&=2"),
        Err(failure("=2", ErrorKind::IsNot, "?a=1&=2"))
    );
    assert_eq!(query("?a&#f"), Err(failure("#f", ErrorKind::IsNot, "?a&#f")));
    assert_eq!(
        query("?a=1&b=2&"),
        Err(failure("", ErrorKind::IsNot, "?a=1&b=2&"))
    );
}

#[test]
fn query_is_the_text_that_was_read() {
    for input in ["?", "?a", "?a=1&b=2&a=3", "?a=&b#c", "?x=\u{fc}&y=1=2#z&"] {
        let (rest, params) = query(input).unwrap();
        let mut text = String::from("?");
        for (i, (key, value)) in params.iter().enumerate() {
            if i > 0 {
                text.push('&');
            }
            text.push_str(key);
            if let Some(value) = value {
                text.push('=');
                text.push_str(value);
            }
        }
        text.push_str(rest);
        assert_eq!(text, input);
        assert!(rest.is_empty() || rest.starts_with('#'));
    }
}

#[test]
fn query_does_not_match_again_on_what_it_left() {
    for input in ["?a=1#f", "?", "?a&b", "?#?a"] {
        let (rest, _) = query(input).unwrap();
        assert!(rest.len() < input.len());
        assert!(input.ends_with(rest));
        assert_eq!(query(rest), Err(failure(rest, ErrorKind::Tag, rest)));
    }
}

#[test]
fn param_alone() {
    assert_eq!(param("a"), Ok(("", ("a", None))));
    assert_eq!(param("a=1"), Ok(("", ("a", Some("1")))));
    assert_eq!(param("a=1&b"), Ok(("&b", ("a", Some("1")))));
    assert_eq!(param("a&b"), Ok(("&b", ("a", None))));
    assert_eq!(param("a=#f"), Ok(("#f", ("a", Some("")))));
    assert_eq!(
        param(""),
        Err(ParseError {
            errors: vec![("", ErrorKind::IsNot)]
        })
    );
    assert_eq!(
        param("=x"),
        Err(ParseError {
            errors: vec![("=x", ErrorKind::IsNot)]
        })
    );
    assert_eq!(
        param("&x"),
        Err(ParseError {
            errors: vec![("&x", ErrorKind::IsNot)]
        })
    );
}
