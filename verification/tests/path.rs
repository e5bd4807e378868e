use uri_parser::{path, ErrorKind, ParseError};

fn no_path(input: &str) -> ParseError<'_> {
    ParseError {
        errors: vec![(input, ErrorKind::Tag), (input, ErrorKind::Context("path"))],
    }
}

#[test]
fn path_segments() {
    assert_eq!(path("/a"), Ok(("", vec!["a"])));
    assert_eq!(path("/a/b"), Ok(("", vec!["a", "b"])));
    assert_eq!(path("/a/b/c.html"), Ok(("", vec!["a", "b", "c.html"])));
    assert_eq!(path("/a/b?x"), Ok(("?x", vec!["a", "b"])));
    assert_eq!(path("/a#f"), Ok(("#f", vec!["a"])));
    assert_eq!(path("/a?x#f"), Ok(("?x#f", vec!["a"])));
}

#[test]
fn path_keeps_empty_segments() {
    assert_eq!(path("/"), Ok(("", vec![""])));
    assert_eq!(path("/a/"), Ok(("", vec!["a", ""])));
    assert_eq!(path("//"), Ok(("", vec!["", ""])));
    assert_eq!(path("/a//b"), Ok(("", vec!["a", "", "b"])));
    assert_eq!(path("//a"), Ok(("", vec!["", "a"])));
    assert_eq!(path("/?x"), Ok(("?x", vec![""])));
    assert_eq!(path("/a/#f"), Ok(("#f", vec!["a", ""])));
}

#[test]
fn path_segments_hold_other_delimiters() {
    assert_eq!(path("/a:b@c/d=e&f"), Ok(("", vec!["a:b@c", "d=e&f"])));
    assert_eq!(path("/a b/ c"), Ok(("", vec!["a b", " c"])));
    assert_eq!(path("/%2F/.."), Ok(("", vec!["%2F", ".."])));
}

#[test]
fn path_that_is_not_ascii() {
    assert_eq!(
        path("/\u{e4}/\u{f6}\u{fc}?x"),
        Ok(("?x", vec!["\u{e4}", "\u{f6}\u{fc}"]))
    );
    assert_eq!(
        path("/\u{1f600}/\u{4f8b}#\u{3048}"),
        Ok(("#\u{3048}", vec!["\u{1f600}", "\u{4f8b}"]))
    );
}

#[test]
fn path_without_slash() {
    assert_eq!(path(""), Err(no_path("")));
    assert_eq!(path("a"), Err(no_path("a")));
    assert_eq!(path("a/b"), Err(no_path("a/b")));
    assert_eq!(path("?x"), Err(no_path("?x")));
    assert_eq!(path("#f"), Err(no_path("#f")));
}

#[test]
fn path_is_the_text_that_was_read() {
    for input in ["/", "/a/b", "//a//", "/a/b?x=/y", "/\u{e4}/b/#/c"] {
        let (rest, segments) = path(input).unwrap();
        let mut text = String::new();
        for segment in &segments {
            text.push('/');
            text.push_str(segment);
            assert!(!segment.contains('/') && !segment.contains('?') && !segment.contains('#'));
        }
        text.push_str(rest);
        assert_eq!(text, input);
        assert!(rest.is_empty() || rest.starts_with('?') || rest.starts_with('#'));
    }
}

#[test]
fn path_does_not_match_again_on_what_it_left() {
    for input in ["/a/b?x", "/", "/a#/b", "/a/b"] {
        let (rest, _) = path(input).unwrap();
        assert!(rest.len() < input.len());
        assert!(input.ends_with(rest));
        assert_eq!(path(rest), Err(no_path(rest)));
    }
}
