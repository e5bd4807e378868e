use uri_parser::{fragment, ErrorKind, ParseError};

fn no_fragment(input: &str) -> ParseError<'_> {
    ParseError {
        errors: vec![
            (input, ErrorKind::Tag),
            (input, ErrorKind::Context("fragment")),
        ],
    }
}

#[test]
fn fragment_text() {
    assert_eq!(fragment("#frag"), Ok(("", "frag")));
    assert_eq!(fragment("#"), Ok(("", "")));
    assert_eq!(fragment("#a#b?c/d&e=f"), Ok(("", "a#b?c/d&e=f")));
    assert_eq!(fragment("##"), Ok(("", "#")));
    assert_eq!(fragment("# a b "), Ok(("", " a b ")));
    assert_eq!(
        fragment("#\u{fc}ber\u{1f600}"),
        Ok(("", "\u{fc}ber\u{1f600}"))
    );
}

#[test]
fn fragment_without_hash() {
    assert_eq!(fragment(""), Err(no_fragment("")));
    assert_eq!(fragment("x"), Err(no_fragment("x")));
    assert_eq!(fragment("x#y"), Err(no_fragment("x#y")));
    assert_eq!(fragment("?#"), Err(no_fragment("?#")));
}

#[test]
fn fragment_does_not_match_again_on_what_it_left() {
    let (rest, _) = fragment("##x#").unwrap();
    assert_eq!(rest, "");
    assert_eq!(fragment(rest), Err(no_fragment(rest)));
}
