use uri_parser::{authority, ErrorKind, ParseError};

#[test]
fn test_authority() {
    assert_eq!(
        authority("username:password@zupzup.org"),
        Ok(("zupzup.org", ("username", Some("password"))))
    );
    assert_eq!(
        authority("username@zupzup.org"),
        Ok(("zupzup.org", ("username", None)))
    );
    assert_eq!(
        authority("zupzup.org"),
        Err(ParseError {
            errors: vec![
                (".org", ErrorKind::Tag),
                ("zupzup.org", ErrorKind::Context("authority")),
            ]
        })
    );
    assert_eq!(
        authority(":zupzup.org"),
        Err(ParseError {
            errors: vec![
                (":zupzup.org", ErrorKind::AlphaNumeric),
                (":zupzup.org", ErrorKind::Context("authority")),
            ]
        })
    );
    assert_eq!(
        authority("username:passwordzupzup.org"),
        Err(ParseError {
            errors: vec![
                (".org", ErrorKind::Tag),
                (
                    "username:passwordzupzup.org",
                    ErrorKind::Context("authority")
                ),
            ]
        })
    );
    assert_eq!(
        authority("@zupzup.org"),
        Err(ParseError {
            errors: vec![
                ("@zupzup.org", ErrorKind::AlphaNumeric),
                ("@zupzup.org", ErrorKind::Context("authority")),
            ]
        })
    )
}

#[test]
fn authority_with_a_colon_and_no_password() {
    assert_eq!(authority("user:@host"), Ok(("host", ("user", None))));
    assert_eq!(authority("u:@"), Ok(("", ("u", None))));
}

#[test]
fn authority_of_the_shortest_kind() {
    assert_eq!(authority("a@"), Ok(("", ("a", None))));
    assert_eq!(authority("a:b@"), Ok(("", ("a", Some("b")))));
    assert_eq!(authority("A1:2b@c"), Ok(("c", ("A1", Some("2b")))));
}

#[test]
fn authority_on_empty_input() {
    assert_eq!(
        authority(""),
        Err(ParseError {
            errors: vec![
                ("", ErrorKind::AlphaNumeric),
                ("", ErrorKind::Context("authority")),
            ]
        })
    );
}

#[test]
fn authority_that_runs_into_the_end() {
    assert_eq!(
        authority("username"),
        Err(ParseError {
            errors: vec![
                ("", ErrorKind::Tag),
                ("username", ErrorKind::Context("authority")),
            ]
        })
    );
    assert_eq!(
        authority("username:password"),
        Err(ParseError {
            errors: vec![
                ("", ErrorKind::Tag),
                ("username:password", ErrorKind::Context("authority")),
            ]
        })
    );
}

#[test]
fn authority_with_a_second_colon() {
    assert_eq!(
        authority("a:b:c@d"),
        Err(ParseError {
            errors: vec![
                (":c@d", ErrorKind::Tag),
                ("a:b:c@d", ErrorKind::Context("authority")),
            ]
        })
    );
    assert_eq!(
        authority("a::@d"),
        Err(ParseError {
            errors: vec![
                (":@d", ErrorKind::Tag),
                ("a::@d", ErrorKind::Context("authority")),
            ]
        })
    );
}

#[test]
fn authority_stops_at_letters_that_are_not_ascii() {
    assert_eq!(
        authority("m\u{fc}ller@host"),
        Err(ParseError {
            errors: vec![
                ("\u{fc}ller@host", ErrorKind::Tag),
                ("m\u{fc}ller@host", ErrorKind::Context("authority")),
            ]
        })
    );
    assert_eq!(
        authority("\u{7528}\u{6237}@host"),
        Err(ParseError {
            errors: vec![
                ("\u{7528}\u{6237}@host", ErrorKind::AlphaNumeric),
                ("\u{7528}\u{6237}@host", ErrorKind::Context("authority")),
            ]
        })
    );
    assert_eq!(
        authority("user:p\u{e4}ss@host"),
        Err(ParseError {
            errors: vec![
                ("\u{e4}ss@host", ErrorKind::Tag),
                ("user:p\u{e4}ss@host", ErrorKind::Context("authority")),
            ]
        })
    );
}

#[test]
fn authority_reports_the_place_of_the_failure() {
    let input = "zupzup.org";
    let error = authority(input).unwrap_err();
    let (at, kind) = error.errors[0];
    assert_eq!(kind, ErrorKind::Tag);
    assert!(input.ends_with(at));
    assert_eq!(input.len() - at.len(), 6);
    let (at, kind) = error.errors[1];
    assert_eq!(kind, ErrorKind::Context("authority"));
    assert_eq!(input.len() - at.len(), 0);
}

#[test]
fn authority_may_match_again_on_what_it_left() {
    let (rest, first) = authority("a@b@c").unwrap();
    assert_eq!((rest, first), ("b@c", ("a", None)));
    assert_eq!(authority(rest), Ok(("c", ("b", None))));
}
