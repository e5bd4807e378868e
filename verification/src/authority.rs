//! The authority rule: `user@` or `user:password@`.

use vstd::prelude::*;
use vstd::string::*;
use crate::error::{matched, reported_by, ErrorKind, ParseError, Parsed, Res};
use crate::text::{
    after_run, all_in, is_empty, is_suffix, lemma_after_run_is_suffix, lemma_run_len,
    lemma_run_of_concat, lemma_suffix_of_suffix, optional_bytes, proper_suffix, run, strip,
    strip_byte, take_while, CharClass, AT, COLON,
};

verus! {

/// A user name and, where one was given, a password.
pub type Authority<'a> = (&'a str, Option<&'a str>);

/// The model of an authority: the bytes of the user name and of the password.
pub type AuthorityModel = (Seq<u8>, Option<Seq<u8>>);

pub open spec fn authority_view(a: Authority) -> AuthorityModel {
    (a.0.spec_bytes(), optional_bytes(a.1))
}

/// The authority rule on the bytes `s`.
///
/// The user name is the longest run of letters and digits at the front, and
/// must not be empty. A `:` may follow, and after it the password, which is
/// again the longest run of letters and digits. A password of no characters
/// is no password. Then `@` must follow. A missing user name is reported at
/// `s`, a missing `@` at the place where it should stand; on top of either
/// stands the rule, at `s`.
pub open spec fn spec_authority(s: Seq<u8>) -> Parsed<AuthorityModel> {
    let user = run(s, CharClass::AlphaNumeric);
    let after_user = after_run(s, CharClass::AlphaNumeric);
    if user.len() == 0 {
        Err(seq![(s, ErrorKind::AlphaNumeric), (s, ErrorKind::Context("authority"))])
    } else {
        let after_colon = match strip(after_user, COLON) {
            Some(t) => t,
            None => after_user,
        };
        let password = run(after_colon, CharClass::AlphaNumeric);
        let after_password = after_run(after_colon, CharClass::AlphaNumeric);
        match strip(after_password, AT) {
            Some(rest) => Ok(
                (
                    rest,
                    (
                        user,
                        if password.len() > 0 {
                            Some(password)
                        } else {
                            None
                        },
                    ),
                ),
            ),
            None => Err(
                seq![(after_password, ErrorKind::Tag), (s, ErrorKind::Context("authority"))],
            ),
        }
    }
}

/// Recognizes a user name, an optional password and the `@` that ends them
/// at the front of `input`.
pub fn authority<'a>(input: &'a str) -> (r: Res<'a, Authority<'a>>)
    ensures
        match spec_authority(input.spec_bytes()) {
            Ok((rest, value)) => r matches Ok((t, v)) && t.spec_bytes() == rest && authority_view(v)
                == value,
            Err(stack) => r matches Err(e) && e@ == stack,
        },
        r matches Ok((t, _)) ==> proper_suffix(t.spec_bytes(), input.spec_bytes()),
{
    proof {
        lemma_authority_remainder(input.spec_bytes());
    }
    let (user, after_user) = take_while(input, CharClass::AlphaNumeric);
    if is_empty(user) {
        return Err(
            ParseError::new(input, ErrorKind::AlphaNumeric).append(
                input,
                ErrorKind::Context("authority"),
            ),
        );
    }
    let after_colon = match strip_byte(after_user, COLON) {
        Some(t) => t,
        None => after_user,
    };
    let (password, after_password) = take_while(after_colon, CharClass::AlphaNumeric);
    match strip_byte(after_password, AT) {
        Some(rest) => {
            let password = if is_empty(password) {
                None
            } else {
                Some(password)
            };
            Ok((rest, (user, password)))
        },
        None => Err(
            ParseError::new(after_password, ErrorKind::Tag).append(
                input,
                ErrorKind::Context("authority"),
            ),
        ),
    }
}

/// The text of an authority with the given parts: the user name, a `:` if
/// `colon` says so, the password, and `@`.
pub open spec fn authority_text(value: AuthorityModel, colon: bool) -> Seq<u8> {
    value.0 + (if colon {
        seq![COLON]
    } else {
        Seq::<u8>::empty()
    }) + (match value.1 {
        Some(password) => password,
        None => Seq::<u8>::empty(),
    }) + seq![AT]
}

/// Whether `s` is not empty and made of ASCII letters and digits.
pub open spec fn is_word(s: Seq<u8>) -> bool {
    s.len() > 0 && all_in(s, CharClass::AlphaNumeric)
}

/// Whether user name and password are such as the rule reads: words.
pub open spec fn is_authority(value: AuthorityModel) -> bool {
    &&& is_word(value.0)
    &&& value.1 matches Some(password) ==> is_word(password)
}

/// Where the authority rule matches, the input is the text of the authority
/// followed by the remainder: nothing is skipped and nothing is read twice.
/// The user name is a word, and so is the password where there is one, which
/// is then preceded by a `:`.
pub proof fn lemma_authority_shape(s: Seq<u8>)
    ensures
        spec_authority(s) matches Ok((rest, value)) ==> {
            &&& is_authority(value)
            &&& exists|colon: bool|
                {
                    &&& s == #[trigger] authority_text(value, colon) + rest
                    &&& value.1 is Some ==> colon
                }
        },
{
    if let Ok((rest, value)) = spec_authority(s) {
        let class = CharClass::AlphaNumeric;
        let after_user = after_run(s, class);
        let colon = strip(after_user, COLON) is Some;
        let after_colon = match strip(after_user, COLON) {
            Some(t) => t,
            None => after_user,
        };
        let after_password = after_run(after_colon, class);
        lemma_run_len(s, class);
        lemma_run_len(after_colon, class);
        assert(s =~= authority_text(value, colon) + rest);
    }
}

/// The text of an authority, whatever follows it, is read as that authority,
/// and what follows it remains. A password needs its `:`; without a password
/// the `:` may stand or not.
pub proof fn lemma_authority_of_text(value: AuthorityModel, colon: bool, tail: Seq<u8>)
    requires
        is_authority(value),
        value.1 is Some ==> colon,
    ensures
        spec_authority(authority_text(value, colon) + tail) == matched(tail, value),
{
    let class = CharClass::AlphaNumeric;
    let s = authority_text(value, colon) + tail;
    let password = match value.1 {
        Some(password) => password,
        None => Seq::<u8>::empty(),
    };
    let after_colon = password + (seq![AT] + tail);
    let after_user = if colon {
        seq![COLON] + after_colon
    } else {
        after_colon
    };
    assert(s =~= value.0 + after_user);
    lemma_run_of_concat(value.0, after_user, class);
    assert(strip(after_user, COLON) is Some <==> colon);
    if colon {
        assert(after_user.skip(1) =~= after_colon);
    }
    lemma_run_of_concat(password, seq![AT] + tail, class);
    assert((seq![AT] + tail).skip(1) =~= tail);
}

/// Where the authority rule matches, what remains is a proper suffix of the
/// input: the rule has consumed at least two bytes, and a second application
/// to the remainder reads nothing of what the first one consumed.
pub proof fn lemma_authority_remainder(s: Seq<u8>)
    ensures
        spec_authority(s) matches Ok((rest, _)) ==> proper_suffix(rest, s) && rest.len() + 2
            <= s.len(),
{
    if let Ok((rest, value)) = spec_authority(s) {
        let class = CharClass::AlphaNumeric;
        let after_user = after_run(s, class);
        let after_colon = match strip(after_user, COLON) {
            Some(t) => t,
            None => after_user,
        };
        lemma_run_len(s, class);
        lemma_run_len(after_colon, class);
        assert(rest =~= s.skip(s.len() - rest.len()));
    }
}

/// Where the authority rule does not match, its diagnostic lies in the
/// input.
pub proof fn lemma_authority_diagnostic(s: Seq<u8>)
    ensures
        spec_authority(s) matches Err(stack) ==> reported_by(stack, s, "authority"),
{
    if let Err(stack) = spec_authority(s) {
        let class = CharClass::AlphaNumeric;
        let after_user = after_run(s, class);
        let after_colon = match strip(after_user, COLON) {
            Some(t) => t,
            None => after_user,
        };
        let after_password = after_run(after_colon, class);
        lemma_after_run_is_suffix(s, class);
        lemma_after_run_is_suffix(after_colon, class);
        assert(is_suffix(after_colon, after_user)) by {
            assert(after_user =~= after_user.skip(0));
        }
        lemma_suffix_of_suffix(after_colon, after_user, s);
        lemma_suffix_of_suffix(after_password, after_colon, s);
        assert(s =~= s.skip(0));
    }
}

} // verus!
