//! The scheme rule: `http://` or `https://`, in capital or small letters.

use vstd::prelude::*;
use vstd::string::*;
use crate::error::{reported_by, ErrorKind, ParseError, Parsed, Res};
use crate::text::{begins_with_no_case, proper_suffix, split_no_case, strip_no_case, to_lower};

verus! {

/// The schemes that the grammar knows.
#[derive(Clone, Copy, Debug, PartialEq, Eq)]
pub enum Scheme {
    HTTP,
    HTTPS,
}

/// The failure of `Scheme::from`: the text is not the literal of any scheme.
#[derive(Clone, Copy, Debug, PartialEq, Eq)]
pub struct UnknownScheme;

/// The bytes of `http://`.
pub open spec fn http_literal() -> Seq<u8> {
    seq!['h' as u8, 't' as u8, 't' as u8, 'p' as u8, ':' as u8, '/' as u8, '/' as u8]
}

/// The bytes of `https://`.
pub open spec fn https_literal() -> Seq<u8> {
    seq!['h' as u8, 't' as u8, 't' as u8, 'p' as u8, 's' as u8, ':' as u8, '/' as u8, '/' as u8]
}

proof fn lemma_http_bytes()
    ensures
        "http://".spec_bytes() == http_literal(),
{
    reveal_strlit("http://");
    let s = "http://";
    assert(is_ascii(s));
    is_ascii_spec_bytes(s);
    assert(s.spec_bytes() =~= http_literal());
}

proof fn lemma_https_bytes()
    ensures
        "https://".spec_bytes() == https_literal(),
{
    reveal_strlit("https://");
    let s = "https://";
    assert(is_ascii(s));
    is_ascii_spec_bytes(s);
    assert(s.spec_bytes() =~= https_literal());
}

impl Scheme {
    /// The scheme whose literal `s` is, capital and small letters taken as
    /// equal.
    pub open spec fn of_literal(s: Seq<u8>) -> Option<Scheme> {
        if s.len() == http_literal().len() && begins_with_no_case(s, http_literal()) {
            Some(Scheme::HTTP)
        } else if s.len() == https_literal().len() && begins_with_no_case(s, https_literal()) {
            Some(Scheme::HTTPS)
        } else {
            None
        }
    }

    /// Converts the literal of a scheme, `http://` or `https://` in capital
    /// or small letters, to the scheme. Any other text is refused.
    pub fn from(value: &str) -> (r: Result<Scheme, UnknownScheme>)
        ensures
            r == match Scheme::of_literal(value.spec_bytes()) {
                Some(scheme) => Ok::<Scheme, UnknownScheme>(scheme),
                None => Err::<Scheme, UnknownScheme>(UnknownScheme),
            },
    {
        proof {
            lemma_http_bytes();
            lemma_https_bytes();
        }
        let len = value.as_bytes().len();
        if len == 7 && strip_no_case(value, "http://").is_some() {
            Ok(Scheme::HTTP)
        } else if len == 8 && strip_no_case(value, "https://").is_some() {
            Ok(Scheme::HTTPS)
        } else {
            Err(UnknownScheme)
        }
    }
}

/// The scheme rule on the bytes `s`. It matches where `s` begins with the
/// literal of a scheme, capital and small letters taken as equal, and leaves
/// what follows the literal. Where it does not, the literal, the choice
/// between the two literals and the rule are reported, all three at `s`.
pub open spec fn spec_scheme(s: Seq<u8>) -> Parsed<Scheme> {
    match split_no_case(s, http_literal()) {
        Some((_, rest)) => Ok((rest, Scheme::HTTP)),
        None => match split_no_case(s, https_literal()) {
            Some((_, rest)) => Ok((rest, Scheme::HTTPS)),
            None => Err(
                seq![(s, ErrorKind::Tag), (s, ErrorKind::Alt), (s, ErrorKind::Context("scheme"))],
            ),
        },
    }
}

/// Recognizes `http://` or `https://`, in capital or small letters, at the
/// front of `input`.
pub fn scheme<'a>(input: &'a str) -> (r: Res<'a, Scheme>)
    ensures
        match spec_scheme(input.spec_bytes()) {
            Ok((rest, value)) => r matches Ok((t, v)) && t.spec_bytes() == rest && v == value,
            Err(stack) => r matches Err(e) && e@ == stack,
        },
        r matches Ok((t, _)) ==> proper_suffix(t.spec_bytes(), input.spec_bytes()),
{
    proof {
        lemma_http_bytes();
        lemma_https_bytes();
        lemma_scheme_remainder(input.spec_bytes());
    }
    let found = match strip_no_case(input, "http://") {
        None => strip_no_case(input, "https://"),
        found => found,
    };
    match found {
        Some((literal, rest)) => match Scheme::from(literal) {
            Ok(value) => Ok((rest, value)),
            Err(_) => vstd::pervasive::unreached(),
        },
        None => Err(
            ParseError::new(input, ErrorKind::Tag).append(input, ErrorKind::Alt).append(
                input,
                ErrorKind::Context("scheme"),
            ),
        ),
    }
}

/// The literal of a scheme in any mixture of capital and small letters,
/// whatever follows it, is read as that scheme, and what follows it remains,
/// all of it: not a byte beyond the literal is consumed.
pub proof fn lemma_scheme_of_literal(literal: Seq<u8>, tail: Seq<u8>)
    requires
        Scheme::of_literal(literal) is Some,
    ensures
        spec_scheme(literal + tail) matches Ok((rest, value)) && rest == tail && Some(value)
            == Scheme::of_literal(literal),
{
    let s = literal + tail;
    assert(forall|i: int| 0 <= i < literal.len() ==> #[trigger] s[i] == literal[i]);
    assert(s.skip(literal.len() as int) =~= tail);
    if literal.len() == 7 {
        assert(begins_with_no_case(s, http_literal()));
    } else {
        assert(begins_with_no_case(s, https_literal()));
        assert(!begins_with_no_case(s, http_literal())) by {
            assert(to_lower(s[4]) == to_lower(https_literal()[4]));
            assert(to_lower(s[4]) != to_lower(http_literal()[4]));
        }
    }
}

/// Where the scheme rule matches, what it consumed is the literal of the
/// scheme it returns, seven or eight bytes long. What remains is a proper
/// suffix of the input, so that a second application to it reads nothing of
/// what the first one consumed.
pub proof fn lemma_scheme_remainder(s: Seq<u8>)
    ensures
        spec_scheme(s) matches Ok((rest, value)) ==> {
            &&& proper_suffix(rest, s)
            &&& Scheme::of_literal(s.take(s.len() - rest.len())) == Some(value)
            &&& rest.len() + (if value == Scheme::HTTP {
                7int
            } else {
                8int
            }) == s.len()
        },
{
    if let Ok((rest, value)) = spec_scheme(s) {
        let n = s.len() - rest.len();
        assert(rest =~= s.skip(n));
        assert(forall|i: int| 0 <= i < n ==> #[trigger] s.take(n)[i] == s[i]);
    }
}

/// Where the scheme rule does not match, its diagnostic lies in the input.
pub proof fn lemma_scheme_diagnostic(s: Seq<u8>)
    ensures
        spec_scheme(s) matches Err(stack) ==> reported_by(stack, s, "scheme"),
{
    assert(s =~= s.skip(0));
}

} // verus!
