//! The fragment rule: `#` and all that follows.

use vstd::prelude::*;
use vstd::string::*;
use crate::error::{matched, reported_by, ErrorKind, ParseError, Parsed, Res};
use crate::text::{lemma_run_len, proper_suffix, strip, strip_byte, take_while, CharClass, HASH};

verus! {

/// The fragment rule on the bytes `s`.
///
/// A fragment begins with `#` and is all that follows it, so that nothing
/// remains. A missing `#` is reported at `s`, and on top of it the rule; the
/// rule has no other failure.
pub open spec fn spec_fragment(s: Seq<u8>) -> Parsed<Seq<u8>> {
    match strip(s, HASH) {
        None => Err(seq![(s, ErrorKind::Tag), (s, ErrorKind::Context("fragment"))]),
        Some(t) => Ok((Seq::empty(), t)),
    }
}

/// Recognizes a fragment at the front of `input`.
pub fn fragment<'a>(input: &'a str) -> (r: Res<'a, &'a str>)
    ensures
        match spec_fragment(input.spec_bytes()) {
            Ok((rest, value)) => r matches Ok((t, v)) && t.spec_bytes() == rest && v.spec_bytes()
                == value,
            Err(stack) => r matches Err(e) && e@ == stack,
        },
        r matches Ok((t, _)) ==> proper_suffix(t.spec_bytes(), input.spec_bytes()),
{
    proof {
        lemma_fragment_remainder(input.spec_bytes());
    }
    match strip_byte(input, HASH) {
        None => Err(
            ParseError::new(input, ErrorKind::Tag).append(input, ErrorKind::Context("fragment")),
        ),
        Some(t) => {
            let (text, rest) = take_while(t, CharClass::Any);
            proof {
                lemma_run_len(t.spec_bytes(), CharClass::Any);
                assert(text.spec_bytes() =~= t.spec_bytes());
                assert(rest.spec_bytes() =~= Seq::<u8>::empty());
            }
            Ok((rest, text))
        },
    }
}

/// The text of a fragment: `#` and the fragment.
pub open spec fn fragment_text(text: Seq<u8>) -> Seq<u8> {
    seq![HASH] + text
}

/// The text of a fragment is read as that fragment, whatever it holds, and
/// nothing remains.
pub proof fn lemma_fragment_of_text(text: Seq<u8>)
    ensures
        spec_fragment(fragment_text(text)) == matched(Seq::empty(), text),
{
    assert(fragment_text(text).skip(1) =~= text);
}

/// Where the fragment rule matches, the input is `#` and the fragment, and
/// nothing remains: a proper suffix of the input, on which the rule does not
/// match again.
pub proof fn lemma_fragment_remainder(s: Seq<u8>)
    ensures
        spec_fragment(s) matches Ok((rest, text)) ==> {
            &&& s == fragment_text(text)
            &&& rest.len() == 0
            &&& proper_suffix(rest, s)
            &&& spec_fragment(rest) is Err
        },
{
    if let Ok((rest, text)) = spec_fragment(s) {
        assert(s =~= fragment_text(text));
        assert(rest =~= s.skip(s.len() - rest.len()));
    }
}

/// Where the fragment rule does not match, its diagnostic lies in the
/// input.
pub proof fn lemma_fragment_diagnostic(s: Seq<u8>)
    ensures
        spec_fragment(s) matches Err(stack) ==> reported_by(stack, s, "fragment"),
{
    assert(s =~= s.skip(0));
}

} // verus!
