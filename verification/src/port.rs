//! The port rule: `:` and a decimal number of sixteen bits.

use vstd::prelude::*;
use vstd::string::*;
use crate::error::{matched, reported_by, ErrorKind, ParseError, Parsed, Res};
use crate::number::{decimal, decimal_value};
use crate::text::{
    after_run, all_in, is_empty, lemma_after_run_is_suffix, lemma_run_len, lemma_run_of_concat,
    proper_suffix, run, stops, strip, strip_byte, take_while, CharClass, COLON,
};

verus! {

/// The port rule on the bytes `s`.
///
/// After a `:` stands the longest run of decimal digits, which must not be
/// empty and must write a number of at most 65535; zeros in front are
/// allowed. A missing `:` is reported at `s`, missing digits and a number
/// that is too large at the place after the `:`; on top of each stands the
/// rule, at `s`.
pub open spec fn spec_port(s: Seq<u8>) -> Parsed<u16> {
    match strip(s, COLON) {
        None => Err(seq![(s, ErrorKind::Tag), (s, ErrorKind::Context("port"))]),
        Some(after_colon) => {
            let digits = run(after_colon, CharClass::Digit);
            if digits.len() == 0 {
                Err(seq![(after_colon, ErrorKind::Digit), (s, ErrorKind::Context("port"))])
            } else if decimal_value(digits) > 0xffff {
                Err(seq![(after_colon, ErrorKind::TooLarge), (s, ErrorKind::Context("port"))])
            } else {
                Ok((after_run(after_colon, CharClass::Digit), decimal_value(digits) as u16))
            }
        },
    }
}

/// Recognizes `:` and a port number at the front of `input`.
pub fn port<'a>(input: &'a str) -> (r: Res<'a, u16>)
    ensures
        match spec_port(input.spec_bytes()) {
            Ok((rest, value)) => r matches Ok((t, v)) && t.spec_bytes() == rest && v == value,
            Err(stack) => r matches Err(e) && e@ == stack,
        },
        r matches Ok((t, _)) ==> proper_suffix(t.spec_bytes(), input.spec_bytes()),
{
    proof {
        lemma_port_remainder(input.spec_bytes());
    }
    let after_colon = match strip_byte(input, COLON) {
        Some(t) => t,
        None => {
            return Err(
                ParseError::new(input, ErrorKind::Tag).append(input, ErrorKind::Context("port")),
            );
        },
    };
    let (digits, rest) = take_while(after_colon, CharClass::Digit);
    if is_empty(digits) {
        return Err(
            ParseError::new(after_colon, ErrorKind::Digit).append(
                input,
                ErrorKind::Context("port"),
            ),
        );
    }
    proof {
        lemma_run_len(after_colon.spec_bytes(), CharClass::Digit);
    }
    match decimal(digits, 0xffff) {
        Some(value) => Ok((rest, value as u16)),
        None => Err(
            ParseError::new(after_colon, ErrorKind::TooLarge).append(
                input,
                ErrorKind::Context("port"),
            ),
        ),
    }
}

/// The text of a port written with the given digits: `:` and the digits.
pub open spec fn port_text(digits: Seq<u8>) -> Seq<u8> {
    seq![COLON] + digits
}

/// Whether `digits` write the port `value`: at least one digit, nothing but
/// digits, and the number they write is `value`.
pub open spec fn writes_port(digits: Seq<u8>, value: u16) -> bool {
    &&& digits.len() > 0
    &&& all_in(digits, CharClass::Digit)
    &&& decimal_value(digits) == value
}

/// Where the port rule matches, the input is `:`, digits that write the port,
/// and what remains, which does not begin with a digit.
pub proof fn lemma_port_shape(s: Seq<u8>)
    ensures
        spec_port(s) matches Ok((rest, value)) ==> {
            &&& stops(rest, CharClass::Digit)
            &&& exists|digits: Seq<u8>|
                writes_port(digits, value) && s == #[trigger] port_text(digits) + rest
        },
{
    if let Ok((rest, value)) = spec_port(s) {
        let after_colon = s.skip(1);
        let digits = run(after_colon, CharClass::Digit);
        lemma_run_len(after_colon, CharClass::Digit);
        lemma_after_run_is_suffix(after_colon, CharClass::Digit);
        assert(s =~= port_text(digits) + rest);
        assert(writes_port(digits, value));
    }
}

/// A `:` and digits that write a port, followed by anything but a digit, are
/// read as that port, and what follows them remains.
pub proof fn lemma_port_of_text(digits: Seq<u8>, value: u16, tail: Seq<u8>)
    requires
        writes_port(digits, value),
        stops(tail, CharClass::Digit),
    ensures
        spec_port(port_text(digits) + tail) == matched(tail, value),
{
    let s = port_text(digits) + tail;
    assert(s.skip(1) =~= digits + tail);
    lemma_run_of_concat(digits, tail, CharClass::Digit);
}

/// Where the port rule matches, what remains is a proper suffix of the
/// input, at least two bytes shorter, and does not begin with a digit.
pub proof fn lemma_port_remainder(s: Seq<u8>)
    ensures
        spec_port(s) matches Ok((rest, _)) ==> {
            &&& proper_suffix(rest, s)
            &&& rest.len() + 2 <= s.len()
            &&& rest.len() > 0 ==> !CharClass::Digit.contains(rest[0])
        },
{
    if let Ok((rest, _)) = spec_port(s) {
        let after_colon = s.skip(1);
        lemma_run_len(after_colon, CharClass::Digit);
        assert(rest =~= s.skip(s.len() - rest.len()));
    }
}

/// Where the port rule does not match, its diagnostic lies in the input.
pub proof fn lemma_port_diagnostic(s: Seq<u8>)
    ensures
        spec_port(s) matches Err(stack) ==> reported_by(stack, s, "port"),
{
    assert(s =~= s.skip(0));
}

} // verus!
