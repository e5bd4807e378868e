//! The host rule: a dotted quad, or else a name.

use vstd::prelude::*;
use vstd::string::*;
use vstd::utf8::*;
use crate::error::{matched, reported_by, ErrorKind, ParseError, Parsed, Res};
use crate::number::{decimal, decimal_value};
use crate::text::{
    after_run, all_in, is_empty, lemma_after_run_is_suffix, lemma_run_len, lemma_run_of_concat,
    proper_suffix, run, stops, strip, strip_byte, take_while, CharClass, DOT,
};

verus! {

/// A host: a name, or the four numbers of an address.
#[derive(Debug, PartialEq, Eq)]
pub enum Host {
    HOST(String),
    IP([u8; 4]),
}

/// The model of a host: the bytes of the name, or the four numbers.
pub enum HostModel {
    Name(Seq<u8>),
    Address(Seq<u8>),
}

impl View for Host {
    type V = HostModel;

    open spec fn view(&self) -> HostModel {
        match self {
            Host::HOST(name) => HostModel::Name(encode_utf8(name@)),
            Host::IP(numbers) => HostModel::Address(numbers@),
        }
    }
}

/// One group of a dotted quad on the bytes `s`: the longest run of decimal
/// digits, which must be one to three digits long and write a number of at
/// most 255.
pub open spec fn spec_octet(s: Seq<u8>) -> Option<(Seq<u8>, u8)> {
    let digits = run(s, CharClass::Digit);
    if 1 <= digits.len() <= 3 && decimal_value(digits) <= 255 {
        Some((after_run(s, CharClass::Digit), decimal_value(digits) as u8))
    } else {
        None
    }
}

/// A `.` and one group of a dotted quad.
pub open spec fn spec_dotted_octet(s: Seq<u8>) -> Option<(Seq<u8>, u8)> {
    match strip(s, DOT) {
        Some(t) => spec_octet(t),
        None => None,
    }
}

/// A dotted quad on the bytes `s`: four groups with a `.` between them,
/// after which the host ends, so that what follows is nothing or begins with
/// `/`, `:`, `?` or `#`.
pub open spec fn spec_address(s: Seq<u8>) -> Option<(Seq<u8>, Seq<u8>)> {
    match spec_octet(s) {
        None => None,
        Some((s1, a)) => match spec_dotted_octet(s1) {
            None => None,
            Some((s2, b)) => match spec_dotted_octet(s2) {
                None => None,
                Some((s3, c)) => match spec_dotted_octet(s3) {
                    None => None,
                    Some((rest, d)) => if rest.len() == 0 || !CharClass::HostName.contains(
                        rest[0],
                    ) {
                        Some((rest, seq![a, b, c, d]))
                    } else {
                        None
                    },
                },
            },
        },
    }
}

/// The host rule on the bytes `s`.
///
/// Where `s` begins with a dotted quad, that is the host. Where it does not,
/// the host is the longest run of bytes other than `/`, `:`, `?` and `#`,
/// which must not be empty. An empty host is reported as a missing name, on
/// top of it the choice between address and name, and the rule, all at `s`.
pub open spec fn spec_host(s: Seq<u8>) -> Parsed<HostModel> {
    match spec_address(s) {
        Some((rest, numbers)) => Ok((rest, HostModel::Address(numbers))),
        None => {
            let name = run(s, CharClass::HostName);
            if name.len() == 0 {
                Err(
                    seq![
                        (s, ErrorKind::IsNot),
                        (s, ErrorKind::Alt),
                        (s, ErrorKind::Context("host")),
                    ],
                )
            } else {
                Ok((after_run(s, CharClass::HostName), HostModel::Name(name)))
            }
        },
    }
}

/// Recognizes one group of a dotted quad at the front of `input`.
pub fn octet<'a>(input: &'a str) -> (r: Option<(&'a str, u8)>)
    ensures
        match spec_octet(input.spec_bytes()) {
            Some((rest, value)) => r matches Some((t, v)) && t.spec_bytes() == rest && v == value,
            None => r is None,
        },
{
    let (digits, rest) = take_while(input, CharClass::Digit);
    let count = digits.as_bytes().len();
    if count == 0 || count > 3 {
        return None;
    }
    proof {
        lemma_run_len(input.spec_bytes(), CharClass::Digit);
    }
    match decimal(digits, 255) {
        Some(value) => Some((rest, value as u8)),
        None => None,
    }
}

/// Recognizes `.` and one group of a dotted quad at the front of `input`.
pub fn dotted_octet<'a>(input: &'a str) -> (r: Option<(&'a str, u8)>)
    ensures
        match spec_dotted_octet(input.spec_bytes()) {
            Some((rest, value)) => r matches Some((t, v)) && t.spec_bytes() == rest && v == value,
            None => r is None,
        },
{
    match strip_byte(input, DOT) {
        Some(t) => octet(t),
        None => None,
    }
}

/// Recognizes a dotted quad at the front of `input`, where the host ends
/// with it.
pub fn address<'a>(input: &'a str) -> (r: Option<(&'a str, [u8; 4])>)
    ensures
        match spec_address(input.spec_bytes()) {
            Some((rest, numbers)) => r matches Some((t, v)) && t.spec_bytes() == rest && v@
                == numbers,
            None => r is None,
        },
{
    let (s1, a) = match octet(input) {
        Some(found) => found,
        None => {
            return None;
        },
    };
    let (s2, b) = match dotted_octet(s1) {
        Some(found) => found,
        None => {
            return None;
        },
    };
    let (s3, c) = match dotted_octet(s2) {
        Some(found) => found,
        None => {
            return None;
        },
    };
    let (rest, d) = match dotted_octet(s3) {
        Some(found) => found,
        None => {
            return None;
        },
    };
    let next = rest.as_bytes();
    if next.len() == 0 || !CharClass::HostName.accepts(next[0]) {
        let numbers: [u8; 4] = [a, b, c, d];
        assert(numbers@ =~= seq![a, b, c, d]);
        Some((rest, numbers))
    } else {
        None
    }
}

/// Recognizes a host at the front of `input`.
pub fn host<'a>(input: &'a str) -> (r: Res<'a, Host>)
    ensures
        match spec_host(input.spec_bytes()) {
            Ok((rest, value)) => r matches Ok((t, v)) && t.spec_bytes() == rest && v@ == value,
            Err(stack) => r matches Err(e) && e@ == stack,
        },
        r matches Ok((t, _)) ==> proper_suffix(t.spec_bytes(), input.spec_bytes()),
{
    proof {
        lemma_host_remainder(input.spec_bytes());
    }
    match address(input) {
        Some((rest, numbers)) => Ok((rest, Host::IP(numbers))),
        None => {
            let (name, rest) = take_while(input, CharClass::HostName);
            if is_empty(name) {
                Err(
                    ParseError::new(input, ErrorKind::IsNot).append(input, ErrorKind::Alt).append(
                        input,
                        ErrorKind::Context("host"),
                    ),
                )
            } else {
                Ok((rest, Host::HOST(name.to_owned())))
            }
        },
    }
}

/// Whether `digits` write the group `number` of a dotted quad: one to three
/// digits that write `number`.
pub open spec fn writes_octet(digits: Seq<u8>, number: u8) -> bool {
    &&& 1 <= digits.len() <= 3
    &&& all_in(digits, CharClass::Digit)
    &&& decimal_value(digits) == number
}

/// Whether the four `groups` write the four `numbers` of an address.
pub open spec fn writes_address(groups: Seq<Seq<u8>>, numbers: Seq<u8>) -> bool {
    &&& groups.len() == 4
    &&& numbers.len() == 4
    &&& forall|i: int| 0 <= i < 4 ==> writes_octet(#[trigger] groups[i], numbers[i])
}

/// The text of a dotted quad with the given groups: the groups with a `.`
/// between them.
pub open spec fn address_text(groups: Seq<Seq<u8>>) -> Seq<u8> {
    groups[0] + seq![DOT] + groups[1] + seq![DOT] + groups[2] + seq![DOT] + groups[3]
}

/// Whether `name` is not empty and free of `/`, `:`, `?` and `#`.
pub open spec fn is_name(name: Seq<u8>) -> bool {
    name.len() > 0 && all_in(name, CharClass::HostName)
}

impl HostModel {
    /// Whether the host is one that the rule reads: four numbers, or a name
    /// that is not empty, is free of `/`, `:`, `?` and `#`, and is no dotted
    /// quad.
    pub open spec fn well_formed(self) -> bool {
        match self {
            HostModel::Name(name) => is_name(name) && spec_address(name) is None,
            HostModel::Address(numbers) => numbers.len() == 4,
        }
    }

    /// The text of the host: the name, or the dotted quad with the given
    /// groups.
    pub open spec fn text(self, groups: Seq<Seq<u8>>) -> Seq<u8> {
        match self {
            HostModel::Name(name) => name,
            HostModel::Address(_) => address_text(groups),
        }
    }

    /// Whether `groups` write the host, where it is an address.
    pub open spec fn written_with(self, groups: Seq<Seq<u8>>) -> bool {
        self matches HostModel::Address(numbers) ==> writes_address(groups, numbers)
    }
}

/// Where a group is read, the input is digits that write it, followed by
/// what remains, which does not begin with a digit.
proof fn lemma_octet_shape(s: Seq<u8>)
    ensures
        spec_octet(s) matches Some((rest, number)) ==> {
            &&& writes_octet(run(s, CharClass::Digit), number)
            &&& s == run(s, CharClass::Digit) + rest
            &&& stops(rest, CharClass::Digit)
        },
{
    lemma_run_len(s, CharClass::Digit);
    lemma_after_run_is_suffix(s, CharClass::Digit);
}

/// Digits that write a group, followed by anything but a digit, are read as
/// that group.
proof fn lemma_octet_of_text(digits: Seq<u8>, number: u8, tail: Seq<u8>)
    requires
        writes_octet(digits, number),
        stops(tail, CharClass::Digit),
    ensures
        spec_octet(digits + tail) == Some((tail, number)),
{
    lemma_run_of_concat(digits, tail, CharClass::Digit);
}

/// Where a dotted quad is read, the input is the text of four groups that
/// write its numbers, and what remains, which is empty or begins with `/`,
/// `:`, `?` or `#`.
pub proof fn lemma_address_shape(s: Seq<u8>)
    ensures
        spec_address(s) matches Some((rest, numbers)) ==> {
            &&& stops(rest, CharClass::HostName)
            &&& exists|groups: Seq<Seq<u8>>|
                writes_address(groups, numbers) && s == #[trigger] address_text(groups) + rest
        },
{
    if let Some((rest, numbers)) = spec_address(s) {
        let class = CharClass::Digit;
        let s1 = after_run(s, class);
        let s2 = after_run(s1.skip(1), class);
        let s3 = after_run(s2.skip(1), class);
        let groups = seq![
            run(s, class),
            run(s1.skip(1), class),
            run(s2.skip(1), class),
            run(s3.skip(1), class),
        ];
        lemma_octet_shape(s);
        lemma_octet_shape(s1.skip(1));
        lemma_octet_shape(s2.skip(1));
        lemma_octet_shape(s3.skip(1));
        assert(s1 =~= seq![DOT] + s1.skip(1));
        assert(s2 =~= seq![DOT] + s2.skip(1));
        assert(s3 =~= seq![DOT] + s3.skip(1));
        assert(s =~= address_text(groups) + rest);
        assert(writes_address(groups, numbers));
    }
}

/// The text of a dotted quad, followed by nothing or by `/`, `:`, `?` or `#`,
/// is read as the numbers that its groups write, and what follows it
/// remains.
pub proof fn lemma_address_of_text(groups: Seq<Seq<u8>>, numbers: Seq<u8>, tail: Seq<u8>)
    requires
        writes_address(groups, numbers),
        stops(tail, CharClass::HostName),
    ensures
        spec_address(address_text(groups) + tail) == Some((tail, numbers)),
{
    let t3 = groups[3] + tail;
    let d3 = seq![DOT] + t3;
    let t2 = groups[2] + d3;
    let d2 = seq![DOT] + t2;
    let t1 = groups[1] + d2;
    let d1 = seq![DOT] + t1;
    let s = groups[0] + d1;
    assert(s =~= address_text(groups) + tail);
    assert(d1.skip(1) =~= t1 && d2.skip(1) =~= t2 && d3.skip(1) =~= t3);
    lemma_octet_of_text(groups[0], numbers[0], d1);
    lemma_octet_of_text(groups[1], numbers[1], d2);
    lemma_octet_of_text(groups[2], numbers[2], d3);
    lemma_octet_of_text(groups[3], numbers[3], tail);
    assert(seq![numbers[0], numbers[1], numbers[2], numbers[3]] =~= numbers);
}

/// The text of a dotted quad is not empty, and is made of bytes of every
/// class that holds the digits and `.`.
pub proof fn lemma_address_text_in(groups: Seq<Seq<u8>>, numbers: Seq<u8>, class: CharClass)
    requires
        writes_address(groups, numbers),
        class.contains(DOT),
        forall|b: u8| CharClass::Digit.contains(b) ==> class.contains(b),
    ensures
        address_text(groups).len() > 0,
        all_in(address_text(groups), class),
{
    let text = address_text(groups);
    let (a, b, c, d) = (groups[0], groups[1], groups[2], groups[3]);
    assert forall|i: int| 0 <= i < text.len() implies class.contains(#[trigger] text[i]) by {
        if i < a.len() {
            assert(text[i] == a[i]);
        } else if i == a.len() {
        } else if i < a.len() + 1 + b.len() {
            assert(text[i] == b[i - a.len() - 1]);
        } else if i == a.len() + 1 + b.len() {
        } else if i < a.len() + 1 + b.len() + 1 + c.len() {
            assert(text[i] == c[i - a.len() - b.len() - 2]);
        } else if i == a.len() + 1 + b.len() + 1 + c.len() {
        } else {
            assert(text[i] == d[i - a.len() - b.len() - c.len() - 3]);
        }
    }
}

/// A name followed by what stops it is a dotted quad, or not, as the name
/// alone is.
proof fn lemma_address_of_name(name: Seq<u8>, tail: Seq<u8>)
    requires
        all_in(name, CharClass::HostName),
        stops(tail, CharClass::HostName),
    ensures
        spec_address(name + tail) is Some <==> spec_address(name) is Some,
{
    let class = CharClass::HostName;
    let empty = Seq::<u8>::empty();
    assert(name + empty =~= name);
    if let Some((rest, numbers)) = spec_address(name + tail) {
        lemma_address_shape(name + tail);
        let groups = choose|groups: Seq<Seq<u8>>|
            writes_address(groups, numbers) && name + tail == #[trigger] address_text(groups)
                + rest;
        lemma_address_text_in(groups, numbers, class);
        lemma_run_of_concat(address_text(groups), rest, class);
        lemma_run_of_concat(name, tail, class);
        lemma_address_of_text(groups, numbers, empty);
    }
    if let Some((rest, numbers)) = spec_address(name) {
        lemma_address_shape(name);
        let groups = choose|groups: Seq<Seq<u8>>|
            writes_address(groups, numbers) && name == #[trigger] address_text(groups) + rest;
        lemma_address_text_in(groups, numbers, class);
        lemma_run_of_concat(address_text(groups), rest, class);
        lemma_run_of_concat(name, empty, class);
        lemma_address_of_text(groups, numbers, tail);
    }
}

/// Where the host rule matches, the host is well formed, and the input is
/// its text followed by what remains, which is empty or begins with `/`,
/// `:`, `?` or `#`.
pub proof fn lemma_host_shape(s: Seq<u8>)
    ensures
        spec_host(s) matches Ok((rest, value)) ==> {
            &&& value.well_formed()
            &&& stops(rest, CharClass::HostName)
            &&& exists|groups: Seq<Seq<u8>>|
                value.written_with(groups) && s == #[trigger] value.text(groups) + rest
        },
{
    if let Ok((rest, value)) = spec_host(s) {
        let class = CharClass::HostName;
        match value {
            HostModel::Name(name) => {
                lemma_run_len(s, class);
                lemma_after_run_is_suffix(s, class);
                if rest.len() > 0 {
                    assert(rest[0] == s[name.len() as int]);
                }
                lemma_address_of_name(name, rest);
                let groups = Seq::<Seq<u8>>::empty();
                assert(value.written_with(groups) && s == value.text(groups) + rest);
            },
            HostModel::Address(numbers) => {
                lemma_address_shape(s);
                let groups = choose|groups: Seq<Seq<u8>>|
                    writes_address(groups, numbers) && s == #[trigger] address_text(groups)
                        + rest;
                assert(value.written_with(groups) && s == value.text(groups) + rest);
            },
        }
    }
}

/// The text of a well-formed host, followed by nothing or by `/`, `:`, `?`
/// or `#`, is read as that host, and what follows it remains.
pub proof fn lemma_host_of_text(value: HostModel, groups: Seq<Seq<u8>>, tail: Seq<u8>)
    requires
        value.well_formed(),
        value.written_with(groups),
        stops(tail, CharClass::HostName),
    ensures
        spec_host(value.text(groups) + tail) == matched(tail, value),
{
    match value {
        HostModel::Name(name) => {
            lemma_address_of_name(name, tail);
            lemma_run_of_concat(name, tail, CharClass::HostName);
        },
        HostModel::Address(numbers) => {
            lemma_address_of_text(groups, numbers, tail);
        },
    }
}

/// Where the host rule matches, the host is the whole run of bytes other
/// than `/`, `:`, `?` and `#` at the front of the input, for an address as
/// for a name. What remains is therefore a proper suffix of the input on
/// which the rule does not match again.
pub proof fn lemma_host_remainder(s: Seq<u8>)
    ensures
        spec_host(s) matches Ok((rest, _)) ==> {
            &&& rest == after_run(s, CharClass::HostName)
            &&& proper_suffix(rest, s)
            &&& spec_host(rest) is Err
        },
{
    let class = CharClass::HostName;
    if let Ok((rest, value)) = spec_host(s) {
        lemma_host_shape(s);
        let groups = choose|groups: Seq<Seq<u8>>|
            value.written_with(groups) && s == #[trigger] value.text(groups) + rest;
        if let HostModel::Address(numbers) = value {
            lemma_address_text_in(groups, numbers, class);
        }
        lemma_run_of_concat(value.text(groups), rest, class);
        assert(rest =~= s.skip(s.len() - rest.len()));
        lemma_run_len(rest, class);
        lemma_run_len(rest, CharClass::Digit);
    }
}

/// Where the host rule does not match, its diagnostic lies in the input.
pub proof fn lemma_host_diagnostic(s: Seq<u8>)
    ensures
        spec_host(s) matches Err(stack) ==> reported_by(stack, s, "host"),
{
    assert(s =~= s.skip(0));
}

} // verus!
