//! Bytes, character classes, and the cutting of text at ASCII positions.
//!
//! A text is modelled by the sequence of its UTF-8 bytes. Every delimiter of
//! the grammar is an ASCII character, and in UTF-8 an ASCII byte never lies
//! inside the encoding of another character, so a text may be cut before and
//! after any ASCII byte. Everything the rules do with text goes through the
//! few functions of this module that cut.

use vstd::prelude::*;
use vstd::string::*;
use vstd::utf8::*;

verus! {

/// `@`, which ends the user information.
pub const AT: u8 = 0x40;

/// `:`, which separates user name from password, and host from port.
pub const COLON: u8 = 0x3a;

/// `/`, which introduces a path segment.
pub const SLASH: u8 = 0x2f;

/// `?`, which introduces the query.
pub const QUESTION: u8 = 0x3f;

/// `#`, which introduces the fragment.
pub const HASH: u8 = 0x23;

/// `.`, which separates the groups of a dotted quad.
pub const DOT: u8 = 0x2e;

/// `&`, which separates the parameters of a query.
pub const AMPERSAND: u8 = 0x26;

/// `=`, which separates a parameter's key from its value.
pub const EQUALS: u8 = 0x3d;

/// `0`, the first decimal digit.
pub const ZERO: u8 = 0x30;

/// Whether `b` is one of `0` to `9`.
pub open spec fn is_digit(b: u8) -> bool {
    0x30 <= b <= 0x39
}

/// Whether `b` is one of `A` to `Z`.
pub open spec fn is_upper(b: u8) -> bool {
    0x41 <= b <= 0x5a
}

/// Whether `b` is one of `a` to `z`.
pub open spec fn is_lower(b: u8) -> bool {
    0x61 <= b <= 0x7a
}

/// Whether `b` is an ASCII letter or digit.
pub open spec fn is_alphanumeric(b: u8) -> bool {
    is_digit(b) || is_upper(b) || is_lower(b)
}

/// The sets of bytes of which the grammar's tokens are made.
#[derive(Clone, Copy, Debug, PartialEq, Eq)]
pub enum CharClass {
    /// ASCII letters and digits.
    AlphaNumeric,
    /// ASCII decimal digits.
    Digit,
    /// Everything but `@`, `/`, `?` and `#`: what may precede the `@` of a
    /// user information.
    UserInfo,
    /// Everything but `/`, `:`, `?` and `#`: a host name.
    HostName,
    /// Everything but `/`, `?` and `#`: a path segment.
    Segment,
    /// Everything but `=`, `&` and `#`: the key of a query parameter.
    Key,
    /// Everything but `&` and `#`: the value of a query parameter.
    Value,
    /// Every byte: a fragment.
    Any,
}

impl CharClass {
    /// Whether `b` belongs to the class.
    pub open spec fn contains(self, b: u8) -> bool {
        match self {
            CharClass::AlphaNumeric => is_alphanumeric(b),
            CharClass::Digit => is_digit(b),
            CharClass::UserInfo => b != AT && b != SLASH && b != QUESTION && b != HASH,
            CharClass::HostName => b != SLASH && b != COLON && b != QUESTION && b != HASH,
            CharClass::Segment => b != SLASH && b != QUESTION && b != HASH,
            CharClass::Key => b != EQUALS && b != AMPERSAND && b != HASH,
            CharClass::Value => b != AMPERSAND && b != HASH,
            CharClass::Any => true,
        }
    }

    /// Whether `b` belongs to the class.
    pub fn accepts(self, b: u8) -> (r: bool)
        ensures
            r == self.contains(b),
    {
        match self {
            CharClass::AlphaNumeric => {
                (0x30 <= b && b <= 0x39) || (0x41 <= b && b <= 0x5a) || (0x61 <= b && b <= 0x7a)
            },
            CharClass::Digit => 0x30 <= b && b <= 0x39,
            CharClass::UserInfo => b != AT && b != SLASH && b != QUESTION && b != HASH,
            CharClass::HostName => b != SLASH && b != COLON && b != QUESTION && b != HASH,
            CharClass::Segment => b != SLASH && b != QUESTION && b != HASH,
            CharClass::Key => b != EQUALS && b != AMPERSAND && b != HASH,
            CharClass::Value => b != AMPERSAND && b != HASH,
            CharClass::Any => true,
        }
    }
}

/// The bytes of a text that may be absent.
pub open spec fn optional_bytes(text: Option<&str>) -> Option<Seq<u8>> {
    match text {
        Some(t) => Some(t.spec_bytes()),
        None => None,
    }
}

/// The bytes of each text of a sequence of texts.
pub open spec fn texts_view(texts: Seq<&str>) -> Seq<Seq<u8>> {
    Seq::new(texts.len(), |i: int| texts[i].spec_bytes())
}

/// Whether `rest` is what remains of `s` after a prefix of it, possibly
/// empty.
pub open spec fn is_suffix(rest: Seq<u8>, s: Seq<u8>) -> bool {
    &&& rest.len() <= s.len()
    &&& rest == s.skip(s.len() - rest.len())
}

/// Whether `rest` is what remains of `s` after a non-empty prefix of it.
pub open spec fn proper_suffix(rest: Seq<u8>, s: Seq<u8>) -> bool {
    &&& rest.len() < s.len()
    &&& rest == s.skip(s.len() - rest.len())
}

/// A suffix of a suffix is a suffix.
pub proof fn lemma_suffix_of_suffix(u: Seq<u8>, t: Seq<u8>, s: Seq<u8>)
    requires
        is_suffix(u, t),
        is_suffix(t, s),
    ensures
        is_suffix(u, s),
{
    assert(u =~= s.skip(s.len() - u.len()));
}

/// The length of the longest prefix of `s` whose bytes all belong to `class`.
pub open spec fn run_len(s: Seq<u8>, class: CharClass) -> nat
    decreases s.len(),
{
    if s.len() > 0 && class.contains(s[0]) {
        1 + run_len(s.skip(1), class)
    } else {
        0
    }
}

/// The longest prefix of `s` whose bytes all belong to `class`.
pub open spec fn run(s: Seq<u8>, class: CharClass) -> Seq<u8> {
    s.take(run_len(s, class) as int)
}

/// What follows the longest prefix of `s` whose bytes all belong to `class`.
pub open spec fn after_run(s: Seq<u8>, class: CharClass) -> Seq<u8> {
    s.skip(run_len(s, class) as int)
}

/// `run_len` is a position that ends a run: all bytes before it belong to
/// the class, and the byte at it, if there is one, does not.
pub proof fn lemma_run_len(s: Seq<u8>, class: CharClass)
    ensures
        run_len(s, class) <= s.len(),
        forall|i: int| 0 <= i < run_len(s, class) ==> class.contains(#[trigger] s[i]),
        run_len(s, class) < s.len() ==> !class.contains(s[run_len(s, class) as int]),
    decreases s.len(),
{
    if s.len() > 0 && class.contains(s[0]) {
        let t = s.skip(1);
        lemma_run_len(t, class);
        assert forall|i: int| 0 <= i < run_len(s, class) implies class.contains(
            #[trigger] s[i],
        ) by {
            if i > 0 {
                assert(s[i] == t[i - 1]);
            }
        }
        if run_len(s, class) < s.len() {
            assert(s[run_len(s, class) as int] == t[run_len(t, class) as int]);
        }
    }
}

/// A position that ends a run is `run_len`: there is no other.
pub proof fn lemma_run_len_unique(s: Seq<u8>, class: CharClass, n: int)
    requires
        0 <= n <= s.len(),
        forall|i: int| 0 <= i < n ==> class.contains(#[trigger] s[i]),
        n < s.len() ==> !class.contains(s[n]),
    ensures
        run_len(s, class) == n,
    decreases s.len(),
{
    if n > 0 {
        let t = s.skip(1);
        assert(class.contains(s[0]));
        assert forall|i: int| 0 <= i < n - 1 implies class.contains(#[trigger] t[i]) by {
            assert(t[i] == s[i + 1]);
        }
        lemma_run_len_unique(t, class, n - 1);
    }
}

/// A text is its run followed by what follows the run.
pub proof fn lemma_after_run_is_suffix(s: Seq<u8>, class: CharClass)
    ensures
        is_suffix(after_run(s, class), s),
        s == run(s, class) + after_run(s, class),
{
    lemma_run_len(s, class);
    let rest = after_run(s, class);
    assert(rest =~= s.skip(s.len() - rest.len()));
    assert(s =~= run(s, class) + rest);
}

/// Whether every byte of `s` belongs to `class`.
pub open spec fn all_in(s: Seq<u8>, class: CharClass) -> bool {
    forall|i: int| 0 <= i < s.len() ==> class.contains(#[trigger] s[i])
}

/// Whether `s` is empty or begins with a byte outside `class`: whether a run
/// of bytes of `class` ends where `s` begins.
pub open spec fn stops(s: Seq<u8>, class: CharClass) -> bool {
    s.len() > 0 ==> !class.contains(s[0])
}

/// Bytes of a class, followed by what stops them, are the run.
pub proof fn lemma_run_of_concat(head: Seq<u8>, tail: Seq<u8>, class: CharClass)
    requires
        all_in(head, class),
        stops(tail, class),
    ensures
        run(head + tail, class) == head,
        after_run(head + tail, class) == tail,
{
    let s = head + tail;
    assert forall|i: int| 0 <= i < head.len() implies class.contains(#[trigger] s[i]) by {
        assert(s[i] == head[i]);
    }
    if tail.len() > 0 {
        assert(s[head.len() as int] == tail[0]);
    }
    lemma_run_len_unique(s, class, head.len() as int);
    assert(s.take(head.len() as int) =~= head);
    assert(s.skip(head.len() as int) =~= tail);
}

/// What follows the first byte of `s` if that byte is `b`.
pub open spec fn strip(s: Seq<u8>, b: u8) -> Option<Seq<u8>> {
    if s.len() > 0 && s[0] == b {
        Some(s.skip(1))
    } else {
        None
    }
}

/// The byte with an ASCII capital letter replaced by its small letter.
pub open spec fn to_lower(b: u8) -> u8 {
    if is_upper(b) {
        (b + 0x20) as u8
    } else {
        b
    }
}

/// Whether `s` begins with `literal`, capital and small ASCII letters taken
/// as equal.
pub open spec fn begins_with_no_case(s: Seq<u8>, literal: Seq<u8>) -> bool {
    &&& literal.len() <= s.len()
    &&& forall|i: int| 0 <= i < literal.len() ==> to_lower(#[trigger] s[i]) == to_lower(literal[i])
}

/// The part of `s` that stands for `literal` and what follows it, if `s`
/// begins with `literal`, capital and small ASCII letters taken as equal.
pub open spec fn split_no_case(s: Seq<u8>, literal: Seq<u8>) -> Option<(Seq<u8>, Seq<u8>)> {
    if begins_with_no_case(s, literal) {
        Some((s.take(literal.len() as int), s.skip(literal.len() as int)))
    } else {
        None
    }
}

/// Whether every byte of `s` is an ASCII character.
pub open spec fn is_ascii_bytes(s: Seq<u8>) -> bool {
    forall|i: int| 0 <= i < s.len() ==> #[trigger] s[i] < 0x80
}

/// Where a text may be cut without looking at more than its neighbours: at
/// its ends, before an ASCII byte and after an ASCII byte.
pub open spec fn cuttable(s: Seq<u8>, at: int) -> bool {
    &&& 0 <= at <= s.len()
    &&& (at == 0 || at == s.len() || s[at] < 0x80 || s[at - 1] < 0x80)
}

/// In well-formed UTF-8 every such position lies between two characters.
pub proof fn lemma_cuttable_is_boundary(s: Seq<u8>, at: int)
    requires
        valid_utf8(s),
        cuttable(s, at),
    ensures
        is_char_boundary(s, at),
{
    if at == 0 || at == s.len() {
        is_char_boundary_start_end_of_seq(s);
    } else if s[at] < 0x80 {
        is_char_boundary_iff_not_is_continuation_byte(s, at);
    } else {
        // The ASCII byte before `at` begins a character, which it is alone.
        // What follows it is well formed too, so its first byte, the one at
        // `at`, begins a character.
        is_char_boundary_iff_not_is_continuation_byte(s, at - 1);
        valid_utf8_split(s, at - 1);
        let from_ascii = s.subrange(at - 1, s.len() as int);
        assert(valid_utf8(from_ascii));
        assert(from_ascii[0] == s[at - 1]);
        assert(length_of_first_scalar(from_ascii) == 1);
        let after_ascii = pop_first_scalar(from_ascii);
        assert(valid_utf8(after_ascii));
        assert(after_ascii.len() > 0);
        assert(after_ascii[0] == s[at]);
        assert(valid_first_scalar(after_ascii));
        is_char_boundary_iff_not_is_continuation_byte(s, at);
    }
}

/// Cuts `input` in two at byte `at`.
pub(crate) fn cut<'a>(input: &'a str, at: usize) -> (r: (&'a str, &'a str))
    requires
        cuttable(input.spec_bytes(), at as int),
    ensures
        r.0.spec_bytes() == input.spec_bytes().take(at as int),
        r.1.spec_bytes() == input.spec_bytes().skip(at as int),
{
    proof {
        encode_utf8_valid_utf8(input@);
        lemma_cuttable_is_boundary(input.spec_bytes(), at as int);
    }
    input.split_at(at)
}

/// Cuts `input` after its longest prefix made of bytes of `class`.
pub fn take_while<'a>(input: &'a str, class: CharClass) -> (r: (&'a str, &'a str))
    ensures
        r.0.spec_bytes() == run(input.spec_bytes(), class),
        r.1.spec_bytes() == after_run(input.spec_bytes(), class),
{
    let bytes = input.as_bytes();
    let mut end: usize = 0;
    while end < bytes.len() && class.accepts(bytes[end])
        invariant
            end <= bytes@.len(),
            forall|i: int| 0 <= i < end ==> class.contains(#[trigger] bytes@[i]),
        decreases bytes@.len() - end,
    {
        end += 1;
    }
    proof {
        lemma_run_len_unique(bytes@, class, end as int);
    }
    cut(input, end)
}

/// Whether `input` holds no character at all.
pub fn is_empty(input: &str) -> (r: bool)
    ensures
        r == (input.spec_bytes().len() == 0),
{
    input.as_bytes().len() == 0
}

/// Whether the first byte of `input` is `b`.
pub fn begins_with(input: &str, b: u8) -> (r: bool)
    ensures
        r == (strip(input.spec_bytes(), b) is Some),
{
    let bytes = input.as_bytes();
    bytes.len() > 0 && bytes[0] == b
}

/// Removes the ASCII byte `b` from the front of `input`, if it stands
/// there.
pub(crate) fn strip_byte<'a>(input: &'a str, b: u8) -> (r: Option<&'a str>)
    requires
        b < 0x80,
    ensures
        match strip(input.spec_bytes(), b) {
            Some(rest) => r matches Some(t) && t.spec_bytes() == rest,
            None => r is None,
        },
{
    if begins_with(input, b) {
        let (_, rest) = cut(input, 1);
        Some(rest)
    } else {
        None
    }
}

/// The byte with an ASCII capital letter replaced by its small letter.
pub fn lower(b: u8) -> (r: u8)
    ensures
        r == to_lower(b),
{
    if 0x41 <= b && b <= 0x5a {
        b + 0x20
    } else {
        b
    }
}

/// Cuts `input` after the ASCII text `literal`, if `input` begins with it,
/// capital and small letters taken as equal. The first part is what stood
/// for the literal.
pub(crate) fn strip_no_case<'a>(input: &'a str, literal: &str) -> (r: Option<(&'a str, &'a str)>)
    requires
        is_ascii_bytes(literal.spec_bytes()),
    ensures
        match split_no_case(input.spec_bytes(), literal.spec_bytes()) {
            Some((head, tail)) => r matches Some((found, rest)) && found.spec_bytes() == head
                && rest.spec_bytes() == tail,
            None => r is None,
        },
{
    let bytes = input.as_bytes();
    let wanted = literal.as_bytes();
    if bytes.len() < wanted.len() {
        return None;
    }
    let mut i: usize = 0;
    while i < wanted.len()
        invariant
            bytes@ == input.spec_bytes(),
            wanted@ == literal.spec_bytes(),
            i <= wanted@.len() <= bytes@.len(),
            forall|k: int| 0 <= k < i ==> to_lower(#[trigger] bytes@[k]) == to_lower(wanted@[k]),
        decreases wanted@.len() - i,
    {
        if lower(bytes[i]) != lower(wanted[i]) {
            return None;
        }
        i += 1;
    }
    assert(i > 0 ==> wanted@[i - 1] < 0x80);
    Some(cut(input, i))
}

} // verus!
