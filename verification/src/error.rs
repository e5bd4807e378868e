//! The diagnostic that a failed rule returns: a stack of failures, the
//! innermost first.

use vstd::prelude::*;
use vstd::string::*;
use crate::text::is_suffix;

verus! {

/// What went wrong at one level of the grammar.
#[derive(Clone, Copy, Debug, PartialEq, Eq)]
pub enum ErrorKind {
    /// A literal was expected and not found.
    Tag,
    /// None of the alternatives of a choice matched.
    Alt,
    /// An ASCII letter or digit was expected.
    AlphaNumeric,
    /// A decimal digit was expected.
    Digit,
    /// A character other than the delimiters that end a token was expected.
    IsNot,
    /// A number does not fit the range of its field.
    TooLarge,
    /// The end of the input was expected.
    Eof,
    /// The named rule was being applied when the failures below it occurred.
    Context(&'static str),
}

/// The model of a diagnostic: for each failure, the bytes of the text at
/// which it occurred and its kind.
pub type Stack = Seq<(Seq<u8>, ErrorKind)>;

/// The model of what a rule returns: the bytes that remain and the value
/// recognized, or the diagnostic.
pub type Parsed<V> = Result<(Seq<u8>, V), Stack>;

/// What a rule returns where it matches: what remains, and the value.
pub open spec fn matched<V>(rest: Seq<u8>, value: V) -> Parsed<V> {
    Ok((rest, value))
}

/// Whether every failure of `stack` lies in `s`: whether the text at which
/// it occurred is a suffix of `s`, so that its length gives the position.
pub open spec fn within(stack: Stack, s: Seq<u8>) -> bool {
    forall|i: int| 0 <= i < stack.len() ==> is_suffix(#[trigger] stack[i].0, s)
}

/// Whether `stack` is a diagnostic of the rule named `rule` applied to `s`:
/// at least one failure, all of them in `s`, and on top of them the rule, at
/// `s`.
pub open spec fn reported_by(stack: Stack, s: Seq<u8>, rule: &'static str) -> bool {
    &&& stack.len() >= 2
    &&& stack.last() == (s, ErrorKind::Context(rule))
    &&& within(stack, s)
}

/// Failures that lie in a suffix of `s` lie in `s`.
pub proof fn lemma_within_suffix(stack: Stack, t: Seq<u8>, s: Seq<u8>)
    requires
        within(stack, t),
        is_suffix(t, s),
    ensures
        within(stack, s),
{
    assert forall|i: int| 0 <= i < stack.len() implies is_suffix(#[trigger] stack[i].0, s) by {
        let at = stack[i].0;
        assert(is_suffix(at, t));
        assert(at =~= s.skip(s.len() - at.len()));
    }
}

/// A diagnostic. Each entry holds the text that remained to be read where the
/// failure occurred, which is a suffix of the input, and the kind of failure.
/// The first entry is the innermost failure, the last one the outermost rule.
#[derive(Debug, PartialEq, Eq)]
pub struct ParseError<'a> {
    pub errors: Vec<(&'a str, ErrorKind)>,
}

/// What a rule returns: the text that remains and the value recognized, or
/// the diagnostic.
pub type Res<'a, T> = Result<(&'a str, T), ParseError<'a>>;

impl<'a> View for ParseError<'a> {
    type V = Stack;

    open spec fn view(&self) -> Stack {
        Seq::new(
            self.errors@.len(),
            |i: int| (self.errors@[i].0.spec_bytes(), self.errors@[i].1),
        )
    }
}

impl<'a> ParseError<'a> {
    /// The diagnostic of a single failure of the given kind at `input`.
    pub fn new(input: &'a str, kind: ErrorKind) -> (e: Self)
        ensures
            e@ == seq![(input.spec_bytes(), kind)],
    {
        let mut errors: Vec<(&'a str, ErrorKind)> = Vec::new();
        errors.push((input, kind));
        let e = ParseError { errors };
        assert(e@ =~= seq![(input.spec_bytes(), kind)]);
        e
    }

    /// This diagnostic with one more failure on top of it.
    pub fn append(self, input: &'a str, kind: ErrorKind) -> (e: Self)
        ensures
            e@ == self@.push((input.spec_bytes(), kind)),
    {
        let mut errors = self.errors;
        errors.push((input, kind));
        let e = ParseError { errors };
        assert(e@ =~= self@.push((input.spec_bytes(), kind)));
        e
    }
}

} // verus!
