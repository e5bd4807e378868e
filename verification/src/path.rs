//! The path rule: segments, each introduced by `/`.

use vstd::prelude::*;
use vstd::string::*;
use crate::error::{matched, reported_by, ErrorKind, ParseError, Parsed, Res};
use crate::text::{
    after_run, all_in, lemma_run_len, lemma_run_of_concat, proper_suffix, run, run_len, strip,
    strip_byte, take_while, texts_view, CharClass, HASH, QUESTION, SLASH,
};

verus! {

/// The segments at the front of the bytes `s`, and what remains after them.
/// As long as a `/` stands in front, the longest run of bytes other than `/`,
/// `?` and `#` after it is a segment, which may be empty.
pub open spec fn spec_segments(s: Seq<u8>) -> (Seq<u8>, Seq<Seq<u8>>)
    decreases s.len(),
    via spec_segments_decreases
{
    match strip(s, SLASH) {
        None => (s, Seq::empty()),
        Some(t) => {
            let (rest, more) = spec_segments(after_run(t, CharClass::Segment));
            (rest, seq![run(t, CharClass::Segment)] + more)
        },
    }
}

#[via_fn]
proof fn spec_segments_decreases(s: Seq<u8>) {
    if let Some(t) = strip(s, SLASH) {
        lemma_run_len(t, CharClass::Segment);
    }
}

/// The path rule on the bytes `s`.
///
/// A path begins with `/` and is made of all the segments that follow one
/// another, so it has at least one segment. An empty segment is a segment
/// like any other: `/a/` has the segments `a` and the empty one, and `/`
/// has the empty one alone. A missing `/` is reported at `s`, and on top of it
/// the rule.
pub open spec fn spec_path(s: Seq<u8>) -> Parsed<Seq<Seq<u8>>> {
    match strip(s, SLASH) {
        None => Err(seq![(s, ErrorKind::Tag), (s, ErrorKind::Context("path"))]),
        Some(_) => Ok(spec_segments(s)),
    }
}

/// Recognizes a path at the front of `input`.
pub fn path<'a>(input: &'a str) -> (r: Res<'a, Vec<&'a str>>)
    ensures
        match spec_path(input.spec_bytes()) {
            Ok((rest, value)) => r matches Ok((t, v)) && t.spec_bytes() == rest && texts_view(v@)
                == value,
            Err(stack) => r matches Err(e) && e@ == stack,
        },
        r matches Ok((t, _)) ==> proper_suffix(t.spec_bytes(), input.spec_bytes()),
{
    proof {
        lemma_path_remainder(input.spec_bytes());
    }
    let mut segments: Vec<&'a str> = Vec::new();
    let mut rest = input;
    assert(texts_view(segments@) + spec_segments(rest.spec_bytes()).1 =~= spec_segments(
        input.spec_bytes(),
    ).1);
    loop
        invariant
            spec_segments(input.spec_bytes()).0 == spec_segments(rest.spec_bytes()).0,
            spec_segments(input.spec_bytes()).1 == texts_view(segments@) + spec_segments(
                rest.spec_bytes(),
            ).1,
            segments@.len() == 0 ==> rest.spec_bytes() == input.spec_bytes(),
        ensures
            strip(rest.spec_bytes(), SLASH) is None,
        decreases rest.spec_bytes().len(),
    {
        match strip_byte(rest, SLASH) {
            None => {
                break ;
            },
            Some(t) => {
                let (segment, after) = take_while(t, CharClass::Segment);
                proof {
                    lemma_run_len(t.spec_bytes(), CharClass::Segment);
                    let ghost longer = segments@.push(segment);
                    assert(texts_view(longer) + spec_segments(after.spec_bytes()).1 =~= texts_view(
                        segments@,
                    ) + spec_segments(rest.spec_bytes()).1);
                }
                segments.push(segment);
                rest = after;
            },
        }
    }
    if segments.len() == 0 {
        Err(ParseError::new(input, ErrorKind::Tag).append(input, ErrorKind::Context("path")))
    } else {
        assert(texts_view(segments@) + Seq::<Seq<u8>>::empty() =~= texts_view(segments@));
        Ok((rest, segments))
    }
}

/// The text of a path with the given segments: each segment with a `/` in
/// front of it.
pub open spec fn path_text(segments: Seq<Seq<u8>>) -> Seq<u8>
    decreases segments.len(),
{
    if segments.len() == 0 {
        Seq::empty()
    } else {
        seq![SLASH] + segments[0] + path_text(segments.drop_first())
    }
}

/// Whether no byte of `segment` is `/`, `?` or `#`.
pub open spec fn is_segment(segment: Seq<u8>) -> bool {
    all_in(segment, CharClass::Segment)
}

/// Whether `s` is empty or begins with `?` or `#`: whether a path may end
/// where `s` begins.
pub open spec fn ends_path(s: Seq<u8>) -> bool {
    s.len() == 0 || s[0] == QUESTION || s[0] == HASH
}

/// The input is the text of the segments read from it, followed by what
/// remains; every segment is free of `/`, `?` and `#`; and what remains does
/// not begin with `/`.
pub proof fn lemma_segments_shape(s: Seq<u8>)
    ensures
        s == path_text(spec_segments(s).1) + spec_segments(s).0,
        forall|k: int|
            0 <= k < spec_segments(s).1.len() ==> is_segment(#[trigger] spec_segments(s).1[k]),
        strip(spec_segments(s).0, SLASH) is None,
        spec_segments(s).0.len() <= s.len(),
    decreases s.len(),
{
    match strip(s, SLASH) {
        None => {
            assert(path_text(spec_segments(s).1) + spec_segments(s).0 =~= s);
        },
        Some(t) => {
            let class = CharClass::Segment;
            let next = after_run(t, class);
            let first = run(t, class);
            lemma_run_len(t, class);
            lemma_segments_shape(next);
            let (rest, more) = spec_segments(next);
            let segments = seq![first] + more;
            assert(segments.drop_first() =~= more);
            assert(segments[0] == first);
            assert(s =~= seq![SLASH] + first + next);
            assert(path_text(segments) + rest =~= seq![SLASH] + first + (path_text(more) + rest));
            assert forall|k: int| 0 <= k < segments.len() implies is_segment(
                #[trigger] segments[k],
            ) by {
                if k > 0 {
                    assert(segments[k] == more[k - 1]);
                }
            }
        },
    }
}

/// Where the path rule matches, the input is the text of the path followed
/// by what remains, so that the segments stand in the order in which they
/// were read. There is at least one segment, and none holds `/`, `?` or `#`.
/// What remains is empty or begins with `?` or `#`; it is a proper suffix of
/// the input, and the rule does not match on it again.
pub proof fn lemma_path_remainder(s: Seq<u8>)
    ensures
        spec_path(s) matches Ok((rest, segments)) ==> {
            &&& s == path_text(segments) + rest
            &&& segments.len() >= 1
            &&& forall|k: int| 0 <= k < segments.len() ==> is_segment(#[trigger] segments[k])
            &&& ends_path(rest)
            &&& proper_suffix(rest, s)
            &&& spec_path(rest) is Err
        },
{
    if let Ok((rest, segments)) = spec_path(s) {
        lemma_segments_shape(s);
        let t = s.skip(1);
        lemma_run_len(t, CharClass::Segment);
        lemma_segments_shape(after_run(t, CharClass::Segment));
        lemma_segments_stop(s);
        assert(rest =~= s.skip(s.len() - rest.len()));
    }
}

/// What remains after the segments is empty or begins with `?` or `#`.
proof fn lemma_segments_stop(s: Seq<u8>)
    ensures
        strip(s, SLASH) is Some ==> ends_path(spec_segments(s).0),
    decreases s.len(),
{
    if let Some(t) = strip(s, SLASH) {
        let next = after_run(t, CharClass::Segment);
        lemma_run_len(t, CharClass::Segment);
        if strip(next, SLASH) is Some {
            lemma_segments_stop(next);
        } else {
            assert(spec_segments(next).0 == next);
            if next.len() > 0 {
                assert(next[0] == t[run_len(t, CharClass::Segment) as int]);
            }
        }
    }
}

proof fn lemma_segments_of_text(segments: Seq<Seq<u8>>, tail: Seq<u8>)
    requires
        forall|k: int| 0 <= k < segments.len() ==> is_segment(#[trigger] segments[k]),
        strip(tail, SLASH) is None,
        segments.len() > 0 ==> ends_path(tail),
    ensures
        spec_segments(path_text(segments) + tail) == (tail, segments),
    decreases segments.len(),
{
    let s = path_text(segments) + tail;
    if segments.len() == 0 {
        assert(s =~= tail);
        assert(segments =~= Seq::<Seq<u8>>::empty());
    } else {
        let first = segments[0];
        let more = segments.drop_first();
        let after = path_text(more) + tail;
        assert(s =~= seq![SLASH] + (first + after));
        assert(s.skip(1) =~= first + after);
        lemma_run_of_concat(first, after, CharClass::Segment);
        assert forall|k: int| 0 <= k < more.len() implies is_segment(#[trigger] more[k]) by {
            assert(more[k] == segments[k + 1]);
        }
        lemma_segments_of_text(more, tail);
        assert(seq![first] + more =~= segments);
    }
}

/// The text of a path, followed by nothing or by `?` or `#`, is read as the
/// segments of which it was made, and what follows it remains.
pub proof fn lemma_path_of_text(segments: Seq<Seq<u8>>, tail: Seq<u8>)
    requires
        segments.len() >= 1,
        forall|k: int| 0 <= k < segments.len() ==> is_segment(#[trigger] segments[k]),
        ends_path(tail),
    ensures
        spec_path(path_text(segments) + tail) == matched(tail, segments),
{
    lemma_segments_of_text(segments, tail);
}

/// Where the path rule does not match, its diagnostic lies in the input.
pub proof fn lemma_path_diagnostic(s: Seq<u8>)
    ensures
        spec_path(s) matches Err(stack) ==> reported_by(stack, s, "path"),
{
    assert(s =~= s.skip(0));
}

} // verus!
