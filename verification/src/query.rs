//! The query rule: `?` and parameters separated by `&`.

use vstd::prelude::*;
use vstd::string::*;
use crate::error::{matched, reported_by, within, ErrorKind, ParseError, Parsed, Res};
use crate::text::{
    after_run, all_in, is_empty, is_suffix, lemma_run_len, lemma_run_of_concat,
    lemma_suffix_of_suffix, optional_bytes, proper_suffix, run, stops, strip, strip_byte,
    take_while, CharClass, AMPERSAND, EQUALS, HASH, QUESTION,
};

verus! {

/// A key and, where an `=` follows it, a value.
pub type QueryParam<'a> = (&'a str, Option<&'a str>);

/// The parameters of a query, in the order in which they were written.
pub type QueryParams<'a> = Vec<QueryParam<'a>>;

/// The model of a parameter: the bytes of the key and of the value.
pub type ParamModel = (Seq<u8>, Option<Seq<u8>>);

pub open spec fn param_view(param: QueryParam) -> ParamModel {
    (param.0.spec_bytes(), optional_bytes(param.1))
}

pub open spec fn params_view(params: Seq<QueryParam>) -> Seq<ParamModel> {
    Seq::new(params.len(), |i: int| param_view(params[i]))
}

/// One parameter on the bytes `s`.
///
/// The key is the longest run of bytes other than `=`, `&` and `#`, and must
/// not be empty. Where `=` follows, the value is the longest run of bytes
/// other than `&` and `#` after it, which may be empty; where none follows,
/// there is no value. A missing key is reported at `s`.
pub open spec fn spec_param(s: Seq<u8>) -> Parsed<ParamModel> {
    let key = run(s, CharClass::Key);
    let after_key = after_run(s, CharClass::Key);
    if key.len() == 0 {
        Err(seq![(s, ErrorKind::IsNot)])
    } else {
        match strip(after_key, EQUALS) {
            None => Ok((after_key, (key, None))),
            Some(t) => Ok((after_run(t, CharClass::Value), (key, Some(run(t, CharClass::Value))))),
        }
    }
}

/// One parameter and, after each `&` that follows, one more.
pub open spec fn spec_params(s: Seq<u8>) -> Parsed<Seq<ParamModel>>
    decreases s.len(),
    via spec_params_decreases
{
    match spec_param(s) {
        Err(stack) => Err(stack),
        Ok((after_param, first)) => match strip(after_param, AMPERSAND) {
            None => Ok((after_param, seq![first])),
            Some(t) => match spec_params(t) {
                Err(stack) => Err(stack),
                Ok((rest, more)) => Ok((rest, seq![first] + more)),
            },
        },
    }
}

#[via_fn]
proof fn spec_params_decreases(s: Seq<u8>) {
    lemma_param_remainder(s);
}

/// The query rule on the bytes `s`.
///
/// A query begins with `?`. Where nothing or `#` follows, it has no
/// parameters. Otherwise parameters follow, separated by `&`, up to the end
/// or to `#`. A missing `?` is reported at `s`, a missing key at the place
/// where the key should stand; on top of either stands the rule, at `s`.
pub open spec fn spec_query(s: Seq<u8>) -> Parsed<Seq<ParamModel>> {
    match strip(s, QUESTION) {
        None => Err(seq![(s, ErrorKind::Tag), (s, ErrorKind::Context("query"))]),
        Some(t) => if t.len() == 0 || t[0] == HASH {
            Ok((t, Seq::empty()))
        } else {
            match spec_params(t) {
                Ok(found) => Ok(found),
                Err(stack) => Err(stack.push((s, ErrorKind::Context("query")))),
            }
        },
    }
}

/// Where a parameter is read, what remains is a proper suffix of the input
/// and is empty or begins with `&` or `#`.
pub proof fn lemma_param_remainder(s: Seq<u8>)
    ensures
        spec_param(s) matches Ok((rest, _)) ==> {
            &&& proper_suffix(rest, s)
            &&& rest.len() == 0 || rest[0] == AMPERSAND || rest[0] == HASH
        },
{
    if let Ok((rest, _)) = spec_param(s) {
        let after_key = after_run(s, CharClass::Key);
        lemma_run_len(s, CharClass::Key);
        if after_key.len() > 0 {
            assert(after_key[0] == s[s.len() - after_key.len()]);
        }
        if let Some(t) = strip(after_key, EQUALS) {
            lemma_run_len(t, CharClass::Value);
            if rest.len() > 0 {
                assert(rest[0] == t[t.len() - rest.len()]);
            }
        }
        assert(rest =~= s.skip(s.len() - rest.len()));
    }
}

/// Recognizes one parameter at the front of `input`.
pub fn param<'a>(input: &'a str) -> (r: Res<'a, QueryParam<'a>>)
    ensures
        match spec_param(input.spec_bytes()) {
            Ok((rest, value)) => r matches Ok((t, v)) && t.spec_bytes() == rest && param_view(v)
                == value,
            Err(stack) => r matches Err(e) && e@ == stack,
        },
        r matches Ok((t, _)) ==> proper_suffix(t.spec_bytes(), input.spec_bytes()),
{
    proof {
        lemma_param_remainder(input.spec_bytes());
    }
    let (key, after_key) = take_while(input, CharClass::Key);
    if is_empty(key) {
        return Err(ParseError::new(input, ErrorKind::IsNot));
    }
    match strip_byte(after_key, EQUALS) {
        None => Ok((after_key, (key, None))),
        Some(t) => {
            let (value, rest) = take_while(t, CharClass::Value);
            Ok((rest, (key, Some(value))))
        },
    }
}

/// Recognizes a query at the front of `input`.
pub fn query<'a>(input: &'a str) -> (r: Res<'a, QueryParams<'a>>)
    ensures
        match spec_query(input.spec_bytes()) {
            Ok((rest, value)) => r matches Ok((t, v)) && t.spec_bytes() == rest && params_view(v@)
                == value,
            Err(stack) => r matches Err(e) && e@ == stack,
        },
        r matches Ok((t, _)) ==> proper_suffix(t.spec_bytes(), input.spec_bytes()),
{
    proof {
        lemma_query_remainder(input.spec_bytes());
    }
    let start = match strip_byte(input, QUESTION) {
        Some(t) => t,
        None => {
            return Err(
                ParseError::new(input, ErrorKind::Tag).append(input, ErrorKind::Context("query")),
            );
        },
    };
    let mut params: QueryParams<'a> = Vec::new();
    let first = start.as_bytes();
    if first.len() == 0 || first[0] == HASH {
        assert(params_view(params@) =~= Seq::<ParamModel>::empty());
        return Ok((start, params));
    }
    let mut rest = start;
    proof {
        if let Ok((_, more)) = spec_params(start.spec_bytes()) {
            assert(params_view(params@) + more =~= more);
        }
    }
    loop
        invariant
            strip(input.spec_bytes(), QUESTION) == Some(start.spec_bytes()),
            start.spec_bytes().len() > 0 && start.spec_bytes()[0] != HASH,
            spec_params(start.spec_bytes()) == match spec_params(rest.spec_bytes()) {
                Ok((after, more)) => matched(after, params_view(params@) + more),
                Err(stack) => Err(stack),
            },
        decreases rest.spec_bytes().len(),
    {
        let (after_param, found) = match param(rest) {
            Ok(found) => found,
            Err(e) => {
                return Err(e.append(input, ErrorKind::Context("query")));
            },
        };
        proof {
            lemma_query_remainder(input.spec_bytes());
            lemma_param_remainder(rest.spec_bytes());
            let ghost longer = params@.push(found);
            assert(params_view(longer) =~= params_view(params@) + seq![param_view(found)]);
            match strip(after_param.spec_bytes(), AMPERSAND) {
                Some(t) => {
                    match spec_params(t) {
                        Ok((_, more)) => {
                            assert(params_view(longer) + more =~= params_view(params@) + (seq![
                                param_view(found),
                            ] + more));
                        },
                        Err(_) => {},
                    }
                },
                None => {},
            }
        }
        params.push(found);
        match strip_byte(after_param, AMPERSAND) {
            Some(t) => {
                rest = t;
            },
            None => {
                return Ok((after_param, params));
            },
        }
    }
}

/// The text of a parameter: the key and, where there is a value, `=` and the
/// value.
pub open spec fn param_text(param: ParamModel) -> Seq<u8> {
    match param.1 {
        Some(value) => param.0 + seq![EQUALS] + value,
        None => param.0,
    }
}

/// The text of parameters: the text of each, with `&` between them.
pub open spec fn params_text(params: Seq<ParamModel>) -> Seq<u8>
    decreases params.len(),
{
    if params.len() == 0 {
        Seq::empty()
    } else if params.len() == 1 {
        param_text(params[0])
    } else {
        param_text(params[0]) + seq![AMPERSAND] + params_text(params.drop_first())
    }
}

/// Whether the key of `param` is not empty and free of `=`, `&` and `#`, and
/// its value, where it has one, free of `&` and `#`.
pub open spec fn is_param(param: ParamModel) -> bool {
    &&& param.0.len() > 0
    &&& all_in(param.0, CharClass::Key)
    &&& param.1 matches Some(value) ==> all_in(value, CharClass::Value)
}

/// The text of a query: `?` and the text of the parameters.
pub open spec fn query_text(params: Seq<ParamModel>) -> Seq<u8> {
    seq![QUESTION] + params_text(params)
}

/// Whether `s` is empty or begins with `#`: whether a query may end where
/// `s` begins.
pub open spec fn ends_query(s: Seq<u8>) -> bool {
    s.len() == 0 || s[0] == HASH
}

/// Where a parameter is read, the input is its text followed by what
/// remains, and the parameter is well formed.
pub proof fn lemma_param_shape(s: Seq<u8>)
    ensures
        spec_param(s) matches Ok((rest, param)) ==> s == param_text(param) + rest && is_param(
            param,
        ),
{
    if let Ok((rest, param)) = spec_param(s) {
        let after_key = after_run(s, CharClass::Key);
        lemma_run_len(s, CharClass::Key);
        if let Some(t) = strip(after_key, EQUALS) {
            lemma_run_len(t, CharClass::Value);
        }
        assert(s =~= param_text(param) + rest);
    }
}

/// Where parameters are read, the input is their text followed by what
/// remains: they stand in the order in which they were written, and none is
/// dropped or merged with another of the same key. There is at least one,
/// each is well formed, and what remains is empty or begins with `#`.
pub proof fn lemma_params_shape(s: Seq<u8>)
    ensures
        spec_params(s) matches Ok((rest, params)) ==> {
            &&& s == params_text(params) + rest
            &&& params.len() >= 1
            &&& forall|k: int| 0 <= k < params.len() ==> is_param(#[trigger] params[k])
            &&& ends_query(rest)
            &&& proper_suffix(rest, s)
        },
    decreases s.len(),
{
    if let Ok((rest, params)) = spec_params(s) {
        lemma_param_shape(s);
        lemma_param_remainder(s);
        if let Ok((after_param, first)) = spec_param(s) {
            match strip(after_param, AMPERSAND) {
                None => {
                    assert(params =~= seq![first]);
                },
                Some(t) => {
                    lemma_params_shape(t);
                    if let Ok((_, more)) = spec_params(t) {
                        assert(params.drop_first() =~= more);
                        assert(params[0] == first);
                        assert(after_param =~= seq![AMPERSAND] + t);
                        assert(s =~= params_text(params) + rest);
                        assert forall|k: int| 0 <= k < params.len() implies is_param(
                            #[trigger] params[k],
                        ) by {
                            if k > 0 {
                                assert(params[k] == more[k - 1]);
                            }
                        }
                        assert(rest =~= s.skip(s.len() - rest.len()));
                    }
                },
            }
        }
    }
}

/// Where the query rule matches, the input is `?`, the text of the
/// parameters and what remains, so that the parameters stand in the order in
/// which they were written, with every repetition of a key. Each parameter is
/// well formed. What remains is empty or begins with `#`; it is a proper
/// suffix of the input, and the rule does not match on it again.
pub proof fn lemma_query_remainder(s: Seq<u8>)
    ensures
        spec_query(s) matches Ok((rest, params)) ==> {
            &&& s == query_text(params) + rest
            &&& forall|k: int| 0 <= k < params.len() ==> is_param(#[trigger] params[k])
            &&& ends_query(rest)
            &&& proper_suffix(rest, s)
            &&& spec_query(rest) is Err
        },
{
    if let Ok((rest, params)) = spec_query(s) {
        let t = s.skip(1);
        if t.len() == 0 || t[0] == HASH {
            assert(params_text(params) =~= Seq::<u8>::empty());
            assert(s =~= seq![QUESTION] + params_text(params) + rest);
            assert(rest =~= s.skip(s.len() - rest.len()));
        } else {
            lemma_params_shape(t);
            assert(s =~= seq![QUESTION] + t);
            assert(seq![QUESTION] + (params_text(params) + rest) =~= seq![QUESTION] + params_text(
                params,
            ) + rest);
            assert(rest =~= s.skip(s.len() - rest.len()));
        }
    }
}

/// The text of a parameter, followed by nothing or by `&` or `#`, is read as
/// that parameter, and what follows it remains.
pub proof fn lemma_param_of_text(param: ParamModel, tail: Seq<u8>)
    requires
        is_param(param),
        stops(tail, CharClass::Value),
    ensures
        spec_param(param_text(param) + tail) == matched(tail, param),
{
    let s = param_text(param) + tail;
    match param.1 {
        None => {
            lemma_run_of_concat(param.0, tail, CharClass::Key);
        },
        Some(value) => {
            let after_key = seq![EQUALS] + (value + tail);
            assert(s =~= param.0 + after_key);
            lemma_run_of_concat(param.0, after_key, CharClass::Key);
            assert(after_key.skip(1) =~= value + tail);
            lemma_run_of_concat(value, tail, CharClass::Value);
        },
    }
}

/// The text of parameters, followed by nothing or by `#`, is read as those
/// parameters, in their order, and what follows it remains.
pub proof fn lemma_params_of_text(params: Seq<ParamModel>, tail: Seq<u8>)
    requires
        params.len() >= 1,
        forall|k: int| 0 <= k < params.len() ==> is_param(#[trigger] params[k]),
        ends_query(tail),
    ensures
        spec_params(params_text(params) + tail) == matched(tail, params),
    decreases params.len(),
{
    let s = params_text(params) + tail;
    let first = params[0];
    assert(is_param(first));
    if params.len() == 1 {
        lemma_param_of_text(first, tail);
        assert(seq![first] =~= params);
    } else {
        let more = params.drop_first();
        let after = seq![AMPERSAND] + (params_text(more) + tail);
        assert(s =~= param_text(first) + after);
        lemma_param_of_text(first, after);
        assert(after.skip(1) =~= params_text(more) + tail);
        assert forall|k: int| 0 <= k < more.len() implies is_param(#[trigger] more[k]) by {
            assert(more[k] == params[k + 1]);
        }
        lemma_params_of_text(more, tail);
        assert(seq![first] + more =~= params);
    }
}

/// The text of a query, followed by nothing or by `#`, is read as the
/// parameters of which it was made, in their order and with every
/// repetition of a key, and what follows it remains.
pub proof fn lemma_query_of_text(params: Seq<ParamModel>, tail: Seq<u8>)
    requires
        forall|k: int| 0 <= k < params.len() ==> is_param(#[trigger] params[k]),
        ends_query(tail),
    ensures
        spec_query(query_text(params) + tail) == matched(tail, params),
{
    let s = query_text(params) + tail;
    let t = params_text(params) + tail;
    assert(s.skip(1) =~= t);
    if params.len() == 0 {
        assert(t =~= tail);
        assert(params =~= Seq::<ParamModel>::empty());
    } else {
        let first = params[0];
        assert(is_param(first));
        assert(CharClass::Key.contains(first.0[0]));
        assert(param_text(first)[0] == first.0[0]);
        assert(t[0] == first.0[0]);
        lemma_params_of_text(params, tail);
    }
}

/// Where no parameters are read, a key is missing at some place in the
/// input, and that is all the diagnostic says.
pub proof fn lemma_params_diagnostic(s: Seq<u8>)
    ensures
        spec_params(s) matches Err(stack) ==> stack.len() == 1 && stack[0].1 == ErrorKind::IsNot
            && within(stack, s),
    decreases s.len(),
{
    if let Err(stack) = spec_params(s) {
        match spec_param(s) {
            Err(_) => {
                assert(s =~= s.skip(0));
            },
            Ok((after_param, _)) => {
                lemma_param_remainder(s);
                let t = after_param.skip(1);
                lemma_params_diagnostic(t);
                assert(is_suffix(t, after_param));
                lemma_suffix_of_suffix(t, after_param, s);
                lemma_suffix_of_suffix(stack[0].0, t, s);
            },
        }
    }
}

/// Where the query rule does not match, its diagnostic lies in the input.
pub proof fn lemma_query_diagnostic(s: Seq<u8>)
    ensures
        spec_query(s) matches Err(stack) ==> reported_by(stack, s, "query"),
{
    if let Err(stack) = spec_query(s) {
        assert(s =~= s.skip(0));
        if let Some(t) = strip(s, QUESTION) {
            lemma_params_diagnostic(t);
            assert(is_suffix(t, s));
            lemma_suffix_of_suffix(stack[0].0, t, s);
        }
    }
}

} // verus!
