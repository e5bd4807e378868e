//! The whole URI: the rules one after the other.

use vstd::prelude::*;
use vstd::string::*;
use crate::authority::{
    authority, authority_view, is_authority, lemma_authority_diagnostic,
    lemma_authority_remainder, lemma_authority_shape, spec_authority, Authority, AuthorityModel,
};
use crate::error::{
    lemma_within_suffix, reported_by, within, ErrorKind, ParseError, Parsed, Res, Stack,
};
use crate::fragment::{
    fragment, lemma_fragment_diagnostic, lemma_fragment_remainder, spec_fragment,
};
use crate::host::{
    host, lemma_host_diagnostic, lemma_host_remainder, lemma_host_shape, spec_host, Host,
    HostModel,
};
use crate::path::{is_segment, lemma_path_diagnostic, lemma_path_remainder, path, spec_path};
use crate::port::{lemma_port_diagnostic, lemma_port_remainder, port, spec_port};
use crate::query::{
    is_param, lemma_query_diagnostic, lemma_query_remainder, params_view, query, spec_query,
    ParamModel, QueryParams,
};
use crate::scheme::{lemma_scheme_diagnostic, lemma_scheme_remainder, scheme, spec_scheme, Scheme};
use crate::text::{
    after_run, all_in, begins_with, is_empty, is_suffix, lemma_run_len, lemma_suffix_of_suffix,
    optional_bytes, proper_suffix, run, run_len, strip, take_while, texts_view, CharClass, AT,
    COLON, HASH, QUESTION, SLASH,
};

verus! {

/// A URI taken apart. The texts in it are parts of the input.
#[derive(Debug, PartialEq, Eq)]
pub struct URI<'a> {
    pub scheme: Scheme,
    pub authority: Option<Authority<'a>>,
    pub host: Host,
    pub port: Option<u16>,
    pub path: Option<Vec<&'a str>>,
    pub query: Option<QueryParams<'a>>,
    pub fragment: Option<&'a str>,
}

/// The model of a URI: each text by its bytes.
pub struct UriModel {
    pub scheme: Scheme,
    pub authority: Option<AuthorityModel>,
    pub host: HostModel,
    pub port: Option<u16>,
    pub path: Option<Seq<Seq<u8>>>,
    pub query: Option<Seq<ParamModel>>,
    pub fragment: Option<Seq<u8>>,
}

impl<'a> View for URI<'a> {
    type V = UriModel;

    open spec fn view(&self) -> UriModel {
        UriModel {
            scheme: self.scheme,
            authority: match self.authority {
                Some(found) => Some(authority_view(found)),
                None => None,
            },
            host: self.host@,
            port: self.port,
            path: match self.path {
                Some(segments) => Some(texts_view(segments@)),
                None => None,
            },
            query: match self.query {
                Some(params) => Some(params_view(params@)),
                None => None,
            },
            fragment: optional_bytes(self.fragment),
        }
    }
}

impl UriModel {
    /// Whether the URI is one that the rules read: user name and password
    /// are words; the host is well formed, and without an authority its name
    /// holds no `@`; a path has at least one segment; segments and parameters
    /// are free of the delimiters that end them.
    pub open spec fn well_formed(self) -> bool {
        &&& self.authority matches Some(found) ==> is_authority(found)
        &&& self.host.well_formed()
        &&& self.authority is None ==> (self.host matches HostModel::Name(name) ==> all_in(
            name,
            CharClass::UserInfo,
        ))
        &&& self.path matches Some(segments) ==> segments.len() >= 1 && forall|k: int|
            0 <= k < segments.len() ==> is_segment(#[trigger] segments[k])
        &&& self.query matches Some(params) ==> forall|k: int|
            0 <= k < params.len() ==> is_param(#[trigger] params[k])
    }
}

/// Whether a user information is announced at the front of `s`: whether an
/// `@` stands there before any `/`, `?` or `#`.
pub open spec fn announces_user_info(s: Seq<u8>) -> bool {
    strip(after_run(s, CharClass::UserInfo), AT) is Some
}

/// What an optional part of the URI is, given what its rule found on `s`.
/// Where the rule matched, the part is present. Where it did not, and the
/// part was not `announced` by its delimiter, the part is absent and all of
/// `s` remains. Where it was announced and the rule did not match, the part
/// is malformed, and the rule's diagnostic stands.
pub open spec fn optional<V>(found: Parsed<V>, s: Seq<u8>, announced: bool) -> Parsed<Option<V>> {
    match found {
        Ok((rest, value)) => Ok((rest, Some(value))),
        Err(stack) => if announced {
            Err(stack)
        } else {
            Ok((s, None))
        },
    }
}

/// What follows the host on the bytes `s`, one rule after the other, each
/// on what the one before it left: the port, announced by `:`; the path,
/// announced by `/`; the query, announced by `?`; the fragment, announced by
/// `#`. The first diagnostic ends the reading.
pub open spec fn spec_rest(s: Seq<u8>) -> Parsed<
    (Option<u16>, Option<Seq<Seq<u8>>>, Option<Seq<ParamModel>>, Option<Seq<u8>>),
> {
    match optional(spec_port(s), s, strip(s, COLON) is Some) {
        Err(stack) => Err(stack),
        Ok((s4, port)) => match optional(spec_path(s4), s4, strip(s4, SLASH) is Some) {
            Err(stack) => Err(stack),
            Ok((s5, path)) => match optional(spec_query(s5), s5, strip(s5, QUESTION) is Some) {
                Err(stack) => Err(stack),
                Ok((s6, query)) => match optional(
                    spec_fragment(s6),
                    s6,
                    strip(s6, HASH) is Some,
                ) {
                    Err(stack) => Err(stack),
                    Ok((rest, fragment)) => Ok((rest, (port, path, query, fragment))),
                },
            },
        },
    }
}

/// The parts of a URI on the bytes `s`, one rule after the other, each on
/// what the one before it left: the scheme; the authority, announced by an
/// `@` before any `/`, `?` or `#`; the host; and what follows the host.
/// Scheme and host must be there; the first diagnostic ends the reading.
pub open spec fn spec_parts(s: Seq<u8>) -> Parsed<UriModel> {
    match spec_scheme(s) {
        Err(stack) => Err(stack),
        Ok((s1, scheme)) => match optional(spec_authority(s1), s1, announces_user_info(s1)) {
            Err(stack) => Err(stack),
            Ok((s2, authority)) => match spec_host(s2) {
                Err(stack) => Err(stack),
                Ok((s3, host)) => match spec_rest(s3) {
                    Err(stack) => Err(stack),
                    Ok((rest, (port, path, query, fragment))) => Ok(
                        (rest, UriModel { scheme, authority, host, port, path, query, fragment }),
                    ),
                },
            },
        },
    }
}

/// The URI rule on the bytes `s`: the parts of the URI, and on top of any
/// diagnostic the rule, at `s`.
pub open spec fn spec_uri(s: Seq<u8>) -> Parsed<UriModel> {
    match spec_parts(s) {
        Ok(found) => Ok(found),
        Err(stack) => Err(stack.push((s, ErrorKind::Context("uri")))),
    }
}

/// The URI that the bytes `s` are. The URI rule must match and leave
/// nothing; what it leaves is reported as a missing end of input at that
/// place, and on top of it the rule, at `s`.
pub open spec fn spec_parse_uri(s: Seq<u8>) -> Result<UriModel, Stack> {
    match spec_uri(s) {
        Err(stack) => Err(stack),
        Ok((rest, value)) => if rest.len() == 0 {
            Ok(value)
        } else {
            Err(seq![(rest, ErrorKind::Eof), (s, ErrorKind::Context("uri"))])
        },
    }
}

/// Whether an `@` stands at the front of `input` before any `/`, `?` or `#`.
pub fn user_info_follows(input: &str) -> (r: bool)
    ensures
        r == announces_user_info(input.spec_bytes()),
{
    let (_, rest) = take_while(input, CharClass::UserInfo);
    begins_with(rest, AT)
}

/// Decides what an optional part of the URI is, given what its rule found
/// on `input` and whether its delimiter announced it.
pub fn decide<'a, T>(found: Res<'a, T>, input: &'a str, announced: bool) -> (r: Res<
    'a,
    Option<T>,
>)
    ensures
        r == (match found {
            Ok((rest, value)) => Ok::<(&'a str, Option<T>), ParseError<'a>>((rest, Some(value))),
            Err(e) => if announced {
                Err::<(&'a str, Option<T>), ParseError<'a>>(e)
            } else {
                Ok::<(&'a str, Option<T>), ParseError<'a>>((input, None))
            },
        }),
{
    match found {
        Ok((rest, value)) => Ok((rest, Some(value))),
        Err(e) => if announced {
            Err(e)
        } else {
            Ok((input, None))
        },
    }
}

fn parts<'a>(input: &'a str) -> (r: Res<'a, URI<'a>>)
    ensures
        match spec_parts(input.spec_bytes()) {
            Ok((rest, value)) => r matches Ok((t, v)) && t.spec_bytes() == rest && v@ == value,
            Err(stack) => r matches Err(e) && e@ == stack,
        },
{
    let (s1, scheme) = match scheme(input) {
        Ok(found) => found,
        Err(e) => {
            return Err(e);
        },
    };
    let (s2, authority) = match decide(authority(s1), s1, user_info_follows(s1)) {
        Ok(found) => found,
        Err(e) => {
            return Err(e);
        },
    };
    let (s3, host) = match host(s2) {
        Ok(found) => found,
        Err(e) => {
            return Err(e);
        },
    };
    let (s4, port) = match decide(port(s3), s3, begins_with(s3, COLON)) {
        Ok(found) => found,
        Err(e) => {
            return Err(e);
        },
    };
    let (s5, path) = match decide(path(s4), s4, begins_with(s4, SLASH)) {
        Ok(found) => found,
        Err(e) => {
            return Err(e);
        },
    };
    let (s6, query) = match decide(query(s5), s5, begins_with(s5, QUESTION)) {
        Ok(found) => found,
        Err(e) => {
            return Err(e);
        },
    };
    let (rest, fragment) = match decide(fragment(s6), s6, begins_with(s6, HASH)) {
        Ok(found) => found,
        Err(e) => {
            return Err(e);
        },
    };
    Ok((rest, URI { scheme, authority, host, port, path, query, fragment }))
}

/// Recognizes a URI at the front of `input`.
pub fn uri<'a>(input: &'a str) -> (r: Res<'a, URI<'a>>)
    ensures
        match spec_uri(input.spec_bytes()) {
            Ok((rest, value)) => r matches Ok((t, v)) && t.spec_bytes() == rest && v@ == value,
            Err(stack) => r matches Err(e) && e@ == stack,
        },
        r matches Ok((t, _)) ==> proper_suffix(t.spec_bytes(), input.spec_bytes()),
{
    proof {
        lemma_uri_remainder(input.spec_bytes());
    }
    match parts(input) {
        Ok(found) => Ok(found),
        Err(e) => Err(e.append(input, ErrorKind::Context("uri"))),
    }
}

/// Takes the URI `input` apart. All of `input` must be the URI.
pub fn parse_uri<'a>(input: &'a str) -> (r: Result<URI<'a>, ParseError<'a>>)
    ensures
        match spec_parse_uri(input.spec_bytes()) {
            Ok(value) => r matches Ok(v) && v@ == value,
            Err(stack) => r matches Err(e) && e@ == stack,
        },
{
    match uri(input) {
        Err(e) => Err(e),
        Ok((rest, value)) => if is_empty(rest) {
            Ok(value)
        } else {
            Err(ParseError::new(rest, ErrorKind::Eof).append(input, ErrorKind::Context("uri")))
        },
    }
}

/// Whether `s` is empty or begins with `/`, `?` or `#`: whether a path, a
/// query, a fragment or nothing stands there.
pub open spec fn at_path_or_end(s: Seq<u8>) -> bool {
    s.len() == 0 || s[0] == SLASH || s[0] == QUESTION || s[0] == HASH
}

/// What holds of what follows the host: what remains is a suffix of the
/// input; path and query are well formed; something remains only where
/// neither path, query nor fragment were read; and a diagnostic lies in the
/// input.
proof fn lemma_rest(s: Seq<u8>)
    ensures
        spec_rest(s) matches Ok((rest, found)) ==> {
            &&& is_suffix(rest, s)
            &&& found.1 matches Some(segments) ==> segments.len() >= 1 && forall|k: int|
                0 <= k < segments.len() ==> is_segment(#[trigger] segments[k])
            &&& found.2 matches Some(params) ==> forall|k: int|
                0 <= k < params.len() ==> is_param(#[trigger] params[k])
            &&& rest.len() > 0 ==> {
                &&& found.1 is None
                &&& found.2 is None
                &&& found.3 is None
                &&& !at_path_or_end(rest)
                &&& found.0 is Some ==> !CharClass::Digit.contains(rest[0])
                &&& found.0 is None ==> rest == s && strip(s, COLON) is None
            }
        },
        spec_rest(s) matches Err(stack) ==> stack.len() >= 2 && within(stack, s),
{
    lemma_port_remainder(s);
    lemma_port_diagnostic(s);
    assert(is_suffix(s, s)) by {
        assert(s =~= s.skip(0));
    }
    if let Ok((s4, _)) = optional(spec_port(s), s, strip(s, COLON) is Some) {
        lemma_path_remainder(s4);
        lemma_path_diagnostic(s4);
        assert(is_suffix(s4, s4)) by {
            assert(s4 =~= s4.skip(0));
        }
        match optional(spec_path(s4), s4, strip(s4, SLASH) is Some) {
            Err(stack) => {
                lemma_within_suffix(stack, s4, s);
            },
            Ok((s5, _)) => {
                lemma_suffix_of_suffix(s5, s4, s);
                lemma_query_remainder(s5);
                lemma_query_diagnostic(s5);
                assert(is_suffix(s5, s5)) by {
                    assert(s5 =~= s5.skip(0));
                }
                match optional(spec_query(s5), s5, strip(s5, QUESTION) is Some) {
                    Err(stack) => {
                        lemma_within_suffix(stack, s5, s);
                    },
                    Ok((s6, _)) => {
                        lemma_suffix_of_suffix(s6, s5, s);
                        lemma_fragment_remainder(s6);
                        lemma_fragment_diagnostic(s6);
                        assert(is_suffix(s6, s6)) by {
                            assert(s6 =~= s6.skip(0));
                        }
                        match optional(spec_fragment(s6), s6, strip(s6, HASH) is Some) {
                            Err(stack) => {
                                lemma_within_suffix(stack, s6, s);
                            },
                            Ok((rest, _)) => {
                                lemma_suffix_of_suffix(rest, s6, s);
                            },
                        }
                    },
                }
            },
        }
    }
}

/// Where no user information is announced, the host name holds no `@`.
proof fn lemma_name_without_at(s: Seq<u8>)
    requires
        !announces_user_info(s),
    ensures
        all_in(run(s, CharClass::HostName), CharClass::UserInfo),
{
    let name = run(s, CharClass::HostName);
    let before = run_len(s, CharClass::UserInfo) as int;
    lemma_run_len(s, CharClass::HostName);
    lemma_run_len(s, CharClass::UserInfo);
    assert forall|i: int| 0 <= i < name.len() implies CharClass::UserInfo.contains(
        #[trigger] name[i],
    ) by {
        if !CharClass::UserInfo.contains(name[i]) {
            assert(name[i] == s[i]);
            assert(before <= i);
            assert(name[before] == s[before]);
            assert(after_run(s, CharClass::UserInfo)[0] == s[before]);
        }
    }
}

/// What holds of the parts of a URI: see `lemma_uri_remainder` and
/// `lemma_uri_diagnostic`.
proof fn lemma_parts(s: Seq<u8>)
    ensures
        spec_parts(s) matches Ok((rest, value)) ==> {
            &&& is_suffix(rest, s)
            &&& rest.len() + 8 <= s.len()
            &&& value.well_formed()
            &&& rest.len() > 0 ==> {
                &&& value.port is Some
                &&& value.path is None
                &&& value.query is None
                &&& value.fragment is None
                &&& !at_path_or_end(rest)
                &&& !CharClass::Digit.contains(rest[0])
            }
        },
        spec_parts(s) matches Err(stack) ==> stack.len() >= 2 && within(stack, s),
{
    lemma_scheme_remainder(s);
    lemma_scheme_diagnostic(s);
    if let Ok((s1, _)) = spec_scheme(s) {
        lemma_authority_remainder(s1);
        lemma_authority_shape(s1);
        lemma_authority_diagnostic(s1);
        assert(is_suffix(s1, s1)) by {
            assert(s1 =~= s1.skip(0));
        }
        match optional(spec_authority(s1), s1, announces_user_info(s1)) {
            Err(stack) => {
                lemma_within_suffix(stack, s1, s);
            },
            Ok((s2, _)) => {
                lemma_suffix_of_suffix(s2, s1, s);
                lemma_host_remainder(s2);
                lemma_host_shape(s2);
                lemma_host_diagnostic(s2);
                match spec_host(s2) {
                    Err(stack) => {
                        lemma_within_suffix(stack, s2, s);
                    },
                    Ok((s3, found)) => {
                        lemma_suffix_of_suffix(s3, s2, s);
                        lemma_run_len(s2, CharClass::HostName);
                        if let HostModel::Name(name) = found {
                            if !announces_user_info(s2) {
                                lemma_name_without_at(s2);
                            }
                        }
                        if s3.len() > 0 {
                            assert(s3[0] == s2[s2.len() - s3.len()]);
                        }
                        lemma_rest(s3);
                        match spec_rest(s3) {
                            Err(stack) => {
                                lemma_within_suffix(stack, s3, s);
                            },
                            Ok((rest, _)) => {
                                lemma_suffix_of_suffix(rest, s3, s);
                            },
                        }
                    },
                }
            },
        }
    }
}

/// Where the URI rule matches, what it consumed lies within the input and
/// holds at least a scheme and one byte of host: what remains is a proper
/// suffix of the input. Every part of the URI is well formed. Something
/// remains only directly after a port, and then it begins with a byte that
/// neither continues the port nor announces a path, a query or a fragment.
pub proof fn lemma_uri_remainder(s: Seq<u8>)
    ensures
        spec_uri(s) matches Ok((rest, value)) ==> {
            &&& proper_suffix(rest, s)
            &&& rest.len() + 8 <= s.len()
            &&& value.well_formed()
            &&& rest.len() > 0 ==> {
                &&& value.port is Some
                &&& value.path is None
                &&& value.query is None
                &&& value.fragment is None
                &&& !at_path_or_end(rest)
                &&& !CharClass::Digit.contains(rest[0])
            }
        },
{
    lemma_parts(s);
}

/// Where the URI rule does not match, its diagnostic lies in the input: on
/// top stands the rule, at the input, below it the diagnostic of the part
/// that failed.
pub proof fn lemma_uri_diagnostic(s: Seq<u8>)
    ensures
        spec_uri(s) matches Err(stack) ==> reported_by(stack, s, "uri") && stack.len() >= 3,
{
    lemma_parts(s);
    assert(s =~= s.skip(0));
}

/// An input is a URI exactly where the URI rule matches on it and consumes
/// all of it: the lengths that the rules consume add up to the length of the
/// input, and nothing remains. The URI is then the one that the rule read,
/// and it is well formed. Where the input is no URI, the diagnostic lies in
/// the input.
pub proof fn lemma_parse_uri(s: Seq<u8>)
    ensures
        spec_parse_uri(s) matches Ok(value) ==> {
            &&& spec_uri(s) matches Ok((rest, found))
            &&& rest.len() == 0
            &&& found == value
            &&& value.well_formed()
        },
        spec_uri(s) matches Ok((rest, found)) ==> (rest.len() == 0 ==> spec_parse_uri(s) == Ok::<
            UriModel,
            Stack,
        >(found)),
        spec_parse_uri(s) matches Err(stack) ==> reported_by(stack, s, "uri"),
{
    lemma_uri_remainder(s);
    lemma_uri_diagnostic(s);
    assert(s =~= s.skip(0));
}

} // verus!
