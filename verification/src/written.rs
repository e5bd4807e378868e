//! The text of a URI, and the two laws that tie it to the rules: what is
//! read from a text is what the text was made of, and the text of a URI is
//! read as that URI.

use vstd::prelude::*;
use crate::authority::{
    authority_text, lemma_authority_of_text, lemma_authority_shape, spec_authority,
    AuthorityModel,
};
use crate::error::{matched, Stack};
use crate::fragment::{
    fragment_text, lemma_fragment_of_text, lemma_fragment_remainder, spec_fragment,
};
use crate::host::{
    lemma_address_text_in, lemma_host_of_text, lemma_host_shape, spec_host, HostModel,
};
use crate::path::{ends_path, lemma_path_of_text, lemma_path_remainder, path_text, spec_path};
use crate::port::{lemma_port_of_text, lemma_port_shape, port_text, spec_port, writes_port};
use crate::query::{
    ends_query, lemma_query_of_text, lemma_query_remainder, query_text, spec_query, ParamModel,
};
use crate::scheme::{lemma_scheme_of_literal, lemma_scheme_remainder, spec_scheme, Scheme};
use crate::text::{
    after_run, all_in, lemma_run_len, lemma_run_len_unique, lemma_run_of_concat, run_len, stops,
    strip, CharClass, AT, COLON, HASH, QUESTION, SLASH,
};
use crate::uri::{
    announces_user_info, optional, spec_parse_uri, spec_parts, spec_rest, spec_uri, UriModel,
};

verus! {

/// What the value of a URI leaves open about its text.
pub struct Spelling {
    /// The literal of the scheme, in its capital and small letters.
    pub scheme: Seq<u8>,
    /// Whether a `:` follows the user name.
    pub colon: bool,
    /// The digits of the four groups of an address.
    pub groups: Seq<Seq<u8>>,
    /// The digits of the port.
    pub port: Seq<u8>,
}

/// The text of an authority that may be absent.
pub open spec fn authority_part(authority: Option<AuthorityModel>, colon: bool) -> Seq<u8> {
    match authority {
        Some(found) => authority_text(found, colon),
        None => Seq::empty(),
    }
}

/// The text of a port that may be absent.
pub open spec fn port_part(port: Option<u16>, digits: Seq<u8>) -> Seq<u8> {
    match port {
        Some(_) => port_text(digits),
        None => Seq::empty(),
    }
}

/// The text of a path that may be absent.
pub open spec fn path_part(path: Option<Seq<Seq<u8>>>) -> Seq<u8> {
    match path {
        Some(segments) => path_text(segments),
        None => Seq::empty(),
    }
}

/// The text of a query that may be absent.
pub open spec fn query_part(query: Option<Seq<ParamModel>>) -> Seq<u8> {
    match query {
        Some(params) => query_text(params),
        None => Seq::empty(),
    }
}

/// The text of a fragment that may be absent.
pub open spec fn fragment_part(fragment: Option<Seq<u8>>) -> Seq<u8> {
    match fragment {
        Some(text) => fragment_text(text),
        None => Seq::empty(),
    }
}

impl UriModel {
    /// Whether `how` spells this URI: the literal is one of its scheme, a
    /// password has its `:`, and the digits write the numbers of address and
    /// port.
    pub open spec fn written_with(self, how: Spelling) -> bool {
        &&& Scheme::of_literal(how.scheme) == Some(self.scheme)
        &&& self.authority matches Some(found) ==> (found.1 is Some ==> how.colon)
        &&& self.host.written_with(how.groups)
        &&& self.port matches Some(number) ==> writes_port(how.port, number)
    }

    /// The text of what follows the host: port, path, query and fragment, as
    /// far as each is there.
    pub open spec fn text_after_host(self, how: Spelling) -> Seq<u8> {
        port_part(self.port, how.port) + path_part(self.path) + query_part(self.query)
            + fragment_part(self.fragment)
    }

    /// The text of the URI, spelled as `how` says: the parts one after the
    /// other, each with its delimiter, and nothing for a part that is
    /// absent.
    pub open spec fn text(self, how: Spelling) -> Seq<u8> {
        how.scheme + authority_part(self.authority, how.colon) + self.host.text(how.groups)
            + self.text_after_host(how)
    }
}

/// The text of the optional parts begins with the delimiter of the first one
/// that is there.
proof fn lemma_parts_begin(value: UriModel, how: Spelling)
    requires
        value.well_formed(),
        value.written_with(how),
    ensures
        ends_query(fragment_part(value.fragment)),
        ends_path(query_part(value.query) + fragment_part(value.fragment)),
        stops(
            path_part(value.path) + (query_part(value.query) + fragment_part(value.fragment)),
            CharClass::HostName,
        ),
        stops(
            path_part(value.path) + (query_part(value.query) + fragment_part(value.fragment)),
            CharClass::UserInfo,
        ),
        stops(
            path_part(value.path) + (query_part(value.query) + fragment_part(value.fragment)),
            CharClass::Digit,
        ),
        strip(
            path_part(value.path) + (query_part(value.query) + fragment_part(value.fragment)),
            COLON,
        ) is None,
        strip(
            path_part(value.path) + (query_part(value.query) + fragment_part(value.fragment)),
            AT,
        ) is None,
        strip(query_part(value.query) + fragment_part(value.fragment), SLASH) is None,
        strip(fragment_part(value.fragment), QUESTION) is None,
{
    let fragment = fragment_part(value.fragment);
    let query = query_part(value.query);
    let path = path_part(value.path);
    if fragment.len() > 0 {
        assert(fragment[0] == HASH);
    }
    if query.len() > 0 {
        assert(query[0] == QUESTION);
        assert((query + fragment)[0] == QUESTION);
    } else {
        assert(query + fragment =~= fragment);
    }
    if path.len() > 0 {
        let segments = value.path->0;
        assert(path_text(segments)[0] == SLASH);
        assert((path + (query + fragment))[0] == SLASH);
    } else {
        assert(path + (query + fragment) =~= query + fragment);
    }
}

/// What follows the host, read from its text, is what the text was made
/// of, and nothing remains.
proof fn lemma_rest_of_text(value: UriModel, how: Spelling)
    requires
        value.well_formed(),
        value.written_with(how),
    ensures
        spec_rest(value.text_after_host(how)) == matched(
            Seq::empty(),
            (value.port, value.path, value.query, value.fragment),
        ),
        stops(value.text_after_host(how), CharClass::HostName),
        announces_user_info(value.text_after_host(how)) == false,
{
    let empty = Seq::<u8>::empty();
    let s6 = fragment_part(value.fragment);
    let s5 = query_part(value.query) + s6;
    let s4 = path_part(value.path) + s5;
    let s3 = port_part(value.port, how.port) + s4;
    lemma_parts_begin(value, how);
    assert(s3 =~= value.text_after_host(how));
    // The port, and that what follows the host ends the host.
    match value.port {
        Some(number) => {
            lemma_port_of_text(how.port, number, s4);
            assert(s3[0] == COLON);
        },
        None => {
            assert(s3 =~= s4);
        },
    }
    assert(optional(spec_port(s3), s3, strip(s3, COLON) is Some) == matched(s4, value.port));
    // No `@` stands before the path.
    assert(announces_user_info(s3) == false) by {
        let before = port_part(value.port, how.port);
        assert(all_in(before, CharClass::UserInfo)) by {
            if let Some(number) = value.port {
                assert forall|i: int| 0 <= i < before.len() implies CharClass::UserInfo.contains(
                    #[trigger] before[i],
                ) by {
                    if i > 0 {
                        assert(before[i] == how.port[i - 1]);
                        assert(CharClass::Digit.contains(how.port[i - 1]));
                    }
                }
            }
        }
        lemma_run_of_concat(before, s4, CharClass::UserInfo);
    }
    // The path.
    match value.path {
        Some(segments) => {
            lemma_path_of_text(segments, s5);
        },
        None => {
            assert(s4 =~= s5);
        },
    }
    assert(optional(spec_path(s4), s4, strip(s4, SLASH) is Some) == matched(s5, value.path));
    // The query.
    match value.query {
        Some(params) => {
            lemma_query_of_text(params, s6);
        },
        None => {
            assert(s5 =~= s6);
        },
    }
    assert(optional(spec_query(s5), s5, strip(s5, QUESTION) is Some) == matched(
        s6,
        value.query,
    ));
    // The fragment.
    match value.fragment {
        Some(text) => {
            lemma_fragment_of_text(text);
        },
        None => {},
    }
    assert(optional(spec_fragment(s6), s6, strip(s6, HASH) is Some) == matched(
        empty,
        value.fragment,
    ));
}

/// A text on which the authority rule matches announces a user information.
proof fn lemma_authority_is_announced(s: Seq<u8>)
    ensures
        spec_authority(s) is Ok ==> announces_user_info(s),
{
    if let Ok((rest, value)) = spec_authority(s) {
        lemma_authority_shape(s);
        let colon = choose|colon: bool|
            s == #[trigger] authority_text(value, colon) + rest && (value.1 is Some ==> colon);
        let password = match value.1 {
            Some(password) => password,
            None => Seq::<u8>::empty(),
        };
        let between = if colon {
            seq![COLON]
        } else {
            Seq::<u8>::empty()
        };
        let before = value.0 + between + password;
        let from_at = seq![AT] + rest;
        assert(s =~= before + from_at);
        assert forall|i: int| 0 <= i < before.len() implies CharClass::UserInfo.contains(
            #[trigger] before[i],
        ) by {
            if i < value.0.len() {
                assert(before[i] == value.0[i]);
                assert(CharClass::AlphaNumeric.contains(value.0[i]));
            } else if i < value.0.len() + between.len() {
            } else {
                let k = i - value.0.len() - between.len();
                assert(before[i] == password[k]);
                assert(CharClass::AlphaNumeric.contains(password[k]));
            }
        }
        lemma_run_of_concat(before, from_at, CharClass::UserInfo);
    }
}

/// The text of a well-formed URI, however it is spelled, is a whole URI: the
/// rules read from it the URI of which it was made, and nothing remains.
pub proof fn lemma_uri_of_text(value: UriModel, how: Spelling)
    requires
        value.well_formed(),
        value.written_with(how),
    ensures
        spec_uri(value.text(how)) == matched(Seq::empty(), value),
        spec_parse_uri(value.text(how)) == Ok::<UriModel, Stack>(value),
{
    let s3 = value.text_after_host(how);
    let s2 = value.host.text(how.groups) + s3;
    let s1 = authority_part(value.authority, how.colon) + s2;
    let s = how.scheme + s1;
    assert(s =~= value.text(how));
    lemma_rest_of_text(value, how);
    lemma_scheme_of_literal(how.scheme, s1);
    lemma_host_of_text(value.host, how.groups, s3);
    match value.authority {
        Some(found) => {
            lemma_authority_of_text(found, how.colon, s2);
        },
        None => {
            assert(s1 =~= s2);
            lemma_authority_is_announced(s2);
            // Host and port hold no `@`, and what follows them ends them.
            assert(!announces_user_info(s2)) by {
                let name = value.host.text(how.groups);
                match value.host {
                    HostModel::Name(_) => {},
                    HostModel::Address(numbers) => {
                        lemma_address_text_in(how.groups, numbers, CharClass::UserInfo);
                    },
                }
                lemma_user_info_run(name, s3);
            }
        },
    }
    assert(optional(spec_authority(s1), s1, announces_user_info(s1)) == matched(
        s2,
        value.authority,
    ));
    assert(spec_parts(s) == matched(Seq::empty(), value));
}

/// Bytes that may stand in a user information, in front of a text that
/// announces none, announce none.
proof fn lemma_user_info_run(head: Seq<u8>, tail: Seq<u8>)
    requires
        all_in(head, CharClass::UserInfo),
        !announces_user_info(tail),
    ensures
        !announces_user_info(head + tail),
{
    let class = CharClass::UserInfo;
    let s = head + tail;
    let n = run_len(tail, class) as int;
    lemma_run_len(tail, class);
    assert forall|i: int| 0 <= i < head.len() + n implies class.contains(#[trigger] s[i]) by {
        if i < head.len() {
            assert(s[i] == head[i]);
        } else {
            assert(s[i] == tail[i - head.len()]);
        }
    }
    if n < tail.len() {
        assert(s[head.len() + n] == tail[n]);
    }
    lemma_run_len_unique(s, class, head.len() + n);
    assert(after_run(s, class) =~= after_run(tail, class));
}

/// A spelling of the authority that was read, or not, in front of `s`.
proof fn authority_spelling(s: Seq<u8>) -> (colon: bool)
    ensures
        optional(spec_authority(s), s, announces_user_info(s)) matches Ok((rest, authority)) ==> {
            &&& s == authority_part(authority, colon) + rest
            &&& authority matches Some(found) ==> (found.1 is Some ==> colon)
        },
{
    match spec_authority(s) {
        Ok((rest, found)) => {
            lemma_authority_shape(s);
            choose|colon: bool|
                s == #[trigger] authority_text(found, colon) + rest && (found.1 is Some ==> colon)
        },
        Err(_) => {
            assert(s =~= Seq::<u8>::empty() + s);
            false
        },
    }
}

/// A spelling of the host that was read in front of `s`.
proof fn host_spelling(s: Seq<u8>) -> (groups: Seq<Seq<u8>>)
    ensures
        spec_host(s) matches Ok((rest, host)) ==> host.written_with(groups) && s == host.text(
            groups,
        ) + rest,
{
    match spec_host(s) {
        Ok((rest, host)) => {
            lemma_host_shape(s);
            choose|groups: Seq<Seq<u8>>|
                host.written_with(groups) && s == #[trigger] host.text(groups) + rest
        },
        Err(_) => Seq::empty(),
    }
}

/// A spelling of the port that was read, or not, in front of `s`.
proof fn port_spelling(s: Seq<u8>) -> (digits: Seq<u8>)
    ensures
        optional(spec_port(s), s, strip(s, COLON) is Some) matches Ok((rest, port)) ==> {
            &&& s == port_part(port, digits) + rest
            &&& port matches Some(number) ==> writes_port(digits, number)
        },
{
    match spec_port(s) {
        Ok((rest, number)) => {
            lemma_port_shape(s);
            choose|digits: Seq<u8>|
                writes_port(digits, number) && s == #[trigger] port_text(digits) + rest
        },
        Err(_) => {
            assert(s =~= Seq::<u8>::empty() + s);
            Seq::empty()
        },
    }
}

/// What follows the port, where it is read, is the text of the parts read
/// from it, followed by what remains.
proof fn lemma_after_port_text(s: Seq<u8>)
    ensures
        optional(spec_path(s), s, strip(s, SLASH) is Some) matches Ok((s5, path)) ==> (optional(
            spec_query(s5),
            s5,
            strip(s5, QUESTION) is Some,
        ) matches Ok((s6, query)) ==> (optional(spec_fragment(s6), s6, strip(s6, HASH) is Some)
            matches Ok((rest, fragment)) ==> s == path_part(path) + query_part(query)
            + fragment_part(fragment) + rest)),
{
    if let Ok((s5, path)) = optional(spec_path(s), s, strip(s, SLASH) is Some) {
        if let Ok((s6, query)) = optional(spec_query(s5), s5, strip(s5, QUESTION) is Some) {
            if let Ok((rest, fragment)) = optional(spec_fragment(s6), s6, strip(s6, HASH) is Some) {
                lemma_path_remainder(s);
                lemma_query_remainder(s5);
                lemma_fragment_remainder(s6);
                assert(s =~= path_part(path) + s5);
                assert(s5 =~= query_part(query) + s6);
                assert(s6 =~= fragment_part(fragment) + rest);
                assert(s =~= path_part(path) + query_part(query) + fragment_part(fragment)
                    + rest);
            }
        }
    }
}

/// Texts joined piece by piece are the text of the URI.
proof fn lemma_text_joined(
    value: UriModel,
    how: Spelling,
    s: Seq<u8>,
    s1: Seq<u8>,
    s2: Seq<u8>,
    s3: Seq<u8>,
    s4: Seq<u8>,
    rest: Seq<u8>,
)
    requires
        s == how.scheme + s1,
        s1 == authority_part(value.authority, how.colon) + s2,
        s2 == value.host.text(how.groups) + s3,
        s3 == port_part(value.port, how.port) + s4,
        s4 == path_part(value.path) + query_part(value.query) + fragment_part(value.fragment)
            + rest,
    ensures
        s == value.text(how) + rest,
{
    assert(s =~= value.text(how) + rest);
}

/// Where the URI rule matches, the input is the text of the URI that was
/// read, in some spelling, followed by what remains: every byte that the
/// rule consumed stands in one part of the URI or is the delimiter of one,
/// and every part is there because its delimiter was.
pub proof fn lemma_uri_text(s: Seq<u8>)
    ensures
        spec_uri(s) matches Ok((rest, value)) ==> exists|how: Spelling|
            value.written_with(how) && s == #[trigger] value.text(how) + rest,
{
    if let Ok((rest, value)) = spec_uri(s) {
        if let Ok((s1, _)) = spec_scheme(s) {
            if let Ok((s2, _)) = optional(spec_authority(s1), s1, announces_user_info(s1)) {
                if let Ok((s3, _)) = spec_host(s2) {
                    if let Ok((s4, _)) = optional(spec_port(s3), s3, strip(s3, COLON) is Some) {
                        lemma_scheme_remainder(s);
                        let literal = s.take(s.len() - s1.len());
                        assert(s =~= literal + s1);
                        let colon = authority_spelling(s1);
                        let groups = host_spelling(s2);
                        let digits = port_spelling(s3);
                        lemma_after_port_text(s4);
                        let how = Spelling { scheme: literal, colon, groups, port: digits };
                        lemma_text_joined(value, how, s, s1, s2, s3, s4, rest);
                        assert(value.written_with(how));
                    }
                }
            }
        }
    }
}

} // verus!
