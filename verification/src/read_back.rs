//! Reading back a rendered address.
//!
//! An address that was read from a text `s` is rendered in canonical form.
//! Where a text `u` holds this rendering, and the address is closed behind
//! it, the address rule reads the same value from `u`, and stops exactly
//! behind the rendering. One kind of address is left out: an IPv4 host whose
//! last group has fewer than three digits, directly followed by a path that
//! starts with a digit. Rendered, the digit would be read as part of the
//! group.

use vstd::prelude::*;
use crate::agreement::{
    agree,
    ends_at,
    lemma_ip_or_host_agrees,
    lemma_port_agrees,
    takes_host_chars,
    window,
};
use crate::chars::{
    has_prefix_no_case,
    is_digit,
    lemma_run_end_bounds,
    lemma_run_end_is_maximal,
    lemma_run_end_unique,
    lower,
    CharClass,
};
use crate::grammar::{
    is_at,
    match_host,
    match_ip,
    match_ip_or_host,
    match_ipv4,
    match_ipv6,
    match_label,
    match_path,
    match_port,
    match_query,
    match_scheme,
    match_uri,
    optional,
};
use crate::laws::{lemma_ip_or_host_advances, lemma_optional_fields_bounds};
use crate::numbers::{all_of, lemma_run_all_of};
use crate::render::{
    render_host,
    render_path,
    render_port,
    render_query,
    render_uri,
};
use crate::round_trip::{
    holds,
    lemma_holds_concat,
    lemma_holds_index,
    lemma_ipv4_round_trip,
    lemma_ipv6_round_trip,
    lemma_path_round_trip,
    lemma_port_round_trip,
    lemma_query_round_trip,
    stops,
};
use crate::types::{HostView, Scheme, URIView};

verus! {

/// Where the pieces of an address end: scheme, host, port, path and query,
/// in this order. A piece that is not there ends where the one before it ends.
pub struct Layout {
    pub scheme: int,
    pub host: int,
    pub port: int,
    pub path: int,
    pub query: int,
}

/// The address that is read from `s` at `p`, where one is.
pub open spec fn uri_read(s: Seq<char>, p: int) -> URIView {
    match_uri(s, p).unwrap().0
}

/// Where the pieces of the address that is read from `s` at `p` end in `s`.
pub open spec fn source_layout(s: Seq<char>, p: int) -> Layout {
    let scheme = match_scheme(s, p).unwrap().1;
    let host = match_ip_or_host(s, scheme).unwrap().1;
    let port = optional(match_port(s, host), host).1;
    let path = optional(match_path(s, port), port).1;
    let query = optional(match_query(s, path), path).1;
    Layout { scheme, host, port, path, query }
}

/// Where the pieces of an address end in its rendering, when that starts at `q`.
pub open spec fn rendered_layout(uri: URIView, q: int) -> Layout {
    let scheme = q + uri.scheme.prefix().len();
    let host = scheme + render_host(uri.host).len();
    let port = host + render_port(uri.port).len();
    let path = port + render_path(uri.path).len();
    let query = path + render_query(uri.query).len();
    Layout { scheme, host, port, path, query }
}

/// Whether an address that ends at `end` cannot go on there: the text ends,
/// or a space or `#` stands there, or, for an address without a query, a `?`
/// with nothing, a space or `#` behind it.
pub open spec fn closed_at(u: Seq<char>, end: int, has_query: bool) -> bool {
    ||| end == u.len()
    ||| is_at(u, end, ' ')
    ||| is_at(u, end, '#')
    ||| (!has_query && is_at(u, end, '?') && (end + 1 == u.len() || is_at(u, end + 1, ' ')
        || is_at(u, end + 1, '#')))
}

/// Whether no digit of a path can be taken for a digit of an IPv4 group: the
/// last group has three digits, or something other than a digit follows the
/// host.
pub open spec fn ipv4_is_delimited(uri: URIView) -> bool {
    uri.host matches HostView::IPV4(groups) ==> groups[3] >= 100 || uri.port is Some
        || uri.path is None || !is_digit(uri.path.unwrap()[0])
}

/// Whether `u` holds at `q` the rendering of the address that is read from
/// `s` at `p`, closed behind it.
pub open spec fn renders_at(s: Seq<char>, p: int, u: Seq<char>, q: int) -> bool {
    &&& 0 <= p <= s.len()
    &&& match_uri(s, p) is Some
    &&& holds(u, q, render_uri(uri_read(s, p)))
    &&& closed_at(u, q + render_uri(uri_read(s, p)).len(), uri_read(s, p).query is Some)
    &&& ipv4_is_delimited(uri_read(s, p))
}

/// What is known of an address that was read: where its pieces lie, and
/// that each piece is the text it was read from.
pub proof fn lemma_source_layout(s: Seq<char>, p: int)
    requires
        0 <= p <= s.len(),
        match_uri(s, p) is Some,
    ensures
        ({
            let at = source_layout(s, p);
            let uri = uri_read(s, p);
            &&& match_scheme(s, p) == Some((uri.scheme, at.scheme))
            &&& match_ip_or_host(s, at.scheme) == Some((uri.host, at.host))
            &&& optional(match_port(s, at.host), at.host) == (uri.port, at.port)
            &&& optional(match_path(s, at.port), at.port) == (uri.path, at.path)
            &&& optional(match_query(s, at.path), at.path) == (uri.query, at.query)
            &&& match_uri(s, p) == Some((uri, at.query))
            &&& p < at.scheme < at.host <= at.port <= at.path <= at.query <= s.len()
            &&& uri.path matches Some(path) ==> path == s.subrange(at.port, at.path) && path.len()
                > 0 && all_of(path, CharClass::Path)
            &&& uri.query matches Some(query) ==> query == s.subrange(at.path + 1, at.query)
                && query.len() > 0 && all_of(query, CharClass::Query)
            &&& uri.port is Some ==> is_at(s, at.host, ':') && stops(s, at.port, CharClass::Digit)
            &&& stops(s, at.path, CharClass::Path)
        }),
{
    let at = source_layout(s, p);
    lemma_ip_or_host_advances(s, at.scheme);
    lemma_optional_fields_bounds(s, at.host);
    lemma_optional_fields_bounds(s, at.port);
    lemma_optional_fields_bounds(s, at.path);
    lemma_run_all_of(s, CharClass::Path, at.port, s.len() as int);
    lemma_run_end_is_maximal(s, CharClass::Path, at.port, s.len() as int);
    lemma_run_end_bounds(s, CharClass::Path, at.port, s.len() as int);
    if at.path + 1 <= s.len() {
        lemma_run_all_of(s, CharClass::Query, at.path + 1, s.len() as int);
    }
    if at.host + 1 <= s.len() {
        lemma_run_end_is_maximal(s, CharClass::Digit, at.host + 1, s.len() as int);
        lemma_run_end_bounds(s, CharClass::Digit, at.host + 1, s.len() as int);
    }
}

/// An address that was read is closed where it ends.
pub proof fn lemma_source_is_closed(s: Seq<char>, p: int)
    requires
        0 <= p <= s.len(),
        match_uri(s, p) is Some,
    ensures
        closed_at(s, match_uri(s, p).unwrap().1, uri_read(s, p).query is Some),
{
    lemma_source_layout(s, p);
    let at = source_layout(s, p);
    if uri_read(s, p).query is Some {
        lemma_run_end_is_maximal(s, CharClass::Query, at.path + 1, s.len() as int);
    } else if is_at(s, at.path, '?') {
        lemma_run_end_is_maximal(s, CharClass::Query, at.path + 1, s.len() as int);
        lemma_run_end_bounds(s, CharClass::Query, at.path + 1, s.len() as int);
    }
}

/// Where the rendering of an address is held, each of its pieces is held at
/// its place.
pub proof fn lemma_rendered_pieces(u: Seq<char>, q: int, uri: URIView)
    requires
        holds(u, q, render_uri(uri)),
    ensures
        ({
            let at = rendered_layout(uri, q);
            &&& holds(u, q, uri.scheme.prefix())
            &&& holds(u, at.scheme, render_host(uri.host))
            &&& holds(u, at.host, render_port(uri.port))
            &&& holds(u, at.port, render_path(uri.path))
            &&& holds(u, at.path, render_query(uri.query))
            &&& at.query == q + render_uri(uri).len()
            &&& q <= at.scheme <= at.host <= at.port <= at.path <= at.query <= u.len()
        }),
{
    let t0 = uri.scheme.prefix();
    let t1 = render_host(uri.host);
    let t2 = render_port(uri.port);
    let t3 = render_path(uri.path);
    let t4 = render_query(uri.query);
    lemma_holds_concat(u, q, t0 + t1 + t2 + t3, t4);
    lemma_holds_concat(u, q, t0 + t1 + t2, t3);
    lemma_holds_concat(u, q, t0 + t1, t2);
    lemma_holds_concat(u, q, t0, t1);
}

/// What stands in `u` behind each piece of the rendering.
proof fn lemma_rendered_followers(s: Seq<char>, p: int, u: Seq<char>, q: int)
    requires
        renders_at(s, p, u, q),
    ensures
        ({
            let uri = uri_read(s, p);
            let at = rendered_layout(uri, q);
            &&& uri.query is Some ==> is_at(u, at.path, '?') && stops(u, at.query, CharClass::Query)
            &&& uri.query is None ==> closed_at(u, at.path, false)
            &&& stops(u, at.path, CharClass::Path)
            &&& uri.path matches Some(path) ==> u[at.port] == path[0]
            &&& uri.path is None ==> stops(u, at.port, CharClass::Path)
            &&& uri.port is Some ==> is_at(u, at.host, ':') && stops(u, at.port, CharClass::Digit)
        }),
{
    let uri = uri_read(s, p);
    let at = rendered_layout(uri, q);
    let from = source_layout(s, p);
    lemma_source_layout(s, p);
    lemma_rendered_pieces(u, q, uri);
    if let Some(query) = uri.query {
        lemma_holds_index(u, at.path, render_query(uri.query));
        assert(u[at.path + 0] == render_query(uri.query)[0]);
    }
    if let Some(path) = uri.path {
        lemma_holds_index(u, at.port, path);
        assert(u[at.port + 0] == path[0]);
        assert(path[0] == s[from.port]);
    }
    if let Some(port) = uri.port {
        lemma_holds_index(u, at.host, render_port(uri.port));
        assert(u[at.host + 0] == render_port(uri.port)[0]);
    }
}

/// A scheme that is rendered is read back.
pub proof fn lemma_scheme_round_trip(u: Seq<char>, q: int, scheme: Scheme)
    requires
        holds(u, q, scheme.prefix()),
    ensures
        match_scheme(u, q) == Some((scheme, q + scheme.prefix().len())),
{
    let text = scheme.prefix();
    lemma_holds_index(u, q, text);
    assert forall|k: int| 0 <= k < text.len() implies lower(#[trigger] u[q + k]) == text[k] by {
        assert(u[q + k] == text[k]);
    }
    if scheme == Scheme::HTTPS {
        if has_prefix_no_case(u, q, Scheme::HTTP.prefix()) {
            assert(lower(u[q + 4]) == Scheme::HTTP.prefix()[4]);
            assert(u[q + 4] == text[4]);
        }
    }
}

/// The host of a rendered address is read back.
proof fn lemma_rendered_host(s: Seq<char>, p: int, u: Seq<char>, q: int)
    requires
        renders_at(s, p, u, q),
    ensures
        match_ip_or_host(u, rendered_layout(uri_read(s, p), q).scheme) == Some(
            (uri_read(s, p).host, rendered_layout(uri_read(s, p), q).host),
        ),
{
    let uri = uri_read(s, p);
    let at = rendered_layout(uri, q);
    let from = source_layout(s, p);
    lemma_source_layout(s, p);
    lemma_rendered_pieces(u, q, uri);
    lemma_rendered_followers(s, p, u, q);
    match uri.host {
        HostView::HOST(name) => {
            assert(match_ip(s, from.scheme) is None);
            assert(match_host(s, from.scheme) == Some((uri.host, from.host)));
            assert(name == s.subrange(from.scheme, from.host));
            // the first character of a name is a letter, a digit or a hyphen
            lemma_run_end_is_maximal(
                s,
                CharClass::AlphaNumericHyphen,
                from.scheme,
                s.len() as int,
            );
            assert(match_label(s, from.scheme) is Some);
            assert(CharClass::AlphaNumericHyphen.has(s[from.scheme]));
            lemma_holds_index(u, at.scheme, name);
            assert(u[at.scheme + 0] == name[0]);
            if uri.port is Some {
                let inside = |c: char| c != ':';
                let n = name.len() as int;
                assert(window(s, from.scheme, u, at.scheme, n, inside));
                assert(takes_host_chars(inside));
                lemma_ip_or_host_agrees(s, from.scheme, u, at.scheme, n, inside);
            } else {
                let inside = |c: char| CharClass::Path.has(c);
                let path = render_path(uri.path);
                let n = (name.len() + path.len()) as int;
                lemma_holds_concat(u, at.scheme, name, path);
                assert(s.subrange(from.scheme, from.scheme + n) =~= name + path);
                assert(agree(s, from.scheme, u, at.scheme, n));
                assert(ends_at(s, from.scheme + n, inside));
                assert(ends_at(u, at.scheme + n, inside));
                assert(takes_host_chars(inside));
                lemma_ip_or_host_agrees(s, from.scheme, u, at.scheme, n, inside);
            }
        },
        HostView::IPV4(groups) => {
            assert(match_ipv4(s, from.scheme) is Some);
            assert(groups.len() == 4);
            if groups[3] < 100 {
                assert(stops(u, at.host, CharClass::Digit)) by {
                    if uri.port is None {
                        if let Some(path) = uri.path {
                        } else if uri.query is Some {
                        } else {
                        }
                    }
                }
            }
            lemma_ipv4_round_trip(u, at.scheme, groups);
        },
        HostView::IPV6(groups) => {
            assert(match_ipv6(s, from.scheme) is Some);
            assert(groups.len() == 8);
            lemma_ipv6_round_trip(u, at.scheme, groups);
        },
    }
}

/// The port of a rendered address is read back, and none is read where the
/// address has none.
proof fn lemma_rendered_port(s: Seq<char>, p: int, u: Seq<char>, q: int)
    requires
        renders_at(s, p, u, q),
    ensures
        optional(
            match_port(u, rendered_layout(uri_read(s, p), q).host),
            rendered_layout(uri_read(s, p), q).host,
        ) == (uri_read(s, p).port, rendered_layout(uri_read(s, p), q).port),
{
    let uri = uri_read(s, p);
    let at = rendered_layout(uri, q);
    let from = source_layout(s, p);
    lemma_source_layout(s, p);
    lemma_rendered_pieces(u, q, uri);
    lemma_rendered_followers(s, p, u, q);
    match uri.port {
        Some(port) => {
            lemma_port_round_trip(u, at.host, port);
        },
        None => {
            let inside = |c: char| CharClass::Path.has(c);
            let path = render_path(uri.path);
            let n = path.len() as int;
            assert(s.subrange(from.host, from.host + n) =~= path);
            assert(agree(s, from.host, u, at.host, n));
            assert(window(s, from.host, u, at.host, n, inside));
            lemma_port_agrees(s, from.host, u, at.host, n, inside);
        },
    }
}

/// The path and the query of a rendered address are read back, and none is
/// read where the address has none.
proof fn lemma_rendered_path_and_query(s: Seq<char>, p: int, u: Seq<char>, q: int)
    requires
        renders_at(s, p, u, q),
    ensures
        optional(
            match_path(u, rendered_layout(uri_read(s, p), q).port),
            rendered_layout(uri_read(s, p), q).port,
        ) == (uri_read(s, p).path, rendered_layout(uri_read(s, p), q).path),
        optional(
            match_query(u, rendered_layout(uri_read(s, p), q).path),
            rendered_layout(uri_read(s, p), q).path,
        ) == (uri_read(s, p).query, rendered_layout(uri_read(s, p), q).query),
{
    let uri = uri_read(s, p);
    let at = rendered_layout(uri, q);
    lemma_source_layout(s, p);
    lemma_rendered_pieces(u, q, uri);
    lemma_rendered_followers(s, p, u, q);
    match uri.path {
        Some(path) => {
            lemma_path_round_trip(u, at.port, path);
        },
        None => {
            lemma_run_end_unique(u, CharClass::Path, at.port, u.len() as int, at.port);
        },
    }
    match uri.query {
        Some(query) => {
            lemma_query_round_trip(u, at.path, query);
        },
        None => {
            if is_at(u, at.path, '?') {
                lemma_run_end_unique(
                    u,
                    CharClass::Query,
                    at.path + 1,
                    u.len() as int,
                    at.path + 1,
                );
            }
        },
    }
}

/// An address that is rendered is read back: where `u` holds at `q` the
/// rendering of the address that was read from `s` at `p`, closed behind it,
/// the same address is read from `u` at `q`, up to the end of the rendering.
pub proof fn lemma_uri_round_trip(s: Seq<char>, p: int, u: Seq<char>, q: int)
    requires
        renders_at(s, p, u, q),
    ensures
        match_uri(u, q) == Some((uri_read(s, p), q + render_uri(uri_read(s, p)).len())),
{
    let uri = uri_read(s, p);
    let at = rendered_layout(uri, q);
    lemma_source_layout(s, p);
    lemma_rendered_pieces(u, q, uri);
    lemma_scheme_round_trip(u, q, uri.scheme);
    lemma_rendered_host(s, p, u, q);
    lemma_rendered_port(s, p, u, q);
    lemma_rendered_path_and_query(s, p, u, q);
}

} // verus!
