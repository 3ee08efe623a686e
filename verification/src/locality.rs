//! Rules look forward only.
//!
//! What a rule reads at a position depends on the text from that position
//! on, and on nothing in front of it: from two texts that are the same from
//! two positions on, every rule reads the same value there, and stops at
//! the same distance. So the parts of the rest of a text are the rest of
//! the parts of the text.

use vstd::prelude::*;
use crate::agreement::{
    lemma_agree_parts,
    lemma_host_agrees,
    lemma_ipv4_agrees,
    lemma_ipv6_agrees,
    lemma_port_agrees,
    lemma_run_agrees,
    shifted,
    takes_host_chars,
    window,
};
use crate::chars::{has_prefix_no_case, lemma_run_end_bounds, lower, run_end, CharClass};
use crate::grammar::{
    is_at,
    match_host,
    match_ip,
    match_ip_or_host,
    match_ipv6,
    match_mention,
    match_name,
    match_part,
    match_path,
    match_port,
    match_query,
    match_scheme,
    match_uri,
    match_user_id,
    optional,
    parts_from,
    parts_of,
    tokens_from,
};
use crate::laws::{
    lemma_ip_or_host_advances,
    lemma_ipv6_advances,
    lemma_optional_fields_bounds,
    lemma_scheme_ignores_case,
    lemma_tokens_unfold,
};
use crate::types::Scheme;

verus! {

/// Whether `a` from `i` on and `b` from `j` on are the same text.
pub open spec fn same_rest(a: Seq<char>, i: int, b: Seq<char>, j: int) -> bool {
    &&& 0 <= i <= a.len()
    &&& 0 <= j <= b.len()
    &&& a.subrange(i, a.len() as int) == b.subrange(j, b.len() as int)
}

/// The class of all characters, as a predicate.
pub open spec fn any_char() -> spec_fn(char) -> bool {
    |c: char| true
}

/// Texts with the same rest agree up to their ends.
proof fn lemma_same_rest_window(a: Seq<char>, i: int, b: Seq<char>, j: int)
    requires
        same_rest(a, i, b, j),
    ensures
        a.len() - i == b.len() - j,
        window(a, i, b, j, a.len() - i, any_char()),
        takes_host_chars(any_char()),
        forall|c: char| #[trigger] any_char()(c),
{
    assert(a.subrange(i, a.len() as int).len() == b.subrange(j, b.len() as int).len());
}

/// Texts with the same rest have the same rest from any later place on.
pub proof fn lemma_same_rest_later(a: Seq<char>, i: int, b: Seq<char>, j: int, k: int)
    requires
        same_rest(a, i, b, j),
        0 <= k <= a.len() - i,
    ensures
        same_rest(a, i + k, b, j + k),
{
    lemma_same_rest_window(a, i, b, j);
    lemma_agree_parts(a, i, b, j, a.len() - i);
    assert(a.subrange(i + k, i + (a.len() - i)) == b.subrange(j + k, j + (a.len() - i)));
}

/// A run depends on the rest of the text only.
proof fn lemma_run_is_local(
    a: Seq<char>,
    i: int,
    b: Seq<char>,
    j: int,
    class: CharClass,
    limit_a: int,
    limit_b: int,
)
    requires
        same_rest(a, i, b, j),
        limit_a - i == limit_b - j || (limit_a >= a.len() && limit_b >= b.len()),
    ensures
        run_end(b, class, j, limit_b) == run_end(a, class, i, limit_a) - i + j,
        i <= run_end(a, class, i, limit_a) <= a.len(),
        b.subrange(j, run_end(b, class, j, limit_b)) == a.subrange(
            i,
            run_end(a, class, i, limit_a),
        ),
{
    lemma_same_rest_window(a, i, b, j);
    assert forall|c: char| class.has(c) implies #[trigger] any_char()(c) by {}
    lemma_run_agrees(a, i, b, j, a.len() - i, any_char(), class, 0, limit_a, limit_b);
    lemma_agree_parts(a, i, b, j, a.len() - i);
    let end = run_end(a, class, i, limit_a);
    assert(a.subrange(i + 0, i + (end - i)) == b.subrange(j + 0, j + (end - i)));
}

/// Whether a character stands at a place depends on the rest of the text
/// only.
proof fn lemma_is_at_is_local(a: Seq<char>, i: int, b: Seq<char>, j: int, c: char)
    requires
        same_rest(a, i, b, j),
    ensures
        is_at(a, i, c) == is_at(b, j, c),
{
    lemma_same_rest_window(a, i, b, j);
    if i < a.len() {
        lemma_agree_parts(a, i, b, j, a.len() - i);
        assert(a[i + 0] == b[j + 0]);
    }
}

/// The scheme rule depends on the rest of the text only.
pub proof fn lemma_scheme_is_local(a: Seq<char>, i: int, b: Seq<char>, j: int)
    requires
        same_rest(a, i, b, j),
    ensures
        match_scheme(b, j) == shifted(match_scheme(a, i), j - i),
{
    lemma_same_rest_window(a, i, b, j);
    lemma_agree_parts(a, i, b, j, a.len() - i);
    lemma_prefix_is_local(a, i, b, j, Scheme::HTTP.prefix());
    lemma_prefix_is_local(a, i, b, j, Scheme::HTTPS.prefix());
}

/// Whether a text holds a pattern at a place depends on the rest of the
/// text only.
proof fn lemma_prefix_is_local(a: Seq<char>, i: int, b: Seq<char>, j: int, pattern: Seq<char>)
    requires
        same_rest(a, i, b, j),
    ensures
        has_prefix_no_case(a, i, pattern) == has_prefix_no_case(b, j, pattern),
{
    lemma_same_rest_window(a, i, b, j);
    lemma_agree_parts(a, i, b, j, a.len() - i);
    if has_prefix_no_case(a, i, pattern) {
        assert forall|k: int| 0 <= k < pattern.len() implies lower(#[trigger] b[j + k])
            == pattern[k] by {
            assert(a[i + k] == b[j + k]);
            assert(lower(a[i + k]) == pattern[k]);
        }
    }
    if has_prefix_no_case(b, j, pattern) {
        assert forall|k: int| 0 <= k < pattern.len() implies lower(#[trigger] a[i + k])
            == pattern[k] by {
            assert(a[i + k] == b[j + k]);
            assert(lower(b[j + k]) == pattern[k]);
        }
    }
}

/// The host rules depend on the rest of the text only.
pub proof fn lemma_ip_or_host_is_local(a: Seq<char>, i: int, b: Seq<char>, j: int)
    requires
        same_rest(a, i, b, j),
    ensures
        match_ip_or_host(b, j) == shifted(match_ip_or_host(a, i), j - i),
        match_ip(b, j) == shifted(match_ip(a, i), j - i),
        match_host(b, j) == shifted(match_host(a, i), j - i),
{
    lemma_same_rest_window(a, i, b, j);
    let n = a.len() - i;
    lemma_ipv4_agrees(a, i, b, j, n, any_char());
    lemma_host_agrees(a, i, b, j, n, any_char());
    lemma_ipv6_advances(a, i);
    lemma_ipv6_advances(b, j);
    if match_ipv6(a, i) is Some {
        lemma_ipv6_agrees(a, i, b, j, n);
    } else if match_ipv6(b, j) is Some {
        lemma_ipv6_agrees(b, j, a, i, n);
    }
}

/// The rules of port, path and query depend on the rest of the text only.
pub proof fn lemma_fields_are_local(a: Seq<char>, i: int, b: Seq<char>, j: int)
    requires
        same_rest(a, i, b, j),
    ensures
        match_port(b, j) == shifted(match_port(a, i), j - i),
        match_path(b, j) == shifted(match_path(a, i), j - i),
        match_query(b, j) == shifted(match_query(a, i), j - i),
{
    lemma_same_rest_window(a, i, b, j);
    lemma_port_agrees(a, i, b, j, a.len() - i, any_char());
    lemma_run_is_local(a, i, b, j, CharClass::Path, a.len() as int, b.len() as int);
    lemma_is_at_is_local(a, i, b, j, '?');
    if is_at(a, i, '?') {
        lemma_same_rest_later(a, i, b, j, 1);
        lemma_run_is_local(a, i + 1, b, j + 1, CharClass::Query, a.len() as int, b.len() as int);
    }
}

/// The address rule depends on the rest of the text only.
pub proof fn lemma_uri_is_local(a: Seq<char>, i: int, b: Seq<char>, j: int)
    requires
        same_rest(a, i, b, j),
    ensures
        match_uri(b, j) == shifted(match_uri(a, i), j - i),
{
    let by = j - i;
    lemma_scheme_is_local(a, i, b, j);
    if let Some((_, e1)) = match_scheme(a, i) {
        lemma_same_rest_later(a, i, b, j, e1 - i);
        lemma_ip_or_host_is_local(a, e1, b, e1 + by);
        lemma_ip_or_host_advances(a, e1);
        if let Some((_, e2)) = match_ip_or_host(a, e1) {
            lemma_same_rest_later(a, i, b, j, e2 - i);
            lemma_fields_are_local(a, e2, b, e2 + by);
            lemma_optional_fields_bounds(a, e2);
            let e3 = optional(match_port(a, e2), e2).1;
            assert(optional(match_port(b, e2 + by), e2 + by) == (
                optional(match_port(a, e2), e2).0,
                e3 + by,
            ));
            lemma_same_rest_later(a, i, b, j, e3 - i);
            lemma_fields_are_local(a, e3, b, e3 + by);
            lemma_optional_fields_bounds(a, e3);
            let e4 = optional(match_path(a, e3), e3).1;
            assert(optional(match_path(b, e3 + by), e3 + by) == (
                optional(match_path(a, e3), e3).0,
                e4 + by,
            ));
            lemma_same_rest_later(a, i, b, j, e4 - i);
            lemma_fields_are_local(a, e4, b, e4 + by);
            let e5 = optional(match_query(a, e4), e4).1;
            assert(optional(match_query(b, e4 + by), e4 + by) == (
                optional(match_query(a, e4), e4).0,
                e5 + by,
            ));
        }
    }
}

/// The rules of a mention depend on the rest of the text only.
pub proof fn lemma_mention_is_local(a: Seq<char>, i: int, b: Seq<char>, j: int)
    requires
        same_rest(a, i, b, j),
    ensures
        match_name(b, j) == shifted(match_name(a, i), j - i),
        match_user_id(b, j) == shifted(match_user_id(a, i), j - i),
        match_mention(b, j) == shifted(match_mention(a, i), j - i),
{
    let by = j - i;
    lemma_same_rest_window(a, i, b, j);
    lemma_brackets_are_local(a, i, b, j);
    lemma_is_at_is_local(a, i, b, j, '@');
    if is_at(a, i, '@') {
        lemma_same_rest_later(a, i, b, j, 1);
        lemma_brackets_are_local(a, i + 1, b, j + 1);
        if let Some((_, e1)) = match_name(a, i + 1) {
            lemma_run_end_bounds(a, CharClass::Name, i + 2, a.len() as int);
            lemma_same_rest_later(a, i, b, j, e1 - i);
            lemma_brackets_are_local(a, e1, b, e1 + by);
        }
    }
}

/// The rules of a bracketed name and of a bracketed user id depend on the
/// rest of the text only.
proof fn lemma_brackets_are_local(a: Seq<char>, i: int, b: Seq<char>, j: int)
    requires
        same_rest(a, i, b, j),
    ensures
        match_name(b, j) == shifted(match_name(a, i), j - i),
        match_user_id(b, j) == shifted(match_user_id(a, i), j - i),
{
    lemma_same_rest_window(a, i, b, j);
    lemma_is_at_is_local(a, i, b, j, '[');
    lemma_is_at_is_local(a, i, b, j, '(');
    if i < a.len() {
        lemma_same_rest_later(a, i, b, j, 1);
        lemma_run_is_local(a, i + 1, b, j + 1, CharClass::Name, a.len() as int, b.len() as int);
        let name_end = run_end(a, CharClass::Name, i + 1, a.len() as int);
        lemma_same_rest_later(a, i, b, j, name_end - i);
        lemma_is_at_is_local(a, name_end, b, name_end - i + j, ']');
        lemma_run_is_local(
            a,
            i + 1,
            b,
            j + 1,
            CharClass::UserId,
            a.len() as int,
            b.len() as int,
        );
        let id_end = run_end(a, CharClass::UserId, i + 1, a.len() as int);
        lemma_same_rest_later(a, i, b, j, id_end - i);
        lemma_is_at_is_local(a, id_end, b, id_end - i + j, ')');
    }
}

/// The part at a place depends on the rest of the text only.
pub proof fn lemma_part_is_local(a: Seq<char>, i: int, b: Seq<char>, j: int)
    requires
        same_rest(a, i, b, j),
        i < a.len(),
    ensures
        match_part(b, j) == (match_part(a, i).0, match_part(a, i).1 - i + j),
{
    lemma_same_rest_window(a, i, b, j);
    lemma_mention_is_local(a, i, b, j);
    lemma_uri_is_local(a, i, b, j);
    lemma_agree_parts(a, i, b, j, a.len() - i);
    assert(a.subrange(i + 0, i + 1) == b.subrange(j + 0, j + 1));
}

/// The tokens from a place on depend on the rest of the text only.
pub proof fn lemma_tokens_are_local(a: Seq<char>, i: int, b: Seq<char>, j: int)
    requires
        same_rest(a, i, b, j),
    ensures
        tokens_from(b, j) == tokens_from(a, i),
        parts_from(b, j) == parts_from(a, i),
    decreases a.len() - i,
{
    lemma_same_rest_window(a, i, b, j);
    if i < a.len() {
        lemma_part_is_local(a, i, b, j);
        lemma_tokens_unfold(a, i);
        lemma_tokens_unfold(b, j);
        let end = match_part(a, i).1;
        lemma_same_rest_later(a, i, b, j, end - i);
        lemma_tokens_are_local(a, end, b, end - i + j);
        lemma_agree_parts(a, i, b, j, a.len() - i);
        assert(a.subrange(i + 0, i + (end - i)) == b.subrange(j + 0, j + (end - i)));
    }
}

/// The parts of the rest of a text are the rest of the parts of the text:
/// splitting what stands from a token on gives the parts from that token on.
pub proof fn lemma_parts_of_the_rest(s: Seq<char>, p: int)
    requires
        0 <= p <= s.len(),
    ensures
        parts_of(s.subrange(p, s.len() as int)) == parts_from(s, p),
{
    let rest = s.subrange(p, s.len() as int);
    assert(rest.subrange(0, rest.len() as int) =~= rest);
    lemma_tokens_are_local(s, p, rest, 0);
}

/// The case of the letters of its scheme does not change an address: from
/// two texts that differ at most in the case of the letters of the scheme
/// at `pos`, the same address is read at `pos`.
pub proof fn lemma_uri_ignores_scheme_case(s: Seq<char>, t: Seq<char>, pos: int)
    requires
        s.len() == t.len(),
        0 <= pos <= s.len(),
        match_scheme(s, pos) is Some,
        forall|k: int|
            0 <= k < s.len() ==> if pos <= k < match_scheme(s, pos).unwrap().1 {
                lower(#[trigger] s[k]) == lower(t[k])
            } else {
                s[k] == t[k]
            },
    ensures
        match_uri(t, pos) == match_uri(s, pos),
{
    let (scheme, e1) = match_scheme(s, pos).unwrap();
    assert forall|k: int| 0 <= k < s.len() implies lower(#[trigger] s[k]) == lower(t[k]) by {}
    lemma_scheme_ignores_case(s, t, pos);
    assert(s.subrange(e1, s.len() as int) =~= t.subrange(e1, t.len() as int)) by {
        assert forall|k: int| 0 <= k < s.len() - e1 implies s.subrange(e1, s.len() as int)[k]
            == t.subrange(e1, t.len() as int)[k] by {
            assert(s[e1 + k] == t[e1 + k]);
        }
    }
    lemma_ip_or_host_is_local(s, e1, t, e1);
    lemma_ip_or_host_advances(s, e1);
    if let Some((_, e2)) = match_ip_or_host(s, e1) {
        lemma_same_rest_later(s, e1, t, e1, e2 - e1);
        lemma_fields_are_local(s, e2, t, e2);
        lemma_optional_fields_bounds(s, e2);
        let e3 = optional(match_port(s, e2), e2).1;
        lemma_same_rest_later(s, e1, t, e1, e3 - e1);
        lemma_fields_are_local(s, e3, t, e3);
        lemma_optional_fields_bounds(s, e3);
        let e4 = optional(match_path(s, e3), e3).1;
        lemma_same_rest_later(s, e1, t, e1, e4 - e1);
        lemma_fields_are_local(s, e4, t, e4);
    }
}

} // verus!
