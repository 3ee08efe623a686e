//! What holds of the grammar and of rendering, beyond the contract of any
//! single function.

use vstd::prelude::*;
use crate::chars::{
    has_prefix_no_case,
    lemma_run_end_bounds,
    lemma_run_end_is_maximal,
    lower,
    run_end,
    CharClass,
};
use crate::grammar::{
    dotted_labels_end,
    ipv6_groups,
    is_at,
    match_host,
    match_ip,
    match_ip_or_host,
    match_ipv4,
    match_ipv4_num,
    match_ipv4_num_dot,
    match_ipv6,
    match_label,
    match_mention,
    match_name,
    match_part,
    match_path,
    match_port,
    match_query,
    match_run,
    match_scheme,
    match_uri,
    optional,
    parts_from,
    parts_of,
    tokens_from,
    Token,
};
use crate::numbers::{all_of, decimal_value, lemma_run_all_of};
use crate::render::{render, render_part};
use crate::types::{HostView, Scheme, TextPartsView, URIView};

verus! {

/// An IPv4 group that matches ends behind `pos`, inside the text.
proof fn lemma_ipv4_num_advances(s: Seq<char>, pos: int)
    requires
        0 <= pos <= s.len(),
    ensures
        match_ipv4_num(s, pos) matches Some((_, end)) ==> pos < end <= s.len(),
        match_ipv4_num_dot(s, pos) matches Some((_, end)) ==> pos < end <= s.len(),
{
    lemma_run_end_bounds(s, CharClass::Digit, pos, pos + 3);
}

/// An IPv4 address that matches ends behind `pos`, inside the text.
proof fn lemma_ipv4_advances(s: Seq<char>, pos: int)
    requires
        0 <= pos <= s.len(),
    ensures
        match_ipv4(s, pos) matches Some((_, end)) ==> pos < end <= s.len(),
{
    lemma_ipv4_num_advances(s, pos);
    if let Some((_, e1)) = match_ipv4_num_dot(s, pos) {
        lemma_ipv4_num_advances(s, e1);
        if let Some((_, e2)) = match_ipv4_num_dot(s, e1) {
            lemma_ipv4_num_advances(s, e2);
            if let Some((_, e3)) = match_ipv4_num_dot(s, e2) {
                lemma_ipv4_num_advances(s, e3);
            }
        }
    }
}

/// The leading groups of an IPv6 literal end at or behind `pos`, inside the text.
proof fn lemma_ipv6_groups_bounds(s: Seq<char>, pos: int)
    requires
        0 <= pos <= s.len(),
    ensures
        pos <= ipv6_groups(s, pos).1 <= s.len(),
    decreases s.len() - pos,
{
    let end = run_end(s, CharClass::Hexa, pos, pos + 4);
    lemma_run_end_bounds(s, CharClass::Hexa, pos, pos + 4);
    if is_at(s, end, ':') {
        lemma_ipv6_groups_bounds(s, end + 1);
    }
}

/// An IPv6 address that matches ends behind `pos`, inside the text.
pub proof fn lemma_ipv6_advances(s: Seq<char>, pos: int)
    requires
        0 <= pos <= s.len(),
    ensures
        match_ipv6(s, pos) matches Some((_, end)) ==> pos < end <= s.len(),
{
    if is_at(s, pos, '[') {
        lemma_ipv6_groups_bounds(s, pos + 1);
        let p = ipv6_groups(s, pos + 1).1;
        lemma_run_end_bounds(s, CharClass::Hexa, p, p + 4);
    }
}

/// The dotted labels of a host name end at or behind `pos`, inside the text.
proof fn lemma_dotted_labels_bounds(s: Seq<char>, pos: int)
    requires
        0 <= pos <= s.len(),
    ensures
        pos <= dotted_labels_end(s, pos) <= s.len(),
    decreases s.len() - pos,
{
    lemma_run_end_bounds(s, CharClass::AlphaNumericHyphen, pos, s.len() as int);
    if let Some(end) = match_label(s, pos) {
        if is_at(s, end, '.') {
            lemma_dotted_labels_bounds(s, end + 1);
        }
    }
}

/// A host that matches ends behind `pos`, inside the text.
pub proof fn lemma_ip_or_host_advances(s: Seq<char>, pos: int)
    requires
        0 <= pos <= s.len(),
    ensures
        match_ip_or_host(s, pos) matches Some((_, end)) ==> pos < end <= s.len(),
{
    lemma_ipv4_advances(s, pos);
    lemma_ipv6_advances(s, pos);
    lemma_dotted_labels_bounds(s, pos);
    lemma_run_end_bounds(s, CharClass::Alpha, dotted_labels_end(s, pos), s.len() as int);
    lemma_run_end_bounds(s, CharClass::AlphaNumericHyphen, pos, s.len() as int);
}

/// An optional port, path or query ends at or behind `pos`, inside the text.
pub proof fn lemma_optional_fields_bounds(s: Seq<char>, pos: int)
    requires
        0 <= pos <= s.len(),
    ensures
        pos <= optional(match_port(s, pos), pos).1 <= s.len(),
        pos <= optional(match_path(s, pos), pos).1 <= s.len(),
        pos <= optional(match_query(s, pos), pos).1 <= s.len(),
{
    lemma_run_end_bounds(s, CharClass::Digit, pos + 1, s.len() as int);
    lemma_run_end_bounds(s, CharClass::Path, pos, s.len() as int);
    lemma_run_end_bounds(s, CharClass::Query, pos + 1, s.len() as int);
}

/// An address that matches consumes at least one character and ends inside
/// the text.
pub proof fn lemma_uri_advances(s: Seq<char>, pos: int)
    requires
        0 <= pos <= s.len(),
    ensures
        match_uri(s, pos) matches Some((_, end)) ==> pos < end <= s.len(),
{
    if let Some((_, e1)) = match_scheme(s, pos) {
        lemma_ip_or_host_advances(s, e1);
        if let Some((_, e2)) = match_ip_or_host(s, e1) {
            lemma_optional_fields_bounds(s, e2);
            let e3 = optional(match_port(s, e2), e2).1;
            lemma_optional_fields_bounds(s, e3);
            let e4 = optional(match_path(s, e3), e3).1;
            lemma_optional_fields_bounds(s, e4);
        }
    }
}

/// A mention that matches consumes at least one character and ends inside
/// the text.
pub proof fn lemma_mention_advances(s: Seq<char>, pos: int)
    requires
        0 <= pos <= s.len(),
    ensures
        match_mention(s, pos) matches Some((_, end)) ==> pos < end <= s.len(),
{
    if is_at(s, pos, '@') {
        lemma_run_end_bounds(s, CharClass::Name, pos + 2, s.len() as int);
        if let Some((_, e1)) = match_name(s, pos + 1) {
            lemma_run_end_bounds(s, CharClass::UserId, e1 + 1, s.len() as int);
        }
    }
}

/// Every step of the scan consumes at least one character and stays inside
/// the text, so the scan of a finite text ends.
pub proof fn lemma_part_advances(s: Seq<char>, pos: int)
    requires
        0 <= pos < s.len(),
    ensures
        pos < match_part(s, pos).1 <= s.len(),
{
    lemma_mention_advances(s, pos);
    lemma_uri_advances(s, pos);
}

/// The spans of the tokens, one behind the other.
pub open spec fn spans_text(tokens: Seq<Token>) -> Seq<char>
    decreases tokens.len(),
{
    if tokens.len() == 0 {
        Seq::empty()
    } else {
        spans_text(tokens.drop_last()) + tokens.last().span
    }
}

/// The spans of a first token and of the tokens behind it are the span of
/// the first and then the spans of the others.
proof fn lemma_spans_text_front(first: Token, others: Seq<Token>)
    ensures
        spans_text(seq![first] + others) == first.span + spans_text(others),
    decreases others.len(),
{
    let all = seq![first] + others;
    if others.len() == 0 {
        assert(all.drop_last() =~= Seq::<Token>::empty());
        assert(all.last() == first);
        assert(spans_text(all.drop_last()) =~= Seq::<char>::empty());
        assert(spans_text(all) =~= first.span + spans_text(others));
    } else {
        assert(all.drop_last() =~= seq![first] + others.drop_last());
        assert(all.last() == others.last());
        lemma_spans_text_front(first, others.drop_last());
        assert(spans_text(all) =~= first.span + spans_text(others));
    }
}

/// The texts of a first part and of the parts behind it are the text of the
/// first and then the texts of the others.
pub proof fn lemma_render_front(first: TextPartsView, others: Seq<TextPartsView>)
    ensures
        render(seq![first] + others) == render_part(first) + render(others),
    decreases others.len(),
{
    let all = seq![first] + others;
    if others.len() == 0 {
        assert(all.drop_last() =~= Seq::<TextPartsView>::empty());
        assert(all.last() == first);
        assert(render(all.drop_last()) =~= Seq::<char>::empty());
        assert(render(all) =~= render_part(first) + render(others));
    } else {
        assert(all.drop_last() =~= seq![first] + others.drop_last());
        assert(all.last() == others.last());
        lemma_render_front(first, others.drop_last());
        assert(render(all) =~= render_part(first) + render(others));
    }
}

/// The tokens from `pos` on: the token at `pos`, behind it the tokens from
/// its end on.
pub proof fn lemma_tokens_unfold(s: Seq<char>, pos: int)
    requires
        0 <= pos < s.len(),
    ensures
        ({
            let (part, end) = match_part(s, pos);
            &&& pos < end <= s.len()
            &&& tokens_from(s, pos) == seq![Token { part, span: s.subrange(pos, end) }]
                + tokens_from(s, end)
            &&& parts_from(s, pos) == seq![part] + parts_from(s, end)
        }),
{
    lemma_part_advances(s, pos);
    let (part, end) = match_part(s, pos);
    assert(parts_from(s, pos) =~= seq![part] + parts_from(s, end));
}

/// Nothing of the text is lost or added by the scan: the spans of the tokens
/// from `pos` on, one behind the other, are the text from `pos` on.
pub proof fn lemma_tokens_cover_from(s: Seq<char>, pos: int)
    requires
        0 <= pos <= s.len(),
    ensures
        spans_text(tokens_from(s, pos)) == s.subrange(pos, s.len() as int),
    decreases s.len() - pos,
{
    if pos < s.len() {
        lemma_tokens_unfold(s, pos);
        let (part, end) = match_part(s, pos);
        let first = Token { part, span: s.subrange(pos, end) };
        lemma_tokens_cover_from(s, end);
        lemma_spans_text_front(first, tokens_from(s, end));
        assert(s.subrange(pos, end) + s.subrange(end, s.len() as int) =~= s.subrange(
            pos,
            s.len() as int,
        ));
    } else {
        assert(s.subrange(pos, s.len() as int) =~= Seq::<char>::empty());
    }
}

/// Splitting a text loses nothing: the stretches of text that the parts were
/// read from, one behind the other, are the text itself.
pub proof fn lemma_tokens_cover(s: Seq<char>)
    ensures
        spans_text(tokens_from(s, 0)) == s,
        parts_of(s).len() == tokens_from(s, 0).len(),
{
    lemma_tokens_cover_from(s, 0);
    assert(s.subrange(0, s.len() as int) =~= s);
}

/// The empty text has no parts, and any other text has at least one and at
/// most as many as it has characters.
pub proof fn lemma_parts_count(s: Seq<char>, pos: int)
    requires
        0 <= pos <= s.len(),
    ensures
        parts_from(s, pos).len() <= s.len() - pos,
        pos < s.len() ==> parts_from(s, pos).len() >= 1,
        pos == s.len() ==> parts_from(s, pos).len() == 0,
    decreases s.len() - pos,
{
    if pos < s.len() {
        lemma_tokens_unfold(s, pos);
        lemma_parts_count(s, match_part(s, pos).1);
    }
}

/// Whether neither a mention nor an address starts anywhere in the text.
pub open spec fn is_plain(s: Seq<char>) -> bool {
    forall|pos: int|
        0 <= pos < s.len() ==> (#[trigger] match_mention(s, pos)) is None && (#[trigger] match_uri(
            s,
            pos,
        )) is None
}

/// The single characters of the text from `pos` on, each as a part.
pub open spec fn literal_parts(s: Seq<char>, pos: int) -> Seq<TextPartsView> {
    Seq::new(
        (s.len() - pos) as nat,
        |i: int| TextPartsView::Other(s.subrange(pos + i, pos + i + 1)),
    )
}

/// A text without any mention or address splits into its characters: one
/// part for each, in order.
pub proof fn lemma_plain_text_parts(s: Seq<char>, pos: int)
    requires
        is_plain(s),
        0 <= pos <= s.len(),
    ensures
        parts_from(s, pos) == literal_parts(s, pos),
    decreases s.len() - pos,
{
    if pos < s.len() {
        lemma_tokens_unfold(s, pos);
        assert(match_mention(s, pos) is None && match_uri(s, pos) is None);
        lemma_plain_text_parts(s, pos + 1);
        assert(parts_from(s, pos) =~= literal_parts(s, pos));
    } else {
        assert(parts_from(s, pos) =~= literal_parts(s, pos));
    }
}

/// No address starts with `@`.
pub proof fn lemma_no_uri_at_at_sign(s: Seq<char>, pos: int)
    requires
        is_at(s, pos, '@'),
    ensures
        match_uri(s, pos) is None,
{
    if has_prefix_no_case(s, pos, Scheme::HTTP.prefix()) {
        assert(lower(s[pos + 0]) == Scheme::HTTP.prefix()[0]);
    }
    if has_prefix_no_case(s, pos, Scheme::HTTPS.prefix()) {
        assert(lower(s[pos + 0]) == Scheme::HTTPS.prefix()[0]);
    }
}

/// A mention whose user id does not fit in 32 bits is no mention: where `@`
/// and a bracketed name are followed by `(`, a number above `u32::MAX` and
/// `)`, the mention rule fails, and the part at the `@` is the `@` alone.
pub proof fn lemma_mention_id_overflow(s: Seq<char>, pos: int)
    requires
        is_at(s, pos, '@'),
        match_name(s, pos + 1) is Some,
        ({
            let open = match_name(s, pos + 1).unwrap().1;
            let close = run_end(s, CharClass::UserId, open + 1, s.len() as int);
            is_at(s, open, '(') && decimal_value(s.subrange(open + 1, close)) > u32::MAX
        }),
    ensures
        match_mention(s, pos) is None,
        match_part(s, pos) == (TextPartsView::Other(seq!['@']), pos + 1),
{
    lemma_no_uri_at_at_sign(s, pos);
    assert(s.subrange(pos, pos + 1) =~= seq!['@']);
}

/// Whether a text holds a pattern at a place, case aside, depends on the
/// lower case forms of its characters only.
proof fn lemma_prefix_ignores_case(s: Seq<char>, t: Seq<char>, pos: int, pattern: Seq<char>)
    requires
        s.len() == t.len(),
        forall|k: int| 0 <= k < s.len() ==> lower(#[trigger] s[k]) == lower(t[k]),
        has_prefix_no_case(s, pos, pattern),
    ensures
        has_prefix_no_case(t, pos, pattern),
{
    assert forall|k: int| 0 <= k < pattern.len() implies lower(#[trigger] t[pos + k])
        == pattern[k] by {
        assert(lower(s[pos + k]) == pattern[k]);
    }
}

/// The case of the letters of a scheme does not matter: two texts that
/// differ at most in the case of their ASCII letters hold the same scheme at
/// the same position, or both hold none.
pub proof fn lemma_scheme_ignores_case(s: Seq<char>, t: Seq<char>, pos: int)
    requires
        s.len() == t.len(),
        forall|k: int| 0 <= k < s.len() ==> lower(#[trigger] s[k]) == lower(t[k]),
    ensures
        match_scheme(s, pos) == match_scheme(t, pos),
{
    let http = Scheme::HTTP.prefix();
    let https = Scheme::HTTPS.prefix();
    assert forall|k: int| 0 <= k < t.len() implies lower(#[trigger] t[k]) == lower(s[k]) by {
        assert(lower(s[k]) == lower(t[k]));
    }
    if has_prefix_no_case(s, pos, http) {
        lemma_prefix_ignores_case(s, t, pos, http);
    }
    if has_prefix_no_case(t, pos, http) {
        lemma_prefix_ignores_case(t, s, pos, http);
    }
    if has_prefix_no_case(s, pos, https) {
        lemma_prefix_ignores_case(s, t, pos, https);
    }
    if has_prefix_no_case(t, pos, https) {
        lemma_prefix_ignores_case(t, s, pos, https);
    }
}

/// The name of a host is the text that was read, letter for letter.
pub proof fn lemma_host_name_is_verbatim(s: Seq<char>, pos: int)
    ensures
        match_host(s, pos) matches Some((host, end)) ==> host == HostView::HOST(
            s.subrange(pos, end),
        ),
{
}

/// Whether `c` can stand in a host name: a letter, a digit, a hyphen or a dot.
pub open spec fn is_host_char(c: char) -> bool {
    CharClass::AlphaNumericHyphen.has(c) || c == '.'
}

/// Whether an address is as the address rule makes it: an IPv4 host has
/// four groups and an IPv6 host eight, a host name is not empty and made of
/// letters, digits, hyphens and dots, a path is not empty and holds no `?`,
/// `#` or space, and a query is not empty and holds no `#` or space.
pub open spec fn uri_is_well_formed(uri: URIView) -> bool {
    &&& uri.host.well_formed()
    &&& uri.host matches HostView::HOST(name) ==> name.len() > 0 && forall|k: int|
        0 <= k < name.len() ==> is_host_char(#[trigger] name[k])
    &&& uri.path matches Some(path) ==> path.len() > 0 && all_of(path, CharClass::Path)
    &&& uri.query matches Some(query) ==> query.len() > 0 && all_of(query, CharClass::Query)
}

/// Whether a part is as the rules make it: an address is well formed, the
/// name of a mention holds no `]`, and any other part is one character.
pub open spec fn part_is_well_formed(part: TextPartsView) -> bool {
    match part {
        TextPartsView::URI(uri) => uri_is_well_formed(uri),
        TextPartsView::Mention(mention) => all_of(mention.name, CharClass::Name),
        TextPartsView::Other(text) => text.len() == 1,
    }
}

/// The dotted labels of a host name are made of letters, digits, hyphens
/// and dots.
proof fn lemma_dotted_labels_chars(s: Seq<char>, pos: int)
    requires
        0 <= pos <= s.len(),
    ensures
        forall|k: int| pos <= k < dotted_labels_end(s, pos) ==> is_host_char(#[trigger] s[k]),
    decreases s.len() - pos,
{
    lemma_run_end_bounds(s, CharClass::AlphaNumericHyphen, pos, s.len() as int);
    lemma_run_end_is_maximal(s, CharClass::AlphaNumericHyphen, pos, s.len() as int);
    if let Some(end) = match_label(s, pos) {
        if is_at(s, end, '.') {
            lemma_dotted_labels_chars(s, end + 1);
        }
    }
}

/// A host that is read is well formed, and a host name is made of letters,
/// digits, hyphens and dots.
proof fn lemma_host_is_well_formed(s: Seq<char>, pos: int)
    requires
        0 <= pos <= s.len(),
    ensures
        match_ip_or_host(s, pos) matches Some((host, _)) ==> host.well_formed() && (
        host matches HostView::HOST(name) ==> name.len() > 0 && forall|k: int|
            0 <= k < name.len() ==> is_host_char(#[trigger] name[k])),
{
    lemma_ip_or_host_advances(s, pos);
    if match_ip(s, pos) is None {
        if let Some((HostView::HOST(name), end)) = match_host(s, pos) {
            let dotted = dotted_labels_end(s, pos);
            lemma_dotted_labels_bounds(s, pos);
            lemma_dotted_labels_chars(s, pos);
            lemma_run_end_is_maximal(s, CharClass::Alpha, dotted, s.len() as int);
            lemma_run_end_is_maximal(s, CharClass::AlphaNumericHyphen, pos, s.len() as int);
            assert forall|k: int| 0 <= k < name.len() implies is_host_char(#[trigger] name[k]) by {
                assert(name[k] == s[pos + k]);
            }
        }
    }
}

/// An address that is read is well formed.
pub proof fn lemma_uri_is_well_formed(s: Seq<char>, pos: int)
    requires
        0 <= pos <= s.len(),
    ensures
        match_uri(s, pos) matches Some((uri, _)) ==> uri_is_well_formed(uri),
{
    if let Some((_, e1)) = match_scheme(s, pos) {
        lemma_host_is_well_formed(s, e1);
        lemma_ip_or_host_advances(s, e1);
        if let Some((_, e2)) = match_ip_or_host(s, e1) {
            lemma_optional_fields_bounds(s, e2);
            let e3 = optional(match_port(s, e2), e2).1;
            lemma_optional_fields_bounds(s, e3);
            let e4 = optional(match_path(s, e3), e3).1;
            lemma_optional_fields_bounds(s, e4);
            lemma_run_all_of(s, CharClass::Path, e3, s.len() as int);
            if e4 + 1 <= s.len() {
                lemma_run_all_of(s, CharClass::Query, e4 + 1, s.len() as int);
            }
        }
    }
}

/// The name of a mention that is read holds no `]`.
pub proof fn lemma_mention_is_well_formed(s: Seq<char>, pos: int)
    requires
        0 <= pos <= s.len(),
    ensures
        match_mention(s, pos) matches Some((mention, _)) ==> all_of(
            mention.name,
            CharClass::Name,
        ),
{
    if is_at(s, pos, '@') && pos + 2 <= s.len() {
        lemma_run_all_of(s, CharClass::Name, pos + 2, s.len() as int);
    }
}

/// Every part that a text splits into is well formed.
pub proof fn lemma_parts_are_well_formed(s: Seq<char>, pos: int)
    requires
        0 <= pos <= s.len(),
    ensures
        forall|i: int|
            0 <= i < parts_from(s, pos).len() ==> part_is_well_formed(
                #[trigger] parts_from(s, pos)[i],
            ),
    decreases s.len() - pos,
{
    if pos < s.len() {
        lemma_tokens_unfold(s, pos);
        lemma_uri_is_well_formed(s, pos);
        lemma_mention_is_well_formed(s, pos);
        let end = match_part(s, pos).1;
        lemma_parts_are_well_formed(s, end);
        assert forall|i: int| 0 <= i < parts_from(s, pos).len() implies part_is_well_formed(
            #[trigger] parts_from(s, pos)[i],
        ) by {
            if i > 0 {
                assert(parts_from(s, pos)[i] == parts_from(s, end)[i - 1]);
            }
        }
    }
}

/// A first group above 255 makes no IPv4 address: where the digits at `pos`
/// denote such a number, no IP literal is read there, and the host that is
/// read is a host name.
pub proof fn lemma_ipv4_group_out_of_range(s: Seq<char>, pos: int)
    requires
        0 <= pos <= s.len(),
        match_run(s, CharClass::Digit, pos, 1, 3) is Some,
        decimal_value(s.subrange(pos, match_run(s, CharClass::Digit, pos, 1, 3).unwrap())) > 255,
    ensures
        match_ipv4(s, pos) is None,
        match_ip(s, pos) is None,
        match_host(s, pos) is Some,
        match_ip_or_host(s, pos) == match_host(s, pos),
{
    lemma_run_end_is_maximal(s, CharClass::Digit, pos, pos + 3);
    assert(CharClass::Digit.has(s[pos]));
    lemma_run_end_bounds(s, CharClass::AlphaNumericHyphen, pos + 1, s.len() as int);
    assert(match_label(s, pos) is Some);
}

} // verus!
