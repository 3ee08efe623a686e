//! A second round of splitting and rendering.
//!
//! The rendering of a text is meant to be final: split and rendered once
//! more, it should stay as it is. This holds of every text whose parts are
//! all stable in the sense of [`part_is_stable`], and of every text that is
//! written as it is rendered; both are proved here. It does not hold of
//! every text. The rendering of a mention can hold what
//! reads as an address or as another mention: `@[@[a](1)](2)` is rendered
//! with `@[a</a>](2)` in it, which is a mention. And the rendering of
//! `http://1.2.3.0005` is `http://1.2.3.05`, whose rendering is
//! `http://1.2.3.5`.

use vstd::prelude::*;
use crate::agreement::{
    agree,
    lemma_agree_from_front,
    lemma_agree_parts,
    lemma_ipv6_agrees,
    lemma_ipv6_chars,
};
use crate::chars::{has_prefix_no_case, lemma_run_end_bounds, lower, CharClass};
use crate::grammar::{
    dotted_labels_end,
    is_at,
    match_host,
    match_ip,
    match_ip_or_host,
    match_ipv4,
    match_ipv6,
    match_label,
    match_mention,
    match_name,
    match_part,
    match_scheme,
    match_uri,
    parts_from,
    parts_of,
    tokens_from,
    Token,
};
use crate::laws::{is_plain, lemma_ipv6_advances, lemma_render_front, lemma_tokens_unfold};
use crate::numbers::{decimal_text, lemma_decimal_round_trip};
use crate::render::{render, render_mention, render_part, render_uri};
use crate::round_trip::{holds, lemma_holds_index};
use crate::read_back::{
    closed_at,
    ipv4_is_delimited,
    lemma_source_is_closed,
    lemma_uri_round_trip,
    renders_at,
};
use crate::types::{MentionView, Scheme, TextPartsView, URIView};

verus! {

/// Whether a display name holds neither `:` nor `[`. Without them, nothing
/// in the rendering of the mention reads as an address or as a mention.
pub open spec fn name_is_plain(name: Seq<char>) -> bool {
    forall|k: int| 0 <= k < name.len() ==> #[trigger] name[k] != ':' && name[k] != '['
}

/// Whether the part that starts at `p` is rendered to a text that reads as
/// it is written:
/// - an address is delimited (see [`ipv4_is_delimited`]);
/// - the name of a mention is plain (see [`name_is_plain`]);
/// - a single `@` is not followed by `[`.
pub open spec fn part_is_stable(s: Seq<char>, p: int) -> bool {
    match match_part(s, p).0 {
        TextPartsView::URI(uri) => ipv4_is_delimited(uri),
        TextPartsView::Mention(mention) => name_is_plain(mention.name),
        TextPartsView::Other(_) => !(is_at(s, p, '@') && is_at(s, p + 1, '[')),
    }
}

/// Whether every part of the text from `p` on is stable.
pub open spec fn stable_from(s: Seq<char>, p: int) -> bool
    decreases s.len() - p,
{
    let end = match_part(s, p).1;
    if 0 <= p < end <= s.len() {
        part_is_stable(s, p) && stable_from(s, end)
    } else {
        true
    }
}

/// Whether no part of the text from `p` on is a mention.
pub open spec fn mention_free_from(s: Seq<char>, p: int) -> bool
    decreases s.len() - p,
{
    let end = match_part(s, p).1;
    if 0 <= p < end <= s.len() {
        !(match_part(s, p).0 is Mention) && mention_free_from(s, end)
    } else {
        true
    }
}

/// Whether `u` from `q` on is the rendering of the parts of `s` from `p` on.
pub open spec fn synced(s: Seq<char>, p: int, u: Seq<char>, q: int) -> bool {
    &&& 0 <= p <= s.len()
    &&& 0 <= q <= u.len()
    &&& u.subrange(q, u.len() as int) == render(parts_from(s, p))
}

/// Whether `u` from `q` on is rendered as it is written.
pub open spec fn renders_as_itself_from(u: Seq<char>, q: int) -> bool {
    render(parts_from(u, q)) == u.subrange(q, u.len() as int)
}

/// Whether `c` stands nowhere in the text.
pub open spec fn free_of(text: Seq<char>, c: char) -> bool {
    forall|k: int| 0 <= k < text.len() ==> #[trigger] text[k] != c
}

/// The rendering of an address starts with `h` and has at least seven
/// characters.
proof fn lemma_render_uri_start(uri: URIView)
    ensures
        render_uri(uri).len() >= 7,
        render_uri(uri)[0] == 'h',
{
}

/// The rendering of a mention with a plain name starts with `<`, ends with
/// `</a>`, and holds neither `:` nor `[`.
proof fn lemma_anchor_chars(mention: MentionView)
    ensures
        render_mention(mention).len() >= 5,
        render_mention(mention)[0] == '<',
        name_is_plain(mention.name) ==> ({
            let text = render_mention(mention);
            let n = text.len() as int;
            &&& free_of(text, ':')
            &&& free_of(text, '[')
            &&& text[n - 4] == '<' && text[n - 3] == '/' && text[n - 2] == 'a' && text[n - 1]
                == '>'
        }),
{
    reveal_strlit("<a href=\"#ToReplace-id-");
    reveal_strlit("\">@");
    reveal_strlit("</a>");
    let open = "<a href=\"#ToReplace-id-"@;
    let middle = "\">@"@;
    let close = "</a>"@;
    let id = decimal_text(mention.user_id as nat);
    let name = mention.name;
    let text = render_mention(mention);
    lemma_decimal_round_trip(mention.user_id as nat);
    assert(text == open + id + middle + name + close);
    assert(text.len() == open.len() + id.len() + middle.len() + name.len() + close.len());
    assert(text[0] == open[0]);
    if name_is_plain(name) {
        let n = text.len() as int;
        assert(free_of(open, ':') && free_of(open, '['));
        assert(free_of(middle, ':') && free_of(middle, '['));
        assert(free_of(close, ':') && free_of(close, '['));
        assert(free_of(id, ':') && free_of(id, '[')) by {
            assert forall|k: int| 0 <= k < id.len() implies #[trigger] id[k] != ':' && id[k]
                != '[' by {
                assert(CharClass::Digit.has(id[k]));
            }
        }
        assert(free_of(name, ':') && free_of(name, '['));
        lemma_free_of_concat(open, id, ':');
        lemma_free_of_concat(open + id, middle, ':');
        lemma_free_of_concat(open + id + middle, name, ':');
        lemma_free_of_concat(open + id + middle + name, close, ':');
        lemma_free_of_concat(open, id, '[');
        lemma_free_of_concat(open + id, middle, '[');
        lemma_free_of_concat(open + id + middle, name, '[');
        lemma_free_of_concat(open + id + middle + name, close, '[');
        assert(text[n - 4] == close[0]);
        assert(text[n - 3] == close[1]);
        assert(text[n - 2] == close[2]);
        assert(text[n - 1] == close[3]);
    }
}

/// Two texts, one behind the other, are free of a character that both are
/// free of.
proof fn lemma_free_of_concat(first: Seq<char>, second: Seq<char>, c: char)
    requires
        free_of(first, c),
        free_of(second, c),
    ensures
        free_of(first + second, c),
{
    let both = first + second;
    assert forall|k: int| 0 <= k < both.len() implies #[trigger] both[k] != c by {
        if k < first.len() {
            assert(both[k] == first[k]);
        } else {
            assert(both[k] == second[k - first.len()]);
        }
    }
}

/// What the part at `p` has to do with the character at `p`: a mention
/// starts with `@`, an address with `h` or `H`, and a single character is
/// the character that stands there, where neither of the two is read.
proof fn lemma_first_part(s: Seq<char>, p: int)
    requires
        0 <= p < s.len(),
    ensures
        match_part(s, p).0 is Mention ==> s[p] == '@',
        match_part(s, p).0 is URI ==> lower(s[p]) == 'h' && match_mention(s, p) is None
            && match_uri(s, p) == Some((match_part(s, p).0->URI_0, match_part(s, p).1)),
        match_part(s, p).0 is Other ==> match_part(s, p) == (
            TextPartsView::Other(seq![s[p]]),
            p + 1,
        ) && match_uri(s, p) is None && match_mention(s, p) is None,
{
    if let Some((scheme, _)) = match_scheme(s, p) {
        assert(lower(s[p + 0]) == scheme.prefix()[0]);
    }
    assert(s.subrange(p, p + 1) =~= seq![s[p]]);
}

/// One step along two texts that are in step: the rendering of the part at
/// `p` is held at `q`, and the texts are in step again behind the two.
proof fn lemma_synced_step(s: Seq<char>, p: int, u: Seq<char>, q: int)
    requires
        synced(s, p, u, q),
        p < s.len(),
    ensures
        ({
            let (part, end) = match_part(s, p);
            let text = render_part(part);
            &&& p < end <= s.len()
            &&& text.len() >= 1
            &&& q + text.len() <= u.len()
            &&& holds(u, q, text)
            &&& synced(s, end, u, q + text.len())
            &&& part is Other ==> u[q] == s[p] && text.len() == 1 && end == p + 1
            &&& part is URI ==> u[q] == 'h'
            &&& part is Mention ==> u[q] == '<'
        }),
{
    lemma_tokens_unfold(s, p);
    lemma_first_part(s, p);
    let (part, end) = match_part(s, p);
    let text = render_part(part);
    let rest = render(parts_from(s, end));
    lemma_render_front(part, parts_from(s, end));
    let tail = u.subrange(q, u.len() as int);
    assert(tail == text + rest);
    assert(tail.len() == text.len() + rest.len());
    assert(u.subrange(q, q + text.len()) =~= text) by {
        assert forall|k: int| 0 <= k < text.len() implies u.subrange(q, q + text.len())[k]
            == text[k] by {
            assert(tail[k] == u[q + k]);
        }
    }
    assert(u.subrange(q + text.len(), u.len() as int) =~= rest) by {
        assert forall|k: int| 0 <= k < rest.len() implies u.subrange(
            q + text.len(),
            u.len() as int,
        )[k] == rest[k] by {
            assert(tail[text.len() + k] == u[q + text.len() + k]);
        }
    }
    match part {
        TextPartsView::URI(uri) => {
            lemma_render_uri_start(uri);
            assert(tail[0] == u[q + 0]);
        },
        TextPartsView::Other(c) => {
            assert(tail[0] == u[q + 0]);
        },
        TextPartsView::Mention(mention) => {
            lemma_anchor_chars(mention);
            assert(tail[0] == u[q + 0]);
        },
    }
}

/// Two texts that are in step end together.
proof fn lemma_synced_end(s: Seq<char>, p: int, u: Seq<char>, q: int)
    requires
        synced(s, p, u, q),
    ensures
        p == s.len() <==> q == u.len(),
{
    if p < s.len() {
        lemma_synced_step(s, p, u, q);
    } else {
        assert(parts_from(s, p) =~= Seq::<TextPartsView>::empty());
        assert(render(parts_from(s, p)).len() == 0);
        assert(u.subrange(q, u.len() as int).len() == 0);
    }
}

/// Along a stretch of `u` without `h` and `<`, the two texts hold the same
/// characters and stay in step: every part there is a single character.
proof fn lemma_walk(s: Seq<char>, p: int, u: Seq<char>, q: int, n: int)
    requires
        synced(s, p, u, q),
        0 <= n,
        q + n <= u.len(),
        forall|k: int| q <= k < q + n ==> #[trigger] u[k] != 'h' && u[k] != '<',
    ensures
        p + n <= s.len(),
        agree(s, p, u, q, n),
        synced(s, p + n, u, q + n),
    decreases n,
{
    if n == 0 {
        assert(s.subrange(p, p + 0) =~= u.subrange(q, q + 0));
    } else {
        lemma_synced_end(s, p, u, q);
        lemma_synced_step(s, p, u, q);
        assert(u[q] != 'h' && u[q] != '<');
        lemma_walk(s, p + 1, u, q + 1, n - 1);
        lemma_agree_from_front(s, p, u, q, n);
    }
}

/// What closes an address in `s` closes its rendering in `u`.
proof fn lemma_closed_is_rendered(s: Seq<char>, end: int, u: Seq<char>, q: int, has_query: bool)
    requires
        synced(s, end, u, q),
        closed_at(s, end, has_query),
    ensures
        closed_at(u, q, has_query),
{
    lemma_synced_end(s, end, u, q);
    if end < s.len() {
        lemma_synced_step(s, end, u, q);
        lemma_first_part(s, end);
        if is_at(s, end, '?') {
            lemma_synced_end(s, end + 1, u, q + 1);
            if end + 1 < s.len() {
                lemma_synced_step(s, end + 1, u, q + 1);
                lemma_first_part(s, end + 1);
            }
        }
    }
}

/// An address among the parts of `s` is read back from its rendering.
proof fn lemma_uri_part_is_read_back(s: Seq<char>, p: int, u: Seq<char>, q: int)
    requires
        synced(s, p, u, q),
        p < s.len(),
        match_part(s, p).0 is URI,
        ipv4_is_delimited(match_part(s, p).0->URI_0),
    ensures
        match_part(u, q) == (match_part(s, p).0, q + render_part(match_part(s, p).0).len()),
{
    let (part, end) = match_part(s, p);
    let uri = part->URI_0;
    lemma_first_part(s, p);
    lemma_synced_step(s, p, u, q);
    lemma_source_is_closed(s, p);
    lemma_closed_is_rendered(s, end, u, q + render_uri(uri).len(), uri.query is Some);
    assert(renders_at(s, p, u, q));
    lemma_uri_round_trip(s, p, u, q);
}

/// A text that holds the scheme that `u` holds, letter for letter, holds the
/// same scheme.
proof fn lemma_scheme_is_copied(u: Seq<char>, q: int, s: Seq<char>, p: int)
    requires
        match_scheme(u, q) is Some,
        agree(s, p, u, q, match_scheme(u, q).unwrap().1 - q),
    ensures
        match_scheme(s, p) == Some(
            (match_scheme(u, q).unwrap().0, match_scheme(u, q).unwrap().1 - q + p),
        ),
{
    let (scheme, end) = match_scheme(u, q).unwrap();
    let text = scheme.prefix();
    lemma_agree_parts(s, p, u, q, end - q);
    assert forall|k: int| 0 <= k < text.len() implies lower(#[trigger] s[p + k]) == text[k] by {
        assert(s[p + k] == u[q + k]);
        assert(lower(u[q + k]) == text[k]);
    }
    if scheme == Scheme::HTTPS {
        if has_prefix_no_case(s, p, Scheme::HTTP.prefix()) {
            assert(lower(s[p + 4]) == Scheme::HTTP.prefix()[4]);
            assert(s[p + 4] == u[q + 4]);
            assert(lower(u[q + 4]) == text[4]);
        }
    }
}

/// Where no host is read from `s`, none is read from `u` either.
proof fn lemma_no_new_host(s: Seq<char>, p: int, u: Seq<char>, q: int)
    requires
        synced(s, p, u, q),
        match_ip_or_host(s, p) is None,
    ensures
        match_ip_or_host(u, q) is None,
{
    lemma_synced_end(s, p, u, q);
    lemma_run_end_bounds(u, CharClass::AlphaNumericHyphen, q, u.len() as int);
    lemma_run_end_bounds(u, CharClass::Digit, q, q + 3);
    lemma_run_end_bounds(s, CharClass::AlphaNumericHyphen, p, s.len() as int);
    if q < u.len() {
        lemma_synced_step(s, p, u, q);
        lemma_first_part(s, p);
        assert(match_label(s, p) is None);
        lemma_run_end_bounds(s, CharClass::AlphaNumericHyphen, p + 1, s.len() as int);
        assert(!CharClass::AlphaNumericHyphen.has(s[p]));
        assert(!(match_part(s, p).0 is URI));
        assert(!CharClass::AlphaNumericHyphen.has(u[q]));
        assert(match_label(u, q) is None);
        assert(dotted_labels_end(u, q) == q);
        assert(match_host(u, q) is None);
        assert(match_ipv4(u, q) is None);
        if let Some((_, end)) = match_ipv6(u, q) {
            lemma_ipv6_advances(u, q);
            lemma_ipv6_chars(u, q);
            lemma_walk(s, p, u, q, end - q);
            assert(agree(u, q, s, p, end - q));
            lemma_ipv6_agrees(u, q, s, p, end - q);
            lemma_run_end_bounds(s, CharClass::Digit, p, p + 3);
            assert(match_ipv4(s, p) is None);
            assert(match_ip(s, p) is Some);
        }
    }
}

/// Where no address is read from `s` at a single character, none is read
/// from `u` at the same character.
proof fn lemma_no_new_uri(s: Seq<char>, p: int, u: Seq<char>, q: int)
    requires
        synced(s, p, u, q),
        p < s.len(),
        match_part(s, p).0 is Other,
    ensures
        match_uri(u, q) is None,
{
    lemma_first_part(s, p);
    lemma_synced_step(s, p, u, q);
    if let Some((scheme, end)) = match_scheme(u, q) {
        let text = scheme.prefix();
        let n = end - q;
        assert forall|k: int| q + 1 <= k < q + 1 + (n - 1) implies #[trigger] u[k] != 'h' && u[k]
            != '<' by {
            assert(lower(u[q + (k - q)]) == text[k - q]);
        }
        lemma_walk(s, p + 1, u, q + 1, n - 1);
        lemma_agree_from_front(s, p, u, q, n);
        lemma_scheme_is_copied(u, q, s, p);
        assert(match_ip_or_host(s, p + n) is None);
        lemma_no_new_host(s, p + n, u, q + n);
    }
}

/// A single character among the parts of `s` is read back from its
/// rendering.
proof fn lemma_other_part_is_read_back(s: Seq<char>, p: int, u: Seq<char>, q: int)
    requires
        synced(s, p, u, q),
        p < s.len(),
        match_part(s, p).0 is Other,
        part_is_stable(s, p),
    ensures
        match_part(u, q) == (match_part(s, p).0, q + 1),
{
    lemma_first_part(s, p);
    lemma_synced_step(s, p, u, q);
    lemma_no_new_uri(s, p, u, q);
    assert(u.subrange(q, q + 1) =~= seq![s[p]]);
    if is_at(u, q, '@') {
        lemma_synced_end(s, p + 1, u, q + 1);
        if p + 1 < s.len() {
            lemma_synced_step(s, p + 1, u, q + 1);
            lemma_first_part(s, p + 1);
            assert(u[q + 1] != '[');
        }
        assert(match_name(u, q + 1) is None);
    }
}

/// Inside the rendering of a mention with a plain name, every part is a
/// single character.
proof fn lemma_anchor_is_read_as_characters(
    u: Seq<char>,
    q: int,
    mention: MentionView,
    x: int,
)
    requires
        holds(u, q, render_mention(mention)),
        name_is_plain(mention.name),
        q <= x < q + render_mention(mention).len(),
    ensures
        match_part(u, x) == (TextPartsView::Other(u.subrange(x, x + 1)), x + 1),
{
    let text = render_mention(mention);
    let n = text.len() as int;
    lemma_anchor_chars(mention);
    lemma_holds_index(u, q, text);
    assert(u[q + (x - q)] == text[x - q]);
    // no mention starts here: no `[` stands in the rendering, and its last character is no `@`
    if is_at(u, x, '@') {
        assert(x - q < n - 1);
        assert(u[q + (x + 1 - q)] == text[x + 1 - q]);
        assert(match_name(u, x + 1) is None);
    }
    // no address starts here: a scheme has its `:` four or five places on, and `t` one place on
    if let Some((scheme, _)) = match_scheme(u, x) {
        let pattern = scheme.prefix();
        assert(lower(u[x + 0]) == pattern[0]);
        assert(lower(u[x + 1]) == pattern[1]);
        assert(lower(u[x + 4]) == pattern[4]);
        assert(lower(u[x + 5]) == pattern[5]);
        if x + 1 < q + n {
            assert(u[q + (x + 1 - q)] == text[x + 1 - q]);
        }
        if x + 4 < q + n {
            assert(u[q + (x + 4 - q)] == text[x + 4 - q]);
        }
        if x + 5 < q + n {
            assert(u[q + (x + 5 - q)] == text[x + 5 - q]);
        }
        assert(false);
    }
}

/// A stretch of single characters is rendered as it is written.
proof fn lemma_characters_render_as_themselves(u: Seq<char>, x: int, end: int)
    requires
        0 <= x <= end <= u.len(),
        forall|y: int|
            x <= y < end ==> #[trigger] match_part(u, y) == (
                TextPartsView::Other(u.subrange(y, y + 1)),
                y + 1,
            ),
    ensures
        render(parts_from(u, x)) == u.subrange(x, end) + render(parts_from(u, end)),
    decreases end - x,
{
    if x < end {
        lemma_tokens_unfold(u, x);
        assert(match_part(u, x) == (TextPartsView::Other(u.subrange(x, x + 1)), x + 1));
        lemma_render_front(TextPartsView::Other(u.subrange(x, x + 1)), parts_from(u, x + 1));
        lemma_characters_render_as_themselves(u, x + 1, end);
        assert(u.subrange(x, x + 1) + (u.subrange(x + 1, end) + render(parts_from(u, end)))
            =~= u.subrange(x, end) + render(parts_from(u, end)));
    } else {
        assert(u.subrange(x, end) + render(parts_from(u, end)) =~= render(parts_from(u, end)));
    }
}

/// The rendering of stable parts is rendered as it is written.
pub proof fn lemma_rendering_renders_as_itself(s: Seq<char>, p: int, u: Seq<char>, q: int)
    requires
        synced(s, p, u, q),
        stable_from(s, p),
    ensures
        renders_as_itself_from(u, q),
    decreases s.len() - p,
{
    lemma_synced_end(s, p, u, q);
    if p < s.len() {
        lemma_first_part(s, p);
        lemma_synced_step(s, p, u, q);
        let (part, end) = match_part(s, p);
        let text = render_part(part);
        let behind = q + text.len();
        lemma_rendering_renders_as_itself(s, end, u, behind);
        assert(u.subrange(q, behind) + u.subrange(behind, u.len() as int) =~= u.subrange(
            q,
            u.len() as int,
        ));
        match part {
            TextPartsView::URI(uri) => {
                lemma_uri_part_is_read_back(s, p, u, q);
                lemma_tokens_unfold(u, q);
                lemma_render_front(part, parts_from(u, behind));
            },
            TextPartsView::Other(_) => {
                lemma_other_part_is_read_back(s, p, u, q);
                lemma_tokens_unfold(u, q);
                lemma_render_front(part, parts_from(u, behind));
            },
            TextPartsView::Mention(mention) => {
                assert forall|y: int| q <= y < behind implies #[trigger] match_part(u, y) == (
                    TextPartsView::Other(u.subrange(y, y + 1)),
                    y + 1,
                ) by {
                    lemma_anchor_is_read_as_characters(u, q, mention, y);
                }
                lemma_characters_render_as_themselves(u, q, behind);
            },
        }
    } else {
        assert(parts_from(u, q) =~= Seq::<TextPartsView>::empty());
        assert(u.subrange(q, u.len() as int) =~= Seq::<char>::empty());
    }
}

/// A second round of splitting and rendering changes nothing: the rendering
/// of a text whose parts are all stable is rendered as itself.
pub proof fn lemma_second_round_changes_nothing(s: Seq<char>)
    requires
        stable_from(s, 0),
    ensures
        render(parts_of(render(parts_of(s)))) == render(parts_of(s)),
{
    let u = render(parts_of(s));
    assert(u.subrange(0, u.len() as int) =~= u);
    lemma_rendering_renders_as_itself(s, 0, u, 0);
}

/// The parts of `s` from `p` on are read back from their rendering, if they
/// are stable and none of them is a mention.
pub proof fn lemma_parts_are_read_back(s: Seq<char>, p: int, u: Seq<char>, q: int)
    requires
        synced(s, p, u, q),
        stable_from(s, p),
        mention_free_from(s, p),
    ensures
        parts_from(u, q) == parts_from(s, p),
    decreases s.len() - p,
{
    lemma_synced_end(s, p, u, q);
    if p < s.len() {
        lemma_tokens_unfold(s, p);
        lemma_first_part(s, p);
        lemma_synced_step(s, p, u, q);
        let (part, end) = match_part(s, p);
        match part {
            TextPartsView::URI(uri) => {
                lemma_uri_part_is_read_back(s, p, u, q);
            },
            TextPartsView::Other(_) => {
                lemma_other_part_is_read_back(s, p, u, q);
            },
            TextPartsView::Mention(_) => {},
        }
        lemma_tokens_unfold(u, q);
        lemma_parts_are_read_back(s, end, u, q + render_part(part).len());
    } else {
        assert(parts_from(s, p) =~= Seq::<TextPartsView>::empty());
        assert(parts_from(u, q) =~= Seq::<TextPartsView>::empty());
    }
}

/// Rendering keeps the values: the rendering of a text without mentions,
/// whose parts are all stable, splits into the parts of the text.
pub proof fn lemma_rendering_keeps_the_parts(s: Seq<char>)
    requires
        stable_from(s, 0),
        mention_free_from(s, 0),
    ensures
        parts_of(render(parts_of(s))) == parts_of(s),
{
    let u = render(parts_of(s));
    assert(u.subrange(0, u.len() as int) =~= u);
    lemma_parts_are_read_back(s, 0, u, 0);
}

/// Whether a token is written in the text as its part is rendered.
pub open spec fn is_canonical(token: Token) -> bool {
    render_part(token.part) == token.span
}

/// Whether every token of the text from `pos` on is written as it is rendered.
pub open spec fn all_canonical_from(s: Seq<char>, pos: int) -> bool {
    forall|i: int|
        0 <= i < tokens_from(s, pos).len() ==> is_canonical(#[trigger] tokens_from(s, pos)[i])
}

/// A single character is always written as it is rendered.
pub proof fn lemma_character_is_canonical(s: Seq<char>, pos: int)
    requires
        0 <= pos < s.len(),
        match_part(s, pos).0 is Other,
    ensures
        is_canonical(
            Token { part: match_part(s, pos).0, span: s.subrange(pos, match_part(s, pos).1) },
        ),
{
}

/// A text whose tokens are all written as they are rendered is rendered as
/// itself, from any token on.
pub proof fn lemma_canonical_text_from(s: Seq<char>, pos: int)
    requires
        0 <= pos <= s.len(),
        all_canonical_from(s, pos),
    ensures
        render(parts_from(s, pos)) == s.subrange(pos, s.len() as int),
    decreases s.len() - pos,
{
    if pos < s.len() {
        lemma_tokens_unfold(s, pos);
        let (part, end) = match_part(s, pos);
        let first = Token { part, span: s.subrange(pos, end) };
        let others = tokens_from(s, end);
        assert(tokens_from(s, pos)[0] == first);
        assert forall|i: int| 0 <= i < others.len() implies is_canonical(#[trigger] others[i]) by {
            assert(tokens_from(s, pos)[i + 1] == others[i]);
        }
        lemma_canonical_text_from(s, end);
        lemma_render_front(part, parts_from(s, end));
        assert(s.subrange(pos, end) + s.subrange(end, s.len() as int) =~= s.subrange(
            pos,
            s.len() as int,
        ));
    } else {
        assert(parts_from(s, pos) =~= Seq::<TextPartsView>::empty());
        assert(s.subrange(pos, s.len() as int) =~= Seq::<char>::empty());
    }
}

/// Rendering is stable on canonical text: a text whose tokens are all
/// written as they are rendered is rendered as itself, and so a second round
/// of splitting and rendering changes nothing.
pub proof fn lemma_canonical_text_is_stable(s: Seq<char>)
    requires
        all_canonical_from(s, 0),
    ensures
        render(parts_of(s)) == s,
        render(parts_of(render(parts_of(s)))) == render(parts_of(s)),
{
    lemma_canonical_text_from(s, 0);
    assert(s.subrange(0, s.len() as int) =~= s);
}

/// Rendering is stable on plain text: a text without any mention or address
/// is rendered as itself.
pub proof fn lemma_plain_text_is_stable(s: Seq<char>)
    requires
        is_plain(s),
    ensures
        render(parts_of(s)) == s,
        render(parts_of(render(parts_of(s)))) == render(parts_of(s)),
{
    lemma_plain_tokens_are_canonical(s, 0);
    lemma_canonical_text_is_stable(s);
}

/// In a text without any mention or address every token is a single
/// character, written as it is rendered.
proof fn lemma_plain_tokens_are_canonical(s: Seq<char>, pos: int)
    requires
        is_plain(s),
        0 <= pos <= s.len(),
    ensures
        all_canonical_from(s, pos),
    decreases s.len() - pos,
{
    if pos < s.len() {
        lemma_tokens_unfold(s, pos);
        assert(match_mention(s, pos) is None && match_uri(s, pos) is None);
        lemma_plain_tokens_are_canonical(s, pos + 1);
        let others = tokens_from(s, pos + 1);
        assert forall|i: int| 0 <= i < tokens_from(s, pos).len() implies is_canonical(
            #[trigger] tokens_from(s, pos)[i],
        ) by {
            if i > 0 {
                assert(tokens_from(s, pos)[i] == others[i - 1]);
            }
        }
    }
}

} // verus!
