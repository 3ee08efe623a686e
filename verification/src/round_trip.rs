//! Reading back what was rendered.
//!
//! Rendering writes a value in canonical form. The laws of this module say
//! when a rule of the grammar, applied where a text holds such a rendering,
//! reads the very value back and stops exactly behind the rendering.

use vstd::prelude::*;
use crate::chars::{lemma_run_end_unique, run_end, CharClass};
use crate::grammar::{
    ipv6_groups,
    is_at,
    match_ip,
    match_ipv4,
    match_ipv4_num,
    match_ipv4_num_dot,
    match_ipv6,
    match_ipv6_num,
    match_path,
    match_port,
    match_query,
    right_aligned,
};
use crate::numbers::{
    all_of,
    decimal_text,
    hexa_text,
    lemma_decimal_round_trip,
    lemma_hexa_round_trip,
};
use crate::render::{hextet_texts, joined, octet_texts, render_host, render_port, render_query};
use crate::types::{HostView, IPNum};

verus! {

/// Whether `u` holds `text` at `q`.
pub open spec fn holds(u: Seq<char>, q: int, text: Seq<char>) -> bool {
    0 <= q && q + text.len() <= u.len() && u.subrange(q, q + text.len()) == text
}

/// Whether a run of `class` characters cannot go on at `pos`: the text ends
/// there, or a character outside the class stands there.
pub open spec fn stops(u: Seq<char>, pos: int, class: CharClass) -> bool {
    pos == u.len() || (0 <= pos < u.len() && !class.has(u[pos]))
}

/// A text that is held at `q` is found there character by character.
pub proof fn lemma_holds_index(u: Seq<char>, q: int, text: Seq<char>)
    requires
        holds(u, q, text),
    ensures
        forall|k: int| 0 <= k < text.len() ==> #[trigger] u[q + k] == text[k],
{
    assert forall|k: int| 0 <= k < text.len() implies #[trigger] u[q + k] == text[k] by {
        assert(u.subrange(q, q + text.len())[k] == u[q + k]);
    }
}

/// Two texts, one behind the other, are held where the first is held and
/// the second is held behind it; and the other way round.
pub proof fn lemma_holds_concat(u: Seq<char>, q: int, first: Seq<char>, second: Seq<char>)
    ensures
        holds(u, q, first + second) <==> holds(u, q, first) && holds(u, q + first.len(), second),
{
    let both = first + second;
    if holds(u, q, both) {
        lemma_holds_index(u, q, both);
        assert(u.subrange(q, q + first.len()) =~= first) by {
            assert forall|k: int| 0 <= k < first.len() implies u.subrange(q, q + first.len())[k]
                == first[k] by {
                assert(u[q + k] == both[k]);
            }
        }
        assert(u.subrange(q + first.len(), q + first.len() + second.len()) =~= second) by {
            assert forall|k: int| 0 <= k < second.len() implies u.subrange(
                q + first.len(),
                q + first.len() + second.len(),
            )[k] == second[k] by {
                assert(u[q + (first.len() + k)] == both[first.len() + k]);
            }
        }
    }
    if holds(u, q, first) && holds(u, q + first.len(), second) {
        lemma_holds_index(u, q, first);
        lemma_holds_index(u, q + first.len(), second);
        assert(u.subrange(q, q + both.len()) =~= both) by {
            assert forall|k: int| 0 <= k < both.len() implies u.subrange(q, q + both.len())[k]
                == both[k] by {
                if k < first.len() {
                    assert(u[q + k] == first[k]);
                } else {
                    assert(u[q + first.len() + (k - first.len())] == second[k - first.len()]);
                }
            }
        }
    }
}

/// Where a text of `class` characters is held and the run cannot go on
/// behind it, the run that starts there is that text. A run that is limited
/// to `most` characters also ends behind a text of just `most` characters.
pub proof fn lemma_run_reads_text(
    u: Seq<char>,
    q: int,
    text: Seq<char>,
    class: CharClass,
    most: int,
)
    requires
        holds(u, q, text),
        all_of(text, class),
        text.len() <= most,
        stops(u, q + text.len(), class) || text.len() == most,
    ensures
        run_end(u, class, q, q + most) == q + text.len(),
{
    lemma_holds_index(u, q, text);
    assert forall|k: int| q <= k < q + text.len() implies class.has(#[trigger] u[k]) by {
        assert(u[q + (k - q)] == text[k - q]);
    }
    lemma_run_end_unique(u, class, q, q + most, q + text.len());
}

/// A number up to 255 has at most three decimal digits.
pub proof fn lemma_octet_text_len(n: nat)
    requires
        n <= 255,
    ensures
        1 <= decimal_text(n).len() <= 3,
        n >= 100 ==> decimal_text(n).len() == 3,
{
    reveal_with_fuel(decimal_text, 3);
}

/// A port that is rendered, with no digit behind it, is read back.
pub proof fn lemma_port_round_trip(u: Seq<char>, q: int, port: u16)
    requires
        holds(u, q, render_port(Some(port))),
        stops(u, q + render_port(Some(port)).len(), CharClass::Digit),
    ensures
        match_port(u, q) == Some((port, q + render_port(Some(port)).len())),
{
    let digits = decimal_text(port as nat);
    lemma_decimal_round_trip(port as nat);
    lemma_holds_concat(u, q, seq![':'], digits);
    lemma_holds_index(u, q, seq![':']);
    assert(u[q + 0] == ':');
    lemma_run_reads_text(u, q + 1, digits, CharClass::Digit, u.len() - (q + 1));
}

/// A path that is rendered, with `?`, `#`, a space or nothing behind it, is
/// read back.
pub proof fn lemma_path_round_trip(u: Seq<char>, q: int, path: Seq<char>)
    requires
        holds(u, q, path),
        path.len() > 0,
        all_of(path, CharClass::Path),
        stops(u, q + path.len(), CharClass::Path),
    ensures
        match_path(u, q) == Some((path, q + path.len())),
{
    lemma_run_reads_text(u, q, path, CharClass::Path, u.len() - q);
}

/// A query that is rendered, with `#`, a space or nothing behind it, is read
/// back.
pub proof fn lemma_query_round_trip(u: Seq<char>, q: int, query: Seq<char>)
    requires
        holds(u, q, render_query(Some(query))),
        query.len() > 0,
        all_of(query, CharClass::Query),
        stops(u, q + 1 + query.len(), CharClass::Query),
    ensures
        match_query(u, q) == Some((query, q + 1 + query.len())),
{
    lemma_holds_concat(u, q, seq!['?'], query);
    lemma_holds_index(u, q, seq!['?']);
    assert(u[q + 0] == '?');
    lemma_run_reads_text(u, q + 1, query, CharClass::Query, u.len() - (q + 1));
}

/// An IPv4 group that is rendered is read back, if no digit stands behind
/// it or it has three digits.
pub proof fn lemma_octet_round_trip(u: Seq<char>, q: int, group: u8)
    requires
        holds(u, q, decimal_text(group as nat)),
        stops(u, q + decimal_text(group as nat).len(), CharClass::Digit) || group >= 100,
    ensures
        match_ipv4_num(u, q) == Some(
            (IPNum::IPV4(group), q + decimal_text(group as nat).len()),
        ),
{
    let digits = decimal_text(group as nat);
    lemma_decimal_round_trip(group as nat);
    lemma_octet_text_len(group as nat);
    lemma_run_reads_text(u, q, digits, CharClass::Digit, 3);
}

/// An IPv4 group that is rendered with a `.` behind it is read back with
/// the `.`.
pub proof fn lemma_octet_dot_round_trip(u: Seq<char>, q: int, group: u8)
    requires
        holds(u, q, decimal_text(group as nat) + seq!['.']),
    ensures
        match_ipv4_num_dot(u, q) == Some((group, q + decimal_text(group as nat).len() + 1)),
{
    let digits = decimal_text(group as nat);
    lemma_holds_concat(u, q, digits, seq!['.']);
    lemma_holds_index(u, q + digits.len(), seq!['.']);
    assert(u[q + digits.len() + 0] == '.');
    lemma_octet_round_trip(u, q, group);
}

/// The text of an IPv4 address, group by group.
pub proof fn lemma_ipv4_text(groups: Seq<u8>)
    requires
        groups.len() == 4,
    ensures
        render_host(HostView::IPV4(groups)) == decimal_text(groups[0] as nat) + seq!['.']
            + decimal_text(groups[1] as nat) + seq!['.'] + decimal_text(groups[2] as nat)
            + seq!['.'] + decimal_text(groups[3] as nat),
{
    let texts = octet_texts(groups);
    reveal_with_fuel(joined, 5);
    assert(texts.drop_last().drop_last().drop_last().len() == 1);
    assert(texts.drop_last().drop_last().drop_last()[0] == texts[0]);
    assert(texts.drop_last().drop_last().last() == texts[1]);
    assert(texts.drop_last().last() == texts[2]);
    assert(texts.last() == texts[3]);
}

/// An IPv4 address that is rendered is read back, if no digit stands behind
/// it or its last group has three digits.
pub proof fn lemma_ipv4_round_trip(u: Seq<char>, q: int, groups: Seq<u8>)
    requires
        groups.len() == 4,
        holds(u, q, render_host(HostView::IPV4(groups))),
        stops(u, q + render_host(HostView::IPV4(groups)).len(), CharClass::Digit) || groups[3]
            >= 100,
    ensures
        match_ipv4(u, q) == Some(
            (HostView::IPV4(groups), q + render_host(HostView::IPV4(groups)).len()),
        ),
{
    let dot = seq!['.'];
    let a = decimal_text(groups[0] as nat) + dot;
    let b = decimal_text(groups[1] as nat) + dot;
    let c = decimal_text(groups[2] as nat) + dot;
    let d = decimal_text(groups[3] as nat);
    let text = render_host(HostView::IPV4(groups));
    let e1 = q + a.len();
    let e2 = e1 + b.len();
    let e3 = e2 + c.len();
    assert(holds(u, q, a) && holds(u, e1, b) && holds(u, e2, c) && holds(u, e3, d) && text.len()
        == a.len() + b.len() + c.len() + d.len()) by {
        lemma_ipv4_text(groups);
        assert(text =~= a + (b + (c + d)));
        lemma_holds_concat(u, q, a, b + (c + d));
        lemma_holds_concat(u, e1, b, c + d);
        lemma_holds_concat(u, e2, c, d);
    }
    assert(match_ipv4_num_dot(u, q) == Some((groups[0], e1))) by {
        lemma_octet_dot_round_trip(u, q, groups[0]);
    }
    assert(match_ipv4_num_dot(u, e1) == Some((groups[1], e2))) by {
        lemma_octet_dot_round_trip(u, e1, groups[1]);
    }
    assert(match_ipv4_num_dot(u, e2) == Some((groups[2], e3))) by {
        lemma_octet_dot_round_trip(u, e2, groups[2]);
    }
    assert(match_ipv4_num(u, e3) == Some((IPNum::IPV4(groups[3]), e3 + d.len()))) by {
        lemma_octet_round_trip(u, e3, groups[3]);
    }
    assert(seq![groups[0], groups[1], groups[2], groups[3]] =~= groups);
}

/// The text of the groups of an IPv6 address from the `i`-th on, with what
/// closes each: `:` behind every group but the last, `]` behind the last.
pub open spec fn hextets_tail(groups: Seq<u16>, i: int) -> Seq<char>
    decreases groups.len() - i,
{
    if 0 <= i < groups.len() - 1 {
        hexa_text(groups[i] as nat) + seq![':'] + hextets_tail(groups, i + 1)
    } else if i == groups.len() - 1 {
        hexa_text(groups[i] as nat) + seq![']']
    } else {
        Seq::empty()
    }
}

/// The groups joined up to the `i`-th, and the tail from the `i`-th on, make
/// up the joined groups and the closing bracket.
proof fn lemma_joined_then_tail(groups: Seq<u16>, i: int)
    requires
        1 <= i <= groups.len(),
    ensures
        joined(hextet_texts(groups), ':') + seq![']'] == joined(
            hextet_texts(groups).take(i),
            ':',
        ) + if i == groups.len() {
            seq![']']
        } else {
            seq![':'] + hextets_tail(groups, i)
        },
    decreases groups.len() - i,
{
    let texts = hextet_texts(groups);
    if i == groups.len() {
        assert(texts.take(i) =~= texts);
    } else {
        lemma_joined_then_tail(groups, i + 1);
        assert(texts.take(i + 1).drop_last() =~= texts.take(i));
        assert(texts.take(i + 1).last() == hexa_text(groups[i] as nat));
        assert(joined(texts.take(i + 1), ':') == joined(texts.take(i), ':') + seq![':']
            + hexa_text(groups[i] as nat));
        if i + 1 == groups.len() {
            assert(joined(texts.take(i), ':') + seq![':'] + hexa_text(groups[i] as nat) + seq![
                ']',
            ] =~= joined(texts.take(i), ':') + (seq![':'] + (hexa_text(groups[i] as nat) + seq![
                ']',
            ])));
        } else {
            assert(joined(texts.take(i), ':') + seq![':'] + hexa_text(groups[i] as nat) + (seq![
                ':',
            ] + hextets_tail(groups, i + 1)) =~= joined(texts.take(i), ':') + (seq![':'] + (
            hexa_text(groups[i] as nat) + seq![':'] + hextets_tail(groups, i + 1))));
        }
    }
}

/// The text of an IPv6 address is `[` and the tail of all its groups.
pub proof fn lemma_ipv6_text(groups: Seq<u16>)
    requires
        groups.len() >= 1,
    ensures
        render_host(HostView::IPV6(groups)) == seq!['['] + hextets_tail(groups, 0),
{
    let texts = hextet_texts(groups);
    lemma_joined_then_tail(groups, 1);
    assert(texts.take(1).len() == 1);
    assert(joined(texts.take(1), ':') == texts[0]);
    if groups.len() == 1 {
        assert(seq!['['] + joined(texts, ':') + seq![']'] =~= seq!['['] + (texts[0] + seq![']']));
    } else {
        assert(seq!['['] + joined(texts, ':') + seq![']'] =~= seq!['['] + (joined(texts, ':')
            + seq![']']));
        assert(texts[0] + (seq![':'] + hextets_tail(groups, 1)) =~= texts[0] + seq![':']
            + hextets_tail(groups, 1));
    }
}

/// Where the tail of the groups from the `i`-th on is held, the leading
/// groups that are read are the groups from the `i`-th up to the last but
/// one, and the last group is read behind them, up to its `]`.
proof fn lemma_hextets_tail_is_read(u: Seq<char>, q: int, groups: Seq<u16>, i: int)
    requires
        0 <= i < groups.len(),
        holds(u, q, hextets_tail(groups, i)),
    ensures
        ({
            let (leading, last_at) = ipv6_groups(u, q);
            let (last, end) = match_ipv6_num(u, last_at);
            &&& leading == groups.subrange(i, groups.len() - 1)
            &&& last == IPNum::IPV6(groups[groups.len() - 1])
            &&& is_at(u, end, ']')
            &&& end + 1 == q + hextets_tail(groups, i).len()
        }),
    decreases groups.len() - i,
{
    let digits = hexa_text(groups[i] as nat);
    lemma_hexa_round_trip(groups[i] as nat);
    if i == groups.len() - 1 {
        let close = seq![']'];
        lemma_holds_concat(u, q, digits, close);
        lemma_holds_index(u, q + digits.len(), close);
        assert(u[q + digits.len() + 0] == ']');
        lemma_run_reads_text(u, q, digits, CharClass::Hexa, 4);
        assert(u.subrange(q, q + digits.len()) == digits);
        assert(ipv6_groups(u, q) == (Seq::<u16>::empty(), q));
        assert(groups.subrange(i, groups.len() - 1) =~= Seq::<u16>::empty());
    } else {
        let colon = seq![':'];
        let rest = hextets_tail(groups, i + 1);
        assert(hextets_tail(groups, i) =~= digits + (colon + rest));
        lemma_holds_concat(u, q, digits, colon + rest);
        lemma_holds_concat(u, q + digits.len(), colon, rest);
        lemma_holds_index(u, q + digits.len(), colon);
        assert(u[q + digits.len() + 0] == ':');
        lemma_run_reads_text(u, q, digits, CharClass::Hexa, 4);
        assert(u.subrange(q, q + digits.len()) == digits);
        lemma_hextets_tail_is_read(u, q + digits.len() + 1, groups, i + 1);
        let (others, last_at) = ipv6_groups(u, q + digits.len() + 1);
        assert(ipv6_groups(u, q) == (seq![groups[i]] + others, last_at));
        assert(seq![groups[i]] + groups.subrange(i + 1, groups.len() - 1) =~= groups.subrange(
            i,
            groups.len() - 1,
        ));
    }
}

/// An IPv6 address that is rendered is read back, whatever stands behind it.
pub proof fn lemma_ipv6_round_trip(u: Seq<char>, q: int, groups: Seq<u16>)
    requires
        groups.len() == 8,
        holds(u, q, render_host(HostView::IPV6(groups))),
    ensures
        match_ipv6(u, q) == Some(
            (HostView::IPV6(groups), q + render_host(HostView::IPV6(groups)).len()),
        ),
        match_ip(u, q) == match_ipv6(u, q),
{
    lemma_ipv6_text(groups);
    let open = seq!['['];
    lemma_holds_concat(u, q, open, hextets_tail(groups, 0));
    lemma_holds_index(u, q, open);
    assert(u[q + 0] == '[');
    lemma_hextets_tail_is_read(u, q + 1, groups, 0);
    let leading = groups.subrange(0, 7);
    assert(leading.push(groups[7]) =~= groups);
    assert(right_aligned(groups) =~= groups);
    // no IPv4 address starts with a bracket
    assert(run_end(u, CharClass::Digit, q, q + 3) == q);
}

} // verus!
