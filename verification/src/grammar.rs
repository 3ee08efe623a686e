//! The grammar of the markup dialect, as a mathematical definition.
//!
//! Every rule is a function of a text `s` and a position `pos` in it. A rule
//! that can fail returns `None` on a mismatch and otherwise the value it read
//! together with the position behind what it consumed. Rules never look at
//! anything in front of `pos`; [`crate::locality`] proves it.
//!
//! Alternatives are ordered and sequences are greedy: a repetition takes as
//! much as it can and is never shortened afterwards to make a later rule
//! succeed.

use vstd::prelude::*;
use crate::chars::{has_prefix_no_case, run_end, CharClass};
use crate::numbers::{all_of, decimal_value, hexa_value};
use crate::types::{HostView, IPNum, MentionView, Scheme, TextPartsView, URIView};

verus! {

/// Whether the character at `pos` is `c`.
pub open spec fn is_at(s: Seq<char>, pos: int, c: char) -> bool {
    0 <= pos < s.len() && s[pos] == c
}

/// A run of `class` characters from `pos`, at least `n` and at most `m` long:
/// the position behind the longest such run, or `None` if it is shorter than `n`.
pub open spec fn match_run(s: Seq<char>, class: CharClass, pos: int, n: nat, m: nat) -> Option<
    int,
> {
    let end = run_end(s, class, pos, pos + m);
    if end - pos >= n {
        Some(end)
    } else {
        None
    }
}

/// One or more letters, digits or hyphens.
pub open spec fn match_label(s: Seq<char>, pos: int) -> Option<int> {
    let end = run_end(s, CharClass::AlphaNumericHyphen, pos, s.len() as int);
    if end > pos {
        Some(end)
    } else {
        None
    }
}

impl Scheme {
    /// The canonical text of the scheme, with its `://`.
    pub open spec fn prefix(self) -> Seq<char> {
        match self {
            Scheme::HTTP => seq!['h', 't', 't', 'p', ':', '/', '/'],
            Scheme::HTTPS => seq!['h', 't', 't', 'p', 's', ':', '/', '/'],
        }
    }

    /// The scheme that `token` spells in full, in any mix of cases.
    pub open spec fn of_token(token: Seq<char>) -> Option<Scheme> {
        if token.len() == 7 && has_prefix_no_case(token, 0, Scheme::HTTP.prefix()) {
            Some(Scheme::HTTP)
        } else if token.len() == 8 && has_prefix_no_case(token, 0, Scheme::HTTPS.prefix()) {
            Some(Scheme::HTTPS)
        } else {
            None
        }
    }
}

/// `http://` or `https://`, in any mix of cases.
pub open spec fn match_scheme(s: Seq<char>, pos: int) -> Option<(Scheme, int)> {
    if has_prefix_no_case(s, pos, Scheme::HTTP.prefix()) {
        Some((Scheme::HTTP, pos + 7))
    } else if has_prefix_no_case(s, pos, Scheme::HTTPS.prefix()) {
        Some((Scheme::HTTPS, pos + 8))
    } else {
        None
    }
}

/// One to three decimal digits that denote a number up to 255. Of a longer
/// run of digits only the first three are read.
pub open spec fn match_ipv4_num(s: Seq<char>, pos: int) -> Option<(IPNum, int)> {
    match match_run(s, CharClass::Digit, pos, 1, 3) {
        Some(end) => {
            let value = decimal_value(s.subrange(pos, end));
            if value <= 255 {
                Some((IPNum::IPV4(value as u8), end))
            } else {
                None
            }
        },
        None => None,
    }
}

/// Up to four lower case hexadecimal digits. No digit at all reads as zero,
/// so this rule always matches.
pub open spec fn match_ipv6_num(s: Seq<char>, pos: int) -> (IPNum, int) {
    let end = run_end(s, CharClass::Hexa, pos, pos + 4);
    (IPNum::IPV6(hexa_value(s.subrange(pos, end)) as u16), end)
}

/// An IPv4 group and the `.` behind it.
pub open spec fn match_ipv4_num_dot(s: Seq<char>, pos: int) -> Option<(u8, int)> {
    match match_ipv4_num(s, pos) {
        Some((IPNum::IPV4(n), end)) => if is_at(s, end, '.') {
            Some((n, end + 1))
        } else {
            None
        },
        _ => None,
    }
}

/// Four IPv4 groups with a `.` between them.
pub open spec fn match_ipv4(s: Seq<char>, pos: int) -> Option<(HostView, int)> {
    match match_ipv4_num_dot(s, pos) {
        Some((a, e1)) => match match_ipv4_num_dot(s, e1) {
            Some((b, e2)) => match match_ipv4_num_dot(s, e2) {
                Some((c, e3)) => match match_ipv4_num(s, e3) {
                    Some((IPNum::IPV4(d), end)) => Some((HostView::IPV4(seq![a, b, c, d]), end)),
                    _ => None,
                },
                None => None,
            },
            None => None,
        },
        None => None,
    }
}

/// The leading groups of an IPv6 literal: as many `group ':'` pairs as stand
/// at `pos`, with the position behind the last `:`.
pub open spec fn ipv6_groups(s: Seq<char>, pos: int) -> (Seq<u16>, int)
    decreases s.len() - pos,
{
    let end = run_end(s, CharClass::Hexa, pos, pos + 4);
    if 0 <= pos <= end && is_at(s, end, ':') {
        let (rest, stop) = ipv6_groups(s, end + 1);
        (seq![hexa_value(s.subrange(pos, end)) as u16] + rest, stop)
    } else {
        (Seq::empty(), pos)
    }
}

/// The address that a list of at most eight groups stands for: the groups
/// fill the address from its last place backwards, and the places in front
/// of them are zero.
pub open spec fn right_aligned(groups: Seq<u16>) -> Seq<u16> {
    Seq::new(
        8,
        |i: int|
            if i < 8 - groups.len() {
                0u16
            } else {
                groups[i - (8 - groups.len())]
            },
    )
}

/// `[`, one or more `group ':'` pairs, a last group and `]`, where a group
/// may be empty. More than eight groups are a mismatch.
pub open spec fn match_ipv6(s: Seq<char>, pos: int) -> Option<(HostView, int)> {
    if is_at(s, pos, '[') {
        let (groups, p) = ipv6_groups(s, pos + 1);
        let (last, end) = match_ipv6_num(s, p);
        if groups.len() >= 1 && is_at(s, end, ']') && groups.len() + 1 <= 8 {
            Some((HostView::IPV6(right_aligned(groups.push(last.hextet().unwrap()))), end + 1))
        } else {
            None
        }
    } else {
        None
    }
}

/// An IPv4 address or, failing that, a bracketed IPv6 address.
pub open spec fn match_ip(s: Seq<char>, pos: int) -> Option<(HostView, int)> {
    match match_ipv4(s, pos) {
        Some(found) => Some(found),
        None => match_ipv6(s, pos),
    }
}

/// The position behind as many `label '.'` pairs as stand at `pos`.
pub open spec fn dotted_labels_end(s: Seq<char>, pos: int) -> int
    decreases s.len() - pos,
{
    match match_label(s, pos) {
        Some(end) => if pos < end && is_at(s, end, '.') {
            dotted_labels_end(s, end + 1)
        } else {
            pos
        },
        None => pos,
    }
}

/// A host name: one or more `label '.'` pairs and a last label of letters
/// only, or else a single label. The name is the text that was consumed.
///
/// The pairs are taken greedily. When no letter stands behind them the first
/// form fails as a whole, and the single label at `pos` is the name.
pub open spec fn match_host(s: Seq<char>, pos: int) -> Option<(HostView, int)> {
    let dotted = dotted_labels_end(s, pos);
    let end = run_end(s, CharClass::Alpha, dotted, s.len() as int);
    if dotted > pos && end > dotted {
        Some((HostView::HOST(s.subrange(pos, end)), end))
    } else {
        match match_label(s, pos) {
            Some(single) => Some((HostView::HOST(s.subrange(pos, single)), single)),
            None => None,
        }
    }
}

/// An IP literal or, failing that, a host name.
pub open spec fn match_ip_or_host(s: Seq<char>, pos: int) -> Option<(HostView, int)> {
    match match_ip(s, pos) {
        Some(found) => Some(found),
        None => match_host(s, pos),
    }
}

/// `:` and one or more decimal digits that denote a number up to 65535.
pub open spec fn match_port(s: Seq<char>, pos: int) -> Option<(u16, int)> {
    if is_at(s, pos, ':') {
        let end = run_end(s, CharClass::Digit, pos + 1, s.len() as int);
        let value = decimal_value(s.subrange(pos + 1, end));
        if end > pos + 1 && value <= 65535 {
            Some((value as u16, end))
        } else {
            None
        }
    } else {
        None
    }
}

/// One or more characters other than `?`, `#` and the space.
pub open spec fn match_path(s: Seq<char>, pos: int) -> Option<(Seq<char>, int)> {
    let end = run_end(s, CharClass::Path, pos, s.len() as int);
    if end > pos {
        Some((s.subrange(pos, end), end))
    } else {
        None
    }
}

/// `?` and one or more characters other than `#` and the space. The value
/// leaves the `?` out.
pub open spec fn match_query(s: Seq<char>, pos: int) -> Option<(Seq<char>, int)> {
    if is_at(s, pos, '?') {
        let end = run_end(s, CharClass::Query, pos + 1, s.len() as int);
        if end > pos + 1 {
            Some((s.subrange(pos + 1, end), end))
        } else {
            None
        }
    } else {
        None
    }
}

/// An optional rule: its value and end where it matched, and otherwise no
/// value and the position unchanged.
pub open spec fn optional<T>(found: Option<(T, int)>, pos: int) -> (Option<T>, int) {
    match found {
        Some((value, end)) => (Some(value), end),
        None => (None, pos),
    }
}

/// A scheme and a host, then a port, a path and a query, each of the three
/// if it is there.
pub open spec fn match_uri(s: Seq<char>, pos: int) -> Option<(URIView, int)> {
    match match_scheme(s, pos) {
        Some((scheme, e1)) => match match_ip_or_host(s, e1) {
            Some((host, e2)) => {
                let (port, e3) = optional(match_port(s, e2), e2);
                let (path, e4) = optional(match_path(s, e3), e3);
                let (query, end) = optional(match_query(s, e4), e4);
                Some((URIView { scheme, host, port, path, query }, end))
            },
            None => None,
        },
        None => None,
    }
}

/// `[`, any characters but `]`, and `]`. The name may be empty.
pub open spec fn match_name(s: Seq<char>, pos: int) -> Option<(Seq<char>, int)> {
    if is_at(s, pos, '[') {
        let end = run_end(s, CharClass::Name, pos + 1, s.len() as int);
        if is_at(s, end, ']') {
            Some((s.subrange(pos + 1, end), end + 1))
        } else {
            None
        }
    } else {
        None
    }
}

/// `(`, any characters but `)`, and `)`, where what stands between the
/// brackets is one or more decimal digits that denote a number up to
/// `u32::MAX`. Anything but a digit between the brackets is a mismatch, a
/// sign too.
pub open spec fn match_user_id(s: Seq<char>, pos: int) -> Option<(u32, int)> {
    if is_at(s, pos, '(') {
        let end = run_end(s, CharClass::UserId, pos + 1, s.len() as int);
        let token = s.subrange(pos + 1, end);
        if is_at(s, end, ')') && token.len() > 0 && all_of(token, CharClass::Digit)
            && decimal_value(token) <= u32::MAX {
            Some((decimal_value(token) as u32, end + 1))
        } else {
            None
        }
    } else {
        None
    }
}

/// `@`, a name in square brackets and a user id in round brackets.
pub open spec fn match_mention(s: Seq<char>, pos: int) -> Option<(MentionView, int)> {
    if is_at(s, pos, '@') {
        match match_name(s, pos + 1) {
            Some((name, e1)) => match match_user_id(s, e1) {
                Some((user_id, end)) => Some((MentionView { user_id, name }, end)),
                None => None,
            },
            None => None,
        }
    } else {
        None
    }
}

/// The part that starts at `pos`, for `pos` inside the text: a mention, or
/// else an address, or else the single character at `pos`.
pub open spec fn match_part(s: Seq<char>, pos: int) -> (TextPartsView, int) {
    match match_mention(s, pos) {
        Some((mention, end)) => (TextPartsView::Mention(mention), end),
        None => match match_uri(s, pos) {
            Some((uri, end)) => (TextPartsView::URI(uri), end),
            None => (TextPartsView::Other(s.subrange(pos, pos + 1)), pos + 1),
        },
    }
}

/// A part together with the stretch of the text that it was read from.
pub struct Token {
    pub part: TextPartsView,
    pub span: Seq<char>,
}

/// The parts of the text from `pos` on, each with its source.
pub open spec fn tokens_from(s: Seq<char>, pos: int) -> Seq<Token>
    decreases s.len() - pos,
{
    if 0 <= pos < s.len() {
        let (part, end) = match_part(s, pos);
        if pos < end <= s.len() {
            seq![Token { part, span: s.subrange(pos, end) }] + tokens_from(s, end)
        } else {
            Seq::empty()
        }
    } else {
        Seq::empty()
    }
}

/// The parts of the text from `pos` on.
pub open spec fn parts_from(s: Seq<char>, pos: int) -> Seq<TextPartsView> {
    tokens_from(s, pos).map_values(|token: Token| token.part)
}

/// The parts that a text splits into.
pub open spec fn parts_of(s: Seq<char>) -> Seq<TextPartsView> {
    parts_from(s, 0)
}

} // verus!
