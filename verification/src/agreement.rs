//! Rules read the same from texts that agree.
//!
//! A rule looks at the text from its position on, and only as far as its
//! runs go. Where two texts hold the same characters over a stretch, and in
//! both a character stands behind the stretch at which the runs of a rule
//! end, the rule reads the same from both. The laws of this module say so
//! for the rules of a host.

use vstd::prelude::*;
use crate::chars::{lemma_run_end_bounds, run_end, CharClass};
use crate::grammar::{
    dotted_labels_end,
    ipv6_groups,
    is_at,
    match_ipv6_num,
    match_host,
    match_ip_or_host,
    match_ipv4,
    match_ipv4_num,
    match_ipv4_num_dot,
    match_ipv6,
    match_label,
    match_port,
};

verus! {

/// Whether `a` from `i` on and `b` from `j` on hold the same `n` characters.
pub open spec fn agree(a: Seq<char>, i: int, b: Seq<char>, j: int, n: int) -> bool {
    &&& 0 <= i && 0 <= j && 0 <= n
    &&& i + n <= a.len() && j + n <= b.len()
    &&& a.subrange(i, i + n) == b.subrange(j, j + n)
}

/// Whether the text ends at `pos`, or holds a character outside `inside` there.
pub open spec fn ends_at(a: Seq<char>, pos: int, inside: spec_fn(char) -> bool) -> bool {
    pos == a.len() || (0 <= pos < a.len() && !inside(a[pos]))
}

/// Whether the two texts agree on `n` characters and both end, as far as
/// `inside` goes, behind them.
pub open spec fn window(
    a: Seq<char>,
    i: int,
    b: Seq<char>,
    j: int,
    n: int,
    inside: spec_fn(char) -> bool,
) -> bool {
    agree(a, i, b, j, n) && ends_at(a, i + n, inside) && ends_at(b, j + n, inside)
}

/// Whether `inside` takes in every character of a host name: letters,
/// digits, the hyphen and the dot.
pub open spec fn takes_host_chars(inside: spec_fn(char) -> bool) -> bool {
    forall|c: char| (CharClass::AlphaNumericHyphen.has(c) || c == '.') ==> #[trigger] inside(c)
}

/// The result of a rule, moved by `by` positions.
pub open spec fn shifted<T>(found: Option<(T, int)>, by: int) -> Option<(T, int)> {
    match found {
        Some((value, end)) => Some((value, end + by)),
        None => None,
    }
}

/// Texts that agree hold the same character at each place of the stretch,
/// and the same text over each part of it.
pub proof fn lemma_agree_parts(a: Seq<char>, i: int, b: Seq<char>, j: int, n: int)
    requires
        agree(a, i, b, j, n),
    ensures
        forall|k: int| 0 <= k < n ==> #[trigger] a[i + k] == b[j + k],
        forall|from: int, to: int|
            0 <= from <= to <= n ==> #[trigger] a.subrange(i + from, i + to) == b.subrange(
                j + from,
                j + to,
            ),
{
    assert forall|k: int| 0 <= k < n implies #[trigger] a[i + k] == b[j + k] by {
        assert(a.subrange(i, i + n)[k] == a[i + k]);
        assert(b.subrange(j, j + n)[k] == b[j + k]);
    }
    assert forall|from: int, to: int| 0 <= from <= to <= n implies #[trigger] a.subrange(
        i + from,
        i + to,
    ) == b.subrange(j + from, j + to) by {
        assert(a.subrange(i + from, i + to) =~= a.subrange(i, i + n).subrange(from, to));
        assert(b.subrange(j + from, j + to) =~= b.subrange(j, j + n).subrange(from, to));
    }
}

/// Texts that hold the same character, and agree behind it, agree from that
/// character on.
pub proof fn lemma_agree_from_front(a: Seq<char>, i: int, b: Seq<char>, j: int, n: int)
    requires
        n >= 1,
        0 <= i < a.len(),
        0 <= j < b.len(),
        a[i] == b[j],
        agree(a, i + 1, b, j + 1, n - 1),
    ensures
        agree(a, i, b, j, n),
{
    assert(a.subrange(i, i + n) =~= seq![a[i]] + a.subrange(i + 1, i + 1 + (n - 1)));
    assert(b.subrange(j, j + n) =~= seq![b[j]] + b.subrange(j + 1, j + 1 + (n - 1)));
}

/// A run of a class that `inside` takes in ends at the same place in both
/// texts, inside the stretch or right behind it. The limits of the two runs
/// are the same distance away, or both lie behind the stretch.
pub proof fn lemma_run_agrees(
    a: Seq<char>,
    i: int,
    b: Seq<char>,
    j: int,
    n: int,
    inside: spec_fn(char) -> bool,
    class: CharClass,
    k: int,
    limit_a: int,
    limit_b: int,
)
    requires
        window(a, i, b, j, n, inside),
        forall|c: char| class.has(c) ==> #[trigger] inside(c),
        0 <= k <= n,
        limit_a - i == limit_b - j || (limit_a >= i + n && limit_b >= j + n),
    ensures
        run_end(a, class, i + k, limit_a) - i == run_end(b, class, j + k, limit_b) - j,
        i + k <= run_end(a, class, i + k, limit_a) <= i + n,
    decreases n - k,
{
    if k < n {
        lemma_agree_parts(a, i, b, j, n);
        assert(a[i + k] == b[j + k]);
        if i + k < limit_a && class.has(a[i + k]) {
            lemma_run_agrees(a, i, b, j, n, inside, class, k + 1, limit_a, limit_b);
        }
    } else {
        if i + n < a.len() {
            assert(!inside(a[i + n]));
        }
        if j + n < b.len() {
            assert(!inside(b[j + n]));
        }
    }
}

/// Whether `c` stands at the same place of the stretch in both texts, for a
/// character that `inside` takes in.
proof fn lemma_is_at_agrees(
    a: Seq<char>,
    i: int,
    b: Seq<char>,
    j: int,
    n: int,
    inside: spec_fn(char) -> bool,
    k: int,
    c: char,
)
    requires
        window(a, i, b, j, n, inside),
        inside(c),
        0 <= k <= n,
    ensures
        is_at(a, i + k, c) == is_at(b, j + k, c),
{
    if k < n {
        lemma_agree_parts(a, i, b, j, n);
        assert(a[i + k] == b[j + k]);
    }
}

/// A label is read the same from both texts.
pub proof fn lemma_label_agrees(
    a: Seq<char>,
    i: int,
    b: Seq<char>,
    j: int,
    n: int,
    inside: spec_fn(char) -> bool,
    k: int,
)
    requires
        window(a, i, b, j, n, inside),
        takes_host_chars(inside),
        0 <= k <= n,
    ensures
        match_label(a, i + k) is Some == match_label(b, j + k) is Some,
        match_label(a, i + k) matches Some(end) ==> i + k < end <= i + n && match_label(b, j + k)
            == Some(end - i + j),
{
    assert forall|c: char| CharClass::AlphaNumericHyphen.has(c) implies #[trigger] inside(c) by {}
    lemma_run_agrees(
        a,
        i,
        b,
        j,
        n,
        inside,
        CharClass::AlphaNumericHyphen,
        k,
        a.len() as int,
        b.len() as int,
    );
}

/// The dotted labels of a host name end at the same place in both texts.
pub proof fn lemma_dotted_labels_agree(
    a: Seq<char>,
    i: int,
    b: Seq<char>,
    j: int,
    n: int,
    inside: spec_fn(char) -> bool,
    k: int,
)
    requires
        window(a, i, b, j, n, inside),
        takes_host_chars(inside),
        0 <= k <= n,
    ensures
        dotted_labels_end(a, i + k) - i == dotted_labels_end(b, j + k) - j,
        i + k <= dotted_labels_end(a, i + k) <= i + n,
    decreases n - k,
{
    lemma_label_agrees(a, i, b, j, n, inside, k);
    if let Some(end) = match_label(a, i + k) {
        assert(inside('.'));
        lemma_is_at_agrees(a, i, b, j, n, inside, end - i, '.');
        if is_at(a, end, '.') {
            assert(end < i + n) by {
                if end == i + n {
                    assert(!inside(a[i + n]));
                }
            }
            lemma_dotted_labels_agree(a, i, b, j, n, inside, end + 1 - i);
        }
    }
}

/// A host name is read the same from both texts.
pub proof fn lemma_host_agrees(
    a: Seq<char>,
    i: int,
    b: Seq<char>,
    j: int,
    n: int,
    inside: spec_fn(char) -> bool,
)
    requires
        window(a, i, b, j, n, inside),
        takes_host_chars(inside),
    ensures
        match_host(b, j) == shifted(match_host(a, i), j - i),
        match_host(a, i) matches Some((_, end)) ==> end <= i + n,
{
    lemma_dotted_labels_agree(a, i, b, j, n, inside, 0);
    let dotted = dotted_labels_end(a, i);
    assert forall|c: char| CharClass::Alpha.has(c) implies #[trigger] inside(c) by {
        assert(CharClass::AlphaNumericHyphen.has(c));
    }
    lemma_run_agrees(
        a,
        i,
        b,
        j,
        n,
        inside,
        CharClass::Alpha,
        dotted - i,
        a.len() as int,
        b.len() as int,
    );
    lemma_label_agrees(a, i, b, j, n, inside, 0);
    lemma_agree_parts(a, i, b, j, n);
    let end_a = run_end(a, CharClass::Alpha, dotted, a.len() as int);
    if dotted > i && end_a > dotted {
        assert(a.subrange(i + 0, i + (end_a - i)) == b.subrange(j + 0, j + (end_a - i)));
    } else if let Some(single) = match_label(a, i) {
        assert(a.subrange(i + 0, i + (single - i)) == b.subrange(j + 0, j + (single - i)));
    }
}

/// An IPv4 group, alone and with its dot, is read the same from both texts.
pub proof fn lemma_ipv4_num_agrees(
    a: Seq<char>,
    i: int,
    b: Seq<char>,
    j: int,
    n: int,
    inside: spec_fn(char) -> bool,
    k: int,
)
    requires
        window(a, i, b, j, n, inside),
        takes_host_chars(inside),
        0 <= k <= n,
    ensures
        match_ipv4_num(b, j + k) == shifted(match_ipv4_num(a, i + k), j - i),
        match_ipv4_num(a, i + k) matches Some((_, end)) ==> i + k < end <= i + n,
        match_ipv4_num_dot(b, j + k) == shifted(match_ipv4_num_dot(a, i + k), j - i),
        match_ipv4_num_dot(a, i + k) matches Some((_, end)) ==> i + k < end <= i + n,
{
    assert forall|c: char| CharClass::Digit.has(c) implies #[trigger] inside(c) by {
        assert(CharClass::AlphaNumericHyphen.has(c));
    }
    lemma_run_agrees(a, i, b, j, n, inside, CharClass::Digit, k, i + k + 3, j + k + 3);
    let end = run_end(a, CharClass::Digit, i + k, i + k + 3);
    lemma_agree_parts(a, i, b, j, n);
    assert(a.subrange(i + k, i + (end - i)) == b.subrange(j + k, j + (end - i)));
    assert(inside('.'));
    lemma_is_at_agrees(a, i, b, j, n, inside, end - i, '.');
    if is_at(a, end, '.') && end == i + n {
        assert(!inside(a[i + n]));
    }
}

/// An IPv4 address is read the same from both texts.
pub proof fn lemma_ipv4_agrees(
    a: Seq<char>,
    i: int,
    b: Seq<char>,
    j: int,
    n: int,
    inside: spec_fn(char) -> bool,
)
    requires
        window(a, i, b, j, n, inside),
        takes_host_chars(inside),
    ensures
        match_ipv4(b, j) == shifted(match_ipv4(a, i), j - i),
{
    lemma_ipv4_num_agrees(a, i, b, j, n, inside, 0);
    if let Some((_, e1)) = match_ipv4_num_dot(a, i) {
        lemma_ipv4_num_agrees(a, i, b, j, n, inside, e1 - i);
        if let Some((_, e2)) = match_ipv4_num_dot(a, e1) {
            lemma_ipv4_num_agrees(a, i, b, j, n, inside, e2 - i);
            if let Some((_, e3)) = match_ipv4_num_dot(a, e2) {
                lemma_ipv4_num_agrees(a, i, b, j, n, inside, e3 - i);
            }
        }
    }
}

/// A port is read the same from both texts, where `inside` takes in the
/// digits and the colon.
pub proof fn lemma_port_agrees(
    a: Seq<char>,
    i: int,
    b: Seq<char>,
    j: int,
    n: int,
    inside: spec_fn(char) -> bool,
)
    requires
        window(a, i, b, j, n, inside),
        forall|c: char| (CharClass::Digit.has(c) || c == ':') ==> #[trigger] inside(c),
    ensures
        match_port(b, j) == shifted(match_port(a, i), j - i),
{
    assert(inside(':'));
    lemma_is_at_agrees(a, i, b, j, n, inside, 0, ':');
    if is_at(a, i, ':') {
        assert(n >= 1) by {
            if n == 0 {
                assert(!inside(a[i + n]));
            }
        }
        assert forall|c: char| CharClass::Digit.has(c) implies #[trigger] inside(c) by {}
        lemma_run_agrees(
            a,
            i,
            b,
            j,
            n,
            inside,
            CharClass::Digit,
            1,
            a.len() as int,
            b.len() as int,
        );
        let end = run_end(a, CharClass::Digit, i + 1, a.len() as int);
        lemma_agree_parts(a, i, b, j, n);
        assert(a.subrange(i + 1, i + (end - i)) == b.subrange(j + 1, j + (end - i)));
    }
}

/// A run that ends inside the stretch in the first text ends at the same
/// place in the second.
pub proof fn lemma_run_agrees_inside(
    a: Seq<char>,
    i: int,
    b: Seq<char>,
    j: int,
    n: int,
    class: CharClass,
    k: int,
    limit_a: int,
    limit_b: int,
)
    requires
        agree(a, i, b, j, n),
        0 <= k <= n,
        run_end(a, class, i + k, limit_a) < i + n,
        limit_a - i == limit_b - j || (limit_a >= i + n && limit_b >= j + n),
    ensures
        run_end(b, class, j + k, limit_b) == run_end(a, class, i + k, limit_a) - i + j,
    decreases n - k,
{
    lemma_run_end_bounds(a, class, i + k, limit_a);
    if k < n {
        lemma_agree_parts(a, i, b, j, n);
        assert(a[i + k] == b[j + k]);
        if i + k < limit_a && class.has(a[i + k]) {
            lemma_run_agrees_inside(a, i, b, j, n, class, k + 1, limit_a, limit_b);
        }
    }
}

/// The groups of an IPv6 address that are read inside the stretch from the
/// first text, up to the character behind the last group, are read the same
/// from the second.
proof fn lemma_ipv6_groups_agree(a: Seq<char>, i: int, b: Seq<char>, j: int, n: int, k: int)
    requires
        agree(a, i, b, j, n),
        0 <= k <= n,
        match_ipv6_num(a, ipv6_groups(a, i + k).1).1 < i + n,
    ensures
        ({
            let (groups, last_at) = ipv6_groups(a, i + k);
            let (last, end) = match_ipv6_num(a, last_at);
            &&& ipv6_groups(b, j + k) == (groups, last_at - i + j)
            &&& match_ipv6_num(b, last_at - i + j) == (last, end - i + j)
            &&& b[end - i + j] == a[end]
            &&& i + k <= last_at <= end
        }),
    decreases n - k,
{
    let end = run_end(a, CharClass::Hexa, i + k, i + k + 4);
    lemma_run_end_bounds(a, CharClass::Hexa, i + k, i + k + 4);
    lemma_agree_parts(a, i, b, j, n);
    if is_at(a, end, ':') {
        lemma_ipv6_groups_reach(a, end + 1);
        let last_at = ipv6_groups(a, end + 1).1;
        lemma_run_end_bounds(a, CharClass::Hexa, last_at, last_at + 4);
        lemma_run_agrees_inside(a, i, b, j, n, CharClass::Hexa, k, i + k + 4, j + k + 4);
        assert(a[i + (end - i)] == b[j + (end - i)]);
        assert(a.subrange(i + k, i + (end - i)) == b.subrange(j + k, j + (end - i)));
        lemma_ipv6_groups_agree(a, i, b, j, n, end + 1 - i);
    } else {
        lemma_run_agrees_inside(a, i, b, j, n, CharClass::Hexa, k, i + k + 4, j + k + 4);
        assert(a[i + (end - i)] == b[j + (end - i)]);
        assert(a.subrange(i + k, i + (end - i)) == b.subrange(j + k, j + (end - i)));
    }
}

/// The leading groups of an IPv6 address end at or behind the place where
/// they start.
proof fn lemma_ipv6_groups_reach(a: Seq<char>, pos: int)
    requires
        0 <= pos,
    ensures
        pos <= ipv6_groups(a, pos).1,
    decreases a.len() - pos,
{
    let end = run_end(a, CharClass::Hexa, pos, pos + 4);
    lemma_run_end_bounds(a, CharClass::Hexa, pos, pos + 4);
    if is_at(a, end, ':') {
        lemma_ipv6_groups_reach(a, end + 1);
    }
}

/// An IPv6 address that is read inside the stretch from the first text is
/// read the same from the second.
pub proof fn lemma_ipv6_agrees(a: Seq<char>, i: int, b: Seq<char>, j: int, n: int)
    requires
        agree(a, i, b, j, n),
        match_ipv6(a, i) is Some,
        match_ipv6(a, i).unwrap().1 <= i + n,
    ensures
        match_ipv6(b, j) == shifted(match_ipv6(a, i), j - i),
{
    lemma_agree_parts(a, i, b, j, n);
    lemma_ipv6_groups_reach(a, i + 1);
    let last_at = ipv6_groups(a, i + 1).1;
    lemma_run_end_bounds(a, CharClass::Hexa, last_at, last_at + 4);
    assert(a[i + 0] == b[j + 0]);
    lemma_ipv6_groups_agree(a, i, b, j, n, 1);
}

/// An IPv6 address that is read is made of brackets, colons and lower case
/// hexadecimal digits.
pub proof fn lemma_ipv6_chars(a: Seq<char>, i: int)
    requires
        0 <= i,
        match_ipv6(a, i) is Some,
    ensures
        forall|k: int|
            i <= k < match_ipv6(a, i).unwrap().1 ==> CharClass::Hexa.has(#[trigger] a[k]) || a[k]
                == ':' || a[k] == '[' || a[k] == ']',
{
    lemma_ipv6_groups_chars(a, i + 1);
    let last_at = ipv6_groups(a, i + 1).1;
    lemma_run_end_is_maximal_from(a, last_at);
}

/// Between a position and the end of a group that starts there stand
/// hexadecimal digits only.
proof fn lemma_run_end_is_maximal_from(a: Seq<char>, pos: int)
    requires
        0 <= pos,
    ensures
        forall|k: int|
            pos <= k < run_end(a, CharClass::Hexa, pos, pos + 4) ==> CharClass::Hexa.has(
                #[trigger] a[k],
            ),
        pos <= run_end(a, CharClass::Hexa, pos, pos + 4),
{
    lemma_run_end_bounds(a, CharClass::Hexa, pos, pos + 4);
    if pos <= a.len() {
        crate::chars::lemma_run_end_is_maximal(a, CharClass::Hexa, pos, pos + 4);
    }
}

/// The leading groups of an IPv6 address are made of colons and lower case
/// hexadecimal digits.
proof fn lemma_ipv6_groups_chars(a: Seq<char>, pos: int)
    requires
        0 <= pos,
    ensures
        forall|k: int|
            pos <= k < ipv6_groups(a, pos).1 ==> CharClass::Hexa.has(#[trigger] a[k]) || a[k]
                == ':',
        pos <= ipv6_groups(a, pos).1,
    decreases a.len() - pos,
{
    let end = run_end(a, CharClass::Hexa, pos, pos + 4);
    lemma_run_end_is_maximal_from(a, pos);
    if is_at(a, end, ':') {
        lemma_ipv6_groups_chars(a, end + 1);
    }
}

/// A host is read the same from both texts, if neither holds a `[` at the
/// start of the stretch.
pub proof fn lemma_ip_or_host_agrees(
    a: Seq<char>,
    i: int,
    b: Seq<char>,
    j: int,
    n: int,
    inside: spec_fn(char) -> bool,
)
    requires
        window(a, i, b, j, n, inside),
        takes_host_chars(inside),
        !is_at(a, i, '['),
        !is_at(b, j, '['),
    ensures
        match_ip_or_host(b, j) == shifted(match_ip_or_host(a, i), j - i),
{
    lemma_ipv4_agrees(a, i, b, j, n, inside);
    lemma_host_agrees(a, i, b, j, n, inside);
}

} // verus!
