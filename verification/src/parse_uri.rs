//! Recognisers for addresses and their pieces.
//!
//! The functions that take a character slice and a position are the engine:
//! each implements the rule of the same name in [`crate::grammar`] and
//! returns the position behind what it consumed. The functions that take a
//! `&str` apply a rule at the start of a text and hand back what is left of it.

use vstd::prelude::*;
use vstd::string::StrSliceExecFns;
use crate::chars::{
    has_prefix_no_case,
    lemma_run_end_bounds,
    lower,
    scan,
    starts_with_no_case,
    to_chars,
    to_text,
    CharClass,
};
use crate::grammar::{
    dotted_labels_end,
    ipv6_groups,
    is_at,
    match_host,
    match_ip,
    match_ip_or_host,
    match_ipv4,
    match_ipv4_num,
    match_ipv4_num_dot,
    match_ipv6,
    match_ipv6_num,
    match_label,
    match_path,
    match_port,
    match_query,
    match_run,
    match_scheme,
    match_uri,
    right_aligned,
};
use crate::numbers::{lemma_hexa_value_bound, lemma_run_all_of, parse_decimal, parse_hexa};
use crate::types::{Host, IPNum, Scheme, URI};

verus! {

/// Whether `c` stands at `pos`.
pub(crate) fn has_char_at(input: &[char], pos: usize, c: char) -> (found: bool)
    ensures
        found == is_at(input@, pos as int, c),
        found ==> pos < usize::MAX,
{
    pos < input.len() && input[pos] == c
}

/// One or more letters, digits or hyphens from `pos` on.
pub(crate) fn alphanumerichyphen1(input: &[char], pos: usize) -> (found: Option<usize>)
    requires
        pos <= input@.len(),
    ensures
        match found {
            Some(end) => match_label(input@, pos as int) == Some(end as int) && pos < end
                <= input@.len(),
            None => match_label(input@, pos as int) is None,
        },
{
    let end = scan(input, CharClass::AlphaNumericHyphen, pos, input.len() - pos);
    if end > pos {
        Some(end)
    } else {
        None
    }
}

/// Between `n` and `m` decimal digits from `pos` on, as many as there are.
pub(crate) fn n_to_m_digits(input: &[char], pos: usize, n: usize, m: usize) -> (found: Option<
    usize,
>)
    requires
        pos <= input@.len(),
    ensures
        match found {
            Some(end) => match_run(input@, CharClass::Digit, pos as int, n as nat, m as nat)
                == Some(end as int) && pos <= end <= input@.len() && n <= end - pos <= m,
            None => match_run(input@, CharClass::Digit, pos as int, n as nat, m as nat) is None,
        },
{
    let end = scan(input, CharClass::Digit, pos, m);
    if end - pos >= n {
        Some(end)
    } else {
        None
    }
}

/// Between `n` and `m` lower case hexadecimal digits from `pos` on, as many
/// as there are.
pub(crate) fn n_to_m_hexas(input: &[char], pos: usize, n: usize, m: usize) -> (found: Option<usize>)
    requires
        pos <= input@.len(),
    ensures
        match found {
            Some(end) => match_run(input@, CharClass::Hexa, pos as int, n as nat, m as nat)
                == Some(end as int) && pos <= end <= input@.len() && n <= end - pos <= m,
            None => match_run(input@, CharClass::Hexa, pos as int, n as nat, m as nat) is None,
        },
{
    let end = scan(input, CharClass::Hexa, pos, m);
    if end - pos >= n {
        Some(end)
    } else {
        None
    }
}

/// One group of an IPv4 address.
pub(crate) fn ipv4_num(input: &[char], pos: usize) -> (found: Option<(IPNum, usize)>)
    requires
        pos <= input@.len(),
    ensures
        match found {
            Some((num, end)) => match_ipv4_num(input@, pos as int) == Some((num, end as int))
                && pos < end <= input@.len(),
            None => match_ipv4_num(input@, pos as int) is None,
        },
{
    match n_to_m_digits(input, pos, 1, 3) {
        Some(end) => {
            proof {
                lemma_run_all_of(input@, CharClass::Digit, pos as int, pos + 3);
            }
            match parse_decimal(input, pos, end, 255) {
                Some(value) => Some((IPNum::IPV4(value as u8), end)),
                None => None,
            }
        },
        None => None,
    }
}

/// One group of an IPv6 address; it may be empty, and is then zero.
pub(crate) fn ipv6_num(input: &[char], pos: usize) -> (found: (IPNum, usize))
    requires
        pos <= input@.len(),
    ensures
        match_ipv6_num(input@, pos as int) == (found.0, found.1 as int),
        pos <= found.1 <= input@.len(),
{
    match n_to_m_hexas(input, pos, 0, 4) {
        Some(end) => {
            proof {
                lemma_run_all_of(input@, CharClass::Hexa, pos as int, pos + 4);
                lemma_hexa_value_bound(input@.subrange(pos as int, end as int));
            }
            (IPNum::IPV6(parse_hexa(input, pos, end)), end)
        },
        None => {
            proof {
                lemma_run_end_bounds(input@, CharClass::Hexa, pos as int, pos + 4);
            }
            (IPNum::IPV6(0), pos)
        },
    }
}

/// An IPv4 group and the `.` behind it.
fn ipv4_num_dot(input: &[char], pos: usize) -> (found: Option<(u8, usize)>)
    requires
        pos <= input@.len(),
    ensures
        match found {
            Some((n, end)) => match_ipv4_num_dot(input@, pos as int) == Some((n, end as int))
                && pos < end <= input@.len(),
            None => match_ipv4_num_dot(input@, pos as int) is None,
        },
{
    match ipv4_num(input, pos) {
        Some((num, end)) => {
            let octet: Option<u8> = Option::<u8>::from(num);
            if has_char_at(input, end, '.') {
                Some((octet.unwrap(), end + 1))
            } else {
                None
            }
        },
        None => None,
    }
}

/// A dotted IPv4 address.
pub(crate) fn ipv4(input: &[char], pos: usize) -> (found: Option<(Host, usize)>)
    requires
        pos <= input@.len(),
    ensures
        match found {
            Some((host, end)) => match_ipv4(input@, pos as int) == Some((host@, end as int))
                && pos < end <= input@.len(),
            None => match_ipv4(input@, pos as int) is None,
        },
{
    let (a, e1) = match ipv4_num_dot(input, pos) {
        Some(found) => found,
        None => { return None; },
    };
    let (b, e2) = match ipv4_num_dot(input, e1) {
        Some(found) => found,
        None => { return None; },
    };
    let (c, e3) = match ipv4_num_dot(input, e2) {
        Some(found) => found,
        None => { return None; },
    };
    match ipv4_num(input, e3) {
        Some((num, end)) => {
            let d: Option<u8> = Option::<u8>::from(num);
            let ip: [u8; 4] = [a, b, c, d.unwrap()];
            assert(ip@ =~= seq![a, b, c, d.unwrap()]);
            Some((Host::IPV4(ip), end))
        },
        None => None,
    }
}

/// Builds an IPv6 address from its groups: the last group goes to the last
/// place, the one before it to the place before, and so on; the places that
/// are left in front stay zero. More than eight groups make no address.
pub fn ipv6_from_groups(groups: &Vec<u16>) -> (address: Option<[u16; 8]>)
    ensures
        match address {
            Some(ip) => groups@.len() <= 8 && ip@ == right_aligned(groups@),
            None => groups@.len() > 8,
        },
{
    let mut ip: [u16; 8] = [0, 0, 0, 0, 0, 0, 0, 0];
    let n: usize = groups.len();
    if n > 8 {
        return None;
    }
    let mut k: usize = 0;
    while k < n
        invariant
            n == groups@.len(),
            k <= n <= 8,
            forall|i: int|
                0 <= i < 8 ==> #[trigger] ip@[i] == if i >= 8 - k {
                    groups@[i - (8 - n)]
                } else {
                    0u16
                },
        decreases n - k,
    {
        ip[7 - k] = groups[n - 1 - k];
        k += 1;
    }
    assert(ip@ =~= right_aligned(groups@));
    Some(ip)
}

/// A bracketed IPv6 address.
pub(crate) fn ipv6(input: &[char], pos: usize) -> (found: Option<(Host, usize)>)
    requires
        pos <= input@.len(),
    ensures
        match found {
            Some((host, end)) => match_ipv6(input@, pos as int) == Some((host@, end as int))
                && pos < end <= input@.len(),
            None => match_ipv6(input@, pos as int) is None,
        },
{
    if !has_char_at(input, pos, '[') {
        return None;
    }
    let mut groups: Vec<u16> = Vec::new();
    let mut cur: usize = pos + 1;
    loop
        invariant
            pos < cur <= input@.len(),
            is_at(input@, pos as int, '['),
            groups@.len() <= 7,
            ipv6_groups(input@, pos + 1) == (
                groups@ + ipv6_groups(input@, cur as int).0,
                ipv6_groups(input@, cur as int).1,
            ),
        decreases input@.len() - cur,
    {
        let (num, end) = ipv6_num(input, cur);
        let group: Option<u16> = Option::<u16>::from(num);
        let value: u16 = group.unwrap();
        if has_char_at(input, end, ':') {
            proof {
                let (rest, stop) = ipv6_groups(input@, end + 1);
                assert(ipv6_groups(input@, cur as int) == (seq![value] + rest, stop));
                assert(groups@ + (seq![value] + rest) =~= groups@.push(value) + rest);
            }
            if groups.len() == 7 {
                return None;
            }
            groups.push(value);
            cur = end + 1;
        } else {
            proof {
                assert(ipv6_groups(input@, cur as int) == (Seq::<u16>::empty(), cur as int));
                assert(groups@ + Seq::<u16>::empty() =~= groups@);
            }
            if groups.len() >= 1 && has_char_at(input, end, ']') {
                groups.push(value);
                return match ipv6_from_groups(&groups) {
                    Some(ip) => Some((Host::IPV6(ip), end + 1)),
                    None => None,
                };
            } else {
                return None;
            }
        }
    }
}

/// An IP literal: IPv4 first, then IPv6.
pub(crate) fn ip_at(input: &[char], pos: usize) -> (found: Option<(Host, usize)>)
    requires
        pos <= input@.len(),
    ensures
        match found {
            Some((host, end)) => match_ip(input@, pos as int) == Some((host@, end as int)) && pos
                < end <= input@.len(),
            None => match_ip(input@, pos as int) is None,
        },
{
    match ipv4(input, pos) {
        Some(found) => Some(found),
        None => ipv6(input, pos),
    }
}

impl Scheme {
    /// The scheme that `origin` spells in full, in any mix of cases; `None`
    /// for any other text.
    pub fn from_token(origin: &str) -> (scheme: Option<Scheme>)
        ensures
            scheme == Scheme::of_token(origin@),
    {
        let token = to_chars(origin);
        proof {
            // the two spellings differ in their fifth character
            if has_prefix_no_case(token@, 0, Scheme::HTTP.prefix()) && has_prefix_no_case(
                token@,
                0,
                Scheme::HTTPS.prefix(),
            ) {
                assert(lower(token@[0int + 4]) == ':');
                assert(lower(token@[0int + 4]) == 's');
            }
        }
        match scheme_at(&token, 0) {
            Some((scheme, end)) => if end == token.len() {
                Some(scheme)
            } else {
                None
            },
            None => None,
        }
    }
}

/// A scheme with its `://`.
pub(crate) fn scheme_at(input: &[char], pos: usize) -> (found: Option<(Scheme, usize)>)
    requires
        pos <= input@.len(),
    ensures
        match found {
            Some((scheme, end)) => match_scheme(input@, pos as int) == Some((scheme, end as int))
                && pos < end <= input@.len(),
            None => match_scheme(input@, pos as int) is None,
        },
{
    let http: [char; 7] = ['h', 't', 't', 'p', ':', '/', '/'];
    let https: [char; 8] = ['h', 't', 't', 'p', 's', ':', '/', '/'];
    assert(http@ =~= Scheme::HTTP.prefix());
    assert(https@ =~= Scheme::HTTPS.prefix());
    if starts_with_no_case(input, pos, http.as_slice()) {
        Some((Scheme::HTTP, pos + 7))
    } else if starts_with_no_case(input, pos, https.as_slice()) {
        Some((Scheme::HTTPS, pos + 8))
    } else {
        None
    }
}

/// A host name.
pub(crate) fn host_at(input: &[char], pos: usize) -> (found: Option<(Host, usize)>)
    requires
        pos <= input@.len(),
    ensures
        match found {
            Some((host, end)) => match_host(input@, pos as int) == Some((host@, end as int))
                && pos < end <= input@.len(),
            None => match_host(input@, pos as int) is None,
        },
{
    let mut dotted: usize = pos;
    loop
        invariant
            pos <= dotted <= input@.len(),
            dotted_labels_end(input@, pos as int) == dotted_labels_end(input@, dotted as int),
        ensures
            pos <= dotted <= input@.len(),
            dotted_labels_end(input@, pos as int) == dotted,
        decreases input@.len() - dotted,
    {
        match alphanumerichyphen1(input, dotted) {
            Some(end) => {
                if has_char_at(input, end, '.') {
                    dotted = end + 1;
                } else {
                    break ;
                }
            },
            None => {
                break ;
            },
        }
    }
    if dotted > pos {
        let end = scan(input, CharClass::Alpha, dotted, input.len() - dotted);
        if end > dotted {
            return Some((Host::HOST(to_text(input, pos, end)), end));
        }
    }
    match alphanumerichyphen1(input, pos) {
        Some(single) => Some((Host::HOST(to_text(input, pos, single)), single)),
        None => None,
    }
}

/// An IP literal or, failing that, a host name.
pub(crate) fn ip_or_host_at(input: &[char], pos: usize) -> (found: Option<(Host, usize)>)
    requires
        pos <= input@.len(),
    ensures
        match found {
            Some((host, end)) => match_ip_or_host(input@, pos as int) == Some(
                (host@, end as int),
            ) && pos < end <= input@.len(),
            None => match_ip_or_host(input@, pos as int) is None,
        },
{
    match ip_at(input, pos) {
        Some(found) => Some(found),
        None => host_at(input, pos),
    }
}

/// A port with its `:`.
pub(crate) fn port_at(input: &[char], pos: usize) -> (found: Option<(u16, usize)>)
    requires
        pos <= input@.len(),
    ensures
        match found {
            Some((port, end)) => match_port(input@, pos as int) == Some((port, end as int))
                && pos < end <= input@.len(),
            None => match_port(input@, pos as int) is None,
        },
{
    if !has_char_at(input, pos, ':') {
        return None;
    }
    let end = scan(input, CharClass::Digit, pos + 1, input.len() - (pos + 1));
    if end == pos + 1 {
        return None;
    }
    proof {
        lemma_run_all_of(input@, CharClass::Digit, pos + 1, input@.len() as int);
    }
    match parse_decimal(input, pos + 1, end, 65535) {
        Some(value) => Some((value as u16, end)),
        None => None,
    }
}

/// A path.
pub(crate) fn path_at(input: &[char], pos: usize) -> (found: Option<(String, usize)>)
    requires
        pos <= input@.len(),
    ensures
        match found {
            Some((path, end)) => match_path(input@, pos as int) == Some((path@, end as int))
                && pos < end <= input@.len(),
            None => match_path(input@, pos as int) is None,
        },
{
    let end = scan(input, CharClass::Path, pos, input.len() - pos);
    if end > pos {
        Some((to_text(input, pos, end), end))
    } else {
        None
    }
}

/// A query with its `?`.
pub(crate) fn query_at(input: &[char], pos: usize) -> (found: Option<(String, usize)>)
    requires
        pos <= input@.len(),
    ensures
        match found {
            Some((query, end)) => match_query(input@, pos as int) == Some((query@, end as int))
                && pos < end <= input@.len(),
            None => match_query(input@, pos as int) is None,
        },
{
    if !has_char_at(input, pos, '?') {
        return None;
    }
    let end = scan(input, CharClass::Query, pos + 1, input.len() - (pos + 1));
    if end > pos + 1 {
        Some((to_text(input, pos + 1, end), end))
    } else {
        None
    }
}

/// An address.
pub(crate) fn uri_at(input: &[char], pos: usize) -> (found: Option<(URI, usize)>)
    requires
        pos <= input@.len(),
    ensures
        match found {
            Some((uri, end)) => match_uri(input@, pos as int) == Some((uri@, end as int)) && pos
                < end <= input@.len(),
            None => match_uri(input@, pos as int) is None,
        },
{
    let (scheme, e1) = match scheme_at(input, pos) {
        Some(found) => found,
        None => { return None; },
    };
    let (host, e2) = match ip_or_host_at(input, e1) {
        Some(found) => found,
        None => { return None; },
    };
    let (port, e3) = match port_at(input, e2) {
        Some((port, end)) => (Some(port), end),
        None => (None, e2),
    };
    let (path, e4) = match path_at(input, e3) {
        Some((path, end)) => (Some(path), end),
        None => (None, e3),
    };
    let (query, end) = match query_at(input, e4) {
        Some((query, end)) => (Some(query), end),
        None => (None, e4),
    };
    Some((URI { scheme, host, port, path, query }, end))
}

/// Reads an address at the start of `input`; returns what is left of the
/// text, and the address.
pub fn uri(input: &str) -> (found: Option<(&str, URI)>)
    ensures
        match match_uri(input@, 0) {
            Some((value, end)) => found matches Some((rest, uri)) && uri@ == value && rest@
                == input@.subrange(end, input@.len() as int),
            None => found is None,
        },
{
    let chars = to_chars(input);
    match uri_at(&chars, 0) {
        Some((uri, end)) => Some((input.substring_char(end, chars.len()), uri)),
        None => None,
    }
}

/// Reads a scheme at the start of `input`.
pub fn scheme(input: &str) -> (found: Option<(&str, Scheme)>)
    ensures
        match match_scheme(input@, 0) {
            Some((value, end)) => found matches Some((rest, scheme)) && scheme == value && rest@
                == input@.subrange(end, input@.len() as int),
            None => found is None,
        },
{
    let chars = to_chars(input);
    match scheme_at(&chars, 0) {
        Some((scheme, end)) => Some((input.substring_char(end, chars.len()), scheme)),
        None => None,
    }
}

/// Reads a host name at the start of `input`.
pub fn host(input: &str) -> (found: Option<(&str, Host)>)
    ensures
        match match_host(input@, 0) {
            Some((value, end)) => found matches Some((rest, host)) && host@ == value && rest@
                == input@.subrange(end, input@.len() as int),
            None => found is None,
        },
{
    let chars = to_chars(input);
    match host_at(&chars, 0) {
        Some((host, end)) => Some((input.substring_char(end, chars.len()), host)),
        None => None,
    }
}

/// Reads an IP literal at the start of `input`.
pub fn ip(input: &str) -> (found: Option<(&str, Host)>)
    ensures
        match match_ip(input@, 0) {
            Some((value, end)) => found matches Some((rest, host)) && host@ == value && rest@
                == input@.subrange(end, input@.len() as int),
            None => found is None,
        },
{
    let chars = to_chars(input);
    match ip_at(&chars, 0) {
        Some((host, end)) => Some((input.substring_char(end, chars.len()), host)),
        None => None,
    }
}

/// Reads an IP literal or a host name at the start of `input`.
pub fn ip_or_host(input: &str) -> (found: Option<(&str, Host)>)
    ensures
        match match_ip_or_host(input@, 0) {
            Some((value, end)) => found matches Some((rest, host)) && host@ == value && rest@
                == input@.subrange(end, input@.len() as int),
            None => found is None,
        },
{
    let chars = to_chars(input);
    match ip_or_host_at(&chars, 0) {
        Some((host, end)) => Some((input.substring_char(end, chars.len()), host)),
        None => None,
    }
}

/// Reads a port at the start of `input`.
pub fn port(input: &str) -> (found: Option<(&str, u16)>)
    ensures
        match match_port(input@, 0) {
            Some((value, end)) => found matches Some((rest, port)) && port == value && rest@
                == input@.subrange(end, input@.len() as int),
            None => found is None,
        },
{
    let chars = to_chars(input);
    match port_at(&chars, 0) {
        Some((port, end)) => Some((input.substring_char(end, chars.len()), port)),
        None => None,
    }
}

/// Reads a path at the start of `input`.
pub fn path(input: &str) -> (found: Option<(&str, String)>)
    ensures
        match match_path(input@, 0) {
            Some((value, end)) => found matches Some((rest, path)) && path@ == value && rest@
                == input@.subrange(end, input@.len() as int),
            None => found is None,
        },
{
    let chars = to_chars(input);
    match path_at(&chars, 0) {
        Some((path, end)) => Some((input.substring_char(end, chars.len()), path)),
        None => None,
    }
}

/// Reads a query at the start of `input`.
pub fn query(input: &str) -> (found: Option<(&str, String)>)
    ensures
        match match_query(input@, 0) {
            Some((value, end)) => found matches Some((rest, query)) && query@ == value && rest@
                == input@.subrange(end, input@.len() as int),
            None => found is None,
        },
{
    let chars = to_chars(input);
    match query_at(&chars, 0) {
        Some((query, end)) => Some((input.substring_char(end, chars.len()), query)),
        None => None,
    }
}

} // verus!
