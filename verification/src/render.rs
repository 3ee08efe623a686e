//! The display form of parts.
//!
//! An address is written back in canonical form: the scheme in lower case,
//! numbers without leading zeros, and an IPv6 address with all its eight
//! groups, in lower case hexadecimal. A mention becomes an anchor element;
//! its display name is copied as it is, so a caller that places the result in
//! a page has to escape it. Any other part is the character itself.

use vstd::prelude::*;
use vstd::string::StringExecFns;
use crate::numbers::{decimal_text, hexa_text, push_decimal, push_hexa};
use crate::types::{
    parts_view,
    Host,
    HostView,
    Mention,
    MentionView,
    Scheme,
    TextParts,
    TextPartsView,
    URIView,
    URI,
};

verus! {

/// The texts joined into one, with `separator` between each two of them.
pub open spec fn joined(texts: Seq<Seq<char>>, separator: char) -> Seq<char>
    decreases texts.len(),
{
    if texts.len() == 0 {
        Seq::empty()
    } else if texts.len() == 1 {
        texts[0]
    } else {
        joined(texts.drop_last(), separator) + seq![separator] + texts.last()
    }
}

/// The groups of an IPv4 address as decimal numbers.
pub open spec fn octet_texts(groups: Seq<u8>) -> Seq<Seq<char>> {
    Seq::new(groups.len(), |i: int| decimal_text(groups[i] as nat))
}

/// The groups of an IPv6 address as hexadecimal numbers.
pub open spec fn hextet_texts(groups: Seq<u16>) -> Seq<Seq<char>> {
    Seq::new(groups.len(), |i: int| hexa_text(groups[i] as nat))
}

/// The text of a host: a name as it is, an IPv4 address as dotted decimal
/// numbers, an IPv6 address in square brackets with `:` between its groups.
pub open spec fn render_host(host: HostView) -> Seq<char> {
    match host {
        HostView::HOST(name) => name,
        HostView::IPV4(groups) => joined(octet_texts(groups), '.'),
        HostView::IPV6(groups) => seq!['['] + joined(hextet_texts(groups), ':') + seq![']'],
    }
}

/// The text of a port: `:` and the number, or nothing.
pub open spec fn render_port(port: Option<u16>) -> Seq<char> {
    match port {
        Some(number) => seq![':'] + decimal_text(number as nat),
        None => Seq::empty(),
    }
}

/// The text of a path: the path, or nothing.
pub open spec fn render_path(path: Option<Seq<char>>) -> Seq<char> {
    match path {
        Some(text) => text,
        None => Seq::empty(),
    }
}

/// The text of a query: `?` and the query, or nothing.
pub open spec fn render_query(query: Option<Seq<char>>) -> Seq<char> {
    match query {
        Some(text) => seq!['?'] + text,
        None => Seq::empty(),
    }
}

/// The text of an address: scheme, host, port, path and query, in this order.
pub open spec fn render_uri(uri: URIView) -> Seq<char> {
    uri.scheme.prefix() + render_host(uri.host) + render_port(uri.port) + render_path(uri.path)
        + render_query(uri.query)
}

/// The anchor element that stands for a mention. The name is not escaped.
pub open spec fn render_mention(mention: MentionView) -> Seq<char> {
    "<a href=\"#ToReplace-id-"@ + decimal_text(mention.user_id as nat) + "\">@"@ + mention.name
        + "</a>"@
}

/// The text of one part.
pub open spec fn render_part(part: TextPartsView) -> Seq<char> {
    match part {
        TextPartsView::URI(uri) => render_uri(uri),
        TextPartsView::Mention(mention) => render_mention(mention),
        TextPartsView::Other(text) => text,
    }
}

/// The texts of the parts, one behind the other.
pub open spec fn render(parts: Seq<TextPartsView>) -> Seq<char>
    decreases parts.len(),
{
    if parts.len() == 0 {
        Seq::empty()
    } else {
        render(parts.drop_last()) + render_part(parts.last())
    }
}

/// Joining one text more puts the separator in front of it, unless it is the
/// first.
proof fn lemma_joined_step(texts: Seq<Seq<char>>, separator: char, i: int)
    requires
        0 <= i < texts.len(),
    ensures
        joined(texts.take(i + 1), separator) == if i == 0 {
            texts[i]
        } else {
            joined(texts.take(i), separator) + seq![separator] + texts[i]
        },
{
    assert(texts.take(i + 1).drop_last() =~= texts.take(i));
    assert(texts.take(i + 1).last() == texts[i]);
}

/// Appends the canonical text of a scheme.
pub fn push_scheme(out: &mut String, scheme: Scheme)
    ensures
        final(out)@ == old(out)@ + scheme.prefix(),
{
    proof {
        reveal_strlit("http://");
        reveal_strlit("https://");
        assert("http://"@ =~= Scheme::HTTP.prefix());
        assert("https://"@ =~= Scheme::HTTPS.prefix());
    }
    match scheme {
        Scheme::HTTP => out.append("http://"),
        Scheme::HTTPS => out.append("https://"),
    }
}

/// Appends the text of a host.
pub fn push_host(out: &mut String, host: &Host)
    ensures
        final(out)@ == old(out)@ + render_host(host@),
{
    match host {
        Host::HOST(name) => {
            out.append(name.as_str());
        },
        Host::IPV4(groups) => {
            let ghost texts = octet_texts(groups@);
            let mut i: usize = 0;
            while i < 4
                invariant
                    i <= 4,
                    groups@.len() == 4,
                    texts == octet_texts(groups@),
                    out@ == old(out)@ + joined(texts.take(i as int), '.'),
                decreases 4 - i,
            {
                if i > 0 {
                    out.push('.');
                }
                push_decimal(out, groups[i] as u32);
                proof {
                    lemma_joined_step(texts, '.', i as int);
                    assert(out@ =~= old(out)@ + joined(texts.take(i + 1), '.'));
                }
                i += 1;
            }
            assert(texts.take(4) =~= texts);
        },
        Host::IPV6(groups) => {
            let ghost texts = hextet_texts(groups@);
            out.push('[');
            let mut i: usize = 0;
            while i < 8
                invariant
                    i <= 8,
                    groups@.len() == 8,
                    texts == hextet_texts(groups@),
                    out@ == old(out)@ + seq!['['] + joined(texts.take(i as int), ':'),
                decreases 8 - i,
            {
                if i > 0 {
                    out.push(':');
                }
                push_hexa(out, groups[i] as u32);
                proof {
                    lemma_joined_step(texts, ':', i as int);
                    assert(out@ =~= old(out)@ + seq!['['] + joined(texts.take(i + 1), ':'));
                }
                i += 1;
            }
            out.push(']');
            assert(texts.take(8) =~= texts);
            assert(out@ =~= old(out)@ + (seq!['['] + joined(texts, ':') + seq![']']));
        },
    }
}

/// Appends the text of an address.
pub fn push_uri(out: &mut String, uri: &URI)
    ensures
        final(out)@ == old(out)@ + render_uri(uri@),
{
    push_scheme(out, uri.scheme);
    push_host(out, &uri.host);
    match uri.port {
        Some(number) => {
            out.push(':');
            push_decimal(out, number as u32);
        },
        None => {},
    }
    let ghost before_path = out@;
    assert(before_path =~= old(out)@ + (uri@.scheme.prefix() + render_host(uri@.host)
        + render_port(uri@.port)));
    match &uri.path {
        Some(text) => {
            out.append(text.as_str());
        },
        None => {},
    }
    assert(out@ =~= before_path + render_path(uri@.path));
    match &uri.query {
        Some(text) => {
            out.push('?');
            out.append(text.as_str());
        },
        None => {},
    }
    assert(out@ =~= before_path + render_path(uri@.path) + render_query(uri@.query));
    assert(out@ =~= old(out)@ + render_uri(uri@));
}

/// Appends the anchor element of a mention.
pub fn push_mention(out: &mut String, mention: &Mention)
    ensures
        final(out)@ == old(out)@ + render_mention(mention@),
{
    out.append("<a href=\"#ToReplace-id-");
    push_decimal(out, mention.user_id);
    out.append("\">@");
    out.append(mention.name.as_str());
    out.append("</a>");
    assert(out@ =~= old(out)@ + render_mention(mention@));
}

/// Appends the text of a part.
pub fn push_part(out: &mut String, part: &TextParts)
    ensures
        final(out)@ == old(out)@ + render_part(part@),
{
    match part {
        TextParts::URI(uri) => push_uri(out, uri),
        TextParts::Mention(mention) => push_mention(out, mention),
        TextParts::Other(text) => out.append(text.as_str()),
    }
}

/// The display form of a sequence of parts: the text of each part, one
/// behind the other.
pub fn format_content(parts: &Vec<TextParts>) -> (out: String)
    ensures
        out@ == render(parts_view(parts@)),
{
    let mut out = String::new();
    let mut i: usize = 0;
    while i < parts.len()
        invariant
            i <= parts@.len(),
            out@ == render(parts_view(parts@).take(i as int)),
        decreases parts@.len() - i,
    {
        push_part(&mut out, &parts[i]);
        proof {
            let views = parts_view(parts@);
            assert(views.take(i + 1).drop_last() =~= views.take(i as int));
            assert(views.take(i + 1).last() == parts@[i as int]@);
        }
        i += 1;
    }
    assert(parts_view(parts@).take(parts@.len() as int) =~= parts_view(parts@));
    out
}

} // verus!
