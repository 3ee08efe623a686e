//! The values a text is split into, and their mathematical views.
//!
//! Every type that owns text has a view in which the text is a `Seq<char>`;
//! contracts throughout the crate are stated over these views.

use vstd::prelude::*;

verus! {

/// One classified piece of a text.
#[derive(Debug, PartialEq, Eq)]
pub enum TextParts {
    /// An absolute `http`/`https` address.
    URI(URI),
    /// A user mention, written `@[name](id)` in the source text.
    Mention(Mention),
    /// Exactly one character that belongs to neither of the above.
    Other(String),
}

/// An address. `scheme` and `host` are always there; each of the other fields
/// is present exactly when its marker was matched in the source text.
///
/// What is said of the fields below holds of an address that was read from a
/// text. The fields are public, and a value that is put together by hand may
/// hold any text; it is rendered all the same.
#[derive(Debug, PartialEq, Eq)]
pub struct URI {
    pub scheme: Scheme,
    pub host: Host,
    pub port: Option<u16>,
    /// Starts at the first character behind the authority; holds no `?`, `#` or space.
    pub path: Option<String>,
    /// Without the leading `?`; holds no `#` or space.
    pub query: Option<String>,
}

/// The closed set of schemes that are recognised.
#[derive(Debug, PartialEq, Eq, Clone, Copy)]
pub enum Scheme {
    HTTP,
    HTTPS,
}

/// The authority of an address.
#[derive(Debug, PartialEq, Eq)]
pub enum Host {
    /// A dot-separated name, kept as it was written.
    HOST(String),
    IPV4([u8; 4]),
    IPV6([u16; 8]),
}

/// One numeric group of an IP literal.
#[derive(Debug, PartialEq, Eq, Clone, Copy)]
pub enum IPNum {
    IPV4(u8),
    IPV6(u16),
}

/// A user mention.
#[derive(Debug, PartialEq, Eq)]
pub struct Mention {
    pub user_id: u32,
    /// The display name; as read from a text it holds no `]`.
    pub name: String,
}

/// View of [`TextParts`].
pub enum TextPartsView {
    URI(URIView),
    Mention(MentionView),
    Other(Seq<char>),
}

/// View of [`URI`].
pub struct URIView {
    pub scheme: Scheme,
    pub host: HostView,
    pub port: Option<u16>,
    pub path: Option<Seq<char>>,
    pub query: Option<Seq<char>>,
}

/// View of [`Host`]. An `IPV4` address has four groups and an `IPV6` address
/// eight whenever the view comes from a [`Host`].
pub enum HostView {
    HOST(Seq<char>),
    IPV4(Seq<u8>),
    IPV6(Seq<u16>),
}

/// View of [`Mention`].
pub struct MentionView {
    pub user_id: u32,
    pub name: Seq<char>,
}

/// The view of an optional text.
pub open spec fn text_view(text: Option<String>) -> Option<Seq<char>> {
    match text {
        Some(t) => Some(t@),
        None => None,
    }
}

impl View for Host {
    type V = HostView;

    open spec fn view(&self) -> HostView {
        match *self {
            Host::HOST(name) => HostView::HOST(name@),
            Host::IPV4(groups) => HostView::IPV4(groups@),
            Host::IPV6(groups) => HostView::IPV6(groups@),
        }
    }
}

impl View for URI {
    type V = URIView;

    open spec fn view(&self) -> URIView {
        URIView {
            scheme: self.scheme,
            host: self.host@,
            port: self.port,
            path: text_view(self.path),
            query: text_view(self.query),
        }
    }
}

impl View for Mention {
    type V = MentionView;

    open spec fn view(&self) -> MentionView {
        MentionView { user_id: self.user_id, name: self.name@ }
    }
}

impl View for TextParts {
    type V = TextPartsView;

    open spec fn view(&self) -> TextPartsView {
        match *self {
            TextParts::URI(uri) => TextPartsView::URI(uri@),
            TextParts::Mention(mention) => TextPartsView::Mention(mention@),
            TextParts::Other(text) => TextPartsView::Other(text@),
        }
    }
}

/// The views of a sequence of parts, in order.
pub open spec fn parts_view(parts: Seq<TextParts>) -> Seq<TextPartsView> {
    parts.map_values(|part: TextParts| part@)
}

impl HostView {
    /// Whether an address has as many groups as its kind demands.
    pub open spec fn well_formed(self) -> bool {
        match self {
            HostView::HOST(_) => true,
            HostView::IPV4(groups) => groups.len() == 4,
            HostView::IPV6(groups) => groups.len() == 8,
        }
    }
}

impl IPNum {
    /// The group as an IPv4 octet, if it is one.
    pub open spec fn octet(self) -> Option<u8> {
        match self {
            IPNum::IPV4(n) => Some(n),
            IPNum::IPV6(_) => None,
        }
    }

    /// The group as an IPv6 hextet, if it is one.
    pub open spec fn hextet(self) -> Option<u16> {
        match self {
            IPNum::IPV4(_) => None,
            IPNum::IPV6(n) => Some(n),
        }
    }
}

impl From<IPNum> for Option<u8> {
    fn from(num: IPNum) -> (octet: Option<u8>) {
        match num {
            IPNum::IPV4(n) => Some(n),
            IPNum::IPV6(_) => None,
        }
    }
}

impl vstd::std_specs::convert::FromSpecImpl<IPNum> for Option<u8> {
    open spec fn obeys_from_spec() -> bool {
        true
    }

    open spec fn from_spec(num: IPNum) -> Option<u8> {
        num.octet()
    }
}

impl From<IPNum> for Option<u16> {
    fn from(num: IPNum) -> (hextet: Option<u16>) {
        match num {
            IPNum::IPV4(_) => None,
            IPNum::IPV6(n) => Some(n),
        }
    }
}

impl vstd::std_specs::convert::FromSpecImpl<IPNum> for Option<u16> {
    open spec fn obeys_from_spec() -> bool {
        true
    }

    open spec fn from_spec(num: IPNum) -> Option<u16> {
        num.hextet()
    }
}

/// A host always has a well-formed view.
pub proof fn lemma_host_view_well_formed(host: Host)
    ensures
        host@.well_formed(),
{
    broadcast use vstd::array::array_len_matches_n;

    match host {
        Host::HOST(_) => {},
        Host::IPV4(groups) => {
            assert(groups@.len() == 4);
        },
        Host::IPV6(groups) => {
            assert(groups@.len() == 8);
        },
    }
}

} // verus!
