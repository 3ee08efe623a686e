//! Splits chat-style text into user mentions, addresses and single
//! characters, and writes such a sequence of parts back as display text.
//!
//! The entry points are [`rust_parse_demo`], which splits a text,
//! [`render::format_content`], which writes parts back, and
//! [`format_content_demo`], which does the one and then the other.
//!
//! [`grammar`] defines the dialect mathematically, over the character
//! classes of [`chars`] and the number notation of [`numbers`].
//! [`parse_mention`] and [`parse_uri`] hold the recognisers, and [`render`]
//! the way back to text.
//!
//! The remaining modules hold proofs only. [`laws`] says what holds of
//! splitting: it always advances, and it loses nothing of the text.
//! [`locality`] shows that a rule depends on nothing in front of its
//! position. [`round_trip`] and [`read_back`] say when a rendered value is
//! read back, with [`agreement`] as their tool, and [`second_round`]
//! concludes when a rendered text is rendered as itself.

use vstd::prelude::*;

pub mod agreement;
pub mod chars;
pub mod grammar;
pub mod laws;
pub mod locality;
pub mod numbers;
pub mod parse_mention;
pub mod parse_uri;
pub mod read_back;
pub mod render;
pub mod round_trip;
pub mod second_round;
pub mod types;

use crate::chars::{to_chars, to_text};
use crate::grammar::{match_part, parts_from, parts_of, tokens_from, Token};
use crate::laws::lemma_parts_count;
use crate::parse_mention::mention_at;
use crate::parse_uri::uri_at;
use crate::render::{format_content, render};
use crate::types::{parts_view, TextParts};

verus! {

/// Reads the part that starts at `pos`: a mention, or else an address, or
/// else the character at `pos`. Returns the part and the position behind it,
/// or `None` where `pos` is not inside the text.
pub fn part_at(input: &[char], pos: usize) -> (found: Option<(TextParts, usize)>)
    ensures
        match found {
            Some((part, end)) => pos < input@.len() && match_part(input@, pos as int) == (
                part@,
                end as int,
            ) && pos < end <= input@.len(),
            None => pos >= input@.len(),
        },
{
    if pos >= input.len() {
        return None;
    }
    match mention_at(input, pos) {
        Some((mention, end)) => Some((TextParts::Mention(mention), end)),
        None => match uri_at(input, pos) {
            Some((uri, end)) => Some((TextParts::URI(uri), end)),
            None => Some((TextParts::Other(to_text(input, pos, pos + 1)), pos + 1)),
        },
    }
}

/// Splits `input` into its parts, from left to right. Every character of the
/// text ends up in exactly one part, and the empty text has no parts.
pub fn rust_parse_demo(input: &str) -> (parts: Vec<TextParts>)
    ensures
        parts_view(parts@) == parts_of(input@),
        parts@.len() <= input@.len(),
        input@.len() == 0 ==> parts@.len() == 0,
{
    let chars = to_chars(input);
    let mut parts: Vec<TextParts> = Vec::new();
    let mut pos: usize = 0;
    loop
        invariant
            pos <= chars@.len(),
            chars@ == input@,
            parts_of(input@) == parts_view(parts@) + parts_from(input@, pos as int),
        ensures
            pos == chars@.len(),
        decreases chars@.len() - pos,
    {
        let (part, end) = match part_at(&chars, pos) {
            Some(found) => found,
            None => {
                break ;
            },
        };
        proof {
            let first = Token { part: part@, span: input@.subrange(pos as int, end as int) };
            assert(tokens_from(input@, pos as int) == seq![first] + tokens_from(
                input@,
                end as int,
            ));
            assert(parts_from(input@, pos as int) =~= seq![part@] + parts_from(
                input@,
                end as int,
            ));
            assert(parts_view(parts@.push(part)) =~= parts_view(parts@).push(part@));
        }
        parts.push(part);
        pos = end;
    }
    proof {
        assert(parts_from(input@, pos as int) =~= Seq::empty());
        lemma_parts_count(input@, 0);
    }
    parts
}

/// The display form of `input`: the text is split into parts, and the parts
/// are written back.
pub fn format_content_demo(input: &str) -> (out: String)
    ensures
        out@ == render(parts_of(input@)),
{
    let parts = rust_parse_demo(input);
    format_content(&parts)
}

} // verus!
