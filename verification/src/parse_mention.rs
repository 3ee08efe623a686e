//! Recognisers for user mentions, `@[name](id)`.
//!
//! As for addresses, the functions on a character slice and a position
//! implement the rules of [`crate::grammar`], and the functions on a `&str`
//! apply a rule at the start of a text.

use vstd::prelude::*;
use vstd::string::StrSliceExecFns;
use crate::chars::{
    lemma_run_end_bounds,
    lemma_run_end_is_maximal,
    scan,
    to_chars,
    to_text,
    CharClass,
};
use crate::grammar::{match_mention, match_name, match_user_id};
use crate::numbers::parse_decimal;
use crate::parse_uri::has_char_at;
use crate::types::Mention;

verus! {

/// A display name in its square brackets.
pub(crate) fn name_at(input: &[char], pos: usize) -> (found: Option<(String, usize)>)
    requires
        pos <= input@.len(),
    ensures
        match found {
            Some((name, end)) => match_name(input@, pos as int) == Some((name@, end as int))
                && pos < end <= input@.len(),
            None => match_name(input@, pos as int) is None,
        },
{
    if !has_char_at(input, pos, '[') {
        return None;
    }
    let end = scan(input, CharClass::Name, pos + 1, input.len() - (pos + 1));
    if has_char_at(input, end, ']') {
        Some((to_text(input, pos + 1, end), end + 1))
    } else {
        None
    }
}

/// A user id in its round brackets.
pub(crate) fn user_id_at(input: &[char], pos: usize) -> (found: Option<(u32, usize)>)
    requires
        pos <= input@.len(),
    ensures
        match found {
            Some((id, end)) => match_user_id(input@, pos as int) == Some((id, end as int)) && pos
                < end <= input@.len(),
            None => match_user_id(input@, pos as int) is None,
        },
{
    if !has_char_at(input, pos, '(') {
        return None;
    }
    let end = scan(input, CharClass::UserId, pos + 1, input.len() - (pos + 1));
    if end == pos + 1 || !has_char_at(input, end, ')') {
        return None;
    }
    let digits_end = scan(input, CharClass::Digit, pos + 1, end - (pos + 1));
    let ghost token = input@.subrange(pos + 1, end as int);
    proof {
        lemma_run_end_bounds(input@, CharClass::Digit, pos + 1, end as int);
        lemma_run_end_is_maximal(input@, CharClass::Digit, pos + 1, end as int);
        if digits_end == end {
            assert forall|k: int| 0 <= k < token.len() implies CharClass::Digit.has(
                #[trigger] token[k],
            ) by {
                assert(token[k] == input@[pos + 1 + k]);
            }
        } else {
            assert(token[digits_end - (pos + 1)] == input@[digits_end as int]);
        }
    }
    if digits_end != end {
        return None;
    }
    match parse_decimal(input, pos + 1, end, u32::MAX) {
        Some(id) => Some((id, end + 1)),
        None => None,
    }
}

/// A mention.
pub(crate) fn mention_at(input: &[char], pos: usize) -> (found: Option<(Mention, usize)>)
    requires
        pos <= input@.len(),
    ensures
        match found {
            Some((mention, end)) => match_mention(input@, pos as int) == Some(
                (mention@, end as int),
            ) && pos < end <= input@.len(),
            None => match_mention(input@, pos as int) is None,
        },
{
    if !has_char_at(input, pos, '@') {
        return None;
    }
    let (name, e1) = match name_at(input, pos + 1) {
        Some(found) => found,
        None => { return None; },
    };
    match user_id_at(input, e1) {
        Some((user_id, end)) => Some((Mention { user_id, name }, end)),
        None => None,
    }
}

/// Reads a mention at the start of `input`; returns what is left of the
/// text, and the mention.
pub fn mention(input: &str) -> (found: Option<(&str, Mention)>)
    ensures
        match match_mention(input@, 0) {
            Some((value, end)) => found matches Some((rest, mention)) && mention@ == value
                && rest@ == input@.subrange(end, input@.len() as int),
            None => found is None,
        },
{
    let chars = to_chars(input);
    match mention_at(&chars, 0) {
        Some((mention, end)) => Some((input.substring_char(end, chars.len()), mention)),
        None => None,
    }
}

/// Reads a bracketed user id at the start of `input`.
pub fn user_id(input: &str) -> (found: Option<(&str, u32)>)
    ensures
        match match_user_id(input@, 0) {
            Some((value, end)) => found matches Some((rest, id)) && id == value && rest@
                == input@.subrange(end, input@.len() as int),
            None => found is None,
        },
{
    let chars = to_chars(input);
    match user_id_at(&chars, 0) {
        Some((id, end)) => Some((input.substring_char(end, chars.len()), id)),
        None => None,
    }
}

/// Reads a bracketed display name at the start of `input`.
pub fn name(input: &str) -> (found: Option<(&str, String)>)
    ensures
        match match_name(input@, 0) {
            Some((value, end)) => found matches Some((rest, name)) && name@ == value && rest@
                == input@.subrange(end, input@.len() as int),
            None => found is None,
        },
{
    let chars = to_chars(input);
    match name_at(&chars, 0) {
        Some((name, end)) => Some((input.substring_char(end, chars.len()), name)),
        None => None,
    }
}

} // verus!
