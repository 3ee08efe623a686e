//! Character classes, runs of characters, and the move between text and
//! character vectors.
//!
//! All positions in this crate count characters (Unicode scalar values),
//! never bytes.

use vstd::prelude::*;

verus! {

/// `String::push` appends the character to the text.
pub assume_specification[ String::push ](s: &mut String, ch: char)
    ensures
        final(s)@ == old(s)@.push(ch),
;

/// The classes of characters that the grammar scans for.
#[derive(Debug, PartialEq, Eq, Clone, Copy)]
pub enum CharClass {
    /// `A-Z` and `a-z`.
    Alpha,
    /// `A-Z`, `a-z`, `0-9` and `-`.
    AlphaNumericHyphen,
    /// `0-9`.
    Digit,
    /// `0-9` and `a-f`; upper case letters are not accepted.
    Hexa,
    /// Everything but `?`, `#` and the space.
    Path,
    /// Everything but `#` and the space.
    Query,
    /// Everything but `]`.
    Name,
    /// Everything but `)`.
    UserId,
}

/// Whether `c` is one of `0-9`.
pub open spec fn is_digit(c: char) -> bool {
    '0' <= c <= '9'
}

/// Whether `c` is one of `A-Z` and `a-z`.
pub open spec fn is_alpha(c: char) -> bool {
    ('a' <= c <= 'z') || ('A' <= c <= 'Z')
}

/// The lower case form of an ASCII letter; any other character is unchanged.
pub open spec fn lower(c: char) -> char {
    if 'A' <= c <= 'Z' {
        ((c as u8) + 32) as char
    } else {
        c
    }
}

impl CharClass {
    /// Whether `c` belongs to the class.
    pub open spec fn has(self, c: char) -> bool {
        match self {
            CharClass::Alpha => is_alpha(c),
            CharClass::AlphaNumericHyphen => is_alpha(c) || is_digit(c) || c == '-',
            CharClass::Digit => is_digit(c),
            CharClass::Hexa => is_digit(c) || ('a' <= c <= 'f'),
            CharClass::Path => c != '?' && c != '#' && c != ' ',
            CharClass::Query => c != '#' && c != ' ',
            CharClass::Name => c != ']',
            CharClass::UserId => c != ')',
        }
    }

    /// Whether `c` belongs to the class.
    pub fn contains(&self, c: char) -> (found: bool)
        ensures
            found == self.has(c),
    {
        match self {
            CharClass::Alpha => (c >= 'a' && c <= 'z') || (c >= 'A' && c <= 'Z'),
            CharClass::AlphaNumericHyphen => (c >= 'a' && c <= 'z') || (c >= 'A' && c <= 'Z') || (c
                >= '0' && c <= '9') || c == '-',
            CharClass::Digit => c >= '0' && c <= '9',
            CharClass::Hexa => (c >= '0' && c <= '9') || (c >= 'a' && c <= 'f'),
            CharClass::Path => c != '?' && c != '#' && c != ' ',
            CharClass::Query => c != '#' && c != ' ',
            CharClass::Name => c != ']',
            CharClass::UserId => c != ')',
        }
    }
}

/// Where the longest run of `class` characters that starts at `pos` and stays
/// below `limit` ends. The result is `pos` itself when there is no such
/// character at `pos`.
pub open spec fn run_end(s: Seq<char>, class: CharClass, pos: int, limit: int) -> int
    decreases limit - pos,
{
    if 0 <= pos < limit && pos < s.len() && class.has(s[pos]) {
        run_end(s, class, pos + 1, limit)
    } else {
        pos
    }
}

/// A run ends between its start and its limit, inside the text.
pub proof fn lemma_run_end_bounds(s: Seq<char>, class: CharClass, pos: int, limit: int)
    ensures
        pos <= run_end(s, class, pos, limit),
        0 <= pos <= s.len() ==> run_end(s, class, pos, limit) <= s.len(),
        pos <= limit ==> run_end(s, class, pos, limit) <= limit,
    decreases limit - pos,
{
    if 0 <= pos < limit && pos < s.len() && class.has(s[pos]) {
        lemma_run_end_bounds(s, class, pos + 1, limit);
    }
}

/// A run is made of characters of its class and cannot go on: behind it
/// stands the limit, the end of the text, or a character outside the class.
pub proof fn lemma_run_end_is_maximal(s: Seq<char>, class: CharClass, pos: int, limit: int)
    requires
        0 <= pos <= s.len(),
    ensures
        forall|k: int| pos <= k < run_end(s, class, pos, limit) ==> class.has(#[trigger] s[k]),
        ({
            let end = run_end(s, class, pos, limit);
            end >= limit || end == s.len() || !class.has(s[end])
        }),
    decreases limit - pos,
{
    if 0 <= pos < limit && pos < s.len() && class.has(s[pos]) {
        lemma_run_end_is_maximal(s, class, pos + 1, limit);
    }
}

/// A position up to which every character is of the class, and at which the
/// run cannot go on, is the end of the run.
pub proof fn lemma_run_end_unique(s: Seq<char>, class: CharClass, pos: int, limit: int, end: int)
    requires
        0 <= pos <= end <= s.len(),
        end <= limit,
        forall|k: int| pos <= k < end ==> class.has(#[trigger] s[k]),
        end == limit || end == s.len() || !class.has(s[end]),
    ensures
        run_end(s, class, pos, limit) == end,
    decreases end - pos,
{
    if pos < end {
        lemma_run_end_unique(s, class, pos + 1, limit, end);
    }
}

/// Scans the longest run of `class` characters from `pos`, at most `most`
/// characters long, and returns the position behind it.
pub(crate) fn scan(input: &[char], class: CharClass, pos: usize, most: usize) -> (end: usize)
    requires
        pos <= input@.len(),
    ensures
        end == run_end(input@, class, pos as int, pos + most),
        pos <= end <= input@.len(),
        end - pos <= most,
{
    let room: usize = input.len() - pos;
    let stop: usize = if most < room {
        pos + most
    } else {
        input.len()
    };
    let mut end: usize = pos;
    while end < stop && class.contains(input[end])
        invariant
            pos <= end <= stop <= input@.len(),
            stop == if most < input@.len() - pos {
                pos + most
            } else {
                input@.len() as int
            },
            run_end(input@, class, pos as int, pos + most) == run_end(
                input@,
                class,
                end as int,
                pos + most,
            ),
        decreases stop - end,
    {
        end += 1;
    }
    end
}

/// Whether `s` holds `pattern` at `pos`, ASCII letters compared without
/// regard to case. `pattern` is expected in lower case.
pub open spec fn has_prefix_no_case(s: Seq<char>, pos: int, pattern: Seq<char>) -> bool {
    &&& 0 <= pos
    &&& pos + pattern.len() <= s.len()
    &&& forall|k: int| 0 <= k < pattern.len() ==> lower(#[trigger] s[pos + k]) == pattern[k]
}

/// The lower case form of an ASCII letter; any other character is unchanged.
pub fn to_lower(c: char) -> (l: char)
    ensures
        l == lower(c),
{
    if c >= 'A' && c <= 'Z' {
        ((c as u8) + 32) as char
    } else {
        c
    }
}

/// Tests for `pattern` at `pos`, without regard to the case of ASCII letters.
pub(crate) fn starts_with_no_case(input: &[char], pos: usize, pattern: &[char]) -> (found: bool)
    requires
        pos <= input@.len(),
    ensures
        found == has_prefix_no_case(input@, pos as int, pattern@),
        found ==> pos + pattern@.len() <= usize::MAX,
{
    if pattern.len() > input.len() - pos {
        return false;
    }
    let mut k: usize = 0;
    while k < pattern.len()
        invariant
            k <= pattern@.len(),
            pos + pattern@.len() <= input@.len() <= usize::MAX,
            forall|j: int| 0 <= j < k ==> lower(#[trigger] input@[pos + j]) == pattern@[j],
        decreases pattern@.len() - k,
    {
        if to_lower(input[pos + k]) != pattern[k] {
            return false;
        }
        k += 1;
    }
    true
}

/// Copies the characters of `text` into a vector, in order.
pub fn to_chars(text: &str) -> (out: Vec<char>)
    ensures
        out@ == text@,
{
    let mut out: Vec<char> = Vec::new();
    for c in it: text.chars()
        invariant
            out@ == it.seq().take(it.index() as int),
    {
        out.push(c);
    }
    out
}

/// Copies `chars[from..to]` into a fresh string.
pub(crate) fn to_text(chars: &[char], from: usize, to: usize) -> (out: String)
    requires
        from <= to <= chars@.len(),
    ensures
        out@ == chars@.subrange(from as int, to as int),
{
    let mut out = String::new();
    let mut i: usize = from;
    while i < to
        invariant
            from <= i <= to <= chars@.len(),
            out@ == chars@.subrange(from as int, i as int),
        decreases to - i,
    {
        out.push(chars[i]);
        i += 1;
    }
    out
}

} // verus!
