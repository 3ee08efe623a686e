//! Numbers as text: reading decimal and hexadecimal digit strings, and
//! writing numbers back as digits.

use vstd::prelude::*;
use crate::chars::{is_digit, lemma_run_end_bounds, lemma_run_end_is_maximal, run_end, CharClass};

verus! {

/// The value of one digit: `0-9` count from zero, `a-f` from ten.
pub open spec fn digit_value(c: char) -> nat {
    if is_digit(c) {
        (c as nat - '0' as nat) as nat
    } else {
        (c as nat - 'a' as nat + 10) as nat
    }
}

/// The digit that stands for `d`, for `d` below sixteen.
pub open spec fn digit_char(d: nat) -> char {
    if d < 10 {
        ('0' as nat + d) as char
    } else {
        ('a' as nat + d - 10) as char
    }
}

/// The number that a string of decimal digits denotes; the empty string
/// denotes zero.
pub open spec fn decimal_value(digits: Seq<char>) -> nat
    decreases digits.len(),
{
    if digits.len() == 0 {
        0
    } else {
        decimal_value(digits.drop_last()) * 10 + digit_value(digits.last())
    }
}

/// The number that a string of hexadecimal digits denotes; the empty string
/// denotes zero.
pub open spec fn hexa_value(digits: Seq<char>) -> nat
    decreases digits.len(),
{
    if digits.len() == 0 {
        0
    } else {
        hexa_value(digits.drop_last()) * 16 + digit_value(digits.last())
    }
}

/// The decimal digits of `n`, without leading zeros.
pub open spec fn decimal_text(n: nat) -> Seq<char>
    decreases n,
{
    if n < 10 {
        seq![digit_char(n)]
    } else {
        decimal_text(n / 10).push(digit_char(n % 10))
    }
}

/// The hexadecimal digits of `n` in lower case, without leading zeros.
pub open spec fn hexa_text(n: nat) -> Seq<char>
    decreases n,
{
    if n < 16 {
        seq![digit_char(n)]
    } else {
        hexa_text(n / 16).push(digit_char(n % 16))
    }
}

/// Whether every character of `s` belongs to `class`.
pub open spec fn all_of(s: Seq<char>, class: CharClass) -> bool {
    forall|k: int| 0 <= k < s.len() ==> class.has(#[trigger] s[k])
}

/// The characters of a run belong to its class.
pub proof fn lemma_run_all_of(s: Seq<char>, class: CharClass, pos: int, limit: int)
    requires
        0 <= pos <= s.len(),
    ensures
        all_of(s.subrange(pos, run_end(s, class, pos, limit)), class),
{
    lemma_run_end_bounds(s, class, pos, limit);
    lemma_run_end_is_maximal(s, class, pos, limit);
    let end = run_end(s, class, pos, limit);
    assert forall|k: int| 0 <= k < s.subrange(pos, end).len() implies class.has(
        #[trigger] s.subrange(pos, end)[k],
    ) by {
        assert(s.subrange(pos, end)[k] == s[pos + k]);
    }
}

/// Reading more digits never gives a smaller number.
pub proof fn lemma_decimal_value_grows(digits: Seq<char>, k: int)
    requires
        0 <= k <= digits.len(),
    ensures
        decimal_value(digits.take(k)) <= decimal_value(digits),
    decreases digits.len(),
{
    if k < digits.len() {
        lemma_decimal_value_grows(digits.drop_last(), k);
        assert(digits.drop_last().take(k) =~= digits.take(k));
    } else {
        assert(digits.take(k) =~= digits);
    }
}

/// Up to four hexadecimal digits denote a number below `0x10000`.
pub proof fn lemma_hexa_value_bound(digits: Seq<char>)
    requires
        all_of(digits, CharClass::Hexa),
    ensures
        digits.len() <= 1 ==> hexa_value(digits) < 0x10,
        digits.len() <= 2 ==> hexa_value(digits) < 0x100,
        digits.len() <= 3 ==> hexa_value(digits) < 0x1000,
        digits.len() <= 4 ==> hexa_value(digits) < 0x10000,
    decreases digits.len(),
{
    if digits.len() > 0 {
        lemma_hexa_value_bound(digits.drop_last());
        assert(CharClass::Hexa.has(digits[digits.len() - 1]));
    }
}

/// Writing a number in decimal and reading it back gives the number, and
/// what is written are digits only.
pub proof fn lemma_decimal_round_trip(n: nat)
    ensures
        decimal_value(decimal_text(n)) == n,
        all_of(decimal_text(n), CharClass::Digit),
        decimal_text(n).len() >= 1,
    decreases n,
{
    if n < 10 {
        assert(decimal_text(n).drop_last() =~= Seq::<char>::empty());
        assert(decimal_value(decimal_text(n).drop_last()) == 0);
    } else {
        lemma_decimal_round_trip(n / 10);
        assert(decimal_text(n).drop_last() =~= decimal_text(n / 10));
    }
}

/// Writing a number in hexadecimal and reading it back gives the number;
/// what is written are lower case hexadecimal digits only, at most four of
/// them for a number below `0x10000`.
pub proof fn lemma_hexa_round_trip(n: nat)
    ensures
        hexa_value(hexa_text(n)) == n,
        all_of(hexa_text(n), CharClass::Hexa),
        hexa_text(n).len() >= 1,
        n < 0x10000 ==> hexa_text(n).len() <= 4,
    decreases n,
{
    if n < 16 {
        assert(hexa_text(n).drop_last() =~= Seq::<char>::empty());
        assert(hexa_value(hexa_text(n).drop_last()) == 0);
    } else {
        lemma_hexa_round_trip(n / 16);
        assert(hexa_text(n).drop_last() =~= hexa_text(n / 16));
        if n < 0x10000 {
            reveal_with_fuel(hexa_text, 5);
        }
    }
}

/// The value of a hexadecimal digit.
pub(crate) fn digit_of(c: char) -> (d: u32)
    requires
        CharClass::Hexa.has(c),
    ensures
        d == digit_value(c),
        d < 16,
        is_digit(c) ==> d < 10,
{
    if c >= '0' && c <= '9' {
        c as u32 - '0' as u32
    } else {
        c as u32 - 'a' as u32 + 10
    }
}

/// The digit that stands for `d`.
pub(crate) fn char_of(d: u32) -> (c: char)
    requires
        d < 16,
    ensures
        c == digit_char(d as nat),
{
    if d < 10 {
        (48u8 + d as u8) as char
    } else {
        (87u8 + d as u8) as char
    }
}

/// Reads `input[from..to]`, which holds decimal digits only, as a number no
/// greater than `max`. Any number of leading zeros is accepted.
pub(crate) fn parse_decimal(input: &[char], from: usize, to: usize, max: u32) -> (value: Option<
    u32,
>)
    requires
        from <= to <= input@.len(),
        all_of(input@.subrange(from as int, to as int), CharClass::Digit),
    ensures
        match value {
            Some(v) => v == decimal_value(input@.subrange(from as int, to as int)) && v <= max,
            None => decimal_value(input@.subrange(from as int, to as int)) > max,
        },
{
    let ghost digits = input@.subrange(from as int, to as int);
    let mut acc: u64 = 0;
    let mut i: usize = from;
    while i < to
        invariant
            from <= i <= to <= input@.len(),
            digits == input@.subrange(from as int, to as int),
            all_of(digits, CharClass::Digit),
            acc == decimal_value(digits.take(i - from)),
            acc <= max,
        decreases to - i,
    {
        assert(CharClass::Digit.has(digits[i - from]));
        let d = digit_of(input[i]);
        acc = acc * 10 + d as u64;
        i += 1;
        proof {
            assert(digits.take(i - from).drop_last() =~= digits.take(i - from - 1));
        }
        if acc > max as u64 {
            proof {
                lemma_decimal_value_grows(digits, i - from);
            }
            return None;
        }
    }
    proof {
        assert(digits.take(to - from) =~= digits);
    }
    Some(acc as u32)
}

/// Reads `input[from..to]`, which holds at most four lower case hexadecimal
/// digits, as a number.
pub(crate) fn parse_hexa(input: &[char], from: usize, to: usize) -> (value: u16)
    requires
        from <= to <= input@.len(),
        to - from <= 4,
        all_of(input@.subrange(from as int, to as int), CharClass::Hexa),
    ensures
        value == hexa_value(input@.subrange(from as int, to as int)),
{
    let ghost digits = input@.subrange(from as int, to as int);
    let mut acc: u32 = 0;
    let mut i: usize = from;
    while i < to
        invariant
            from <= i <= to <= input@.len(),
            to - from <= 4,
            digits == input@.subrange(from as int, to as int),
            all_of(digits, CharClass::Hexa),
            acc == hexa_value(digits.take(i - from)),
            acc < 0x10000,
        decreases to - i,
    {
        assert(CharClass::Hexa.has(digits[i - from]));
        let d = digit_of(input[i]);
        proof {
            assert(digits.take(i + 1 - from).drop_last() =~= digits.take(i - from));
            assert(all_of(digits.take(i + 1 - from), CharClass::Hexa));
            lemma_hexa_value_bound(digits.take(i + 1 - from));
        }
        acc = acc * 16 + d;
        i += 1;
    }
    proof {
        assert(digits.take(to - from) =~= digits);
    }
    acc as u16
}

/// Appends the decimal digits of `n` to `out`.
pub fn push_decimal(out: &mut String, n: u32)
    ensures
        final(out)@ == old(out)@ + decimal_text(n as nat),
    decreases n,
{
    if n >= 10 {
        push_decimal(out, n / 10);
    }
    out.push(char_of(n % 10));
}

/// Appends the lower case hexadecimal digits of `n` to `out`.
pub fn push_hexa(out: &mut String, n: u32)
    ensures
        final(out)@ == old(out)@ + hexa_text(n as nat),
    decreases n,
{
    if n >= 16 {
        push_hexa(out, n / 16);
    }
    out.push(char_of(n % 16));
}

} // verus!
