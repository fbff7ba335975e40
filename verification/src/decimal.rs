//! Decimal notation of unsigned integers.

use crate::text::to_chars;
use vstd::prelude::*;

verus! {

/// The character that stands for the digit `d`, for `d` below ten.
pub open spec fn digit_char(d: nat) -> char {
    (48 + d) as char
}

/// Whether `c` is one of the ten decimal digits.
pub open spec fn is_digit(c: char) -> bool {
    '0' <= c && c <= '9'
}

/// The value of the decimal digit `c`; zero where `c` is no digit.
pub open spec fn digit_value(c: char) -> nat {
    if is_digit(c) {
        (c as nat - 48) as nat
    } else {
        0
    }
}

/// The decimal notation of `n`, without leading zeros.
pub open spec fn decimal_text(n: nat) -> Seq<char>
    decreases n,
{
    if n < 10 {
        seq![digit_char(n)]
    } else {
        decimal_text(n / 10).push(digit_char(n % 10))
    }
}

/// Whether `s` is a non-empty run of decimal digits.
pub open spec fn is_decimal(s: Seq<char>) -> bool {
    s.len() > 0 && forall|i: int| 0 <= i < s.len() ==> is_digit(#[trigger] s[i])
}

/// The number that a run of decimal digits denotes; leading zeros count for nothing.
pub open spec fn decimal_value(s: Seq<char>) -> nat
    decreases s.len(),
{
    if s.len() == 0 {
        0
    } else {
        decimal_value(s.drop_last()) * 10 + digit_value(s.last())
    }
}

/// Appends the decimal notation of `n` to `out`.
pub fn push_decimal(out: &mut String, n: u64)
    ensures
        final(out)@ == old(out)@ + decimal_text(n as nat),
    decreases n,
{
    if n >= 10 {
        push_decimal(out, n / 10);
    }
    let d: u8 = (n % 10) as u8;
    out.push((48u8 + d) as char);
}

/// The number that `s` denotes, where `s` is a run of decimal digits and the
/// number fits in 64 bits.
pub open spec fn decimal_number(s: Seq<char>) -> Option<u64> {
    if is_decimal(s) && decimal_value(s) <= u64::MAX {
        Some(decimal_value(s) as u64)
    } else {
        None
    }
}

/// A run of digits denotes at least what any of its beginnings denotes.
pub proof fn lemma_decimal_value_grows(s: Seq<char>, k: int)
    requires
        0 <= k <= s.len(),
    ensures
        decimal_value(s.take(k)) <= decimal_value(s),
    decreases s.len(),
{
    if k == s.len() {
        assert(s.take(k) == s);
    } else {
        lemma_decimal_value_grows(s.drop_last(), k);
        assert(s.drop_last().take(k) == s.take(k));
    }
}

/// The decimal notation of a number is a run of digits that denotes it.
pub proof fn lemma_decimal_text_value(n: nat)
    ensures
        is_decimal(decimal_text(n)),
        decimal_value(decimal_text(n)) == n,
    decreases n,
{
    if n < 10 {
        assert(decimal_text(n).drop_last() == Seq::<char>::empty());
        assert(decimal_value(decimal_text(n).drop_last()) == 0);
    } else {
        lemma_decimal_text_value(n / 10);
        assert(decimal_text(n).drop_last() == decimal_text(n / 10));
    }
}

fn digit_of(c: char) -> (d: Option<u8>)
    ensures
        d is Some <==> is_digit(c),
        d matches Some(v) ==> v == digit_value(c),
{
    if '0' <= c && c <= '9' {
        Some((c as u32 - 48) as u8)
    } else {
        None
    }
}

/// Reads `chars[from..to]` as a decimal number.
pub(crate) fn parse_digits(chars: &Vec<char>, from: usize, to: usize) -> (value: Option<u64>)
    requires
        from <= to <= chars.len(),
    ensures
        value == decimal_number(chars@.subrange(from as int, to as int)),
{
    let ghost digits = chars@.subrange(from as int, to as int);
    if from == to {
        return None;
    }
    let mut value: u64 = 0;
    let mut i: usize = from;
    while i < to
        invariant
            from <= i <= to <= chars.len(),
            digits == chars@.subrange(from as int, to as int),
            forall|j: int| 0 <= j < i - from ==> is_digit(#[trigger] digits[j]),
            value == decimal_value(digits.take(i - from)),
        decreases to - i,
    {
        let ghost seen = digits.take(i - from + 1);
        proof {
            assert(seen.drop_last() == digits.take(i - from));
            assert(seen.last() == chars@[i as int]);
            lemma_decimal_value_grows(digits, i - from + 1);
        }
        match digit_of(chars[i]) {
            None => {
                assert(!is_digit(digits[i - from]));
                return None;
            },
            Some(d) => {
                if value > (u64::MAX - d as u64) / 10 {
                    return None;
                }
                value = value * 10 + d as u64;
            },
        }
        i += 1;
    }
    assert(digits.take(to - from) == digits);
    Some(value)
}

/// Reads `text` as a decimal number: a run of digits, nothing else, whose
/// number fits in 64 bits.
pub fn parse_decimal(text: &str) -> (value: Option<u64>)
    ensures
        value == decimal_number(text@),
{
    let chars = to_chars(text);
    assert(chars@.subrange(0, chars.len() as int) == chars@);
    parse_digits(&chars, 0, chars.len())
}

} // verus!
