//! Decimal numbers as they are written in a field of a table.
//!
//! An attribute is numeric when it is an unsigned decimal integer that fits
//! in 32 bits; a coordinate is any decimal floating-point literal. Both
//! notions are fixed by the grammars that this module states.

use vstd::prelude::*;
use crate::text::chars_of;

verus! {

/// Whether `c` is one of the ten decimal digits.
pub open spec fn is_digit(c: char) -> bool {
    '0' <= c && c <= '9'
}

/// Whether `c` is a plus or a minus sign.
pub open spec fn is_sign(c: char) -> bool {
    c == '+' || c == '-'
}

/// The number that the digit `c` stands for.
pub open spec fn digit_value(c: char) -> nat {
    (c as int - '0' as int) as nat
}

/// Whether `s` holds decimal digits only.
pub open spec fn all_digits(s: Seq<char>) -> bool {
    forall|i: int| 0 <= i < s.len() ==> is_digit(#[trigger] s[i])
}

/// The number that the digits `s` denote in base ten; 0 for no digits.
pub open spec fn decimal_value(s: Seq<char>) -> nat
    decreases s.len(),
{
    if s.len() == 0 {
        0
    } else {
        decimal_value(s.drop_last()) * 10 + digit_value(s.last())
    }
}

/// `s` without a leading plus sign.
pub open spec fn without_plus(s: Seq<char>) -> Seq<char> {
    if s.len() > 0 && s[0] == '+' {
        s.skip(1)
    } else {
        s
    }
}

/// The unsigned 32-bit integer that `s` denotes: an optional plus sign and
/// then one or more decimal digits, whose value is at most `u32::MAX`.
/// Any other text denotes none.
pub open spec fn unsigned_of(s: Seq<char>) -> Option<u32> {
    let digits = without_plus(s);
    if digits.len() > 0 && all_digits(digits) && decimal_value(digits) <= u32::MAX {
        Some(decimal_value(digits) as u32)
    } else {
        None
    }
}

/// The end of the run of digits that starts at `from`: the first position
/// at or after `from` that holds no digit.
pub open spec fn digit_run(s: Seq<char>, from: int) -> int
    decreases s.len() - from,
{
    if 0 <= from < s.len() && is_digit(s[from]) {
        digit_run(s, from + 1)
    } else {
        from
    }
}

/// Whether `s` is an exponent: the letter `e` in either case, an optional
/// sign, and one or more digits.
pub open spec fn is_exponent(s: Seq<char>) -> bool {
    &&& s.len() >= 2
    &&& s[0] == 'e' || s[0] == 'E'
    &&& {
        let digits = if is_sign(s[1]) {
            s.skip(2)
        } else {
            s.skip(1)
        };
        digits.len() > 0 && all_digits(digits)
    }
}

/// Whether `s` is an unsigned decimal number: digits with at most one
/// point among, before or after them, at least one digit in all, and
/// then, optionally, an exponent.
pub open spec fn is_decimal(s: Seq<char>) -> bool {
    let whole_end = digit_run(s, 0);
    let has_point = whole_end < s.len() && s[whole_end] == '.';
    let mantissa_end = if has_point {
        digit_run(s, whole_end + 1)
    } else {
        whole_end
    };
    let digits = if has_point {
        mantissa_end - 1
    } else {
        mantissa_end
    };
    &&& digits >= 1
    &&& mantissa_end == s.len() || is_exponent(s.skip(mantissa_end))
}

/// Whether `s` is `word` when letter case is ignored. `lower` and `upper`
/// are the same word in the two cases.
pub open spec fn spells(s: Seq<char>, lower: Seq<char>, upper: Seq<char>) -> bool {
    &&& s.len() == lower.len()
    &&& forall|i: int| 0 <= i < s.len() ==> s[i] == lower[i] || s[i] == upper[i]
}

/// Whether `s` names infinity or not-a-number, in any letter case.
pub open spec fn is_special(s: Seq<char>) -> bool {
    ||| spells(s, seq!['i', 'n', 'f'], seq!['I', 'N', 'F'])
    ||| spells(
        s,
        seq!['i', 'n', 'f', 'i', 'n', 'i', 't', 'y'],
        seq!['I', 'N', 'F', 'I', 'N', 'I', 'T', 'Y'],
    )
    ||| spells(s, seq!['n', 'a', 'n'], seq!['N', 'A', 'N'])
}

/// `s` without a leading sign.
pub open spec fn without_sign(s: Seq<char>) -> Seq<char> {
    if s.len() > 0 && is_sign(s[0]) {
        s.skip(1)
    } else {
        s
    }
}

/// Whether `s` is a decimal floating-point literal: an optional sign, and
/// then either a decimal number or one of the words `inf`, `infinity` and
/// `nan`. Nothing may stand before or after it, not even a blank.
pub open spec fn is_float_text(s: Seq<char>) -> bool {
    let body = without_sign(s);
    is_special(body) || is_decimal(body)
}

/// A prefix of a digit string denotes no more than the whole string.
pub proof fn lemma_decimal_value_prefix(s: Seq<char>, k: int)
    requires
        0 <= k <= s.len(),
    ensures
        decimal_value(s.take(k)) <= decimal_value(s),
    decreases s.len(),
{
    if k < s.len() {
        lemma_decimal_value_prefix(s.drop_last(), k);
        assert(s.drop_last().take(k) == s.take(k));
    } else {
        assert(s.take(k) == s);
    }
}

/// Tells whether `c` is a decimal digit.
pub fn digit(c: char) -> (r: bool)
    ensures
        r == is_digit(c),
{
    '0' <= c && c <= '9'
}

/// The end of the run of digits that starts at `from`.
fn skip_digits(s: &Vec<char>, from: usize) -> (end: usize)
    requires
        from <= s.len(),
    ensures
        end == digit_run(s@, from as int),
        from <= end <= s.len(),
        all_digits(s@.subrange(from as int, end as int)),
        end < s.len() ==> !is_digit(s@[end as int]),
{
    let mut end: usize = from;
    while end < s.len() && digit(s[end])
        invariant
            from <= end <= s.len(),
            digit_run(s@, from as int) == digit_run(s@, end as int),
            all_digits(s@.subrange(from as int, end as int)),
        decreases s.len() - end,
    {
        end += 1;
    }
    end
}

/// Tells whether `s[from..]` holds at least one character and digits only.
fn digits_to_end(s: &Vec<char>, from: usize) -> (r: bool)
    requires
        from <= s.len(),
    ensures
        r == (s@.skip(from as int).len() > 0 && all_digits(s@.skip(from as int))),
{
    let end = skip_digits(s, from);
    proof {
        let rest = s@.skip(from as int);
        if end == s.len() {
            assert(rest == s@.subrange(from as int, end as int));
        } else {
            assert(rest[end - from] == s@[end as int]);
        }
    }
    from < s.len() && end == s.len()
}

/// Tells whether `s[from..]` is an exponent.
fn exponent_at(s: &Vec<char>, from: usize) -> (r: bool)
    requires
        from <= s.len(),
    ensures
        r == is_exponent(s@.skip(from as int)),
{
    let ghost rest = s@.skip(from as int);
    if s.len() - from < 2 {
        return false;
    }
    assert(rest[0] == s@[from as int] && rest[1] == s@[from + 1]);
    if s[from] != 'e' && s[from] != 'E' {
        return false;
    }
    let start = if s[from + 1] == '+' || s[from + 1] == '-' {
        from + 2
    } else {
        from + 1
    };
    assert(s@.skip(start as int) == rest.skip(start - from));
    digits_to_end(s, start)
}

/// Tells whether `s[from..]` is an unsigned decimal number.
fn decimal_at(s: &Vec<char>, from: usize) -> (r: bool)
    requires
        from <= s.len(),
    ensures
        r == is_decimal(s@.skip(from as int)),
{
    let ghost rest = s@.skip(from as int);
    let whole_end = skip_digits(s, from);
    proof {
        lemma_digit_run_skip(s@, from as int, from as int);
    }
    let has_point = whole_end < s.len() && s[whole_end] == '.';
    let mantissa_end = if has_point {
        proof {
            lemma_digit_run_skip(s@, from as int, whole_end + 1);
        }
        skip_digits(s, whole_end + 1)
    } else {
        whole_end
    };
    let digits = if has_point {
        mantissa_end - from - 1
    } else {
        mantissa_end - from
    };
    if digits < 1 {
        return false;
    }
    if mantissa_end == s.len() {
        return true;
    }
    assert(s@.skip(mantissa_end as int) == rest.skip(mantissa_end - from));
    exponent_at(s, mantissa_end)
}

/// A run of digits is found at the same place in a text and in what is
/// left of the text when its first `k` characters are dropped.
proof fn lemma_digit_run_skip(s: Seq<char>, k: int, from: int)
    requires
        0 <= k <= from <= s.len(),
    ensures
        digit_run(s.skip(k), from - k) == digit_run(s, from) - k,
    decreases s.len() - from,
{
    if from < s.len() && is_digit(s[from]) {
        lemma_digit_run_skip(s, k, from + 1);
    }
}

/// Tells whether `s[from..]` is `lower` when letter case is ignored.
fn spelled_at(s: &Vec<char>, from: usize, lower: &Vec<char>, upper: &Vec<char>) -> (r: bool)
    requires
        from <= s.len(),
        lower.len() == upper.len(),
    ensures
        r == spells(s@.skip(from as int), lower@, upper@),
{
    if s.len() - from != lower.len() {
        return false;
    }
    let ghost rest = s@.skip(from as int);
    let mut i: usize = 0;
    while i < lower.len()
        invariant
            from <= s.len(),
            s.len() - from == lower.len() == upper.len(),
            rest == s@.skip(from as int),
            i <= lower.len(),
            forall|k: int| 0 <= k < i ==> rest[k] == lower[k] || rest[k] == upper[k],
        decreases lower.len() - i,
    {
        assert(rest[i as int] == s@[from + i]);
        if s[from + i] != lower[i] && s[from + i] != upper[i] {
            return false;
        }
        i += 1;
    }
    true
}

/// Tells whether `s[from..]` names infinity or not-a-number.
fn special_at(s: &Vec<char>, from: usize) -> (r: bool)
    requires
        from <= s.len(),
    ensures
        r == is_special(s@.skip(from as int)),
{
    let inf_lower = vec!['i', 'n', 'f'];
    let inf_upper = vec!['I', 'N', 'F'];
    let infinity_lower = vec!['i', 'n', 'f', 'i', 'n', 'i', 't', 'y'];
    let infinity_upper = vec!['I', 'N', 'F', 'I', 'N', 'I', 'T', 'Y'];
    let nan_lower = vec!['n', 'a', 'n'];
    let nan_upper = vec!['N', 'A', 'N'];
    assert(inf_lower@ == seq!['i', 'n', 'f'] && inf_upper@ == seq!['I', 'N', 'F']);
    assert(infinity_lower@ == seq!['i', 'n', 'f', 'i', 'n', 'i', 't', 'y']);
    assert(infinity_upper@ == seq!['I', 'N', 'F', 'I', 'N', 'I', 'T', 'Y']);
    assert(nan_lower@ == seq!['n', 'a', 'n'] && nan_upper@ == seq!['N', 'A', 'N']);
    spelled_at(s, from, &inf_lower, &inf_upper) || spelled_at(
        s,
        from,
        &infinity_lower,
        &infinity_upper,
    ) || spelled_at(s, from, &nan_lower, &nan_upper)
}

/// Tells whether the characters `s` are a decimal floating-point literal.
pub fn float_chars(s: &Vec<char>) -> (r: bool)
    ensures
        r == is_float_text(s@),
{
    let from: usize = if s.len() > 0 && (s[0] == '+' || s[0] == '-') {
        1
    } else {
        0
    };
    assert(without_sign(s@) == s@.skip(from as int));
    decimal_at(s, from) || special_at(s, from)
}

/// Tells whether `text` is a decimal floating-point literal.
pub fn is_float(text: &str) -> (r: bool)
    ensures
        r == is_float_text(text@),
{
    let chars = chars_of(text);
    float_chars(&chars)
}

/// The unsigned 32-bit integer that the characters `s` denote, if any.
pub fn unsigned_chars(s: &Vec<char>) -> (r: Option<u32>)
    ensures
        r == unsigned_of(s@),
{
    let from: usize = if s.len() > 0 && s[0] == '+' {
        1
    } else {
        0
    };
    let ghost digits = s@.skip(from as int);
    assert(without_plus(s@) == digits);
    if from == s.len() {
        return None;
    }
    let mut value: u32 = 0;
    let mut i: usize = from;
    while i < s.len()
        invariant
            from <= i <= s.len(),
            digits == s@.skip(from as int),
            digits == without_plus(s@),
            all_digits(digits.take(i - from)),
            value == decimal_value(digits.take(i - from)),
        decreases s.len() - i,
    {
        let c = s[i];
        assert(digits[i - from] == c);
        assert(digits.take(i - from + 1).drop_last() == digits.take(i - from));
        if !digit(c) {
            return None;
        }
        let d: u32 = (c as u32) - ('0' as u32);
        assert(d == digit_value(c));
        if value > (u32::MAX - d) / 10 {
            proof {
                lemma_decimal_value_prefix(digits, i - from + 1);
            }
            return None;
        }
        value = value * 10 + d;
        i += 1;
    }
    assert(digits.take(i - from) == digits);
    Some(value)
}

/// The unsigned 32-bit integer that `text` denotes, if any.
pub fn parse_unsigned(text: &str) -> (r: Option<u32>)
    ensures
        r == unsigned_of(text@),
{
    let chars = chars_of(text);
    unsigned_chars(&chars)
}

} // verus!
