//! Reading a signed decimal number from text, and doubling the first
//! number of a list.

use vstd::prelude::*;
use vstd::string::*;
use vstd::utf8::*;

verus! {

/// `c` is one of the ten ASCII decimal digits.
pub open spec fn is_digit(c: char) -> bool {
    '0' <= c <= '9'
}

/// Every character of `s` is a decimal digit.
pub open spec fn all_digits(s: Seq<char>) -> bool {
    forall|i: int| 0 <= i < s.len() ==> is_digit(#[trigger] s[i])
}

/// The number that the digits of `s` write in base ten; 0 for no digits.
pub open spec fn digits_value(s: Seq<char>) -> int
    decreases s.len(),
{
    if s.len() == 0 {
        0
    } else {
        10 * digits_value(s.drop_last()) + (s.last() as int - '0' as int)
    }
}

/// `s` begins with a sign character.
pub open spec fn has_sign(s: Seq<char>) -> bool {
    s.len() > 0 && (s[0] == '+' || s[0] == '-')
}

/// The digits of `s`: what follows its sign, or all of it where it has
/// no sign.
pub open spec fn digits_of(s: Seq<char>) -> Seq<char> {
    if has_sign(s) {
        s.subrange(1, s.len() as int)
    } else {
        s
    }
}

/// The number that `s` writes, taken as an optional sign followed by one
/// or more decimal digits and nothing else.
pub open spec fn signed_value(s: Seq<char>) -> int {
    if s.len() > 0 && s[0] == '-' {
        -digits_value(digits_of(s))
    } else {
        digits_value(digits_of(s))
    }
}

/// `s` writes a number that a 32-bit signed integer holds: an optional
/// `+` or `-`, then at least one digit, then nothing, with the value in
/// range.
pub open spec fn is_i32_text(s: Seq<char>) -> bool {
    &&& digits_of(s).len() > 0
    &&& all_digits(digits_of(s))
    &&& i32::MIN <= signed_value(s) <= i32::MAX
}

/// The 32-bit signed integer that `s` writes, if it writes one.
pub open spec fn parsed_i32(s: Seq<char>) -> Option<i32> {
    if is_i32_text(s) {
        Some(signed_value(s) as i32)
    } else {
        None
    }
}

/// The value of a run of digits is never negative.
pub proof fn lemma_digits_value_nonnegative(s: Seq<char>)
    requires
        all_digits(s),
    ensures
        0 <= digits_value(s),
    decreases s.len(),
{
    if s.len() > 0 {
        let init = s.drop_last();
        assert(is_digit(s.last()));
        assert forall|i: int| 0 <= i < init.len() implies is_digit(#[trigger] init[i]) by {
            assert(init[i] == s[i]);
        }
        lemma_digits_value_nonnegative(init);
    }
}

/// The value of a run of digits is never negative, and is at least the
/// value of each of its prefixes.
pub proof fn lemma_digits_value_prefix(s: Seq<char>, k: int)
    requires
        all_digits(s),
        0 <= k <= s.len(),
    ensures
        0 <= digits_value(s.subrange(0, k)) <= digits_value(s),
    decreases s.len() - k,
{
    if k == s.len() {
        assert(s.subrange(0, k) =~= s);
        lemma_digits_value_nonnegative(s);
    } else {
        let init = s.drop_last();
        assert(is_digit(s.last()));
        assert forall|i: int| 0 <= i < init.len() implies is_digit(#[trigger] init[i]) by {
            assert(init[i] == s[i]);
        }
        lemma_digits_value_prefix(init, k);
        assert(init.subrange(0, k) =~= s.subrange(0, k));
    }
}

/// Reads `s` as a 32-bit signed integer written in base ten: an
/// optional `+` or `-`, then one or more ASCII digits, and nothing else.
/// Returns `None` for any other text and for a value out of range.
pub fn parse_i32(s: &str) -> (r: Option<i32>)
    ensures
        r == parsed_i32(s@),
{
    if !s.is_ascii() {
        proof {
            let j = choose|j: int| 0 <= j < s@.len() && !('\0' <= #[trigger] s@[j] <= '\u{7f}');
            if has_sign(s@) {
                assert(j >= 1);
                assert(digits_of(s@)[j - 1] == s@[j]);
            }
        }
        return None;
    }
    let bytes = s.as_bytes();
    proof {
        is_ascii_spec_bytes(s);
    }
    let n: usize = bytes.len();
    if n == 0 {
        return None;
    }
    let negative: bool = bytes[0] == 0x2d;
    let start: usize = if negative || bytes[0] == 0x2b {
        1
    } else {
        0
    };
    if start == n {
        return None;
    }
    let ghost digits = digits_of(s@);
    assert(digits == s@.subrange(start as int, n as int)) by {
        assert(s@ =~= s@.subrange(0, n as int));
    }
    let mut magnitude: u32 = 0;
    let mut i: usize = start;
    while i < n
        invariant
            start <= i <= n,
            n == s@.len(),
            is_ascii(s),
            bytes@ == s.spec_bytes(),
            bytes@ == Seq::new(s@.len(), |k: int| s@[k] as u8),
            digits == s@.subrange(start as int, n as int),
            digits == digits_of(s@),
            negative == (s@[0] == '-'),
            all_digits(digits.subrange(0, i - start)),
            magnitude == digits_value(digits.subrange(0, i - start)),
            magnitude <= 0x8000_0000u32,
        decreases n - i,
    {
        let b: u8 = bytes[i];
        assert(b == s@[i as int] as u8);
        assert(digits[i - start] == s@[i as int]);
        if b < 0x30 || b > 0x39 {
            assert(!is_digit(digits[i - start]));
            return None;
        }
        let digit: u32 = (b - 0x30) as u32;
        proof {
            let before = digits.subrange(0, i - start);
            let after = digits.subrange(0, i - start + 1);
            assert(after.drop_last() =~= before);
            assert(after.last() == digits[i - start]);
            assert(is_digit(digits[i - start]));
            assert(digits_value(after) == 10 * magnitude + digit);
            assert forall|k: int| 0 <= k < after.len() implies is_digit(#[trigger] after[k]) by {
                if k < before.len() {
                    assert(after[k] == before[k]);
                }
            }
            if 10 * magnitude + digit > 0x8000_0000 && is_i32_text(s@) {
                lemma_digits_value_prefix(digits, i - start + 1);
            }
        }
        if magnitude > 214748364 || (magnitude == 214748364 && digit > 8) {
            return None;
        }
        magnitude = magnitude * 10 + digit;
        i += 1;
    }
    assert(digits.subrange(0, n - start) =~= digits);
    if negative {
        if magnitude == 0x8000_0000u32 {
            Some(i32::MIN)
        } else {
            Some(-(magnitude as i32))
        }
    } else if magnitude > 0x7fff_ffffu32 {
        None
    } else {
        Some(magnitude as i32)
    }
}

/// `texts` has a first element, that element writes a 32-bit signed
/// integer, and twice that integer is again one.
pub open spec fn can_double_first(texts: Seq<&str>) -> bool {
    &&& texts.len() > 0
    &&& parsed_i32(texts[0]@) is Some
    &&& i32::MIN <= 2 * parsed_i32(texts[0]@)->0 <= i32::MAX
}

/// Decides whether `double_first` may be called on `vec`.
pub fn check_double_first(vec: &Vec<&str>) -> (ok: bool)
    ensures
        ok == can_double_first(vec@),
{
    if vec.len() == 0 {
        return false;
    }
    match parse_i32(vec[0]) {
        Some(first) => -1073741824 <= first && first <= 1073741823,
        None => false,
    }
}

/// Returns twice the number that the first element of `vec` writes.
pub fn double_first(vec: Vec<&str>) -> (doubled: i32)
    requires
        can_double_first(vec@),
    ensures
        doubled == 2 * parsed_i32(vec@[0]@)->0,
{
    let first = parse_i32(vec[0]).unwrap();
    2 * first
}

} // verus!
