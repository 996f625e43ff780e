//! Answers typed at prompts, and the decimal numbers the tools read and write.

use vstd::prelude::*;
use crate::text::{trim, trim_str};
use crate::ci144::{hex_char, hex_digit};

verus! {

/// The code point of `c`, with ASCII upper case letters mapped to lower case.
pub open spec fn ascii_lower(c: char) -> int {
    if 'A' <= c && c <= 'Z' {
        (c as int) + 32
    } else {
        c as int
    }
}

/// Equality up to ASCII case, as `str::eq_ignore_ascii_case` decides it.
pub open spec fn eq_ignore_case(a: Seq<char>, b: Seq<char>) -> bool {
    a.len() == b.len() && forall|i: int| 0 <= i < a.len() ==> #[trigger] ascii_lower(a[i]) == ascii_lower(b[i])
}

fn lower_char(c: char) -> (r: u32)
    ensures
        r as int == ascii_lower(c),
{
    let v: u32 = c as u32;
    if 'A' <= c && c <= 'Z' {
        v + 32
    } else {
        v
    }
}

/// Whether two strings are equal up to ASCII case.
pub fn eq_ignore_case_str(a: &str, b: &str) -> (r: bool)
    ensures
        r == eq_ignore_case(a@, b@),
{
    let n = a.unicode_len();
    if n != b.unicode_len() {
        return false;
    }
    let mut i: usize = 0;
    while i < n
        invariant
            n == a@.len(),
            n == b@.len(),
            i <= n,
            forall|j: int| 0 <= j < i ==> #[trigger] ascii_lower(a@[j]) == ascii_lower(b@[j]),
        decreases n - i,
    {
        if lower_char(a.get_char(i)) != lower_char(b.get_char(i)) {
            return false;
        }
        i = i + 1;
    }
    true
}

/// An answer to a `[y/N]` prompt accepts when, trimmed, it is `y` or `yes`
/// in any case.
pub open spec fn spec_confirms(input: Seq<char>) -> bool {
    eq_ignore_case(trim(input), "y"@) || eq_ignore_case(trim(input), "yes"@)
}

/// Whether an answer to a `[y/N]` prompt accepts (see `spec_confirms`).
pub fn confirms(input: &str) -> (r: bool)
    ensures
        r == spec_confirms(input@),
{
    let t = trim_str(input);
    eq_ignore_case_str(t, "y") || eq_ignore_case_str(t, "yes")
}

/// An answer to a `[Y/n]` prompt that takes an empty answer as yes: trimmed,
/// it is empty, `y` or `yes` in any case.
pub open spec fn spec_confirms_or_empty(input: Seq<char>) -> bool {
    trim(input).len() == 0 || spec_confirms(input)
}

/// Whether an answer accepts, an empty one included (see `spec_confirms_or_empty`).
pub fn confirms_or_empty(input: &str) -> (r: bool)
    ensures
        r == spec_confirms_or_empty(input@),
{
    trim_str(input).unicode_len() == 0 || confirms(input)
}

/// The decimal digit for `d < 10`.
pub open spec fn digit_char(d: int) -> char {
    hex_char(d)
}

/// Whether `c` is an ASCII decimal digit.
pub open spec fn is_digit(c: char) -> bool {
    '0' <= c && c <= '9'
}

/// The decimal rendering of `n`, without leading zeros.
pub open spec fn decimal(n: nat) -> Seq<char>
    decreases n,
{
    if n < 10 {
        seq![digit_char(n as int)]
    } else {
        decimal(n / 10).push(digit_char((n % 10) as int))
    }
}

/// The value of a sequence of decimal digits.
pub open spec fn digits_value(s: Seq<char>) -> nat
    decreases s.len(),
{
    if s.len() == 0 {
        0
    } else {
        digits_value(s.drop_last()) * 10 + ((s.last() as int) - 48) as nat
    }
}

/// Whether `s` is a non-empty run of decimal digits.
pub open spec fn all_digits(s: Seq<char>) -> bool {
    s.len() > 0 && forall|i: int| 0 <= i < s.len() ==> #[trigger] is_digit(s[i])
}

/// The number `str::parse` reads for an unsigned type: an optional `+`
/// and then decimal digits, nothing else.
pub open spec fn unsigned_text(s: Seq<char>) -> Option<nat> {
    if s.len() > 0 && s[0] == '+' && all_digits(s.skip(1)) {
        Some(digits_value(s.skip(1)))
    } else if all_digits(s) {
        Some(digits_value(s))
    } else {
        None
    }
}

/// The number `str::parse` reads for a signed type: an optional `+` or `-`
/// and then decimal digits, nothing else.
pub open spec fn signed_text(s: Seq<char>) -> Option<int> {
    if s.len() > 0 && s[0] == '-' && all_digits(s.skip(1)) {
        Some(-(digits_value(s.skip(1)) as int))
    } else {
        match unsigned_text(s) {
            Some(v) => Some(v as int),
            None => None,
        }
    }
}

/// `str::parse::<u16>`: `Some` exactly when the text is a number of the
/// form of `unsigned_text` that fits in a `u16`.
#[verifier::external_body]
pub(crate) fn parse_u16(s: &str) -> (r: Option<u16>)
    ensures
        r matches Some(v) ==> unsigned_text(s@) == Some(v as nat),
        r is None ==> match unsigned_text(s@) {
            Some(v) => v > u16::MAX,
            None => true,
        },
{
    s.parse::<u16>().ok()
}

/// `str::parse::<usize>`: `Some` exactly when the text is a number of the
/// form of `unsigned_text` that fits in a `usize`.
#[verifier::external_body]
pub(crate) fn parse_usize(s: &str) -> (r: Option<usize>)
    ensures
        r matches Some(v) ==> unsigned_text(s@) == Some(v as nat),
        r is None ==> match unsigned_text(s@) {
            Some(v) => v > usize::MAX,
            None => true,
        },
{
    s.parse::<usize>().ok()
}

/// `str::parse::<i32>`: `Some` exactly when the text is a number of the
/// form of `signed_text` that fits in an `i32`.
#[verifier::external_body]
pub(crate) fn parse_i32(s: &str) -> (r: Option<i32>)
    ensures
        r matches Some(v) ==> signed_text(s@) == Some(v as int),
        r is None ==> match signed_text(s@) {
            Some(v) => v < i32::MIN || v > i32::MAX,
            None => true,
        },
{
    s.parse::<i32>().ok()
}

/// The decimal rendering of `n` (see `decimal`).
pub fn decimal_string(n: u64) -> (r: String)
    ensures
        r@ == decimal(n as nat),
    decreases n,
{
    if n < 10 {
        String::from_str(hex_digit(n))
    } else {
        let mut s = decimal_string(n / 10);
        s.append(hex_digit(n % 10));
        s
    }
}

} // verus!
