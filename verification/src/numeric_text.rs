//! Decimal text of unsigned integers, both ways.

use vstd::prelude::*;
use vstd::string::*;

verus! {

/// The character of a decimal digit `d` (`0 <= d < 10`).
pub open spec fn digit_char(d: nat) -> char {
    ((d + 48) as u32) as char
}

/// The shortest decimal text of `n`, most significant digit first.
pub open spec fn decimal_text(n: nat) -> Seq<char>
    decreases n,
{
    if n < 10 {
        seq![digit_char(n)]
    } else {
        decimal_text(n / 10).push(digit_char(n % 10))
    }
}

/// Appends `c` to `s` with `String::push`.
///
/// Trusted: the contract says what std documents, that the character is
/// added at the end and nothing else changes.
#[verifier::external_body]
pub(crate) fn push_char(s: &mut String, c: char)
    ensures
        final(s)@ == old(s)@.push(c),
{
    s.push(c)
}

fn digit(d: u64) -> (c: char)
    requires
        d < 10,
    ensures
        c == digit_char(d as nat),
{
    let b: u8 = 48u8 + (d as u8);
    b as char
}

/// The decimal text of `n`, as `n.to_string()` writes it.
pub fn decimal_string(n: u64) -> (s: String)
    ensures
        s@ == decimal_text(n as nat),
    decreases n,
{
    if n < 10 {
        let mut s = String::new();
        push_char(&mut s, digit(n));
        s
    } else {
        let mut s = decimal_string(n / 10);
        push_char(&mut s, digit(n % 10));
        s
    }
}

/// Whether `c` is an ASCII decimal digit.
pub open spec fn is_digit_char(c: char) -> bool {
    '0' <= c && c <= '9'
}

/// The value of the decimal digit character `c`.
pub open spec fn digit_value(c: char) -> nat {
    (c as int - 48) as nat
}

/// Every character of `s` is an ASCII decimal digit.
pub open spec fn all_digits(s: Seq<char>) -> bool {
    forall|i: int| 0 <= i < s.len() ==> is_digit_char(#[trigger] s[i])
}

/// The value of a run of decimal digits, most significant first.
pub open spec fn digits_value(s: Seq<char>) -> nat
    decreases s.len(),
{
    if s.len() == 0 {
        0
    } else {
        digits_value(s.drop_last()) * 10 + digit_value(s.last())
    }
}

/// The digits that `str::parse::<u32>` reads: the text without one leading `+`.
pub open spec fn unsigned_digits(s: Seq<char>) -> Seq<char> {
    if s.len() > 0 && s[0] == '+' {
        s.drop_first()
    } else {
        s
    }
}

/// What `str::parse::<u32>` gives: an optional `+`, then one or more ASCII
/// digits (leading zeros allowed) whose value fits in 32 bits; anything else
/// is refused.
pub open spec fn parse_u32_text(s: Seq<char>) -> Option<u32> {
    let digits = unsigned_digits(s);
    if digits.len() > 0 && all_digits(digits) && digits_value(digits) <= u32::MAX {
        Some(digits_value(digits) as u32)
    } else {
        None
    }
}

/// A longer run of digits is worth at least as much as its prefix.
proof fn lemma_prefix_value_le(s: Seq<char>, k: int)
    requires
        all_digits(s),
        0 <= k <= s.len(),
    ensures
        digits_value(s.take(k)) <= digits_value(s),
    decreases s.len(),
{
    if k < s.len() {
        let t = s.drop_last();
        assert(t.take(k) =~= s.take(k));
        assert(all_digits(t)) by {
            assert forall|i: int| 0 <= i < t.len() implies is_digit_char(#[trigger] t[i]) by {
                assert(t[i] == s[i]);
            }
        }
        lemma_prefix_value_le(t, k);
    } else {
        assert(s.take(k) =~= s);
    }
}

proof fn lemma_digit_char(d: nat)
    requires
        d < 10,
    ensures
        is_digit_char(digit_char(d)),
        digit_value(digit_char(d)) == d,
{
    let x: u32 = (d + 48) as u32;
    assert(x == d + 48);
    assert((x as char) as u32 == x);
}

/// The value of the decimal text of `n` is `n`, and the text is all digits.
pub proof fn lemma_decimal_text_value(n: nat)
    ensures
        all_digits(decimal_text(n)),
        decimal_text(n).len() > 0,
        digits_value(decimal_text(n)) == n,
    decreases n,
{
    lemma_digit_char(n % 10);
    if n >= 10 {
        lemma_decimal_text_value(n / 10);
        let t = decimal_text(n / 10);
        let s = decimal_text(n);
        assert(s.drop_last() =~= t);
        assert(s.last() == digit_char(n % 10));
        assert(digits_value(s) == digits_value(t) * 10 + digit_value(s.last()));
        assert((n / 10) * 10 + n % 10 == n);
        assert(all_digits(s)) by {
            assert forall|i: int| 0 <= i < s.len() implies is_digit_char(#[trigger] s[i]) by {
                if i < t.len() {
                    assert(s[i] == t[i]);
                }
            }
        }
    } else {
        let s = decimal_text(n);
        assert(s.drop_last() =~= Seq::<char>::empty());
        assert(n % 10 == n);
        assert(digits_value(s) == digits_value(s.drop_last()) * 10 + digit_value(s.last()));
    }
}

/// Reading back the decimal text of a 32-bit number gives the number.
pub proof fn lemma_parse_decimal_round_trip(n: u32)
    ensures
        parse_u32_text(decimal_text(n as nat)) == Some(n),
{
    lemma_decimal_text_value(n as nat);
    let s = decimal_text(n as nat);
    assert(is_digit_char(s[0]));
    assert(unsigned_digits(s) == s);
}

/// Parses `s` as `str::parse::<u32>` does.
pub fn parse_u32(s: &str) -> (r: Option<u32>)
    ensures
        r == parse_u32_text(s@),
{
    if !s.is_ascii() {
        proof {
            let i = choose|i: int| 0 <= i < s@.len() && !('\0' <= #[trigger] s@[i] <= '\u{7f}');
            let d = unsigned_digits(s@);
            if s@.len() > 0 && s@[0] == '+' {
                assert(d[i - 1] == s@[i]);
                assert(!is_digit_char(d[i - 1]));
            } else {
                assert(!is_digit_char(d[i]));
            }
        }
        return None;
    }
    let n = s.unicode_len();
    let mut i: usize = 0;
    if n > 0 && s.get_ascii(0) == 43u8 {
        i = 1;
    }
    let start = i;
    let ghost digits = unsigned_digits(s@);
    assert(digits =~= s@.subrange(start as int, n as int));
    if i == n {
        return None;
    }
    let mut value: u64 = 0;
    while i < n
        invariant
            start <= i <= n,
            n == s@.len(),
            is_ascii(s),
            digits == unsigned_digits(s@),
            digits =~= s@.subrange(start as int, n as int),
            all_digits(digits.take(i - start)),
            value == digits_value(digits.take(i - start)),
            value <= u32::MAX,
        decreases n - i,
    {
        let b = s.get_ascii(i);
        let ghost c = s@[i as int];
        assert(c == digits[i - start]);
        if b < 48u8 || b > 57u8 {
            assert(!is_digit_char(digits[i - start]));
            return None;
        }
        let ghost prefix = digits.take(i - start + 1);
        assert(prefix.drop_last() =~= digits.take(i - start));
        assert(all_digits(prefix)) by {
            assert forall|j: int| 0 <= j < prefix.len() implies is_digit_char(#[trigger] prefix[j]) by {
                if j < prefix.len() - 1 {
                    assert(prefix[j] == digits.take(i - start)[j]);
                }
            }
        }
        value = value * 10 + ((b - 48u8) as u64);
        if value > 0xFFFF_FFFFu64 {
            proof {
                if all_digits(digits) {
                    lemma_prefix_value_le(digits, i - start + 1);
                }
            }
            return None;
        }
        i = i + 1;
    }
    assert(digits.take(n - start) =~= digits);
    Some(value as u32)
}

} // verus!
