//! Decimal numerals over ASCII bytes: how a length is written in a frame
//! header and how it is read back.

use vstd::prelude::*;

verus! {

/// True for the bytes `'0'..='9'`.
pub open spec fn is_digit(b: u8) -> bool {
    0x30 <= b <= 0x39
}

/// True when every byte of `s` is a decimal digit.
pub open spec fn all_digits(s: Seq<u8>) -> bool {
    forall|i: int| 0 <= i < s.len() ==> is_digit(#[trigger] s[i])
}

/// The shortest decimal numeral of `n`, most significant digit first.
pub open spec fn decimal_digits(n: nat) -> Seq<u8>
    decreases n,
{
    if n < 10 {
        seq![(0x30 + n) as u8]
    } else {
        decimal_digits(n / 10).push((0x30 + n % 10) as u8)
    }
}

/// The number that a sequence of decimal digits denotes; leading zeros are
/// allowed and the empty sequence denotes zero.
pub open spec fn decimal_value(s: Seq<u8>) -> nat
    decreases s.len(),
{
    if s.len() == 0 {
        0
    } else {
        (decimal_value(s.drop_last()) * 10 + (s.last() - 0x30)) as nat
    }
}

/// The digits of a numeral once an optional leading `+` is taken off.
pub open spec fn numeral_digits(s: Seq<u8>) -> Seq<u8> {
    if s.len() > 0 && s[0] == 0x2b {
        s.subrange(1, s.len() as int)
    } else {
        s
    }
}

/// True when `s` is an unsigned decimal numeral: an optional `+`, then at
/// least one digit and nothing else.
pub open spec fn is_numeral(s: Seq<u8>) -> bool {
    numeral_digits(s).len() > 0 && all_digits(numeral_digits(s))
}

/// What reading `s` as a `usize` gives: the value of a numeral that fits, and
/// nothing for any other text.
pub open spec fn parsed_decimal(s: Seq<u8>) -> Option<usize> {
    if is_numeral(s) && decimal_value(numeral_digits(s)) <= usize::MAX {
        Some(decimal_value(numeral_digits(s)) as usize)
    } else {
        None
    }
}

/// A numeral written by `decimal_digits` has at least one byte and only digits.
pub proof fn lemma_decimal_digits_are_digits(n: nat)
    ensures
        decimal_digits(n).len() >= 1,
        all_digits(decimal_digits(n)),
        decimal_digits(n)[0] != 0x2b,
    decreases n,
{
    if n >= 10 {
        lemma_decimal_digits_are_digits(n / 10);
    }
}

/// Reading back what `decimal_digits` wrote gives the number itself.
pub proof fn lemma_decimal_round_trip(n: nat)
    ensures
        decimal_value(decimal_digits(n)) == n,
    decreases n,
{
    if n < 10 {
        let s = decimal_digits(n);
        assert(s.drop_last() =~= Seq::<u8>::empty());
        assert(decimal_value(s.drop_last()) == 0);
    } else {
        lemma_decimal_round_trip(n / 10);
        let s = decimal_digits(n);
        assert(s.drop_last() =~= decimal_digits(n / 10));
    }
}

/// A longer numeral is never smaller than one of its prefixes.
pub proof fn lemma_decimal_value_prefix(s: Seq<u8>, k: int)
    requires
        0 <= k <= s.len(),
        all_digits(s),
    ensures
        decimal_value(s.subrange(0, k)) <= decimal_value(s),
    decreases s.len() - k,
{
    if k == s.len() {
        assert(s.subrange(0, k) =~= s);
    } else {
        lemma_decimal_value_prefix(s, k + 1);
        let t = s.subrange(0, k + 1);
        assert(t.drop_last() =~= s.subrange(0, k));
        assert(is_digit(s[k]));
    }
}

/// Writes `n` as a decimal numeral.
pub fn format_decimal(n: usize) -> (digits: Vec<u8>)
    ensures
        digits@ == decimal_digits(n as nat),
    decreases n,
{
    if n < 10 {
        let mut out: Vec<u8> = Vec::new();
        out.push(0x30u8 + (n as u8));
        out
    } else {
        let mut out = format_decimal(n / 10);
        out.push(0x30u8 + ((n % 10) as u8));
        out
    }
}

/// Reads an unsigned decimal numeral, with an optional leading `+`, as a
/// `usize`. Any other text, and a numeral too large for `usize`, gives `None`.
pub fn parse_decimal(s: &[u8]) -> (value: Option<usize>)
    ensures
        value == parsed_decimal(s@),
{
    let start: usize = if s.len() > 0 && s[0] == 0x2b { 1 } else { 0 };
    let ghost digits = numeral_digits(s@);
    assert(digits =~= s@.subrange(start as int, s.len() as int));
    if start == s.len() {
        return None;
    }
    let mut acc: usize = 0;
    let mut i: usize = start;
    while i < s.len()
        invariant
            start <= i <= s.len(),
            digits == numeral_digits(s@),
            digits == s@.subrange(start as int, s.len() as int),
            all_digits(digits.subrange(0, i - start)),
            acc == decimal_value(digits.subrange(0, i - start)),
        decreases s.len() - i,
    {
        let b = s[i];
        let ghost next = digits.subrange(0, i - start + 1);
        assert(next.drop_last() =~= digits.subrange(0, i - start));
        assert(next.last() == b);
        if b < 0x30 || b > 0x39 {
            assert(!is_digit(digits[i - start]));
            return None;
        }
        let d: usize = (b - 0x30) as usize;
        if acc > (usize::MAX - d) / 10 {
            proof {
                assert(decimal_value(next) == acc * 10 + d);
                assert(decimal_value(next) > usize::MAX);
                if all_digits(digits) {
                    lemma_decimal_value_prefix(digits, i - start + 1);
                }
            }
            return None;
        }
        acc = acc * 10 + d;
        i = i + 1;
        assert(all_digits(next)) by {
            assert forall|j: int| 0 <= j < next.len() implies is_digit(#[trigger] next[j]) by {
                if j < next.len() - 1 {
                    assert(next[j] == digits.subrange(0, i - 1 - start)[j]);
                }
            }
        }
    }
    assert(digits.subrange(0, i - start) =~= digits);
    Some(acc)
}

} // verus!
