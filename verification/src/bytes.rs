//! Small facts and helpers on byte sequences: ASCII constants, white space,
//! trimming and prefixes.

use vstd::prelude::*;
use vstd::string::*;

verus! {

/// The bytes of a sequence of ASCII characters, one byte per character.
pub open spec fn ascii_bytes(s: Seq<char>) -> Seq<u8> {
    Seq::new(s.len(), |i: int| s[i] as u8)
}

/// ASCII white space: space, tab, line feed, vertical tab, form feed and
/// carriage return.
pub open spec fn is_space(b: u8) -> bool {
    b == 0x20 || (0x09 <= b <= 0x0d)
}

/// How many bytes of `s` are left once trailing white space is cut off.
pub open spec fn trim_end_len(s: Seq<u8>) -> nat
    decreases s.len(),
{
    if s.len() > 0 && is_space(s.last()) {
        trim_end_len(s.drop_last())
    } else {
        s.len()
    }
}

/// How many bytes of white space `s` begins with.
pub open spec fn leading_spaces(s: Seq<u8>) -> nat
    decreases s.len(),
{
    if s.len() > 0 && is_space(s[0]) {
        1 + leading_spaces(s.drop_first())
    } else {
        0
    }
}

/// `s` without its trailing white space.
pub open spec fn trim_end(s: Seq<u8>) -> Seq<u8> {
    s.subrange(0, trim_end_len(s) as int)
}

/// `s` without its leading white space.
pub open spec fn trim_start(s: Seq<u8>) -> Seq<u8> {
    s.subrange(leading_spaces(s) as int, s.len() as int)
}

/// `s` without white space at either end.
pub open spec fn trim(s: Seq<u8>) -> Seq<u8> {
    trim_start(trim_end(s))
}

/// True when `s` begins with `prefix`.
pub open spec fn has_prefix(s: Seq<u8>, prefix: Seq<u8>) -> bool {
    prefix.len() <= s.len() && s.subrange(0, prefix.len() as int) == prefix
}

/// The white space that `s` begins with lies within `s`, and what follows it
/// is no white space.
pub proof fn lemma_leading_spaces_bound(s: Seq<u8>)
    ensures
        leading_spaces(s) <= s.len(),
        leading_spaces(s) < s.len() ==> !is_space(s[leading_spaces(s) as int]),
        forall|i: int| 0 <= i < leading_spaces(s) ==> is_space(#[trigger] s[i]),
    decreases s.len(),
{
    if s.len() > 0 && is_space(s[0]) {
        lemma_leading_spaces_bound(s.drop_first());
        assert forall|i: int| 0 <= i < leading_spaces(s) implies is_space(#[trigger] s[i]) by {
            if i > 0 {
                assert(s[i] == s.drop_first()[i - 1]);
            }
        }
    }
}

/// The end of `s` after trimming is fixed by where its last byte that is no
/// white space stands.
pub proof fn lemma_trim_end_len_is(s: Seq<u8>, n: int)
    requires
        0 <= n <= s.len(),
        n > 0 ==> !is_space(s[n - 1]),
        forall|i: int| n <= i < s.len() ==> is_space(#[trigger] s[i]),
    ensures
        trim_end_len(s) == n,
    decreases s.len(),
{
    if s.len() > 0 && is_space(s.last()) {
        assert(n < s.len());
        lemma_trim_end_len_is(s.drop_last(), n);
    } else if s.len() > 0 {
        assert(n == s.len());
    }
}

/// The white space that `s` begins with is fixed by where its first byte
/// that is no white space stands.
pub proof fn lemma_leading_spaces_is(s: Seq<u8>, n: int)
    requires
        0 <= n <= s.len(),
        n < s.len() ==> !is_space(s[n]),
        forall|i: int| 0 <= i < n ==> is_space(#[trigger] s[i]),
    ensures
        leading_spaces(s) == n,
    decreases s.len(),
{
    if s.len() > 0 && is_space(s[0]) {
        assert(n > 0);
        let t = s.drop_first();
        assert forall|i: int| 0 <= i < n - 1 implies is_space(#[trigger] t[i]) by {
            assert(t[i] == s[i + 1]);
        }
        lemma_leading_spaces_is(t, n - 1);
    } else if s.len() > 0 {
        if n > 0 {
            assert(is_space(s[0]));
        }
    }
}

/// The index, within `s[..end]`, that follows its last byte that is no white
/// space.
pub(crate) fn trim_end_index(s: &[u8], end: usize) -> (n: usize)
    requires
        end <= s.len(),
    ensures
        n <= end,
        n == trim_end_len(s@.subrange(0, end as int)),
{
    let mut n: usize = end;
    while n > 0 && is_space_byte(s[n - 1])
        invariant
            n <= end <= s.len(),
            forall|i: int| n <= i < end ==> is_space(#[trigger] s@[i]),
        decreases n,
    {
        n = n - 1;
    }
    proof {
        lemma_trim_end_len_is(s@.subrange(0, end as int), n as int);
    }
    n
}

/// The index of the first byte of `s[start..end]` that is no white space, or
/// `end` when there is none.
pub(crate) fn trim_start_index(s: &[u8], start: usize, end: usize) -> (n: usize)
    requires
        start <= end <= s.len(),
    ensures
        start <= n <= end,
        n == start + leading_spaces(s@.subrange(start as int, end as int)),
{
    let mut n: usize = start;
    while n < end && is_space_byte(s[n])
        invariant
            start <= n <= end <= s.len(),
            forall|i: int| start <= i < n ==> is_space(#[trigger] s@[i]),
        decreases end - n,
    {
        n = n + 1;
    }
    proof {
        lemma_leading_spaces_is(s@.subrange(start as int, end as int), n - start);
    }
    n
}

/// Tells whether `b` is ASCII white space.
pub fn is_space_byte(b: u8) -> (yes: bool)
    ensures
        yes == is_space(b),
{
    b == 0x20 || (0x09 <= b && b <= 0x0d)
}

/// Tells whether `s[..end]` begins with the ASCII text `prefix`.
pub(crate) fn starts_with_ascii(s: &[u8], end: usize, prefix: &str) -> (yes: bool)
    requires
        end <= s.len(),
        is_ascii(prefix),
    ensures
        yes == has_prefix(s@.subrange(0, end as int), ascii_bytes(prefix@)),
{
    let p = prefix.as_bytes();
    proof {
        is_ascii_spec_bytes(prefix);
    }
    assert(p@ =~= ascii_bytes(prefix@));
    if p.len() > end {
        return false;
    }
    let mut i: usize = 0;
    while i < p.len()
        invariant
            i <= p.len() <= end <= s.len(),
            p@ == ascii_bytes(prefix@),
            forall|j: int| 0 <= j < i ==> s@[j] == p@[j],
        decreases p.len() - i,
    {
        if s[i] != p[i] {
            assert(s@.subrange(0, end as int).subrange(0, p@.len() as int)[i as int] != p@[i as int]);
            return false;
        }
        i = i + 1;
    }
    assert(s@.subrange(0, end as int).subrange(0, p@.len() as int) =~= p@);
    true
}

/// Appends the bytes of the ASCII text `text` to `out`.
pub(crate) fn push_ascii(out: &mut Vec<u8>, text: &str)
    requires
        is_ascii(text),
    ensures
        final(out)@ == old(out)@ + ascii_bytes(text@),
{
    let t = text.as_bytes();
    proof {
        is_ascii_spec_bytes(text);
    }
    assert(t@ =~= ascii_bytes(text@));
    push_bytes(out, t);
}

/// Appends `bytes` to `out`.
pub fn push_bytes(out: &mut Vec<u8>, bytes: &[u8])
    ensures
        final(out)@ == old(out)@ + bytes@,
{
    let mut i: usize = 0;
    while i < bytes.len()
        invariant
            i <= bytes.len(),
            out@ == old(out)@ + bytes@.subrange(0, i as int),
        decreases bytes.len() - i,
    {
        out.push(bytes[i]);
        i = i + 1;
        assert(out@ =~= old(out)@ + bytes@.subrange(0, i as int));
    }
    assert(bytes@.subrange(0, i as int) =~= bytes@);
}

} // verus!
