//! Lines of a text held as bytes: counting line feeds, and the line and
//! column at which an offset stands.

use vstd::prelude::*;

verus! {

/// The line feed, which ends a line.
pub open spec fn is_newline(b: u8) -> bool {
    b == 0x0a
}

/// How many line feeds `s` holds.
pub open spec fn newline_count(s: Seq<u8>) -> nat
    decreases s.len(),
{
    if s.len() == 0 {
        0
    } else {
        newline_count(s.drop_last()) + if is_newline(s.last()) {
            1nat
        } else {
            0nat
        }
    }
}

/// How many lines `s` has: one for each line feed, and one more for text
/// that stands behind the last line feed. The empty text has no line.
pub open spec fn line_count(s: Seq<u8>) -> nat {
    newline_count(s) + if s.len() > 0 && !is_newline(s.last()) {
        1nat
    } else {
        0nat
    }
}

/// The line, counted from zero, on which the offset `pos` of `t` stands.
pub open spec fn line_of(t: Seq<u8>, pos: int) -> nat {
    newline_count(t.subrange(0, pos))
}

/// The offset at which the line of `pos` begins.
pub open spec fn line_start(t: Seq<u8>, pos: int) -> int
    decreases pos,
{
    if pos <= 0 {
        0
    } else if is_newline(t[pos - 1]) {
        pos
    } else {
        line_start(t, pos - 1)
    }
}

/// The column of the offset `pos`: its distance in bytes from the start of
/// its line.
pub open spec fn col_of(t: Seq<u8>, pos: int) -> int {
    pos - line_start(t, pos)
}

/// `body` as it stands in a document of whole lines: a line feed is added
/// unless `body` already ends in one.
pub open spec fn whole_lines(body: Seq<u8>) -> Seq<u8> {
    if body.len() > 0 && is_newline(body.last()) {
        body
    } else {
        body.push(0x0a)
    }
}

/// The lines that a piece of text takes in a document of whole lines: its
/// own number of lines, and one line even where it is empty.
pub open spec fn lines_taken(body: Seq<u8>) -> nat {
    if line_count(body) == 0 {
        1
    } else {
        line_count(body)
    }
}

/// Line feeds add up over concatenation.
pub proof fn lemma_newline_count_concat(a: Seq<u8>, b: Seq<u8>)
    ensures
        newline_count(a + b) == newline_count(a) + newline_count(b),
    decreases b.len(),
{
    if b.len() == 0 {
        assert(a + b =~= a);
    } else {
        lemma_newline_count_concat(a, b.drop_last());
        assert((a + b).drop_last() =~= a + b.drop_last());
    }
}

/// No text holds more line feeds than bytes.
pub proof fn lemma_newline_count_bound(s: Seq<u8>)
    ensures
        newline_count(s) <= s.len(),
    decreases s.len(),
{
    if s.len() > 0 {
        lemma_newline_count_bound(s.drop_last());
    }
}

/// Text made whole takes as many line feeds as its lines, is not empty and
/// ends in a line feed.
pub proof fn lemma_whole_lines(body: Seq<u8>)
    ensures
        newline_count(whole_lines(body)) == lines_taken(body),
        line_count(whole_lines(body)) == lines_taken(body),
        whole_lines(body).len() > 0,
        is_newline(whole_lines(body).last()),
        lines_taken(body) >= 1,
{
    if body.len() > 0 && is_newline(body.last()) {
    } else {
        assert(body.push(0x0a).drop_last() =~= body);
    }
}

/// One step to the right: how line and line start move over one byte.
pub proof fn lemma_line_step(t: Seq<u8>, pos: int)
    requires
        0 <= pos < t.len(),
    ensures
        line_of(t, pos + 1) == line_of(t, pos) + if is_newline(t[pos]) {
            1nat
        } else {
            0nat
        },
        line_start(t, pos + 1) == if is_newline(t[pos]) {
            pos + 1
        } else {
            line_start(t, pos)
        },
{
    assert(t.subrange(0, pos + 1).drop_last() =~= t.subrange(0, pos));
}

/// The start of a line is never behind an offset on it.
pub proof fn lemma_line_start_bound(t: Seq<u8>, pos: int)
    requires
        0 <= pos,
    ensures
        0 <= line_start(t, pos) <= pos,
    decreases pos,
{
    if pos > 0 && !is_newline(t[pos - 1]) {
        lemma_line_start_bound(t, pos - 1);
    }
}

/// The start of a line is the offset behind the last line feed before the
/// offset, or the start of the text; no line feed lies between.
pub proof fn lemma_line_start_marks(t: Seq<u8>, pos: int)
    requires
        0 <= pos <= t.len(),
    ensures
        line_start(t, pos) == 0 || is_newline(t[line_start(t, pos) - 1]),
        forall|k: int| line_start(t, pos) <= k < pos ==> !is_newline(#[trigger] t[k]),
    decreases pos,
{
    if pos > 0 && !is_newline(t[pos - 1]) {
        lemma_line_start_marks(t, pos - 1);
    }
}

/// An offset that stands at the start of the text or behind a line feed,
/// with no line feed between it and `pos`, is where the line of `pos` begins.
pub proof fn lemma_line_start_is(t: Seq<u8>, start: int, pos: int)
    requires
        0 <= start <= pos <= t.len(),
        start == 0 || is_newline(t[start - 1]),
        forall|k: int| start <= k < pos ==> !is_newline(#[trigger] t[k]),
    ensures
        line_start(t, pos) == start,
    decreases pos - start,
{
    if pos > start {
        assert(!is_newline(t[pos - 1]));
        lemma_line_start_is(t, start, pos - 1);
    }
}

/// Along a stretch without line feeds the line stays and the column grows
/// with the offset.
pub proof fn lemma_along_a_line(t: Seq<u8>, from: int, to: int)
    requires
        0 <= from <= to <= t.len(),
        forall|k: int| from <= k < to ==> !is_newline(#[trigger] t[k]),
    ensures
        line_of(t, to) == line_of(t, from),
        line_start(t, to) == line_start(t, from),
        col_of(t, to) == col_of(t, from) + (to - from),
    decreases to - from,
{
    if from < to {
        lemma_along_a_line(t, from, to - 1);
        assert(!is_newline(t[to - 1]));
        lemma_line_step(t, to - 1);
    }
}

/// Behind a stretch that holds a line feed, the column is the same wherever
/// the stretch stands: in `a` from `x` on or, copied, in `b` from `y` on.
pub proof fn lemma_column_in_a_copy(a: Seq<u8>, x: int, b: Seq<u8>, y: int, n: int)
    requires
        0 <= n,
        0 <= x,
        x + n <= a.len(),
        0 <= y,
        y + n <= b.len(),
        a.subrange(x, x + n) == b.subrange(y, y + n),
        exists|k: int| x <= k < x + n && is_newline(#[trigger] a[k]),
    ensures
        col_of(a, x + n) == col_of(b, y + n),
        line_start(a, x + n) > x,
{
    let sa = line_start(a, x + n);
    lemma_line_start_bound(a, x + n);
    lemma_line_start_marks(a, x + n);
    let k = choose|k: int| x <= k < x + n && is_newline(#[trigger] a[k]);
    assert(sa > k);
    let sb = y + (sa - x);
    assert forall|j: int| 0 <= j < n implies #[trigger] a[x + j] == b[y + j] by {
        assert(a.subrange(x, x + n)[j] == a[x + j]);
        assert(b.subrange(y, y + n)[j] == b[y + j]);
    }
    assert(is_newline(b[sb - 1])) by {
        assert(a[x + (sa - 1 - x)] == b[y + (sa - 1 - x)]);
    }
    assert forall|j: int| sb <= j < y + n implies !is_newline(#[trigger] b[j]) by {
        assert(a[x + (j - y)] == b[y + (j - y)]);
    }
    lemma_line_start_is(b, sb, y + n);
}

/// A text without line feeds counts none, and a text with one counts one at
/// least.
pub proof fn lemma_newline_count_sign(s: Seq<u8>)
    ensures
        (forall|k: int| 0 <= k < s.len() ==> !is_newline(#[trigger] s[k])) ==> newline_count(s) == 0,
        (exists|k: int| 0 <= k < s.len() && is_newline(#[trigger] s[k])) ==> newline_count(s) >= 1,
    decreases s.len(),
{
    if s.len() > 0 {
        let front = s.drop_last();
        lemma_newline_count_sign(front);
        if forall|k: int| 0 <= k < s.len() ==> !is_newline(#[trigger] s[k]) {
            assert forall|k: int| 0 <= k < front.len() implies !is_newline(#[trigger] front[k]) by {
                assert(front[k] == s[k]);
            }
            assert(!is_newline(s[s.len() - 1]));
        }
        if exists|k: int| 0 <= k < s.len() && is_newline(#[trigger] s[k]) {
            let k = choose|k: int| 0 <= k < s.len() && is_newline(#[trigger] s[k]);
            if k < front.len() {
                assert(is_newline(front[k]));
            }
        }
    }
}

/// The lines between two offsets are the line feeds between them.
pub proof fn lemma_line_of_split(t: Seq<u8>, from: int, to: int)
    requires
        0 <= from <= to <= t.len(),
    ensures
        line_of(t, to) == line_of(t, from) + newline_count(t.subrange(from, to)),
{
    lemma_newline_count_concat(t.subrange(0, from), t.subrange(from, to));
    assert(t.subrange(0, to) =~= t.subrange(0, from) + t.subrange(from, to));
}

} // verus!
