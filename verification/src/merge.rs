//! Bringing diagnostics together for publishing: in the order of their
//! ranges, and each finding once.

use vstd::prelude::*;
use crate::model::{diagnostic_views, Diagnostic, DiagnosticView, Position, TextRange};

verus! {

/// `a` stands before `b` in a text.
pub open spec fn position_lt(a: Position, b: Position) -> bool {
    a.line < b.line || (a.line == b.line && a.character < b.character)
}

/// The order of ranges: by their start, and by their end where they start at
/// the same place.
pub open spec fn range_le(a: TextRange, b: TextRange) -> bool {
    position_lt(a.start, b.start) || (a.start == b.start && !position_lt(b.end, a.end))
}

/// Two diagnostics say the same of the same range.
pub open spec fn same_finding(a: DiagnosticView, b: DiagnosticView) -> bool {
    a.range == b.range && a.message == b.message
}

/// True when `items` holds a diagnostic that says what `item` says.
pub open spec fn holds_finding(items: Seq<DiagnosticView>, item: DiagnosticView) -> bool {
    exists|i: int| 0 <= i < items.len() && same_finding(#[trigger] items[i], item)
}

/// True when the ranges of `items` never go down.
pub open spec fn in_range_order(items: Seq<DiagnosticView>) -> bool {
    forall|i: int, j: int|
        0 <= i <= j < items.len() ==> range_le((#[trigger] items[i]).range, (#[trigger] items[j]).range)
}

/// True when no two of `items` say the same of the same range.
pub open spec fn each_once(items: Seq<DiagnosticView>) -> bool {
    forall|i: int, j: int|
        0 <= i < j < items.len() ==> !same_finding(#[trigger] items[i], #[trigger] items[j])
}

/// Where `item` goes into `items`: behind the last one whose range is not
/// behind its own.
pub open spec fn slot(items: Seq<DiagnosticView>, item: DiagnosticView) -> int
    decreases items.len(),
{
    if items.len() == 0 {
        0
    } else if range_le(items.last().range, item.range) {
        items.len() as int
    } else {
        slot(items.drop_last(), item)
    }
}

/// `items` with `item` put in its place, unless `items` already says what
/// `item` says.
pub open spec fn placed(items: Seq<DiagnosticView>, item: DiagnosticView) -> Seq<DiagnosticView> {
    if holds_finding(items, item) {
        items
    } else {
        items.insert(slot(items, item), item)
    }
}

/// The diagnostics of `items` in the order of their ranges, each finding
/// once. Of diagnostics with the same range the one that comes first in
/// `items` stands first, and of diagnostics that say the same the first one
/// stays.
pub open spec fn arranged(items: Seq<DiagnosticView>) -> Seq<DiagnosticView>
    decreases items.len(),
{
    if items.len() == 0 {
        Seq::empty()
    } else {
        placed(arranged(items.drop_last()), items.last())
    }
}

/// What is published for a document: the translated diagnostics of the Java
/// language server and the structural diagnostics, arranged together.
pub open spec fn merged(translated: Seq<DiagnosticView>, structural: Seq<DiagnosticView>) -> Seq<
    DiagnosticView,
> {
    arranged(translated + structural)
}

/// The order of ranges is total and transitive.
pub proof fn lemma_range_order(a: TextRange, b: TextRange, c: TextRange)
    ensures
        range_le(a, b) || range_le(b, a),
        range_le(a, b) && range_le(b, c) ==> range_le(a, c),
        range_le(a, b) && range_le(b, a) ==> a == b,
        range_le(a, a),
{
}

/// The slot of an item lies within the sequence; in a sequence in range
/// order, what stands before it is not behind the item and what stands from
/// it on is behind the item.
pub proof fn lemma_slot(items: Seq<DiagnosticView>, item: DiagnosticView)
    requires
        in_range_order(items),
    ensures
        0 <= slot(items, item) <= items.len(),
        forall|i: int| 0 <= i < slot(items, item) ==> range_le((#[trigger] items[i]).range, item.range),
        forall|i: int|
            slot(items, item) <= i < items.len() ==> !range_le((#[trigger] items[i]).range, item.range),
    decreases items.len(),
{
    if items.len() == 0 {
    } else if range_le(items.last().range, item.range) {
        assert forall|i: int| 0 <= i < items.len() implies range_le(
            (#[trigger] items[i]).range,
            item.range,
        ) by {
            lemma_range_order(items[i].range, items.last().range, item.range);
        }
    } else {
        let front = items.drop_last();
        assert(in_range_order(front)) by {
            assert forall|i: int, j: int| 0 <= i <= j < front.len() implies range_le(
                (#[trigger] front[i]).range,
                (#[trigger] front[j]).range,
            ) by {
                assert(front[i] == items[i] && front[j] == items[j]);
            }
        }
        lemma_slot(front, item);
        assert forall|i: int| slot(items, item) <= i < items.len() implies !range_le(
            (#[trigger] items[i]).range,
            item.range,
        ) by {
            if i < front.len() {
                assert(front[i] == items[i]);
            }
        }
        assert forall|i: int| 0 <= i < slot(items, item) implies range_le(
            (#[trigger] items[i]).range,
            item.range,
        ) by {
            assert(front[i] == items[i]);
        }
    }
}

/// Putting an item in its place keeps the range order and keeps each finding
/// once; the result says what was said before and what the item says, and
/// nothing else.
pub proof fn lemma_placed(items: Seq<DiagnosticView>, item: DiagnosticView)
    requires
        in_range_order(items),
        each_once(items),
    ensures
        in_range_order(placed(items, item)),
        each_once(placed(items, item)),
        holds_finding(placed(items, item), item),
        forall|d: DiagnosticView| holds_finding(items, d) ==> holds_finding(placed(items, item), d),
        forall|i: int|
            0 <= i < placed(items, item).len() ==> (#[trigger] placed(items, item)[i]) == item
                || items.contains(placed(items, item)[i]),
{
    let out = placed(items, item);
    if holds_finding(items, item) {
        assert forall|i: int| 0 <= i < out.len() implies (#[trigger] out[i]) == item
            || items.contains(out[i]) by {
            assert(items[i] == out[i]);
        }
    } else {
        lemma_slot(items, item);
        let k = slot(items, item);
        assert forall|i: int, j: int| 0 <= i <= j < out.len() implies range_le(
            (#[trigger] out[i]).range,
            (#[trigger] out[j]).range,
        ) by {
            let a = if i < k {
                items[i]
            } else if i == k {
                item
            } else {
                items[i - 1]
            };
            let b = if j < k {
                items[j]
            } else if j == k {
                item
            } else {
                items[j - 1]
            };
            assert(out[i] == a && out[j] == b);
            if j > k {
                lemma_range_order(items[j - 1].range, item.range, item.range);
                if i < k {
                    lemma_range_order(items[i].range, item.range, items[j - 1].range);
                }
            }
            lemma_range_order(a.range, b.range, b.range);
        }
        assert forall|i: int, j: int| 0 <= i < j < out.len() implies !same_finding(
            #[trigger] out[i],
            #[trigger] out[j],
        ) by {
            if i == k {
                assert(out[j] == items[j - 1]);
            } else if j == k {
                assert(out[i] == items[i]);
            } else {
                let ii = if i < k {
                    i
                } else {
                    i - 1
                };
                let jj = if j < k {
                    j
                } else {
                    j - 1
                };
                assert(out[i] == items[ii] && out[j] == items[jj]);
            }
        }
        assert(same_finding(out[k], item));
        assert forall|d: DiagnosticView| holds_finding(items, d) implies holds_finding(out, d) by {
            let i = choose|i: int| 0 <= i < items.len() && same_finding(#[trigger] items[i], d);
            let to = if i < k {
                i
            } else {
                i + 1
            };
            assert(out[to] == items[i]);
        }
        assert forall|i: int| 0 <= i < out.len() implies (#[trigger] out[i]) == item
            || items.contains(out[i]) by {
            if i < k {
                assert(out[i] == items[i]);
            } else if i > k {
                assert(out[i] == items[i - 1]);
            }
        }
    }
}

/// What is arranged is in the order of its ranges and holds each finding
/// once; it says what the diagnostics that went in say, and each of its
/// diagnostics is one of them.
pub proof fn lemma_arranged(items: Seq<DiagnosticView>)
    ensures
        in_range_order(arranged(items)),
        each_once(arranged(items)),
        forall|k: int| 0 <= k < items.len() ==> holds_finding(arranged(items), #[trigger] items[k]),
        forall|i: int|
            0 <= i < arranged(items).len() ==> items.contains(#[trigger] arranged(items)[i]),
    decreases items.len(),
{
    if items.len() > 0 {
        let front = items.drop_last();
        lemma_arranged(front);
        lemma_placed(arranged(front), items.last());
        let out = arranged(items);
        assert forall|k: int| 0 <= k < items.len() implies holds_finding(out, #[trigger] items[k]) by {
            if k < front.len() {
                assert(front[k] == items[k]);
                assert(holds_finding(arranged(front), front[k]));
            }
        }
        assert forall|i: int| 0 <= i < out.len() implies items.contains(#[trigger] out[i]) by {
            if out[i] == items.last() {
                assert(items[items.len() - 1] == out[i]);
            } else {
                assert(arranged(front).contains(out[i]));
                let j = choose|j: int| 0 <= j < arranged(front).len() && arranged(front)[j] == out[i];
                assert(front.contains(arranged(front)[j]));
                let k = choose|k: int| 0 <= k < front.len() && front[k] == out[i];
                assert(items[k] == out[i]);
            }
        }
    }
}

/// Tells whether `a` stands before `b`.
fn position_before(a: Position, b: Position) -> (yes: bool)
    ensures
        yes == position_lt(a, b),
{
    a.line < b.line || (a.line == b.line && a.character < b.character)
}

/// Tells whether the range `a` is not behind the range `b`.
pub fn range_not_behind(a: TextRange, b: TextRange) -> (yes: bool)
    ensures
        yes == range_le(a, b),
{
    position_before(a.start, b.start) || (a.start.line == b.start.line && a.start.character
        == b.start.character && !position_before(b.end, a.end))
}

/// Tells whether `items` holds a diagnostic that says what `item` says.
fn has_finding(items: &Vec<Diagnostic>, item: &Diagnostic) -> (yes: bool)
    ensures
        yes == holds_finding(diagnostic_views(items@), item@),
{
    let ghost views = diagnostic_views(items@);
    let mut i: usize = 0;
    while i < items.len()
        invariant
            i <= items@.len(),
            views == diagnostic_views(items@),
            forall|k: int| 0 <= k < i ==> !same_finding(#[trigger] views[k], item@),
        decreases items@.len() - i,
    {
        let other = &items[i];
        assert(views[i as int] == other@);
        if other.range.start.line == item.range.start.line && other.range.start.character
            == item.range.start.character && other.range.end.line == item.range.end.line
            && other.range.end.character == item.range.end.character && other.message
            == item.message {
            return true;
        }
        i = i + 1;
    }
    false
}

/// Puts a copy of `item` in its place in `items`, unless `items` already
/// says what `item` says.
fn place(items: &mut Vec<Diagnostic>, item: &Diagnostic)
    ensures
        diagnostic_views(final(items)@) == placed(diagnostic_views(old(items)@), item@),
{
    if has_finding(items, item) {
        return ;
    }
    let ghost views = diagnostic_views(items@);
    let mut k: usize = items.len();
    assert(views.subrange(0, k as int) =~= views);
    while k > 0 && !range_not_behind(items[k - 1].range, item.range)
        invariant
            k <= items@.len(),
            views == diagnostic_views(items@),
            slot(views, item@) == slot(views.subrange(0, k as int), item@),
        decreases k,
    {
        assert(views.subrange(0, k as int).last() == items@[k - 1]@);
        assert(views.subrange(0, k as int).drop_last() =~= views.subrange(0, k - 1));
        k = k - 1;
    }
    proof {
        if k > 0 {
            assert(views.subrange(0, k as int).last() == items@[k - 1]@);
        }
    }
    let copy = item.duplicate();
    items.insert(k, copy);
    assert(diagnostic_views(items@) =~= views.insert(k as int, item@));
}

/// Arranges the translated diagnostics of the Java language server and the
/// structural diagnostics for publishing: in the order of their ranges, and
/// each finding, a range with a message, once.
pub fn merge_diagnostics(translated: &Vec<Diagnostic>, structural: &Vec<Diagnostic>) -> (out: Vec<
    Diagnostic,
>)
    ensures
        diagnostic_views(out@) == merged(
            diagnostic_views(translated@),
            diagnostic_views(structural@),
        ),
        in_range_order(diagnostic_views(out@)),
        each_once(diagnostic_views(out@)),
{
    let ghost first = diagnostic_views(translated@);
    let ghost second = diagnostic_views(structural@);
    let ghost all = first + second;
    let mut out: Vec<Diagnostic> = Vec::new();
    let mut i: usize = 0;
    assert(all.subrange(0, 0) =~= Seq::empty());
    assert(diagnostic_views(out@) =~= Seq::empty());
    while i < translated.len()
        invariant
            i <= translated@.len(),
            first == diagnostic_views(translated@),
            all == first + second,
            diagnostic_views(out@) == arranged(all.subrange(0, i as int)),
        decreases translated@.len() - i,
    {
        proof {
            assert(all.subrange(0, i + 1).drop_last() =~= all.subrange(0, i as int));
            assert(all.subrange(0, i + 1).last() == translated@[i as int]@);
        }
        place(&mut out, &translated[i]);
        i = i + 1;
    }
    let mut j: usize = 0;
    while j < structural.len()
        invariant
            j <= structural@.len(),
            first == diagnostic_views(translated@),
            second == diagnostic_views(structural@),
            all == first + second,
            diagnostic_views(out@) == arranged(all.subrange(0, first.len() + j)),
        decreases structural@.len() - j,
    {
        proof {
            let n = first.len() + j;
            assert(all.subrange(0, n + 1).drop_last() =~= all.subrange(0, n as int));
            assert(all.subrange(0, n + 1).last() == structural@[j as int]@);
        }
        place(&mut out, &structural[j]);
        j = j + 1;
    }
    proof {
        assert(all.subrange(0, first.len() + j) =~= all);
        lemma_arranged(all);
    }
    out
}

} // verus!
