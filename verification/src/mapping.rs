//! From virtual Java coordinates back to JSP coordinates: the diagnostics of
//! the Java language server are placed where the scriptlet stands in the JSP
//! source.

use vstd::prelude::*;
use crate::model::{
    block_views, diagnostic_views, BlockView, Diagnostic, DiagnosticView, Position,
    ScriptletBlock, TextRange, VirtualDocument,
};

verus! {

/// True when the virtual line `line` is one of the lines of `block`.
pub open spec fn owns_line(block: BlockView, line: int) -> bool {
    block.java_start_line <= line < block.java_start_line + block.java_line_count
}

/// The first block from index `from` on that owns the virtual line `line`.
pub open spec fn owner_from(blocks: Seq<BlockView>, line: int, from: int) -> Option<int>
    decreases blocks.len() - from,
{
    if from < 0 || from >= blocks.len() {
        None
    } else if owns_line(blocks[from], line) {
        Some(from)
    } else {
        owner_from(blocks, line, from + 1)
    }
}

/// The block that owns the virtual line `line`: the first one, in the order
/// of the document, whose lines hold it.
pub open spec fn owner(blocks: Seq<BlockView>, line: int) -> Option<int> {
    owner_from(blocks, line, 0)
}

/// A number brought into the range of `usize`.
pub open spec fn clamp(x: int) -> usize {
    if x < 0 {
        0
    } else if x > usize::MAX {
        usize::MAX
    } else {
        x as usize
    }
}

/// The JSP line of the virtual line `line` of `block`.
pub open spec fn jsp_line(block: BlockView, line: int) -> int {
    block.jsp_start_line + (line - block.java_start_line)
}

/// The JSP column of a column on the virtual line `line` of `block`. The
/// first line of a block begins behind its opening delimiter, which is two
/// bytes long; every other line begins at column zero in both texts.
pub open spec fn jsp_character(block: BlockView, line: int, character: int) -> int {
    if line == block.java_start_line {
        character + block.jsp_start_col + 2
    } else {
        character
    }
}

/// A virtual position carried over to the JSP source by the rule of `block`.
pub open spec fn to_jsp_position(block: BlockView, at: Position) -> Position {
    Position {
        line: clamp(jsp_line(block, at.line as int)),
        character: clamp(jsp_character(block, at.line as int, at.character as int)),
    }
}

/// A virtual range carried over to the JSP source by the rule of `block`.
pub open spec fn to_jsp_range(block: BlockView, range: TextRange) -> TextRange {
    TextRange { start: to_jsp_position(block, range.start), end: to_jsp_position(block, range.end) }
}

/// A diagnostic of the virtual document in JSP coordinates: its range goes by
/// the rule of the block that owns the line on which it starts. A diagnostic
/// that starts on a line of no block has no place in the JSP source.
pub open spec fn to_jsp_diagnostic(blocks: Seq<BlockView>, item: DiagnosticView) -> Option<
    DiagnosticView,
> {
    match owner(blocks, item.range.start.line as int) {
        Some(i) => Some(DiagnosticView { range: to_jsp_range(blocks[i], item.range), ..item }),
        None => None,
    }
}

/// The diagnostics of the virtual document that have a place in the JSP
/// source, each in JSP coordinates, in their order.
pub open spec fn to_jsp_diagnostics(blocks: Seq<BlockView>, items: Seq<DiagnosticView>) -> Seq<
    DiagnosticView,
>
    decreases items.len(),
{
    if items.len() == 0 {
        Seq::empty()
    } else {
        let before = to_jsp_diagnostics(blocks, items.drop_last());
        match to_jsp_diagnostic(blocks, items.last()) {
            Some(item) => before.push(item),
            None => before,
        }
    }
}

/// What `owner_from` finds is a block that owns the line, and no block
/// between `from` and it does.
pub proof fn lemma_owner_from(blocks: Seq<BlockView>, line: int, from: int)
    requires
        0 <= from,
    ensures
        match owner_from(blocks, line, from) {
            Some(i) => from <= i < blocks.len() && owns_line(blocks[i], line) && forall|k: int|
                from <= k < i ==> !owns_line(#[trigger] blocks[k], line),
            None => forall|k: int| from <= k < blocks.len() ==> !owns_line(#[trigger] blocks[k], line),
        },
    decreases blocks.len() - from,
{
    if from < blocks.len() && !owns_line(blocks[from], line) {
        lemma_owner_from(blocks, line, from + 1);
    }
}

/// Finds the block that owns the virtual line `line`.
pub fn find_owner(document: &VirtualDocument, line: usize) -> (found: Option<usize>)
    ensures
        match found {
            Some(i) => owner(document@.blocks, line as int) == Some(i as int) && i
                < document@.blocks.len(),
            None => owner(document@.blocks, line as int).is_none(),
        },
{
    let blocks = document.blocks();
    let ghost views = block_views(blocks@);
    let mut i: usize = 0;
    while i < blocks.len()
        invariant
            i <= blocks@.len(),
            views == block_views(blocks@),
            views == document@.blocks,
            owner(views, line as int) == owner_from(views, line as int, i as int),
        decreases blocks@.len() - i,
    {
        let block = &blocks[i];
        assert(views[i as int] == block@);
        if block.java_start_line <= line && line - block.java_start_line < block.java_line_count {
            return Some(i);
        }
        i = i + 1;
    }
    None
}

/// Carries a virtual position over to the JSP source by the rule of `block`.
pub fn position_to_jsp(block: &ScriptletBlock, at: Position) -> (mapped: Position)
    ensures
        mapped == to_jsp_position(block@, at),
{
    let line = if at.line >= block.java_start_line {
        block.jsp_start_line.saturating_add(at.line - block.java_start_line)
    } else {
        block.jsp_start_line.saturating_sub(block.java_start_line - at.line)
    };
    let character = if at.line == block.java_start_line {
        at.character.saturating_add(block.jsp_start_col).saturating_add(2)
    } else {
        at.character
    };
    Position { line, character }
}

/// Carries a diagnostic of the virtual document over to the JSP source, or
/// gives `None` where it starts on a line of no block.
pub fn diagnostic_to_jsp(document: &VirtualDocument, item: &Diagnostic) -> (mapped: Option<
    Diagnostic,
>)
    ensures
        match to_jsp_diagnostic(document@.blocks, item@) {
            Some(view) => mapped matches Some(d) && d@ == view,
            None => mapped.is_none(),
        },
{
    match find_owner(document, item.range.start.line) {
        Some(i) => {
            let blocks = document.blocks();
            assert(block_views(blocks@).len() == blocks@.len());
            let block = &blocks[i];
            assert(block_views(blocks@)[i as int] == block@);
            Some(
                Diagnostic {
                    range: TextRange {
                        start: position_to_jsp(block, item.range.start),
                        end: position_to_jsp(block, item.range.end),
                    },
                    severity: item.severity,
                    message: item.message.clone(),
                },
            )
        },
        None => None,
    }
}

/// Carries the diagnostics of the virtual document over to the JSP source;
/// those that start on a line of no block are left out.
pub fn diagnostics_to_jsp(document: &VirtualDocument, items: &Vec<Diagnostic>) -> (mapped: Vec<
    Diagnostic,
>)
    ensures
        diagnostic_views(mapped@) == to_jsp_diagnostics(document@.blocks, diagnostic_views(items@)),
{
    let mut mapped: Vec<Diagnostic> = Vec::new();
    let ghost all = diagnostic_views(items@);
    let mut i: usize = 0;
    assert(all.subrange(0, 0) =~= Seq::empty());
    assert(diagnostic_views(mapped@) =~= Seq::empty());
    while i < items.len()
        invariant
            i <= items@.len(),
            all == diagnostic_views(items@),
            diagnostic_views(mapped@) == to_jsp_diagnostics(
                document@.blocks,
                all.subrange(0, i as int),
            ),
        decreases items@.len() - i,
    {
        let ghost seen = mapped@;
        proof {
            assert(all.subrange(0, i + 1).drop_last() =~= all.subrange(0, i as int));
            assert(all.subrange(0, i + 1).last() == items@[i as int]@);
        }
        match diagnostic_to_jsp(document, &items[i]) {
            Some(item) => {
                mapped.push(item);
                assert(diagnostic_views(mapped@) =~= diagnostic_views(seen).push(item@));
            },
            None => {},
        }
        i = i + 1;
    }
    assert(all.subrange(0, i as int) =~= all);
    mapped
}

} // verus!
