//! The data that the bridge works on: positions and diagnostics, scriptlet
//! blocks, and the virtual Java document that is assembled from them.

use vstd::prelude::*;
use vstd::utf8::encode_utf8;
use crate::lines::{
    lemma_newline_count_concat, lemma_whole_lines, line_count, lines_taken, newline_count,
    whole_lines,
};

verus! {

/// A place in a text: a line and a column on it, both counted from zero.
#[derive(Clone, Copy, Debug, PartialEq, Eq, Structural)]
pub struct Position {
    pub line: usize,
    pub character: usize,
}

/// The text between two places.
#[derive(Clone, Copy, Debug, PartialEq, Eq, Structural)]
pub struct TextRange {
    pub start: Position,
    pub end: Position,
}

/// How grave a diagnostic is.
#[derive(Clone, Copy, Debug, PartialEq, Eq, Structural)]
pub enum Severity {
    Error,
    Warning,
    Information,
    Hint,
}

/// A finding about a range of a text. The same type serves for the JSP
/// source and for the virtual Java document.
#[derive(Clone, Debug, PartialEq, Eq)]
pub struct Diagnostic {
    pub range: TextRange,
    pub severity: Severity,
    pub message: String,
}

/// What a `Diagnostic` is, as a mathematical value.
pub struct DiagnosticView {
    pub range: TextRange,
    pub severity: Severity,
    pub message: Seq<char>,
}

impl View for Diagnostic {
    type V = DiagnosticView;

    open spec fn view(&self) -> DiagnosticView {
        DiagnosticView { range: self.range, severity: self.severity, message: self.message@ }
    }
}

/// The views of a run of diagnostics, in order.
pub open spec fn diagnostic_views(items: Seq<Diagnostic>) -> Seq<DiagnosticView> {
    Seq::new(items.len(), |i: int| items[i]@)
}

impl Diagnostic {
    /// A copy of this diagnostic.
    pub fn duplicate(&self) -> (copy: Diagnostic)
        ensures
            copy@ == self@,
    {
        Diagnostic { range: self.range, severity: self.severity, message: self.message.clone() }
    }
}

/// One scriptlet: where its opening delimiter stands in the JSP source, which
/// lines of the virtual document it fills, and its text, verbatim.
#[derive(Clone, Debug, PartialEq, Eq)]
pub struct ScriptletBlock {
    pub jsp_start_line: usize,
    pub jsp_start_col: usize,
    pub java_start_line: usize,
    pub java_line_count: usize,
    pub text: String,
}

/// What a `ScriptletBlock` is, as a mathematical value; the text as bytes.
pub struct BlockView {
    pub jsp_start_line: nat,
    pub jsp_start_col: nat,
    pub java_start_line: nat,
    pub java_line_count: nat,
    pub text: Seq<u8>,
}

impl View for ScriptletBlock {
    type V = BlockView;

    open spec fn view(&self) -> BlockView {
        BlockView {
            jsp_start_line: self.jsp_start_line as nat,
            jsp_start_col: self.jsp_start_col as nat,
            java_start_line: self.java_start_line as nat,
            java_line_count: self.java_line_count as nat,
            text: encode_utf8(self.text@),
        }
    }
}

/// The views of a run of blocks, in order.
pub open spec fn block_views(items: Seq<ScriptletBlock>) -> Seq<BlockView> {
    Seq::new(items.len(), |i: int| items[i]@)
}

/// The lines that a run of blocks fills, all together.
pub open spec fn total_lines(blocks: Seq<BlockView>) -> nat
    decreases blocks.len(),
{
    if blocks.len() == 0 {
        0
    } else {
        total_lines(blocks.drop_last()) + blocks.last().java_line_count
    }
}

/// The text of the virtual document: the text of each block in order, each
/// made up to whole lines.
pub open spec fn joined_text(blocks: Seq<BlockView>) -> Seq<u8>
    decreases blocks.len(),
{
    if blocks.len() == 0 {
        Seq::empty()
    } else {
        joined_text(blocks.drop_last()) + whole_lines(blocks.last().text)
    }
}

/// What a `VirtualDocument` is, as a mathematical value; the text as bytes.
pub struct DocumentView {
    pub uri: Seq<char>,
    pub text: Seq<u8>,
    pub blocks: Seq<BlockView>,
}

/// The rule that ties a block to the lines it fills: it takes the lines of
/// its text, at least one, and begins where the blocks before it end.
pub open spec fn blocks_laid_out(blocks: Seq<BlockView>) -> bool {
    forall|i: int|
        0 <= i < blocks.len() ==> {
            &&& (#[trigger] blocks[i]).java_line_count == lines_taken(blocks[i].text)
            &&& blocks[i].java_start_line == total_lines(blocks.subrange(0, i))
        }
}

/// The invariant of a virtual document: its blocks are laid out one after
/// the other, and its text is the text of its blocks.
pub open spec fn well_formed(doc: DocumentView) -> bool {
    &&& blocks_laid_out(doc.blocks)
    &&& doc.text == joined_text(doc.blocks)
}

/// The synthetic Java document that stands for the scriptlets of one JSP
/// text. It is rebuilt for every version of the text.
#[derive(Debug, PartialEq, Eq)]
pub struct VirtualDocument {
    uri: String,
    text: String,
    blocks: Vec<ScriptletBlock>,
}

impl View for VirtualDocument {
    type V = DocumentView;

    closed spec fn view(&self) -> DocumentView {
        DocumentView {
            uri: self.uri@,
            text: encode_utf8(self.text@),
            blocks: block_views(self.blocks@),
        }
    }
}

impl VirtualDocument {
    /// What every virtual document obeys: the invariant of its view, and
    /// line numbers that fit the machine.
    #[verifier::type_invariant]
    closed spec fn holds_together(&self) -> bool {
        &&& well_formed(self@)
        &&& total_lines(self@.blocks) <= usize::MAX
        &&& forall|i: int|
            0 <= i < self.blocks@.len() ==> (#[trigger] self.blocks@[i]).jsp_start_line
                + self.blocks@[i].java_line_count <= usize::MAX
    }

    /// Puts a document together from parts that obey its invariant.
    pub(crate) fn assemble(uri: String, text: String, blocks: Vec<ScriptletBlock>) -> (doc:
        VirtualDocument)
        requires
            blocks_laid_out(block_views(blocks@)),
            encode_utf8(text@) == joined_text(block_views(blocks@)),
            total_lines(block_views(blocks@)) <= usize::MAX,
            forall|i: int|
                0 <= i < blocks@.len() ==> (#[trigger] blocks@[i]).jsp_start_line
                    + blocks@[i].java_line_count <= usize::MAX,
        ensures
            doc@.uri == uri@,
            doc@.text == encode_utf8(text@),
            doc@.blocks == block_views(blocks@),
    {
        VirtualDocument { uri, text, blocks }
    }

    /// The synthetic URI under which the document is shown to the Java
    /// language server.
    pub fn uri(&self) -> (uri: &str)
        ensures
            uri@ == self@.uri,
    {
        self.uri.as_str()
    }

    /// The Java text of the document.
    pub fn text(&self) -> (text: &str)
        ensures
            encode_utf8(text@) == self@.text,
    {
        self.text.as_str()
    }

    /// The blocks of the document, in the order in which they were closed.
    pub fn blocks(&self) -> (blocks: &Vec<ScriptletBlock>)
        ensures
            block_views(blocks@) == self@.blocks,
            well_formed(self@),
    {
        proof {
            use_type_invariant(self);
        }
        &self.blocks
    }

    /// How many lines the document has.
    pub fn line_count(&self) -> (count: usize)
        ensures
            count == total_lines(self@.blocks),
            count == line_count(self@.text),
    {
        proof {
            use_type_invariant(self);
            lemma_document_lines(self@);
        }
        let mut count: usize = 0;
        let mut i: usize = 0;
        while i < self.blocks.len()
            invariant
                i <= self.blocks@.len(),
                count == total_lines(block_views(self.blocks@).subrange(0, i as int)),
                total_lines(block_views(self.blocks@)) <= usize::MAX,
            decreases self.blocks@.len() - i,
        {
            let ghost all = block_views(self.blocks@);
            proof {
                assert(all.subrange(0, i + 1).drop_last() =~= all.subrange(0, i as int));
                lemma_total_lines_prefix(all, i + 1);
            }
            count = count + self.blocks[i].java_line_count;
            i = i + 1;
        }
        assert(block_views(self.blocks@).subrange(0, i as int) =~= block_views(self.blocks@));
        count
    }
}

/// The views of a run of diagnostics with one more at its end.
pub proof fn lemma_diagnostic_views_push(items: Seq<Diagnostic>, last: Diagnostic)
    ensures
        diagnostic_views(items.push(last)) == diagnostic_views(items).push(last@),
{
    assert(diagnostic_views(items.push(last)) =~= diagnostic_views(items).push(last@));
}

/// The views of a run of blocks with one more at its end.
pub proof fn lemma_block_views_push(items: Seq<ScriptletBlock>, last: ScriptletBlock)
    ensures
        block_views(items.push(last)) == block_views(items).push(last@),
{
    assert(block_views(items.push(last)) =~= block_views(items).push(last@));
}

/// A run of blocks fills at least as many lines as any of its prefixes.
pub proof fn lemma_total_lines_prefix(blocks: Seq<BlockView>, k: int)
    requires
        0 <= k <= blocks.len(),
    ensures
        total_lines(blocks.subrange(0, k)) <= total_lines(blocks),
    decreases blocks.len() - k,
{
    if k == blocks.len() {
        assert(blocks.subrange(0, k) =~= blocks);
    } else {
        lemma_total_lines_prefix(blocks, k + 1);
        assert(blocks.subrange(0, k + 1).drop_last() =~= blocks.subrange(0, k));
    }
}

/// The text of blocks that take the lines of their own text has one line
/// feed for each line that the blocks fill, and ends in one.
pub proof fn lemma_joined_text_lines(blocks: Seq<BlockView>)
    requires
        forall|i: int|
            0 <= i < blocks.len() ==> (#[trigger] blocks[i]).java_line_count == lines_taken(
                blocks[i].text,
            ),
    ensures
        newline_count(joined_text(blocks)) == total_lines(blocks),
        line_count(joined_text(blocks)) == total_lines(blocks),
    decreases blocks.len(),
{
    if blocks.len() > 0 {
        let front = blocks.drop_last();
        let piece = whole_lines(blocks.last().text);
        assert forall|i: int| 0 <= i < front.len() implies (#[trigger] front[i]).java_line_count
            == lines_taken(front[i].text) by {
            assert(front[i] == blocks[i]);
        }
        lemma_joined_text_lines(front);
        lemma_whole_lines(blocks.last().text);
        lemma_newline_count_concat(joined_text(front), piece);
        assert((joined_text(front) + piece).last() == piece.last());
    }
}

/// In a virtual document the line count of the text is the sum of the line
/// counts of its blocks.
pub proof fn lemma_document_lines(doc: DocumentView)
    requires
        well_formed(doc),
    ensures
        line_count(doc.text) == total_lines(doc.blocks),
        newline_count(doc.text) == total_lines(doc.blocks),
{
    lemma_joined_text_lines(doc.blocks);
}

} // verus!
