//! From JSP text to the virtual Java document: the scriptlets between `<%`
//! and `%>` are taken out, and every delimiter without a partner is reported.

use vstd::prelude::*;
use vstd::string::StringExecFns;
use vstd::string::StringSliceAdditionalSpecFns;
use vstd::utf8::{encode_utf8, is_ascii_chars_encode_utf8};
use crate::lines::{
    col_of, is_newline, lemma_line_of_split, lemma_line_start_bound, lemma_line_step,
    lemma_newline_count_bound, line_count, line_of, line_start, lines_taken, whole_lines,
};
use crate::model::{
    block_views, blocks_laid_out, diagnostic_views, joined_text, lemma_block_views_push,
    lemma_diagnostic_views_push, lemma_joined_text_lines, total_lines, well_formed, BlockView,
    Diagnostic, DiagnosticView, DocumentView, Position, ScriptletBlock, Severity, TextRange,
    VirtualDocument,
};
use crate::unicode::{between_ascii, lemma_encode_utf8_concat};

verus! {

/// True when the delimiter `<%` stands at `pos`.
pub open spec fn is_opener(t: Seq<u8>, pos: int) -> bool {
    0 <= pos && pos + 1 < t.len() && t[pos] == 0x3c && t[pos + 1] == 0x25
}

/// True when the delimiter `%>` stands at `pos`.
pub open spec fn is_closer(t: Seq<u8>, pos: int) -> bool {
    0 <= pos && pos + 1 < t.len() && t[pos] == 0x25 && t[pos + 1] == 0x3e
}

/// What a scan has found so far, as offsets into the text.
pub struct Scan {
    /// The openers that still wait for a closer, oldest first.
    pub open: Seq<int>,
    /// The matched pairs, opener and closer, in the order of their closers.
    pub pairs: Seq<(int, int)>,
    /// The closers that found no opener waiting.
    pub unopened: Seq<int>,
}

/// The scan from `pos` to the end of the text. The cursor moves past each
/// delimiter that it meets, so no byte is part of two delimiters; a closer
/// is matched with the opener that was met last and still waits.
pub open spec fn scan_from(t: Seq<u8>, pos: int, found: Scan) -> Scan
    decreases t.len() - pos,
{
    if pos < 0 || pos >= t.len() {
        found
    } else if is_opener(t, pos) {
        scan_from(t, pos + 2, Scan { open: found.open.push(pos), ..found })
    } else if is_closer(t, pos) {
        if found.open.len() == 0 {
            scan_from(t, pos + 2, Scan { unopened: found.unopened.push(pos), ..found })
        } else {
            scan_from(
                t,
                pos + 2,
                Scan {
                    open: found.open.drop_last(),
                    pairs: found.pairs.push((found.open.last(), pos)),
                    ..found
                },
            )
        }
    } else {
        scan_from(t, pos + 1, found)
    }
}

/// The scan of a whole text.
pub open spec fn scan(t: Seq<u8>) -> Scan {
    scan_from(t, 0, Scan { open: Seq::empty(), pairs: Seq::empty(), unopened: Seq::empty() })
}

/// How many delimiters of one sort the cursor meets from `pos` on: openers
/// where `openers` is true, closers where it is false.
pub open spec fn delimiters_from(t: Seq<u8>, pos: int, openers: bool) -> nat
    decreases t.len() - pos,
{
    if pos < 0 || pos >= t.len() {
        0
    } else if is_opener(t, pos) {
        delimiters_from(t, pos + 2, openers) + if openers {
            1nat
        } else {
            0nat
        }
    } else if is_closer(t, pos) {
        delimiters_from(t, pos + 2, openers) + if openers {
            0nat
        } else {
            1nat
        }
    } else {
        delimiters_from(t, pos + 1, openers)
    }
}

/// How many `<%` the text holds.
pub open spec fn opener_count(t: Seq<u8>) -> nat {
    delimiters_from(t, 0, true)
}

/// How many `%>` the text holds.
pub open spec fn closer_count(t: Seq<u8>) -> nat {
    delimiters_from(t, 0, false)
}

/// True when every delimiter of the text has a partner.
pub open spec fn balanced(t: Seq<u8>) -> bool {
    scan(t).open.len() == 0 && scan(t).unopened.len() == 0
}

/// The text between the two delimiters of a pair.
pub open spec fn body_of(t: Seq<u8>, pair: (int, int)) -> Seq<u8> {
    t.subrange(pair.0 + 2, pair.1)
}

/// The blocks that the pairs give, in order; each begins on the virtual line
/// at which the blocks before it end.
pub open spec fn blocks_of(t: Seq<u8>, pairs: Seq<(int, int)>) -> Seq<BlockView>
    decreases pairs.len(),
{
    if pairs.len() == 0 {
        Seq::empty()
    } else {
        let before = blocks_of(t, pairs.drop_last());
        before.push(
            BlockView {
                jsp_start_line: line_of(t, pairs.last().0),
                jsp_start_col: col_of(t, pairs.last().0) as nat,
                java_start_line: total_lines(before),
                java_line_count: lines_taken(body_of(t, pairs.last())),
                text: body_of(t, pairs.last()),
            },
        )
    }
}

/// The URI of every virtual document. Its scheme is not `file`, so it is the
/// URI of no real file.
pub open spec fn virtual_uri() -> Seq<char> {
    "jsp-virtual:///Scriptlets.java"@
}

/// The virtual document of a JSP text.
pub open spec fn document_of(t: Seq<u8>) -> DocumentView {
    DocumentView {
        uri: virtual_uri(),
        text: joined_text(blocks_of(t, scan(t).pairs)),
        blocks: blocks_of(t, scan(t).pairs),
    }
}

/// The range of the two bytes of the delimiter at `pos`.
pub open spec fn delimiter_range(t: Seq<u8>, pos: int) -> TextRange {
    TextRange {
        start: Position { line: line_of(t, pos) as usize, character: col_of(t, pos) as usize },
        end: Position { line: line_of(t, pos) as usize, character: (col_of(t, pos) + 2) as usize },
    }
}

/// The warning about a closer without an opener.
pub open spec fn unopened_diagnostic(t: Seq<u8>, pos: int) -> DiagnosticView {
    DiagnosticView {
        range: delimiter_range(t, pos),
        severity: Severity::Warning,
        message: "Unopened %> tag"@,
    }
}

/// The warning about an opener without a closer.
pub open spec fn unclosed_diagnostic(t: Seq<u8>, pos: int) -> DiagnosticView {
    DiagnosticView {
        range: delimiter_range(t, pos),
        severity: Severity::Warning,
        message: "Unclosed <% tag"@,
    }
}

/// The structural diagnostics of a JSP text: one for each closer without an
/// opener, in source order, then one for each opener that is never closed,
/// in source order.
pub open spec fn structural_diagnostics(t: Seq<u8>) -> Seq<DiagnosticView> {
    unopened_diagnostics(t, scan(t).unopened) + unclosed_diagnostics(t, scan(t).open)
}

/// The warnings about the closers at `closers`, in order.
pub open spec fn unopened_diagnostics(t: Seq<u8>, closers: Seq<int>) -> Seq<DiagnosticView> {
    Seq::new(closers.len(), |i: int| unopened_diagnostic(t, closers[i]))
}

/// The warnings about the openers at `openers`, in order.
pub open spec fn unclosed_diagnostics(t: Seq<u8>, openers: Seq<int>) -> Seq<DiagnosticView> {
    Seq::new(openers.len(), |i: int| unclosed_diagnostic(t, openers[i]))
}

/// What translating a JSP text gives.
#[derive(Debug, PartialEq, Eq)]
pub struct Translation {
    /// The virtual Java document.
    pub document: VirtualDocument,
    /// The structural diagnostics, in JSP coordinates.
    pub diagnostics: Vec<Diagnostic>,
}

/// An opener that waits for its closer.
struct Opener {
    line: usize,
    col: usize,
    offset: usize,
}

/// What the scanner holds while it walks through a text.
struct Scanner {
    open: Vec<Opener>,
    blocks: Vec<ScriptletBlock>,
    diagnostics: Vec<Diagnostic>,
    java: String,
    java_lines: usize,
}

/// What the scanner knows of the openers that wait.
spec fn openers_match(t: Seq<u8>, pos: int, open: Seq<Opener>, offsets: Seq<int>) -> bool {
    &&& open.len() == offsets.len()
    &&& forall|i: int|
        0 <= i < open.len() ==> {
            &&& (#[trigger] open[i]).offset == offsets[i]
            &&& open[i].line == line_of(t, offsets[i])
            &&& open[i].col == col_of(t, offsets[i])
            &&& open[i].col + 2 <= t.len()
            &&& is_opener(t, offsets[i])
            &&& offsets[i] + 2 <= pos
        }
}

impl Scanner {
    /// True when the scanner holds what the scan of `t` up to `pos` has found.
    spec fn tracks(&self, t: Seq<u8>, pos: int, found: Scan) -> bool {
        &&& openers_match(t, pos, self.open@, found.open)
        &&& block_views(self.blocks@) == blocks_of(t, found.pairs)
        &&& encode_utf8(self.java@) == joined_text(blocks_of(t, found.pairs))
        &&& self.java_lines == total_lines(blocks_of(t, found.pairs))
        &&& forall|i: int|
            0 <= i < self.blocks@.len() ==> (#[trigger] self.blocks@[i]).jsp_start_line
                + self.blocks@[i].java_line_count <= usize::MAX
        &&& diagnostic_views(self.diagnostics@) == unopened_diagnostics(t, found.unopened)
    }

    /// Notes the opener at `pos`.
    fn opener(
        &mut self,
        Ghost(t): Ghost<Seq<u8>>,
        Ghost(found): Ghost<Scan>,
        line: usize,
        col: usize,
        pos: usize,
    )
        requires
            old(self).tracks(t, pos as int, found),
            is_opener(t, pos as int),
            line == line_of(t, pos as int),
            col == col_of(t, pos as int),
            col <= pos,
            t.len() <= usize::MAX,
        ensures
            final(self).tracks(t, pos + 2, Scan { open: found.open.push(pos as int), ..found }),
    {
        let ghost before = self.open@;
        self.open.push(Opener { line, col, offset: pos });
        proof {
            let offsets = found.open.push(pos as int);
            assert forall|i: int| 0 <= i < self.open@.len() implies {
                &&& (#[trigger] self.open@[i]).offset == offsets[i]
                &&& self.open@[i].line == line_of(t, offsets[i])
                &&& self.open@[i].col == col_of(t, offsets[i])
                &&& self.open@[i].col + 2 <= t.len()
                &&& is_opener(t, offsets[i])
                &&& offsets[i] + 2 <= pos + 2
            } by {
                if i < before.len() {
                    assert(self.open@[i] == before[i]);
                }
            }
        }
    }

    /// Notes the closer at `pos`, which finds no opener waiting.
    fn stray_closer(
        &mut self,
        Ghost(t): Ghost<Seq<u8>>,
        Ghost(found): Ghost<Scan>,
        line: usize,
        col: usize,
        pos: usize,
    )
        requires
            old(self).tracks(t, pos as int, found),
            found.open.len() == 0,
            is_closer(t, pos as int),
            line == line_of(t, pos as int),
            col == col_of(t, pos as int),
            col <= pos,
            t.len() <= usize::MAX,
        ensures
            final(self).tracks(
                t,
                pos + 2,
                Scan { unopened: found.unopened.push(pos as int), ..found },
            ),
    {
        proof {
            reveal_strlit("Unopened %> tag");
        }
        let ghost seen = self.diagnostics@;
        self.diagnostics.push(delimiter_diagnostic(line, col, "Unopened %> tag"));
        proof {
            lemma_diagnostic_views_push(seen, self.diagnostics@[seen.len() as int]);
            assert(self.diagnostics@ =~= seen.push(self.diagnostics@[seen.len() as int]));
            assert(unopened_diagnostics(t, found.unopened.push(pos as int)) =~= unopened_diagnostics(
                t,
                found.unopened,
            ).push(unopened_diagnostic(t, pos as int)));
        }
    }

    /// Makes a block of the text between the opener that was met last and
    /// the closer at `pos`.
    fn close(&mut self, text: &str, Ghost(found): Ghost<Scan>, line: usize, pos: usize)
        requires
            old(self).tracks(text.spec_bytes(), pos as int, found),
            found.open.len() > 0,
            is_closer(text.spec_bytes(), pos as int),
            line == line_of(text.spec_bytes(), pos as int),
            text.spec_bytes().len() <= usize::MAX,
        ensures
            final(self).tracks(
                text.spec_bytes(),
                pos + 2,
                Scan {
                    open: found.open.drop_last(),
                    pairs: found.pairs.push((found.open.last(), pos as int)),
                    ..found
                },
            ),
    {
        let ghost t = text.spec_bytes();
        let bytes = text.as_bytes();
        let ghost waiting = self.open@;
        let opener = self.open.pop().unwrap();
        let ghost pair = (opener.offset as int, pos as int);
        let ghost body = body_of(t, pair);
        let ghost before = blocks_of(t, found.pairs);
        let ghost pairs = found.pairs.push(pair);
        proof {
            assert(opener == waiting[waiting.len() - 1]);
            assert(opener.offset == found.open.last());
            lemma_line_step(t, opener.offset as int);
            lemma_line_step(t, opener.offset + 1);
            lemma_line_of_split(t, opener.offset + 2, pos as int);
            lemma_newline_count_bound(t.subrange(0, pos as int));
            assert(pairs.drop_last() =~= found.pairs);
            assert(blocks_of(t, pairs).drop_last() =~= before);
        }
        let part = between_ascii(text, opener.offset + 2, pos);
        let ends_in_newline = pos > opener.offset + 2 && bytes[pos - 1] == 0x0a;
        let count = (line - opener.line) + if ends_in_newline {
            0usize
        } else {
            1usize
        };
        assert(count == lines_taken(body));
        self.append_lines(part, ends_in_newline);
        proof {
            assert(encode_utf8(self.java@) == joined_text(blocks_of(t, pairs)));
            lemma_blocks_of_laid_out(t, pairs);
            lemma_joined_text_lines(blocks_of(t, pairs));
            lemma_newline_count_bound(joined_text(blocks_of(t, pairs)));
        }
        let java_bytes = self.java.as_str().as_bytes();
        assert(java_bytes@.len() <= usize::MAX) by {
            assert(java_bytes.len() == java_bytes@.len());
        }
        let ghost seen = self.blocks@;
        let block = ScriptletBlock {
            jsp_start_line: opener.line,
            jsp_start_col: opener.col,
            java_start_line: self.java_lines,
            java_line_count: count,
            text: part.to_owned(),
        };
        assert(block@ == blocks_of(t, pairs).last());
        self.blocks.push(block);
        self.java_lines = self.java_lines + count;
        proof {
            lemma_block_views_push(seen, block);
            assert(self.blocks@ =~= seen.push(block));
            assert(blocks_of(t, pairs) =~= before.push(block@));
            assert forall|i: int| 0 <= i < self.blocks@.len() implies (
            #[trigger] self.blocks@[i]).jsp_start_line + self.blocks@[i].java_line_count
                <= usize::MAX by {
                if i < seen.len() {
                    assert(self.blocks@[i] == seen[i]);
                }
            }
            let rest = found.open.drop_last();
            assert forall|i: int| 0 <= i < self.open@.len() implies {
                &&& (#[trigger] self.open@[i]).offset == rest[i]
                &&& self.open@[i].line == line_of(t, rest[i])
                &&& self.open@[i].col == col_of(t, rest[i])
                &&& self.open@[i].col + 2 <= t.len()
                &&& is_opener(t, rest[i])
                &&& rest[i] + 2 <= pos + 2
            } by {
                assert(self.open@[i] == waiting[i]);
            }
        }
    }

    /// Appends `part` to the Java text, made up to whole lines.
    fn append_lines(&mut self, part: &str, ends_in_newline: bool)
        requires
            ends_in_newline == (part.spec_bytes().len() > 0 && is_newline(part.spec_bytes().last())),
        ensures
            encode_utf8(final(self).java@) == encode_utf8(old(self).java@) + whole_lines(
                part.spec_bytes(),
            ),
            final(self).open == old(self).open,
            final(self).blocks == old(self).blocks,
            final(self).diagnostics == old(self).diagnostics,
            final(self).java_lines == old(self).java_lines,
    {
        let ghost old_java = self.java@;
        self.java.append(part);
        proof {
            lemma_encode_utf8_concat(old_java, part@);
        }
        if !ends_in_newline {
            proof {
                reveal_strlit("\n");
                is_ascii_chars_encode_utf8("\n"@);
                assert(encode_utf8("\n"@) =~= seq![0x0au8]);
                lemma_encode_utf8_concat(old_java + part@, "\n"@);
                assert(whole_lines(part.spec_bytes()) =~= part.spec_bytes() + seq![0x0au8]);
            }
            self.java.append("\n");
        }
        assert(encode_utf8(self.java@) =~= encode_utf8(old_java) + whole_lines(part.spec_bytes()));
    }

    /// Reports every opener that still waits.
    fn report_unclosed(&mut self, Ghost(t): Ghost<Seq<u8>>, Ghost(found): Ghost<Scan>)
        requires
            old(self).tracks(t, t.len() as int, found),
            t.len() <= usize::MAX,
        ensures
            diagnostic_views(final(self).diagnostics@) == unopened_diagnostics(t, found.unopened)
                + unclosed_diagnostics(t, found.open),
            final(self).blocks == old(self).blocks,
            final(self).java == old(self).java,
            final(self).java_lines == old(self).java_lines,
    {
        let mut i: usize = 0;
        assert(unclosed_diagnostics(t, found.open.subrange(0, 0)) =~= Seq::empty());
        assert(diagnostic_views(self.diagnostics@) =~= unopened_diagnostics(t, found.unopened)
            + unclosed_diagnostics(t, found.open.subrange(0, 0)));
        while i < self.open.len()
            invariant
                i <= self.open@.len(),
                openers_match(t, t.len() as int, self.open@, found.open),
                t.len() <= usize::MAX,
                diagnostic_views(self.diagnostics@) == unopened_diagnostics(t, found.unopened)
                    + unclosed_diagnostics(t, found.open.subrange(0, i as int)),
                self.blocks == old(self).blocks,
                self.java == old(self).java,
                self.java_lines == old(self).java_lines,
            decreases self.open@.len() - i,
        {
            let ghost seen = self.diagnostics@;
            proof {
                reveal_strlit("Unclosed <% tag");
            }
            let line = self.open[i].line;
            let col = self.open[i].col;
            self.diagnostics.push(delimiter_diagnostic(line, col, "Unclosed <% tag"));
            proof {
                lemma_diagnostic_views_push(seen, self.diagnostics@[seen.len() as int]);
                assert(self.diagnostics@ =~= seen.push(self.diagnostics@[seen.len() as int]));
                assert(found.open.subrange(0, i + 1) =~= found.open.subrange(0, i as int).push(
                    found.open[i as int],
                ));
                assert(unclosed_diagnostics(t, found.open.subrange(0, i + 1))
                    =~= unclosed_diagnostics(t, found.open.subrange(0, i as int)).push(
                    unclosed_diagnostic(t, found.open[i as int]),
                ));
                assert(diagnostic_views(self.diagnostics@) =~= unopened_diagnostics(
                    t,
                    found.unopened,
                ) + unclosed_diagnostics(t, found.open.subrange(0, i + 1)));
            }
            i = i + 1;
        }
        assert(found.open.subrange(0, i as int) =~= found.open);
    }
}

/// Every block of a text is laid out by the rule of the virtual document.
pub proof fn lemma_blocks_of_laid_out(t: Seq<u8>, pairs: Seq<(int, int)>)
    ensures
        blocks_of(t, pairs).len() == pairs.len(),
        blocks_laid_out(blocks_of(t, pairs)),
    decreases pairs.len(),
{
    if pairs.len() > 0 {
        let front = pairs.drop_last();
        lemma_blocks_of_laid_out(t, front);
        let before = blocks_of(t, front);
        let all = blocks_of(t, pairs);
        assert forall|i: int| 0 <= i < all.len() implies {
            &&& (#[trigger] all[i]).java_line_count == lines_taken(all[i].text)
            &&& all[i].java_start_line == total_lines(all.subrange(0, i))
        } by {
            if i < before.len() {
                assert(all[i] == before[i]);
                assert(all.subrange(0, i) =~= before.subrange(0, i));
            } else {
                assert(all.subrange(0, i) =~= before);
            }
        }
    }
}

/// The virtual document of any text obeys the invariant of virtual
/// documents, and its text has as many lines as its blocks fill.
pub proof fn lemma_document_of_well_formed(t: Seq<u8>)
    ensures
        well_formed(document_of(t)),
        line_count(document_of(t).text) == total_lines(document_of(t).blocks),
{
    lemma_blocks_of_laid_out(t, scan(t).pairs);
    lemma_joined_text_lines(document_of(t).blocks);
}

/// The scan accounts for every delimiter once: an opener is in a pair or
/// still waits, a closer is in a pair or found no opener.
pub proof fn lemma_scan_from_counts(t: Seq<u8>, pos: int, found: Scan)
    ensures
        scan_from(t, pos, found).pairs.len() + scan_from(t, pos, found).open.len()
            == found.pairs.len() + found.open.len() + delimiters_from(t, pos, true),
        scan_from(t, pos, found).pairs.len() + scan_from(t, pos, found).unopened.len()
            == found.pairs.len() + found.unopened.len() + delimiters_from(t, pos, false),
    decreases t.len() - pos,
{
    if pos < 0 || pos >= t.len() {
    } else if is_opener(t, pos) {
        lemma_scan_from_counts(t, pos + 2, Scan { open: found.open.push(pos), ..found });
    } else if is_closer(t, pos) {
        if found.open.len() == 0 {
            lemma_scan_from_counts(t, pos + 2, Scan { unopened: found.unopened.push(pos), ..found });
        } else {
            lemma_scan_from_counts(
                t,
                pos + 2,
                Scan {
                    open: found.open.drop_last(),
                    pairs: found.pairs.push((found.open.last(), pos)),
                    ..found
                },
            );
        }
    } else {
        lemma_scan_from_counts(t, pos + 1, found);
    }
}

/// Every delimiter of a text is accounted for once: there is one block or
/// one "unclosed" diagnostic for each `<%`, and one block or one "unopened"
/// diagnostic for each `%>`.
pub proof fn lemma_every_delimiter_counts(t: Seq<u8>)
    ensures
        document_of(t).blocks.len() + scan(t).open.len() == opener_count(t),
        document_of(t).blocks.len() + scan(t).unopened.len() == closer_count(t),
        structural_diagnostics(t).len() == scan(t).unopened.len() + scan(t).open.len(),
{
    lemma_scan_from_counts(
        t,
        0,
        Scan { open: Seq::empty(), pairs: Seq::empty(), unopened: Seq::empty() },
    );
    lemma_blocks_of_laid_out(t, scan(t).pairs);
}

/// A text in which every delimiter has a partner, in as many pairs as it
/// has openers, has no structural diagnostic, one block for each pair, and
/// a virtual document whose line count is the sum of the line counts of its
/// blocks.
pub proof fn lemma_balanced_text(t: Seq<u8>)
    requires
        balanced(t),
    ensures
        structural_diagnostics(t).len() == 0,
        document_of(t).blocks.len() == opener_count(t),
        document_of(t).blocks.len() == closer_count(t),
        line_count(document_of(t).text) == total_lines(document_of(t).blocks),
{
    lemma_every_delimiter_counts(t);
    lemma_document_of_well_formed(t);
}

/// The diagnostic for the delimiter that stands at `line` and `col`.
fn delimiter_diagnostic(line: usize, col: usize, message: &str) -> (diagnostic: Diagnostic)
    requires
        col + 2 <= usize::MAX,
    ensures
        diagnostic@ == (DiagnosticView {
            range: TextRange {
                start: Position { line, character: col },
                end: Position { line, character: (col + 2) as usize },
            },
            severity: Severity::Warning,
            message: message@,
        }),
{
    Diagnostic {
        range: TextRange {
            start: Position { line, character: col },
            end: Position { line, character: col + 2 },
        },
        severity: Severity::Warning,
        message: message.to_owned(),
    }
}

/// Translates a JSP text: scans it for `<%` and `%>`, makes one block of the
/// virtual document for each matched pair, and reports each delimiter that
/// has no partner.
pub fn translate(text: &str) -> (out: Translation)
    ensures
        out.document@ == document_of(text.spec_bytes()),
        diagnostic_views(out.diagnostics@) == structural_diagnostics(text.spec_bytes()),
        well_formed(out.document@),
        line_count(out.document@.text) == total_lines(out.document@.blocks),
        out.diagnostics@.len() == 0 <==> balanced(text.spec_bytes()),
{
    proof {
        lemma_document_of_well_formed(text.spec_bytes());
        lemma_every_delimiter_counts(text.spec_bytes());
    }
    let bytes = text.as_bytes();
    let ghost t = bytes@;
    let mut pos: usize = 0;
    let mut line: usize = 0;
    let mut line_begin: usize = 0;
    let mut scanner = Scanner {
        open: Vec::new(),
        blocks: Vec::new(),
        diagnostics: Vec::new(),
        java: String::new(),
        java_lines: 0,
    };
    let ghost mut found = Scan { open: Seq::empty(), pairs: Seq::empty(), unopened: Seq::empty() };
    assert(encode_utf8(scanner.java@) =~= Seq::<u8>::empty());
    assert(block_views(scanner.blocks@) =~= blocks_of(t, found.pairs));
    assert(diagnostic_views(scanner.diagnostics@) =~= unopened_diagnostics(t, found.unopened));
    assert(t.subrange(0, 0) =~= Seq::<u8>::empty());
    assert(bytes.len() == t.len());
    while pos < bytes.len()
        invariant
            t == bytes@,
            t == text.spec_bytes(),
            pos <= t.len() <= usize::MAX,
            scan(t) == scan_from(t, pos as int, found),
            line == line_of(t, pos as int),
            line_begin == line_start(t, pos as int),
            scanner.tracks(t, pos as int, found),
        decreases t.len() - pos,
    {
        let b = bytes[pos];
        proof {
            lemma_line_step(t, pos as int);
            lemma_line_start_bound(t, pos as int);
            lemma_newline_count_bound(t.subrange(0, pos as int));
        }
        if b == 0x3c && pos + 1 < bytes.len() && bytes[pos + 1] == 0x25 {
            proof {
                lemma_line_step(t, pos + 1);
            }
            scanner.opener(Ghost(t), Ghost(found), line, pos - line_begin, pos);
            proof {
                found = Scan { open: found.open.push(pos as int), ..found };
            }
            pos = pos + 2;
        } else if b == 0x25 && pos + 1 < bytes.len() && bytes[pos + 1] == 0x3e {
            proof {
                lemma_line_step(t, pos + 1);
            }
            if scanner.open.len() == 0 {
                scanner.stray_closer(Ghost(t), Ghost(found), line, pos - line_begin, pos);
                proof {
                    found = Scan { unopened: found.unopened.push(pos as int), ..found };
                }
            } else {
                scanner.close(text, Ghost(found), line, pos);
                proof {
                    found = Scan {
                        open: found.open.drop_last(),
                        pairs: found.pairs.push((found.open.last(), pos as int)),
                        ..found
                    };
                }
            }
            pos = pos + 2;
        } else {
            if b == 0x0a {
                line = line + 1;
                line_begin = pos + 1;
            }
            pos = pos + 1;
        }
    }
    assert(found == scan(t));
    scanner.report_unclosed(Ghost(t), Ghost(found));
    proof {
        lemma_blocks_of_laid_out(t, found.pairs);
        reveal_strlit("jsp-virtual:///Scriptlets.java");
    }
    let document = VirtualDocument::assemble(
        "jsp-virtual:///Scriptlets.java".to_owned(),
        scanner.java,
        scanner.blocks,
    );
    Translation { document, diagnostics: scanner.diagnostics }
}

} // verus!
