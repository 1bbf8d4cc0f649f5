//! Why the way back is right: a byte of a scriptlet stands in the virtual
//! document at the place from which the mapping leads back to its place in
//! the JSP source.

use vstd::prelude::*;
use crate::lines::{
    col_of, is_newline, lemma_along_a_line, lemma_column_in_a_copy, lemma_line_of_split,
    lemma_line_start_bound, lemma_line_start_is, lemma_newline_count_bound,
    lemma_newline_count_concat, lemma_newline_count_sign, lemma_whole_lines, line_of,
    lines_taken, newline_count, whole_lines,
};
use crate::mapping::{lemma_owner_from, owner, owns_line, to_jsp_position};
use crate::model::{
    blocks_laid_out, joined_text, lemma_joined_text_lines, lemma_total_lines_prefix, total_lines,
    BlockView, Position,
};
use crate::translator::{
    blocks_of, body_of, document_of, is_closer, is_opener, lemma_blocks_of_laid_out, scan,
    scan_from, Scan,
};

verus! {

/// True when all that `found` holds lies before `pos` and is what it is
/// taken for: openers are openers, closers are closers, and in a pair the
/// closer stands behind the opener.
pub open spec fn found_before(t: Seq<u8>, pos: int, found: Scan) -> bool {
    &&& forall|i: int|
        0 <= i < found.open.len() ==> is_opener(t, #[trigger] found.open[i]) && found.open[i] + 2
            <= pos
    &&& forall|i: int|
        0 <= i < found.unopened.len() ==> is_closer(t, #[trigger] found.unopened[i])
            && found.unopened[i] + 2 <= pos
    &&& forall|i: int|
        0 <= i < found.pairs.len() ==> is_opener(t, (#[trigger] found.pairs[i]).0) && is_closer(
            t,
            found.pairs[i].1,
        ) && found.pairs[i].0 + 2 <= found.pairs[i].1 && found.pairs[i].1 + 2 <= pos
}

/// One step of the scan keeps what it has found sound.
pub proof fn lemma_scan_step_sound(t: Seq<u8>, pos: int, found: Scan)
    requires
        0 <= pos < t.len(),
        found_before(t, pos, found),
    ensures
        is_opener(t, pos) ==> found_before(
            t,
            pos + 2,
            Scan { open: found.open.push(pos), ..found },
        ),
        !is_opener(t, pos) && is_closer(t, pos) && found.open.len() == 0 ==> found_before(
            t,
            pos + 2,
            Scan { unopened: found.unopened.push(pos), ..found },
        ),
        !is_opener(t, pos) && is_closer(t, pos) && found.open.len() > 0 ==> found_before(
            t,
            pos + 2,
            Scan {
                open: found.open.drop_last(),
                pairs: found.pairs.push((found.open.last(), pos)),
                ..found
            },
        ),
        found_before(t, pos + 1, found),
{
    if is_opener(t, pos) {
        let next = Scan { open: found.open.push(pos), ..found };
        assert forall|i: int| 0 <= i < next.open.len() implies is_opener(
            t,
            #[trigger] next.open[i],
        ) && next.open[i] + 2 <= pos + 2 by {
            if i < found.open.len() {
                assert(next.open[i] == found.open[i]);
            }
        }
    } else if is_closer(t, pos) {
        if found.open.len() == 0 {
            let next = Scan { unopened: found.unopened.push(pos), ..found };
            assert forall|i: int| 0 <= i < next.unopened.len() implies is_closer(
                t,
                #[trigger] next.unopened[i],
            ) && next.unopened[i] + 2 <= pos + 2 by {
                if i < found.unopened.len() {
                    assert(next.unopened[i] == found.unopened[i]);
                }
            }
        } else {
            let next = Scan {
                open: found.open.drop_last(),
                pairs: found.pairs.push((found.open.last(), pos)),
                ..found
            };
            assert forall|i: int| 0 <= i < next.open.len() implies is_opener(
                t,
                #[trigger] next.open[i],
            ) && next.open[i] + 2 <= pos + 2 by {
                assert(next.open[i] == found.open[i]);
            }
            assert(is_opener(t, found.open[found.open.len() - 1]));
            assert forall|i: int| 0 <= i < next.pairs.len() implies is_opener(
                t,
                (#[trigger] next.pairs[i]).0,
            ) && is_closer(t, next.pairs[i].1) && next.pairs[i].0 + 2 <= next.pairs[i].1
                && next.pairs[i].1 + 2 <= pos + 2 by {
                if i < found.pairs.len() {
                    assert(next.pairs[i] == found.pairs[i]);
                }
            }
        }
    }
}

/// The scan keeps what it has found sound.
pub proof fn lemma_scan_from_sound(t: Seq<u8>, pos: int, found: Scan)
    requires
        0 <= pos,
        found_before(t, pos, found),
    ensures
        found_before(t, if pos <= t.len() {
            t.len() as int
        } else {
            pos
        }, scan_from(t, pos, found)),
    decreases t.len() - pos,
{
    if pos < t.len() {
        lemma_scan_step_sound(t, pos, found);
        if is_opener(t, pos) {
            lemma_scan_from_sound(t, pos + 2, Scan { open: found.open.push(pos), ..found });
        } else if is_closer(t, pos) {
            if found.open.len() == 0 {
                lemma_scan_from_sound(
                    t,
                    pos + 2,
                    Scan { unopened: found.unopened.push(pos), ..found },
                );
            } else {
                lemma_scan_from_sound(
                    t,
                    pos + 2,
                    Scan {
                        open: found.open.drop_last(),
                        pairs: found.pairs.push((found.open.last(), pos)),
                        ..found
                    },
                );
            }
        } else {
            lemma_scan_from_sound(t, pos + 1, found);
        }
    }
}

/// What the scan of a text finds is what it is taken for: every opener is a
/// `<%` and every closer a `%>` of the text, and in every pair the closer
/// stands behind the opener, so that the text between them is well defined.
pub proof fn lemma_scan_sound(t: Seq<u8>)
    ensures
        found_before(t, t.len() as int, scan(t)),
{
    lemma_scan_from_sound(
        t,
        0,
        Scan { open: Seq::empty(), pairs: Seq::empty(), unopened: Seq::empty() },
    );
}

/// Of two pairs, the second closed later: the second begins behind the end
/// of the first, or it holds the first whole.
pub open spec fn apart_or_nested(first: (int, int), second: (int, int)) -> bool {
    first.1 + 2 <= second.0 || (second.0 + 2 <= first.0 && first.1 + 2 <= second.1)
}

/// True when what `found` holds never overlaps in part: the openers that
/// wait stand in source order, every two pairs are apart or nested, and a
/// pair lies before an opener that waits or behind it.
pub open spec fn never_overlapping(found: Scan) -> bool {
    &&& forall|i: int, j: int|
        0 <= i < j < found.open.len() ==> #[trigger] found.open[i] + 2 <= #[trigger] found.open[j]
    &&& forall|i: int, j: int|
        0 <= i < j < found.pairs.len() ==> apart_or_nested(
            #[trigger] found.pairs[i],
            #[trigger] found.pairs[j],
        )
    &&& forall|i: int, k: int|
        0 <= i < found.pairs.len() && 0 <= k < found.open.len() ==> (#[trigger] found.pairs[i]).1 + 2
            <= #[trigger] found.open[k] || found.open[k] + 2 <= found.pairs[i].0
}

/// The scan keeps what it has found from overlapping.
pub proof fn lemma_scan_from_never_overlapping(t: Seq<u8>, pos: int, found: Scan)
    requires
        0 <= pos,
        found_before(t, pos, found),
        never_overlapping(found),
    ensures
        never_overlapping(scan_from(t, pos, found)),
    decreases t.len() - pos,
{
    if pos >= t.len() {
    } else if is_opener(t, pos) {
        let next = Scan { open: found.open.push(pos), ..found };
        lemma_scan_step_sound(t, pos, found);
        assert(never_overlapping(next)) by {
            assert forall|i: int, j: int| 0 <= i < j < next.open.len() implies #[trigger] next.open[i]
                + 2 <= #[trigger] next.open[j] by {
                assert(next.open[i] == found.open[i]);
                if j < found.open.len() {
                    assert(next.open[j] == found.open[j]);
                }
            }
            assert forall|i: int, k: int|
                0 <= i < next.pairs.len() && 0 <= k < next.open.len() implies (
            #[trigger] next.pairs[i]).1 + 2 <= #[trigger] next.open[k] || next.open[k] + 2
                <= next.pairs[i].0 by {
                if k < found.open.len() {
                    assert(next.open[k] == found.open[k]);
                }
            }
        }
        lemma_scan_from_never_overlapping(t, pos + 2, next);
    } else if is_closer(t, pos) {
        lemma_scan_step_sound(t, pos, found);
        if found.open.len() == 0 {
            let next = Scan { unopened: found.unopened.push(pos), ..found };
            lemma_scan_from_never_overlapping(t, pos + 2, next);
        } else {
            let last = found.open.len() - 1;
            let pair = (found.open[last], pos);
            let next = Scan {
                open: found.open.drop_last(),
                pairs: found.pairs.push(pair),
                ..found
            };
            assert(never_overlapping(next)) by {
                assert forall|i: int, j: int| 0 <= i < j < next.open.len() implies #[trigger] next.open[i]
                    + 2 <= #[trigger] next.open[j] by {
                    assert(next.open[i] == found.open[i] && next.open[j] == found.open[j]);
                }
                assert forall|i: int, j: int| 0 <= i < j < next.pairs.len() implies apart_or_nested(
                    #[trigger] next.pairs[i],
                    #[trigger] next.pairs[j],
                ) by {
                    assert(next.pairs[i] == found.pairs[i]);
                    if j < found.pairs.len() {
                        assert(next.pairs[j] == found.pairs[j]);
                    } else {
                        assert(found.pairs[i].1 + 2 <= found.open[last] || found.open[last] + 2
                            <= found.pairs[i].0);
                    }
                }
                assert forall|i: int, k: int|
                    0 <= i < next.pairs.len() && 0 <= k < next.open.len() implies (
                #[trigger] next.pairs[i]).1 + 2 <= #[trigger] next.open[k] || next.open[k] + 2
                    <= next.pairs[i].0 by {
                    assert(next.open[k] == found.open[k]);
                    if i < found.pairs.len() {
                        assert(next.pairs[i] == found.pairs[i]);
                    } else {
                        assert(found.open[k] + 2 <= found.open[last]);
                    }
                }
            }
            lemma_scan_from_never_overlapping(t, pos + 2, next);
        }
    } else {
        lemma_scan_from_never_overlapping(t, pos + 1, found);
    }
}

/// Scriptlets never overlap in part. Of two blocks of a text, the one that
/// is closed later begins behind the end of the other, or holds the other
/// whole; the closers of the blocks stand in the order of the blocks. Blocks
/// that are apart stand in the order of their lines.
pub proof fn lemma_blocks_never_overlap(t: Seq<u8>, i: int, j: int)
    requires
        0 <= i < j < scan(t).pairs.len(),
    ensures
        apart_or_nested(scan(t).pairs[i], scan(t).pairs[j]),
        scan(t).pairs[i].1 + 2 <= scan(t).pairs[j].1,
        scan(t).pairs[i].1 + 2 <= scan(t).pairs[j].0 ==> document_of(t).blocks[i].jsp_start_line
            <= document_of(t).blocks[j].jsp_start_line,
{
    let start = Scan { open: Seq::empty(), pairs: Seq::empty(), unopened: Seq::empty() };
    lemma_scan_from_never_overlapping(t, 0, start);
    lemma_scan_sound(t);
    let first = scan(t).pairs[i];
    let second = scan(t).pairs[j];
    assert(apart_or_nested(first, second));
    assert(first.0 + 2 <= first.1 && second.0 + 2 <= second.1 && second.1 + 2 <= t.len());
    assert(is_opener(t, first.0));
    lemma_blocks_of_index(t, scan(t).pairs, i);
    lemma_blocks_of_index(t, scan(t).pairs, j);
    if first.1 + 2 <= second.0 {
        lemma_line_of_split(t, first.0, second.0);
    }
}

/// The offset at which block `i` begins in the text of the virtual document.
pub open spec fn block_offset(blocks: Seq<BlockView>, i: int) -> int {
    joined_text(blocks.subrange(0, i)).len() as int
}

/// The text of the virtual document begins with the text of its first `i`
/// blocks, and the text of block `i`, made up to whole lines, follows.
pub proof fn lemma_joined_text_block(blocks: Seq<BlockView>, i: int)
    requires
        0 <= i < blocks.len(),
    ensures
        block_offset(blocks, i) + whole_lines(blocks[i].text).len() <= joined_text(blocks).len(),
        joined_text(blocks).subrange(0, block_offset(blocks, i)) == joined_text(
            blocks.subrange(0, i),
        ),
        joined_text(blocks).subrange(
            block_offset(blocks, i),
            block_offset(blocks, i) + whole_lines(blocks[i].text).len(),
        ) == whole_lines(blocks[i].text),
    decreases blocks.len(),
{
    let front = blocks.drop_last();
    let start = block_offset(blocks, i);
    let piece = whole_lines(blocks[i].text);
    if i == blocks.len() - 1 {
        assert(blocks.subrange(0, i) =~= front);
        assert(joined_text(blocks).subrange(0, start) =~= joined_text(front));
        assert(joined_text(blocks).subrange(start, start + piece.len()) =~= piece);
    } else {
        lemma_joined_text_block(front, i);
        assert(front.subrange(0, i) =~= blocks.subrange(0, i));
        assert(front[i] == blocks[i]);
        assert(joined_text(blocks).subrange(0, start) =~= joined_text(front).subrange(0, start));
        assert(joined_text(blocks).subrange(start, start + piece.len()) =~= joined_text(
            front,
        ).subrange(start, start + piece.len()));
    }
}

/// The text of a virtual document is empty or ends in a line feed.
pub proof fn lemma_joined_text_ends_lines(blocks: Seq<BlockView>)
    ensures
        joined_text(blocks).len() == 0 || is_newline(joined_text(blocks).last()),
{
    if blocks.len() > 0 {
        lemma_whole_lines(blocks.last().text);
    }
}

/// What block `i` of a text is.
pub proof fn lemma_blocks_of_index(t: Seq<u8>, pairs: Seq<(int, int)>, i: int)
    requires
        0 <= i < pairs.len(),
    ensures
        blocks_of(t, pairs).len() == pairs.len(),
        blocks_of(t, pairs)[i].jsp_start_line == line_of(t, pairs[i].0),
        blocks_of(t, pairs)[i].jsp_start_col == col_of(t, pairs[i].0) as nat,
        blocks_of(t, pairs)[i].text == body_of(t, pairs[i]),
        blocks_of(t, pairs)[i].java_line_count == lines_taken(body_of(t, pairs[i])),
        blocks_of(t, pairs)[i].java_start_line == total_lines(blocks_of(t, pairs).subrange(0, i)),
    decreases pairs.len(),
{
    lemma_blocks_of_laid_out(t, pairs);
    if i < pairs.len() - 1 {
        lemma_blocks_of_index(t, pairs.drop_last(), i);
        assert(pairs.drop_last()[i] == pairs[i]);
    }
}

/// In a document whose blocks are laid out one after the other, the block
/// that owns a line is the only block that holds it.
pub proof fn lemma_owner_is_the_only_one(blocks: Seq<BlockView>, i: int, line: int)
    requires
        blocks_laid_out(blocks),
        0 <= i < blocks.len(),
        owns_line(blocks[i], line),
    ensures
        owner(blocks, line) == Some(i),
        forall|j: int| 0 <= j < blocks.len() && j != i ==> !owns_line(#[trigger] blocks[j], line),
{
    assert forall|j: int| 0 <= j < blocks.len() && j != i implies !owns_line(
        #[trigger] blocks[j],
        line,
    ) by {
        let (a, b) = if j < i {
            (j, i)
        } else {
            (i, j)
        };
        // The earlier block ends before the later one begins.
        let upto = blocks.subrange(0, b);
        lemma_total_lines_prefix(upto, a + 1);
        assert(upto.subrange(0, a + 1) =~= blocks.subrange(0, a + 1));
        assert(blocks.subrange(0, a + 1).drop_last() =~= blocks.subrange(0, a));
        assert(blocks.subrange(0, a + 1).last() == blocks[a]);
        assert(blocks[a].java_start_line + blocks[a].java_line_count <= blocks[b].java_start_line);
    }
    lemma_owner_from(blocks, line, 0);
}

/// The line and the column at which the offset `pos` of `t` stands.
pub open spec fn place(t: Seq<u8>, pos: int) -> Position {
    Position { line: line_of(t, pos) as usize, character: col_of(t, pos) as usize }
}

/// Where the byte at the offset `pos` of the JSP text, a byte of the body of
/// pair `i`, stands in the text of the virtual document.
pub open spec fn virtual_offset(t: Seq<u8>, i: int, pos: int) -> int {
    block_offset(document_of(t).blocks, i) + (pos - (scan(t).pairs[i].0 + 2))
}

/// How the body of pair `i` lies in the two texts: in the JSP text behind
/// its opener, on the line of the opener; in the virtual document from the
/// offset of its block on, at the start of the first line of the block.
pub proof fn lemma_block_in_both_texts(t: Seq<u8>, i: int)
    requires
        0 <= i < scan(t).pairs.len(),
    ensures
        ({
            let pair = scan(t).pairs[i];
            let blocks = document_of(t).blocks;
            let vt = document_of(t).text;
            let start = block_offset(blocks, i);
            let body = body_of(t, pair);
            &&& blocks.len() == scan(t).pairs.len()
            &&& blocks_laid_out(blocks)
            &&& blocks[i].text == body
            &&& blocks[i].java_line_count == lines_taken(body)
            &&& 0 <= pair.0
            &&& pair.0 + 2 <= pair.1 <= t.len()
            &&& body.len() == pair.1 - pair.0 - 2
            &&& line_of(t, pair.0 + 2) == blocks[i].jsp_start_line
            &&& col_of(t, pair.0 + 2) == blocks[i].jsp_start_col + 2
            &&& 0 <= start
            &&& start + body.len() <= vt.len()
            &&& vt.subrange(start, start + body.len()) == body
            &&& line_of(vt, start) == blocks[i].java_start_line
            &&& col_of(vt, start) == 0
        }),
{
    let pairs = scan(t).pairs;
    let pair = pairs[i];
    let blocks = document_of(t).blocks;
    let vt = document_of(t).text;
    let start = block_offset(blocks, i);
    let body = body_of(t, pair);
    let o = pair.0;
    lemma_scan_sound(t);
    assert(is_opener(t, o) && is_closer(t, pair.1) && o + 2 <= pair.1);
    lemma_blocks_of_index(t, pairs, i);
    lemma_blocks_of_laid_out(t, pairs);
    lemma_joined_text_block(blocks, i);
    let piece = whole_lines(body);
    lemma_whole_lines(body);
    assert(vt.subrange(start, start + body.len()) =~= body) by {
        assert forall|j: int| 0 <= j < body.len() implies vt.subrange(start, start + body.len())[j]
            == body[j] by {
            assert(vt.subrange(start, start + piece.len())[j] == vt[start + j]);
            assert(piece[j] == body[j]);
        }
    }
    // In the JSP text.
    assert forall|k: int| o <= k < o + 2 implies !is_newline(#[trigger] t[k]) by {}
    lemma_along_a_line(t, o, o + 2);
    lemma_line_start_bound(t, o);
    // In the virtual document.
    let earlier = blocks.subrange(0, i);
    assert forall|j: int| 0 <= j < earlier.len() implies (#[trigger] earlier[j]).java_line_count
        == lines_taken(earlier[j].text) by {
        assert(earlier[j] == blocks[j]);
    }
    lemma_joined_text_lines(earlier);
    lemma_joined_text_ends_lines(earlier);
    if start > 0 {
        assert(vt.subrange(0, start).last() == vt[start - 1]);
    }
    assert forall|k: int| start <= k < start implies !is_newline(#[trigger] vt[k]) by {}
    lemma_line_start_is(vt, start, start);
}

/// The way back is right. Every byte of the body of a scriptlet stands in
/// the virtual document, unchanged; the line on which it stands there
/// belongs to the block of the scriptlet and to no other; and the mapping of
/// that block leads from its place in the virtual document to its place in
/// the JSP source.
pub proof fn lemma_virtual_place_leads_back(t: Seq<u8>, i: int, pos: int)
    requires
        t.len() <= usize::MAX,
        document_of(t).text.len() <= usize::MAX,
        0 <= i < scan(t).pairs.len(),
        scan(t).pairs[i].0 + 2 <= pos < scan(t).pairs[i].1,
    ensures
        0 <= virtual_offset(t, i, pos) < document_of(t).text.len(),
        document_of(t).text[virtual_offset(t, i, pos)] == t[pos],
        owner(document_of(t).blocks, line_of(document_of(t).text, virtual_offset(t, i, pos)) as int)
            == Some(i),
        to_jsp_position(
            document_of(t).blocks[i],
            place(document_of(t).text, virtual_offset(t, i, pos)),
        ) == place(t, pos),
{
    let pair = scan(t).pairs[i];
    let blocks = document_of(t).blocks;
    let vt = document_of(t).text;
    let from = pair.0 + 2;
    let body = body_of(t, pair);
    let k = pos - from;
    let start = block_offset(blocks, i);
    let q = virtual_offset(t, i, pos);
    let block = blocks[i];
    lemma_block_in_both_texts(t, i);
    // The byte is there, and so is the text of the body before it.
    assert(vt[q] == t[pos]) by {
        assert(vt.subrange(start, start + body.len())[k] == vt[start + k]);
        assert(body[k] == t[from + k]);
    }
    let before = body.subrange(0, k);
    assert(vt.subrange(start, q) =~= before);
    assert(t.subrange(from, pos) =~= before);
    // Lines.
    let down = newline_count(before);
    lemma_line_of_split(vt, start, q);
    lemma_line_of_split(t, from, pos);
    lemma_newline_count_bound(t.subrange(0, pos));
    lemma_newline_count_bound(vt.subrange(0, q));
    lemma_line_start_bound(t, pos);
    lemma_line_start_bound(vt, q);
    assert(line_of(vt, q) == block.java_start_line + down);
    assert(line_of(t, pos) == block.jsp_start_line + down);
    assert(owns_line(block, line_of(vt, q) as int)) by {
        let rest = body.subrange(k, body.len() as int);
        lemma_newline_count_concat(before, rest);
        assert(before + rest =~= body);
        if is_newline(body.last()) {
            assert(is_newline(rest[rest.len() - 1]));
            lemma_newline_count_sign(rest);
        }
    }
    lemma_owner_is_the_only_one(blocks, i, line_of(vt, q) as int);
    // Columns.
    lemma_newline_count_sign(before);
    if exists|j: int| 0 <= j < before.len() && is_newline(#[trigger] before[j]) {
        let j = choose|j: int| 0 <= j < before.len() && is_newline(#[trigger] before[j]);
        assert(is_newline(t[from + j])) by {
            assert(t.subrange(from, pos)[j] == t[from + j]);
        }
        assert(t.subrange(from, from + k) == vt.subrange(start, start + k));
        lemma_column_in_a_copy(t, from, vt, start, k);
        assert(down >= 1);
    } else {
        assert forall|j: int| from <= j < pos implies !is_newline(#[trigger] t[j]) by {
            assert(t.subrange(from, pos)[j - from] == t[j]);
            assert(!is_newline(before[j - from]));
        }
        assert forall|j: int| start <= j < q implies !is_newline(#[trigger] vt[j]) by {
            assert(vt.subrange(start, q)[j - start] == vt[j]);
            assert(!is_newline(before[j - start]));
        }
        lemma_along_a_line(t, from, pos);
        lemma_along_a_line(vt, start, q);
        assert(down == 0);
    }
}

} // verus!
