//! UTF-8 facts that cutting a text at ASCII bytes rests on.

use vstd::prelude::*;
use vstd::string::StringSliceAdditionalSpecFns;
use vstd::utf8::*;

verus! {

/// Encoding goes through concatenation.
pub proof fn lemma_encode_utf8_concat(a: Seq<char>, b: Seq<char>)
    ensures
        encode_utf8(a + b) == encode_utf8(a) + encode_utf8(b),
    decreases a.len(),
{
    if a.len() == 0 {
        assert(a + b =~= b);
        assert(encode_utf8(a) + encode_utf8(b) =~= encode_utf8(b));
    } else {
        lemma_encode_utf8_concat(a.drop_first(), b);
        assert((a + b).drop_first() =~= a.drop_first() + b);
        assert(encode_utf8(a + b) =~= encode_utf8(a) + encode_utf8(b));
    }
}

/// In valid UTF-8 an ASCII byte is a character of its own: a character begins
/// at it and the next one begins right behind it.
pub proof fn lemma_ascii_byte_boundaries(bytes: Seq<u8>, index: int)
    requires
        valid_utf8(bytes),
        0 <= index < bytes.len(),
        bytes[index] < 0x80,
    ensures
        is_char_boundary(bytes, index),
        is_char_boundary(bytes, index + 1),
    decreases bytes.len(),
{
    is_char_boundary_iff_not_is_continuation_byte(bytes, index);
    if index == 0 {
        assert(length_of_first_scalar(bytes) == 1);
        assert(is_char_boundary(pop_first_scalar(bytes), 0));
    } else {
        let rest = pop_first_scalar(bytes);
        let width = length_of_first_scalar(bytes);
        assert(is_char_boundary(rest, index - width));
        assert(index >= width);
        assert(rest[index - width] == bytes[index]);
        lemma_ascii_byte_boundaries(rest, index - width);
    }
}

/// The part of `text` between two byte offsets, where each offset is an end
/// of the text or stands next to an ASCII byte: behind one for `from`, at one
/// for `to`.
pub(crate) fn between_ascii<'a>(text: &'a str, from: usize, to: usize) -> (part: &'a str)
    requires
        from <= to <= text.spec_bytes().len(),
        from == 0 || text.spec_bytes()[from - 1] < 0x80,
        to == text.spec_bytes().len() || text.spec_bytes()[to as int] < 0x80,
    ensures
        part.spec_bytes() == text.spec_bytes().subrange(from as int, to as int),
{
    let ghost bytes = text.spec_bytes();
    proof {
        encode_utf8_valid_utf8(text@);
        is_char_boundary_start_end_of_seq(bytes);
        if to < bytes.len() {
            lemma_ascii_byte_boundaries(bytes, to as int);
        }
    }
    let (head, _) = text.split_at(to);
    let ghost head_bytes = head.spec_bytes();
    proof {
        encode_utf8_valid_utf8(head@);
        is_char_boundary_start_end_of_seq(head_bytes);
        if 0 < from && from < to {
            lemma_ascii_byte_boundaries(head_bytes, from - 1);
        }
    }
    let (_, part) = head.split_at(from);
    assert(part.spec_bytes() =~= bytes.subrange(from as int, to as int));
    part
}

} // verus!
