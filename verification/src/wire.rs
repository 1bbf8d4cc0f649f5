//! The base protocol on the wire: a `Content-Length` header, a blank line,
//! then that many bytes of UTF-8 text.

use vstd::prelude::*;
use vstd::utf8::*;
use vstd::slice::slice_to_vec;
use crate::bytes::{
    ascii_bytes, has_prefix, is_space, lemma_leading_spaces_bound, lemma_leading_spaces_is,
    lemma_trim_end_len_is, push_ascii, push_bytes, starts_with_ascii, trim, trim_end,
    trim_end_index, trim_start_index,
};
use crate::decimal::{
    decimal_digits, format_decimal, is_digit, lemma_decimal_digits_are_digits,
    lemma_decimal_round_trip, numeral_digits, parse_decimal, parsed_decimal,
};

verus! {

/// Why a frame could not be read.
#[derive(Clone, Copy, Debug, PartialEq, Eq, Structural)]
pub enum FramingError {
    /// The blank line came without any `Content-Length` header before it.
    MissingContentLength,
    /// The source ended before the blank line, or before the whole body.
    UnexpectedEof,
    /// The body is not UTF-8.
    InvalidUtf8,
    /// The value of a `Content-Length` header is no unsigned decimal number.
    LengthParseError,
}

/// What one header line means to the reader.
#[derive(Clone, Copy, Debug, PartialEq, Eq, Structural)]
pub enum HeaderStep {
    /// Read another line; the body length known so far is carried along.
    Continue(Option<usize>),
    /// The headers are over: read a body of this many bytes.
    Body(usize),
    /// Stop with this error.
    Fail(FramingError),
}

/// A message taken off the wire.
#[derive(Clone, Debug, PartialEq, Eq)]
pub struct Frame {
    /// The body of the frame.
    pub payload: String,
    /// How many bytes of the source the frame took, header included.
    pub consumed: usize,
}

/// The header name that is recognized, colon included; it is case-sensitive.
pub open spec fn length_header() -> Seq<u8> {
    ascii_bytes("Content-Length:"@)
}

/// What stands before the number in a frame that `encode` writes.
pub open spec fn frame_prefix() -> Seq<u8> {
    ascii_bytes("Content-Length: "@)
}

/// What stands between the number and the body: the end of the header line
/// and the blank line.
pub open spec fn frame_separator() -> Seq<u8> {
    ascii_bytes("\r\n\r\n"@)
}

/// The frame that carries the body `payload`.
pub open spec fn frame_bytes(payload: Seq<u8>) -> Seq<u8> {
    frame_prefix() + decimal_digits(payload.len()) + frame_separator() + payload
}

/// What a header line means, given the body length known before it. `line` is
/// the line as read, with its line end; an empty `line` means that the source
/// has ended.
pub open spec fn header_step(length: Option<usize>, line: Seq<u8>) -> HeaderStep {
    let content = trim_end(line);
    if line.len() == 0 {
        HeaderStep::Fail(FramingError::UnexpectedEof)
    } else if content.len() == 0 {
        match length {
            Some(n) => HeaderStep::Body(n),
            None => HeaderStep::Fail(FramingError::MissingContentLength),
        }
    } else if has_prefix(content, length_header()) {
        let value = content.subrange(length_header().len() as int, content.len() as int);
        match parsed_decimal(trim(value)) {
            Some(n) => HeaderStep::Continue(Some(n)),
            None => HeaderStep::Fail(FramingError::LengthParseError),
        }
    } else {
        HeaderStep::Continue(length)
    }
}

/// Where the line that begins at `pos` ends: just behind its line feed, or at
/// the end of `src` where no line feed follows.
pub open spec fn line_end(src: Seq<u8>, pos: int) -> int
    decreases src.len() - pos,
{
    if pos >= src.len() {
        src.len() as int
    } else if src[pos] == 0x0a {
        pos + 1
    } else {
        line_end(src, pos + 1)
    }
}

/// Reads header lines from `pos` on. Gives the body length and where the body
/// begins, or the error that stops the reading.
pub open spec fn scan_headers(src: Seq<u8>, pos: int, length: Option<usize>) -> Result<
    (usize, int),
    FramingError,
>
    decreases src.len() - pos,
{
    if pos < 0 || pos >= src.len() {
        Err(FramingError::UnexpectedEof)
    } else {
        let end = line_end(src, pos);
        match header_step(length, src.subrange(pos, end)) {
            HeaderStep::Continue(next) => {
                proof {
                    lemma_line_end_bounds(src, pos);
                }
                scan_headers(src, end, next)
            },
            HeaderStep::Body(n) => Ok((n, end)),
            HeaderStep::Fail(e) => Err(e),
        }
    }
}

/// What a body of raw bytes decodes to.
pub open spec fn decoded_body(body: Seq<u8>) -> Result<Seq<char>, FramingError> {
    if valid_utf8(body) {
        Ok(decode_utf8(body))
    } else {
        Err(FramingError::InvalidUtf8)
    }
}

/// The first frame of `src`: its text and how many bytes it takes, or why
/// there is none. `src` is everything the source yields before it ends.
pub open spec fn decoded(src: Seq<u8>) -> Result<(Seq<char>, int), FramingError> {
    match scan_headers(src, 0, None) {
        Err(e) => Err(e),
        Ok((n, start)) => if start + n > src.len() {
            Err(FramingError::UnexpectedEof)
        } else {
            match decoded_body(src.subrange(start, start + n)) {
                Ok(text) => Ok((text, start + n)),
                Err(e) => Err(e),
            }
        },
    }
}

/// True when the line that begins at `pos` is there to its end, line feed
/// included.
pub open spec fn line_is_whole(src: Seq<u8>, pos: int) -> bool {
    pos < line_end(src, pos) && src[line_end(src, pos) - 1] == 0x0a
}

/// Reads header lines from `pos` on, as far as whole lines are there. Gives
/// nothing where the lines that are there do not end the headers.
pub open spec fn scan_whole_lines(src: Seq<u8>, pos: int, length: Option<usize>) -> Option<
    Result<(usize, int), FramingError>,
>
    decreases src.len() - pos,
{
    if pos < 0 || pos >= src.len() || !line_is_whole(src, pos) {
        None
    } else {
        let end = line_end(src, pos);
        match header_step(length, src.subrange(pos, end)) {
            HeaderStep::Continue(next) => {
                proof {
                    lemma_line_end_bounds(src, pos);
                }
                scan_whole_lines(src, end, next)
            },
            HeaderStep::Body(n) => Some(Ok((n, end))),
            HeaderStep::Fail(e) => Some(Err(e)),
        }
    }
}

/// What can be said of the first frame while the source still runs and `src`
/// is what has come so far: the frame or the error, or nothing yet.
pub open spec fn available(src: Seq<u8>) -> Option<Result<(Seq<char>, int), FramingError>> {
    match scan_whole_lines(src, 0, None) {
        None => None,
        Some(Err(e)) => Some(Err(e)),
        Some(Ok((n, start))) => if start + n > src.len() {
            None
        } else {
            match decoded_body(src.subrange(start, start + n)) {
                Ok(text) => Some(Ok((text, start + n))),
                Err(e) => Some(Err(e)),
            }
        },
    }
}

/// A line ends behind its start and within the source; it holds no line feed
/// but at its end, and ends in one unless the source ends first.
pub proof fn lemma_line_end_bounds(src: Seq<u8>, pos: int)
    requires
        0 <= pos <= src.len(),
    ensures
        pos <= line_end(src, pos) <= src.len(),
        pos < src.len() ==> pos < line_end(src, pos),
        forall|i: int| pos <= i < line_end(src, pos) - 1 ==> #[trigger] src[i] != 0x0a,
        line_end(src, pos) < src.len() ==> src[line_end(src, pos) - 1] == 0x0a,
    decreases src.len() - pos,
{
    if pos < src.len() && src[pos] != 0x0a {
        lemma_line_end_bounds(src, pos + 1);
    }
}

/// A line ends behind the first line feed at or after its start.
pub proof fn lemma_line_end_is(src: Seq<u8>, pos: int, end: int)
    requires
        0 <= pos < end <= src.len(),
        forall|i: int| pos <= i < end - 1 ==> #[trigger] src[i] != 0x0a,
        src[end - 1] == 0x0a,
    ensures
        line_end(src, pos) == end,
    decreases end - pos,
{
    if pos < end - 1 {
        lemma_line_end_is(src, pos + 1, end);
    }
}

/// A whole line stays what it is when more bytes follow.
pub proof fn lemma_whole_line_stays(src: Seq<u8>, more: Seq<u8>, pos: int)
    requires
        0 <= pos < src.len(),
        line_is_whole(src, pos),
    ensures
        line_end(src + more, pos) == line_end(src, pos),
        (src + more).subrange(pos, line_end(src, pos)) == src.subrange(pos, line_end(src, pos)),
{
    let end = line_end(src, pos);
    lemma_line_end_bounds(src, pos);
    assert forall|i: int| pos <= i < end - 1 implies #[trigger] (src + more)[i] != 0x0a by {
        assert((src + more)[i] == src[i]);
    }
    lemma_line_end_is(src + more, pos, end);
    assert((src + more).subrange(pos, end) =~= src.subrange(pos, end));
}

/// What whole header lines say stays true when more bytes follow.
pub proof fn lemma_scan_whole_lines_is_final(
    src: Seq<u8>,
    more: Seq<u8>,
    pos: int,
    length: Option<usize>,
)
    requires
        scan_whole_lines(src, pos, length) is Some,
    ensures
        scan_headers(src + more, pos, length) == scan_whole_lines(src, pos, length)->Some_0,
        scan_whole_lines(src, pos, length) matches Some(Ok((n, start))) ==> 0 <= start <= src.len(),
    decreases src.len() - pos,
{
    let end = line_end(src, pos);
    lemma_whole_line_stays(src, more, pos);
    lemma_line_end_bounds(src, pos);
    match header_step(length, src.subrange(pos, end)) {
        HeaderStep::Continue(next) => {
            lemma_scan_whole_lines_is_final(src, more, end, next);
        },
        _ => {},
    }
}

/// What is said of a frame while the source still runs is final: whatever
/// bytes follow, reading the whole source gives the same frame, or the same
/// error.
pub proof fn lemma_available_is_final(src: Seq<u8>, more: Seq<u8>)
    requires
        available(src) is Some,
    ensures
        decoded(src + more) == available(src)->Some_0,
{
    lemma_scan_whole_lines_is_final(src, more, 0, None);
    match scan_whole_lines(src, 0, None) {
        Some(Ok((n, start))) => {
            if start + n <= src.len() {
                assert((src + more).subrange(start, start + n) =~= src.subrange(
                    start,
                    start + n,
                ));
            }
        },
        _ => {},
    }
}

/// Headers that end in a whole blank line are made of whole lines.
pub proof fn lemma_whole_headers(src: Seq<u8>, pos: int, length: Option<usize>)
    requires
        0 <= pos,
        scan_headers(src, pos, length) is Ok,
        src[scan_headers(src, pos, length)->Ok_0.1 - 1] == 0x0a,
    ensures
        scan_whole_lines(src, pos, length) == Some(scan_headers(src, pos, length)),
    decreases src.len() - pos,
{
    let end = line_end(src, pos);
    lemma_line_end_bounds(src, pos);
    match header_step(length, src.subrange(pos, end)) {
        HeaderStep::Continue(next) => {
            lemma_whole_headers(src, end, next);
        },
        _ => {},
    }
}

/// The headers of a frame that `encode` writes: they give the length of the
/// body, end in a whole blank line, and the body follows them.
pub proof fn lemma_frame_headers(payload: Seq<u8>, rest: Seq<u8>)
    requires
        payload.len() <= usize::MAX,
    ensures
        ({
            let src = frame_bytes(payload) + rest;
            let start = frame_bytes(payload).len() - payload.len();
            &&& scan_headers(src, 0, None) == Ok::<(usize, int), FramingError>(
                (payload.len() as usize, start),
            )
            &&& start > 0
            &&& src[start - 1] == 0x0a
            &&& src.subrange(start, start + payload.len()) == payload
        }),
{
    reveal_strlit("Content-Length:");
    reveal_strlit("Content-Length: ");
    reveal_strlit("\r\n\r\n");
    let n = payload.len();
    let digits = decimal_digits(n);
    let frame = frame_bytes(payload);
    let src = frame + rest;
    let l = 16 + digits.len() as int;
    lemma_decimal_digits_are_digits(n);
    lemma_decimal_round_trip(n);
    assert(frame.len() == l + 4 + n);
    assert forall|i: int| 0 <= i < 16 implies src[i] == frame_prefix()[i] by {}
    assert forall|i: int| 16 <= i < l implies src[i] == digits[i - 16] && is_digit(#[trigger] src[i]) by {
        assert(is_digit(digits[i - 16]));
    }
    assert(src[l] == 0x0d && src[l + 1] == 0x0a && src[l + 2] == 0x0d && src[l + 3] == 0x0a) by {
        assert(src[l] == frame_separator()[0]);
        assert(src[l + 1] == frame_separator()[1]);
        assert(src[l + 2] == frame_separator()[2]);
        assert(src[l + 3] == frame_separator()[3]);
    }
    // The header line.
    assert forall|i: int| 0 <= i < l implies #[trigger] src[i] != 0x0a by {
        if i < 16 {
            assert(src[i] == frame_prefix()[i]);
        } else {
            assert(is_digit(src[i]));
        }
    }
    lemma_line_end_is(src, 0, l + 2);
    let line = src.subrange(0, l + 2);
    assert(is_digit(src[l - 1])) by {
        assert(is_digit(digits[digits.len() - 1]));
    }
    assert(!is_space(line[l - 1]));
    lemma_trim_end_len_is(line, l);
    let content = trim_end(line);
    assert(content =~= src.subrange(0, l));
    assert(content.subrange(0, 15) =~= length_header());
    let value = content.subrange(15, l);
    assert(value.len() == digits.len() + 1);
    assert(value[0] == 0x20);
    assert forall|i: int| 1 <= i < value.len() implies value[i] == digits[i - 1] by {}
    assert(!is_space(value[value.len() - 1]));
    lemma_trim_end_len_is(value, value.len() as int);
    assert(trim_end(value) =~= value);
    assert(!is_space(value[1])) by {
        assert(is_digit(digits[0]));
    }
    lemma_leading_spaces_is(value, 1);
    assert(trim(value) =~= digits);
    assert(numeral_digits(digits) == digits);
    assert(parsed_decimal(digits) == Some(n as usize));
    assert(header_step(None, line) == HeaderStep::Continue(Some(n as usize)));
    // The blank line.
    lemma_line_end_is(src, l + 2, l + 4);
    let blank = src.subrange(l + 2, l + 4);
    assert(is_space(blank[0]) && is_space(blank[1]));
    lemma_trim_end_len_is(blank, 0);
    assert(header_step(Some(n as usize), blank) == HeaderStep::Body(n as usize));
    assert(scan_headers(src, l + 2, Some(n as usize)) == Ok::<(usize, int), FramingError>(
        (n as usize, l + 4),
    ));
    assert(scan_headers(src, 0, None) == scan_headers(src, l + 2, Some(n as usize)));
    // The body.
    assert(src.subrange(l + 4, l + 4 + n) =~= payload);
}

/// Decoding undoes encoding: a frame written for `message`, with whatever
/// follows it on the wire, reads back as `message`, and takes exactly the
/// bytes of the frame. The length in the header counts bytes, so this holds
/// for text of any script.
pub proof fn lemma_decode_encode(message: Seq<char>, rest: Seq<u8>)
    requires
        encode_utf8(message).len() <= usize::MAX,
    ensures
        decoded(frame_bytes(encode_utf8(message)) + rest) == Ok::<(Seq<char>, int), FramingError>(
            (message, frame_bytes(encode_utf8(message)).len() as int),
        ),
{
    lemma_frame_headers(encode_utf8(message), rest);
    encode_utf8_valid_utf8(message);
    encode_utf8_decode_utf8(message);
}

/// A frame that has come whole is there to be read, whatever has come behind
/// it.
pub proof fn lemma_available_of_frame(message: Seq<char>, rest: Seq<u8>)
    requires
        encode_utf8(message).len() <= usize::MAX,
    ensures
        available(frame_bytes(encode_utf8(message)) + rest) == Some(
            Ok::<(Seq<char>, int), FramingError>(
                (message, frame_bytes(encode_utf8(message)).len() as int),
            ),
        ),
{
    let payload = encode_utf8(message);
    lemma_frame_headers(payload, rest);
    lemma_whole_headers(frame_bytes(payload) + rest, 0, None);
    encode_utf8_valid_utf8(message);
    encode_utf8_decode_utf8(message);
}

/// Frames that follow one another on the wire are read one after the other:
/// the first read gives the first message and stops where the second frame
/// begins, and the read from there gives the second.
pub proof fn lemma_frames_in_sequence(first: Seq<char>, second: Seq<char>, rest: Seq<u8>)
    requires
        encode_utf8(first).len() <= usize::MAX,
        encode_utf8(second).len() <= usize::MAX,
    ensures
        ({
            let one = frame_bytes(encode_utf8(first));
            let two = frame_bytes(encode_utf8(second));
            let wire = one + two + rest;
            &&& decoded(wire) == Ok::<(Seq<char>, int), FramingError>((first, one.len() as int))
            &&& decoded(wire.subrange(one.len() as int, wire.len() as int)) == Ok::<
                (Seq<char>, int),
                FramingError,
            >((second, two.len() as int))
        }),
{
    let one = frame_bytes(encode_utf8(first));
    let two = frame_bytes(encode_utf8(second));
    let wire = one + two + rest;
    lemma_decode_encode(first, two + rest);
    assert(wire =~= one + (two + rest));
    lemma_decode_encode(second, rest);
    assert(wire.subrange(one.len() as int, wire.len() as int) =~= two + rest);
}

/// `String::from_utf8` of std: a byte vector becomes a `String` exactly when
/// it is valid UTF-8, and the `String` then holds the characters that the
/// bytes encode. Invalid input gives `None`.
#[verifier::external_body]
fn utf8_to_string(bytes: Vec<u8>) -> (text: Option<String>)
    ensures
        text is Some <==> valid_utf8(bytes@),
        text matches Some(s) ==> s@ == decode_utf8(bytes@),
{
    String::from_utf8(bytes).ok()
}

/// Finds where the line that begins at `pos` ends.
fn find_line_end(src: &[u8], pos: usize) -> (end: usize)
    requires
        pos <= src.len(),
    ensures
        end == line_end(src@, pos as int),
        pos <= end <= src.len(),
{
    let mut i: usize = pos;
    while i < src.len() && src[i] != 0x0a
        invariant
            pos <= i <= src.len(),
            line_end(src@, pos as int) == line_end(src@, i as int),
        decreases src.len() - i,
    {
        i = i + 1;
    }
    if i < src.len() {
        i + 1
    } else {
        i
    }
}

/// Decides what one header line means. `length` is the body length that
/// earlier lines gave; `line` is the line as read, line end included, and is
/// empty when the source has ended.
pub fn read_header_line(length: Option<usize>, line: &[u8]) -> (step: HeaderStep)
    ensures
        step == header_step(length, line@),
{
    if line.len() == 0 {
        return HeaderStep::Fail(FramingError::UnexpectedEof);
    }
    assert(line@.subrange(0, line@.len() as int) =~= line@);
    let end = trim_end_index(line, line.len());
    if end == 0 {
        return match length {
            Some(n) => HeaderStep::Body(n),
            None => HeaderStep::Fail(FramingError::MissingContentLength),
        };
    }
    proof {
        reveal_strlit("Content-Length:");
    }
    if !starts_with_ascii(line, end, "Content-Length:") {
        return HeaderStep::Continue(length);
    }
    let value = &line[15..end];
    assert(length_header().len() == 15);
    assert(value@ =~= trim_end(line@).subrange(15, trim_end(line@).len() as int));
    assert(value@.subrange(0, value@.len() as int) =~= value@);
    let value_end = trim_end_index(value, value.len());
    let value_start = trim_start_index(value, 0, value_end);
    proof {
        lemma_leading_spaces_bound(trim_end(value@));
        assert(value@.subrange(value_start as int, value_end as int) =~= trim(value@));
    }
    match parse_decimal(&value[value_start..value_end]) {
        Some(n) => HeaderStep::Continue(Some(n)),
        None => HeaderStep::Fail(FramingError::LengthParseError),
    }
}

/// Turns the body of a frame into text.
pub fn decode_body(body: Vec<u8>) -> (text: Result<String, FramingError>)
    ensures
        match decoded_body(body@) {
            Ok(chars) => text matches Ok(s) && s@ == chars,
            Err(e) => text matches Err(x) && x == e,
        },
{
    match utf8_to_string(body) {
        Some(s) => Ok(s),
        None => Err(FramingError::InvalidUtf8),
    }
}

/// Reads the first frame of `source`, which holds everything the source
/// yields before it ends: header lines up to a blank line, then as many bytes
/// as the last `Content-Length` header said, decoded as UTF-8.
pub fn decode(source: &[u8]) -> (frame: Result<Frame, FramingError>)
    ensures
        match decoded(source@) {
            Ok((text, consumed)) => frame matches Ok(f) && f.payload@ == text && f.consumed
                == consumed,
            Err(e) => frame matches Err(x) && x == e,
        },
{
    let mut pos: usize = 0;
    let mut length: Option<usize> = None;
    let mut body_len: usize = 0;
    loop
        invariant_except_break
            pos <= source.len(),
            scan_headers(source@, 0, None) == scan_headers(source@, pos as int, length),
        ensures
            pos <= source.len(),
            scan_headers(source@, 0, None) == Ok::<(usize, int), FramingError>((body_len, pos as int)),
        decreases source.len() - pos,
    {
        if pos >= source.len() {
            return Err(FramingError::UnexpectedEof);
        }
        let end = find_line_end(source, pos);
        proof {
            lemma_line_end_bounds(source@, pos as int);
        }
        match read_header_line(length, &source[pos..end]) {
            HeaderStep::Continue(next) => {
                length = next;
                pos = end;
            },
            HeaderStep::Body(n) => {
                body_len = n;
                pos = end;
                break;
            },
            HeaderStep::Fail(e) => {
                return Err(e);
            },
        }
    }
    if body_len > source.len() - pos {
        return Err(FramingError::UnexpectedEof);
    }
    let body = slice_to_vec(&source[pos..pos + body_len]);
    match decode_body(body) {
        Ok(payload) => Ok(Frame { payload, consumed: pos + body_len }),
        Err(e) => Err(e),
    }
}

/// Reads the first frame from what has come of a source that still runs.
/// Only whole header lines count: `None` says that more bytes are needed to
/// tell; a frame or an error, once given, stands whatever follows.
pub fn poll_frame(arrived: &[u8]) -> (frame: Option<Result<Frame, FramingError>>)
    ensures
        match available(arrived@) {
            None => frame is None,
            Some(Ok((text, consumed))) => frame matches Some(Ok(f)) && f.payload@ == text
                && f.consumed == consumed,
            Some(Err(e)) => frame matches Some(Err(x)) && x == e,
        },
{
    let mut pos: usize = 0;
    let mut length: Option<usize> = None;
    let mut body_len: usize = 0;
    loop
        invariant_except_break
            pos <= arrived.len(),
            scan_whole_lines(arrived@, 0, None) == scan_whole_lines(arrived@, pos as int, length),
        ensures
            pos <= arrived.len(),
            scan_whole_lines(arrived@, 0, None) == Some(
                Ok::<(usize, int), FramingError>((body_len, pos as int)),
            ),
        decreases arrived.len() - pos,
    {
        if pos >= arrived.len() {
            return None;
        }
        let end = find_line_end(arrived, pos);
        proof {
            lemma_line_end_bounds(arrived@, pos as int);
        }
        if arrived[end - 1] != 0x0a {
            return None;
        }
        match read_header_line(length, &arrived[pos..end]) {
            HeaderStep::Continue(next) => {
                length = next;
                pos = end;
            },
            HeaderStep::Body(n) => {
                body_len = n;
                pos = end;
                break;
            },
            HeaderStep::Fail(e) => {
                return Some(Err(e));
            },
        }
    }
    if body_len > arrived.len() - pos {
        return None;
    }
    let body = slice_to_vec(&arrived[pos..pos + body_len]);
    match decode_body(body) {
        Ok(payload) => Some(Ok(Frame { payload, consumed: pos + body_len })),
        Err(e) => Some(Err(e)),
    }
}

/// Writes `message` as one frame: the header with the length of the message
/// in bytes, the blank line, and the message in UTF-8.
pub fn encode(message: &str) -> (frame: Vec<u8>)
    ensures
        frame@ == frame_bytes(encode_utf8(message@)),
{
    let payload = message.as_bytes();
    let mut frame: Vec<u8> = Vec::new();
    proof {
        reveal_strlit("Content-Length: ");
        reveal_strlit("\r\n\r\n");
    }
    push_ascii(&mut frame, "Content-Length: ");
    let digits = format_decimal(payload.len());
    push_bytes(&mut frame, digits.as_slice());
    push_ascii(&mut frame, "\r\n\r\n");
    push_bytes(&mut frame, payload);
    assert(frame@ =~= frame_bytes(encode_utf8(message@)));
    frame
}

} // verus!
