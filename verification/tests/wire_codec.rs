use jsp_lsp::wire::{
    decode, decode_body, encode, poll_frame, read_header_line, FramingError, HeaderStep,
};

#[test]
fn encode_writes_header_and_payload() {
    let frame = encode("{\"a\":1}");
    assert_eq!(frame, b"Content-Length: 7\r\n\r\n{\"a\":1}".to_vec());
}

#[test]
fn encode_counts_bytes_not_characters() {
    let frame = encode("h\u{e9}llo \u{4e16}\u{754c}");
    assert_eq!(frame, "Content-Length: 13\r\n\r\nh\u{e9}llo \u{4e16}\u{754c}".as_bytes().to_vec());
}

#[test]
fn encode_empty_message() {
    assert_eq!(encode(""), b"Content-Length: 0\r\n\r\n".to_vec());
}

#[test]
fn decode_round_trip_multibyte() {
    let message = "{\"text\":\"\u{1f600} gr\u{fc}\u{df}e \u{65e5}\u{672c}\u{8a9e}\"}";
    let frame = encode(message);
    let decoded = decode(&frame).unwrap();
    assert_eq!(decoded.payload, message);
    assert_eq!(decoded.consumed, frame.len());
}

#[test]
fn decode_takes_only_the_first_frame() {
    let mut stream = encode("first");
    let first_len = stream.len();
    stream.extend_from_slice(&encode("second"));
    let one = decode(&stream).unwrap();
    assert_eq!(one.payload, "first");
    assert_eq!(one.consumed, first_len);
    let two = decode(&stream[one.consumed..]).unwrap();
    assert_eq!(two.payload, "second");
    assert_eq!(two.consumed, stream.len() - first_len);
}

#[test]
fn decode_ignores_other_headers() {
    let source = b"Content-Type: application/vscode-jsonrpc; charset=utf-8\r\nContent-Length: 2\r\n\r\n{}";
    let frame = decode(source).unwrap();
    assert_eq!(frame.payload, "{}");
    assert_eq!(frame.consumed, source.len());
}

#[test]
fn decode_takes_the_last_length() {
    let frame = decode(b"Content-Length: 5\nContent-Length:  1 \n\nxyz").unwrap();
    assert_eq!(frame.payload, "x");
}

#[test]
fn decode_header_name_is_case_sensitive() {
    assert_eq!(decode(b"content-length: 2\r\n\r\n{}").unwrap_err(), FramingError::MissingContentLength);
}

#[test]
fn decode_missing_content_length() {
    assert_eq!(decode(b"\r\n{}").unwrap_err(), FramingError::MissingContentLength);
}

#[test]
fn decode_unexpected_eof_in_headers() {
    assert_eq!(decode(b"").unwrap_err(), FramingError::UnexpectedEof);
    assert_eq!(decode(b"Content-Length: 2\r\n").unwrap_err(), FramingError::UnexpectedEof);
    assert_eq!(decode(b"Content-Length: 2").unwrap_err(), FramingError::UnexpectedEof);
}

#[test]
fn decode_unexpected_eof_in_body() {
    assert_eq!(decode(b"Content-Length: 3\r\n\r\n{}").unwrap_err(), FramingError::UnexpectedEof);
}

#[test]
fn decode_length_parse_error() {
    assert_eq!(decode(b"Content-Length: abc\r\n\r\n").unwrap_err(), FramingError::LengthParseError);
    assert_eq!(decode(b"Content-Length:\r\n\r\n").unwrap_err(), FramingError::LengthParseError);
    assert_eq!(decode(b"Content-Length: -1\r\n\r\n").unwrap_err(), FramingError::LengthParseError);
    assert_eq!(decode(b"Content-Length: 1 2\r\n\r\n").unwrap_err(), FramingError::LengthParseError);
    assert_eq!(
        decode(b"Content-Length: 99999999999999999999999999\r\n\r\n").unwrap_err(),
        FramingError::LengthParseError
    );
}

#[test]
fn decode_invalid_utf8() {
    assert_eq!(decode(b"Content-Length: 2\r\n\r\n\xff\xfe").unwrap_err(), FramingError::InvalidUtf8);
    assert_eq!(decode(b"Content-Length: 1\r\n\r\n\xc3\xa9").unwrap_err(), FramingError::InvalidUtf8);
}

#[test]
fn decode_accepts_a_plus_sign() {
    assert_eq!(decode(b"Content-Length: +2\r\n\r\nok").unwrap().payload, "ok");
}

#[test]
fn header_lines_one_by_one() {
    assert_eq!(read_header_line(None, b""), HeaderStep::Fail(FramingError::UnexpectedEof));
    assert_eq!(read_header_line(None, b"Content-Length: 42\r\n"), HeaderStep::Continue(Some(42)));
    assert_eq!(read_header_line(Some(42), b"X-Other: 1\r\n"), HeaderStep::Continue(Some(42)));
    assert_eq!(read_header_line(Some(42), b"\r\n"), HeaderStep::Body(42));
    assert_eq!(read_header_line(None, b"\n"), HeaderStep::Fail(FramingError::MissingContentLength));
    assert_eq!(
        read_header_line(Some(1), b"Content-Length: x\n"),
        HeaderStep::Fail(FramingError::LengthParseError)
    );
}

#[test]
fn decode_body_checks_utf8() {
    assert_eq!(decode_body("gr\u{fc}n".as_bytes().to_vec()).unwrap(), "gr\u{fc}n");
    assert_eq!(decode_body(vec![0x80]).unwrap_err(), FramingError::InvalidUtf8);
}

#[test]
fn poll_waits_for_whole_lines_and_the_whole_body() {
    let frame = encode("{\"k\":\"\u{e9}\"}");
    for cut in 0..frame.len() {
        assert_eq!(poll_frame(&frame[..cut]), None, "cut at {}", cut);
    }
    let whole = poll_frame(&frame).unwrap().unwrap();
    assert_eq!(whole.payload, "{\"k\":\"\u{e9}\"}");
    assert_eq!(whole.consumed, frame.len());
    assert_eq!(Ok(whole), decode(&frame));
}

#[test]
fn poll_does_not_judge_a_line_before_its_end() {
    assert_eq!(poll_frame(b"Content-Length:"), None);
    assert_eq!(poll_frame(b"Content-Length: +"), None);
    assert_eq!(poll_frame(b"Content-Length: 1"), None);
    assert_eq!(poll_frame(b"Content-Length: 12\r\n"), None);
    assert_eq!(poll_frame(b"Content-Length: x"), None);
    assert_eq!(poll_frame(b"Content-Length: x\n"), Some(Err(FramingError::LengthParseError)));
    assert_eq!(poll_frame(b"\r"), None);
    assert_eq!(poll_frame(b"\r\n"), Some(Err(FramingError::MissingContentLength)));
    assert_eq!(poll_frame(b"Content-Length: 1\n\n\xff"), Some(Err(FramingError::InvalidUtf8)));
}

#[test]
fn poll_leaves_what_follows_the_frame() {
    let mut stream = encode("one");
    let first = stream.len();
    stream.extend_from_slice(b"Content-Len");
    let frame = poll_frame(&stream).unwrap().unwrap();
    assert_eq!(frame.payload, "one");
    assert_eq!(frame.consumed, first);
    assert_eq!(poll_frame(&stream[first..]), None);
}

#[test]
fn decode_takes_a_last_line_without_line_feed() {
    assert_eq!(decode(b"Content-Length: 0\n ").unwrap().payload, "");
    assert_eq!(poll_frame(b"Content-Length: 0\n "), None);
}
