//! Frame-level tests for the LSP wire codec: `Content-Length` framing in
//! both directions, and the reader's answers on short, broken and chunked
//! input.
use tabbify_codeservice::lsp::jsonrpc::{encode_frame, FrameError, FrameReader};

#[test]
fn encode_prefixes_content_length() {
    let bytes = encode_frame(br#"{"jsonrpc":"2.0","id":1,"method":"x"}"#);
    let s = String::from_utf8(bytes).unwrap();
    assert!(s.starts_with("Content-Length: 37\r\n\r\n"), "got: {s:?}");
    assert!(s.ends_with(r#"{"jsonrpc":"2.0","id":1,"method":"x"}"#));
}

#[test]
fn reader_decodes_one_frame() {
    let payload = br#"{"jsonrpc":"2.0","id":1,"result":{}}"#;
    let mut buf = Vec::new();
    buf.extend_from_slice(format!("Content-Length: {}\r\n\r\n", payload.len()).as_bytes());
    buf.extend_from_slice(payload);
    let mut reader = FrameReader::new(buf);
    let frame = reader.read_frame().unwrap().unwrap();
    assert_eq!(frame, payload);
}

#[test]
fn encode_empty_payload_exact_bytes() {
    assert_eq!(encode_frame(b""), b"Content-Length: 0\r\n\r\n".to_vec());
    assert_eq!(encode_frame(b"0123456789"), b"Content-Length: 10\r\n\r\n0123456789".to_vec());
}

#[test]
fn encode_then_read_gives_payload_back() {
    let payloads: Vec<&[u8]> = vec![b"", b"{}", b"\r\n\r\n", br#"{"a":[1,2,3]}"#];
    let mut stream = Vec::new();
    for p in &payloads {
        stream.extend_from_slice(&encode_frame(p));
    }
    let mut reader = FrameReader::new(stream);
    for p in &payloads {
        assert_eq!(reader.read_frame().unwrap().unwrap(), p.to_vec());
    }
    assert_eq!(reader.read_frame().unwrap(), None);
}

#[test]
fn clean_end_of_stream_is_none() {
    let mut reader = FrameReader::new(Vec::new());
    assert_eq!(reader.read_frame().unwrap(), None);
}

#[test]
fn headers_without_length_are_an_error() {
    let mut reader = FrameReader::new(b"Content-Type: x\r\n\r\n{}".to_vec());
    assert_eq!(reader.read_frame().unwrap_err(), FrameError::MissingContentLength);
}

#[test]
fn unparsable_length_is_an_error() {
    let mut reader = FrameReader::new(b"Content-Length: abc\r\n\r\n{}".to_vec());
    assert_eq!(reader.read_frame().unwrap_err(), FrameError::MissingContentLength);
}

#[test]
fn length_with_spaces_is_trimmed() {
    let mut reader = FrameReader::new(b"Content-Length:   2  \r\nX-Other: 1\r\n\r\n{}".to_vec());
    assert_eq!(reader.read_frame().unwrap().unwrap(), b"{}".to_vec());
}

#[test]
fn invalid_utf8_header_is_an_error() {
    let mut reader = FrameReader::new(vec![0xff, 0xfe, b'\r', b'\n', b'\r', b'\n']);
    assert_eq!(reader.read_frame().unwrap_err(), FrameError::InvalidUtf8);
}

#[test]
fn short_body_at_end_of_stream_is_an_error() {
    let mut reader = FrameReader::new(b"Content-Length: 10\r\n\r\n{}".to_vec());
    assert_eq!(reader.read_frame().unwrap_err(), FrameError::UnexpectedEof);
}

#[test]
fn streaming_reader_waits_for_the_whole_frame() {
    let frame = encode_frame(b"{\"id\":7}");
    let mut reader = FrameReader::streaming();
    assert_eq!(reader.read_frame().unwrap_err(), FrameError::Incomplete);
    reader.feed(&frame[..5]);
    assert_eq!(reader.read_frame().unwrap_err(), FrameError::Incomplete);
    reader.feed(&frame[5..frame.len() - 1]);
    assert_eq!(reader.read_frame().unwrap_err(), FrameError::Incomplete);
    reader.feed(&frame[frame.len() - 1..]);
    assert_eq!(reader.read_frame().unwrap().unwrap(), b"{\"id\":7}".to_vec());
    assert_eq!(reader.read_frame().unwrap_err(), FrameError::Incomplete);
    reader.feed(&[]);
    assert_eq!(reader.read_frame().unwrap(), None);
}
