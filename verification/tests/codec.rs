use bytes::BytesMut;
use lsp_rpc::{DecodeError, EncodeError, LanguageServerDecoder, LanguageServerEncoder};

fn drain(decoder: &mut LanguageServerDecoder, buf: &mut BytesMut) -> (Vec<String>, Option<DecodeError>) {
    let mut messages = Vec::new();
    loop {
        match decoder.decode(buf) {
            Ok(Some(text)) => messages.push(text),
            Ok(None) => return (messages, None),
            Err(e) => return (messages, Some(e)),
        }
    }
}

fn feed(chunks: &[&[u8]]) -> (Vec<String>, Option<DecodeError>) {
    let mut decoder = LanguageServerDecoder::new();
    let mut buf = BytesMut::new();
    let mut messages = Vec::new();
    for chunk in chunks {
        buf.extend_from_slice(chunk);
        let (mut more, failure) = drain(&mut decoder, &mut buf);
        messages.append(&mut more);
        if failure.is_some() {
            return (messages, failure);
        }
    }
    (messages, None)
}

#[test]
fn decode_takes_one_frame() {
    let mut decoder = LanguageServerDecoder::new();
    let mut buf = BytesMut::from(&b"Content-Length: 11\r\n\r\n{\"ok\":true}"[..]);
    assert_eq!(decoder.decode(&mut buf), Ok(Some("{\"ok\":true}".to_string())));
    assert!(buf.is_empty());
    assert_eq!(decoder.decode(&mut buf), Ok(None));
}

#[test]
fn decode_takes_frames_one_by_one() {
    let mut decoder = LanguageServerDecoder::new();
    let mut buf = BytesMut::from(&b"Content-Length: 1\r\n\r\naContent-Length: 2\r\n\r\nbc\r\n"[..]);
    assert_eq!(decoder.decode(&mut buf), Ok(Some("a".to_string())));
    assert_eq!(&buf[..], &b"Content-Length: 2\r\n\r\nbc\r\n"[..]);
    assert_eq!(decoder.decode(&mut buf), Ok(Some("bc".to_string())));
    assert_eq!(&buf[..], &b"\r\n"[..]);
    assert_eq!(decoder.decode(&mut buf), Ok(None));
    assert!(buf.is_empty());
}

#[test]
fn decode_waits_for_the_end_of_the_length_line() {
    let mut decoder = LanguageServerDecoder::new();
    let mut buf = BytesMut::from(&b"Content-Length: 1"[..]);
    assert_eq!(decoder.decode(&mut buf), Ok(None));
    assert_eq!(&buf[..], &b"Content-Length: 1"[..]);
    buf.extend_from_slice(b"2\r");
    assert_eq!(decoder.decode(&mut buf), Ok(None));
    assert!(buf.is_empty());
    buf.extend_from_slice(b"\n\r\nhello world!!");
    assert_eq!(decoder.decode(&mut buf), Ok(Some("hello world!".to_string())));
    assert_eq!(&buf[..], &b"!"[..]);
}

#[test]
fn decode_waits_for_what_is_no_prefix_yet() {
    let mut decoder = LanguageServerDecoder::new();
    let mut buf = BytesMut::from(&b"Conte"[..]);
    assert_eq!(decoder.decode(&mut buf), Ok(None));
    assert_eq!(&buf[..], &b"Conte"[..]);
    let mut other = BytesMut::from(&b"garbage"[..]);
    assert_eq!(decoder.decode(&mut other), Ok(None));
    assert_eq!(&other[..], &b"garbage"[..]);
}

#[test]
fn decode_skips_blank_lines_between_messages() {
    let (messages, failure) = feed(&[b"\r\n\r\n\nContent-Length: 2\r\n\r\nhi\r\n\r\nContent-Length: 1\r\n\r\n!"]);
    assert_eq!(messages, vec!["hi".to_string(), "!".to_string()]);
    assert_eq!(failure, None);
}

#[test]
fn decode_rejects_non_numeric_length() {
    let mut decoder = LanguageServerDecoder::new();
    let mut buf = BytesMut::from(&b"Content-Length: abc\r\n\r\nxyz"[..]);
    assert_eq!(decoder.decode(&mut buf), Err(DecodeError::InvalidLength));
    assert_eq!(&buf[..], &b"Content-Length: abc\r\n\r\nxyz"[..]);
    let mut empty = BytesMut::from(&b"Content-Length: \r\n\r\n"[..]);
    assert_eq!(LanguageServerDecoder::new().decode(&mut empty), Err(DecodeError::InvalidLength));
    let mut bad = BytesMut::from(&b"Content-Length: \xff1\r\n\r\n"[..]);
    assert_eq!(LanguageServerDecoder::new().decode(&mut bad), Err(DecodeError::InvalidLength));
}

#[test]
fn decode_rejects_body_that_is_not_utf8() {
    let mut decoder = LanguageServerDecoder::new();
    let mut buf = BytesMut::from(&b"Content-Length: 2\r\n\r\n\xc3\x28rest"[..]);
    assert_eq!(decoder.decode(&mut buf), Err(DecodeError::InvalidText));
    assert_eq!(&buf[..], &b"rest"[..]);
    assert_eq!(decoder.decode(&mut buf), Ok(None));
}

#[test]
fn decode_short_body_needs_more_data() {
    let mut decoder = LanguageServerDecoder::new();
    let mut buf = BytesMut::from(&b"Content-Length: 10\r\n\r\n12345"[..]);
    for _ in 0..5 {
        assert_eq!(decoder.decode(&mut buf), Ok(None));
    }
    assert_eq!(&buf[..], &b"\n\r\n12345"[..]);
    buf.extend_from_slice(b"67890");
    assert_eq!(decoder.decode(&mut buf), Ok(Some("1234567890".to_string())));
}

#[test]
fn decode_waits_when_length_is_declared_too_long() {
    let mut decoder = LanguageServerDecoder::new();
    let mut buf = BytesMut::from(&b"Content-Length: 13\r\n\r\n{\"ok\":true}\n"[..]);
    assert_eq!(decoder.decode(&mut buf), Ok(None));
    assert_eq!(decoder.decode(&mut buf), Ok(None));
    assert_eq!(&buf[..], &b"{\"ok\":true}\n"[..]);
    buf.extend_from_slice(b"{");
    assert_eq!(decoder.decode(&mut buf), Ok(Some("{\"ok\":true}\n{".to_string())));
    assert!(buf.is_empty());
}

#[test]
fn decode_takes_leading_line_ends_of_a_body_for_padding() {
    let mut decoder = LanguageServerDecoder::new();
    let mut buf = BytesMut::from(&b"Content-Length: 3\r\n\r\n\nab"[..]);
    assert_eq!(decoder.decode(&mut buf), Ok(None));
    assert_eq!(&buf[..], &b"ab"[..]);
    buf.extend_from_slice(b"c");
    assert_eq!(decoder.decode(&mut buf), Ok(Some("abc".to_string())));
}

#[test]
fn decode_empty_body() {
    let (messages, failure) = feed(&[b"Content-Length: 0\r\n\r\nContent-Length: 0\r\n\r\n"]);
    assert_eq!(messages, vec![String::new(), String::new()]);
    assert_eq!(failure, None);
}

#[test]
fn decode_is_independent_of_chunking() {
    let stream: &[u8] =
        b"\r\nContent-Length: 12\r\n\r\nhe\r\nllo w\xc3\xb6\r\nContent-Length: 0\r\n\r\n\nContent-Length: 3\r\n\r\nabc\r\nContent-Len";
    let whole = feed(&[stream]);
    assert_eq!(whole.0, vec!["he\r\nllo w\u{f6}\r".to_string(), String::new(), "abc".to_string()]);
    assert_eq!(whole.1, None);
    for i in 0..=stream.len() {
        assert_eq!(feed(&[&stream[..i], &stream[i..]]), whole, "split at {}", i);
        for j in i..=stream.len() {
            assert_eq!(feed(&[&stream[..i], &stream[i..j], &stream[j..]]), whole, "split at {} and {}", i, j);
        }
    }
    let bytes: Vec<&[u8]> = stream.chunks(1).collect();
    assert_eq!(feed(&bytes), whole);
}

#[test]
fn decode_fails_alike_whatever_the_chunking() {
    let stream: &[u8] = b"Content-Length: 1\r\n\r\naContent-Length: x\r\n\r\nb";
    let whole = feed(&[stream]);
    assert_eq!(whole, (vec!["a".to_string()], Some(DecodeError::InvalidLength)));
    for i in 0..=stream.len() {
        assert_eq!(feed(&[&stream[..i], &stream[i..]]), whole, "split at {}", i);
    }
}

#[test]
fn encode_writes_the_frame() {
    let mut dst = BytesMut::new();
    assert_eq!(LanguageServerEncoder.encode("{\"id\":1}".to_string(), &mut dst), Ok(()));
    assert_eq!(&dst[..], &b"Content-Length: 8\r\n\r\n{\"id\":1}"[..]);
    assert_eq!(LanguageServerEncoder.encode("ü".to_string(), &mut dst), Ok(()));
    assert_eq!(&dst[..], "Content-Length: 8\r\n\r\n{\"id\":1}Content-Length: 2\r\n\r\nü".as_bytes());
}

#[test]
fn encode_grows_a_buffer_without_room() {
    let mut dst = BytesMut::with_capacity(0);
    let text = "x".repeat(10_000);
    let result: Result<(), EncodeError> = LanguageServerEncoder.encode(text.clone(), &mut dst);
    assert_eq!(result, Ok(()));
    assert_eq!(dst.len(), "Content-Length: 10000\r\n\r\n".len() + 10_000);
    assert_eq!(&dst[25..], text.as_bytes());
}

#[test]
fn encode_then_decode_gives_the_text_back() {
    let texts = ["", "a", "{\"jsonrpc\":\"2.0\"}", "line\r\nline\r\n", "päivää ✓ 🎉", "Content-Length: 3\r\n\r\nabc"];
    let mut dst = BytesMut::new();
    for text in texts.iter() {
        assert_eq!(LanguageServerEncoder.encode(text.to_string(), &mut dst), Ok(()));
    }
    let mut decoder = LanguageServerDecoder::new();
    for text in texts.iter() {
        assert_eq!(decoder.decode(&mut dst), Ok(Some(text.to_string())));
    }
    assert_eq!(decoder.decode(&mut dst), Ok(None));
    assert!(dst.is_empty());
}
