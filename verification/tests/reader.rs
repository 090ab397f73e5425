use lsp_rpc::{advance, read_message, write_message_str, ReadError, ReadState, ReadStep, Wanted};

#[test]
fn read_message_reads_one_message() {
    let mut input: &[u8] = b"Content-Length: 11\r\n\r\n{\"ok\":true}Content-Length: 1\r\n\r\nx";
    assert_eq!(read_message(&mut input), Ok(Some("{\"ok\":true}".to_string())));
    assert_eq!(input, &b"Content-Length: 1\r\n\r\nx"[..]);
    assert_eq!(read_message(&mut input), Ok(Some("x".to_string())));
    assert!(input.is_empty());
    assert_eq!(read_message(&mut input), Ok(None));
}

#[test]
fn read_message_at_the_end_of_the_source() {
    let mut input: &[u8] = b"";
    assert_eq!(read_message(&mut input), Ok(None));
    assert_eq!(read_message(&mut input), Ok(None));
}

#[test]
fn read_message_rejects_another_first_line() {
    let mut input: &[u8] = b"Content-Type: text\r\nContent-Length: 1\r\n\r\nx";
    assert_eq!(
        read_message(&mut input),
        Err(ReadError::InvalidMessage("Content-Type: text\r\n".to_string()))
    );
    assert_eq!(input, &b"Content-Length: 1\r\n\r\nx"[..]);
    let mut blank: &[u8] = b"\r\nContent-Length: 1\r\n\r\nx";
    assert_eq!(read_message(&mut blank), Err(ReadError::InvalidMessage("\r\n".to_string())));
    let mut close: &[u8] = b"Content-Length:1\r\n\r\nx";
    assert_eq!(
        read_message(&mut close),
        Err(ReadError::InvalidMessage("Content-Length:1\r\n".to_string()))
    );
    let mut short: &[u8] = b"Content";
    assert_eq!(read_message(&mut short), Err(ReadError::InvalidMessage("Content".to_string())));
}

#[test]
fn read_message_rejects_non_numeric_length() {
    let mut input: &[u8] = b"Content-Length: eleven\r\n\r\n{\"ok\":true}";
    assert_eq!(read_message(&mut input), Err(ReadError::InvalidLength));
    let mut empty: &[u8] = b"Content-Length: \r\n\r\n";
    assert_eq!(read_message(&mut empty), Err(ReadError::InvalidLength));
    let mut negative: &[u8] = b"Content-Length: -1\r\n\r\n";
    assert_eq!(read_message(&mut negative), Err(ReadError::InvalidLength));
}

#[test]
fn read_message_trims_the_length() {
    let mut input: &[u8] = b"Content-Length: \t +3 \r\n\r\nabc";
    assert_eq!(read_message(&mut input), Ok(Some("abc".to_string())));
    let mut bare: &[u8] = b"Content-Length: 3\n\r\nabc";
    assert_eq!(read_message(&mut bare), Ok(Some("abc".to_string())));
}

#[test]
fn read_message_passes_over_other_header_lines() {
    let mut input: &[u8] =
        b"Content-Length: 2\r\nContent-Type: application/json\r\nX: y\n\n\r\nokrest";
    assert_eq!(read_message(&mut input), Ok(Some("ok".to_string())));
    assert_eq!(input, &b"rest"[..]);
}

#[test]
fn read_message_on_a_source_that_ends_early() {
    let mut in_body: &[u8] = b"Content-Length: 10\r\n\r\n12345";
    assert_eq!(read_message(&mut in_body), Err(ReadError::Truncated));
    assert!(in_body.is_empty());
    let mut in_header: &[u8] = b"Content-Length: 10\r\nContent-Type: x\r\n";
    assert_eq!(read_message(&mut in_header), Err(ReadError::Truncated));
    let mut in_line: &[u8] = b"Content-Length: 10";
    assert_eq!(read_message(&mut in_line), Err(ReadError::Truncated));
    let mut before_blank: &[u8] = b"Content-Length: 0\r\n\r";
    assert_eq!(read_message(&mut before_blank), Err(ReadError::Truncated));
}

#[test]
fn read_message_rejects_what_is_not_utf8() {
    let mut body: &[u8] = b"Content-Length: 2\r\n\r\n\xc3\x28rest";
    assert_eq!(read_message(&mut body), Err(ReadError::InvalidText));
    assert_eq!(body, &b"rest"[..]);
    let mut first: &[u8] = b"Content-Length: 2\xff\r\n\r\nab";
    assert_eq!(read_message(&mut first), Err(ReadError::InvalidText));
    let mut field: &[u8] = b"Content-Length: 2\r\nX: \xff\r\n\r\nab";
    assert_eq!(read_message(&mut field), Err(ReadError::InvalidText));
    let mut unknown: &[u8] = b"\xffContent-Length: 2\r\n\r\nab";
    assert_eq!(read_message(&mut unknown), Err(ReadError::InvalidText));
}

#[test]
fn write_then_read_gives_the_text_back() {
    let texts = ["", "x", "\r\n", "\r\nstarts with a line end", "a\r\nb\r\n\r\nc", "päivää ✓ 🎉", "Content-Length: 1\r\n\r\nx"];
    let mut bytes = Vec::new();
    for text in texts.iter() {
        write_message_str(&mut bytes, text);
    }
    let mut input: &[u8] = &bytes;
    for text in texts.iter() {
        assert_eq!(read_message(&mut input), Ok(Some(text.to_string())));
    }
    assert_eq!(read_message(&mut input), Ok(None));
}

#[test]
fn read_state_asks_for_lines_and_then_for_the_body() {
    assert_eq!(ReadState::new(), ReadState::Header);
    assert_eq!(ReadState::Header.wants(), Wanted::Line);
    assert_eq!(ReadState::Fields(7).wants(), Wanted::Line);
    assert_eq!(ReadState::Body(7).wants(), Wanted::Bytes(7));
}

#[test]
fn advance_walks_through_a_message() {
    let step = advance(ReadState::Header, b"Content-Length: 5\r\n".to_vec());
    assert_eq!(step, ReadStep::Continue(ReadState::Fields(5)));
    let step = advance(ReadState::Fields(5), b"Other: 1\r\n".to_vec());
    assert_eq!(step, ReadStep::Continue(ReadState::Fields(5)));
    let step = advance(ReadState::Fields(5), b"\n".to_vec());
    assert_eq!(step, ReadStep::Continue(ReadState::Fields(5)));
    let step = advance(ReadState::Fields(5), b"\r\n".to_vec());
    assert_eq!(step, ReadStep::Continue(ReadState::Body(5)));
    let step = advance(ReadState::Body(5), b"hello".to_vec());
    assert_eq!(step, ReadStep::Done(Ok(Some("hello".to_string()))));
}

#[test]
fn advance_ends_on_errors() {
    assert_eq!(advance(ReadState::Header, Vec::new()), ReadStep::Done(Ok(None)));
    assert_eq!(
        advance(ReadState::Header, b"hello\n".to_vec()),
        ReadStep::Done(Err(ReadError::InvalidMessage("hello\n".to_string())))
    );
    assert_eq!(
        advance(ReadState::Header, b"Content-Length: x\r\n".to_vec()),
        ReadStep::Done(Err(ReadError::InvalidLength))
    );
    assert_eq!(advance(ReadState::Header, vec![0xC0]), ReadStep::Done(Err(ReadError::InvalidText)));
    assert_eq!(advance(ReadState::Fields(1), Vec::new()), ReadStep::Done(Err(ReadError::Truncated)));
    assert_eq!(advance(ReadState::Fields(1), vec![0x80]), ReadStep::Done(Err(ReadError::InvalidText)));
    assert_eq!(advance(ReadState::Body(3), b"ab".to_vec()), ReadStep::Done(Err(ReadError::Truncated)));
    assert_eq!(advance(ReadState::Body(1), b"ab".to_vec()), ReadStep::Done(Err(ReadError::Truncated)));
    assert_eq!(advance(ReadState::Body(1), vec![0xFF]), ReadStep::Done(Err(ReadError::InvalidText)));
    assert_eq!(advance(ReadState::Body(0), Vec::new()), ReadStep::Done(Ok(Some(String::new()))));
}
