//! Requests and responses on the wire.

use mzani::config::Limits;
use mzani::error::MzaniError;
use mzani::request::{
    content_length, header_end_bytes, parse_head, read_header_block, HttpMethod, Request, RequestReader,
};
use mzani::response::{read_http_response, ResponseReader};
use mzani::text::find_subslice;

#[test]
fn find_subslice_locates_delimiter() {
    let header_end = header_end_bytes();
    let haystack = b"GET / HTTP/1.1\r\n\r\n";
    let index = find_subslice(haystack, &header_end);
    let Some(index) = index else {
        panic!("expected header delimiter");
    };
    assert_eq!(&haystack[index..index + header_end.len()], header_end.as_slice());
}

#[test]
fn parse_head_extracts_method_and_path() -> Result<(), MzaniError> {
    let raw = b"GET /health HTTP/1.1\r\nHost: localhost\r\n\r\n";
    let (method, path, headers) = parse_head(raw)?;
    assert_eq!(method, HttpMethod::Get);
    assert_eq!(path, "/health");
    assert_eq!(headers.len(), 1);
    Ok(())
}

#[test]
fn content_length_defaults_to_zero() -> Result<(), MzaniError> {
    let headers = vec![("Host".to_owned(), "localhost".to_owned())];
    assert_eq!(content_length(&headers)?, 0);
    Ok(())
}

#[test]
fn read_headers_reads_until_block_end() -> Result<(), MzaniError> {
    let payload = b"POST / HTTP/1.1\r\nContent-Length: 4\r\n\r\nbody";
    let Some((raw_head, body_prefix)) = read_header_block(payload, Limits::default().max_header_bytes)? else {
        panic!("expected a header block");
    };
    assert!(raw_head.ends_with(&header_end_bytes()));
    assert_eq!(body_prefix, b"body");
    Ok(())
}

#[test]
fn parse_head_rejects_invalid_utf8() {
    let raw = [0xff, 0xfe, 0xfd];
    assert!(parse_head(&raw).is_err());
}

#[test]
fn accessors_expose_parsed_parts() -> Result<(), MzaniError> {
    let raw = b"POST /submit HTTP/1.1\r\nHost: localhost\r\nContent-Length: 0\r\n\r\n";
    let Some(request) = Request::from_stream(raw, &Limits::default())? else {
        panic!("expected a whole request");
    };
    assert_eq!(request.method().as_str(), "POST");
    assert_eq!(request.path(), "/submit");
    assert_eq!(request.headers().len(), 2);
    assert!(request.body().is_empty());
    Ok(())
}

#[test]
fn reads_response_with_content_length() -> Result<(), MzaniError> {
    let payload = b"HTTP/1.1 200 OK\r\nContent-Length: 2\r\n\r\nok";
    let message = read_http_response(payload, false, &Limits::default())?;
    assert_eq!(message, Some(payload.to_vec()));
    Ok(())
}

#[test]
fn reads_response_without_waiting_for_connection_close() -> Result<(), MzaniError> {
    let payload = b"HTTP/1.1 200 OK\r\nContent-Length: 2\r\nConnection: keep-alive\r\n\r\nok";
    let mut reader = ResponseReader::new(Limits::default());
    let mut position = 0;
    let message = loop {
        let take = reader.wanted().min(payload.len() - position);
        assert!(take > 0, "asked for more than the message holds");
        let chunk = &payload[position..position + take];
        position += take;
        if let Some(response) = reader.feed(chunk)? {
            break response.message();
        }
    };
    assert!(message.ends_with(b"ok"));
    assert_eq!(position, payload.len());
    Ok(())
}

#[test]
fn reads_chunked_response() -> Result<(), MzaniError> {
    let payload = b"HTTP/1.1 200 OK\r\nTransfer-Encoding: chunked\r\n\r\n5\r\nhello\r\n0\r\n\r\n";
    let Some(message) = read_http_response(payload, false, &Limits::default())? else {
        panic!("expected a whole response");
    };
    assert!(message.ends_with(b"hello"));
    Ok(())
}

#[test]
fn no_body_for_204() -> Result<(), MzaniError> {
    let payload = b"HTTP/1.1 204 No Content\r\n\r\n";
    let message = read_http_response(payload, false, &Limits::default())?;
    assert_eq!(message, Some(payload.to_vec()));
    Ok(())
}

fn parse_error(message: &str) -> MzaniError {
    MzaniError::ParseError(message.to_owned())
}

#[test]
fn methods_keep_their_names() {
    for name in ["GET", "POST", "PUT", "DELETE", "HEAD", "OPTIONS", "PATCH", "PURGE", "get"] {
        assert_eq!(HttpMethod::parse(name).as_str(), name);
    }
    assert_eq!(HttpMethod::parse("HEAD"), HttpMethod::Head);
    assert_eq!(HttpMethod::parse("PURGE"), HttpMethod::Other("PURGE".to_owned()));
}

#[test]
fn requests_come_in_piece_by_piece() -> Result<(), MzaniError> {
    let raw = b"POST /a?b HTTP/1.1\r\nHost: h\r\ncontent-length:  3 \r\n\r\nxyz";
    let mut reader = RequestReader::new(Limits::default());
    let mut position = 0;
    let request = loop {
        let take = reader.wanted().min(1);
        position += take;
        if let Some(request) = reader.feed(&raw[position - take..position])? {
            break request;
        }
    };
    assert_eq!(position, raw.len());
    assert_eq!(request.method(), &HttpMethod::Post);
    assert_eq!(request.path(), "/a?b");
    assert_eq!(request.headers()[1], ("content-length".to_owned(), "3".to_owned()));
    assert_eq!(request.body(), b"xyz");
    assert_eq!(request.to_bytes(), raw.to_vec());
    Ok(())
}

#[test]
fn readers_do_not_read_beyond_the_body() -> Result<(), MzaniError> {
    let head = b"POST / HTTP/1.1\r\nContent-Length: 9\r\n\r\n";
    let mut reader = RequestReader::new(Limits::default());
    assert_eq!(reader.wanted(), 4096);
    assert!(reader.feed(head)?.is_none());
    assert_eq!(reader.wanted(), 9);
    assert!(reader.feed(b"1234")?.is_none());
    assert_eq!(reader.wanted(), 5);
    assert_eq!(reader.end(), MzaniError::Io("failed to fill whole buffer".to_owned()));
    assert!(reader.feed(b"56789")?.is_some());
    assert_eq!(RequestReader::new(Limits::default()).end(), MzaniError::EmptyRequest);
    Ok(())
}

#[test]
fn malformed_requests_are_refused() {
    let limits = Limits { max_header_bytes: 64, max_body_bytes: 4, max_response_bytes: 4 };
    let whole = |raw: &[u8]| Request::from_stream(raw, &limits).map(|request| request.is_some());
    assert_eq!(whole(b""), Ok(false));
    assert_eq!(whole(b"GET / HTTP/1.1\r\n"), Ok(false));
    assert_eq!(whole(b"GET / HTTP/1.1\r\n\r\n"), Ok(true));
    assert_eq!(whole(b"GET / HTTP/1.1\r\nContent-Length: x\r\n\r\n"), Err(parse_error("invalid content-length")));
    assert_eq!(whole(b"GET / HTTP/1.1\r\nContent-Length: 5\r\n\r\n"), Err(MzaniError::BodyTooLarge));
    assert_eq!(whole(b"GET / HTTP/1.1\r\nContent-Length: 4\r\n\r\n123"), Ok(false));
    assert_eq!(whole(b"GET / HTTP/1.1\r\nContent-Length: 4\r\n\r\n1234"), Ok(true));
    assert!(matches!(whole(b"GET\r\n\r\n"), Err(MzaniError::ParseError(_))));
    assert!(matches!(whole(b"GET / HTTP/1.1\r\nbroken\r\n\r\n"), Err(MzaniError::ParseError(_))));
    assert!(matches!(whole(&[b'a'; 65]), Err(MzaniError::ParseError(_))));
    assert!(matches!(whole(b"GET /\xff HTTP/1.1\r\n\r\n"), Err(MzaniError::ParseError(_))));
}

#[test]
fn responses_are_framed_by_length_chunks_or_close() -> Result<(), MzaniError> {
    let limits = Limits::default();
    let fixed = b"HTTP/1.1 200 OK\r\nContent-Length: 3\r\n\r\nabcdef";
    assert_eq!(
        read_http_response(fixed, false, &limits)?,
        Some(b"HTTP/1.1 200 OK\r\nContent-Length: 3\r\n\r\nabc".to_vec())
    );
    let open = b"HTTP/1.1 200 OK\r\n\r\nabc";
    assert_eq!(read_http_response(open, false, &limits)?, None);
    assert_eq!(read_http_response(open, true, &limits)?, Some(open.to_vec()));
    let chunks = b"HTTP/1.1 200 OK\r\nTransfer-Encoding: Chunked\r\n\r\n3;x=y\r\nabc\r\nA\r\n0123456789\r\n0\r\n\r\n";
    assert_eq!(
        read_http_response(chunks, false, &limits)?,
        Some(b"HTTP/1.1 200 OK\r\nContent-Length: 13\r\n\r\nabc0123456789".to_vec())
    );
    for status in ["100 Continue", "204 No Content", "304 Not Modified"] {
        let bare = format!("HTTP/1.1 {status}\r\nContent-Length: 9\r\n\r\n").into_bytes();
        assert_eq!(read_http_response(&bare, false, &limits)?, Some(bare.clone()));
    }
    Ok(())
}

#[test]
fn responses_that_end_too_early_fail() {
    let limits = Limits::default();
    let at_end = |raw: &[u8]| read_http_response(raw, true, &limits);
    assert_eq!(at_end(b""), Err(MzaniError::EmptyRequest));
    assert_eq!(at_end(b"HTTP/1.1 200 OK\r\n"), Err(MzaniError::EmptyRequest));
    assert_eq!(
        at_end(b"HTTP/1.1 200 OK\r\nContent-Length: 3\r\n\r\nab"),
        Err(parse_error("unexpected end of response body"))
    );
    assert_eq!(
        at_end(b"HTTP/1.1 200 OK\r\nTransfer-Encoding: chunked\r\n\r\n3\r\nab"),
        Err(MzaniError::Io("failed to fill whole buffer".to_owned()))
    );
}

#[test]
fn malformed_responses_are_refused() {
    let limits = Limits { max_header_bytes: 128, max_body_bytes: 8, max_response_bytes: 8 };
    let read = |raw: &[u8]| read_http_response(raw, false, &limits);
    for raw in [
        b"HTTP/1.1\r\n\r\n".as_slice(),
        b"HTTP/1.1 abc\r\n\r\n",
        b"HTTP/1.1 200 OK\r\nContent-Length: -1\r\n\r\n",
        b"HTTP/1.1 200 OK\r\nbroken\r\n\r\n",
        b"HTTP/1.1 200 OK\r\nTransfer-Encoding: chunked\r\n\r\nzz\r\n",
        b"HTTP/1.1 200 \xff\r\n\r\n",
    ] {
        assert!(matches!(read(raw), Err(MzaniError::ParseError(_))), "{}", String::from_utf8_lossy(raw));
    }
    for raw in [
        b"HTTP/1.1 200 OK\r\nContent-Length: 9\r\n\r\n".as_slice(),
        b"HTTP/1.1 200 OK\r\nTransfer-Encoding: chunked\r\n\r\n9\r\n",
        b"HTTP/1.1 200 OK\r\n\r\n123456789",
    ] {
        assert_eq!(read(raw), Err(MzaniError::BodyTooLarge), "{}", String::from_utf8_lossy(raw));
    }
}

#[test]
fn decoded_responses_say_how_long_they_are() -> Result<(), MzaniError> {
    let payload =
        b"HTTP/1.1 200 OK\r\nX-A: 1\r\ntransfer-encoding: chunked\r\nX-B: 2\r\n\r\n2\r\nhi\r\n0\r\n\r\n";
    let mut reader = ResponseReader::new(Limits::default());
    let Some(response) = reader.feed(payload)? else {
        panic!("expected a whole response");
    };
    assert!(response.decoded);
    assert_eq!(
        response.client_message(),
        b"HTTP/1.1 200 OK\r\nX-A: 1\r\nX-B: 2\r\nContent-Length: 2\r\n\r\nhi".to_vec()
    );
    assert_eq!(
        read_http_response(&response.client_message(), false, &Limits::default())?,
        Some(response.client_message())
    );
    Ok(())
}

#[test]
fn responses_read_back_as_the_message_that_was_sent() -> Result<(), MzaniError> {
    let limits = Limits::default();
    for raw in [
        b"HTTP/1.1 200 OK\r\nContent-Length: 3\r\n\r\nabcdef".as_slice(),
        b"HTTP/1.1 200 OK\r\nTransfer-Encoding: chunked\r\n\r\n3\r\nabc\r\n0\r\n\r\n",
        b"HTTP/1.1 200 OK\r\nX: 1\r\n\r\nuntil the end",
        b"HTTP/1.1 204 No Content\r\n\r\n",
    ] {
        let Some(message) = read_http_response(raw, true, &limits)? else {
            panic!("expected a whole response");
        };
        assert_eq!(read_http_response(&message, true, &limits)?, Some(message.clone()));
        let framed = read_http_response(raw, false, &limits)?;
        assert_eq!(read_http_response(&message, false, &limits)?, framed);
    }
    Ok(())
}

#[test]
fn heads_are_capped_whatever_their_pieces() {
    let limits = Limits { max_header_bytes: 40, max_body_bytes: 4, max_response_bytes: 4 };
    let head = |n: usize| format!("GET / HTTP/1.1\r\nX: {}\r\n\r\n", "a".repeat(n)).into_bytes();
    let most = head(40 - head(0).len());
    assert_eq!(most.len(), 40);
    let over = head(41 - head(0).len());
    assert_eq!(over.len(), 41);
    for piece in [1, 7, 40, 41, 100] {
        let verdict = |raw: &[u8]| {
            let mut reader = RequestReader::new(limits);
            for chunk in raw.chunks(piece) {
                match reader.feed(chunk) {
                    Ok(None) => {}
                    other => return other.map(|request| request.is_some()),
                }
            }
            Ok(false)
        };
        assert_eq!(verdict(&most), Ok(true));
        assert_eq!(verdict(&over), Err(parse_error("header block exceeds maximum size")));
    }
    let answer = format!("HTTP/1.1 200 OK\r\nX: {}\r\n\r\n", "a".repeat(20)).into_bytes();
    assert_eq!(
        read_http_response(&answer, false, &limits),
        Err(parse_error("header block exceeds maximum size"))
    );
}

#[test]
fn refused_messages_stay_refused() {
    let limits = Limits { max_header_bytes: 64, max_body_bytes: 4, max_response_bytes: 4 };
    for raw in [
        b"GET / HTTP/1.1\r\nContent-Length: 5\r\n\r\n".as_slice(),
        b"GET / HTTP/1.1\r\n\r\n12345",
        b"GET / HTTP/1.1\r\nbroken\r\n\r\n",
        &[b'a'; 65],
    ] {
        let mut longer = raw.to_vec();
        let first = Request::from_stream(raw, &limits).err();
        assert!(first.is_some());
        longer.extend_from_slice(b"\r\n\r\nmore");
        assert_eq!(Request::from_stream(&longer, &limits).err(), first);
    }
    for raw in [
        b"HTTP/1.1 200 OK\r\nContent-Length: 5\r\n\r\n".as_slice(),
        b"HTTP/1.1 200 OK\r\n\r\n12345",
        b"HTTP/1.1 200 OK\r\nTransfer-Encoding: chunked\r\n\r\nq\r\n",
        b"HTTP/1.1 200 OK\r\nTransfer-Encoding: chunked\r\n\r\n2\r\nabcd",
        &[b'a'; 65],
    ] {
        let mut longer = raw.to_vec();
        let first = read_http_response(raw, false, &limits).err();
        assert!(first.is_some());
        longer.extend_from_slice(b"\r\n\r\nmore");
        assert_eq!(read_http_response(&longer, false, &limits).err(), first);
    }
}
