use unix_socket::request::Request;
use unix_socket::response::{decode_response, Action, HttpError, ResponseDecoder};

#[test]
fn no_body_for_204_even_with_length() {
    let input = b"HTTP/1.1 204 No Content\r\nContent-Length: 5\r\nTransfer-Encoding: chunked\r\n\r\nhello";
    let resp = decode_response(input).unwrap();
    assert_eq!(resp.status, 204);
    assert_eq!(resp.body, None);
    assert_eq!(resp.header.get("content-length"), Some(&"5".to_string()));
}

#[test]
fn no_body_for_304() {
    let input = b"HTTP/1.1 304 Not Modified\r\nContent-Length: 3\r\n\r\n";
    let resp = decode_response(input).unwrap();
    assert_eq!(resp.status, 304);
    assert_eq!(resp.body, None);
}

#[test]
fn content_length_body() {
    let input = b"HTTP/1.1 200 OK\r\nContent-Length: 9\r\n\r\ntest body";
    let resp = decode_response(input).unwrap();
    assert_eq!(resp.status, 200);
    assert_eq!(resp.body, Some(b"test body".to_vec()));
}

#[test]
fn content_length_zero_gives_empty_body() {
    let input = b"HTTP/1.1 201 Created\r\nContent-Length: 0\r\n\r\n";
    let resp = decode_response(input).unwrap();
    assert_eq!(resp.status, 201);
    assert_eq!(resp.body, Some(Vec::new()));
}

#[test]
fn chunked_body() {
    let input = b"HTTP/1.1 200 OK\r\nTransfer-Encoding: chunked\r\n\r\n4\r\ntest\r\n5\r\n body\r\n0\r\n\r\n";
    let resp = decode_response(input).unwrap();
    assert_eq!(resp.body, Some(b"test body".to_vec()));
}

#[test]
fn chunked_wins_over_content_length() {
    let input = b"HTTP/1.1 200 OK\r\nContent-Length: 2\r\nTransfer-Encoding: chunked\r\n\r\nA\r\n0123456789\r\n0\r\n\r\n";
    let resp = decode_response(input).unwrap();
    assert_eq!(resp.body, Some(b"0123456789".to_vec()));
}

#[test]
fn chunked_trailer_lines_are_skipped() {
    let input = b"HTTP/1.1 200 OK\r\nTransfer-Encoding: chunked\r\n\r\n2\r\nok\r\n0\r\nExpires: never\r\n\r\n";
    let resp = decode_response(input).unwrap();
    assert_eq!(resp.body, Some(b"ok".to_vec()));
}

#[test]
fn missing_framing_fails() {
    let input = b"HTTP/1.1 200 OK\r\nServer: test\r\n\r\nbody";
    match decode_response(input) {
        Err(HttpError::MissingFraming) => {}
        other => panic!("unexpected: {:?}", other),
    }
}

#[test]
fn bad_chunk_size_names_line() {
    let input = b"HTTP/1.1 200 OK\r\nTransfer-Encoding: chunked\r\n\r\nzz\r\n";
    match decode_response(input) {
        Err(HttpError::InvalidChunkSize(line)) => assert_eq!(line, b"zz\r\n".to_vec()),
        other => panic!("unexpected: {:?}", other),
    }
}

#[test]
fn oversized_chunk_size_fails() {
    let input = b"HTTP/1.1 200 OK\r\nTransfer-Encoding: chunked\r\n\r\n1ffffffffffffffffffff\r\n";
    match decode_response(input) {
        Err(HttpError::InvalidChunkSize(_)) => {}
        other => panic!("unexpected: {:?}", other),
    }
}

#[test]
fn missing_status_fails() {
    match decode_response(b"") {
        Err(HttpError::MissingStatus) => {}
        other => panic!("unexpected: {:?}", other),
    }
}

#[test]
fn non_numeric_status_fails() {
    match decode_response(b"HTTP/1.1 OK\r\n\r\n") {
        Err(HttpError::InvalidStatus(line)) => assert_eq!(line, b"HTTP/1.1 OK\r\n".to_vec()),
        other => panic!("unexpected: {:?}", other),
    }
}

#[test]
fn status_beyond_u32_fails() {
    match decode_response(b"HTTP/1.1 4294967296 Big\r\n\r\n") {
        Err(HttpError::InvalidStatus(_)) => {}
        other => panic!("unexpected: {:?}", other),
    }
}

#[test]
fn header_without_separator_fails() {
    match decode_response(b"HTTP/1.1 200 OK\r\nbroken\r\n\r\n") {
        Err(HttpError::InvalidHeader(line)) => assert_eq!(line, b"broken\r\n".to_vec()),
        other => panic!("unexpected: {:?}", other),
    }
}

#[test]
fn header_not_utf8_fails() {
    match decode_response(b"HTTP/1.1 200 OK\r\nX: \xff\r\n\r\n") {
        Err(HttpError::InvalidEncoding(line)) => assert_eq!(line, b"X: \xff\r\n".to_vec()),
        other => panic!("unexpected: {:?}", other),
    }
}

#[test]
fn bad_content_length_fails() {
    match decode_response(b"HTTP/1.1 200 OK\r\nContent-Length: -1\r\n\r\n") {
        Err(HttpError::InvalidContentLength(v)) => assert_eq!(v, b"-1".to_vec()),
        other => panic!("unexpected: {:?}", other),
    }
}

#[test]
fn unterminated_head_fails() {
    match decode_response(b"HTTP/1.1 200 OK\r\nContent-Length: 1\r\n") {
        Err(HttpError::UnexpectedEof) => {}
        other => panic!("unexpected: {:?}", other),
    }
}

#[test]
fn short_body_fails() {
    match decode_response(b"HTTP/1.1 200 OK\r\nContent-Length: 10\r\n\r\nshort") {
        Err(HttpError::UnexpectedEof) => {}
        other => panic!("unexpected: {:?}", other),
    }
}

#[test]
fn chunked_body_cut_short_fails() {
    match decode_response(b"HTTP/1.1 200 OK\r\nTransfer-Encoding: chunked\r\n\r\n4\r\ntest\r\n") {
        Err(HttpError::UnexpectedEof) => {}
        other => panic!("unexpected: {:?}", other),
    }
}

#[test]
fn header_values_keep_colons_and_utf8() {
    let input = "HTTP/1.1 200 OK\r\nLocation: http://h:80/é\r\nContent-Length: 0\r\n\r\n";
    let resp = decode_response(input.as_bytes()).unwrap();
    assert_eq!(resp.header.get("LOCATION"), Some(&"http://h:80/é".to_string()));
    assert_eq!(resp.header.to_string(), "content-length: 0\r\nlocation: http://h:80/é");
}

#[test]
fn bytes_after_response_are_ignored() {
    let input = b"HTTP/1.1 200 OK\r\nContent-Length: 2\r\n\r\nokHTTP/1.1 500 Next\r\n";
    let resp = decode_response(input).unwrap();
    assert_eq!(resp.body, Some(b"ok".to_vec()));
}

#[test]
fn decoder_steps_by_hand() {
    let mut dec = ResponseDecoder::new();
    assert_eq!(dec.next_action(), Action::ReadLine);
    dec.feed_line(b"HTTP/1.0 200 OK\r\n");
    dec.feed_line(b"Content-Length: 3\r\n");
    dec.feed_line(b"\r\n");
    assert_eq!(dec.next_action(), Action::ReadExact(3));
    dec.feed_bytes(b"abc");
    assert_eq!(dec.next_action(), Action::Finished);
    let resp = dec.finish().unwrap();
    assert_eq!(resp.status, 200);
    assert_eq!(resp.body, Some(b"abc".to_vec()));
}

#[test]
fn round_trip_fixture_exchange() {
    let sent = Request::get("/images/json").build();
    assert_eq!(sent, b"GET /images/json HTTP/1.1\r\nHost: localhost\r\n\r\n".to_vec());
    let reply = b"HTTP/1.1 200 OK\r\nApi-Version: 1.43\r\nContent-Type: application/json\r\nDate: Sun, 18 Oct 2026 10:00:00 GMT\r\nTransfer-Encoding: chunked\r\n\r\n3\r\n[{}\r\n1\r\n]\r\n0\r\n\r\n";
    let resp = decode_response(reply).unwrap();
    assert_eq!(resp.status, 200);
    assert_eq!(resp.header.len(), 4);
    assert_eq!(resp.header.get("api-version"), Some(&"1.43".to_string()));
    assert_eq!(resp.header.get("content-type"), Some(&"application/json".to_string()));
    assert_eq!(resp.header.get("date"), Some(&"Sun, 18 Oct 2026 10:00:00 GMT".to_string()));
    assert_eq!(resp.header.get("transfer-encoding"), Some(&"chunked".to_string()));
    assert_eq!(resp.body, Some(b"[{}]".to_vec()));
}

#[test]
fn status_line_not_utf8_fails() {
    match decode_response(b"HTTP/1.1 200 \xc3\x28\r\n\r\n") {
        Err(HttpError::InvalidEncoding(line)) => assert_eq!(line, b"HTTP/1.1 200 \xc3\x28\r\n".to_vec()),
        other => panic!("unexpected: {:?}", other),
    }
}

#[test]
fn empty_header_value_is_kept() {
    let input = b"HTTP/1.1 200 OK\r\nX-Empty: \r\nContent-Length: 0\r\n\r\n";
    let resp = decode_response(input).unwrap();
    assert_eq!(resp.header.get("x-empty"), Some(&"".to_string()));
    assert_eq!(resp.body, Some(Vec::new()));
}

#[test]
fn header_split_at_first_colon_then_trimmed() {
    let input = b"HTTP/1.1 200 OK\r\nX-A:tight\r\n  X-B :  a: b: c  \r\nX-C:\r\nContent-Length: 0\r\n\r\n";
    let resp = decode_response(input).unwrap();
    assert_eq!(resp.header.get("x-a"), Some(&"tight".to_string()));
    assert_eq!(resp.header.get("x-b"), Some(&"a: b: c".to_string()));
    assert_eq!(resp.header.get("x-c"), Some(&"".to_string()));
}
