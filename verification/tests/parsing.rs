use std::io::Cursor;
use webhook_catcher::capture::{body_sha256, build_capture, generated_capture_id, hex};
use webhook_catcher::error::{CaptureError, ErrorKind};
use webhook_catcher::framing::{header_end, parse_content_length, read_http_request};
use webhook_catcher::request::{parse_request, parse_request_line, validate_delivery_id};
use webhook_catcher::response::{response_head, response_status};

fn refusal(raw: &[u8], max_body: usize) -> CaptureError {
    parse_request(raw, max_body).err().unwrap()
}

#[test]
fn parses_method_path_headers_and_body() {
    let raw = b"POST /hook?x=1 HTTP/1.1\r\nX-GitHub-Delivery: abc_9\r\nContent-Type:  application/json \r\nContent-Length: 7\r\n\r\npayload";
    let request = parse_request(raw, 100).ok().unwrap();
    assert_eq!(request.method, "POST");
    assert_eq!(request.path, "/hook?x=1");
    assert_eq!(request.delivery_id, Some("abc_9".to_string()));
    assert_eq!(request.body, b"payload".to_vec());
    assert_eq!(
        request.headers,
        vec![
            ("x-github-delivery".to_string(), "abc_9".to_string()),
            ("content-type".to_string(), "application/json".to_string()),
            ("content-length".to_string(), "7".to_string()),
        ]
    );
}

#[test]
fn accepts_http_1_0_and_an_absent_content_length() {
    let request = parse_request(b"GET / HTTP/1.0\r\nHost: x\r\n\r\n", 0).ok().unwrap();
    assert_eq!(request.method, "GET");
    assert!(request.body.is_empty());
}

#[test]
fn trims_unicode_whitespace_from_header_values() {
    let raw = "PUT /a HTTP/1.1\r\nNote:\u{a0}\u{3000} caf\u{e9} \u{2009}\r\n\r\n".as_bytes();
    let request = parse_request(raw, 0).ok().unwrap();
    assert_eq!(request.headers, vec![("note".to_string(), "caf\u{e9}".to_string())]);
}

#[test]
fn content_length_may_carry_a_plus_sign_and_spaces() {
    let raw = b"POST / HTTP/1.1\r\nContent-Length:  +3 \r\n\r\nabc";
    assert_eq!(parse_request(raw, 10).ok().unwrap().body, b"abc".to_vec());
    assert_eq!(parse_content_length(b"POST / HTTP/1.1\r\ncontent-LENGTH: 42"), Ok(42));
    assert_eq!(parse_content_length(b"POST / HTTP/1.1\r\nHost: a"), Ok(0));
}

#[test]
fn refuses_each_malformed_head() {
    assert_eq!(refusal(b"POST / HTTP/1.1\r\n", 10), CaptureError::MissingHeaderTerminator);
    assert_eq!(refusal(b"POST / HTTP/1.1\r\nX: \xff\r\n\r\n", 10), CaptureError::HeadersNotUtf8);
    assert_eq!(refusal(b"\r\n\r\n", 10), CaptureError::MissingRequestLine);
    assert_eq!(refusal(b"POST /\r\n\r\n", 10), CaptureError::InvalidRequestLine);
    assert_eq!(refusal(b"POST / HTTP/2.0\r\n\r\n", 10), CaptureError::InvalidRequestLine);
    assert_eq!(refusal(b"POST / HTTP/1.1 extra\r\n\r\n", 10), CaptureError::InvalidRequestLine);
    assert_eq!(refusal(b"POST / HTTP/1.1\r\nNoColon\r\n\r\n", 10), CaptureError::InvalidHeader);
    assert_eq!(refusal(b"POST / HTTP/1.1\r\nBad Name: v\r\n\r\n", 10), CaptureError::InvalidHeaderName);
    assert_eq!(refusal(b"POST / HTTP/1.1\r\n: v\r\n\r\n", 10), CaptureError::InvalidHeaderName);
    assert_eq!(refusal(b"POST / HTTP/1.1\r\nX: a\x01b\r\n\r\n", 10), CaptureError::InvalidHeaderValue);
    assert_eq!(
        refusal(b"POST / HTTP/1.1\r\ntransfer-encoding: chunked\r\n\r\n", 10),
        CaptureError::ChunkedTransferEncoding
    );
    assert_eq!(
        refusal(b"POST / HTTP/1.1\r\nContent-Length: 1\r\nContent-Length: 1\r\n\r\nx", 10),
        CaptureError::MultipleContentLength
    );
    assert_eq!(refusal(b"POST / HTTP/1.1\r\nContent-Length: -1\r\n\r\n", 10), CaptureError::InvalidContentLength);
    assert_eq!(refusal(b"POST / HTTP/1.1\r\nContent-Length: +\r\n\r\n", 10), CaptureError::InvalidContentLength);
    assert_eq!(
        refusal(b"POST / HTTP/1.1\r\nContent-Length: 99999999999999999999999\r\n\r\n", 10),
        CaptureError::InvalidContentLength
    );
    assert_eq!(
        refusal(b"POST / HTTP/1.1\r\nX-Delivery-ID: a\r\nX-GitHub-Delivery: b\r\n\r\n", 10),
        CaptureError::MultipleDeliveryIds
    );
    assert_eq!(refusal(b"POST / HTTP/1.1\r\n\r\n12345", 4), CaptureError::BodyTooLarge);
    assert_eq!(refusal(b"POST / HTTP/1.1\r\nContent-Length: 2\r\n\r\nabc", 10), CaptureError::BodyLengthMismatch);
}

#[test]
fn refuses_a_head_over_sixteen_kib() {
    let mut raw = b"POST / HTTP/1.1\r\nX: ".to_vec();
    raw.extend(std::iter::repeat(b'a').take(16 * 1024));
    raw.extend_from_slice(b"\r\n\r\n");
    assert_eq!(refusal(&raw, 10), CaptureError::HeadersTooLarge);
}

#[test]
fn validates_delivery_ids() {
    assert!(validate_delivery_id(b"abc-DEF_123").is_ok());
    assert_eq!(validate_delivery_id(b""), Err(CaptureError::InvalidDeliveryId));
    assert_eq!(validate_delivery_id(b"a.b"), Err(CaptureError::InvalidDeliveryId));
    assert_eq!(validate_delivery_id(b"a/b"), Err(CaptureError::InvalidDeliveryId));
    assert!(validate_delivery_id(&[b'a'; 128]).is_ok());
    assert_eq!(validate_delivery_id(&[b'a'; 129]), Err(CaptureError::InvalidDeliveryId));
}

#[test]
fn finds_the_header_end() {
    assert_eq!(header_end(b"A\r\n\r\nB\r\n\r\n"), Ok(1));
    assert_eq!(header_end(b"A\r\n\r"), Err(CaptureError::MissingHeaderTerminator));
}

#[test]
fn splits_request_lines_on_ascii_whitespace() {
    let (method, path) = parse_request_line(b" GET \t /x  HTTP/1.1 ").unwrap();
    assert_eq!(method, b"GET".to_vec());
    assert_eq!(path, b"/x".to_vec());
    assert!(parse_request_line(b"GET /x").is_none());
}

#[test]
fn writes_lower_case_hex() {
    assert_eq!(hex(&[0x00, 0xab, 0xff, 0x10]), "00abff10");
    assert_eq!(hex(&[]), "");
}

#[test]
fn digests_the_body_with_sha256() {
    assert_eq!(body_sha256(b"payload"), "239f59ed55e737c77147cf55ad0c1b030b6d7ee748a7426952f9b852d5a935e5");
    assert_eq!(body_sha256(b""), "e3b0c44298fc1c149afbf4c8996fb92427ae41e4649b934ca495991b7852b855");
}

#[test]
fn builds_a_capture_record() {
    let raw = b"POST /hook HTTP/1.1\r\nX-Delivery-ID: abc-1\r\nContent-Length: 7\r\n\r\npayload";
    let request = parse_request(raw, 100).ok().unwrap();
    let capture = build_capture(request, "abc-1".to_string(), false);
    assert_eq!(capture.delivery_id, "abc-1");
    assert_eq!(capture.method, "POST");
    assert_eq!(capture.path, "/hook");
    assert_eq!(capture.body_bytes, 7);
    assert!(!capture.duplicate);
    assert_eq!(capture.body_sha256, "239f59ed55e737c77147cf55ad0c1b030b6d7ee748a7426952f9b852d5a935e5");
}

#[test]
fn generates_capture_ids() {
    assert_eq!(generated_capture_id(0, 0), "capture-0-0");
    assert_eq!(generated_capture_id(1234567890, 42), "capture-1234567890-42");
    assert_eq!(
        generated_capture_id(u128::MAX, u64::MAX),
        format!("capture-{}-{}", u128::MAX, u64::MAX)
    );
}

#[test]
fn generated_ids_are_valid_delivery_ids() {
    let id = generated_capture_id(u128::MAX, u64::MAX);
    assert!(validate_delivery_id(id.as_bytes()).is_ok());
}

#[test]
fn answers_each_outcome() {
    assert_eq!(response_status(Some(false)), "201 Created");
    assert_eq!(response_status(Some(true)), "200 OK");
    assert_eq!(response_status(None), "400 Bad Request");
    assert_eq!(
        response_head("201 Created"),
        "HTTP/1.1 201 Created\r\nContent-Length: 0\r\nConnection: close\r\n\r\n"
    );
}

#[test]
fn error_messages_and_kinds() {
    assert_eq!(CaptureError::BodyEndedEarly.message(), "request body ended before Content-Length");
    assert_eq!(CaptureError::NotRegularFile.message(), "capture path is not a regular file");
    assert_eq!(CaptureError::NotRegularFile.kind(), ErrorKind::InvalidData);
    assert_eq!(CaptureError::IncompleteCapture.kind(), ErrorKind::AlreadyExists);
}

#[test]
fn reading_drops_bytes_past_the_request() {
    let raw = b"POST / HTTP/1.1\r\nContent-Length: 2\r\n\r\nabEXTRA";
    let request = read_http_request(&mut Cursor::new(raw), 100).unwrap();
    assert_eq!(request, b"POST / HTTP/1.1\r\nContent-Length: 2\r\n\r\nab".to_vec());
}

#[test]
fn reading_reports_a_short_body() {
    let raw = b"POST / HTTP/1.1\r\nContent-Length: 5\r\n\r\nab";
    let error = read_http_request(&mut Cursor::new(raw), 100).unwrap_err();
    assert_eq!(error.kind(), std::io::ErrorKind::InvalidData);
    assert!(error.to_string().contains("request body ended before Content-Length"));
}

#[test]
fn reading_reports_a_missing_terminator() {
    let error = read_http_request(&mut Cursor::new(b"POST / HTTP/1.1\r\n"), 100).unwrap_err();
    assert!(error.to_string().contains("missing HTTP header terminator"));
}

#[test]
fn reading_refuses_a_head_that_never_ends() {
    let raw = vec![b'a'; 40_000];
    let error = read_http_request(&mut Cursor::new(raw), 100).unwrap_err();
    assert!(error.to_string().contains("headers exceed configured limit"));
}
