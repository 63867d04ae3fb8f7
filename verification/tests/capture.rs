use std::io::{self, Cursor, Read};
use webhook_catcher::capture::duplicate_status;
use webhook_catcher::capture::generated_capture_id;
use webhook_catcher::error::{CaptureError, ErrorKind};
use webhook_catcher::framing::read_http_request;
use webhook_catcher::request::parse_request;

#[test]
fn rejects_oversize() {
    let raw = b"POST / HTTP/1.1\r\n\r\n12345";
    assert!(parse_request(raw, 4).is_err());
}

#[test]
fn reads_a_request_body_across_multiple_reads() {
    let raw = b"POST /hook HTTP/1.1\r\nContent-Length: 7\r\n\r\npayload";
    let mut reader = ChunkedReader::new(raw, 3);

    let request = read_http_request(&mut reader, 100).unwrap();

    assert_eq!(request, raw);
}

struct ChunkedReader<'a> {
    inner: Cursor<&'a [u8]>,
    chunk_size: usize,
}

impl<'a> ChunkedReader<'a> {
    fn new(bytes: &'a [u8], chunk_size: usize) -> Self {
        Self {
            inner: Cursor::new(bytes),
            chunk_size,
        }
    }
}

impl Read for ChunkedReader<'_> {
    fn read(&mut self, buffer: &mut [u8]) -> io::Result<usize> {
        let length = buffer.len().min(self.chunk_size);
        self.inner.read(&mut buffer[..length])
    }
}

#[test]
fn rejects_content_length_larger_than_the_body_limit_before_reading_the_body() {
    let raw = b"POST /hook HTTP/1.1\r\nContent-Length: 101\r\n\r\n";
    let error = read_http_request(&mut Cursor::new(raw), 100).unwrap_err();

    assert_eq!(error.kind(), std::io::ErrorKind::InvalidData);
    assert!(error.to_string().contains("body exceeds configured limit"));
}

#[test]
fn rejects_unsupported_chunked_transfer_encoding() {
    let raw = b"POST /hook HTTP/1.1\r\nTransfer-Encoding: chunked\r\n\r\n7\r\npayload\r\n0\r\n\r\n";
    let error = read_http_request(&mut Cursor::new(raw), 100).unwrap_err();

    assert_eq!(error.kind(), std::io::ErrorKind::InvalidData);
    assert!(error.to_string().contains("chunked transfer encoding"));
}

#[test]
fn rejects_mismatched_content_length() {
    let raw = b"POST /hook HTTP/1.1\r\nContent-Length: 8\r\n\r\npayload";

    let error = parse_request(raw, 100).err().unwrap();

    assert_eq!(error.kind(), ErrorKind::InvalidData);
    assert!(error.message().contains("Content-Length"));
}

#[test]
fn requests_without_delivery_ids_are_never_deduplicated() {
    let raw = b"POST /hook HTTP/1.1\r\nContent-Length: 7\r\n\r\npayload";

    let first = parse_request(raw, 100).ok().unwrap();
    let second = parse_request(raw, 100).ok().unwrap();
    assert!(first.delivery_id.is_none());
    assert!(second.delivery_id.is_none());

    let first_id = generated_capture_id(1_700_000_000_000_000_000, 0);
    let second_id = generated_capture_id(1_700_000_000_000_000_000, 1);
    assert!(!duplicate_status(false, false).unwrap());
    assert!(!duplicate_status(false, false).unwrap());
    assert_ne!(first_id, second_id);
}

#[test]
fn refuses_delivery_ids_that_cannot_name_a_file() {
    let raw = b"POST /hook HTTP/1.1\r\nX-Delivery-ID: ../same\r\nContent-Length: 0\r\n\r\n";

    let error = parse_request(raw, 100).err().unwrap();

    assert_eq!(error.kind(), ErrorKind::InvalidData);
    assert!(error.message().contains("invalid delivery ID"));
    assert_eq!(error, CaptureError::InvalidDeliveryId);
}

#[test]
fn refuses_an_incomplete_capture_as_existing() {
    let error = duplicate_status(true, false).unwrap_err();
    assert_eq!(error.kind(), ErrorKind::AlreadyExists);
    assert_eq!(duplicate_status(false, true), Err(CaptureError::IncompleteCapture));
}

#[test]
fn recognizes_a_complete_capture_as_duplicate() {
    assert_eq!(duplicate_status(true, true), Ok(true));
    assert_eq!(duplicate_status(false, false), Ok(false));
}
