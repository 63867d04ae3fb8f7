use webhook_catcher::error::CaptureError;
use webhook_catcher::framing::{Progress, RequestFramer};

const REQUEST: &[u8] = b"POST /hook HTTP/1.1\r\nContent-Length: 7\r\n\r\npayload";

fn frame_in_chunks(bytes: &[u8], size: usize, max_body: usize) -> Progress {
    let mut framer = RequestFramer::new(max_body);
    let mut rest = bytes;
    loop {
        let n = size.min(rest.len()).min(framer.read_len());
        let (chunk, tail) = rest.split_at(n);
        rest = tail;
        match framer.feed(chunk) {
            Progress::NeedMore => continue,
            done => return done,
        }
    }
}

#[test]
fn every_chunking_frames_the_same_request() {
    for size in 1..=REQUEST.len() {
        match frame_in_chunks(REQUEST, size, 100) {
            Progress::Complete(v) => assert_eq!(v, REQUEST.to_vec()),
            other => panic!("chunk size {size}: {other:?}"),
        }
    }
}

#[test]
fn an_oversize_body_is_refused_once_the_head_arrives() {
    let head = b"POST /hook HTTP/1.1\r\nContent-Length: 101\r\n\r\n";
    let mut framer = RequestFramer::new(100);
    match framer.feed(head) {
        Progress::Failed(e) => assert_eq!(e, CaptureError::BodyTooLarge),
        other => panic!("{other:?}"),
    }
}

#[test]
fn asks_for_no_more_than_the_body_lacks() {
    let mut framer = RequestFramer::new(100);
    assert_eq!(framer.read_len(), 4096);
    assert!(matches!(framer.feed(b"POST / HTTP/1.1\r\nContent-Length: 7\r\n\r\npay"), Progress::NeedMore));
    assert_eq!(framer.read_len(), 4);
    match framer.feed(b"") {
        Progress::Failed(e) => assert_eq!(e, CaptureError::BodyEndedEarly),
        other => panic!("{other:?}"),
    }
}

#[test]
fn an_empty_read_before_the_head_ends_is_refused() {
    let mut framer = RequestFramer::new(100);
    match framer.feed(b"") {
        Progress::Failed(e) => assert_eq!(e, CaptureError::MissingHeaderTerminator),
        other => panic!("{other:?}"),
    }
}

struct SlowReader<'a> {
    bytes: &'a [u8],
    step: usize,
}

impl std::io::Read for SlowReader<'_> {
    fn read(&mut self, buffer: &mut [u8]) -> std::io::Result<usize> {
        let n = self.step.min(buffer.len()).min(self.bytes.len());
        buffer[..n].copy_from_slice(&self.bytes[..n]);
        self.bytes = &self.bytes[n..];
        Ok(n)
    }
}

#[test]
fn a_parsed_request_reads_back_whole() {
    let raw = b"POST /hook HTTP/1.1\r\nX-Delivery-ID: abc-1\r\nContent-Length: 7\r\n\r\npayload";
    assert!(webhook_catcher::request::parse_request(raw, 100).is_ok());
    for step in 1..=raw.len() {
        let mut reader = SlowReader { bytes: raw, step };
        let read = webhook_catcher::framing::read_http_request(&mut reader, 100).unwrap();
        assert_eq!(read, raw.to_vec());
    }
}

#[test]
fn a_framed_request_is_refused_only_for_its_head() {
    let raw = b"POST / HTTP/1.1\r\nBad Name: x\r\nContent-Length: 1\r\n\r\nx";
    let read = webhook_catcher::framing::read_http_request(&mut std::io::Cursor::new(raw), 100).unwrap();
    assert_eq!(read, raw.to_vec());
    let error = webhook_catcher::request::parse_request(&read, 100).err().unwrap();
    assert_eq!(error, CaptureError::InvalidHeaderName);
}
