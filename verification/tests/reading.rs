use std::io::{self, Read};
use webhook_catcher::capture::IdSequence;
use webhook_catcher::error::CaptureError;
use webhook_catcher::framing::{read_http_request, read_request, ReadFailure};
use webhook_catcher::request::parse_request;

struct StepReader<'a> {
    bytes: &'a [u8],
    step: usize,
    calls: usize,
}

impl Read for StepReader<'_> {
    fn read(&mut self, buffer: &mut [u8]) -> io::Result<usize> {
        self.calls += 1;
        let n = self.step.min(buffer.len()).min(self.bytes.len());
        buffer[..n].copy_from_slice(&self.bytes[..n]);
        self.bytes = &self.bytes[n..];
        Ok(n)
    }
}

struct FailingReader;

impl Read for FailingReader {
    fn read(&mut self, _buffer: &mut [u8]) -> io::Result<usize> {
        Err(io::Error::new(io::ErrorKind::Interrupted, "reader gave up"))
    }
}

struct OverReportingReader;

impl Read for OverReportingReader {
    fn read(&mut self, buffer: &mut [u8]) -> io::Result<usize> {
        for b in buffer.iter_mut() {
            *b = b'x';
        }
        Ok(buffer.len() + 10)
    }
}

fn refusal_for_every_cut(bytes: &[u8], max_body: usize) -> CaptureError {
    let mut seen = None;
    for step in 1..=bytes.len() {
        let mut reader = StepReader { bytes, step, calls: 0 };
        match read_request(&mut reader, max_body) {
            Err(ReadFailure::Refused(e)) => {
                if let Some(first) = seen {
                    assert_eq!(first, e, "step {step}");
                }
                seen = Some(e);
            }
            other => panic!("step {step}: {other:?}"),
        }
    }
    seen.unwrap()
}

#[test]
fn refusals_do_not_depend_on_how_reads_are_cut() {
    assert_eq!(
        refusal_for_every_cut(b"POST / HTTP/1.1\r\nTransfer-Encoding: chunked\r\n\r\n0\r\n\r\n", 100),
        CaptureError::ChunkedTransferEncoding
    );
    assert_eq!(
        refusal_for_every_cut(b"POST / HTTP/1.1\r\nContent-Length: 9\r\n\r\nshort", 100),
        CaptureError::BodyEndedEarly
    );
    assert_eq!(refusal_for_every_cut(b"POST / HTTP/1.1\r\nHost: a\r\n", 100), CaptureError::MissingHeaderTerminator);
}

#[test]
fn a_reader_error_is_passed_on_and_ends_reading() {
    match read_request(&mut FailingReader, 100) {
        Err(ReadFailure::Reader(e)) => {
            assert_eq!(e.kind(), io::ErrorKind::Interrupted);
            assert_eq!(e.to_string(), "reader gave up");
        }
        other => panic!("{other:?}"),
    }
    let error = read_http_request(&mut FailingReader, 100).unwrap_err();
    assert_eq!(error.kind(), io::ErrorKind::Interrupted);
}

#[test]
fn an_over_reported_count_is_taken_as_the_whole_buffer() {
    match read_request(&mut OverReportingReader, 100) {
        Err(ReadFailure::Refused(e)) => assert_eq!(e, CaptureError::HeadersTooLarge),
        other => panic!("{other:?}"),
    }
}

#[test]
fn reading_calls_the_reader_a_bounded_number_of_times() {
    let bytes = vec![b'a'; 100_000];
    let mut reader = StepReader { bytes: &bytes, step: 1, calls: 0 };
    assert!(read_request(&mut reader, 10).is_err());
    assert!(reader.calls <= 16389 + 10);
}

#[test]
fn a_capture_is_stored_under_its_delivery_id_or_a_generated_one() {
    let mut ids = IdSequence::new();
    let with_id = parse_request(b"POST / HTTP/1.1\r\nX-Delivery-ID: abc-1\r\n\r\n", 0).ok().unwrap();
    assert_eq!(ids.capture_id(&with_id, 5), "abc-1");
    let without = parse_request(b"POST / HTTP/1.1\r\n\r\n", 0).ok().unwrap();
    assert_eq!(ids.capture_id(&without, 5), "capture-5-0");
    assert_eq!(ids.capture_id(&with_id, 5), "abc-1");
    assert_eq!(ids.capture_id(&without, 5), "capture-5-1");
}

struct RecordingReader<'a> {
    bytes: &'a [u8],
    asked: Vec<usize>,
}

impl Read for RecordingReader<'_> {
    fn read(&mut self, buffer: &mut [u8]) -> io::Result<usize> {
        self.asked.push(buffer.len());
        let n = 5.min(buffer.len()).min(self.bytes.len());
        buffer[..n].copy_from_slice(&self.bytes[..n]);
        self.bytes = &self.bytes[n..];
        Ok(n)
    }
}

#[test]
fn asks_4096_for_the_head_then_only_what_the_body_lacks() {
    let raw = b"POST / HTTP/1.1\r\nContent-Length: 7\r\n\r\npayloadEXTRA";
    let mut reader = RecordingReader { bytes: raw, asked: Vec::new() };
    let request = read_http_request(&mut reader, 100).unwrap();
    assert_eq!(request.len(), raw.len() - 5);
    assert_eq!(reader.asked[..8].to_vec(), vec![4096; 8]);
    assert_eq!(reader.asked[8..].to_vec(), vec![5]);
}
