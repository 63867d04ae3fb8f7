//! The reasons for which a request is refused or a capture cannot be made.
use vstd::prelude::*;

verus! {

/// The I/O error category that a refusal is reported under.
#[derive(Debug, Clone, Copy, PartialEq, Eq, Structural)]
pub enum ErrorKind {
    InvalidData,
    AlreadyExists,
}

/// Every way in which reading, parsing or storing a request can fail.
#[derive(Debug, Clone, Copy, PartialEq, Eq, Structural)]
pub enum CaptureError {
    MissingHeaderTerminator,
    HeadersTooLarge,
    HeadersNotUtf8,
    MissingRequestLine,
    InvalidRequestLine,
    InvalidHeader,
    InvalidHeaderName,
    InvalidHeaderValue,
    ChunkedTransferEncoding,
    MultipleContentLength,
    InvalidContentLength,
    MultipleDeliveryIds,
    InvalidDeliveryId,
    BodyTooLarge,
    BodyLengthMismatch,
    BodyEndedEarly,
    IncompleteCapture,
    NotRegularFile,
}

/// The message that each refusal is reported with.
pub open spec fn message_of(e: CaptureError) -> Seq<char> {
    match e {
        CaptureError::MissingHeaderTerminator => "missing HTTP header terminator"@,
        CaptureError::HeadersTooLarge => "headers exceed configured limit"@,
        CaptureError::HeadersNotUtf8 => "headers are not UTF-8"@,
        CaptureError::MissingRequestLine => "missing request line"@,
        CaptureError::InvalidRequestLine => "invalid request line"@,
        CaptureError::InvalidHeader => "invalid HTTP header"@,
        CaptureError::InvalidHeaderName => "invalid HTTP header name"@,
        CaptureError::InvalidHeaderValue => "invalid HTTP header value"@,
        CaptureError::ChunkedTransferEncoding => "chunked transfer encoding is not supported"@,
        CaptureError::MultipleContentLength => "multiple Content-Length headers are not supported"@,
        CaptureError::InvalidContentLength => "invalid Content-Length"@,
        CaptureError::MultipleDeliveryIds => "multiple delivery IDs are not supported"@,
        CaptureError::InvalidDeliveryId => "invalid delivery ID"@,
        CaptureError::BodyTooLarge => "body exceeds configured limit"@,
        CaptureError::BodyLengthMismatch => "request body does not match Content-Length"@,
        CaptureError::BodyEndedEarly => "request body ended before Content-Length"@,
        CaptureError::IncompleteCapture => "incomplete capture already exists"@,
        CaptureError::NotRegularFile => "capture path is not a regular file"@,
    }
}

/// The category of each refusal: a partial capture on disk is reported as
/// an existing file, everything else as invalid data.
pub open spec fn kind_of(e: CaptureError) -> ErrorKind {
    match e {
        CaptureError::IncompleteCapture => ErrorKind::AlreadyExists,
        _ => ErrorKind::InvalidData,
    }
}

impl CaptureError {
    /// The human-readable message of this refusal.
    pub fn message(&self) -> (r: &'static str)
        ensures
            r@ == message_of(*self),
    {
        match self {
            CaptureError::MissingHeaderTerminator => "missing HTTP header terminator",
            CaptureError::HeadersTooLarge => "headers exceed configured limit",
            CaptureError::HeadersNotUtf8 => "headers are not UTF-8",
            CaptureError::MissingRequestLine => "missing request line",
            CaptureError::InvalidRequestLine => "invalid request line",
            CaptureError::InvalidHeader => "invalid HTTP header",
            CaptureError::InvalidHeaderName => "invalid HTTP header name",
            CaptureError::InvalidHeaderValue => "invalid HTTP header value",
            CaptureError::ChunkedTransferEncoding => "chunked transfer encoding is not supported",
            CaptureError::MultipleContentLength => "multiple Content-Length headers are not supported",
            CaptureError::InvalidContentLength => "invalid Content-Length",
            CaptureError::MultipleDeliveryIds => "multiple delivery IDs are not supported",
            CaptureError::InvalidDeliveryId => "invalid delivery ID",
            CaptureError::BodyTooLarge => "body exceeds configured limit",
            CaptureError::BodyLengthMismatch => "request body does not match Content-Length",
            CaptureError::BodyEndedEarly => "request body ended before Content-Length",
            CaptureError::IncompleteCapture => "incomplete capture already exists",
            CaptureError::NotRegularFile => "capture path is not a regular file",
        }
    }

    /// The I/O error category of this refusal.
    pub fn kind(&self) -> (r: ErrorKind)
        ensures
            r == kind_of(*self),
    {
        match self {
            CaptureError::IncompleteCapture => ErrorKind::AlreadyExists,
            _ => ErrorKind::InvalidData,
        }
    }
}

} // verus!
