//! Verified core of a local webhook capture tool.
pub mod capture;
pub mod error;
pub mod framing;
pub mod laws;
pub mod request;
pub mod response;
pub mod text;
pub mod unicode;
