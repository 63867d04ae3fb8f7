//! The reply sent for each request.
use vstd::prelude::*;

verus! {

/// The status line text for a request's outcome: `None` for a refused
/// request, `Some(duplicate)` for a captured one.
pub open spec fn status_text(outcome: Option<bool>) -> Seq<char> {
    match outcome {
        Some(true) => "200 OK"@,
        Some(false) => "201 Created"@,
        None => "400 Bad Request"@,
    }
}

/// The status for a request's outcome: `201 Created` for a new capture,
/// `200 OK` for a duplicate delivery, `400 Bad Request` for a refused request.
pub fn response_status(outcome: Option<bool>) -> (r: &'static str)
    ensures
        r@ == status_text(outcome),
{
    match outcome {
        Some(true) => "200 OK",
        Some(false) => "201 Created",
        None => "400 Bad Request",
    }
}

/// The whole reply for `status`: an empty body and a closed connection.
pub fn response_head(status: &str) -> (r: String)
    ensures
        r@ == "HTTP/1.1 "@ + status@ + "\r\nContent-Length: 0\r\nConnection: close\r\n\r\n"@,
{
    let mut r = String::from_str("HTTP/1.1 ");
    r.append(status);
    r.append("\r\nContent-Length: 0\r\nConnection: close\r\n\r\n");
    r
}

} // verus!
