//! Parsing a complete request into its method, path, headers, delivery ID
//! and body, with every refusal that a capture makes before it stores
//! anything.
use vstd::prelude::*;
use vstd::utf8::{decode_utf8, valid_utf8};
use crate::error::CaptureError;
use crate::framing::{CONTENT_LENGTH, MAX_HEADER_BYTES, TRANSFER_ENCODING};
use crate::text::{
    bytes_eq, copy_range, find_terminator, is_ascii_alnum, lines, lower, parse_usize,
    parse_usize_exec, split_lines, split_once, split_once_exec, split_tokens, to_lower, tokens,
    trim, trim_range, views, COLON,
};
use crate::unicode::{
    is_valid_utf8, lemma_ascii_valid, lemma_lines_valid, lemma_tokens_valid, lemma_trim_valid,
    lemma_valid_between, utf8_to_string,
};

verus! {

/// The header name `x-delivery-id`.
pub const X_DELIVERY_ID: [u8; 13] = [120, 45, 100, 101, 108, 105, 118, 101, 114, 121, 45, 105, 100];

/// The header name `x-github-delivery`.
pub const X_GITHUB_DELIVERY: [u8; 17] = [
    120, 45, 103, 105, 116, 104, 117, 98, 45, 100, 101, 108, 105, 118, 101, 114, 121,
];

/// The protocol version `HTTP/1.0`.
pub const HTTP_1_0: [u8; 8] = [72, 84, 84, 80, 47, 49, 46, 48];

/// The protocol version `HTTP/1.1`.
pub const HTTP_1_1: [u8; 8] = [72, 84, 84, 80, 47, 49, 46, 49];

/// The longest delivery ID accepted, in bytes.
pub const MAX_DELIVERY_ID_BYTES: usize = 128;

/// A header name: one or more ASCII letters, digits or `-`.
pub open spec fn is_header_name(key: Seq<u8>) -> bool {
    key.len() > 0 && forall|i: int| 0 <= i < key.len() ==> is_ascii_alnum(key[i]) || key[i] == 45
}

/// A header value holds a control byte other than tab.
pub open spec fn has_control_byte(value: Seq<u8>) -> bool {
    exists|i: int| 0 <= i < value.len() && value[i] < 32 && value[i] != 9
}

/// A delivery ID that can name a file: 1 to 128 ASCII letters, digits, `-`
/// or `_`.
pub open spec fn is_delivery_id(id: Seq<u8>) -> bool {
    &&& 0 < id.len() <= MAX_DELIVERY_ID_BYTES
    &&& forall|i: int| 0 <= i < id.len() ==> is_ascii_alnum(id[i]) || id[i] == 45 || id[i] == 95
}

/// The method and path of a request line: exactly three whitespace-separated
/// tokens, the third `HTTP/1.0` or `HTTP/1.1`.
pub open spec fn request_line(line: Seq<u8>) -> Option<(Seq<u8>, Seq<u8>)> {
    let ts = tokens(line);
    if ts.len() == 3 && (ts[2] == HTTP_1_0@ || ts[2] == HTTP_1_1@) {
        Some((ts[0], ts[1]))
    } else {
        None
    }
}

/// What the header lines read so far have gathered.
pub struct HeaderScan {
    /// Each header's lower-cased name and trimmed value, in order.
    pub headers: Seq<(Seq<u8>, Seq<u8>)>,
    pub content_length: Option<nat>,
    pub delivery_id: Option<Seq<u8>>,
}

pub open spec fn empty_scan() -> HeaderScan {
    HeaderScan { headers: seq![], content_length: None, delivery_id: None }
}

/// The `Content-Length` that a header (with lower-cased name `name` and
/// trimmed value `value`) leaves, given the one found before it.
pub open spec fn scan_content_length(found: Option<nat>, name: Seq<u8>, value: Seq<u8>) -> Result<
    Option<nat>,
    CaptureError,
> {
    if name == CONTENT_LENGTH@ {
        if found is Some {
            Err(CaptureError::MultipleContentLength)
        } else {
            match parse_usize(value) {
                None => Err(CaptureError::InvalidContentLength),
                Some(n) => Ok(Some(n)),
            }
        }
    } else {
        Ok(found)
    }
}

/// The delivery ID that a header leaves, given the one found before it.
pub open spec fn scan_delivery_id(found: Option<Seq<u8>>, name: Seq<u8>, value: Seq<u8>) -> Result<
    Option<Seq<u8>>,
    CaptureError,
> {
    if name == X_DELIVERY_ID@ || name == X_GITHUB_DELIVERY@ {
        if found is Some {
            Err(CaptureError::MultipleDeliveryIds)
        } else if !is_delivery_id(value) {
            Err(CaptureError::InvalidDeliveryId)
        } else {
            Ok(Some(value))
        }
    } else {
        Ok(found)
    }
}

/// One header line read on top of `st`.
pub open spec fn scan_line(st: HeaderScan, line: Seq<u8>) -> Result<HeaderScan, CaptureError> {
    match split_once(line, COLON) {
        None => Err(CaptureError::InvalidHeader),
        Some((key, raw)) => {
            if !is_header_name(key) {
                Err(CaptureError::InvalidHeaderName)
            } else {
                let name = lower(key);
                let value = trim(raw);
                if has_control_byte(value) {
                    Err(CaptureError::InvalidHeaderValue)
                } else if name == TRANSFER_ENCODING@ {
                    Err(CaptureError::ChunkedTransferEncoding)
                } else {
                    match scan_content_length(st.content_length, name, value) {
                        Err(e) => Err(e),
                        Ok(cl) => match scan_delivery_id(st.delivery_id, name, value) {
                            Err(e) => Err(e),
                            Ok(d) => Ok(
                                HeaderScan {
                                    headers: st.headers.push((name, value)),
                                    content_length: cl,
                                    delivery_id: d,
                                },
                            ),
                        },
                    }
                }
            }
        },
    }
}

/// The header lines `ls[i..]` read on top of `st`.
pub open spec fn scan_headers(ls: Seq<Seq<u8>>, i: int, st: HeaderScan) -> Result<
    HeaderScan,
    CaptureError,
>
    decreases ls.len() - i,
{
    if i < 0 || i >= ls.len() {
        Ok(st)
    } else {
        match scan_line(st, ls[i]) {
            Err(e) => Err(e),
            Ok(next) => scan_headers(ls, i + 1, next),
        }
    }
}

/// A parsed request, as bytes.
pub struct RequestModel {
    pub method: Seq<u8>,
    pub path: Seq<u8>,
    pub headers: Seq<(Seq<u8>, Seq<u8>)>,
    pub delivery_id: Option<Seq<u8>>,
    pub body: Seq<u8>,
}

/// What parsing `raw` as a request gives: the head ends at the first
/// `\r\n\r\n` and may hold at most 16 KiB; it must be UTF-8 and hold a request
/// line; every other line must be an accepted header; the body, the bytes
/// after the terminator, may hold at most `max_body` bytes and must be exactly
/// as long as `Content-Length` says (0 without one).
pub open spec fn spec_parse_request(raw: Seq<u8>, max_body: nat) -> Result<RequestModel, CaptureError> {
    match find_terminator(raw) {
        None => Err(CaptureError::MissingHeaderTerminator),
        Some(split) => {
            let head = raw.subrange(0, split);
            let ls = lines(head);
            if split > MAX_HEADER_BYTES {
                Err(CaptureError::HeadersTooLarge)
            } else if !valid_utf8(head) {
                Err(CaptureError::HeadersNotUtf8)
            } else if ls.len() == 0 {
                Err(CaptureError::MissingRequestLine)
            } else {
                match request_line(ls[0]) {
                    None => Err(CaptureError::InvalidRequestLine),
                    Some((method, path)) => match scan_headers(ls, 1, empty_scan()) {
                        Err(e) => Err(e),
                        Ok(st) => {
                            let body = raw.subrange(split + 4, raw.len() as int);
                            let expected: nat = match st.content_length {
                                Some(n) => n,
                                None => 0,
                            };
                            if body.len() > max_body {
                                Err(CaptureError::BodyTooLarge)
                            } else if body.len() != expected {
                                Err(CaptureError::BodyLengthMismatch)
                            } else {
                                Ok(
                                    RequestModel {
                                        method,
                                        path,
                                        headers: st.headers,
                                        delivery_id: st.delivery_id,
                                        body,
                                    },
                                )
                            }
                        },
                    },
                }
            }
        },
    }
}

/// Checks that a delivery ID can name a capture file.
pub fn validate_delivery_id(delivery_id: &[u8]) -> (r: Result<(), CaptureError>)
    ensures
        r is Ok <==> is_delivery_id(delivery_id@),
        r is Err ==> r == Err::<(), CaptureError>(CaptureError::InvalidDeliveryId),
{
    if delivery_id.len() == 0 || delivery_id.len() > MAX_DELIVERY_ID_BYTES {
        return Err(CaptureError::InvalidDeliveryId);
    }
    let mut i: usize = 0;
    while i < delivery_id.len()
        invariant
            i <= delivery_id@.len(),
            forall|j: int|
                0 <= j < i ==> is_ascii_alnum(delivery_id@[j]) || delivery_id@[j] == 45
                    || delivery_id@[j] == 95,
        decreases delivery_id@.len() - i,
    {
        let b = delivery_id[i];
        if !((48 <= b && b <= 57) || (65 <= b && b <= 90) || (97 <= b && b <= 122) || b == 45 || b
            == 95) {
            return Err(CaptureError::InvalidDeliveryId);
        }
        i = i + 1;
    }
    Ok(())
}

/// Reads the method and path from a request line.
pub fn parse_request_line(line: &[u8]) -> (r: Option<(Vec<u8>, Vec<u8>)>)
    ensures
        r matches Some(p) ==> request_line(line@) == Some((p.0@, p.1@)),
        r is None ==> request_line(line@) is None,
{
    let ts = split_tokens(line);
    proof {
        assert(views(ts@).len() == ts@.len());
    }
    if ts.len() != 3 {
        return None;
    }
    assert(ts@[2]@ == tokens(line@)[2]);
    let version = ts[2].as_slice();
    if !(bytes_eq(version, HTTP_1_0.as_slice()) || bytes_eq(version, HTTP_1_1.as_slice())) {
        return None;
    }
    assert(ts@[0]@ == tokens(line@)[0]);
    assert(ts@[1]@ == tokens(line@)[1]);
    let method = copy_range(ts[0].as_slice(), 0, ts[0].len());
    let path = copy_range(ts[1].as_slice(), 0, ts[1].len());
    assert(method@ =~= ts@[0]@);
    assert(path@ =~= ts@[1]@);
    Some((method, path))
}

fn is_header_name_exec(key: &[u8]) -> (r: bool)
    ensures
        r == is_header_name(key@),
{
    if key.len() == 0 {
        return false;
    }
    let mut i: usize = 0;
    while i < key.len()
        invariant
            i <= key@.len(),
            forall|j: int| 0 <= j < i ==> is_ascii_alnum(key@[j]) || key@[j] == 45,
        decreases key@.len() - i,
    {
        let b = key[i];
        if !((48 <= b && b <= 57) || (65 <= b && b <= 90) || (97 <= b && b <= 122) || b == 45) {
            return false;
        }
        i = i + 1;
    }
    true
}

fn has_control_byte_exec(value: &[u8]) -> (r: bool)
    ensures
        r == has_control_byte(value@),
{
    let mut i: usize = 0;
    while i < value.len()
        invariant
            i <= value@.len(),
            forall|j: int| 0 <= j < i ==> !(value@[j] < 32 && value@[j] != 9),
        decreases value@.len() - i,
    {
        if value[i] < 32 && value[i] != 9 {
            return true;
        }
        i = i + 1;
    }
    false
}

/// The name and value of an accepted header line of valid UTF-8 are valid
/// UTF-8.
proof fn lemma_header_parts_valid(line: Seq<u8>)
    requires
        valid_utf8(line),
        split_once(line, COLON) matches Some((key, raw)) && is_header_name(key),
    ensures
        split_once(line, COLON) matches Some((key, raw)) && valid_utf8(lower(key)) && valid_utf8(
            trim(raw),
        ),
{
    let (key, raw) = split_once(line, COLON)->0;
    let c = crate::text::find_byte(line, COLON)->0;
    crate::text::lemma_find_byte_from_bounds(line, COLON, 0);
    lemma_valid_between(line, c + 1, line.len() as int);
    lemma_trim_valid(raw);
    let name = lower(key);
    assert forall|k: int| 0 <= k < name.len() implies name[k] < 0x80 by {
        assert(is_ascii_alnum(key[k]) || key[k] == 45);
    }
    lemma_ascii_valid(name);
}

/// The text of each header name and value.
pub open spec fn decoded_headers(hs: Seq<(Seq<u8>, Seq<u8>)>) -> Seq<(Seq<char>, Seq<char>)> {
    hs.map_values(|p: (Seq<u8>, Seq<u8>)| (decode_utf8(p.0), decode_utf8(p.1)))
}

/// The text of each header of a parsed request.
pub open spec fn header_views(hs: Seq<(String, String)>) -> Seq<(Seq<char>, Seq<char>)> {
    hs.map_values(|p: (String, String)| (p.0@, p.1@))
}

/// A parsed request: text fields decoded from the head, and the body bytes.
#[derive(Debug)]
pub struct Request {
    pub method: String,
    pub path: String,
    /// Each header's lower-cased name and trimmed value, in order.
    pub headers: Vec<(String, String)>,
    pub delivery_id: Option<String>,
    pub body: Vec<u8>,
}

impl Request {
    /// This request holds the text of `m`'s fields and `m`'s body.
    pub open spec fn matches_model(&self, m: RequestModel) -> bool {
        &&& self.method@ == decode_utf8(m.method)
        &&& self.path@ == decode_utf8(m.path)
        &&& header_views(self.headers@) == decoded_headers(m.headers)
        &&& match (self.delivery_id, m.delivery_id) {
            (Some(a), Some(b)) => a@ == decode_utf8(b),
            (None, None) => true,
            _ => false,
        }
        &&& self.body@ == m.body
    }
}

/// Parses a complete request, refusing it as a capture would before storing
/// anything.
#[verifier::loop_isolation(false)]
pub fn parse_request(raw: &[u8], max_body: usize) -> (r: Result<Request, CaptureError>)
    ensures
        match spec_parse_request(raw@, max_body as nat) {
            Ok(m) => r matches Ok(req) && req.matches_model(m),
            Err(e) => r == Err::<Request, CaptureError>(e),
        },
{
    let split = match crate::framing::header_end(raw) {
        Ok(h) => h,
        Err(e) => {
            return Err(e);
        },
    };
    proof {
        crate::text::lemma_find_terminator_from_bounds(raw@, 0);
    }
    if split > MAX_HEADER_BYTES {
        return Err(CaptureError::HeadersTooLarge);
    }
    let head = copy_range(raw, 0, split);
    if !is_valid_utf8(head.as_slice()) {
        return Err(CaptureError::HeadersNotUtf8);
    }
    let ls = split_lines(head.as_slice());
    let ghost vs = views(ls@);
    proof {
        lemma_lines_valid(head@);
        assert(vs.len() == ls@.len());
    }
    if ls.len() == 0 {
        return Err(CaptureError::MissingRequestLine);
    }
    assert(ls@[0]@ == vs[0]);
    let (method_bytes, path_bytes) = match parse_request_line(ls[0].as_slice()) {
        None => {
            return Err(CaptureError::InvalidRequestLine);
        },
        Some(p) => p,
    };
    proof {
        lemma_tokens_valid(vs[0]);
        assert(method_bytes@ == tokens(vs[0])[0]);
        assert(path_bytes@ == tokens(vs[0])[1]);
    }
    let method = utf8_to_string(method_bytes.as_slice());
    let path = utf8_to_string(path_bytes.as_slice());
    let mut headers: Vec<(String, String)> = Vec::new();
    let mut content_length: Option<usize> = None;
    let mut delivery: Option<Vec<u8>> = None;
    let mut delivery_text: Option<String> = None;
    let ghost mut st = empty_scan();
    let mut i: usize = 1;
    while i < ls.len()
        invariant
            1 <= i,
            vs == views(ls@),
            vs == lines(head@),
            forall|k: int| 0 <= k < vs.len() ==> valid_utf8(#[trigger] vs[k]),
            scan_headers(vs, 1, empty_scan()) == scan_headers(vs, i as int, st),
            header_views(headers@) == decoded_headers(st.headers),
            st.content_length == match content_length {
                Some(n) => Some(n as nat),
                None => None::<nat>,
            },
            match (delivery, st.delivery_id) {
                (Some(a), Some(b)) => a@ == b,
                (None, None) => true,
                _ => false,
            },
            match (delivery_text, st.delivery_id) {
                (Some(a), Some(b)) => a@ == decode_utf8(b),
                (None, None) => true,
                _ => false,
            },
        decreases ls@.len() - i,
    {
        let line = ls[i].as_slice();
        assert(line@ == vs[i as int]);
        let (key, raw_value) = match split_once_exec(line, COLON) {
            None => {
                return Err(CaptureError::InvalidHeader);
            },
            Some(p) => p,
        };
        if !is_header_name_exec(key.as_slice()) {
            return Err(CaptureError::InvalidHeaderName);
        }
        proof {
            lemma_header_parts_valid(line@);
        }
        let name = to_lower(key.as_slice());
        let (a, b) = trim_range(raw_value.as_slice());
        let value = copy_range(raw_value.as_slice(), a, b);
        if has_control_byte_exec(value.as_slice()) {
            return Err(CaptureError::InvalidHeaderValue);
        }
        if bytes_eq(name.as_slice(), TRANSFER_ENCODING.as_slice()) {
            return Err(CaptureError::ChunkedTransferEncoding);
        }
        if bytes_eq(name.as_slice(), CONTENT_LENGTH.as_slice()) {
            if content_length.is_some() {
                return Err(CaptureError::MultipleContentLength);
            }
            match parse_usize_exec(value.as_slice()) {
                None => {
                    return Err(CaptureError::InvalidContentLength);
                },
                Some(n) => {
                    content_length = Some(n);
                },
            }
        }
        if bytes_eq(name.as_slice(), X_DELIVERY_ID.as_slice()) || bytes_eq(
            name.as_slice(),
            X_GITHUB_DELIVERY.as_slice(),
        ) {
            if delivery.is_some() {
                return Err(CaptureError::MultipleDeliveryIds);
            }
            if validate_delivery_id(value.as_slice()).is_err() {
                return Err(CaptureError::InvalidDeliveryId);
            }
            delivery = Some(copy_range(value.as_slice(), 0, value.len()));
            delivery_text = Some(utf8_to_string(value.as_slice()));
            assert(delivery->0@ =~= value@);
        }
        let name_text = utf8_to_string(name.as_slice());
        let value_text = utf8_to_string(value.as_slice());
        let ghost before = header_views(headers@);
        headers.push((name_text, value_text));
        proof {
            let next = scan_line(st, vs[i as int])->Ok_0;
            assert(header_views(headers@) =~= before.push((name_text@, value_text@)));
            assert(decoded_headers(next.headers) =~= decoded_headers(st.headers).push(
                (decode_utf8(name@), decode_utf8(value@)),
            ));
            st = next;
        }
        i = i + 1;
    }
    let body = copy_range(raw, split + 4, raw.len());
    if body.len() > max_body {
        return Err(CaptureError::BodyTooLarge);
    }
    let expected: usize = match content_length {
        Some(n) => n,
        None => 0,
    };
    if body.len() != expected {
        return Err(CaptureError::BodyLengthMismatch);
    }
    Ok(Request { method, path, headers, delivery_id: delivery_text, body })
}

} // verus!
