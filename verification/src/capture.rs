//! What a capture records of a request, and the decisions a capture makes
//! around the files it stores.
use vstd::prelude::*;
use vstd::utf8::decode_utf8;
use crate::error::CaptureError;
use crate::request::Request;
use crate::text::{all_digits, digits_value, is_digit};
use crate::unicode::{lemma_ascii_valid, utf8_to_string};

verus! {

/// The SHA-256 digest of `data`.
pub uninterp spec fn sha256(data: Seq<u8>) -> Seq<u8>;

/// `<sha2::Sha256 as sha2::Digest>::digest`: the digest of `data`, which is
/// 32 bytes long (the output size of SHA-256).
#[verifier::external_body]
fn sha256_digest(data: &[u8]) -> (r: Vec<u8>)
    ensures
        r@ == sha256(data@),
        r@.len() == 32,
{
    <sha2::Sha256 as sha2::Digest>::digest(data).to_vec()
}

/// The lower-case hexadecimal digit for `n` (below 16).
pub open spec fn hex_digit(n: u8) -> u8 {
    if n < 10 {
        (48 + n) as u8
    } else {
        (87 + n) as u8
    }
}

/// Two lower-case hexadecimal digits for each byte of `data`, high nibble
/// first.
pub open spec fn hex_bytes(data: Seq<u8>) -> Seq<u8>
    decreases data.len(),
{
    if data.len() == 0 {
        seq![]
    } else {
        hex_bytes(data.drop_last()) + seq![hex_digit(data.last() / 16), hex_digit(data.last() % 16)]
    }
}

pub proof fn lemma_hex_bytes_ascii(data: Seq<u8>)
    ensures
        hex_bytes(data).len() == 2 * data.len(),
        forall|k: int| 0 <= k < hex_bytes(data).len() ==> #[trigger] hex_bytes(data)[k] < 0x80,
    decreases data.len(),
{
    if data.len() > 0 {
        lemma_hex_bytes_ascii(data.drop_last());
    }
}

/// `data` written as lower-case hexadecimal, two digits per byte.
pub fn hex(data: &[u8]) -> (r: String)
    ensures
        r@ == decode_utf8(hex_bytes(data@)),
        r@.len() == 2 * data@.len(),
{
    let mut out: Vec<u8> = Vec::new();
    let mut i: usize = 0;
    while i < data.len()
        invariant
            i <= data@.len(),
            out@ == hex_bytes(data@.subrange(0, i as int)),
        decreases data@.len() - i,
    {
        let b = data[i];
        let hi = b / 16;
        let lo = b % 16;
        let h = if hi < 10 {
            48 + hi
        } else {
            87 + hi
        };
        let l = if lo < 10 {
            48 + lo
        } else {
            87 + lo
        };
        out.push(h);
        out.push(l);
        assert(data@.subrange(0, i + 1).drop_last() =~= data@.subrange(0, i as int));
        i = i + 1;
        assert(out@ =~= hex_bytes(data@.subrange(0, i as int)));
    }
    assert(data@.subrange(0, data@.len() as int) =~= data@);
    proof {
        lemma_hex_bytes_ascii(data@);
        lemma_ascii_valid(out@);
        crate::unicode::lemma_ascii_decode(out@);
    }
    utf8_to_string(out.as_slice())
}

/// The SHA-256 digest of `body`, in lower-case hexadecimal.
pub fn body_sha256(body: &[u8]) -> (r: String)
    ensures
        r@ == decode_utf8(hex_bytes(sha256(body@))),
        r@.len() == 64,
{
    let digest = sha256_digest(body);
    hex(digest.as_slice())
}

/// The metadata that a capture records of one delivery.
#[derive(Debug)]
pub struct Capture {
    pub delivery_id: String,
    pub method: String,
    pub path: String,
    pub headers: Vec<(String, String)>,
    pub body_sha256: String,
    pub body_bytes: usize,
    pub duplicate: bool,
}

/// The record of `request`, stored under `delivery_id`, with the body's
/// SHA-256 digest and length.
pub fn build_capture(request: Request, delivery_id: String, duplicate: bool) -> (c: Capture)
    ensures
        c.delivery_id@ == delivery_id@,
        c.method@ == request.method@,
        c.path@ == request.path@,
        c.headers@ == request.headers@,
        c.body_sha256@ == decode_utf8(hex_bytes(sha256(request.body@))),
        c.body_bytes == request.body@.len(),
        c.duplicate == duplicate,
{
    let digest = body_sha256(request.body.as_slice());
    let body_bytes = request.body.len();
    Capture {
        delivery_id,
        method: request.method,
        path: request.path,
        headers: request.headers,
        body_sha256: digest,
        body_bytes,
        duplicate,
    }
}

/// Decides from which of a delivery's two files exist whether it is a
/// duplicate: both exist, a duplicate; neither, a new capture; one without
/// the other, an incomplete capture that is refused.
pub fn duplicate_status(metadata_exists: bool, body_exists: bool) -> (r: Result<bool, CaptureError>)
    ensures
        r == (if metadata_exists && body_exists {
            Ok::<bool, CaptureError>(true)
        } else if !metadata_exists && !body_exists {
            Ok(false)
        } else {
            Err(CaptureError::IncompleteCapture)
        }),
{
    if metadata_exists && body_exists {
        Ok(true)
    } else if !metadata_exists && !body_exists {
        Ok(false)
    } else {
        Err(CaptureError::IncompleteCapture)
    }
}

/// Where storing a capture stands: which outside step it waits on.
#[derive(Debug, Clone, Copy, PartialEq, Eq, Structural)]
pub enum StoreState {
    AwaitDirectory,
    AwaitExistence,
    AwaitRegularFiles,
    AwaitBody,
    AwaitMetadata,
    Finished,
}

/// What the outside step reported.
#[derive(Debug, Clone, Copy, PartialEq, Eq, Structural)]
pub enum StoreEvent {
    /// The capture directory exists.
    DirectoryReady,
    /// Which of the delivery's two files exist.
    Existence { metadata: bool, body: bool },
    /// Both existing files are regular files.
    RegularFilesConfirmed,
    /// The body file was written.
    BodyStored,
    /// The metadata file was written.
    MetadataStored,
    /// Writing the metadata file failed.
    MetadataFailed,
}

/// The outside step to take next.
#[derive(Debug, Clone, Copy, PartialEq, Eq, Structural)]
pub enum StoreAction {
    /// Create the capture directory if it is missing.
    CreateDirectory,
    /// Find out which of the delivery's two files exist.
    CheckExisting,
    /// Confirm that both existing files are regular files.
    ConfirmRegularFiles,
    /// Write the body file, after serializing the metadata.
    WriteBody,
    /// Write the metadata file.
    WriteMetadata,
    /// Remove the body file written before, then report the failure.
    RemoveBody,
    /// The capture is complete; `duplicate` tells whether it was stored before.
    Finish { duplicate: bool },
    /// The capture is refused.
    Refuse(CaptureError),
    /// The event does not fit the state: stop.
    Abort,
}

/// How storing a capture proceeds: create the directory, check for the two
/// files; a complete pair is a duplicate whose files are only confirmed to be
/// regular; no files means writing the body and then the metadata, removing
/// the body if the metadata cannot be written; a partial pair is refused.
pub open spec fn store_transition(state: StoreState, event: StoreEvent) -> (StoreState, StoreAction) {
    match (state, event) {
        (StoreState::AwaitDirectory, StoreEvent::DirectoryReady) => (
            StoreState::AwaitExistence,
            StoreAction::CheckExisting,
        ),
        (StoreState::AwaitExistence, StoreEvent::Existence { metadata, body }) => {
            if metadata && body {
                (StoreState::AwaitRegularFiles, StoreAction::ConfirmRegularFiles)
            } else if !metadata && !body {
                (StoreState::AwaitBody, StoreAction::WriteBody)
            } else {
                (StoreState::Finished, StoreAction::Refuse(CaptureError::IncompleteCapture))
            }
        },
        (StoreState::AwaitRegularFiles, StoreEvent::RegularFilesConfirmed) => (
            StoreState::Finished,
            StoreAction::Finish { duplicate: true },
        ),
        (StoreState::AwaitBody, StoreEvent::BodyStored) => (
            StoreState::AwaitMetadata,
            StoreAction::WriteMetadata,
        ),
        (StoreState::AwaitMetadata, StoreEvent::MetadataStored) => (
            StoreState::Finished,
            StoreAction::Finish { duplicate: false },
        ),
        (StoreState::AwaitMetadata, StoreEvent::MetadataFailed) => (
            StoreState::Finished,
            StoreAction::RemoveBody,
        ),
        _ => (StoreState::Finished, StoreAction::Abort),
    }
}

/// The first step of storing a capture.
pub fn store_start() -> (r: (StoreState, StoreAction))
    ensures
        r == (StoreState::AwaitDirectory, StoreAction::CreateDirectory),
{
    (StoreState::AwaitDirectory, StoreAction::CreateDirectory)
}

/// The next state and step of storing a capture, after `event`.
pub fn store_step(state: StoreState, event: StoreEvent) -> (r: (StoreState, StoreAction))
    ensures
        r == store_transition(state, event),
{
    match (state, event) {
        (StoreState::AwaitDirectory, StoreEvent::DirectoryReady) => (
            StoreState::AwaitExistence,
            StoreAction::CheckExisting,
        ),
        (StoreState::AwaitExistence, StoreEvent::Existence { metadata, body }) => {
            match duplicate_status(metadata, body) {
                Ok(true) => (StoreState::AwaitRegularFiles, StoreAction::ConfirmRegularFiles),
                Ok(false) => (StoreState::AwaitBody, StoreAction::WriteBody),
                Err(e) => (StoreState::Finished, StoreAction::Refuse(e)),
            }
        },
        (StoreState::AwaitRegularFiles, StoreEvent::RegularFilesConfirmed) => (
            StoreState::Finished,
            StoreAction::Finish { duplicate: true },
        ),
        (StoreState::AwaitBody, StoreEvent::BodyStored) => (
            StoreState::AwaitMetadata,
            StoreAction::WriteMetadata,
        ),
        (StoreState::AwaitMetadata, StoreEvent::MetadataStored) => (
            StoreState::Finished,
            StoreAction::Finish { duplicate: false },
        ),
        (StoreState::AwaitMetadata, StoreEvent::MetadataFailed) => (
            StoreState::Finished,
            StoreAction::RemoveBody,
        ),
        _ => (StoreState::Finished, StoreAction::Abort),
    }
}

/// The prefix `capture-` of the IDs generated for requests without one.
pub const CAPTURE_PREFIX: [u8; 8] = [99, 97, 112, 116, 117, 114, 101, 45];

/// The decimal digits of `n`, without leading zeros, as `format!("{n}")`
/// writes them.
pub open spec fn decimal_bytes(n: nat) -> Seq<u8>
    decreases n,
{
    if n < 10 {
        seq![(48 + n) as u8]
    } else {
        decimal_bytes(n / 10) + seq![(48 + n % 10) as u8]
    }
}

/// The ID generated for a request without a delivery ID, as
/// `format!("capture-{timestamp}-{sequence}")` writes it.
pub open spec fn capture_id_bytes(timestamp: nat, sequence: nat) -> Seq<u8> {
    CAPTURE_PREFIX@ + decimal_bytes(timestamp) + seq![45u8] + decimal_bytes(sequence)
}

fn push_decimal(out: &mut Vec<u8>, n: u128)
    ensures
        final(out)@ == old(out)@ + decimal_bytes(n as nat),
    decreases n,
{
    if n >= 10 {
        push_decimal(out, n / 10);
    }
    let d = (48 + n % 10) as u8;
    out.push(d);
    assert(out@ =~= old(out)@ + decimal_bytes(n as nat));
}

pub proof fn lemma_decimal_bytes(n: nat)
    ensures
        decimal_bytes(n).len() > 0,
        all_digits(decimal_bytes(n)),
        digits_value(decimal_bytes(n)) == n,
    decreases n,
{
    if n >= 10 {
        lemma_decimal_bytes(n / 10);
        let d = decimal_bytes(n);
        assert(d.drop_last() =~= decimal_bytes(n / 10));
        assert(n % 10 < 10);
        assert(d.last() == (48 + n % 10) as u8);
        assert(d.last() as int == 48 + n % 10);
        assert((n / 10) * 10 + n % 10 == n) by (nonlinear_arith);
        assert(digits_value(d) == digits_value(d.drop_last()) * 10 + (d.last() - 48) as nat);
        assert(digits_value(d.drop_last()) == n / 10);
        assert(digits_value(d) == n);
    } else {
        let d = decimal_bytes(n);
        assert(d.drop_last() =~= Seq::<u8>::empty());
        assert(d.last() as int == 48 + n);
        assert(digits_value(d.drop_last()) == 0);
        assert(digits_value(d) == n);
    }
}

/// The local ID of a request without a delivery ID: `capture-`, the
/// timestamp and the sequence number in decimal, joined by `-`.
pub fn generated_capture_id(timestamp: u128, sequence: u64) -> (r: String)
    ensures
        r@ == decode_utf8(capture_id_bytes(timestamp as nat, sequence as nat)),
{
    let mut out: Vec<u8> = Vec::new();
    let mut k: usize = 0;
    while k < 8
        invariant
            k <= 8,
            out@ == CAPTURE_PREFIX@.subrange(0, k as int),
        decreases 8 - k,
    {
        out.push(CAPTURE_PREFIX[k]);
        k = k + 1;
        assert(out@ =~= CAPTURE_PREFIX@.subrange(0, k as int));
    }
    assert(CAPTURE_PREFIX@.subrange(0, 8) =~= CAPTURE_PREFIX@);
    push_decimal(&mut out, timestamp);
    out.push(45);
    push_decimal(&mut out, sequence as u128);
    assert(out@ =~= capture_id_bytes(timestamp as nat, sequence as nat));
    proof {
        lemma_capture_id_ascii(timestamp as nat, sequence as nat);
        lemma_ascii_valid(out@);
    }
    utf8_to_string(out.as_slice())
}

/// The numbers from which IDs are generated for requests without a delivery
/// ID: each is used once, in order, wrapping around after `u64::MAX`.
pub struct IdSequence {
    next: u64,
}

/// The count of sequence numbers, after which they wrap around.
pub open spec fn sequence_modulus() -> nat {
    0x1_0000_0000_0000_0000
}

impl IdSequence {
    /// The number the next generated ID uses.
    pub closed spec fn next_number(&self) -> nat {
        self.next as nat
    }

    /// A sequence that starts at 0.
    pub fn new() -> (r: Self)
        ensures
            r.next_number() == 0,
    {
        IdSequence { next: 0 }
    }

    /// The ID a capture of `request` is stored under: its delivery ID, or else
    /// an ID generated from `timestamp` and the sequence's next number, which
    /// is then used up.
    pub fn capture_id(&mut self, request: &Request, timestamp: u128) -> (r: String)
        ensures
            final(self).next_number() < sequence_modulus(),
            match request.delivery_id {
                Some(id) => r@ == id@ && final(self).next_number() == old(self).next_number(),
                None => r@ == decode_utf8(
                    capture_id_bytes(timestamp as nat, old(self).next_number()),
                ) && final(self).next_number() == (old(self).next_number() + 1)
                    % sequence_modulus(),
            },
    {
        match &request.delivery_id {
            Some(id) => id.clone(),
            None => {
                let sequence = self.next;
                self.next = if self.next == u64::MAX {
                    0
                } else {
                    self.next + 1
                };
                generated_capture_id(timestamp, sequence)
            },
        }
    }
}

pub proof fn lemma_capture_id_ascii(timestamp: nat, sequence: nat)
    ensures
        forall|k: int|
            0 <= k < capture_id_bytes(timestamp, sequence).len() ==> (#[trigger] capture_id_bytes(
                timestamp,
                sequence,
            )[k] < 0x80 && (crate::text::is_ascii_alnum(capture_id_bytes(timestamp, sequence)[k])
                || capture_id_bytes(timestamp, sequence)[k] == 45)),
{
    lemma_decimal_bytes(timestamp);
    lemma_decimal_bytes(sequence);
    let a = decimal_bytes(timestamp);
    let b = decimal_bytes(sequence);
    let id = capture_id_bytes(timestamp, sequence);
    assert forall|k: int| 0 <= k < id.len() implies (#[trigger] id[k] < 0x80 && (
    crate::text::is_ascii_alnum(id[k]) || id[k] == 45)) by {
        if k < 8 {
            assert(id[k] == CAPTURE_PREFIX@[k]);
        } else if k < 8 + a.len() {
            assert(id[k] == a[k - 8]);
            assert(is_digit(a[k - 8]));
        } else if k == 8 + a.len() {
        } else {
            assert(id[k] == b[k - 9 - a.len()]);
            assert(is_digit(b[k - 9 - a.len()]));
        }
    }
}

} // verus!
