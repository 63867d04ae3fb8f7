//! Framing an HTTP/1.x request read from a byte stream: the head ends at the
//! first `\r\n\r\n`, and the body is exactly `Content-Length` bytes long.
use vstd::prelude::*;
use vstd::utf8::valid_utf8;
use crate::error::{CaptureError, ErrorKind};
use crate::text::{
    copy_range, eq_ignore_case, eq_ignore_case_exec, find_terminator, find_terminator_exec,
    find_terminator_from, lemma_find_terminator_from_bounds, lines, parse_usize, parse_usize_exec,
    split_lines, split_once, split_once_exec, trim, trim_range, views, COLON,
};
use crate::unicode::is_valid_utf8;

verus! {

/// The largest head, in bytes, that a request may have.
pub const MAX_HEADER_BYTES: usize = 16 * 1024;

/// While no terminator has been seen, reading stops with an error once this
/// many bytes have arrived.
pub const HEAD_READ_LIMIT: usize = MAX_HEADER_BYTES + 4;

/// The most bytes asked of the reader at once.
pub const READ_CHUNK: usize = 4096;

/// The most bytes held before the head ends: just under the head limit, plus
/// one more read.
pub const MAX_HEAD_READ: usize = HEAD_READ_LIMIT + READ_CHUNK - 1;

/// The largest body limit for which the framed length of a request always
/// fits in a `usize`.
pub const MAX_BODY_LIMIT: usize = usize::MAX - MAX_HEAD_READ;

/// The header name `transfer-encoding`.
pub const TRANSFER_ENCODING: [u8; 17] = [
    116, 114, 97, 110, 115, 102, 101, 114, 45, 101, 110, 99, 111, 100, 105, 110,
    103,
];

/// The header name `content-length`.
pub const CONTENT_LENGTH: [u8; 14] = [
    99, 111, 110, 116, 101, 110, 116, 45, 108, 101, 110, 103, 116, 104,
];

/// The value of the `Content-Length` header over the header lines
/// `ls[i..]`, given the value `found` in the lines before them: the first
/// refusal met, or the value (if any) once all lines are read.
pub open spec fn length_scan(ls: Seq<Seq<u8>>, i: int, found: Option<nat>) -> Result<
    Option<nat>,
    CaptureError,
>
    decreases ls.len() - i,
{
    if i < 0 || i >= ls.len() {
        Ok(found)
    } else {
        match split_once(ls[i], COLON) {
            None => Err(CaptureError::InvalidHeader),
            Some((key, value)) => {
                if eq_ignore_case(key, TRANSFER_ENCODING@) {
                    Err(CaptureError::ChunkedTransferEncoding)
                } else if eq_ignore_case(key, CONTENT_LENGTH@) {
                    if found is Some {
                        Err(CaptureError::MultipleContentLength)
                    } else {
                        match parse_usize(trim(value)) {
                            None => Err(CaptureError::InvalidContentLength),
                            Some(n) => length_scan(ls, i + 1, Some(n)),
                        }
                    }
                } else {
                    length_scan(ls, i + 1, found)
                }
            },
        }
    }
}

/// The body length that a request head declares: the lines after the first
/// must each hold a `:`, none may name `Transfer-Encoding`, at most one may
/// name `Content-Length` and its trimmed value must be a `usize`; without one
/// the body is empty.
pub open spec fn content_length_of(head: Seq<u8>) -> Result<nat, CaptureError> {
    match length_scan(lines(head), 1, None) {
        Ok(Some(n)) => Ok(n),
        Ok(None) => Ok(0),
        Err(e) => Err(e),
    }
}

/// The total length of a request whose head is `head` (the `h` bytes before
/// the first terminator): refused when the head is not UTF-8, when its
/// headers are refused, or when the body would exceed `max_body`.
pub open spec fn framed_length(head: Seq<u8>, max_body: nat) -> Result<int, CaptureError> {
    if !valid_utf8(head) {
        Err(CaptureError::HeadersNotUtf8)
    } else {
        match content_length_of(head) {
            Err(e) => Err(e),
            Ok(n) => if n > max_body {
                Err(CaptureError::BodyTooLarge)
            } else {
                Ok(head.len() + 4 + n as int)
            },
        }
    }
}

/// What the bytes received so far tell: `Ok(None)` while more are needed,
/// `Ok(Some(t))` once the request, `t` bytes long, is complete, and the
/// refusal otherwise.
pub open spec fn frame_status(received: Seq<u8>, max_body: nat) -> Result<Option<int>, CaptureError> {
    match find_terminator(received) {
        None => if received.len() >= HEAD_READ_LIMIT {
            Err(CaptureError::HeadersTooLarge)
        } else {
            Ok(None)
        },
        Some(h) => match framed_length(received.subrange(0, h), max_body) {
            Err(e) => Err(e),
            Ok(t) => if received.len() >= t {
                Ok(Some(t))
            } else {
                Ok(None)
            },
        },
    }
}

/// A complete request: its head is accepted and it ends where its body does.
pub open spec fn is_framed_request(v: Seq<u8>, max_body: nat) -> bool {
    frame_status(v, max_body) == Ok::<Option<int>, CaptureError>(Some(v.len() as int))
}

/// Finds the end of the request head: the index of the first `\r\n\r\n`.
pub fn header_end(raw: &[u8]) -> (r: Result<usize, CaptureError>)
    ensures
        r matches Ok(h) ==> find_terminator(raw@) == Some(h as int),
        r is Err <==> find_terminator(raw@) is None,
        r is Err ==> r == Err::<usize, CaptureError>(CaptureError::MissingHeaderTerminator),
{
    match find_terminator_exec(raw) {
        Some(h) => Ok(h),
        None => Err(CaptureError::MissingHeaderTerminator),
    }
}

/// Reads the `Content-Length` that a request head declares.
pub fn parse_content_length(head: &[u8]) -> (r: Result<usize, CaptureError>)
    ensures
        r matches Ok(n) ==> content_length_of(head@) == Ok::<nat, CaptureError>(n as nat),
        r matches Err(e) ==> content_length_of(head@) == Err::<nat, CaptureError>(e),
{
    let ls = split_lines(head);
    let ghost vs = views(ls@);
    let mut found: Option<usize> = None;
    let mut i: usize = 1;
    while i < ls.len()
        invariant
            1 <= i,
            vs == views(ls@),
            vs == lines(head@),
            length_scan(vs, 1, None) == length_scan(
                vs,
                i as int,
                match found {
                    Some(n) => Some(n as nat),
                    None => None,
                },
            ),
        decreases ls@.len() - i,
    {
        let line = &ls[i];
        assert(line@ == vs[i as int]);
        match split_once_exec(line.as_slice(), COLON) {
            None => {
                return Err(CaptureError::InvalidHeader);
            },
            Some((key, value)) => {
                if eq_ignore_case_exec(key.as_slice(), TRANSFER_ENCODING.as_slice()) {
                    return Err(CaptureError::ChunkedTransferEncoding);
                }
                if eq_ignore_case_exec(key.as_slice(), CONTENT_LENGTH.as_slice()) {
                    if found.is_some() {
                        return Err(CaptureError::MultipleContentLength);
                    }
                    let (a, b) = trim_range(value.as_slice());
                    let trimmed = copy_range(value.as_slice(), a, b);
                    match parse_usize_exec(trimmed.as_slice()) {
                        None => {
                            return Err(CaptureError::InvalidContentLength);
                        },
                        Some(n) => {
                            found = Some(n);
                        },
                    }
                }
            },
        }
        i = i + 1;
    }
    match found {
        Some(n) => Ok(n),
        None => Ok(0),
    }
}

/// A first terminator that lies within the first `p` bytes is also the first
/// terminator of those bytes.
pub proof fn lemma_find_terminator_prefix(s: Seq<u8>, i: int, p: int)
    requires
        0 <= i,
        p <= s.len(),
        find_terminator_from(s, i) matches Some(h) && h + 4 <= p,
    ensures
        find_terminator_from(s.subrange(0, p), i) == find_terminator_from(s, i),
    decreases s.len() - i,
{
    let t = s.subrange(0, p);
    if i + 4 > s.len() {
    } else if crate::text::is_terminator_at(s, i) {
        assert(crate::text::is_terminator_at(t, i));
    } else {
        lemma_find_terminator_from_bounds(s, i);
        assert(!crate::text::is_terminator_at(t, i));
        lemma_find_terminator_prefix(s, i + 1, p);
    }
}

/// How many bytes to ask the reader for after `received`: 4096 while the
/// head is incomplete, then no more than the body still lacks.
pub open spec fn ask_size(received: Seq<u8>, max_body: nat) -> int {
    match find_terminator(received) {
        None => READ_CHUNK as int,
        Some(h) => match framed_length(received.subrange(0, h), max_body) {
            Ok(t) => if t - received.len() < READ_CHUNK {
                t - received.len()
            } else {
                READ_CHUNK as int
            },
            Err(_) => READ_CHUNK as int,
        },
    }
}

/// What feeding one chunk of bytes to a [`RequestFramer`] led to.
#[derive(Debug)]
pub enum Progress {
    /// The request is not complete yet: read more.
    NeedMore,
    /// The complete request, head and body.
    Complete(Vec<u8>),
    /// The request is refused.
    Failed(CaptureError),
}

/// Collects the bytes of one request as they arrive in chunks, and decides
/// after each chunk whether the request is complete, refused, or needs more.
pub struct RequestFramer {
    max_body: usize,
    buffer: Vec<u8>,
    total: Option<usize>,
}

impl RequestFramer {
    /// The bytes received so far.
    pub closed spec fn received(&self) -> Seq<u8> {
        self.buffer@
    }

    /// The largest body accepted.
    pub closed spec fn body_limit(&self) -> nat {
        self.max_body as nat
    }

    /// The framer still waits for bytes: the received bytes neither complete
    /// nor refuse a request.
    pub closed spec fn wf(&self) -> bool {
        &&& self.max_body <= MAX_BODY_LIMIT
        &&& frame_status(self.buffer@, self.max_body as nat) == Ok::<Option<int>, CaptureError>(
            None,
        )
        &&& match self.total {
            None => find_terminator(self.buffer@) is None,
            Some(t) => find_terminator(self.buffer@) matches Some(h) && framed_length(
                self.buffer@.subrange(0, h),
                self.max_body as nat,
            ) == Ok::<int, CaptureError>(t as int) && t <= MAX_HEAD_READ + self.max_body,
        }
    }

    /// How far the framer is from a decision; every chunk that leaves it
    /// waiting brings this down.
    pub closed spec fn remaining(&self) -> nat {
        match self.total {
            None => (HEAD_READ_LIMIT + self.max_body - self.buffer@.len()) as nat,
            Some(t) => (t - self.buffer@.len()) as nat,
        }
    }

    /// A waiting framer is always at least one chunk away from a decision.
    pub proof fn lemma_remaining_positive(&self)
        requires
            self.wf(),
        ensures
            self.remaining() >= 1,
    {
        match self.total {
            None => {},
            Some(t) => {},
        }
    }

    /// A framer that has received nothing.
    pub fn new(max_body: usize) -> (r: Self)
        requires
            max_body <= MAX_BODY_LIMIT,
        ensures
            r.wf(),
            r.received() == Seq::<u8>::empty(),
            r.body_limit() == max_body,
            r.remaining() == HEAD_READ_LIMIT + max_body,
    {
        let r = RequestFramer { max_body, buffer: Vec::new(), total: None };
        assert(find_terminator(r.buffer@) is None);
        r
    }

    /// How many bytes to ask the reader for next: 4096 while the head is
    /// incomplete, then no more than the body still lacks.
    pub fn read_len(&self) -> (n: usize)
        requires
            self.wf(),
        ensures
            1 <= n <= READ_CHUNK,
            n == ask_size(self.received(), self.body_limit()),
    {
        match self.total {
            None => READ_CHUNK,
            Some(t) => {
                let rest = t - self.buffer.len();
                if rest < READ_CHUNK {
                    rest
                } else {
                    READ_CHUNK
                }
            },
        }
    }

    /// Takes the next chunk that the reader delivered. An empty chunk means
    /// the stream ended: that refuses the request, for a missing terminator
    /// if the head is incomplete and for a short body otherwise. Otherwise the
    /// chunk is appended and the result is what [`frame_status`] says of all
    /// bytes received.
    pub fn feed(&mut self, chunk: &[u8]) -> (p: Progress)
        requires
            old(self).wf(),
            chunk@.len() <= READ_CHUNK,
        ensures
            final(self).body_limit() == old(self).body_limit(),
            chunk@.len() == 0 ==> final(self).received() == old(self).received(),
            chunk@.len() == 0 ==> (p matches Progress::Failed(e) && e == (if find_terminator(
                old(self).received(),
            ) is None {
                CaptureError::MissingHeaderTerminator
            } else {
                CaptureError::BodyEndedEarly
            })),
            chunk@.len() > 0 ==> final(self).received() == old(self).received() + chunk@,
            chunk@.len() > 0 ==> match frame_status(
                old(self).received() + chunk@,
                old(self).body_limit(),
            ) {
                Ok(None) => p is NeedMore && final(self).wf() && final(self).remaining() < old(
                    self,
                ).remaining(),
                Ok(Some(t)) => p matches Progress::Complete(v) && v@ == (old(self).received()
                    + chunk@).subrange(0, t) && t <= MAX_HEAD_READ + old(self).body_limit(),
                Err(e) => p matches Progress::Failed(f) && f == e,
            },
    {
        if chunk.len() == 0 {
            if self.total.is_none() {
                return Progress::Failed(CaptureError::MissingHeaderTerminator);
            } else {
                return Progress::Failed(CaptureError::BodyEndedEarly);
            }
        }
        let ghost old_buffer = self.buffer@;
        let mut k: usize = 0;
        while k < chunk.len()
            invariant
                k <= chunk@.len(),
                self.buffer@ == old_buffer + chunk@.subrange(0, k as int),
                self.max_body == old(self).max_body,
                self.total == old(self).total,
            decreases chunk@.len() - k,
        {
            self.buffer.push(chunk[k]);
            k = k + 1;
            assert(self.buffer@ =~= old_buffer + chunk@.subrange(0, k as int));
        }
        assert(chunk@.subrange(0, chunk@.len() as int) =~= chunk@);
        let ghost all = self.buffer@;
        assert(all == old_buffer + chunk@);
        match self.total {
            Some(t) => {
                proof {
                    crate::text::lemma_find_terminator_extend(old_buffer, chunk@, 0);
                    lemma_find_terminator_from_bounds(old_buffer, 0);
                    let h = find_terminator(old_buffer)->0;
                    assert(all.subrange(0, h) =~= old_buffer.subrange(0, h));
                }
                if self.buffer.len() >= t {
                    let v = copy_range(self.buffer.as_slice(), 0, t);
                    Progress::Complete(v)
                } else {
                    Progress::NeedMore
                }
            },
            None => {
                match find_terminator_exec(self.buffer.as_slice()) {
                    None => {
                        if self.buffer.len() >= HEAD_READ_LIMIT {
                            Progress::Failed(CaptureError::HeadersTooLarge)
                        } else {
                            Progress::NeedMore
                        }
                    },
                    Some(h) => {
                        proof {
                            lemma_find_terminator_from_bounds(all, 0);
                        }
                        let head = copy_range(self.buffer.as_slice(), 0, h);
                        if !is_valid_utf8(head.as_slice()) {
                            return Progress::Failed(CaptureError::HeadersNotUtf8);
                        }
                        match parse_content_length(head.as_slice()) {
                            Err(e) => Progress::Failed(e),
                            Ok(n) => {
                                if n > self.max_body {
                                    Progress::Failed(CaptureError::BodyTooLarge)
                                } else {
                                    proof {
                                        assert(old_buffer.len() < HEAD_READ_LIMIT);
                                        assert(h < all.len());
                                    }
                                    let t = h + 4 + n;
                                    if self.buffer.len() >= t {
                                        let v = copy_range(self.buffer.as_slice(), 0, t);
                                        Progress::Complete(v)
                                    } else {
                                        self.total = Some(t);
                                        Progress::NeedMore
                                    }
                                }
                            },
                        }
                    },
                }
            },
        }
    }
}

/// The bytes that complete a request are a framed request on their own.
pub proof fn lemma_complete_is_framed(all: Seq<u8>, max_body: nat)
    requires
        frame_status(all, max_body) matches Ok(Some(t)),
    ensures
        frame_status(all, max_body) matches Ok(Some(t)) && is_framed_request(
            all.subrange(0, t),
            max_body,
        ),
{
    let t = frame_status(all, max_body)->Ok_0->Some_0;
    let h = find_terminator(all)->Some_0;
    lemma_find_terminator_from_bounds(all, 0);
    lemma_find_terminator_prefix(all, 0, t);
    let v = all.subrange(0, t);
    assert(v.subrange(0, h) =~= all.subrange(0, h));
}

#[verifier::external_type_specification]
#[verifier::external_body]
pub struct ExIoError(std::io::Error);

/// `std::io::Read::read` into `buf`: the buffer keeps its length (it is
/// lent as a slice). Which bytes arrive, and the count reported, are not
/// stated: that is up to the reader.
#[verifier::external_body]
fn read_chunk<R: std::io::Read>(reader: &mut R, buf: &mut Vec<u8>) -> (r: std::io::Result<usize>)
    ensures
        final(buf)@.len() == old(buf)@.len(),
{
    reader.read(buf.as_mut_slice())
}

/// `std::io::Error::new(kind, message)`, with the library's error kind
/// converted to `std::io::ErrorKind`, returned as an error. The error's kind
/// and message are not stated: `io::Error` is opaque here.
#[verifier::external_body]
fn io_error<T>(kind: ErrorKind, message: &str) -> (r: std::io::Result<T>)
    ensures
        r is Err,
{
    let kind = match kind {
        ErrorKind::InvalidData => std::io::ErrorKind::InvalidData,
        ErrorKind::AlreadyExists => std::io::ErrorKind::AlreadyExists,
    };
    Err(std::io::Error::new(kind, message))
}

/// The chunks joined in order.
pub open spec fn concat_chunks(chunks: Seq<Seq<u8>>) -> Seq<u8>
    decreases chunks.len(),
{
    if chunks.len() == 0 {
        seq![]
    } else {
        chunks[0] + concat_chunks(chunks.drop_first())
    }
}

/// The outcome of framing when, after `received`, the reads deliver the
/// non-empty `chunks` in turn and then the stream ends: the complete request,
/// or the refusal (for an ended stream, a missing terminator or a short body).
pub open spec fn run_reads(received: Seq<u8>, chunks: Seq<Seq<u8>>, max_body: nat) -> Result<
    Seq<u8>,
    CaptureError,
>
    decreases chunks.len(),
{
    if chunks.len() == 0 {
        if find_terminator(received) is None {
            Err(CaptureError::MissingHeaderTerminator)
        } else {
            Err(CaptureError::BodyEndedEarly)
        }
    } else {
        let all = received + chunks[0];
        match frame_status(all, max_body) {
            Ok(None) => run_reads(all, chunks.drop_first(), max_body),
            Ok(Some(t)) => Ok(all.subrange(0, t)),
            Err(e) => Err(e),
        }
    }
}

/// After `received`, none of the reads `chunks` brings framing to a decision.
pub open spec fn pending(received: Seq<u8>, chunks: Seq<Seq<u8>>, max_body: nat) -> bool
    decreases chunks.len(),
{
    if chunks.len() == 0 {
        true
    } else {
        let all = received + chunks[0];
        frame_status(all, max_body) == Ok::<Option<int>, CaptureError>(None) && pending(
            all,
            chunks.drop_first(),
            max_body,
        )
    }
}

/// Reads that bring no decision can be taken in at once.
pub proof fn lemma_run_reads_split(
    received: Seq<u8>,
    first: Seq<Seq<u8>>,
    rest: Seq<Seq<u8>>,
    max_body: nat,
)
    requires
        pending(received, first, max_body),
    ensures
        run_reads(received, first + rest, max_body) == run_reads(
            received + concat_chunks(first),
            rest,
            max_body,
        ),
        pending(received, first + rest, max_body) == pending(
            received + concat_chunks(first),
            rest,
            max_body,
        ),
    decreases first.len(),
{
    if first.len() == 0 {
        assert(first + rest =~= rest);
        assert(received + concat_chunks(first) =~= received);
    } else {
        let all = received + first[0];
        assert((first + rest).drop_first() =~= first.drop_first() + rest);
        assert((first + rest)[0] == first[0]);
        lemma_run_reads_split(all, first.drop_first(), rest, max_body);
        assert(all + concat_chunks(first.drop_first()) =~= received + concat_chunks(first));
    }
}

/// What a stream `s` that then ends frames to, read in any way: the complete
/// request, or the refusal.
pub open spec fn stream_outcome(s: Seq<u8>, max_body: nat) -> Result<Seq<u8>, CaptureError> {
    match find_terminator(s) {
        None => if s.len() >= HEAD_READ_LIMIT {
            Err(CaptureError::HeadersTooLarge)
        } else {
            Err(CaptureError::MissingHeaderTerminator)
        },
        Some(h) => match framed_length(s.subrange(0, h), max_body) {
            Err(e) => Err(e),
            Ok(t) => if s.len() >= t {
                Ok(s.subrange(0, t))
            } else {
                Err(CaptureError::BodyEndedEarly)
            },
        },
    }
}

/// The first terminator of `s`, if any, ends a head within the limit.
pub open spec fn head_within_limit(s: Seq<u8>) -> bool {
    find_terminator(s) matches Some(h) ==> h + 4 <= HEAD_READ_LIMIT
}

/// Non-empty reads, each no longer than what was asked of the reader after
/// the reads before it ([`ask_size`]).
pub open spec fn valid_reads(reads: Seq<Seq<u8>>, max_body: nat) -> bool {
    forall|i: int|
        0 <= i < reads.len() ==> 0 < (#[trigger] reads[i]).len() && reads[i].len() <= ask_size(
            concat_chunks(reads.subrange(0, i)),
            max_body,
        )
}

/// The number of calls made to the reader when `delivered` reads brought
/// data and reading ended with `refusal`: one more call (the one that found
/// the stream ended) when the refusal is for an ended stream.
pub open spec fn refused_calls(delivered: nat, refusal: CaptureError) -> nat {
    if refusal == CaptureError::MissingHeaderTerminator || refusal == CaptureError::BodyEndedEarly {
        delivered + 1
    } else {
        delivered
    }
}

/// `reads`, the non-empty reads delivered, account for the outcome `r`: a
/// request or refusal as [`run_reads`] gives it, or a reader error that came
/// before any decision; and the reader was called at most `16388 + max_body`
/// times.
pub open spec fn reads_explain(reads: Seq<Seq<u8>>, max_body: nat, r: Result<Vec<u8>, ReadFailure>) -> bool {
    &&& valid_reads(reads, max_body)
    &&& match r {
        Ok(v) => run_reads(seq![], reads, max_body) == Ok::<Seq<u8>, CaptureError>(v@)
            && reads.len() <= HEAD_READ_LIMIT + max_body,
        Err(ReadFailure::Refused(e)) => run_reads(seq![], reads, max_body) == Err::<
            Seq<u8>,
            CaptureError,
        >(e) && refused_calls(reads.len(), e) <= HEAD_READ_LIMIT + max_body,
        Err(ReadFailure::Reader(_)) => pending(seq![], reads, max_body) && reads.len() + 1
            <= HEAD_READ_LIMIT + max_body,
    }
}

/// The same account for an outcome reported as `std::io::Result`, where a
/// refusal and a reader error both come as errors.
pub open spec fn reads_explain_io(reads: Seq<Seq<u8>>, max_body: nat, r: std::io::Result<Vec<u8>>) -> bool {
    &&& valid_reads(reads, max_body)
    &&& match r {
        Ok(v) => run_reads(seq![], reads, max_body) == Ok::<Seq<u8>, CaptureError>(v@)
            && reads.len() <= HEAD_READ_LIMIT + max_body,
        Err(_) => (pending(seq![], reads, max_body) && reads.len() + 1 <= HEAD_READ_LIMIT
            + max_body) || (run_reads(seq![], reads, max_body) matches Err(e) && refused_calls(
            reads.len(),
            e,
        ) <= HEAD_READ_LIMIT + max_body),
    }
}

proof fn lemma_valid_reads_push(reads: Seq<Seq<u8>>, chunk: Seq<u8>, max_body: nat)
    requires
        valid_reads(reads, max_body),
        0 < chunk.len() <= ask_size(concat_chunks(reads), max_body),
    ensures
        valid_reads(reads.push(chunk), max_body),
{
    let next = reads.push(chunk);
    assert forall|i: int| 0 <= i < next.len() implies 0 < (#[trigger] next[i]).len()
        && next[i].len() <= ask_size(concat_chunks(next.subrange(0, i)), max_body) by {
        if i < reads.len() {
            assert(next.subrange(0, i) =~= reads.subrange(0, i));
            assert(next[i] == reads[i]);
        } else {
            assert(next.subrange(0, i) =~= reads);
        }
    }
}

/// Framing refuses bytes that arrived only for their content, never for the
/// stream ending.
proof fn lemma_length_scan_errors(ls: Seq<Seq<u8>>, i: int, found: Option<nat>)
    ensures
        length_scan(ls, i, found) matches Err(e) ==> e != CaptureError::MissingHeaderTerminator
            && e != CaptureError::BodyEndedEarly,
    decreases ls.len() - i,
{
    if 0 <= i < ls.len() {
        match split_once(ls[i], COLON) {
            None => {},
            Some((key, value)) => {
                lemma_length_scan_errors(ls, i + 1, found);
                if let Some(n) = parse_usize(trim(value)) {
                    lemma_length_scan_errors(ls, i + 1, Some(n));
                }
            },
        }
    }
}

/// Why reading a request stopped without one.
#[derive(Debug)]
pub enum ReadFailure {
    /// The reader reported this error.
    Reader(std::io::Error),
    /// The bytes read are refused.
    Refused(CaptureError),
}

/// Reads one HTTP/1.x request from `reader`, asking at most 4096 bytes at a
/// time and no more than the body still lacks; a reported count above the
/// buffer's length is taken as the whole buffer. The outcome is what
/// [`run_reads`] gives for the non-empty reads that were delivered (a read of
/// nothing ends the stream), or, when the reader reports an error before any
/// decision, that error, on which reading stops. Besides the delivered reads
/// the reader is called at most once more (the call that ends the stream or
/// fails), so at most `16389 + max_body` times.
pub fn read_request<R: std::io::Read>(reader: &mut R, max_body: usize) -> (r: Result<
    Vec<u8>,
    ReadFailure,
>)
    requires
        max_body <= MAX_BODY_LIMIT,
    ensures
        exists|reads: Seq<Seq<u8>>| reads_explain(reads, max_body as nat, r),
        r matches Ok(v) ==> is_framed_request(v@, max_body as nat),
        r matches Ok(v) ==> v@.len() <= MAX_HEAD_READ + max_body,
{
    let mut framer = RequestFramer::new(max_body);
    let ghost mut reads: Seq<Seq<u8>> = seq![];
    proof {
        assert(concat_chunks(reads) =~= Seq::<u8>::empty());
    }
    loop
        invariant
            framer.wf(),
            framer.body_limit() == max_body,
            framer.received() == concat_chunks(reads),
            pending(seq![], reads, max_body as nat),
            valid_reads(reads, max_body as nat),
            reads.len() + framer.remaining() <= HEAD_READ_LIMIT + max_body,
        decreases framer.remaining(),
    {
        proof {
            framer.lemma_remaining_positive();
        }
        let want = framer.read_len();
        let mut buf: Vec<u8> = vec![0u8; want];
        let reported = match read_chunk(reader, &mut buf) {
            Ok(n) => n,
            Err(e) => {
                let r = Err(ReadFailure::Reader(e));
                assert(reads_explain(reads, max_body as nat, r));
                return r;
            },
        };
        let n = if reported > want {
            want
        } else {
            reported
        };
        let chunk = copy_range(buf.as_slice(), 0, n);
        let ghost before = framer.received();
        proof {
            lemma_read_step(reads, chunk@, max_body as nat);
            if n > 0 {
                lemma_valid_reads_push(reads, chunk@, max_body as nat);
                let h = find_terminator(before + chunk@);
                if h is Some {
                    let ls = lines((before + chunk@).subrange(0, h->0));
                    lemma_length_scan_errors(ls, 1, None);
                }
            }
        }
        match framer.feed(chunk.as_slice()) {
            Progress::NeedMore => {
                proof {
                    reads = reads.push(chunk@);
                }
            },
            Progress::Complete(v) => {
                proof {
                    lemma_complete_is_framed(before + chunk@, max_body as nat);
                }
                let r = Ok(v);
                assert(reads_explain(reads.push(chunk@), max_body as nat, r));
                return r;
            },
            Progress::Failed(e) => {
                let r = Err(ReadFailure::Refused(e));
                if n > 0 {
                    assert(reads_explain(reads.push(chunk@), max_body as nat, r));
                } else {
                    assert(reads_explain(reads, max_body as nat, r));
                }
                return r;
            },
        }
    }
}

/// What one more read does to the outcome of the reads before it, which
/// brought no decision.
proof fn lemma_read_step(reads: Seq<Seq<u8>>, chunk: Seq<u8>, max_body: nat)
    requires
        pending(seq![], reads, max_body),
    ensures
        run_reads(seq![], reads, max_body) == run_reads(concat_chunks(reads), seq![], max_body),
        chunk.len() > 0 ==> run_reads(seq![], reads.push(chunk), max_body) == match frame_status(
            concat_chunks(reads) + chunk,
            max_body,
        ) {
            Ok(None) => run_reads(concat_chunks(reads) + chunk, seq![], max_body),
            Ok(Some(t)) => Ok((concat_chunks(reads) + chunk).subrange(0, t)),
            Err(e) => Err(e),
        },
        pending(seq![], reads.push(chunk), max_body) == (frame_status(
            concat_chunks(reads) + chunk,
            max_body,
        ) == Ok::<Option<int>, CaptureError>(None)),
        concat_chunks(reads.push(chunk)) == concat_chunks(reads) + chunk,
{
    let e: Seq<u8> = seq![];
    let all = concat_chunks(reads) + chunk;
    assert(pending(all, Seq::<Seq<u8>>::empty(), max_body));
    lemma_run_reads_split(e, reads, seq![chunk], max_body);
    lemma_run_reads_split(e, reads, seq![], max_body);
    assert(reads + Seq::<Seq<u8>>::empty() =~= reads);
    assert(reads.push(chunk) =~= reads + seq![chunk]);
    assert(e + concat_chunks(reads) =~= concat_chunks(reads));
    assert(seq![chunk].drop_first() =~= Seq::<Seq<u8>>::empty());
    assert(seq![chunk][0] == chunk);
    lemma_concat_push(reads, chunk);
}

proof fn lemma_concat_push(chunks: Seq<Seq<u8>>, last: Seq<u8>)
    ensures
        concat_chunks(chunks + seq![last]) == concat_chunks(chunks) + last,
    decreases chunks.len(),
{
    if chunks.len() == 0 {
        assert(chunks + seq![last] =~= seq![last]);
        assert(seq![last].drop_first() =~= Seq::<Seq<u8>>::empty());
        assert(concat_chunks(Seq::<Seq<u8>>::empty()) =~= Seq::<u8>::empty());
        assert(concat_chunks(seq![last]) == seq![last][0] + concat_chunks(seq![last].drop_first()));
        assert(last + Seq::<u8>::empty() =~= last);
        assert(concat_chunks(chunks) + last =~= last);
    } else {
        assert((chunks + seq![last]).drop_first() =~= chunks.drop_first() + seq![last]);
        lemma_concat_push(chunks.drop_first(), last);
        assert(chunks[0] + (concat_chunks(chunks.drop_first()) + last) =~= (chunks[0]
            + concat_chunks(chunks.drop_first())) + last);
    }
}

/// Reads one HTTP/1.x request from `reader`: the head up to the first
/// `\r\n\r\n` and then exactly the `Content-Length` bytes of body, as
/// [`read_request`] does. A refusal is returned as an error of the refusal's
/// kind ([`CaptureError::kind`]) with the refusal's message; an error of the
/// reader is passed on.
pub fn read_http_request<R: std::io::Read>(reader: &mut R, max_body: usize) -> (r:
    std::io::Result<Vec<u8>>)
    requires
        max_body <= MAX_BODY_LIMIT,
    ensures
        exists|reads: Seq<Seq<u8>>| reads_explain_io(reads, max_body as nat, r),
        r matches Ok(v) ==> is_framed_request(v@, max_body as nat),
        r matches Ok(v) ==> v@.len() <= MAX_HEAD_READ + max_body,
{
    let outcome = read_request(reader, max_body);
    proof {
        let reads = choose|reads: Seq<Seq<u8>>| reads_explain(reads, max_body as nat, outcome);
        assert(reads_explain(reads, max_body as nat, outcome));
    }
    let r = match outcome {
        Ok(v) => Ok(v),
        Err(ReadFailure::Reader(e)) => Err(e),
        Err(ReadFailure::Refused(e)) => io_error(e.kind(), e.message()),
    };
    proof {
        let reads = choose|reads: Seq<Seq<u8>>| reads_explain(reads, max_body as nat, outcome);
        assert(reads_explain_io(reads, max_body as nat, r));
    }
    r
}

} // verus!
