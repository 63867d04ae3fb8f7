//! Properties that hold across the library's functions.
use vstd::prelude::*;
use vstd::utf8::{decode_utf8, decode_utf8_encode_utf8};
use crate::capture::{
    capture_id_bytes, decimal_bytes, lemma_capture_id_ascii, lemma_decimal_bytes, sequence_modulus,
    store_transition,
    StoreAction, StoreEvent, StoreState,
};
use crate::error::CaptureError;
use crate::framing::{
    concat_chunks, head_within_limit, run_reads, stream_outcome,
    frame_status, framed_length, is_framed_request, lemma_find_terminator_prefix, length_scan,
    CONTENT_LENGTH, TRANSFER_ENCODING,
};
use crate::request::{
    is_delivery_id, is_header_name, scan_delivery_id, scan_headers, scan_line, spec_parse_request,
    HeaderScan, X_DELIVERY_ID, X_GITHUB_DELIVERY,
};
use crate::text::{
    ascii_lower, eq_ignore_case, find_terminator, is_digit, lemma_find_terminator_extend,
    lemma_find_terminator_from_bounds, lower, parse_usize, split_once, COLON,
};

verus! {

/// Framing does not depend on how the stream was cut into reads: whenever
/// two prefixes of one byte stream each complete a request, they complete the
/// same request, and it is the stream's own first bytes.
pub proof fn law_framing_independent_of_chunking(stream: Seq<u8>, p: int, q: int, max_body: nat)
    requires
        0 <= p <= q <= stream.len(),
        frame_status(stream.subrange(0, p), max_body) is Ok,
        frame_status(stream.subrange(0, q), max_body) is Ok,
        frame_status(stream.subrange(0, p), max_body)->Ok_0 is Some,
        frame_status(stream.subrange(0, q), max_body)->Ok_0 is Some,
    ensures
        frame_status(stream.subrange(0, p), max_body) == frame_status(stream.subrange(0, q), max_body),
        ({
            let t = frame_status(stream.subrange(0, p), max_body)->Ok_0->Some_0;
            stream.subrange(0, p).subrange(0, t) == stream.subrange(0, q).subrange(0, t)
                && stream.subrange(0, p).subrange(0, t) == stream.subrange(0, t)
        }),
{
    let a = stream.subrange(0, p);
    let b = stream.subrange(0, q);
    let rest = stream.subrange(p, q);
    assert(b =~= a + rest);
    lemma_find_terminator_extend(a, rest, 0);
    lemma_find_terminator_from_bounds(a, 0);
    let h = find_terminator(a)->Some_0;
    assert(b.subrange(0, h) =~= a.subrange(0, h));
    let t = frame_status(a, max_body)->Ok_0->Some_0;
    assert(a.subrange(0, t) =~= stream.subrange(0, t));
    assert(b.subrange(0, t) =~= stream.subrange(0, t));
}

/// A body that would exceed the limit is refused as soon as the head has
/// arrived, before any of the body is read: the head and its terminator alone
/// already get the refusal.
pub proof fn law_oversize_body_refused_at_head(received: Seq<u8>, max_body: nat)
    requires
        find_terminator(received) matches Some(h) && framed_length(received.subrange(0, h), max_body)
            == Err::<int, CaptureError>(CaptureError::BodyTooLarge),
    ensures
        find_terminator(received) matches Some(h) && frame_status(received.subrange(0, h + 4), max_body)
            == Err::<Option<int>, CaptureError>(CaptureError::BodyTooLarge) && frame_status(received, max_body)
            == Err::<Option<int>, CaptureError>(CaptureError::BodyTooLarge),
{
    let h = find_terminator(received)->Some_0;
    lemma_find_terminator_from_bounds(received, 0);
    lemma_find_terminator_prefix(received, 0, h + 4);
    let head_part = received.subrange(0, h + 4);
    assert(head_part.subrange(0, h) =~= received.subrange(0, h));
}

/// The refusals that a capture can make of a request whose framing was
/// already accepted: those about the head's size and content, never about
/// the terminator, the encoding, `Content-Length` or the body.
pub open spec fn is_head_content_error(e: CaptureError) -> bool {
    ||| e == CaptureError::HeadersTooLarge
    ||| e == CaptureError::MissingRequestLine
    ||| e == CaptureError::InvalidRequestLine
    ||| e == CaptureError::InvalidHeaderName
    ||| e == CaptureError::InvalidHeaderValue
    ||| e == CaptureError::MultipleDeliveryIds
    ||| e == CaptureError::InvalidDeliveryId
}

/// Comparing up to ASCII case with a name that has no upper-case letters is
/// comparing the lower-cased bytes.
proof fn lemma_eq_ignore_case_lower(key: Seq<u8>, name: Seq<u8>)
    requires
        forall|i: int| 0 <= i < name.len() ==> ascii_lower(#[trigger] name[i]) == name[i],
    ensures
        eq_ignore_case(key, name) <==> lower(key) == name,
{
    if eq_ignore_case(key, name) {
        assert(lower(key) =~= name);
    }
    if lower(key) == name {
        assert forall|i: int| 0 <= i < key.len() implies ascii_lower(key[i]) == ascii_lower(
            name[i],
        ) by {
            assert(lower(key)[i] == ascii_lower(key[i]));
        }
    }
}

proof fn lemma_header_names_lower_case()
    ensures
        forall|i: int|
            0 <= i < TRANSFER_ENCODING@.len() ==> ascii_lower(#[trigger] TRANSFER_ENCODING@[i])
                == TRANSFER_ENCODING@[i],
        forall|i: int|
            0 <= i < CONTENT_LENGTH@.len() ==> ascii_lower(#[trigger] CONTENT_LENGTH@[i])
                == CONTENT_LENGTH@[i],
{
    assert(TRANSFER_ENCODING@ =~= seq![
        116u8, 114, 97, 110, 115, 102, 101, 114, 45, 101, 110, 99, 111, 100, 105, 110, 103,
    ]);
    assert(CONTENT_LENGTH@ =~= seq![99u8, 111, 110, 116, 101, 110, 116, 45, 108, 101, 110, 103, 116, 104]);
}

/// Where the framing scan of the header lines accepts them, the capture
/// scan either accepts them with the same `Content-Length` or refuses a
/// header for its content.
proof fn lemma_scans_agree(ls: Seq<Seq<u8>>, i: int, st: HeaderScan)
    requires
        1 <= i,
        length_scan(ls, i, st.content_length) is Ok,
    ensures
        match scan_headers(ls, i, st) {
            Ok(f) => length_scan(ls, i, st.content_length) == Ok::<Option<nat>, CaptureError>(
                f.content_length,
            ),
            Err(e) => is_head_content_error(e),
        },
    decreases ls.len() - i,
{
    if i >= ls.len() {
    } else {
        lemma_header_names_lower_case();
        let line = ls[i];
        match split_once(line, COLON) {
            None => {},
            Some((key, raw)) => {
                lemma_eq_ignore_case_lower(key, TRANSFER_ENCODING@);
                lemma_eq_ignore_case_lower(key, CONTENT_LENGTH@);
                match scan_line(st, line) {
                    Err(e) => {},
                    Ok(next) => {
                        lemma_scans_agree(ls, i + 1, next);
                    },
                }
            },
        }
    }
}

/// Where the capture scan of the header lines accepts them, the framing
/// scan accepts them too, with the same `Content-Length`.
proof fn lemma_capture_scan_implies_length_scan(ls: Seq<Seq<u8>>, i: int, st: HeaderScan)
    requires
        1 <= i,
        scan_headers(ls, i, st) is Ok,
    ensures
        length_scan(ls, i, st.content_length) == Ok::<Option<nat>, CaptureError>(
            scan_headers(ls, i, st)->Ok_0.content_length,
        ),
    decreases ls.len() - i,
{
    if i < ls.len() {
        lemma_header_names_lower_case();
        let line = ls[i];
        let (key, raw) = split_once(line, COLON)->0;
        lemma_eq_ignore_case_lower(key, TRANSFER_ENCODING@);
        lemma_eq_ignore_case_lower(key, CONTENT_LENGTH@);
        let next = scan_line(st, line)->Ok_0;
        lemma_capture_scan_implies_length_scan(ls, i + 1, next);
    }
}

/// Every request that the capture parser accepts is also a complete, framed
/// request to the reader: reading it from a stream stops exactly at its end.
pub proof fn law_parsed_request_is_framed(raw: Seq<u8>, max_body: nat)
    requires
        spec_parse_request(raw, max_body) is Ok,
    ensures
        is_framed_request(raw, max_body),
{
    let split = find_terminator(raw)->Some_0;
    lemma_find_terminator_from_bounds(raw, 0);
    let ls = crate::text::lines(raw.subrange(0, split));
    lemma_capture_scan_implies_length_scan(ls, 1, crate::request::empty_scan());
}

/// A request that reading accepted as framed is never refused by the capture
/// parser for its framing: not for its terminator, encoding,
/// `Content-Length` or body; only for the size or content of its head.
pub proof fn law_framed_request_passes_body_checks(v: Seq<u8>, max_body: nat)
    requires
        is_framed_request(v, max_body),
    ensures
        spec_parse_request(v, max_body) matches Err(e) ==> is_head_content_error(e),
{
    let h = find_terminator(v)->Some_0;
    lemma_find_terminator_from_bounds(v, 0);
    let head = v.subrange(0, h);
    let ls = crate::text::lines(head);
    if ls.len() > 0 {
        let empty = crate::request::empty_scan();
        lemma_scans_agree(ls, 1, empty);
    }
}

proof fn lemma_capture_id_bytes_injective(t1: nat, s1: nat, t2: nat, s2: nat)
    requires
        capture_id_bytes(t1, s1) == capture_id_bytes(t2, s2),
    ensures
        t1 == t2,
        s1 == s2,
{
    lemma_decimal_bytes(t1);
    lemma_decimal_bytes(s1);
    lemma_decimal_bytes(t2);
    lemma_decimal_bytes(s2);
    let a = decimal_bytes(t1);
    let b = decimal_bytes(s1);
    let c = decimal_bytes(t2);
    let d = decimal_bytes(s2);
    let x = capture_id_bytes(t1, s1);
    let y = capture_id_bytes(t2, s2);
    if a.len() < c.len() {
        assert(x[8 + a.len() as int] == 45);
        assert(y[8 + a.len() as int] == c[a.len() as int]);
        assert(is_digit(c[a.len() as int]));
        assert(false);
    }
    if c.len() < a.len() {
        assert(y[8 + c.len() as int] == 45);
        assert(x[8 + c.len() as int] == a[c.len() as int]);
        assert(is_digit(a[c.len() as int]));
        assert(false);
    }
    assert forall|k: int| 0 <= k < a.len() implies a[k] == c[k] by {
        assert(x[8 + k] == a[k]);
        assert(y[8 + k] == c[k]);
    }
    assert(a =~= c);
    assert(crate::capture::CAPTURE_PREFIX@.len() == 8);
    assert(x.len() == 9 + a.len() + b.len());
    assert(y.len() == 9 + c.len() + d.len());
    assert(b.len() == d.len());
    assert forall|k: int| 0 <= k < b.len() implies b[k] == d[k] by {
        assert(x[9 + a.len() + k] == b[k]);
        assert(y[9 + c.len() + k] == d[k]);
    }
    assert(b =~= d);
}

/// Requests without a delivery ID are never deduplicated: two different
/// (timestamp, sequence number) pairs always give different generated IDs.
pub proof fn law_generated_ids_distinct(t1: nat, s1: nat, t2: nat, s2: nat)
    requires
        t1 != t2 || s1 != s2,
    ensures
        decode_utf8(capture_id_bytes(t1, s1)) != decode_utf8(capture_id_bytes(t2, s2)),
{
    lemma_capture_id_ascii(t1, s1);
    lemma_capture_id_ascii(t2, s2);
    crate::unicode::lemma_ascii_valid(capture_id_bytes(t1, s1));
    crate::unicode::lemma_ascii_valid(capture_id_bytes(t2, s2));
    decode_utf8_encode_utf8(capture_id_bytes(t1, s1));
    decode_utf8_encode_utf8(capture_id_bytes(t2, s2));
    if decode_utf8(capture_id_bytes(t1, s1)) == decode_utf8(capture_id_bytes(t2, s2)) {
        lemma_capture_id_bytes_injective(t1, s1, t2, s2);
    }
}

/// One sequence never hands out the same ID twice within `2^64` uses: the
/// `i`-th and `j`-th numbers taken after `start` differ, and so do the IDs
/// generated from them, whatever the clock read at each.
pub proof fn law_sequence_gives_distinct_ids(start: nat, i: nat, j: nat, t1: nat, t2: nat)
    requires
        start < sequence_modulus(),
        i < j < sequence_modulus(),
    ensures
        (start + i) % sequence_modulus() != (start + j) % sequence_modulus(),
        decode_utf8(capture_id_bytes(t1, (start + i) % sequence_modulus())) != decode_utf8(
            capture_id_bytes(t2, (start + j) % sequence_modulus()),
        ),
{
    let m = sequence_modulus();
    let a = start + i;
    let b = start + j;
    assert(a % m != b % m) by (nonlinear_arith)
        requires
            0 < b - a < m,
            m > 0,
    {
        if a % m == b % m {
            assert(a == (a / m) * m + a % m);
            assert(b == (b / m) * m + b % m);
            assert(b - a == (b / m - a / m) * m);
            if b / m - a / m >= 1 {
                assert((b / m - a / m) * m >= m);
            } else {
                assert((b / m - a / m) * m <= 0);
            }
        }
    }
    law_generated_ids_distinct(t1, a % m, t2, b % m);
}

/// A delivery ID accepted by validation names a plain file inside the
/// capture directory: it holds no `/`, `\` or `.`, so it is neither a path
/// nor `.` or `..`.
pub proof fn law_delivery_id_is_plain_file_name(id: Seq<u8>)
    requires
        is_delivery_id(id),
    ensures
        id.len() > 0,
        forall|k: int| 0 <= k < id.len() ==> id[k] != 47 && id[k] != 92 && id[k] != 46,
{
}

proof fn lemma_scan_keeps_delivery_id_valid(ls: Seq<Seq<u8>>, i: int, st: HeaderScan)
    requires
        st.delivery_id matches Some(d) ==> is_delivery_id(d),
    ensures
        scan_headers(ls, i, st) matches Ok(f) ==> (f.delivery_id matches Some(d) ==> is_delivery_id(
            d,
        )),
    decreases ls.len() - i,
{
    if 0 <= i < ls.len() {
        match scan_line(st, ls[i]) {
            Err(e) => {},
            Ok(next) => {
                lemma_scan_keeps_delivery_id_valid(ls, i + 1, next);
            },
        }
    }
}

/// The delivery ID of every parsed request is one that validation accepts.
pub proof fn law_parsed_delivery_id_is_valid(raw: Seq<u8>, max_body: nat)
    ensures
        spec_parse_request(raw, max_body) matches Ok(m) ==> (m.delivery_id matches Some(d)
            ==> is_delivery_id(d)),
{
    match find_terminator(raw) {
        None => {},
        Some(split) => {
            let ls = crate::text::lines(raw.subrange(0, split));
            lemma_scan_keeps_delivery_id_valid(ls, 1, crate::request::empty_scan());
        },
    }
}

/// Ten to the power `k`.
pub open spec fn pow10(k: nat) -> nat
    decreases k,
{
    if k == 0 {
        1
    } else {
        10 * pow10((k - 1) as nat)
    }
}

proof fn lemma_decimal_len(n: nat, k: nat)
    requires
        1 <= k,
        n < pow10(k),
    ensures
        decimal_bytes(n).len() <= k,
    decreases n,
{
    if n >= 10 {
        let p = pow10((k - 1) as nat);
        assert(pow10(k) == 10 * p);
        if k == 1 {
            assert(p == 1);
        }
        assert(n / 10 < p) by (nonlinear_arith)
            requires
                n < 10 * p,
        ;
        lemma_decimal_len(n / 10, (k - 1) as nat);
    }
}

/// The IDs generated for requests without a delivery ID are themselves IDs
/// that validation accepts, so they too name plain files.
pub proof fn law_generated_id_is_delivery_id(timestamp: u128, sequence: u64)
    ensures
        is_delivery_id(capture_id_bytes(timestamp as nat, sequence as nat)),
{
    reveal_with_fuel(pow10, 40);
    assert(pow10(39) == 1000000000000000000000000000000000000000nat);
    assert(pow10(20) == 100000000000000000000nat);
    lemma_decimal_len(timestamp as nat, 39);
    lemma_decimal_len(sequence as nat, 20);
    lemma_capture_id_ascii(timestamp as nat, sequence as nat);
    assert(crate::capture::CAPTURE_PREFIX@.len() == 8);
}

/// The steps that storing takes from `state` when the outside steps report
/// `events` in turn.
pub open spec fn store_run(state: StoreState, events: Seq<StoreEvent>) -> Seq<StoreAction>
    decreases events.len(),
{
    if events.len() == 0 {
        seq![]
    } else {
        let (next, action) = store_transition(state, events[0]);
        seq![action] + store_run(next, events.subrange(1, events.len() as int))
    }
}

/// A step that writes to the capture directory.
pub open spec fn is_write(action: StoreAction) -> bool {
    action is WriteBody || action is WriteMetadata || action is RemoveBody
}

proof fn lemma_finished_only_aborts(events: Seq<StoreEvent>)
    ensures
        forall|k: int|
            0 <= k < store_run(StoreState::Finished, events).len() ==> #[trigger] store_run(
                StoreState::Finished,
                events,
            )[k] == StoreAction::Abort,
        store_run(StoreState::Finished, events).len() == events.len(),
    decreases events.len(),
{
    if events.len() > 0 {
        let rest = events.subrange(1, events.len() as int);
        lemma_finished_only_aborts(rest);
        let run = store_run(StoreState::Finished, events);
        assert forall|k: int| 0 <= k < run.len() implies #[trigger] run[k] == StoreAction::Abort by {
            if k > 0 {
                assert(run[k] == store_run(StoreState::Finished, rest)[k - 1]);
            }
        }
    }
}

/// A delivery whose two files both exist is never written again: once the
/// check reports both files, no later step writes or removes a file,
/// whatever the outside steps report.
pub proof fn law_complete_capture_never_rewritten(events: Seq<StoreEvent>)
    ensures
        forall|k: int|
            0 <= k < store_run(
                StoreState::AwaitExistence,
                seq![StoreEvent::Existence { metadata: true, body: true }] + events,
            ).len() ==> !is_write(
                #[trigger] store_run(
                    StoreState::AwaitExistence,
                    seq![StoreEvent::Existence { metadata: true, body: true }] + events,
                )[k],
            ),
{
    let all = seq![StoreEvent::Existence { metadata: true, body: true }] + events;
    assert(all.subrange(1, all.len() as int) =~= events);
    let run = store_run(StoreState::AwaitExistence, all);
    let after = store_run(StoreState::AwaitRegularFiles, events);
    assert(run == seq![StoreAction::ConfirmRegularFiles] + after);
    if events.len() > 0 {
        let rest = events.subrange(1, events.len() as int);
        lemma_finished_only_aborts(rest);
        let first = store_transition(StoreState::AwaitRegularFiles, events[0]).1;
        assert(after == seq![first] + store_run(StoreState::Finished, rest));
        assert forall|k: int| 0 <= k < run.len() implies !is_write(#[trigger] run[k]) by {
            if k > 1 {
                assert(run[k] == after[k - 1]);
                assert(after[k - 1] == store_run(StoreState::Finished, rest)[k - 2]);
            } else if k == 1 {
                assert(run[k] == after[0]);
            }
        }
    } else {
        assert(after == Seq::<StoreAction>::empty());
        assert forall|k: int| 0 <= k < run.len() implies !is_write(#[trigger] run[k]) by {
            assert(k == 0);
        }
    }
}

/// Storing writes only for a delivery with neither file present, writes the
/// body before the metadata, removes the body only when the metadata could
/// not be written, and refuses a delivery with only one of its two files.
pub proof fn law_store_writes_only_new_deliveries(state: StoreState, event: StoreEvent)
    ensures
        store_transition(state, event).1 is WriteBody ==> state == StoreState::AwaitExistence
            && event == (StoreEvent::Existence { metadata: false, body: false }),
        store_transition(state, event).1 is WriteMetadata ==> state == StoreState::AwaitBody
            && event == StoreEvent::BodyStored,
        store_transition(state, event).1 is RemoveBody ==> state == StoreState::AwaitMetadata
            && event == StoreEvent::MetadataFailed,
        event matches StoreEvent::Existence { metadata, body } ==> (state
            == StoreState::AwaitExistence && metadata != body ==> store_transition(state, event)
            == (StoreState::Finished, StoreAction::Refuse(CaptureError::IncompleteCapture))),
{
}

proof fn lemma_head_limit_prefix(p: Seq<u8>, s: Seq<u8>)
    requires
        p.len() <= s.len(),
        s.subrange(0, p.len() as int) == p,
        head_within_limit(s),
    ensures
        head_within_limit(p),
{
    if find_terminator(p) is Some {
        let rest = s.subrange(p.len() as int, s.len() as int);
        assert(s =~= p + rest);
        lemma_find_terminator_extend(p, rest, 0);
    }
}

proof fn lemma_run_follows_stream(received: Seq<u8>, reads: Seq<Seq<u8>>, max_body: nat)
    requires
        frame_status(received, max_body) == Ok::<Option<int>, CaptureError>(None),
        forall|i: int| 0 <= i < reads.len() ==> (#[trigger] reads[i]).len() > 0,
        head_within_limit(received + concat_chunks(reads)),
    ensures
        run_reads(received, reads, max_body) == stream_outcome(
            received + concat_chunks(reads),
            max_body,
        ),
    decreases reads.len(),
{
    let s = received + concat_chunks(reads);
    if reads.len() == 0 {
        assert(s =~= received);
    } else {
        let all = received + reads[0];
        let rest = reads.drop_first();
        assert(s =~= all + concat_chunks(rest));
        lemma_find_terminator_from_bounds(all, 0);
        lemma_find_terminator_from_bounds(s, 0);
        match frame_status(all, max_body) {
            Ok(None) => {
                lemma_run_follows_stream(all, rest, max_body);
            },
            _ => {
                if find_terminator(all) is Some {
                    lemma_find_terminator_extend(all, concat_chunks(rest), 0);
                    let h = find_terminator(all)->Some_0;
                    assert(s.subrange(0, h) =~= all.subrange(0, h));
                    if frame_status(all, max_body) is Ok {
                        let t = frame_status(all, max_body)->Ok_0->Some_0;
                        assert(s.subrange(0, t) =~= all.subrange(0, t));
                    }
                } else if find_terminator(s) is Some {
                    lemma_find_terminator_prefix(s, 0, all.len() as int);
                    assert(s.subrange(0, all.len() as int) =~= all);
                }
            },
        }
    }
}

/// How a stream is cut into reads never changes what reading it gives: for
/// non-empty reads whose bytes have their head (if any) within the limit,
/// the outcome is the stream's own, [`stream_outcome`].
pub proof fn law_reads_follow_the_stream(reads: Seq<Seq<u8>>, max_body: nat)
    requires
        forall|i: int| 0 <= i < reads.len() ==> (#[trigger] reads[i]).len() > 0,
        head_within_limit(concat_chunks(reads)),
    ensures
        run_reads(seq![], reads, max_body) == stream_outcome(concat_chunks(reads), max_body),
{
    let e: Seq<u8> = seq![];
    assert(e + concat_chunks(reads) =~= concat_chunks(reads));
    assert(find_terminator(e) is None);
    lemma_run_follows_stream(e, reads, max_body);
}

/// An outcome that a prefix of a stream settles (a request, or a refusal that
/// is not for the stream ending) stays the outcome of the whole stream.
pub proof fn law_settled_outcome_extends(p: Seq<u8>, s: Seq<u8>, max_body: nat)
    requires
        p.len() <= s.len(),
        s.subrange(0, p.len() as int) == p,
        head_within_limit(s),
        stream_outcome(p, max_body) != Err::<Seq<u8>, CaptureError>(
            CaptureError::MissingHeaderTerminator,
        ),
        stream_outcome(p, max_body) != Err::<Seq<u8>, CaptureError>(CaptureError::BodyEndedEarly),
    ensures
        stream_outcome(s, max_body) == stream_outcome(p, max_body),
{
    let rest = s.subrange(p.len() as int, s.len() as int);
    assert(s =~= p + rest);
    lemma_find_terminator_from_bounds(p, 0);
    lemma_find_terminator_from_bounds(s, 0);
    if find_terminator(p) is Some {
        lemma_find_terminator_extend(p, rest, 0);
        let h = find_terminator(p)->Some_0;
        assert(s.subrange(0, h) =~= p.subrange(0, h));
        if stream_outcome(p, max_body) is Ok {
            match framed_length(p.subrange(0, h), max_body) {
                Ok(t) => {
                    assert(s.subrange(0, t) =~= p.subrange(0, t));
                },
                Err(_) => {},
            }
        }
    } else if find_terminator(s) is Some {
        lemma_find_terminator_prefix(s, 0, p.len() as int);
    }
}

/// Two readers that deliver the same stream `s` (the stream then ending), cut
/// into reads in any two ways, give the same outcome, the stream's own: each
/// either read all of `s`, or stopped at a decision that `s` keeps.
pub proof fn law_read_outcome_depends_on_stream_only(
    reads1: Seq<Seq<u8>>,
    reads2: Seq<Seq<u8>>,
    s: Seq<u8>,
    max_body: nat,
)
    requires
        head_within_limit(s),
        forall|i: int| 0 <= i < reads1.len() ==> (#[trigger] reads1[i]).len() > 0,
        forall|i: int| 0 <= i < reads2.len() ==> (#[trigger] reads2[i]).len() > 0,
        concat_chunks(reads1).len() <= s.len(),
        s.subrange(0, concat_chunks(reads1).len() as int) == concat_chunks(reads1),
        concat_chunks(reads2).len() <= s.len(),
        s.subrange(0, concat_chunks(reads2).len() as int) == concat_chunks(reads2),
        concat_chunks(reads1) == s || (run_reads(seq![], reads1, max_body) != Err::<
            Seq<u8>,
            CaptureError,
        >(CaptureError::MissingHeaderTerminator) && run_reads(seq![], reads1, max_body) != Err::<
            Seq<u8>,
            CaptureError,
        >(CaptureError::BodyEndedEarly)),
        concat_chunks(reads2) == s || (run_reads(seq![], reads2, max_body) != Err::<
            Seq<u8>,
            CaptureError,
        >(CaptureError::MissingHeaderTerminator) && run_reads(seq![], reads2, max_body) != Err::<
            Seq<u8>,
            CaptureError,
        >(CaptureError::BodyEndedEarly)),
    ensures
        run_reads(seq![], reads1, max_body) == stream_outcome(s, max_body),
        run_reads(seq![], reads2, max_body) == stream_outcome(s, max_body),
{
    lemma_head_limit_prefix(concat_chunks(reads1), s);
    lemma_head_limit_prefix(concat_chunks(reads2), s);
    law_reads_follow_the_stream(reads1, max_body);
    law_reads_follow_the_stream(reads2, max_body);
    if concat_chunks(reads1) != s {
        law_settled_outcome_extends(concat_chunks(reads1), s, max_body);
    }
    if concat_chunks(reads2) != s {
        law_settled_outcome_extends(concat_chunks(reads2), s, max_body);
    }
}

/// A delivery ID is accepted exactly when it is 1 to 128 bytes long and
/// every byte is an ASCII digit, letter, `-` or `_`; where a byte stands,
/// the first included, does not matter.
pub proof fn law_delivery_id_accepted_exactly(id: Seq<u8>)
    ensures
        is_delivery_id(id) <==> (1 <= id.len() <= 128 && forall|i: int|
            0 <= i < id.len() ==> ((48 <= #[trigger] id[i] <= 57) || (65 <= id[i] <= 90) || (97
                <= id[i] <= 122) || id[i] == 45 || id[i] == 95)),
{
}

/// A first `X-Delivery-ID` or `X-GitHub-Delivery` header records its value
/// as the delivery ID exactly when the value is 1 to 128 ASCII digits,
/// letters, `-` or `_`, and is refused as an invalid delivery ID otherwise.
pub proof fn law_delivery_header_recorded(value: Seq<u8>)
    ensures
        ({
            let ok = 1 <= value.len() <= 128 && forall|i: int|
                0 <= i < value.len() ==> ((48 <= #[trigger] value[i] <= 57) || (65 <= value[i] <= 90)
                    || (97 <= value[i] <= 122) || value[i] == 45 || value[i] == 95);
            &&& scan_delivery_id(None, X_DELIVERY_ID@, value) == (if ok {
                Ok::<Option<Seq<u8>>, CaptureError>(Some(value))
            } else {
                Err(CaptureError::InvalidDeliveryId)
            })
            &&& scan_delivery_id(None, X_GITHUB_DELIVERY@, value) == (if ok {
                Ok::<Option<Seq<u8>>, CaptureError>(Some(value))
            } else {
                Err(CaptureError::InvalidDeliveryId)
            })
        }),
{
    law_delivery_id_accepted_exactly(value);
}

/// A header name is accepted exactly when it is one or more ASCII digits,
/// letters or `-`.
pub proof fn law_header_name_accepted_exactly(key: Seq<u8>)
    ensures
        is_header_name(key) <==> (key.len() >= 1 && forall|i: int|
            0 <= i < key.len() ==> ((48 <= #[trigger] key[i] <= 57) || (65 <= key[i] <= 90) || (97
                <= key[i] <= 122) || key[i] == 45)),
{
}

/// A header line is refused for its name exactly when it holds a `:` and the
/// bytes before its first `:` are not one or more ASCII digits, letters or
/// `-`; a name such as `X-Hub-Signature-256` is never refused.
pub proof fn law_header_name_refusal(st: HeaderScan, line: Seq<u8>)
    ensures
        scan_line(st, line) == Err::<HeaderScan, CaptureError>(CaptureError::InvalidHeaderName) <==> (
        split_once(line, 58) matches Some((key, _)) && !(key.len() >= 1 && forall|i: int|
            0 <= i < key.len() ==> ((48 <= #[trigger] key[i] <= 57) || (65 <= key[i] <= 90) || (97
                <= key[i] <= 122) || key[i] == 45))),
{
    if let Some((key, _)) = split_once(line, 58) {
        law_header_name_accepted_exactly(key);
    }
}

/// `n` zero bytes (`0` digits).
pub open spec fn zeros(n: nat) -> Seq<u8> {
    Seq::new(n, |i: int| 48u8)
}

proof fn lemma_digits_value_zero_prefix(z: nat, d: Seq<u8>)
    ensures
        crate::text::digits_value(zeros(z) + d) == crate::text::digits_value(d),
    decreases d.len(), z,
{
    if d.len() == 0 {
        assert(zeros(z) + d =~= zeros(z));
        if z > 0 {
            assert(zeros(z).drop_last() =~= zeros((z - 1) as nat));
            lemma_digits_value_zero_prefix((z - 1) as nat, d);
            assert(zeros((z - 1) as nat) + d =~= zeros((z - 1) as nat));
        }
    } else {
        assert((zeros(z) + d).drop_last() =~= zeros(z) + d.drop_last());
        lemma_digits_value_zero_prefix(z, d.drop_last());
    }
}

proof fn lemma_zeros_decimal_digits(z: nat, n: nat)
    ensures
        (zeros(z) + decimal_bytes(n)).len() > 0,
        crate::text::all_digits(zeros(z) + decimal_bytes(n)),
        crate::text::digits_value(zeros(z) + decimal_bytes(n)) == n,
{
    lemma_decimal_bytes(n);
    lemma_digits_value_zero_prefix(z, decimal_bytes(n));
    let s = zeros(z) + decimal_bytes(n);
    assert forall|i: int| 0 <= i < s.len() implies is_digit(s[i]) by {
        if i >= z {
            assert(s[i] == decimal_bytes(n)[i - z]);
        }
    }
}

/// Reading a length: any number of leading `0` digits, then the decimal
/// digits of `n` as they are written, optionally after one `+`, give `n`
/// when it fits in a `usize` and nothing otherwise. This covers `0` itself
/// and every digit string.
pub proof fn law_usize_reads_decimal(n: nat, z: nat)
    ensures
        parse_usize(zeros(z) + decimal_bytes(n)) == (if n <= usize::MAX {
            Some(n)
        } else {
            None
        }),
        parse_usize(seq![43u8] + zeros(z) + decimal_bytes(n)) == (if n <= usize::MAX {
            Some(n)
        } else {
            None
        }),
{
    lemma_zeros_decimal_digits(z, n);
    let s = zeros(z) + decimal_bytes(n);
    lemma_decimal_bytes(n);
    assert(s[s.len() - 1] == decimal_bytes(n)[decimal_bytes(n).len() - 1]);
    if z > 0 {
        assert(s[0] == 48);
    } else {
        assert(s[0] == decimal_bytes(n)[0]);
        assert(is_digit(decimal_bytes(n)[0]));
    }
    let p = seq![43u8] + s;
    assert(p.subrange(1, p.len() as int) =~= s);
    assert(seq![43u8] + zeros(z) + decimal_bytes(n) =~= p);
}

/// A length with a byte that is not a decimal digit (other than one leading
/// `+`) is refused, and so is an empty one.
pub proof fn law_usize_refuses_non_digits(s: Seq<u8>, i: int)
    requires
        0 <= i < s.len(),
        !(48 <= s[i] <= 57),
        !(i == 0 && s[0] == 43),
    ensures
        parse_usize(s) is None,
        parse_usize(seq![]) is None,
        parse_usize(seq![43u8]) is None,
{
    let d = crate::text::unsigned_digits(s);
    if s[0] == 43 {
        assert(d[i - 1] == s[i]);
    } else {
        assert(d[i] == s[i]);
    }
    assert(seq![43u8].subrange(1, 1) =~= Seq::<u8>::empty());
}

proof fn lemma_scan_never_head_size(ls: Seq<Seq<u8>>, i: int, st: HeaderScan)
    ensures
        scan_headers(ls, i, st) != Err::<HeaderScan, CaptureError>(CaptureError::HeadersTooLarge),
    decreases ls.len() - i,
{
    if 0 <= i < ls.len() {
        if let Ok(next) = scan_line(st, ls[i]) {
            lemma_scan_never_head_size(ls, i + 1, next);
        }
    }
}

/// The 16 KiB limit is on the head alone: a request is refused as too large
/// exactly when the bytes before its first `\r\n\r\n` number more than 16384,
/// whatever the length of its body.
pub proof fn law_head_limit_counts_the_head_only(raw: Seq<u8>, max_body: nat)
    ensures
        spec_parse_request(raw, max_body) == Err::<crate::request::RequestModel, CaptureError>(
            CaptureError::HeadersTooLarge,
        ) <==> (find_terminator(raw) matches Some(h) && h > 16384),
{
    if let Some(split) = find_terminator(raw) {
        let ls = crate::text::lines(raw.subrange(0, split));
        lemma_scan_never_head_size(ls, 1, crate::request::empty_scan());
    }
}

/// However a complete request (head within the limit, body of exactly its
/// `Content-Length`) is cut into reads, reading it and then meeting the end
/// of the stream gives exactly its bytes.
pub proof fn law_complete_request_read_whole(reads: Seq<Seq<u8>>, max_body: nat)
    requires
        forall|i: int| 0 <= i < reads.len() ==> (#[trigger] reads[i]).len() > 0,
        is_framed_request(concat_chunks(reads), max_body),
        find_terminator(concat_chunks(reads)) matches Some(h) && h <= 16384,
    ensures
        run_reads(seq![], reads, max_body) == Ok::<Seq<u8>, CaptureError>(concat_chunks(reads)),
{
    let s = concat_chunks(reads);
    law_reads_follow_the_stream(reads, max_body);
    assert(s.subrange(0, s.len() as int) =~= s);
}

} // verus!
