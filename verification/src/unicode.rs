//! UTF-8 facts about the pieces the HTTP head parser cuts out of valid text,
//! and the conversion of such pieces into `String`s.
use vstd::prelude::*;
use vstd::utf8::{
    decode_utf8, is_char_boundary_iff_not_is_continuation_byte, valid_utf8, valid_utf8_split,
};
use crate::text::{
    find_byte_from, is_ascii_ws, lemma_find_byte_from_bounds, lemma_token_end_bounds, lines,
    lines_from, strip_cr, token_end, tokens, tokens_from, trim, trim_end, trim_start,
    ws_prefix_len, ws_suffix_len, CARRIAGE_RETURN, NEWLINE,
};

verus! {

/// `std::str::from_utf8`: the call succeeds exactly on valid UTF-8, and then
/// the text it returns is the decoding of the bytes.
#[verifier::external_body]
pub(crate) fn str_from_utf8(bytes: &[u8]) -> (r: Option<&str>)
    ensures
        r is Some <==> valid_utf8(bytes@),
        r matches Some(t) ==> t@ == decode_utf8(bytes@),
{
    std::str::from_utf8(bytes).ok()
}

/// Tells whether `bytes` are valid UTF-8.
pub fn is_valid_utf8(bytes: &[u8]) -> (r: bool)
    ensures
        r == valid_utf8(bytes@),
{
    str_from_utf8(bytes).is_some()
}

/// The text that valid UTF-8 `bytes` encode.
pub fn utf8_to_string(bytes: &[u8]) -> (r: String)
    requires
        valid_utf8(bytes@),
    ensures
        r@ == decode_utf8(bytes@),
{
    match str_from_utf8(bytes) {
        Some(t) => t.to_owned(),
        None => String::new(),
    }
}

/// A piece of valid UTF-8 that starts just after an ASCII byte (or at the
/// start) and ends just before an ASCII byte (or at the end) is valid UTF-8.
pub proof fn lemma_valid_between(s: Seq<u8>, i: int, j: int)
    requires
        valid_utf8(s),
        0 <= i <= j <= s.len(),
        i == 0 || s[i - 1] < 0x80,
        j == s.len() || s[j] < 0x80,
    ensures
        valid_utf8(s.subrange(i, j)),
{
    let n = s.len() as int;
    if i > 0 {
        is_char_boundary_iff_not_is_continuation_byte(s, i - 1);
        valid_utf8_split(s, i - 1);
        let u = s.subrange(i - 1, n);
        assert(u[0] == s[i - 1]);
        assert(u.subrange(1, u.len() as int) =~= s.subrange(i, n));
    } else {
        assert(s.subrange(0, n) =~= s);
    }
    let t = s.subrange(i, n);
    assert(valid_utf8(t));
    if j < n {
        assert(t[j - i] == s[j]);
        is_char_boundary_iff_not_is_continuation_byte(t, j - i);
        valid_utf8_split(t, j - i);
        assert(t.subrange(0, j - i) =~= s.subrange(i, j));
    } else {
        assert(t =~= s.subrange(i, j));
    }
}

/// Bytes below 0x80 are valid UTF-8.
pub proof fn lemma_ascii_valid(s: Seq<u8>)
    requires
        forall|k: int| 0 <= k < s.len() ==> s[k] < 0x80,
    ensures
        valid_utf8(s),
    decreases s.len(),
{
    if s.len() > 0 {
        let t = s.subrange(1, s.len() as int);
        lemma_ascii_valid(t);
        let b = s[0];
        assert((b & 0x7F) as u32 == b as u32) by (bit_vector)
            requires
                b < 0x80,
        ;
    }
}

/// Bytes below 0x80 decode to the characters with the same numbers.
pub proof fn lemma_ascii_decode(s: Seq<u8>)
    requires
        forall|k: int| 0 <= k < s.len() ==> s[k] < 0x80,
    ensures
        decode_utf8(s) == s.map_values(|b: u8| b as char),
    decreases s.len(),
{
    lemma_ascii_valid(s);
    if s.len() > 0 {
        let t = s.subrange(1, s.len() as int);
        lemma_ascii_decode(t);
        let b = s[0];
        assert((b & 0x7F) as u32 == b as u32) by (bit_vector)
            requires
                b < 0x80,
        ;
        assert(decode_utf8(s) =~= s.map_values(|b: u8| b as char));
    } else {
        assert(decode_utf8(s) =~= s.map_values(|b: u8| b as char));
    }
}

pub proof fn lemma_lines_from_valid(s: Seq<u8>, pos: int)
    requires
        valid_utf8(s),
        0 <= pos,
        pos == 0 || (pos <= s.len() && s[pos - 1] == NEWLINE),
    ensures
        forall|k: int| 0 <= k < lines_from(s, pos).len() ==> valid_utf8(#[trigger] lines_from(s, pos)[k]),
    decreases s.len() - pos,
{
    let n = s.len() as int;
    if pos >= n {
    } else {
        lemma_find_byte_from_bounds(s, NEWLINE, pos);
        match find_byte_from(s, NEWLINE, pos) {
            None => {
                lemma_valid_between(s, pos, n);
            },
            Some(i) => {
                let raw = s.subrange(pos, i);
                if raw.len() > 0 && raw.last() == CARRIAGE_RETURN {
                    lemma_valid_between(s, pos, i - 1);
                    assert(raw.drop_last() =~= s.subrange(pos, i - 1));
                } else {
                    lemma_valid_between(s, pos, i);
                }
                lemma_lines_from_valid(s, i + 1);
                let rest = lines_from(s, i + 1);
                let all = lines_from(s, pos);
                assert(all == seq![strip_cr(raw)] + rest);
                assert forall|k: int| 0 <= k < all.len() implies valid_utf8(#[trigger] all[k]) by {
                    if k > 0 {
                        assert(all[k] == rest[k - 1]);
                    }
                }
            },
        }
    }
}

/// Every line of valid UTF-8 text is valid UTF-8.
pub proof fn lemma_lines_valid(s: Seq<u8>)
    requires
        valid_utf8(s),
    ensures
        forall|k: int| 0 <= k < lines(s).len() ==> valid_utf8(#[trigger] lines(s)[k]),
{
    lemma_lines_from_valid(s, 0);
}

pub proof fn lemma_tokens_from_valid(s: Seq<u8>, pos: int)
    requires
        valid_utf8(s),
        0 <= pos,
        pos == 0 || pos >= s.len() || s[pos - 1] < 0x80 || is_ascii_ws(s[pos]),
    ensures
        forall|k: int|
            0 <= k < tokens_from(s, pos).len() ==> valid_utf8(#[trigger] tokens_from(s, pos)[k]),
    decreases s.len() - pos,
{
    let n = s.len() as int;
    if pos >= n {
    } else if is_ascii_ws(s[pos]) {
        lemma_tokens_from_valid(s, pos + 1);
        assert(tokens_from(s, pos) == tokens_from(s, pos + 1));
    } else {
        lemma_token_end_bounds(s, pos + 1);
        let e = token_end(s, pos + 1);
        lemma_valid_between(s, pos, e);
        lemma_tokens_from_valid(s, e);
        let rest = tokens_from(s, e);
        let all = tokens_from(s, pos);
        assert(all == seq![s.subrange(pos, e)] + rest);
        assert forall|k: int| 0 <= k < all.len() implies valid_utf8(#[trigger] all[k]) by {
            if k > 0 {
                assert(all[k] == rest[k - 1]);
            }
        }
    }
}

/// Every whitespace-separated token of valid UTF-8 text is valid UTF-8.
pub proof fn lemma_tokens_valid(s: Seq<u8>)
    requires
        valid_utf8(s),
    ensures
        forall|k: int| 0 <= k < tokens(s).len() ==> valid_utf8(#[trigger] tokens(s)[k]),
{
    lemma_tokens_from_valid(s, 0);
}

/// Removing leading whitespace from valid UTF-8 leaves valid UTF-8.
pub proof fn lemma_trim_start_valid(s: Seq<u8>)
    requires
        valid_utf8(s),
    ensures
        valid_utf8(trim_start(s)),
    decreases s.len(),
{
    let k = ws_prefix_len(s);
    if k > 0 {
        assert(valid_utf8(s.subrange(k, s.len() as int)));
        lemma_trim_start_valid(s.subrange(k, s.len() as int));
    }
}

/// Removing trailing whitespace from valid UTF-8 leaves valid UTF-8.
pub proof fn lemma_trim_end_valid(s: Seq<u8>)
    requires
        valid_utf8(s),
    ensures
        valid_utf8(trim_end(s)),
    decreases s.len(),
{
    let k = ws_suffix_len(s);
    let n = s.len() as int;
    if k > 0 {
        is_char_boundary_iff_not_is_continuation_byte(s, n - k);
        valid_utf8_split(s, n - k);
        lemma_trim_end_valid(s.subrange(0, n - k));
    }
}

/// Trimming valid UTF-8 leaves valid UTF-8.
pub proof fn lemma_trim_valid(s: Seq<u8>)
    requires
        valid_utf8(s),
    ensures
        valid_utf8(trim(s)),
{
    lemma_trim_start_valid(s);
    lemma_trim_end_valid(trim_start(s));
}

} // verus!
