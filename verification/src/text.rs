//! Byte-level text primitives used by the HTTP head parser.
//!
//! Every primitive works on raw bytes and is specified by a spec function of
//! the same shape as the `str` method it corresponds to. Delimiters are ASCII,
//! and ASCII bytes never occur inside a multi-byte UTF-8 sequence, so on valid
//! UTF-8 input these byte-level definitions split the text exactly where the
//! character-level ones do.
use vstd::prelude::*;

verus! {

pub const NEWLINE: u8 = 10;

pub const CARRIAGE_RETURN: u8 = 13;

pub const COLON: u8 = 58;

/* ---------- searching ---------- */

/// Index of the first occurrence of `b` in `s` at or after `i`.
pub open spec fn find_byte_from(s: Seq<u8>, b: u8, i: int) -> Option<int>
    decreases s.len() - i,
{
    if i < 0 || i >= s.len() {
        None
    } else if s[i] == b {
        Some(i)
    } else {
        find_byte_from(s, b, i + 1)
    }
}

/// Index of the first occurrence of `b` in `s`.
pub open spec fn find_byte(s: Seq<u8>, b: u8) -> Option<int> {
    find_byte_from(s, b, 0)
}

pub proof fn lemma_find_byte_from_bounds(s: Seq<u8>, b: u8, i: int)
    ensures
        find_byte_from(s, b, i) matches Some(k) ==> i <= k < s.len() && s[k] == b,
        find_byte_from(s, b, i) matches Some(k) ==> forall|j: int| i <= j < k ==> s[j] != b,
        find_byte_from(s, b, i) is None ==> forall|j: int| 0 <= i <= j < s.len() ==> s[j] != b,
    decreases s.len() - i,
{
    if i < 0 || i >= s.len() {
    } else if s[i] == b {
    } else {
        lemma_find_byte_from_bounds(s, b, i + 1);
    }
}

/// Finds the first occurrence of `b` in `s` at or after `start`.
pub fn find_byte_exec(s: &[u8], b: u8, start: usize) -> (r: Option<usize>)
    ensures
        r matches Some(k) ==> find_byte_from(s@, b, start as int) == Some(k as int),
        r is None ==> find_byte_from(s@, b, start as int) is None,
{
    let mut i = start;
    if i >= s.len() {
        return None;
    }
    while i < s.len()
        invariant
            start <= i <= s@.len(),
            find_byte_from(s@, b, start as int) == find_byte_from(s@, b, i as int),
        decreases s@.len() - i,
    {
        if s[i] == b {
            return Some(i);
        }
        i = i + 1;
    }
    None
}

/// `s` split around its first `b`, as `str::split_once` splits it.
pub open spec fn split_once(s: Seq<u8>, b: u8) -> Option<(Seq<u8>, Seq<u8>)> {
    match find_byte(s, b) {
        None => None,
        Some(i) => Some((s.subrange(0, i), s.subrange(i + 1, s.len() as int))),
    }
}

/// Splits `s` around its first `b`.
pub fn split_once_exec(s: &[u8], b: u8) -> (r: Option<(Vec<u8>, Vec<u8>)>)
    ensures
        r matches Some(p) ==> split_once(s@, b) == Some((p.0@, p.1@)),
        r is None ==> split_once(s@, b) is None,
{
    proof {
        lemma_find_byte_from_bounds(s@, b, 0);
    }
    match find_byte_exec(s, b, 0) {
        None => None,
        Some(i) => {
            assert(i < s@.len());
            assert(i < s.len());
            let before = copy_range(s, 0, i);
            let after = copy_range(s, i + 1, s.len());
            Some((before, after))
        },
    }
}

/* ---------- lines ---------- */

/// A line with one trailing carriage return removed, as `str::lines` does.
pub open spec fn strip_cr(line: Seq<u8>) -> Seq<u8> {
    if line.len() > 0 && line.last() == CARRIAGE_RETURN {
        line.drop_last()
    } else {
        line
    }
}

/// The lines of `s` from byte `pos` on, split as `str::lines` splits them:
/// at each `\n`, with a `\r` just before it removed, and no empty line after
/// a final line ending.
pub open spec fn lines_from(s: Seq<u8>, pos: int) -> Seq<Seq<u8>>
    decreases s.len() - pos,
{
    if pos < 0 || pos >= s.len() {
        seq![]
    } else {
        match find_byte_from(s, NEWLINE, pos) {
            None => seq![s.subrange(pos, s.len() as int)],
            Some(i) => {
                proof {
                    lemma_find_byte_from_bounds(s, NEWLINE, pos);
                }
                seq![strip_cr(s.subrange(pos, i))] + lines_from(s, i + 1)
            },
        }
    }
}

/// The lines of `s`, as `str::lines` yields them.
pub open spec fn lines(s: Seq<u8>) -> Seq<Seq<u8>> {
    lines_from(s, 0)
}

/// Copies `s[i..j]` into a new vector.
pub fn copy_range(s: &[u8], i: usize, j: usize) -> (r: Vec<u8>)
    requires
        i <= j <= s@.len(),
    ensures
        r@ == s@.subrange(i as int, j as int),
{
    let mut r: Vec<u8> = Vec::new();
    let mut k = i;
    while k < j
        invariant
            i <= k <= j <= s@.len(),
            r@ == s@.subrange(i as int, k as int),
        decreases j - k,
    {
        r.push(s[k]);
        k = k + 1;
        assert(r@ =~= s@.subrange(i as int, k as int));
    }
    r
}

/// The byte contents of a sequence of byte vectors.
pub open spec fn views(v: Seq<Vec<u8>>) -> Seq<Seq<u8>> {
    v.map_values(|x: Vec<u8>| x@)
}

/// Splits `s` into lines as `str::lines` does.
pub fn split_lines(s: &[u8]) -> (r: Vec<Vec<u8>>)
    ensures
        views(r@) == lines(s@),
{
    let mut out: Vec<Vec<u8>> = Vec::new();
    let mut pos: usize = 0;
    while pos < s.len()
        invariant
            pos <= s@.len(),
            lines(s@) == views(out@) + lines_from(s@, pos as int),
        decreases s@.len() - pos,
    {
        proof {
            lemma_find_byte_from_bounds(s@, NEWLINE, pos as int);
        }
        match find_byte_exec(s, NEWLINE, pos) {
            None => {
                let line = copy_range(s, pos, s.len());
                let ghost before = views(out@);
                out.push(line);
                assert(views(out@) =~= before.push(line@));
                assert(lines_from(s@, s@.len() as int) =~= Seq::<Seq<u8>>::empty());
                pos = s.len();
            },
            Some(i) => {
                let mut end = i;
                if end > pos && s[end - 1] == CARRIAGE_RETURN {
                    end = end - 1;
                }
                let line = copy_range(s, pos, end);
                assert(line@ =~= strip_cr(s@.subrange(pos as int, i as int)));
                let ghost before = views(out@);
                out.push(line);
                assert(views(out@) =~= before.push(line@));
                pos = i + 1;
            },
        }
    }
    assert(lines_from(s@, pos as int) =~= Seq::<Seq<u8>>::empty());
    assert(views(out@) + Seq::<Seq<u8>>::empty() =~= views(out@));
    out
}

/* ---------- ASCII whitespace tokens ---------- */

/// `u8::is_ascii_whitespace`: space, tab, line feed, form feed, carriage return.
pub open spec fn is_ascii_ws(b: u8) -> bool {
    b == 32 || b == 9 || b == 10 || b == 12 || b == 13
}

/// Index just past the run of non-whitespace bytes that starts at `i`.
pub open spec fn token_end(s: Seq<u8>, i: int) -> int
    decreases s.len() - i,
{
    if i < 0 || i >= s.len() {
        s.len() as int
    } else if is_ascii_ws(s[i]) {
        i
    } else {
        token_end(s, i + 1)
    }
}

pub proof fn lemma_token_end_bounds(s: Seq<u8>, i: int)
    requires
        0 <= i,
    ensures
        i <= token_end(s, i) || i > s.len(),
        token_end(s, i) <= s.len(),
        forall|j: int| i <= j < token_end(s, i) ==> !is_ascii_ws(s[j]),
        token_end(s, i) < s.len() ==> is_ascii_ws(s[token_end(s, i)]),
    decreases s.len() - i,
{
    if i >= s.len() {
    } else if is_ascii_ws(s[i]) {
    } else {
        lemma_token_end_bounds(s, i + 1);
    }
}

/// The whitespace-separated tokens of `s` from byte `pos` on, as
/// `str::split_ascii_whitespace` yields them.
pub open spec fn tokens_from(s: Seq<u8>, pos: int) -> Seq<Seq<u8>>
    decreases s.len() - pos,
{
    if pos < 0 || pos >= s.len() {
        seq![]
    } else if is_ascii_ws(s[pos]) {
        tokens_from(s, pos + 1)
    } else {
        proof {
            lemma_token_end_bounds(s, pos + 1);
        }
        seq![s.subrange(pos, token_end(s, pos + 1))] + tokens_from(s, token_end(s, pos + 1))
    }
}

/// The tokens of `s`, as `str::split_ascii_whitespace` yields them.
pub open spec fn tokens(s: Seq<u8>) -> Seq<Seq<u8>> {
    tokens_from(s, 0)
}

/// Splits `s` at runs of ASCII whitespace, as `str::split_ascii_whitespace` does.
pub fn split_tokens(s: &[u8]) -> (r: Vec<Vec<u8>>)
    ensures
        views(r@) == tokens(s@),
{
    let mut out: Vec<Vec<u8>> = Vec::new();
    let mut pos: usize = 0;
    while pos < s.len()
        invariant
            pos <= s@.len(),
            tokens(s@) == views(out@) + tokens_from(s@, pos as int),
        decreases s@.len() - pos,
    {
        let b = s[pos];
        if b == 32 || b == 9 || b == 10 || b == 12 || b == 13 {
            pos = pos + 1;
        } else {
            let mut end = pos + 1;
            while end < s.len() && !(s[end] == 32 || s[end] == 9 || s[end] == 10 || s[end] == 12
                || s[end] == 13)
                invariant
                    pos < end <= s@.len(),
                    token_end(s@, pos + 1) == token_end(s@, end as int),
                decreases s@.len() - end,
            {
                end = end + 1;
            }
            let token = copy_range(s, pos, end);
            let ghost before = views(out@);
            out.push(token);
            assert(views(out@) =~= before.push(token@));
            pos = end;
        }
    }
    assert(views(out@) + Seq::<Seq<u8>>::empty() =~= views(out@));
    out
}

/* ---------- Unicode whitespace trimming ---------- */

/// An ASCII character for which `char::is_whitespace` holds: tab, line feed,
/// vertical tab, form feed, carriage return and space.
pub open spec fn is_trim_ascii_ws(b: u8) -> bool {
    (9 <= b <= 13) || b == 32
}

/// The UTF-8 encoding of a two-byte character with the `White_Space`
/// property: U+0085 or U+00A0.
pub open spec fn is_ws2(a: u8, b: u8) -> bool {
    a == 0xC2 && (b == 0x85 || b == 0xA0)
}

/// The UTF-8 encoding of a three-byte character with the `White_Space`
/// property: U+1680, U+2000 to U+200A, U+2028, U+2029, U+202F, U+205F, U+3000.
pub open spec fn is_ws3(a: u8, b: u8, c: u8) -> bool {
    ||| (a == 0xE1 && b == 0x9A && c == 0x80)
    ||| (a == 0xE2 && b == 0x80 && ((0x80 <= c <= 0x8A) || c == 0xA8 || c == 0xA9 || c == 0xAF))
    ||| (a == 0xE2 && b == 0x81 && c == 0x9F)
    ||| (a == 0xE3 && b == 0x80 && c == 0x80)
}

/// Length of the whitespace character that `s` starts with, or 0.
pub open spec fn ws_prefix_len(s: Seq<u8>) -> int {
    if s.len() >= 1 && is_trim_ascii_ws(s[0]) {
        1
    } else if s.len() >= 2 && is_ws2(s[0], s[1]) {
        2
    } else if s.len() >= 3 && is_ws3(s[0], s[1], s[2]) {
        3
    } else {
        0
    }
}

/// Length of the whitespace character that `s` ends with, or 0.
pub open spec fn ws_suffix_len(s: Seq<u8>) -> int {
    let n = s.len() as int;
    if n >= 1 && is_trim_ascii_ws(s[n - 1]) {
        1
    } else if n >= 2 && is_ws2(s[n - 2], s[n - 1]) {
        2
    } else if n >= 3 && is_ws3(s[n - 3], s[n - 2], s[n - 1]) {
        3
    } else {
        0
    }
}

/// `s` without its leading whitespace characters.
pub open spec fn trim_start(s: Seq<u8>) -> Seq<u8>
    decreases s.len(),
{
    if ws_prefix_len(s) > 0 {
        trim_start(s.subrange(ws_prefix_len(s), s.len() as int))
    } else {
        s
    }
}

/// `s` without its trailing whitespace characters.
pub open spec fn trim_end(s: Seq<u8>) -> Seq<u8>
    decreases s.len(),
{
    if ws_suffix_len(s) > 0 {
        trim_end(s.subrange(0, s.len() - ws_suffix_len(s)))
    } else {
        s
    }
}

/// `s` without leading and trailing whitespace, as `str::trim` does on the
/// text that `s` encodes.
pub open spec fn trim(s: Seq<u8>) -> Seq<u8> {
    trim_end(trim_start(s))
}

fn ws_len_at(s: &[u8], i: usize) -> (n: usize)
    requires
        i <= s@.len(),
    ensures
        n == ws_prefix_len(s@.subrange(i as int, s@.len() as int)),
        n <= s@.len() - i,
{
    let rest = s.len() - i;
    if rest >= 1 && ((9 <= s[i] && s[i] <= 13) || s[i] == 32) {
        1
    } else if rest >= 2 && s[i] == 0xC2 && (s[i + 1] == 0x85 || s[i + 1] == 0xA0) {
        2
    } else if rest >= 3 && ((s[i] == 0xE1 && s[i + 1] == 0x9A && s[i + 2] == 0x80) || (s[i] == 0xE2
        && s[i + 1] == 0x80 && ((0x80 <= s[i + 2] && s[i + 2] <= 0x8A) || s[i + 2] == 0xA8 || s[i
        + 2] == 0xA9 || s[i + 2] == 0xAF)) || (s[i] == 0xE2 && s[i + 1] == 0x81 && s[i + 2]
        == 0x9F) || (s[i] == 0xE3 && s[i + 1] == 0x80 && s[i + 2] == 0x80)) {
        3
    } else {
        0
    }
}

fn ws_len_before(s: &[u8], i: usize, j: usize) -> (n: usize)
    requires
        i <= j <= s@.len(),
    ensures
        n == ws_suffix_len(s@.subrange(i as int, j as int)),
{
    let len = j - i;
    if len >= 1 && ((9 <= s[j - 1] && s[j - 1] <= 13) || s[j - 1] == 32) {
        1
    } else if len >= 2 && s[j - 2] == 0xC2 && (s[j - 1] == 0x85 || s[j - 1] == 0xA0) {
        2
    } else if len >= 3 && ((s[j - 3] == 0xE1 && s[j - 2] == 0x9A && s[j - 1] == 0x80) || (s[j - 3]
        == 0xE2 && s[j - 2] == 0x80 && ((0x80 <= s[j - 1] && s[j - 1] <= 0x8A) || s[j - 1] == 0xA8
        || s[j - 1] == 0xA9 || s[j - 1] == 0xAF)) || (s[j - 3] == 0xE2 && s[j - 2] == 0x81 && s[j
        - 1] == 0x9F) || (s[j - 3] == 0xE3 && s[j - 2] == 0x80 && s[j - 1] == 0x80)) {
        3
    } else {
        0
    }
}

/// The bounds of `s` without leading and trailing whitespace.
pub fn trim_range(s: &[u8]) -> (r: (usize, usize))
    ensures
        r.0 <= r.1 <= s@.len(),
        s@.subrange(r.0 as int, r.1 as int) == trim(s@),
        trim_start(s@) == s@.subrange(r.0 as int, s@.len() as int),
{
    let mut i: usize = 0;
    assert(s@.subrange(0, s@.len() as int) =~= s@);
    loop
        invariant
            i <= s@.len(),
            trim_start(s@) == trim_start(s@.subrange(i as int, s@.len() as int)),
        ensures
            i <= s@.len(),
            trim_start(s@) == s@.subrange(i as int, s@.len() as int),
        decreases s@.len() - i,
    {
        let n = ws_len_at(s, i);
        if n == 0 {
            break;
        }
        assert(s@.subrange(i as int, s@.len() as int).subrange(n as int, s@.len() - i)
            =~= s@.subrange(i + n, s@.len() as int));
        assert(i + n <= s.len());
        i = i + n;
    }
    let mut j: usize = s.len();
    loop
        invariant
            i <= j <= s@.len(),
            trim_start(s@) == s@.subrange(i as int, s@.len() as int),
            trim(s@) == trim_end(s@.subrange(i as int, j as int)),
        ensures
            i <= j <= s@.len(),
            trim(s@) == s@.subrange(i as int, j as int),
        decreases j - i,
    {
        let n = ws_len_before(s, i, j);
        if n == 0 {
            break;
        }
        assert(s@.subrange(i as int, j as int).subrange(0, j - i - n) =~= s@.subrange(
            i as int,
            j - n,
        ));
        j = j - n;
    }
    (i, j)
}

/* ---------- ASCII case ---------- */

/// `u8::to_ascii_lowercase`.
pub open spec fn ascii_lower(b: u8) -> u8 {
    if 65 <= b <= 90 {
        (b + 32) as u8
    } else {
        b
    }
}

/// `s` with every ASCII upper-case letter made lower-case.
pub open spec fn lower(s: Seq<u8>) -> Seq<u8> {
    s.map_values(|b: u8| ascii_lower(b))
}

/// `eq_ignore_ascii_case`: equal lengths and equal bytes up to ASCII case.
pub open spec fn eq_ignore_case(a: Seq<u8>, b: Seq<u8>) -> bool {
    a.len() == b.len() && forall|i: int| 0 <= i < a.len() ==> ascii_lower(a[i]) == ascii_lower(b[i])
}

/// `u8::is_ascii_alphanumeric`.
pub open spec fn is_ascii_alnum(b: u8) -> bool {
    (48 <= b <= 57) || (65 <= b <= 90) || (97 <= b <= 122)
}

pub fn to_lower(s: &[u8]) -> (r: Vec<u8>)
    ensures
        r@ == lower(s@),
{
    let mut r: Vec<u8> = Vec::new();
    let mut i: usize = 0;
    while i < s.len()
        invariant
            i <= s@.len(),
            r@ == lower(s@.subrange(0, i as int)),
        decreases s@.len() - i,
    {
        let b = s[i];
        let l = if 65 <= b && b <= 90 {
            b + 32
        } else {
            b
        };
        r.push(l);
        i = i + 1;
        assert(r@ =~= lower(s@.subrange(0, i as int)));
    }
    assert(s@.subrange(0, s@.len() as int) =~= s@);
    r
}

pub fn eq_ignore_case_exec(a: &[u8], b: &[u8]) -> (r: bool)
    ensures
        r == eq_ignore_case(a@, b@),
{
    if a.len() != b.len() {
        return false;
    }
    let mut i: usize = 0;
    while i < a.len()
        invariant
            i <= a@.len(),
            a@.len() == b@.len(),
            forall|j: int| 0 <= j < i ==> ascii_lower(a@[j]) == ascii_lower(b@[j]),
        decreases a@.len() - i,
    {
        let x = a[i];
        let y = b[i];
        let lx = if 65 <= x && x <= 90 {
            x + 32
        } else {
            x
        };
        let ly = if 65 <= y && y <= 90 {
            y + 32
        } else {
            y
        };
        if lx != ly {
            return false;
        }
        i = i + 1;
    }
    true
}

pub fn bytes_eq(a: &[u8], b: &[u8]) -> (r: bool)
    ensures
        r == (a@ == b@),
{
    if a.len() != b.len() {
        return false;
    }
    let mut i: usize = 0;
    while i < a.len()
        invariant
            i <= a@.len(),
            a@.len() == b@.len(),
            forall|j: int| 0 <= j < i ==> a@[j] == b@[j],
        decreases a@.len() - i,
    {
        if a[i] != b[i] {
            return false;
        }
        i = i + 1;
    }
    assert(a@ =~= b@);
    true
}

/* ---------- unsigned decimal numbers ---------- */

pub open spec fn is_digit(b: u8) -> bool {
    48 <= b <= 57
}

pub open spec fn all_digits(s: Seq<u8>) -> bool {
    forall|i: int| 0 <= i < s.len() ==> is_digit(s[i])
}

/// The number that the decimal digits `s` spell.
pub open spec fn digits_value(s: Seq<u8>) -> nat
    decreases s.len(),
{
    if s.len() == 0 {
        0
    } else {
        digits_value(s.drop_last()) * 10 + (s.last() - 48) as nat
    }
}

/// The digits of `s` after an optional leading `+`.
pub open spec fn unsigned_digits(s: Seq<u8>) -> Seq<u8> {
    if s.len() > 0 && s[0] == 43 {
        s.subrange(1, s.len() as int)
    } else {
        s
    }
}

/// `<usize as FromStr>::from_str`: an optional `+`, then one or more decimal
/// digits whose value fits in a `usize`.
pub open spec fn parse_usize(s: Seq<u8>) -> Option<nat> {
    let d = unsigned_digits(s);
    if d.len() > 0 && all_digits(d) && digits_value(d) <= usize::MAX {
        Some(digits_value(d))
    } else {
        None
    }
}

pub proof fn lemma_digits_value_prefix(s: Seq<u8>, j: int)
    requires
        all_digits(s),
        0 <= j <= s.len(),
    ensures
        digits_value(s.subrange(0, j)) <= digits_value(s),
    decreases s.len(),
{
    if j < s.len() {
        let t = s.drop_last();
        assert(t.subrange(0, j) =~= s.subrange(0, j));
        lemma_digits_value_prefix(t, j);
    } else {
        assert(s.subrange(0, j) =~= s);
    }
}

/// Parses `s` as `<usize as FromStr>::from_str` does.
pub fn parse_usize_exec(s: &[u8]) -> (r: Option<usize>)
    ensures
        r matches Some(v) ==> parse_usize(s@) == Some(v as nat),
        r is None ==> parse_usize(s@) is None,
{
    let start: usize = if s.len() > 0 && s[0] == 43 {
        1
    } else {
        0
    };
    let ghost d = unsigned_digits(s@);
    assert(d =~= s@.subrange(start as int, s@.len() as int));
    if start == s.len() {
        return None;
    }
    let mut k = start;
    while k < s.len()
        invariant
            start <= k <= s@.len(),
            d == s@.subrange(start as int, s@.len() as int),
            d == unsigned_digits(s@),
            forall|j: int| 0 <= j < k - start ==> is_digit(d[j]),
        decreases s@.len() - k,
    {
        if !(48 <= s[k] && s[k] <= 57) {
            assert(d[k - start] == s@[k as int]);
            assert(!is_digit(d[k - start]));
            assert(!all_digits(d));
            return None;
        }
        k = k + 1;
    }
    let mut acc: u128 = 0;
    let mut i = start;
    while i < s.len()
        invariant
            start <= i <= s@.len(),
            d == s@.subrange(start as int, s@.len() as int),
            d == unsigned_digits(s@),
            all_digits(d),
            acc == digits_value(d.subrange(0, i - start)),
            acc <= usize::MAX,
        decreases s@.len() - i,
    {
        assert(d[i - start] == s@[i as int]);
        assert(is_digit(d[i - start]));
        let digit = (s[i] - 48) as u128;
        assert(d.subrange(0, i + 1 - start).drop_last() =~= d.subrange(0, i - start));
        assert(acc * 10 + digit <= 0xffff_ffff_ffff_ffff_ffff_ffff_ffff_ffffu128) by (nonlinear_arith)
            requires
                acc <= usize::MAX,
                usize::MAX <= 0xffff_ffff_ffff_ffffu64,
                digit <= 9,
        ;
        let ghost next = d.subrange(0, i + 1 - start);
        assert(next.last() == d[i - start]);
        assert(digits_value(next) == digits_value(next.drop_last()) * 10 + (next.last() - 48) as nat);
        acc = acc * 10 + digit;
        assert(acc == digits_value(next));
        if acc > usize::MAX as u128 {
            proof {
                lemma_digits_value_prefix(d, i + 1 - start);
            }
            return None;
        }
        i = i + 1;
    }
    assert(d.subrange(0, s@.len() - start) =~= d);
    Some(acc as usize)
}

/* ---------- the header terminator ---------- */

/// `s` holds `\r\n\r\n` at byte `i`.
pub open spec fn is_terminator_at(s: Seq<u8>, i: int) -> bool {
    0 <= i && i + 4 <= s.len() && s[i] == 13 && s[i + 1] == 10 && s[i + 2] == 13 && s[i + 3] == 10
}

pub open spec fn find_terminator_from(s: Seq<u8>, i: int) -> Option<int>
    decreases s.len() - i,
{
    if i < 0 || i + 4 > s.len() {
        None
    } else if is_terminator_at(s, i) {
        Some(i)
    } else {
        find_terminator_from(s, i + 1)
    }
}

/// The index of the first `\r\n\r\n` in `s`, as `windows(4).position(..)` finds it.
pub open spec fn find_terminator(s: Seq<u8>) -> Option<int> {
    find_terminator_from(s, 0)
}

pub proof fn lemma_find_terminator_from_bounds(s: Seq<u8>, i: int)
    requires
        0 <= i,
    ensures
        find_terminator_from(s, i) matches Some(k) ==> i <= k && is_terminator_at(s, k),
        find_terminator_from(s, i) matches Some(k) ==> forall|j: int|
            i <= j < k ==> !is_terminator_at(s, j),
        find_terminator_from(s, i) is None ==> forall|j: int| i <= j ==> !is_terminator_at(s, j),
    decreases s.len() - i,
{
    if i + 4 > s.len() {
    } else if is_terminator_at(s, i) {
    } else {
        lemma_find_terminator_from_bounds(s, i + 1);
    }
}

/// A first terminator found in `s` stays the first one when bytes are appended.
pub proof fn lemma_find_terminator_extend(s: Seq<u8>, t: Seq<u8>, i: int)
    requires
        0 <= i,
        find_terminator_from(s, i) is Some,
    ensures
        find_terminator_from(s + t, i) == find_terminator_from(s, i),
    decreases s.len() - i,
{
    if i + 4 > s.len() {
    } else if is_terminator_at(s, i) {
        assert(is_terminator_at(s + t, i));
    } else {
        assert(!is_terminator_at(s + t, i));
        lemma_find_terminator_extend(s, t, i + 1);
    }
}

/// Finds the first `\r\n\r\n` in `s`.
pub fn find_terminator_exec(s: &[u8]) -> (r: Option<usize>)
    ensures
        r matches Some(k) ==> find_terminator(s@) == Some(k as int),
        r is None ==> find_terminator(s@) is None,
{
    let mut i: usize = 0;
    while i < s.len() && s.len() - i >= 4
        invariant
            i <= s@.len(),
            find_terminator(s@) == find_terminator_from(s@, i as int),
        decreases s@.len() - i,
    {
        if s[i] == 13 && s[i + 1] == 10 && s[i + 2] == 13 && s[i + 3] == 10 {
            return Some(i);
        }
        i = i + 1;
    }
    assert(find_terminator_from(s@, i as int) is None);
    None
}

} // verus!
