//! LSP base-protocol framing: `Content-Length: N\r\n\r\n<json>`.
//!
//! Encoding is a pure function of the payload. Decoding is a byte-level
//! state machine: [`FrameReader`] holds the bytes read so far from the
//! server's stdout (and whether that stream has ended); `read_frame` either
//! yields the next frame or reports [`FrameError::Incomplete`], after which
//! the driver reads more bytes, `feed`s them, and asks again.
//!
//! Header lines end at `\n` (or at the end of the stream); a header line must
//! be valid UTF-8; trailing `\r`/`\n` are trimmed; an empty line ends the
//! headers; a `Content-Length:` line sets the length to its trimmed value
//! parsed as `usize` (a later unparsable one clears it). The stream ending at
//! the start of a line means there is no further frame.

use vstd::prelude::*;
use vstd::slice::slice_subrange;
use vstd::utf8::{is_leading_byte_width_1, partial_valid_utf8, partial_valid_utf8_extend_ascii_block, valid_utf8};

verus! {

/// The bytes of `Content-Length:`.
pub open spec fn cl_prefix() -> Seq<u8> {
    seq![67u8, 111u8, 110u8, 116u8, 101u8, 110u8, 116u8, 45u8, 76u8, 101u8, 110u8, 103u8, 116u8, 104u8, 58u8]
}

/// The decimal digits of `n`, most significant first, as ASCII bytes.
pub open spec fn decimal(n: nat) -> Seq<u8>
    decreases n,
{
    if n < 10 {
        seq![(48 + n) as u8]
    } else {
        decimal(n / 10).push((48 + n % 10) as u8)
    }
}

/// The frame that carries `payload`.
pub open spec fn frame_bytes(payload: Seq<u8>) -> Seq<u8> {
    cl_prefix() + seq![32u8] + decimal(payload.len()) + seq![13u8, 10u8, 13u8, 10u8] + payload
}

/// Index of the first `\n` in `s`, or -1.
pub open spec fn first_nl(s: Seq<u8>) -> int
    decreases s.len(),
{
    if s.len() == 0 {
        -1
    } else if s[0] == 10 {
        0
    } else {
        let r = first_nl(s.skip(1));
        if r < 0 {
            -1
        } else {
            r + 1
        }
    }
}

/// `s` without its trailing `\r` and `\n` bytes.
pub open spec fn trim_crlf(s: Seq<u8>) -> Seq<u8>
    decreases s.len(),
{
    if s.len() > 0 && (s.last() == 10 || s.last() == 13) {
        trim_crlf(s.drop_last())
    } else {
        s
    }
}

/// A one-byte white-space character (`\t`, `\n`, vertical tab, form feed, `\r`, space).
pub open spec fn is_ws1(b: u8) -> bool {
    (9 <= b <= 13) || b == 32
}

/// The UTF-8 encoding of a three-byte white-space character
/// (U+1680, U+2000..=U+200A, U+2028, U+2029, U+202F, U+205F, U+3000).
pub open spec fn is_ws3(a: u8, b: u8, c: u8) -> bool {
    ||| (a == 0xE1 && b == 0x9A && c == 0x80)
    ||| (a == 0xE2 && b == 0x80 && ((0x80 <= c <= 0x8A) || c == 0xA8 || c == 0xA9 || c == 0xAF))
    ||| (a == 0xE2 && b == 0x81 && c == 0x9F)
    ||| (a == 0xE3 && b == 0x80 && c == 0x80)
}

/// The UTF-8 encoding of a two-byte white-space character (U+0085, U+00A0).
pub open spec fn is_ws2(a: u8, b: u8) -> bool {
    a == 0xC2 && (b == 0x85 || b == 0xA0)
}

/// Byte length of the white-space character `s` starts with (0 if none).
pub open spec fn ws_prefix_len(s: Seq<u8>) -> int {
    if s.len() >= 1 && is_ws1(s[0]) {
        1
    } else if s.len() >= 2 && is_ws2(s[0], s[1]) {
        2
    } else if s.len() >= 3 && is_ws3(s[0], s[1], s[2]) {
        3
    } else {
        0
    }
}

/// Byte length of the white-space character `s` ends with (0 if none).
pub open spec fn ws_suffix_len(s: Seq<u8>) -> int {
    let n = s.len() as int;
    if n >= 1 && is_ws1(s[n - 1]) {
        1
    } else if n >= 2 && is_ws2(s[n - 2], s[n - 1]) {
        2
    } else if n >= 3 && is_ws3(s[n - 3], s[n - 2], s[n - 1]) {
        3
    } else {
        0
    }
}

/// `s` without its leading white space.
pub open spec fn trim_start(s: Seq<u8>) -> Seq<u8>
    decreases s.len(),
{
    if ws_prefix_len(s) > 0 {
        trim_start(s.skip(ws_prefix_len(s)))
    } else {
        s
    }
}

/// `s` without its trailing white space.
pub open spec fn trim_end(s: Seq<u8>) -> Seq<u8>
    decreases s.len(),
{
    if ws_suffix_len(s) > 0 {
        trim_end(s.take(s.len() - ws_suffix_len(s)))
    } else {
        s
    }
}

/// `str::trim` on the UTF-8 bytes of a string.
pub open spec fn trim_ws(s: Seq<u8>) -> Seq<u8> {
    trim_end(trim_start(s))
}

/// Whether every byte of `s` is an ASCII digit.
pub open spec fn all_digits(s: Seq<u8>) -> bool {
    forall|i: int| 0 <= i < s.len() ==> 48 <= #[trigger] s[i] <= 57
}

/// The number the ASCII digits `s` denote.
pub open spec fn digits_value(s: Seq<u8>) -> nat
    decreases s.len(),
{
    if s.len() == 0 {
        0
    } else {
        digits_value(s.drop_last()) * 10 + (s.last() - 48) as nat
    }
}

/// `usize::from_str`: an optional `+`, then one or more digits, in range.
pub open spec fn parse_usize_spec(s: Seq<u8>) -> Option<usize> {
    if s.len() == 0 || s == seq![43u8] {
        None
    } else {
        let d = if s[0] == 43 {
            s.skip(1)
        } else {
            s
        };
        if all_digits(d) && digits_value(d) <= usize::MAX {
            Some(digits_value(d) as usize)
        } else {
            None
        }
    }
}

/// How one attempt to read a frame ends.
#[derive(Debug, Clone, Copy, PartialEq, Eq, Structural)]
pub enum FrameOutcome {
    /// More bytes are needed before anything can be decided.
    NeedMore,
    /// The stream ended at the start of a line: no further frame.
    End,
    /// A complete frame.
    Frame,
    /// The headers ended without a usable `Content-Length`.
    MissingLength,
    /// A header line is not valid UTF-8.
    BadUtf8,
    /// The stream ended inside the body.
    Truncated,
}

/// Shift the byte count of a decided outcome by `k` header bytes.
pub open spec fn lift(r: (FrameOutcome, Seq<u8>, int), k: int) -> (FrameOutcome, Seq<u8>, int) {
    if r.0 == FrameOutcome::NeedMore {
        r
    } else {
        (r.0, r.1, r.2 + k)
    }
}

/// The body phase: `rest` starts right after the blank line.
pub open spec fn body_spec(rest: Seq<u8>, eof: bool, cl: Option<usize>) -> (
    FrameOutcome,
    Seq<u8>,
    int,
) {
    match cl {
        None => (FrameOutcome::MissingLength, Seq::empty(), 0),
        Some(n) => if rest.len() >= n {
            (FrameOutcome::Frame, rest.take(n as int), n as int)
        } else if eof {
            (FrameOutcome::Truncated, Seq::empty(), rest.len() as int)
        } else {
            (FrameOutcome::NeedMore, Seq::empty(), 0)
        },
    }
}

/// Decoding of the buffered bytes `s` (`eof`: the stream ends after `s`),
/// with `cl` the content length read so far: the outcome, the body of a
/// frame, and the number of bytes consumed.
pub open spec fn decode_spec(s: Seq<u8>, eof: bool, cl: Option<usize>) -> (
    FrameOutcome,
    Seq<u8>,
    int,
)
    decreases s.len(),
{
    if s.len() == 0 {
        if eof {
            (FrameOutcome::End, Seq::empty(), 0)
        } else {
            (FrameOutcome::NeedMore, Seq::empty(), 0)
        }
    } else if first_nl(s) < 0 && !eof {
        (FrameOutcome::NeedMore, Seq::empty(), 0)
    } else {
        let ll = if first_nl(s) < 0 {
            s.len() as int
        } else {
            first_nl(s) + 1
        };
        let line = s.take(ll);
        let rest = s.skip(ll);
        if !valid_utf8(line) {
            (FrameOutcome::BadUtf8, Seq::empty(), ll)
        } else {
            let t = trim_crlf(line);
            if t.len() == 0 {
                lift(body_spec(rest, eof, cl), ll)
            } else {
                let cl2 = if t.len() >= 15 && t.take(15) == cl_prefix() {
                    parse_usize_spec(trim_ws(t.skip(15)))
                } else {
                    cl
                };
                proof {
                    lemma_first_nl_bound(s);
                }
                lift(decode_spec(rest, eof, cl2), ll)
            }
        }
    }
}

/// Why a frame could not be read.
#[derive(Debug, Clone, Copy, PartialEq, Eq, Structural)]
pub enum FrameError {
    /// The buffered bytes do not yet decide the next frame: feed more.
    Incomplete,
    /// The headers ended without a usable `Content-Length`.
    MissingContentLength,
    /// A header line is not valid UTF-8.
    InvalidUtf8,
    /// The stream ended before the announced body was complete.
    UnexpectedEof,
}

/// Calls `std::str::from_utf8`; claims it succeeds exactly on valid UTF-8.
#[verifier::external_body]
fn is_valid_utf8(bytes: &[u8]) -> (r: bool)
    ensures
        r == valid_utf8(bytes@),
{
    std::str::from_utf8(bytes).is_ok()
}

/// `first_nl` is -1 or the index of a newline.
pub proof fn lemma_first_nl_bound(s: Seq<u8>)
    ensures
        -1 <= first_nl(s) < s.len(),
        first_nl(s) >= 0 ==> s[first_nl(s)] == 10,
    decreases s.len(),
{
    if s.len() > 0 && s[0] != 10 {
        lemma_first_nl_bound(s.skip(1));
    }
}

/// `first_nl` is the index `i` of the first newline.
pub proof fn lemma_first_nl(s: Seq<u8>, i: int)
    requires
        0 <= i < s.len(),
        s[i] == 10,
        forall|k: int| 0 <= k < i ==> s[k] != 10,
    ensures
        first_nl(s) == i,
    decreases i,
{
    if i > 0 {
        lemma_first_nl(s.skip(1), i - 1);
    }
}

/// `first_nl` is -1 without a newline.
pub proof fn lemma_no_nl(s: Seq<u8>)
    requires
        forall|k: int| 0 <= k < s.len() ==> s[k] != 10,
    ensures
        first_nl(s) == -1,
    decreases s.len(),
{
    if s.len() > 0 {
        lemma_no_nl(s.skip(1));
    }
}

/// Length of the white-space character at the start of `buf[lo..hi]`.
fn ws_prefix_at(buf: &[u8], lo: usize, hi: usize) -> (k: usize)
    requires
        lo <= hi <= buf@.len(),
    ensures
        k == ws_prefix_len(buf@.subrange(lo as int, hi as int)),
{
    let ghost s = buf@.subrange(lo as int, hi as int);
    let n = hi - lo;
    if n >= 1 && ((9 <= buf[lo] && buf[lo] <= 13) || buf[lo] == 32) {
        return 1;
    }
    if n >= 2 && buf[lo] == 0xC2 && (buf[lo + 1] == 0x85 || buf[lo + 1] == 0xA0) {
        return 2;
    }
    if n >= 3 {
        let a = buf[lo];
        let b = buf[lo + 1];
        let c = buf[lo + 2];
        assert(a == s[0] && b == s[1] && c == s[2]);
        if (a == 0xE1 && b == 0x9A && c == 0x80) || (a == 0xE2 && b == 0x80 && ((0x80 <= c
            && c <= 0x8A) || c == 0xA8 || c == 0xA9 || c == 0xAF)) || (a == 0xE2 && b == 0x81
            && c == 0x9F) || (a == 0xE3 && b == 0x80 && c == 0x80) {
            return 3;
        }
    }
    0
}

/// Length of the white-space character at the end of `buf[lo..hi]`.
fn ws_suffix_at(buf: &[u8], lo: usize, hi: usize) -> (k: usize)
    requires
        lo <= hi <= buf@.len(),
    ensures
        k == ws_suffix_len(buf@.subrange(lo as int, hi as int)),
{
    let ghost s = buf@.subrange(lo as int, hi as int);
    let n = hi - lo;
    if n >= 1 && ((9 <= buf[hi - 1] && buf[hi - 1] <= 13) || buf[hi - 1] == 32) {
        return 1;
    }
    if n >= 2 && buf[hi - 2] == 0xC2 && (buf[hi - 1] == 0x85 || buf[hi - 1] == 0xA0) {
        return 2;
    }
    if n >= 3 {
        let a = buf[hi - 3];
        let b = buf[hi - 2];
        let c = buf[hi - 1];
        assert(a == s[n - 3] && b == s[n - 2] && c == s[n - 1]);
        if (a == 0xE1 && b == 0x9A && c == 0x80) || (a == 0xE2 && b == 0x80 && ((0x80 <= c
            && c <= 0x8A) || c == 0xA8 || c == 0xA9 || c == 0xAF)) || (a == 0xE2 && b == 0x81
            && c == 0x9F) || (a == 0xE3 && b == 0x80 && c == 0x80) {
            return 3;
        }
    }
    0
}

/// Bounds `(a, b)` of `trim_ws(buf[lo..hi])` inside `buf`.
fn trim_ws_at(buf: &[u8], lo: usize, hi: usize) -> (r: (usize, usize))
    requires
        lo <= hi <= buf@.len(),
    ensures
        lo <= r.0 <= r.1 <= hi,
        buf@.subrange(r.0 as int, r.1 as int) == trim_ws(buf@.subrange(lo as int, hi as int)),
{
    let mut a = lo;
    loop
        invariant
            lo <= a <= hi <= buf@.len(),
            trim_start(buf@.subrange(lo as int, hi as int)) == trim_start(
                buf@.subrange(a as int, hi as int),
            ),
        ensures
            lo <= a <= hi,
            trim_start(buf@.subrange(lo as int, hi as int)) == buf@.subrange(a as int, hi as int),
        decreases hi - a,
    {
        let k = ws_prefix_at(buf, a, hi);
        if k == 0 {
            break;
        }
        assert(buf@.subrange(a as int, hi as int).skip(k as int) =~= buf@.subrange(
            a + k,
            hi as int,
        ));
        a = a + k;
    }
    let mut b = hi;
    loop
        invariant
            a <= b <= hi <= buf@.len(),
            trim_end(buf@.subrange(a as int, hi as int)) == trim_end(
                buf@.subrange(a as int, b as int),
            ),
        ensures
            a <= b <= hi,
            trim_end(buf@.subrange(a as int, hi as int)) == buf@.subrange(a as int, b as int),
        decreases b - a,
    {
        let k = ws_suffix_at(buf, a, b);
        if k == 0 {
            break;
        }
        assert(k <= b - a);
        assert(buf@.subrange(a as int, b as int).take(b - a - k) =~= buf@.subrange(
            a as int,
            b - k,
        ));
        b = b - k;
    }
    (a, b)
}

proof fn lemma_digits_monotone(s: Seq<u8>, i: int)
    requires
        0 <= i <= s.len(),
    ensures
        digits_value(s.take(i)) <= digits_value(s),
    decreases s.len() - i,
{
    if i < s.len() {
        lemma_digits_monotone(s, i + 1);
        assert(s.take(i + 1).drop_last() =~= s.take(i));
    } else {
        assert(s.take(i) =~= s);
    }
}

/// `usize::from_str` on `buf[lo..hi]`.
fn parse_usize_at(buf: &[u8], lo: usize, hi: usize) -> (r: Option<usize>)
    requires
        lo <= hi <= buf@.len(),
    ensures
        r == parse_usize_spec(buf@.subrange(lo as int, hi as int)),
{
    let ghost s = buf@.subrange(lo as int, hi as int);
    if hi == lo {
        return None;
    }
    if hi - lo == 1 && buf[lo] == 43 {
        assert(s =~= seq![43u8]);
        return None;
    }
    assert(s != seq![43u8]) by {
        if hi - lo == 1 {
            assert(s[0] == buf@[lo as int]);
        } else {
            assert(s.len() != 1);
        }
    }
    let start = if buf[lo] == 43 {
        lo + 1
    } else {
        lo
    };
    let ghost d = buf@.subrange(start as int, hi as int);
    assert(d =~= (if s[0] == 43 {
        s.skip(1)
    } else {
        s
    }));
    let mut v: usize = 0;
    let mut i = start;
    while i < hi
        invariant
            start <= i <= hi <= buf@.len(),
            d == buf@.subrange(start as int, hi as int),
            s == buf@.subrange(lo as int, hi as int),
            s.len() != 0,
            s != seq![43u8],
            d == (if s[0] == 43 {
                s.skip(1)
            } else {
                s
            }),
            all_digits(d.take(i - start)),
            v == digits_value(d.take(i - start)),
        decreases hi - i,
    {
        let c = buf[i];
        assert(c == d[i - start]);
        assert(d.take(i - start + 1).drop_last() =~= d.take(i - start));
        assert(d.take(i - start + 1).last() == c);
        if c < 48 || c > 57 {
            assert(!all_digits(d));
            return None;
        }
        let m = v.checked_mul(10);
        match m {
            None => {
                proof {
                    lemma_digits_monotone(d, i - start + 1);
                }
                return None;
            },
            Some(m) => {
                let a = m.checked_add((c - 48) as usize);
                match a {
                    None => {
                        proof {
                            lemma_digits_monotone(d, i - start + 1);
                        }
                        return None;
                    },
                    Some(a) => {
                        v = a;
                    },
                }
            },
        }
        i = i + 1;
    }
    assert(d.take(i - start) =~= d);
    Some(v)
}

/// Index of the first `\n` at or after `pos`, or `buf.len()`.
fn find_nl(buf: &[u8], pos: usize) -> (j: usize)
    requires
        pos < buf@.len(),
    ensures
        pos <= j <= buf@.len(),
        j == buf@.len() ==> first_nl(buf@.skip(pos as int)) == -1,
        j < buf@.len() ==> first_nl(buf@.skip(pos as int)) == j - pos,
{
    let ghost s = buf@.skip(pos as int);
    let mut j = pos;
    while j < buf.len() && buf[j] != 10
        invariant
            pos <= j <= buf@.len(),
            forall|k: int| pos <= k < j ==> buf@[k] != 10,
        decreases buf@.len() - j,
    {
        j = j + 1;
    }
    proof {
        if j == buf@.len() {
            assert forall|k: int| 0 <= k < s.len() implies s[k] != 10 by {
                assert(s[k] == buf@[pos + k]);
            }
            lemma_no_nl(s);
        } else {
            assert forall|k: int| 0 <= k < j - pos implies s[k] != 10 by {
                assert(s[k] == buf@[pos + k]);
            }
            assert(s[j - pos] == buf@[j as int]);
            lemma_first_nl(s, j - pos);
        }
    }
    j
}

/// End `e` of `trim_crlf(buf[pos..end])` inside `buf`.
fn trim_crlf_at(buf: &[u8], pos: usize, end: usize) -> (e: usize)
    requires
        pos <= end <= buf@.len(),
    ensures
        pos <= e <= end,
        trim_crlf(buf@.subrange(pos as int, end as int)) == buf@.subrange(pos as int, e as int),
{
    let mut e = end;
    while e > pos && (buf[e - 1] == 10 || buf[e - 1] == 13)
        invariant
            pos <= e <= end <= buf@.len(),
            trim_crlf(buf@.subrange(pos as int, end as int)) == trim_crlf(
                buf@.subrange(pos as int, e as int),
            ),
        decreases e - pos,
    {
        assert(buf@.subrange(pos as int, e as int).drop_last() =~= buf@.subrange(
            pos as int,
            e - 1,
        ));
        e = e - 1;
    }
    e
}

/// Whether `buf[pos..e]` starts with `Content-Length:`.
fn has_cl_prefix(buf: &[u8], pos: usize, e: usize) -> (r: bool)
    requires
        pos <= e <= buf@.len(),
    ensures
        r == (e - pos >= 15 && buf@.subrange(pos as int, e as int).take(15) == cl_prefix()),
{
    let ghost t = buf@.subrange(pos as int, e as int);
    if e - pos < 15 {
        return false;
    }
    let expected: [u8; 15] = [67, 111, 110, 116, 101, 110, 116, 45, 76, 101, 110, 103, 116, 104, 58];
    assert(expected@ =~= cl_prefix());
    let mut i: usize = 0;
    while i < 15
        invariant
            0 <= i <= 15,
            pos + 15 <= e <= buf@.len(),
            expected@ == cl_prefix(),
            t == buf@.subrange(pos as int, e as int),
            forall|k: int| 0 <= k < i ==> buf@[pos + k] == expected@[k],
        decreases 15 - i,
    {
        if buf[pos + i] != expected[i] {
            assert(t.take(15)[i as int] == buf@[pos + i]);
            return false;
        }
        i = i + 1;
    }
    assert(t.take(15) =~= cl_prefix()) by {
        assert forall|k: int| 0 <= k < 15 implies t.take(15)[k] == cl_prefix()[k] by {
            assert(t.take(15)[k] == buf@[pos + k]);
        }
    }
    true
}

/// Exact decoding of the buffered bytes: `(outcome, body start, body length, consumed)`.
fn decode(buf: &[u8], eof: bool) -> (r: (FrameOutcome, usize, usize, usize))
    ensures
        r.0 == decode_spec(buf@, eof, None).0,
        r.0 == FrameOutcome::Frame ==> r.1 + r.2 <= buf@.len() && buf@.subrange(
            r.1 as int,
            r.1 + r.2,
        ) == decode_spec(buf@, eof, None).1,
        r.0 != FrameOutcome::NeedMore ==> r.3 == decode_spec(buf@, eof, None).2 && r.3 <= buf@.len(),
{
    let mut pos: usize = 0;
    let mut cl: Option<usize> = None;
    assert(buf@.skip(0) =~= buf@);
    loop
        invariant
            pos <= buf@.len(),
            decode_spec(buf@, eof, None) == lift(decode_spec(buf@.skip(pos as int), eof, cl), pos as int),
        decreases buf@.len() - pos,
    {
        let ghost s = buf@.skip(pos as int);
        if pos == buf.len() {
            assert(s.len() == 0);
            if eof {
                return (FrameOutcome::End, 0, 0, pos);
            } else {
                return (FrameOutcome::NeedMore, 0, 0, 0);
            }
        }
        let j = find_nl(buf, pos);
        if j == buf.len() && !eof {
            return (FrameOutcome::NeedMore, 0, 0, 0);
        }
        let end: usize = if j == buf.len() {
            buf.len()
        } else {
            j + 1
        };
        let ghost ll = end - pos;
        let ghost line = s.take(ll);
        let ghost rest = s.skip(ll);
        assert(line =~= buf@.subrange(pos as int, end as int));
        assert(rest =~= buf@.skip(end as int));
        let line_slice = slice_subrange(buf, pos, end);
        if !is_valid_utf8(line_slice) {
            return (FrameOutcome::BadUtf8, 0, 0, end);
        }
        let e = trim_crlf_at(buf, pos, end);
        let ghost t = buf@.subrange(pos as int, e as int);
        if e == pos {
            assert(decode_spec(s, eof, cl) == lift(body_spec(rest, eof, cl), ll));
            match cl {
                None => {
                    return (FrameOutcome::MissingLength, 0, 0, end);
                },
                Some(n) => {
                    if buf.len() - end >= n {
                        assert(rest.take(n as int) =~= buf@.subrange(end as int, end + n));
                        return (FrameOutcome::Frame, end, n, end + n);
                    } else if eof {
                        return (FrameOutcome::Truncated, 0, 0, buf.len());
                    } else {
                        return (FrameOutcome::NeedMore, 0, 0, 0);
                    }
                },
            }
        }
        let ghost cl_before = cl;
        if has_cl_prefix(buf, pos, e) {
            let (a, b) = trim_ws_at(buf, pos + 15, e);
            assert(t.skip(15) =~= buf@.subrange(pos + 15, e as int));
            cl = parse_usize_at(buf, a, b);
        }
        assert(decode_spec(s, eof, cl_before) == lift(decode_spec(rest, eof, cl), ll));
        pos = end;
    }
}

/// What `read_frame` answers for a decoding outcome.
pub open spec fn frame_result_spec(d: (FrameOutcome, Seq<u8>, int)) -> Result<Option<Seq<u8>>, FrameError> {
    match d.0 {
        FrameOutcome::NeedMore => Err(FrameError::Incomplete),
        FrameOutcome::End => Ok(None),
        FrameOutcome::Frame => Ok(Some(d.1)),
        FrameOutcome::MissingLength => Err(FrameError::MissingContentLength),
        FrameOutcome::BadUtf8 => Err(FrameError::InvalidUtf8),
        FrameOutcome::Truncated => Err(FrameError::UnexpectedEof),
    }
}

/// Reads length-prefixed LSP frames from a byte stream.
#[derive(Debug)]
pub struct FrameReader {
    buf: Vec<u8>,
    eof: bool,
}

impl View for FrameReader {
    /// The bytes read but not yet consumed, and whether the stream has ended.
    type V = (Seq<u8>, bool);

    closed spec fn view(&self) -> (Seq<u8>, bool) {
        (self.buf@, self.eof)
    }
}

impl FrameReader {
    /// A reader over a finished stream that holds exactly `input`.
    pub fn new(input: Vec<u8>) -> (r: FrameReader)
        ensures
            r@ == (input@, true),
    {
        FrameReader { buf: input, eof: true }
    }

    /// A reader over a live stream of which nothing has been read yet.
    pub fn streaming() -> (r: FrameReader)
        ensures
            r@ == (Seq::<u8>::empty(), false),
    {
        FrameReader { buf: Vec::new(), eof: false }
    }

    /// Hand over bytes just read from the stream; an empty read means the
    /// stream has ended.
    pub fn feed(&mut self, bytes: &[u8])
        ensures
            final(self)@ == (old(self)@.0 + bytes@, old(self)@.1 || bytes@.len() == 0),
    {
        let mut i: usize = 0;
        let ghost start = self.buf@;
        while i < bytes.len()
            invariant
                0 <= i <= bytes@.len(),
                self.buf@ == start + bytes@.take(i as int),
                self.eof == old(self).eof,
            decreases bytes@.len() - i,
        {
            self.buf.push(bytes[i]);
            assert(bytes@.take(i as int + 1) == bytes@.take(i as int).push(bytes@[i as int]));
            i = i + 1;
        }
        assert(bytes@.take(i as int) =~= bytes@);
        if bytes.len() == 0 {
            self.eof = true;
        }
    }

    /// Read one frame's body. `Ok(None)` when the stream ended cleanly at
    /// the start of a line; `Err(FrameError::Incomplete)` (nothing consumed)
    /// when more bytes must be fed first.
    pub fn read_frame(&mut self) -> (res: Result<Option<Vec<u8>>, FrameError>)
        ensures
            ({
                let d = decode_spec(old(self)@.0, old(self)@.1, None);
                &&& match res {
                    Ok(Some(b)) => frame_result_spec(d) == Ok::<Option<Seq<u8>>, FrameError>(
                        Some(b@),
                    ),
                    Ok(None) => frame_result_spec(d) == Ok::<Option<Seq<u8>>, FrameError>(None),
                    Err(e) => frame_result_spec(d) == Err::<Option<Seq<u8>>, FrameError>(e),
                }
                &&& d.0 == FrameOutcome::NeedMore ==> final(self)@ == old(self)@
                &&& d.0 != FrameOutcome::NeedMore ==> final(self)@ == (
                    old(self)@.0.skip(d.2),
                    old(self)@.1,
                )
            }),
    {
        let r = decode(self.buf.as_slice(), self.eof);
        let o = r.0;
        let bs = r.1;
        let bl = r.2;
        let used = r.3;
        if o == FrameOutcome::NeedMore {
            return Err(FrameError::Incomplete);
        }
        let body: Option<Vec<u8>> = match o {
            FrameOutcome::Frame => {
                let len = self.buf.len();
                assert(bs + bl <= len);
                let hi: usize = bs + bl;
                Some(vstd::slice::slice_to_vec(slice_subrange(self.buf.as_slice(), bs, hi)))
            },
            _ => None,
        };
        let remaining = vstd::slice::slice_to_vec(
            slice_subrange(self.buf.as_slice(), used, self.buf.len()),
        );
        assert(remaining@ =~= self.buf@.skip(used as int));
        self.buf = remaining;
        match o {
            FrameOutcome::End => Ok(None),
            FrameOutcome::Frame => Ok(body),
            FrameOutcome::MissingLength => Err(FrameError::MissingContentLength),
            FrameOutcome::BadUtf8 => Err(FrameError::InvalidUtf8),
            _ => Err(FrameError::UnexpectedEof),
        }
    }
}

/// ASCII decimal digits of `n`.
fn decimal_bytes(n: usize) -> (out: Vec<u8>)
    ensures
        out@ == decimal(n as nat),
    decreases n,
{
    if n < 10 {
        let mut out: Vec<u8> = Vec::new();
        out.push((48 + n) as u8);
        out
    } else {
        let mut out = decimal_bytes(n / 10);
        out.push((48 + n % 10) as u8);
        out
    }
}

/// Encode a JSON payload as one LSP frame (header + body).
pub fn encode_frame(payload: &[u8]) -> (out: Vec<u8>)
    ensures
        out@ == frame_bytes(payload@),
{
    let mut out: Vec<u8> = vec![67u8, 111u8, 110u8, 116u8, 101u8, 110u8, 116u8, 45u8, 76u8, 101u8, 110u8, 103u8, 116u8, 104u8, 58u8, 32u8];
    let digits = decimal_bytes(payload.len());
    let ghost head = out@;
    let mut i: usize = 0;
    while i < digits.len()
        invariant
            0 <= i <= digits@.len(),
            out@ == head + digits@.take(i as int),
        decreases digits@.len() - i,
    {
        out.push(digits[i]);
        assert(digits@.take(i as int + 1) == digits@.take(i as int).push(digits@[i as int]));
        i = i + 1;
    }
    assert(digits@.take(i as int) =~= digits@);
    out.push(13u8);
    out.push(10u8);
    out.push(13u8);
    out.push(10u8);
    let ghost mid = out@;
    let mut k: usize = 0;
    while k < payload.len()
        invariant
            0 <= k <= payload@.len(),
            out@ == mid + payload@.take(k as int),
        decreases payload@.len() - k,
    {
        out.push(payload[k]);
        assert(payload@.take(k as int + 1) == payload@.take(k as int).push(payload@[k as int]));
        k = k + 1;
    }
    assert(payload@.take(k as int) =~= payload@);
    assert(out@ =~= frame_bytes(payload@));
    out
}

proof fn lemma_decimal(n: nat)
    ensures
        decimal(n).len() >= 1,
        all_digits(decimal(n)),
        digits_value(decimal(n)) == n,
    decreases n,
{
    if n >= 10 {
        lemma_decimal(n / 10);
        let d = decimal(n / 10);
        assert(decimal(n).drop_last() =~= d);
        assert(n == (n / 10) * 10 + n % 10);
        assert(decimal(n).last() == (48 + n % 10) as u8);
        assert forall|i: int| 0 <= i < decimal(n).len() implies 48 <= #[trigger] decimal(n)[i] <= 57 by {
            if i < d.len() {
                assert(decimal(n)[i] == d[i]);
            }
        }
    } else {
        assert forall|i: int| 0 <= i < decimal(n).len() implies 48 <= #[trigger] decimal(n)[i] <= 57 by {}
        assert(decimal(n).drop_last() =~= Seq::<u8>::empty());
        assert(decimal(n).last() == (48 + n) as u8);
        assert(digits_value(Seq::<u8>::empty()) == 0);
    }
}

proof fn lemma_ascii_valid_utf8(s: Seq<u8>)
    requires
        forall|i: int| 0 <= i < s.len() ==> s[i] < 128,
    ensures
        valid_utf8(s),
{
    assert(s.subrange(0, 0) =~= Seq::<u8>::empty());
    assert(partial_valid_utf8(s, 0));
    assert forall|i: int| 0 <= 0 <= i < s.len() <= s.len() implies #[trigger] is_leading_byte_width_1(s[i]) by {}
    partial_valid_utf8_extend_ascii_block(s, 0, s.len() as int);
    assert(s.subrange(0, s.len() as int) =~= s);
}

/// The first header line of the frame for a payload of length `n`.
pub open spec fn header_line(n: nat) -> Seq<u8> {
    cl_prefix() + seq![32u8] + decimal(n) + seq![13u8, 10u8]
}

proof fn lemma_header_line(n: nat)
    requires
        n <= usize::MAX,
    ensures
        ({
            let h1 = header_line(n);
            let t = cl_prefix() + seq![32u8] + decimal(n);
            &&& h1.len() >= 18
            &&& forall|k: int| 0 <= k < h1.len() - 1 ==> h1[k] != 10
            &&& h1[h1.len() - 1] == 10
            &&& valid_utf8(h1)
            &&& trim_crlf(h1) == t
            &&& t.len() >= 15
            &&& t.take(15) == cl_prefix()
            &&& parse_usize_spec(trim_ws(t.skip(15))) == Some(n as usize)
        }),
{
    let d = decimal(n);
    lemma_decimal(n);
    let p = cl_prefix();
    let t = p + seq![32u8] + d;
    let h1 = header_line(n);
    assert(h1 =~= t + seq![13u8, 10u8]);
    assert forall|k: int| 0 <= k < h1.len() - 1 implies h1[k] != 10 by {
        if k < 15 {
            assert(h1[k] == p[k]);
        } else if k == 15 {
        } else if k < 16 + d.len() {
            assert(h1[k] == d[k - 16]);
        } else {
        }
    }
    assert forall|i: int| 0 <= i < h1.len() implies h1[i] < 128 by {
        if i < 15 {
        } else if 16 <= i < 16 + d.len() {
            assert(h1[i] == d[i - 16]);
        }
    }
    lemma_ascii_valid_utf8(h1);
    assert(h1.drop_last() =~= t.push(13u8));
    assert(t.push(13u8).drop_last() =~= t);
    assert(t.last() == d.last());
    assert(d.last() == d[d.len() - 1]);
    assert(t.len() > 0 && t.last() != 10 && t.last() != 13);
    assert(trim_crlf(t) == t);
    assert(trim_crlf(t.push(13u8)) == trim_crlf(t));
    assert(trim_crlf(h1) == trim_crlf(t.push(13u8)));
    assert(t.take(15) =~= p);
    assert(t.skip(15) =~= seq![32u8] + d);
    assert((seq![32u8] + d).skip(1) =~= d);
    assert(ws_prefix_len(d) == 0);
    assert(trim_start(seq![32u8] + d) == trim_start(d));
    assert(ws_suffix_len(d) == 0);
    assert(trim_ws(t.skip(15)) == d);
    assert(d[0] != 43);
    assert(d != seq![43u8]);
    assert(parse_usize_spec(d) == Some(n as usize));
}

proof fn lemma_blank_line(s: Seq<u8>)
    requires
        s.len() >= 2,
        s[0] == 13,
        s[1] == 10,
    ensures
        first_nl(s) == 1,
        valid_utf8(s.take(2)),
        trim_crlf(s.take(2)).len() == 0,
{
    lemma_first_nl(s, 1);
    let l2 = s.take(2);
    assert(l2 =~= seq![13u8, 10u8]);
    assert forall|i: int| 0 <= i < l2.len() implies l2[i] < 128 by {}
    lemma_ascii_valid_utf8(l2);
    assert(l2.drop_last() =~= seq![13u8]);
    assert(seq![13u8].drop_last() =~= Seq::<u8>::empty());
    assert(trim_crlf(Seq::<u8>::empty()) == Seq::<u8>::empty());
    assert(trim_crlf(seq![13u8]) == trim_crlf(Seq::<u8>::empty()));
    assert(trim_crlf(l2) == trim_crlf(seq![13u8]));
}

/// The first newline of `s` is also the first newline of `s + more`.
proof fn lemma_first_nl_append(s: Seq<u8>, more: Seq<u8>)
    requires
        first_nl(s) >= 0,
    ensures
        first_nl(s + more) == first_nl(s),
{
    let i = first_nl(s);
    lemma_first_nl_bound(s);
    assert forall|k: int| 0 <= k < i implies (s + more)[k] != 10 by {
        if s[k] == 10 {
            lemma_first_nl_is_first(s, k);
        }
    }
    lemma_first_nl(s + more, i);
}

/// No newline comes before the first one.
proof fn lemma_first_nl_is_first(s: Seq<u8>, k: int)
    requires
        0 <= k < s.len(),
        s[k] == 10,
    ensures
        0 <= first_nl(s) <= k,
    decreases k,
{
    if k > 0 && s[0] != 10 {
        lemma_first_nl_is_first(s.skip(1), k - 1);
    }
}

/// Chunking does not matter: once the buffered bytes of a live stream
/// decide the next frame (or error), more bytes, or the end of the stream,
/// do not change what is decided nor how much of the buffer it consumes.
pub proof fn lemma_decided_stable(s: Seq<u8>, cl: Option<usize>, more: Seq<u8>, eof: bool)
    requires
        decode_spec(s, false, cl).0 != FrameOutcome::NeedMore,
    ensures
        decode_spec(s + more, eof, cl) == decode_spec(s, false, cl),
    decreases s.len(),
{
    let t = s + more;
    lemma_first_nl_bound(s);
    lemma_first_nl_append(s, more);
    let ll = first_nl(s) + 1;
    assert(t.take(ll) =~= s.take(ll));
    assert(t.skip(ll) =~= s.skip(ll) + more);
    let line = s.take(ll);
    let rest = s.skip(ll);
    if valid_utf8(line) {
        let tl = trim_crlf(line);
        if tl.len() == 0 {
            match cl {
                None => {},
                Some(n) => {
                    if rest.len() >= n {
                        assert((rest + more).take(n as int) =~= rest.take(n as int));
                    }
                },
            }
        } else {
            let cl2 = if tl.len() >= 15 && tl.take(15) == cl_prefix() {
                parse_usize_spec(trim_ws(tl.skip(15)))
            } else {
                cl
            };
            lemma_decided_stable(rest, cl2, more, eof);
        }
    }
}

/// Framing round trip: a frame produced by `encode_frame`, followed by any
/// bytes, decodes to exactly its payload and consumes exactly the frame.
pub proof fn lemma_frame_roundtrip(payload: Seq<u8>, rest: Seq<u8>, eof: bool)
    requires
        payload.len() <= usize::MAX,
    ensures
        decode_spec(frame_bytes(payload) + rest, eof, None) == (
            FrameOutcome::Frame,
            payload,
            frame_bytes(payload).len() as int,
        ),
{
    let n = payload.len();
    let h1 = header_line(n);
    lemma_header_line(n);
    let s = frame_bytes(payload) + rest;
    let rest1 = seq![13u8, 10u8] + payload + rest;
    assert(s =~= h1 + rest1);
    assert forall|k: int| 0 <= k < h1.len() - 1 implies s[k] != 10 by {
        assert(s[k] == h1[k]);
    }
    assert(s[h1.len() - 1] == h1[h1.len() - 1]);
    lemma_first_nl(s, h1.len() - 1);
    assert(s.take(h1.len() as int) =~= h1);
    assert(s.skip(h1.len() as int) =~= rest1);
    lemma_blank_line(rest1);
    let body = rest1.skip(2);
    assert(body =~= payload + rest);
    assert(body.take(n as int) =~= payload);
    assert(body_spec(body, eof, Some(n as usize)) == (FrameOutcome::Frame, payload, n as int));
    assert(decode_spec(rest1, eof, Some(n as usize)) == (FrameOutcome::Frame, payload, (n + 2) as int));
    assert(frame_bytes(payload).len() == h1.len() + 2 + n);
}

/// The encodings of `payloads`, one after the other.
pub open spec fn frames_of(payloads: Seq<Seq<u8>>) -> Seq<u8>
    decreases payloads.len(),
{
    if payloads.len() == 0 {
        Seq::empty()
    } else {
        frame_bytes(payloads[0]) + frames_of(payloads.skip(1))
    }
}

/// What `k` successive `read_frame` calls on the bytes `s` give when each
/// yields a frame: the `k` payloads in order and the bytes left over, or
/// `None` when one of them does not yield a frame.
pub open spec fn read_frames(s: Seq<u8>, eof: bool, k: nat) -> Option<(Seq<Seq<u8>>, Seq<u8>)>
    decreases k,
{
    if k == 0 {
        Some((Seq::empty(), s))
    } else {
        let d = decode_spec(s, eof, None);
        if d.0 == FrameOutcome::Frame && 0 <= d.2 <= s.len() {
            match read_frames(s.skip(d.2), eof, (k - 1) as nat) {
                Some((ps, r)) => Some((seq![d.1] + ps, r)),
                None => None,
            }
        } else {
            None
        }
    }
}

/// Framing round trip for a whole stream: the encodings of any payloads,
/// followed by any bytes, read back as exactly those payloads, in order,
/// leaving exactly the bytes that followed.
pub proof fn lemma_frames_roundtrip(payloads: Seq<Seq<u8>>, rest: Seq<u8>, eof: bool)
    requires
        forall|i: int| 0 <= i < payloads.len() ==> (#[trigger] payloads[i]).len() <= usize::MAX,
    ensures
        read_frames(frames_of(payloads) + rest, eof, payloads.len()) == Some((payloads, rest)),
    decreases payloads.len(),
{
    if payloads.len() == 0 {
        assert(frames_of(payloads) + rest =~= rest);
    } else {
        let p0 = payloads[0];
        let tail = payloads.skip(1);
        let s = frames_of(payloads) + rest;
        assert(s =~= frame_bytes(p0) + (frames_of(tail) + rest));
        lemma_frame_roundtrip(p0, frames_of(tail) + rest, eof);
        assert(s.skip(frame_bytes(p0).len() as int) =~= frames_of(tail) + rest);
        assert forall|i: int| 0 <= i < tail.len() implies (#[trigger] tail[i]).len() <= usize::MAX by {
            assert(tail[i] == payloads[i + 1]);
        }
        lemma_frames_roundtrip(tail, rest, eof);
        assert(seq![p0] + tail =~= payloads);
    }
}

} // verus!
