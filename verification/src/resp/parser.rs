//! Parsing RESP frames from the front of a byte buffer.

use vstd::prelude::*;
use vstd::utf8::{decode_utf8, valid_utf8};
use crate::resp::frame::{Frame, SpecFrame, frames_view};
use vstd::string::StringExecFns;
use crate::text::{
    Utf8Fault, chars_of, nat_digits, u64_to_string, utf8_fault, utf8_fault_message, utf8_message, utf8_text,
};

verus! {

/// Why a decimal integer could not be read.
#[derive(Debug, Clone, Copy, PartialEq, Eq, Structural)]
pub enum IntErrorKind {
    Empty,
    InvalidDigit,
    PosOverflow,
    NegOverflow,
}

/// Why a buffer does not start with a valid frame.
#[derive(Debug, Clone, Copy, PartialEq, Eq, Structural)]
pub enum RespError {
    /// The header line is not UTF-8.
    Utf8(Utf8Fault),
    /// The header line of an integer, bulk string or array is not a number.
    ParseInt(IntErrorKind),
    InvalidBulkLength,
    InvalidArrayLength,
    InvalidFirstByte(u8),
}

/// The outcome of parsing the front of a buffer.
#[derive(Debug)]
pub enum ParseResult {
    /// A whole frame, and the number of bytes it takes.
    Complete(Frame, usize),
    /// More bytes are needed.
    Incomplete,
    Error(RespError),
}

/// The mathematical outcome of parsing; `Panic` marks the buffers on which
/// the header slice would be taken backwards (a line break right at the
/// start of a frame).
pub enum SpecParse {
    Complete(SpecFrame, int),
    Incomplete,
    Error(RespError),
    Panic,
}

/// The text of a parsing error: the words std uses for integers it cannot
/// read, and the server's own for the rest.
pub open spec fn resp_error_message(e: RespError) -> Seq<char> {
    match e {
        RespError::Utf8(f) => utf8_message(f),
        RespError::ParseInt(IntErrorKind::Empty) => "cannot parse integer from empty string"@,
        RespError::ParseInt(IntErrorKind::InvalidDigit) => "invalid digit found in string"@,
        RespError::ParseInt(IntErrorKind::PosOverflow) => "number too large to fit in target type"@,
        RespError::ParseInt(IntErrorKind::NegOverflow) => "number too small to fit in target type"@,
        RespError::InvalidBulkLength => "invalid bulk length"@,
        RespError::InvalidArrayLength => "invalid array length"@,
        RespError::InvalidFirstByte(b) => "invalid first byte: "@ + nat_digits(b as nat),
    }
}

impl RespError {
    /// The text of the error.
    pub fn message(&self) -> (res: String)
        ensures
            res@ == resp_error_message(*self),
    {
        match self {
            RespError::Utf8(f) => utf8_fault_message(*f),
            RespError::ParseInt(IntErrorKind::Empty) => String::from_str(
                "cannot parse integer from empty string",
            ),
            RespError::ParseInt(IntErrorKind::InvalidDigit) => String::from_str(
                "invalid digit found in string",
            ),
            RespError::ParseInt(IntErrorKind::PosOverflow) => String::from_str(
                "number too large to fit in target type",
            ),
            RespError::ParseInt(IntErrorKind::NegOverflow) => String::from_str(
                "number too small to fit in target type",
            ),
            RespError::InvalidBulkLength => String::from_str("invalid bulk length"),
            RespError::InvalidArrayLength => String::from_str("invalid array length"),
            RespError::InvalidFirstByte(b) => {
                let mut s = String::from_str("invalid first byte: ");
                let d = u64_to_string(*b as u64);
                s.append(d.as_str());
                s
            },
        }
    }
}

// ------------------------------------------------------------------------
// Decimal integers
// ------------------------------------------------------------------------

pub open spec fn digit_value(c: char) -> int {
    (c as int) - ('0' as int)
}

/// Accumulating the digits `d[i..]` onto `acc`, checking each step against
/// the range of `i64`.
pub open spec fn accumulate(d: Seq<char>, neg: bool, i: int, acc: int) -> Result<int, IntErrorKind>
    decreases d.len() - i,
{
    if i < 0 || i >= d.len() {
        Ok(acc)
    } else if !('0' <= d[i] && d[i] <= '9') {
        Err(IntErrorKind::InvalidDigit)
    } else {
        let next = if neg {
            acc * 10 - digit_value(d[i])
        } else {
            acc * 10 + digit_value(d[i])
        };
        if next > i64::MAX {
            Err(IntErrorKind::PosOverflow)
        } else if next < i64::MIN {
            Err(IntErrorKind::NegOverflow)
        } else {
            accumulate(d, neg, i + 1, next)
        }
    }
}

/// Reading `s` as a decimal `i64`: an optional sign, then one or more
/// digits.
pub open spec fn parse_i64_spec(s: Seq<char>) -> Result<int, IntErrorKind> {
    if s.len() == 0 {
        Err(IntErrorKind::Empty)
    } else if (s[0] == '+' || s[0] == '-') && s.len() == 1 {
        Err(IntErrorKind::InvalidDigit)
    } else if s[0] == '+' {
        accumulate(s, false, 1, 0)
    } else if s[0] == '-' {
        accumulate(s, true, 1, 0)
    } else {
        accumulate(s, false, 0, 0)
    }
}

/// Reads `s` as a decimal `i64`, as `str::parse::<i64>` does.
pub fn parse_i64(s: &[char]) -> (res: Result<i64, IntErrorKind>)
    ensures
        match parse_i64_spec(s@) {
            Ok(n) => res == Ok::<i64, IntErrorKind>(n as i64) && i64::MIN <= n <= i64::MAX,
            Err(k) => res == Err::<i64, IntErrorKind>(k),
        },
{
    if s.len() == 0 {
        return Err(IntErrorKind::Empty);
    }
    if (s[0] == '+' || s[0] == '-') && s.len() == 1 {
        return Err(IntErrorKind::InvalidDigit);
    }
    let neg = s[0] == '-';
    let mut i: usize = if s[0] == '+' || s[0] == '-' {
        1
    } else {
        0
    };
    let ghost i0 = i as int;
    let mut acc: i128 = 0;
    while i < s.len()
        invariant
            i0 <= i <= s@.len(),
            i64::MIN <= acc <= i64::MAX,
            parse_i64_spec(s@) == accumulate(s@, neg, i0, 0),
            accumulate(s@, neg, i0, 0) == accumulate(s@, neg, i as int, acc as int),
        decreases s.len() - i,
    {
        let c = s[i];
        if !(c >= '0' && c <= '9') {
            return Err(IntErrorKind::InvalidDigit);
        }
        let d = (c as u32 - '0' as u32) as i128;
        let next = if neg {
            acc * 10 - d
        } else {
            acc * 10 + d
        };
        if next > i64::MAX as i128 {
            return Err(IntErrorKind::PosOverflow);
        }
        if next < i64::MIN as i128 {
            return Err(IntErrorKind::NegOverflow);
        }
        acc = next;
        i += 1;
    }
    Ok(acc as i64)
}

// ------------------------------------------------------------------------
// Frames
// ------------------------------------------------------------------------

/// The first `\r\n` at or after `i`.
pub open spec fn crlf_from(b: Seq<u8>, i: int) -> Option<int>
    decreases b.len() - i,
{
    if i < 0 || i + 1 >= b.len() {
        None
    } else if b[i] == 13 && b[i + 1] == 10 {
        Some(i)
    } else {
        crlf_from(b, i + 1)
    }
}

pub open spec fn find_crlf_spec(b: Seq<u8>) -> Option<int> {
    crlf_from(b, 0)
}

/// A line break found from `i` lies at or after `i` and inside `b`.
pub proof fn lemma_crlf_bounds(b: Seq<u8>, i: int)
    requires
        0 <= i,
    ensures
        crlf_from(b, i) matches Some(j) ==> i <= j && j + 1 < b.len() && b[j] == 13 && b[j + 1]
            == 10,
    decreases b.len() - i,
{
    if i + 1 < b.len() && !(b[i] == 13 && b[i + 1] == 10) {
        lemma_crlf_bounds(b, i + 1);
    }
}

/// Parsing the front of `b`. (`Panic` for a header slice taken backwards;
/// a line break found past the end cannot occur, see `lemma_crlf_bounds`.)
pub open spec fn spec_parse(b: Seq<u8>) -> SpecParse
    decreases b.len(), 0nat,
{
    if b.len() == 0 {
        SpecParse::Incomplete
    } else {
        match find_crlf_spec(b) {
            None => SpecParse::Incomplete,
            Some(idx) => if idx < 1 || idx + 2 > b.len() {
                SpecParse::Panic
            } else if !valid_utf8(b.subrange(1, idx)) {
                SpecParse::Error(RespError::Utf8(utf8_fault(b.subrange(1, idx))))
            } else {
                let line = decode_utf8(b.subrange(1, idx));
                let t = b[0];
                if t == 43 {
                    SpecParse::Complete(SpecFrame::Simple(line), idx + 2)
                } else if t == 45 {
                    SpecParse::Complete(SpecFrame::Error(line), idx + 2)
                } else if t == 58 {
                    match parse_i64_spec(line) {
                        Ok(n) => SpecParse::Complete(SpecFrame::Integer(n), idx + 2),
                        Err(k) => SpecParse::Error(RespError::ParseInt(k)),
                    }
                } else if t == 36 {
                    match parse_i64_spec(line) {
                        Ok(n) => if n == -1 {
                            SpecParse::Complete(SpecFrame::Bulk(None), idx + 2)
                        } else if n >= 0 {
                            if b.len() < idx + 2 + n + 2 {
                                SpecParse::Incomplete
                            } else {
                                SpecParse::Complete(
                                    SpecFrame::Bulk(Some(b.subrange(idx + 2, idx + 2 + n))),
                                    idx + 2 + n + 2,
                                )
                            }
                        } else {
                            SpecParse::Error(RespError::InvalidBulkLength)
                        },
                        Err(k) => SpecParse::Error(RespError::ParseInt(k)),
                    }
                } else if t == 42 {
                    match parse_i64_spec(line) {
                        Ok(n) => if n == -1 {
                            SpecParse::Complete(SpecFrame::Array(None), idx + 2)
                        } else if n >= 0 {
                            parse_elems(b, idx + 2, n, seq![])
                        } else {
                            SpecParse::Error(RespError::InvalidArrayLength)
                        },
                        Err(k) => SpecParse::Error(RespError::ParseInt(k)),
                    }
                } else {
                    SpecParse::Error(RespError::InvalidFirstByte(t))
                }
            },
        }
    }
}

/// Parsing `k` more array elements from `b[cursor..]`, after the elements
/// `acc` already read.
pub open spec fn parse_elems(b: Seq<u8>, cursor: int, k: int, acc: Seq<SpecFrame>) -> SpecParse
    decreases b.len() - cursor, 1nat,
{
    if k <= 0 {
        SpecParse::Complete(SpecFrame::Array(Some(acc)), cursor)
    } else if cursor < 0 || cursor > b.len() {
        SpecParse::Incomplete
    } else {
        match spec_parse(b.subrange(cursor, b.len() as int)) {
            SpecParse::Complete(f, c) => if 0 < c && cursor + c <= b.len() {
                parse_elems(b, cursor + c, k - 1, acc.push(f))
            } else {
                SpecParse::Incomplete
            },
            SpecParse::Incomplete => SpecParse::Incomplete,
            SpecParse::Error(e) => SpecParse::Error(e),
            SpecParse::Panic => SpecParse::Panic,
        }
    }
}

/// The result matches the specification value.
pub open spec fn result_matches(r: ParseResult, s: SpecParse) -> bool {
    match s {
        SpecParse::Complete(f, c) => r matches ParseResult::Complete(g, n) && g@ == f && n == c,
        SpecParse::Incomplete => r is Incomplete,
        SpecParse::Error(e) => r == ParseResult::Error(e),
        SpecParse::Panic => false,
    }
}

/// The position of the first `\r\n` in `buf`.
pub fn find_crlf(buf: &[u8]) -> (res: Option<usize>)
    ensures
        match find_crlf_spec(buf@) {
            Some(i) => res matches Some(r) && r as int == i,
            None => res is None,
        },
        res matches Some(i) ==> i + 1 < buf@.len() && buf@[i as int] == 13 && buf@[i + 1] == 10,
{
    proof {
        lemma_crlf_bounds(buf@, 0);
    }
    if buf.len() < 2 {
        return None;
    }
    let mut i: usize = 0;
    while i < buf.len() - 1
        invariant
            buf@.len() >= 2,
            crlf_from(buf@, 0) == crlf_from(buf@, i as int),
        decreases buf.len() - i,
    {
        if buf[i] == 13 && buf[i + 1] == 10 {
            return Some(i);
        }
        i += 1;
    }
    None
}

/// Parses the frame at the front of `buf`, or reports that more bytes are
/// needed, or why the bytes are not a frame. `None` stands for the buffers
/// on which a line break opens a frame, where the header is empty and has
/// no first byte to read past.
pub fn parse_frame(buf: &[u8]) -> (res: Option<ParseResult>)
    ensures
        spec_parse(buf@) is Panic <==> res is None,
        res matches Some(r) ==> result_matches(r, spec_parse(buf@)),
        res matches Some(ParseResult::Complete(_, n)) ==> 0 < n <= buf@.len(),
    decreases buf@.len(), 1nat,
{
    if buf.len() == 0 {
        return Some(ParseResult::Incomplete);
    }
    let idx = match find_crlf(buf) {
        Some(pos) => pos,
        None => return Some(ParseResult::Incomplete),
    };
    if idx < 1 {
        return None;
    }
    let header = &buf[1..idx];
    let line = match utf8_text(header) {
        Ok(s) => s,
        Err(f) => return Some(ParseResult::Error(RespError::Utf8(f))),
    };
    let t = buf[0];
    if t == 43 {
        Some(ParseResult::Complete(Frame::Simple(line), idx + 2))
    } else if t == 45 {
        Some(ParseResult::Complete(Frame::Error(line), idx + 2))
    } else if t == 58 {
        match parse_i64(chars_of(line.as_str()).as_slice()) {
            Ok(n) => Some(ParseResult::Complete(Frame::Integer(n), idx + 2)),
            Err(k) => Some(ParseResult::Error(RespError::ParseInt(k))),
        }
    } else if t == 36 {
        match parse_i64(chars_of(line.as_str()).as_slice()) {
            Ok(n) => {
                if n == -1 {
                    Some(ParseResult::Complete(Frame::Bulk(None), idx + 2))
                } else if n >= 0 {
                    let frame_end_wide: u128 = idx as u128 + 2 + n as u128 + 2;
                    if (buf.len() as u128) < frame_end_wide {
                        return Some(ParseResult::Incomplete);
                    }
                    let data_start = idx + 2;
                    let data_end = data_start + n as usize;
                    let frame_end = data_end + 2;
                    let data = vstd::slice::slice_to_vec(&buf[data_start..data_end]);
                    Some(ParseResult::Complete(Frame::Bulk(Some(data)), frame_end))
                } else {
                    Some(ParseResult::Error(RespError::InvalidBulkLength))
                }
            },
            Err(k) => Some(ParseResult::Error(RespError::ParseInt(k))),
        }
    } else if t == 42 {
        match parse_i64(chars_of(line.as_str()).as_slice()) {
            Ok(n) => {
                if n == -1 {
                    Some(ParseResult::Complete(Frame::Array(None), idx + 2))
                } else if n >= 0 {
                    parse_array(buf, idx + 2, n as u64)
                } else {
                    Some(ParseResult::Error(RespError::InvalidArrayLength))
                }
            },
            Err(k) => Some(ParseResult::Error(RespError::ParseInt(k))),
        }
    } else {
        Some(ParseResult::Error(RespError::InvalidFirstByte(t)))
    }
}

/// The `n` elements of an array frame whose header ends at `start`.
fn parse_array(buf: &[u8], start: usize, n: u64) -> (res: Option<ParseResult>)
    requires
        2 <= start <= buf@.len(),
    ensures
        parse_elems(buf@, start as int, n as int, seq![]) is Panic <==> res is None,
        res matches Some(r) ==> result_matches(r, parse_elems(buf@, start as int, n as int, seq![])),
        res matches Some(ParseResult::Complete(_, c)) ==> 0 < c <= buf@.len(),
    decreases buf@.len(), 0nat,
{
    let mut frames: Vec<Frame> = Vec::new();
    let mut cursor = start;
    let mut i: u64 = 0;
    proof {
        assert(frames_view(frames@) =~= seq![]);
    }
    while i < n
        invariant
            2 <= start <= cursor <= buf@.len(),
            i <= n,
            parse_elems(buf@, start as int, n as int, seq![]) == parse_elems(
                buf@,
                cursor as int,
                n - i,
                frames_view(frames@),
            ),
        decreases n - i,
    {
        match parse_frame(&buf[cursor..buf.len()]) {
            Some(ParseResult::Complete(frame, consumed)) => {
                proof {
                    assert(frames_view(frames@.push(frame)) =~= frames_view(frames@).push(frame@));
                }
                frames.push(frame);
                cursor += consumed;
            },
            Some(other) => return Some(other),
            None => return None,
        }
        i += 1;
    }
    let ghost fv = frames@;
    let res = Frame::Array(Some(frames));
    proof {
        assert(res@ matches SpecFrame::Array(Some(s)) && s =~= frames_view(fv));
    }
    Some(ParseResult::Complete(res, cursor))
}

/// Parses the frame at the front of `buf`: a whole frame and its length in
/// bytes, `Incomplete` when more bytes are needed, or the error.
pub fn parse(buf: &[u8]) -> (res: ParseResult)
    requires
        !(spec_parse(buf@) is Panic),
    ensures
        result_matches(res, spec_parse(buf@)),
        res matches ParseResult::Complete(_, n) ==> 0 < n <= buf@.len(),
{
    match parse_frame(buf) {
        Some(r) => r,
        None => {
            assert(false);
            ParseResult::Incomplete
        },
    }
}


// ------------------------------------------------------------------------
// A frame is read from its own bytes alone
// ------------------------------------------------------------------------

/// Where `b` has its first line break from `i` at `j`, a buffer that agrees
/// with `b` on its first `min(len, j + 2)` bytes finds the same break when
/// it reaches past it, and none otherwise.
proof fn lemma_crlf_agree(b: Seq<u8>, b2: Seq<u8>, i: int, j: int)
    requires
        0 <= i,
        crlf_from(b, i) == Some(j),
        forall|x: int| 0 <= x < b2.len() && x < j + 2 ==> b2[x] == b[x],
    ensures
        b2.len() >= j + 2 ==> crlf_from(b2, i) == Some(j),
        b2.len() < j + 2 ==> crlf_from(b2, i) is None,
    decreases b.len() - i,
{
    lemma_crlf_bounds(b, i);
    if i + 1 >= b2.len() {
    } else if i == j {
    } else {
        assert(!(b[i] == 13 && b[i + 1] == 10));
        lemma_crlf_agree(b, b2, i + 1, j);
    }
}

/// A complete frame has a positive length within the buffer.
pub(crate) proof fn lemma_complete_bounds(b: Seq<u8>)
    ensures
        spec_parse(b) matches SpecParse::Complete(_, n) ==> 0 < n <= b.len(),
    decreases b.len(), 0nat,
{
    if b.len() > 0 {
        lemma_crlf_bounds(b, 0);
        if let Some(idx) = find_crlf_spec(b) {
            if idx >= 1 && idx + 2 <= b.len() && valid_utf8(b.subrange(1, idx)) && b[0] == 42 {
                if let Ok(n) = parse_i64_spec(decode_utf8(b.subrange(1, idx))) {
                    if n >= 0 {
                        lemma_elems_bounds(b, idx + 2, n, seq![]);
                    }
                }
            }
        }
    }
}

proof fn lemma_elems_bounds(b: Seq<u8>, cursor: int, k: int, acc: Seq<SpecFrame>)
    requires
        0 < cursor <= b.len(),
    ensures
        parse_elems(b, cursor, k, acc) matches SpecParse::Complete(_, n) ==> cursor <= n <= b.len(),
    decreases b.len() - cursor, 1nat,
{
    if k > 0 {
        let rest = b.subrange(cursor, b.len() as int);
        lemma_complete_bounds(rest);
        if let SpecParse::Complete(f, c) = spec_parse(rest) {
            if 0 < c && cursor + c <= b.len() {
                lemma_elems_bounds(b, cursor + c, k - 1, acc.push(f));
            }
        }
    }
}

/// A complete frame of `b` of `n` bytes is read the same from any buffer
/// that holds the same first `n` bytes.
pub(crate) proof fn lemma_parse_local(b: Seq<u8>, b2: Seq<u8>)
    requires
        spec_parse(b) is Complete,
        spec_parse(b)->Complete_1 <= b2.len(),
        b2.take(spec_parse(b)->Complete_1) == b.take(spec_parse(b)->Complete_1),
    ensures
        spec_parse(b2) == spec_parse(b),
    decreases b.len(), 0nat,
{
    let n = spec_parse(b)->Complete_1;
    lemma_complete_bounds(b);
    let idx = find_crlf_spec(b)->Some_0;
    lemma_crlf_bounds(b, 0);
    assert(idx + 2 <= n) by {
        if b[0] == 42 {
            if let Ok(c) = parse_i64_spec(decode_utf8(b.subrange(1, idx))) {
                if c >= 0 {
                    lemma_elems_bounds(b, idx + 2, c, seq![]);
                }
            }
        }
    }
    assert forall|x: int| 0 <= x < b2.len() && x < idx + 2 implies b2[x] == b[x] by {
        assert(b2.take(n)[x] == b.take(n)[x]);
    }
    lemma_crlf_agree(b, b2, 0, idx);
    assert(b2.subrange(1, idx) =~= b.subrange(1, idx)) by {
        assert forall|x: int| 0 <= x < idx - 1 implies #[trigger] b2.subrange(1, idx)[x] == b.subrange(1, idx)[x] by {
            assert(b2.take(n)[x + 1] == b.take(n)[x + 1]);
        }
    }
    assert(b2[0] == b.take(n)[0]);
    let line = decode_utf8(b.subrange(1, idx));
    if b[0] == 36 {
        if let Ok(c) = parse_i64_spec(line) {
            if c >= 0 {
                assert(b2.subrange(idx + 2, idx + 2 + c) =~= b.subrange(idx + 2, idx + 2 + c)) by {
                    assert forall|x: int| 0 <= x < c implies #[trigger] b2.subrange(idx + 2, idx + 2 + c)[x]
                        == b.subrange(idx + 2, idx + 2 + c)[x] by {
                        assert(b2.take(n)[idx + 2 + x] == b.take(n)[idx + 2 + x]);
                    }
                }
            }
        }
    } else if b[0] == 42 {
        if let Ok(c) = parse_i64_spec(line) {
            if c >= 0 {
                lemma_elems_local(b, b2, idx + 2, c, seq![], n);
            }
        }
    }
}

proof fn lemma_elems_local(b: Seq<u8>, b2: Seq<u8>, cursor: int, k: int, acc: Seq<SpecFrame>, n: int)
    requires
        0 < cursor <= b.len(),
        parse_elems(b, cursor, k, acc) matches SpecParse::Complete(_, m) && m == n,
        n <= b2.len(),
        b2.take(n) == b.take(n),
    ensures
        parse_elems(b2, cursor, k, acc) == parse_elems(b, cursor, k, acc),
    decreases b.len() - cursor, 1nat,
{
    lemma_elems_bounds(b, cursor, k, acc);
    if k > 0 {
        let rest = b.subrange(cursor, b.len() as int);
        let rest2 = b2.subrange(cursor, b2.len() as int);
        let f = spec_parse(rest)->Complete_0;
        let c = spec_parse(rest)->Complete_1;
        assert(cursor + c <= b.len());
        lemma_elems_bounds(b, cursor + c, k - 1, acc.push(f));
        assert(parse_elems(b, cursor, k, acc) == parse_elems(b, cursor + c, k - 1, acc.push(f)));
        assert(cursor + c <= n);
        assert(rest2.take(c) =~= rest.take(c)) by {
            assert forall|x: int| 0 <= x < c implies #[trigger] rest2.take(c)[x] == rest.take(c)[x] by {
                assert(b2.take(n)[cursor + x] == b.take(n)[cursor + x]);
                assert(rest2[x] == b2[cursor + x]);
                assert(rest[x] == b[cursor + x]);
                assert(rest2.len() >= c && rest.len() >= c);
                assert(rest2.take(c)[x] == rest2[x]);
                assert(rest.take(c)[x] == rest[x]);
                assert(b2.take(n)[cursor + x] == b2[cursor + x]);
                assert(b.take(n)[cursor + x] == b[cursor + x]);
            }
        }
        lemma_parse_local(rest, rest2);
        lemma_elems_local(b, b2, cursor + c, k - 1, acc.push(f), n);
    }
}

/// Cutting a complete frame short leaves a buffer that asks for more bytes.
pub(crate) proof fn lemma_parse_cut(b: Seq<u8>, m: int)
    requires
        spec_parse(b) is Complete,
        0 <= m < spec_parse(b)->Complete_1,
    ensures
        spec_parse(b.take(m)) is Incomplete,
    decreases b.len(), 0nat,
{
    let n = spec_parse(b)->Complete_1;
    let b2 = b.take(m);
    lemma_complete_bounds(b);
    if m > 0 {
        let idx = find_crlf_spec(b)->Some_0;
        lemma_crlf_bounds(b, 0);
        lemma_crlf_agree(b, b2, 0, idx);
        if idx + 2 <= m {
            assert(b2.subrange(1, idx) =~= b.subrange(1, idx));
            let line = decode_utf8(b.subrange(1, idx));
            if b[0] == 42 {
                let c = parse_i64_spec(line)->Ok_0;
                lemma_elems_cut(b, m, idx + 2, c, seq![]);
            }
        }
    }
}

proof fn lemma_elems_cut(b: Seq<u8>, m: int, cursor: int, k: int, acc: Seq<SpecFrame>)
    requires
        0 < cursor <= m,
        parse_elems(b, cursor, k, acc) matches SpecParse::Complete(_, n) && m < n,
    ensures
        parse_elems(b.take(m), cursor, k, acc) is Incomplete,
    decreases b.len() - cursor, 1nat,
{
    lemma_elems_bounds(b, cursor, k, acc);
    let b2 = b.take(m);
    let rest = b.subrange(cursor, b.len() as int);
    let rest2 = b2.subrange(cursor, m);
    let f = spec_parse(rest)->Complete_0;
    let c = spec_parse(rest)->Complete_1;
    assert(rest2 =~= rest.take(m - cursor));
    lemma_complete_bounds(rest);
    if cursor + c <= m {
        assert(rest2.take(c) =~= rest.take(c));
        lemma_parse_local(rest, rest2);
        lemma_elems_cut(b, m, cursor + c, k - 1, acc.push(f));
    } else {
        lemma_parse_cut(rest, m - cursor);
    }
}

} // verus!
