//! Writing frames out in RESP.

use vstd::prelude::*;
use vstd::utf8::{
    encode_scalar, encode_utf8, has_width_1_encoding, has_width_2_encoding, has_width_3_encoding,
    last_continuation_byte, leading_byte_width_1, leading_byte_width_2, leading_byte_width_3,
    leading_byte_width_4, second_last_continuation_byte, third_last_continuation_byte,
};
use crate::resp::frame::{Frame, SpecFrame, frames_view};
use crate::resp::parser::{
    accumulate, crlf_from, digit_value, find_crlf_spec, parse_elems, parse_i64_spec, spec_parse, IntErrorKind,
    SpecParse,
};
use crate::text::{append_bytes, digit_char, i64_to_string, int_digits, nat_digits, u64_to_string};

verus! {

pub open spec fn crlf() -> Seq<u8> {
    seq![13u8, 10u8]
}

/// The RESP bytes of a frame: a type byte, a header line (the text, the
/// integer, or a length with `-1` for null), and for bulk strings the bytes
/// and a line break, for arrays the elements one after the other.
pub open spec fn encode_spec(f: SpecFrame) -> Seq<u8>
    decreases f, 1nat,
{
    match f {
        SpecFrame::Simple(s) => seq![43u8] + encode_utf8(s) + crlf(),
        SpecFrame::Error(s) => seq![45u8] + encode_utf8(s) + crlf(),
        SpecFrame::Integer(n) => seq![58u8] + encode_utf8(int_digits(n)) + crlf(),
        SpecFrame::Bulk(None) => seq![36u8, 45u8, 49u8] + crlf(),
        SpecFrame::Bulk(Some(b)) => seq![36u8] + encode_utf8(nat_digits(b.len())) + crlf() + b
            + crlf(),
        SpecFrame::Array(None) => seq![42u8, 45u8, 49u8] + crlf(),
        SpecFrame::Array(Some(v)) => seq![42u8] + encode_utf8(nat_digits(v.len())) + crlf()
            + encode_all(v),
    }
}

/// The RESP bytes of the frames `v`, one after the other.
pub open spec fn encode_all(v: Seq<SpecFrame>) -> Seq<u8>
    decreases v, 0nat,
{
    if v.len() == 0 {
        Seq::empty()
    } else {
        encode_all(v.subrange(0, v.len() - 1)) + encode_spec(v[v.len() - 1])
    }
}

fn push_header(out: &mut Vec<u8>, tag: u8, text: &str)
    ensures
        final(out)@ == old(out)@ + seq![tag] + encode_utf8(text@) + crlf(),
{
    out.push(tag);
    append_bytes(out, text.as_bytes());
    out.push(13);
    out.push(10);
    assert(final(out)@ =~= old(out)@ + seq![tag] + encode_utf8(text@) + crlf());
}

/// Appends the RESP bytes of `f` to `out`.
pub fn encode_into(f: &Frame, out: &mut Vec<u8>)
    ensures
        final(out)@ == old(out)@ + encode_spec(f@),
    decreases f,
{
    match f {
        Frame::Simple(s) => push_header(out, 43, s.as_str()),
        Frame::Error(s) => push_header(out, 45, s.as_str()),
        Frame::Integer(n) => {
            let t = i64_to_string(*n);
            push_header(out, 58, t.as_str());
        },
        Frame::Bulk(None) => {
            out.push(36);
            out.push(45);
            out.push(49);
            out.push(13);
            out.push(10);
            assert(final(out)@ =~= old(out)@ + encode_spec(f@));
        },
        Frame::Bulk(Some(b)) => {
            let t = u64_to_string(b.len() as u64);
            push_header(out, 36, t.as_str());
            append_bytes(out, b.as_slice());
            out.push(13);
            out.push(10);
            assert(final(out)@ =~= old(out)@ + encode_spec(f@));
        },
        Frame::Array(None) => {
            out.push(42);
            out.push(45);
            out.push(49);
            out.push(13);
            out.push(10);
            assert(final(out)@ =~= old(out)@ + encode_spec(f@));
        },
        Frame::Array(Some(items)) => {
            let t = u64_to_string(items.len() as u64);
            push_header(out, 42, t.as_str());
            let ghost start = out@;
            let ghost fv = frames_view(items@);
            assert(f@ matches SpecFrame::Array(Some(sv)) && sv =~= fv);
            let mut i: usize = 0;
            assert(fv.subrange(0, 0) =~= Seq::<SpecFrame>::empty());
            while i < items.len()
                invariant
                    i <= items@.len(),
                    fv == frames_view(items@),
                    *f == Frame::Array(Some(*items)),
                    out@ == start + encode_all(fv.subrange(0, i as int)),
                decreases items.len() - i,
            {
                let ghost before = out@;
                proof {
                    assert(decreases_to!(*f => (*f)->Array_0));
                    assert(decreases_to!((*f)->Array_0 => (*f)->Array_0->Some_0));
                    assert((*f)->Array_0->Some_0 == *items);
                    assert(decreases_to!(*items => items@));
                    assert(decreases_to!(items@ => items@[i as int]));
                }
                encode_into(&items[i], out);
                proof {
                    let s = fv.subrange(0, i + 1);
                    assert(s.subrange(0, s.len() - 1) =~= fv.subrange(0, i as int));
                    assert(s[s.len() - 1] == items@[i as int]@);
                }
                i += 1;
            }
            assert(fv.subrange(0, items@.len() as int) =~= fv);
        },
    }
}

/// The RESP bytes of `f`.
pub fn encode(f: &Frame) -> (res: Vec<u8>)
    ensures
        res@ == encode_spec(f@),
{
    let mut out: Vec<u8> = Vec::new();
    encode_into(f, &mut out);
    assert(out@ =~= encode_spec(f@));
    out
}

// ------------------------------------------------------------------------
// The bytes of encoded text
// ------------------------------------------------------------------------

/// No carriage return in `s` is directly followed by a line feed.
pub open spec fn no_crlf(s: Seq<char>) -> bool {
    forall|i: int| 0 <= i < s.len() - 1 ==> !(#[trigger] s[i] == '\r' && s[i + 1] == '\n')
}

/// No byte 13 in `b` is directly followed by a byte 10.
pub open spec fn no_crlf_bytes(b: Seq<u8>) -> bool {
    forall|j: int| 0 <= j < b.len() - 1 ==> !(#[trigger] b[j] == 13 && b[j + 1] == 10)
}

/// An ASCII character encodes as its own code; the bytes of any other
/// character are all 128 or more.
proof fn lemma_scalar_bytes(c: char)
    ensures
        encode_scalar(c as u32).len() >= 1,
        (c as u32) < 128 ==> encode_scalar(c as u32) == seq![(c as u32) as u8],
        (c as u32) >= 128 ==> forall|i: int|
            0 <= i < encode_scalar(c as u32).len() ==> #[trigger] encode_scalar(c as u32)[i] >= 128,
{
    let v = c as u32;
    if has_width_1_encoding(v) {
        assert(leading_byte_width_1(v) == v as u8) by (bit_vector)
            requires
                v <= 0x7f,
        ;
        assert(has_width_1_encoding(v) ==> v <= 0x7f);
    } else if has_width_2_encoding(v) {
        assert(leading_byte_width_2(v) >= 128) by (bit_vector);
        assert(last_continuation_byte(v) >= 128) by (bit_vector);
    } else if has_width_3_encoding(v) {
        assert(leading_byte_width_3(v) >= 128) by (bit_vector);
        assert(second_last_continuation_byte(v) >= 128) by (bit_vector);
        assert(last_continuation_byte(v) >= 128) by (bit_vector);
    } else {
        assert(leading_byte_width_4(v) >= 128) by (bit_vector);
        assert(third_last_continuation_byte(v) >= 128) by (bit_vector);
        assert(second_last_continuation_byte(v) >= 128) by (bit_vector);
        assert(last_continuation_byte(v) >= 128) by (bit_vector);
    }
}

/// Text without a carriage return before a line feed encodes to bytes
/// without 13 before 10, and its encoding starts with 10 only when the
/// text starts with a line feed.
proof fn lemma_encode_no_crlf(s: Seq<char>)
    requires
        no_crlf(s),
    ensures
        no_crlf_bytes(encode_utf8(s)),
        encode_utf8(s).len() > 0 && encode_utf8(s)[0] == 10 ==> s.len() > 0 && s[0] == '\n',
    decreases s.len(),
{
    if s.len() > 0 {
        let c = s[0];
        let rest = s.drop_first();
        assert forall|i: int| 0 <= i < rest.len() - 1 implies !(#[trigger] rest[i] == '\r' && rest[i
            + 1] == '\n') by {
            assert(s[i + 1] == rest[i]);
        }
        lemma_encode_no_crlf(rest);
        lemma_scalar_bytes(c);
        let h = encode_scalar(c as u32);
        let t = encode_utf8(rest);
        let e = encode_utf8(s);
        assert(e == h + t);
        assert forall|j: int| 0 <= j < e.len() - 1 implies !(#[trigger] e[j] == 13 && e[j + 1]
            == 10) by {
            if j < h.len() - 1 {
                if (c as u32) >= 128 {
                    assert(h[j] >= 128);
                }
            } else if j == h.len() - 1 {
                if e[j] == 13 {
                    if (c as u32) >= 128 {
                        assert(h[j] >= 128);
                    }
                    let v = c as u32;
                    assert(v == 13) by (bit_vector)
                        requires
                            v < 128,
                            v as u8 == 13,
                    ;
                    vstd::utf8::char_u32_cast(c, v);
                    vstd::utf8::char_u32_cast('\r', 13);
                    assert(c == '\r');
                    if e[j + 1] == 10 {
                        assert(t[0] == 10);
                        assert(rest[0] == '\n');
                        assert(s[1] == '\n');
                        assert(s[0] == '\r' && s[1] == '\n');
                    }
                }
            } else {
                assert(e[j] == t[j - h.len()]);
                assert(e[j + 1] == t[j + 1 - h.len()]);
            }
        }
        if e[0] == 10 {
            if (c as u32) >= 128 {
                assert(h[0] >= 128);
            }
            let v = c as u32;
            assert(v == 10) by (bit_vector)
                requires
                    v < 128,
                    v as u8 == 10,
            ;
            vstd::utf8::char_u32_cast(c, v);
            vstd::utf8::char_u32_cast('\n', 10);
            assert(c == '\n');
        }
    }
}

/// The first line break from `i` is at `k` when there is one at `k` and
/// none before.
proof fn lemma_crlf_at(b: Seq<u8>, i: int, k: int)
    requires
        0 <= i <= k,
        k + 1 < b.len(),
        b[k] == 13 && b[k + 1] == 10,
        forall|j: int| i <= j < k ==> !(#[trigger] b[j] == 13 && b[j + 1] == 10),
    ensures
        crlf_from(b, i) == Some(k),
    decreases k - i,
{
    if i < k {
        lemma_crlf_at(b, i + 1, k);
    }
}

// ------------------------------------------------------------------------
// Reading back decimal headers
// ------------------------------------------------------------------------

/// The characters of a decimal representation are digits.
proof fn lemma_digits(m: nat)
    ensures
        nat_digits(m).len() >= 1,
        forall|i: int| 0 <= i < nat_digits(m).len() ==> '0' <= #[trigger] nat_digits(m)[i] <= '9',
    decreases m,
{
    if m >= 10 {
        lemma_digits(m / 10);
    }
}

/// One step of `accumulate`: the digit `c` onto `acc`.
spec fn acc_step(acc: int, c: char, neg: bool) -> Result<int, IntErrorKind> {
    if !('0' <= c && c <= '9') {
        Err(IntErrorKind::InvalidDigit)
    } else {
        let next = if neg {
            acc * 10 - digit_value(c)
        } else {
            acc * 10 + digit_value(c)
        };
        if next > i64::MAX {
            Err(IntErrorKind::PosOverflow)
        } else if next < i64::MIN {
            Err(IntErrorKind::NegOverflow)
        } else {
            Ok(next)
        }
    }
}

/// Accumulating one more character is one more step after the others.
proof fn lemma_acc_push(d: Seq<char>, x: char, neg: bool, i: int, acc: int)
    requires
        0 <= i <= d.len(),
    ensures
        accumulate(d.push(x), neg, i, acc) == match accumulate(d, neg, i, acc) {
            Ok(v) => acc_step(v, x, neg),
            Err(e) => Err(e),
        },
    decreases d.len() - i,
{
    let dx = d.push(x);
    if i == d.len() {
        assert(dx[i] == x);
        match acc_step(acc, x, neg) {
            Ok(n) => {
                assert(accumulate(dx, neg, i + 1, n) == Ok::<int, IntErrorKind>(n));
            },
            Err(e) => {},
        }
    } else {
        assert(dx[i] == d[i]);
        match acc_step(acc, d[i], neg) {
            Ok(n) => {
                lemma_acc_push(d, x, neg, i + 1, n);
            },
            Err(e) => {},
        }
    }
}

/// The digits of `m` after `pre` accumulate to `m`, or `-m` when negative.
proof fn lemma_acc_digits(pre: Seq<char>, m: nat, neg: bool)
    requires
        !neg ==> m <= i64::MAX,
        neg ==> m <= i64::MAX + 1,
    ensures
        accumulate(pre + nat_digits(m), neg, pre.len() as int, 0) == Ok::<int, IntErrorKind>(
            if neg {
                -m
            } else {
                m as int
            },
        ),
    decreases m,
{
    let dc = digit_char((m % 10) as int);
    assert(digit_value(dc) == m % 10);
    if m < 10 {
        let d = pre + nat_digits(m);
        assert(d[pre.len() as int] == dc);
        assert(accumulate(d, neg, pre.len() as int + 1, if neg { -(m as int) } else { m as int }) == Ok::<
            int,
            IntErrorKind,
        >(if neg { -(m as int) } else { m as int }));
    } else {
        lemma_acc_digits(pre, m / 10, neg);
        assert(pre + nat_digits(m) =~= (pre + nat_digits(m / 10)).push(dc));
        lemma_acc_push(pre + nat_digits(m / 10), dc, neg, pre.len() as int, 0);
    }
}

/// A decimal representation reads back as its number.
proof fn lemma_parse_digits(m: nat)
    requires
        m <= i64::MAX,
    ensures
        parse_i64_spec(nat_digits(m)) == Ok::<int, IntErrorKind>(m as int),
{
    lemma_digits(m);
    lemma_acc_digits(Seq::empty(), m, false);
    assert(Seq::<char>::empty() + nat_digits(m) =~= nat_digits(m));
}

/// The decimal text of an `i64` reads back as that number.
proof fn lemma_parse_int(n: int)
    requires
        i64::MIN <= n <= i64::MAX,
    ensures
        parse_i64_spec(int_digits(n)) == Ok::<int, IntErrorKind>(n),
        no_crlf(int_digits(n)),
{
    if n >= 0 {
        lemma_parse_digits(n as nat);
        lemma_digits(n as nat);
    } else {
        let m = (-n) as nat;
        lemma_digits(m);
        lemma_acc_digits(seq!['-'], m, true);
        assert(int_digits(n)[0] == '-');
    }
    lemma_digits(if n >= 0 { n as nat } else { (-n) as nat });
    let s = int_digits(n);
    assert forall|i: int| 0 <= i < s.len() - 1 implies !(#[trigger] s[i] == '\r' && s[i + 1] == '\n') by {
        if n < 0 && i >= 1 {
            assert(s[i] == nat_digits((-n) as nat)[i - 1]);
        }
    }
}

// ------------------------------------------------------------------------
// Parsing what was encoded
// ------------------------------------------------------------------------

/// A header line: the type byte `t`, the text, a line break, then `tail`.
/// Its line break is the first one, and the text reads back.
proof fn lemma_header(t: u8, text: Seq<char>, tail: Seq<u8>)
    requires
        t != 13,
        no_crlf(text),
    ensures
        find_crlf_spec(seq![t] + encode_utf8(text) + crlf() + tail) == Some(
            1 + encode_utf8(text).len() as int,
        ),
        (seq![t] + encode_utf8(text) + crlf() + tail).subrange(1, 1 + encode_utf8(text).len() as int)
            == encode_utf8(text),
        vstd::utf8::valid_utf8(encode_utf8(text)),
        vstd::utf8::decode_utf8(encode_utf8(text)) == text,
{
    let e = encode_utf8(text);
    let b = seq![t] + e + crlf() + tail;
    lemma_encode_no_crlf(text);
    vstd::utf8::encode_utf8_valid_utf8(text);
    vstd::utf8::encode_utf8_decode_utf8(text);
    assert forall|j: int| 0 <= j < 1 + e.len() implies !(#[trigger] b[j] == 13 && b[j + 1] == 10) by {
        if 1 <= j && j < e.len() {
            assert(b[j] == e[j - 1] && b[j + 1] == e[j]);
        }
        if j == e.len() {
            assert(b[j + 1] == 13);
        }
    }
    lemma_crlf_at(b, 0, 1 + e.len() as int);
    assert(b.subrange(1, 1 + e.len() as int) =~= e);
}

/// Frames whose encoding reads back: texts without a carriage return
/// before a line feed, integers and lengths that fit in an `i64`.
pub open spec fn wire_ok(f: SpecFrame) -> bool
    decreases f,
{
    match f {
        SpecFrame::Simple(s) => no_crlf(s),
        SpecFrame::Error(s) => no_crlf(s),
        SpecFrame::Integer(n) => i64::MIN <= n <= i64::MAX,
        SpecFrame::Bulk(Some(b)) => b.len() <= i64::MAX,
        SpecFrame::Bulk(None) => true,
        SpecFrame::Array(None) => true,
        SpecFrame::Array(Some(v)) => v.len() <= i64::MAX && forall|i: int|
            0 <= i < v.len() ==> wire_ok(#[trigger] v[i]),
    }
}

/// The frames of a sequence, encoded one after the other, start with the
/// first frame.
proof fn lemma_encode_all_front(w: Seq<SpecFrame>)
    requires
        w.len() >= 1,
    ensures
        encode_all(w) == encode_spec(w[0]) + encode_all(w.subrange(1, w.len() as int)),
    decreases w.len(),
{
    let n = w.len() as int;
    if n == 1 {
        let none = Seq::<SpecFrame>::empty();
        assert(w.subrange(0, 0) =~= none);
        assert(w.subrange(1, 1) =~= none);
        assert(encode_all(none) == Seq::<u8>::empty());
        assert(encode_all(w) == encode_all(w.subrange(0, 0)) + encode_spec(w[0]));
        assert(Seq::<u8>::empty() + encode_spec(w[0]) =~= encode_spec(w[0]));
        assert(encode_spec(w[0]) + Seq::<u8>::empty() =~= encode_spec(w[0]));
    } else {
        let front = w.subrange(0, n - 1);
        lemma_encode_all_front(front);
        let tail = w.subrange(1, n);
        assert(tail.subrange(0, tail.len() - 1) =~= front.subrange(1, front.len() as int));
        assert(tail[tail.len() - 1] == w[n - 1]);
        assert(front[0] == w[0]);
    }
}

/// The elements of an encoded array read back one by one.
proof fn lemma_parse_elems(v: Seq<SpecFrame>, b: Seq<u8>, start: int, j: int, rest: Seq<u8>)
    requires
        0 <= j <= v.len(),
        0 <= start <= b.len(),
        b.subrange(start, b.len() as int) == encode_all(v.subrange(j, v.len() as int)) + rest,
        forall|i: int, r: Seq<u8>|
            0 <= i < v.len() ==> #[trigger] spec_parse(encode_spec(v[i]) + r) == SpecParse::Complete(
                v[i],
                encode_spec(v[i]).len() as int,
            ),
    ensures
        parse_elems(b, start, v.len() - j, v.subrange(0, j)) == SpecParse::Complete(
            SpecFrame::Array(Some(v)),
            start + encode_all(v.subrange(j, v.len() as int)).len(),
        ),
    decreases v.len() - j,
{
    let n = v.len() as int;
    if j == n {
        assert(v.subrange(0, j) =~= v);
        assert(v.subrange(j, n) =~= Seq::<SpecFrame>::empty());
    } else {
        let w = v.subrange(j, n);
        lemma_encode_all_front(w);
        assert(w[0] == v[j]);
        assert(w.subrange(1, w.len() as int) =~= v.subrange(j + 1, n));
        let e = encode_spec(v[j]);
        let later = encode_all(v.subrange(j + 1, n)) + rest;
        assert(b.subrange(start, b.len() as int) =~= e + later);
        assert(spec_parse(e + later) == SpecParse::Complete(v[j], e.len() as int));
        assert(e.len() > 0);
        let whole = b.subrange(start, b.len() as int);
        assert(whole.len() == e.len() + later.len());
        assert forall|k: int| 0 <= k < later.len() implies b[start + e.len() + k] == later[k] by {
            assert(whole[e.len() + k] == b[start + e.len() + k]);
            assert(whole[e.len() + k] == later[k]);
        }
        assert(b.subrange(start + e.len(), b.len() as int) =~= later);
        lemma_parse_elems(v, b, start + e.len(), j + 1, rest);
        assert(v.subrange(0, j).push(v[j]) =~= v.subrange(0, j + 1));
    }
}

/// What is encoded from a frame that can cross the wire, followed by any
/// bytes, parses back to that frame and exactly its own bytes.
pub proof fn lemma_parse_encoded(f: SpecFrame, rest: Seq<u8>)
    requires
        wire_ok(f),
    ensures
        spec_parse(encode_spec(f) + rest) == SpecParse::Complete(f, encode_spec(f).len() as int),
    decreases f,
{
    let b = encode_spec(f) + rest;
    match f {
        SpecFrame::Simple(s) => {
            lemma_header(43, s, rest);
            assert(b =~= seq![43u8] + encode_utf8(s) + crlf() + rest);
        },
        SpecFrame::Error(s) => {
            lemma_header(45, s, rest);
            assert(b =~= seq![45u8] + encode_utf8(s) + crlf() + rest);
        },
        SpecFrame::Integer(n) => {
            lemma_parse_int(n);
            lemma_header(58, int_digits(n), rest);
            assert(b =~= seq![58u8] + encode_utf8(int_digits(n)) + crlf() + rest);
        },
        SpecFrame::Bulk(None) => {
            let m = seq!['-', '1'];
            vstd::utf8::is_ascii_chars_encode_utf8(m);
            assert(encode_utf8(m) =~= seq![45u8, 49u8]);
            lemma_header(36, m, rest);
            assert(b =~= seq![36u8] + encode_utf8(m) + crlf() + rest);
            assert(accumulate(m, true, 2, -1) == Ok::<int, IntErrorKind>(-1));
        },
        SpecFrame::Array(None) => {
            let m = seq!['-', '1'];
            vstd::utf8::is_ascii_chars_encode_utf8(m);
            assert(encode_utf8(m) =~= seq![45u8, 49u8]);
            lemma_header(42, m, rest);
            assert(b =~= seq![42u8] + encode_utf8(m) + crlf() + rest);
            assert(accumulate(m, true, 2, -1) == Ok::<int, IntErrorKind>(-1));
        },
        SpecFrame::Bulk(Some(x)) => {
            let d = nat_digits(x.len());
            lemma_parse_digits(x.len());
            lemma_digits(x.len());
            assert(no_crlf(d));
            let tail = x + crlf() + rest;
            lemma_header(36, d, tail);
            assert(b =~= seq![36u8] + encode_utf8(d) + crlf() + tail);
            let idx: int = 1 + encode_utf8(d).len() as int;
            assert(b.subrange(idx + 2, idx + 2 + x.len() as int) =~= x);
        },
        SpecFrame::Array(Some(v)) => {
            let d = nat_digits(v.len());
            lemma_parse_digits(v.len());
            lemma_digits(v.len());
            assert(no_crlf(d));
            let tail = encode_all(v) + rest;
            lemma_header(42, d, tail);
            assert(b =~= seq![42u8] + encode_utf8(d) + crlf() + tail);
            assert forall|i: int, r: Seq<u8>| 0 <= i < v.len() implies #[trigger] spec_parse(
                encode_spec(v[i]) + r,
            ) == SpecParse::Complete(v[i], encode_spec(v[i]).len() as int) by {
                assert(decreases_to!(f => f->Array_0));
                assert(decreases_to!(f->Array_0 => f->Array_0->Some_0));
                assert(decreases_to!(v => v[i]));
                lemma_parse_encoded(v[i], r);
            }
            let idx: int = 1 + encode_utf8(d).len() as int;
            assert(v.subrange(0, v.len() as int) =~= v);
            assert(v.subrange(0, 0) =~= Seq::<SpecFrame>::empty());
            assert(b.subrange(idx + 2, b.len() as int) =~= encode_all(v.subrange(0, v.len() as int))
                + rest);
            lemma_parse_elems(v, b, idx + 2, 0, rest);
        },
    }
}

} // verus!
