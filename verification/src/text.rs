//! Character and string helpers shared by the scanners and the text tools.

use vstd::prelude::*;
use vstd::utf8::{decode_utf8, valid_utf8};
use vstd::string::StringExecFns;

verus! {

/// Appends one character to a string.
/// Trusted: wraps `String::push`; the contract states that the string's
/// characters gain `c` at the end, as std documents.
#[verifier::external_body]
pub(crate) fn push_char(s: &mut String, c: char)
    ensures
        final(s)@ == old(s)@.push(c),
{
    s.push(c);
}

/// Where bytes stop being UTF-8: the length of the valid prefix, and the
/// length of the invalid sequence after it, `None` where the bytes end
/// inside a character.
#[derive(Debug, Clone, Copy, PartialEq, Eq, Structural)]
pub struct Utf8Fault {
    pub valid_up_to: usize,
    pub error_len: Option<usize>,
}

/// The longest prefix of `b` of at most `k` bytes that is valid UTF-8.
pub open spec fn valid_prefix_upto(b: Seq<u8>, k: int) -> nat
    decreases k,
{
    if k <= 0 {
        0
    } else if valid_utf8(b.subrange(0, k)) {
        k as nat
    } else {
        valid_prefix_upto(b, k - 1)
    }
}

/// The length of the longest prefix of `b` that is valid UTF-8.
pub open spec fn valid_prefix_len(b: Seq<u8>) -> nat {
    valid_prefix_upto(b, b.len() as int)
}

/// The length of the invalid sequence that follows the valid prefix of
/// `b`, as `Utf8Error::error_len` reports it.
pub uninterp spec fn utf8_error_len(b: Seq<u8>) -> Option<usize>;

/// The fault `std::str::from_utf8` reports for `b`.
pub open spec fn utf8_fault(b: Seq<u8>) -> Utf8Fault {
    Utf8Fault { valid_up_to: valid_prefix_len(b) as usize, error_len: utf8_error_len(b) }
}

/// The bytes as text, or where they stop being UTF-8.
/// Trusted: wraps `std::str::from_utf8`. By its documentation it accepts
/// exactly the valid UTF-8 byte sequences, and then the text is what the
/// bytes encode; its error's `valid_up_to` is the length of the longest
/// valid prefix, and its `error_len`, named by `utf8_error_len`, is the
/// length of the invalid sequence there or `None` at a cut character.
#[verifier::external_body]
pub(crate) fn utf8_text(b: &[u8]) -> (res: Result<String, Utf8Fault>)
    ensures
        res is Ok <==> valid_utf8(b@),
        res matches Ok(s) ==> s@ == decode_utf8(b@),
        res matches Err(f) ==> f.valid_up_to == valid_prefix_len(b@) && f.error_len == utf8_error_len(
            b@,
        ),
{
    match std::str::from_utf8(b) {
        Ok(s) => Ok(s.to_string()),
        Err(e) => Err(Utf8Fault { valid_up_to: e.valid_up_to(), error_len: e.error_len() }),
    }
}

/// The text std gives a UTF-8 fault.
pub open spec fn utf8_message(f: Utf8Fault) -> Seq<char> {
    match f.error_len {
        Some(n) => "invalid utf-8 sequence of "@ + nat_digits(n as nat) + " bytes from index "@ + nat_digits(
            f.valid_up_to as nat,
        ),
        None => "incomplete utf-8 byte sequence from index "@ + nat_digits(f.valid_up_to as nat),
    }
}

/// The text of a UTF-8 fault.
pub fn utf8_fault_message(f: Utf8Fault) -> (res: String)
    ensures
        res@ == utf8_message(f),
{
    match f.error_len {
        Some(n) => {
            let mut s = String::from_str("invalid utf-8 sequence of ");
            let d = u64_to_string(n as u64);
            append_str(&mut s, d.as_str());
            append_str(&mut s, " bytes from index ");
            let i = u64_to_string(f.valid_up_to as u64);
            append_str(&mut s, i.as_str());
            proof {
                reveal_strlit("invalid utf-8 sequence of ");
                reveal_strlit(" bytes from index ");
            }
            s
        },
        None => {
            let mut s = String::from_str("incomplete utf-8 byte sequence from index ");
            let i = u64_to_string(f.valid_up_to as u64);
            append_str(&mut s, i.as_str());
            proof {
                reveal_strlit("incomplete utf-8 byte sequence from index ");
            }
            s
        },
    }
}

/// The characters of `s`, in order.
pub fn chars_of(s: &str) -> (res: Vec<char>)
    ensures
        res@ == s@,
{
    let mut res: Vec<char> = Vec::new();
    for c in it: s.chars()
        invariant
            res@ == it.seq().take(it.index()),
    {
        res.push(c);
    }
    res
}

/// A string holding the characters `v[lo..hi]`.
pub fn string_of(v: &[char], lo: usize, hi: usize) -> (res: String)
    requires
        lo <= hi <= v@.len(),
    ensures
        res@ == v@.subrange(lo as int, hi as int),
{
    let mut res = String::new();
    let mut i = lo;
    while i < hi
        invariant
            lo <= i <= hi <= v@.len(),
            res@ == v@.subrange(lo as int, i as int),
        decreases hi - i,
    {
        push_char(&mut res, v[i]);
        i += 1;
        assert(res@ =~= v@.subrange(lo as int, i as int));
    }
    res
}

/// Whether `v[lo..hi]` spells exactly `lit`.
pub fn slice_eq(v: &[char], lo: usize, hi: usize, lit: &[char]) -> (res: bool)
    requires
        lo <= hi <= v@.len(),
    ensures
        res == (v@.subrange(lo as int, hi as int) == lit@),
{
    if hi - lo != lit.len() {
        assert(v@.subrange(lo as int, hi as int).len() != lit@.len());
        return false;
    }
    let mut i: usize = 0;
    while i < lit.len()
        invariant
            lo <= hi <= v@.len(),
            hi - lo == lit@.len(),
            i <= lit@.len(),
            forall|j: int| 0 <= j < i ==> v@[lo + j] == lit@[j],
        decreases lit.len() - i,
    {
        if v[lo + i] != lit[i] {
            assert(v@.subrange(lo as int, hi as int)[i as int] != lit@[i as int]);
            return false;
        }
        i += 1;
    }
    assert(v@.subrange(lo as int, hi as int) =~= lit@);
    true
}

/// Whether `c` is alphanumeric in the Unicode sense (the `Alphabetic` or
/// `Numeric` property).
pub uninterp spec fn unicode_alphanumeric(c: char) -> bool;

/// Whether `c` is alphanumeric.
/// Trusted: wraps `char::is_alphanumeric`. The result is named by
/// `unicode_alphanumeric`; the contract further states what std documents
/// for ASCII: there exactly the letters and digits are alphanumeric.
#[verifier::external_body]
pub(crate) fn is_alphanumeric(c: char) -> (res: bool)
    ensures
        res == unicode_alphanumeric(c),
        (c as u32) < 128 ==> (res <==> (('a' <= c && c <= 'z') || ('A' <= c && c <= 'Z') || (
        '0' <= c && c <= '9'))),
{
    c.is_alphanumeric()
}

/// The decimal digit character for `d` (`0 <= d < 10`).
pub open spec fn digit_char(d: int) -> char {
    (('0' as int) + d) as char
}

/// The decimal representation of `n`, without leading zeros.
pub open spec fn nat_digits(n: nat) -> Seq<char>
    decreases n,
{
    if n < 10 {
        seq![digit_char(n as int)]
    } else {
        nat_digits(n / 10).push(digit_char((n % 10) as int))
    }
}

/// The decimal representation of `n`, with a minus sign when negative.
pub open spec fn int_digits(n: int) -> Seq<char> {
    if n < 0 {
        seq!['-'] + nat_digits((-n) as nat)
    } else {
        nat_digits(n as nat)
    }
}

fn digit(d: u64) -> (res: char)
    requires
        d < 10,
    ensures
        res == digit_char(d as int),
{
    if d == 0 {
        '0'
    } else if d == 1 {
        '1'
    } else if d == 2 {
        '2'
    } else if d == 3 {
        '3'
    } else if d == 4 {
        '4'
    } else if d == 5 {
        '5'
    } else if d == 6 {
        '6'
    } else if d == 7 {
        '7'
    } else if d == 8 {
        '8'
    } else {
        '9'
    }
}

/// The decimal digits of `n`.
pub fn nat_to_chars(n: u64) -> (res: Vec<char>)
    ensures
        res@ == nat_digits(n as nat),
    decreases n,
{
    if n < 10 {
        let mut v: Vec<char> = Vec::new();
        v.push(digit(n));
        assert(v@ =~= seq![digit_char(n as int)]);
        v
    } else {
        let mut v = nat_to_chars(n / 10);
        v.push(digit(n % 10));
        v
    }
}

/// The decimal text of `n`.
pub fn u64_to_string(n: u64) -> (res: String)
    ensures
        res@ == nat_digits(n as nat),
{
    let v = nat_to_chars(n);
    string_of(v.as_slice(), 0, v.len())
}

/// The decimal text of `n`, with a minus sign when negative.
pub fn i64_to_string(n: i64) -> (res: String)
    ensures
        res@ == int_digits(n as int),
{
    if n < 0 {
        let m: u64 = if n == i64::MIN {
            9223372036854775808u64
        } else {
            (-n) as u64
        };
        let v = nat_to_chars(m);
        let mut s = String::new();
        push_char(&mut s, '-');
        let mut i: usize = 0;
        while i < v.len()
            invariant
                i <= v@.len(),
                s@ == seq!['-'] + v@.subrange(0, i as int),
            decreases v.len() - i,
        {
            push_char(&mut s, v[i]);
            i += 1;
            assert(s@ =~= seq!['-'] + v@.subrange(0, i as int));
        }
        assert(v@.subrange(0, v@.len() as int) =~= v@);
        s
    } else {
        u64_to_string(n as u64)
    }
}

/// Whether two strings hold the same characters.
pub fn str_eq(a: &str, b: &str) -> (res: bool)
    ensures
        res <==> a@ == b@,
{
    let va = chars_of(a);
    let vb = chars_of(b);
    proof {
        assert(va@.subrange(0, va@.len() as int) =~= va@);
    }
    slice_eq(va.as_slice(), 0, va.len(), vb.as_slice())
}

/// `n` copies of `c`.
pub open spec fn repeat_spec(c: char, n: nat) -> Seq<char> {
    Seq::new(n, |i: int| c)
}

/// `n` copies of `c`.
pub fn repeat_char(c: char, n: usize) -> (res: String)
    ensures
        res@ == repeat_spec(c, n as nat),
{
    let mut s = String::new();
    let mut i: usize = 0;
    while i < n
        invariant
            i <= n,
            s@ == repeat_spec(c, i as nat),
        decreases n - i,
    {
        push_char(&mut s, c);
        i += 1;
        assert(s@ =~= repeat_spec(c, i as nat));
    }
    s
}

/// `s` right-aligned in a field of `width` characters.
pub open spec fn pad_left_spec(s: Seq<char>, width: nat) -> Seq<char> {
    if s.len() < width {
        repeat_spec(' ', (width - s.len()) as nat) + s
    } else {
        s
    }
}

/// `s` left-aligned in a field of `width` characters.
pub open spec fn pad_right_spec(s: Seq<char>, width: nat) -> Seq<char> {
    if s.len() < width {
        s + repeat_spec(' ', (width - s.len()) as nat)
    } else {
        s
    }
}

/// `s` centred in a field of `width` characters, the odd space going right.
pub open spec fn center_spec(s: Seq<char>, width: nat) -> Seq<char> {
    if s.len() < width {
        let pad = (width - s.len()) as nat;
        repeat_spec(' ', pad / 2) + s + repeat_spec(' ', (pad - pad / 2) as nat)
    } else {
        s
    }
}

/// Appends the characters of `t` to `s`.
pub fn append_str(s: &mut String, t: &str)
    ensures
        final(s)@ == old(s)@ + t@,
{
    let v = chars_of(t);
    let mut i: usize = 0;
    while i < v.len()
        invariant
            i <= v@.len(),
            v@ == t@,
            s@ == old(s)@ + v@.subrange(0, i as int),
        decreases v.len() - i,
    {
        push_char(s, v[i]);
        i += 1;
        assert(s@ =~= old(s)@ + v@.subrange(0, i as int));
    }
    assert(v@.subrange(0, v@.len() as int) =~= v@);
}

/// `s` right-aligned in a field of `width` characters.
pub fn pad_left(s: &str, width: usize) -> (res: String)
    ensures
        res@ == pad_left_spec(s@, width as nat),
{
    let n = chars_of(s).len();
    if n < width {
        let mut r = repeat_char(' ', width - n);
        append_str(&mut r, s);
        r
    } else {
        s.to_owned()
    }
}

/// `s` left-aligned in a field of `width` characters.
pub fn pad_right(s: &str, width: usize) -> (res: String)
    ensures
        res@ == pad_right_spec(s@, width as nat),
{
    let n = chars_of(s).len();
    let mut r = s.to_owned();
    if n < width {
        let sp = repeat_char(' ', width - n);
        append_str(&mut r, sp.as_str());
    }
    r
}

/// `s` centred in a field of `width` characters.
pub fn center(s: &str, width: usize) -> (res: String)
    ensures
        res@ == center_spec(s@, width as nat),
{
    let n = chars_of(s).len();
    if n < width {
        let pad = width - n;
        let mut r = repeat_char(' ', pad / 2);
        append_str(&mut r, s);
        let right = repeat_char(' ', pad - pad / 2);
        append_str(&mut r, right.as_str());
        r
    } else {
        s.to_owned()
    }
}

/// The strings of `parts` joined with `sep` between them.
pub open spec fn join_spec(parts: Seq<Seq<char>>, sep: Seq<char>) -> Seq<char>
    decreases parts.len(),
{
    if parts.len() == 0 {
        Seq::empty()
    } else if parts.len() == 1 {
        parts[0]
    } else {
        join_spec(parts.drop_last(), sep) + sep + parts.last()
    }
}

pub open spec fn strings_view(v: Seq<String>) -> Seq<Seq<char>> {
    v.map_values(|s: String| s@)
}

/// The strings of `parts` joined with `sep` between them.
pub fn join(parts: &Vec<String>, sep: &str) -> (res: String)
    ensures
        res@ == join_spec(strings_view(parts@), sep@),
{
    let mut out = String::new();
    let mut i: usize = 0;
    while i < parts.len()
        invariant
            i <= parts@.len(),
            out@ == join_spec(strings_view(parts@.subrange(0, i as int)), sep@),
        decreases parts.len() - i,
    {
        let ghost prev = strings_view(parts@.subrange(0, i as int));
        assert(strings_view(parts@.subrange(0, i + 1)).drop_last() =~= prev);
        assert(strings_view(parts@.subrange(0, i + 1)).last() == parts@[i as int]@);
        if i > 0 {
            append_str(&mut out, sep);
        } else {
            assert(strings_view(parts@.subrange(0, 1)) =~= seq![parts@[0]@]);
        }
        append_str(&mut out, parts[i].as_str());
        if i == 0 {
            assert(out@ =~= parts@[0]@);
        }
        i += 1;
    }
    assert(parts@.subrange(0, parts@.len() as int) =~= parts@);
    out
}

/// Whether `c` is an ASCII decimal digit.
pub open spec fn is_digit(c: char) -> bool {
    '0' <= c && c <= '9'
}

/// The number the digits `s` spell.
pub open spec fn digits_value(s: Seq<char>) -> nat
    decreases s.len(),
{
    if s.len() == 0 {
        0
    } else {
        digits_value(s.drop_last()) * 10 + ((s.last() as int) - ('0' as int)) as nat
    }
}

/// What reading `s` as a `usize` gives: an optional `+`, then at least one
/// digit and nothing else, with a value that fits.
pub open spec fn parse_usize_spec(s: Seq<char>) -> Option<nat> {
    let d = unsigned_part(s);
    if d.len() > 0 && all_digits(d) && digits_value(d) <= usize::MAX {
        Some(digits_value(d))
    } else {
        None
    }
}

/// `s` without one leading `+`.
pub open spec fn unsigned_part(s: Seq<char>) -> Seq<char> {
    if s.len() > 0 && s[0] == '+' {
        s.drop_first()
    } else {
        s
    }
}

pub open spec fn all_digits(d: Seq<char>) -> bool {
    forall|i: int| 0 <= i < d.len() ==> is_digit(#[trigger] d[i])
}

proof fn lemma_digits_push(s: Seq<char>, c: char)
    requires
        is_digit(c),
    ensures
        digits_value(s.push(c)) == digits_value(s) * 10 + ((c as int) - ('0' as int)),
        digits_value(s.push(c)) >= digits_value(s),
{
    assert(s.push(c).drop_last() =~= s);
}

/// Reads `s` as a `usize`, as std's `str::parse` does.
pub fn parse_usize(s: &str) -> (res: Option<usize>)
    ensures
        match parse_usize_spec(s@) {
            Some(n) => res == Some(n as usize),
            None => res is None,
        },
{
    let cs = chars_of(s);
    let start: usize = if cs.len() > 0 && cs[0] == '+' {
        1
    } else {
        0
    };
    let ghost d = cs@.subrange(start as int, cs@.len() as int);
    proof {
        if start == 1 {
            assert(d =~= cs@.drop_first());
        } else {
            assert(d =~= cs@);
        }
    }
    if start >= cs.len() {
        return None;
    }
    let mut acc: usize = 0;
    let mut i: usize = start;
    while i < cs.len()
        invariant
            cs@ == s@,
            start <= i <= cs@.len(),
            d == cs@.subrange(start as int, cs@.len() as int),
            d == unsigned_part(s@),
            forall|j: int| start <= j < i ==> is_digit(#[trigger] cs@[j]),
            acc as nat == digits_value(cs@.subrange(start as int, i as int)),
        decreases cs.len() - i,
    {
        let c = cs[i];
        if !('0' <= c && c <= '9') {
            assert(!is_digit(d[i - start]));
            assert(!all_digits(d));
            return None;
        }
        let dv = (c as u32 - '0' as u32) as usize;
        proof {
            assert(cs@.subrange(start as int, i + 1) =~= cs@.subrange(start as int, i as int).push(c));
            lemma_digits_push(cs@.subrange(start as int, i as int), c);
        }
        if acc > (usize::MAX - dv) / 10 {
            proof {
                let rest = cs@.subrange(start as int, i + 1);
                assert(digits_value(rest) > usize::MAX) by (nonlinear_arith)
                    requires
                        digits_value(rest) == acc * 10 + dv,
                        acc > (usize::MAX - dv) / 10,
                        dv < 10,
                ;
                if all_digits(d) {
                    assert(d.subrange(0, (i + 1 - start) as int) =~= rest);
                    lemma_digits_prefix_grows(d, (i + 1 - start) as int);
                }
            }
            return None;
        }
        acc = acc * 10 + dv;
        i += 1;
    }
    proof {
        assert(cs@.subrange(start as int, cs@.len() as int) == d);
        assert forall|j: int| 0 <= j < d.len() implies is_digit(#[trigger] d[j]) by {
            assert(d[j] == cs@[start + j]);
        }
    }
    Some(acc)
}

/// The value of a run of digits is at least that of any prefix.
proof fn lemma_digits_prefix_grows(d: Seq<char>, k: int)
    requires
        0 <= k <= d.len(),
        forall|i: int| 0 <= i < d.len() ==> is_digit(#[trigger] d[i]),
    ensures
        digits_value(d) >= digits_value(d.subrange(0, k)),
    decreases d.len() - k,
{
    if k < d.len() {
        assert(d.subrange(0, k + 1) =~= d.subrange(0, k).push(d[k]));
        lemma_digits_push(d.subrange(0, k), d[k]);
        lemma_digits_prefix_grows(d, k + 1);
    } else {
        assert(d.subrange(0, k) =~= d);
    }
}

/// Appends the bytes of `s` to `v`.
pub fn append_bytes(v: &mut Vec<u8>, s: &[u8])
    ensures
        final(v)@ == old(v)@ + s@,
{
    let mut i: usize = 0;
    while i < s.len()
        invariant
            i <= s@.len(),
            v@ == old(v)@ + s@.subrange(0, i as int),
        decreases s.len() - i,
    {
        v.push(s[i]);
        i += 1;
        assert(v@ =~= old(v)@ + s@.subrange(0, i as int));
    }
    assert(s@.subrange(0, s@.len() as int) =~= s@);
}

/// Valid UTF-8 bytes encode at most as many characters as there are bytes.
pub proof fn lemma_decode_len(b: Seq<u8>)
    requires
        vstd::utf8::valid_utf8(b),
    ensures
        vstd::utf8::decode_utf8(b).len() <= b.len(),
    decreases b.len(),
{
    if b.len() > 0 {
        assert(vstd::utf8::length_of_first_scalar(b) <= b.len() as int);
        assert(vstd::utf8::length_of_first_scalar(b) >= 1);
        lemma_decode_len(vstd::utf8::pop_first_scalar(b));
    }
}

} // verus!
