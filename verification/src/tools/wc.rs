//! Counting the lines, words, bytes and characters of a text read in
//! chunks.

use vstd::prelude::*;
use vstd::utf8::{decode_utf8, valid_utf8};
use crate::text::{utf8_text, valid_prefix_len, valid_prefix_upto, append_bytes, append_str, lemma_decode_len, chars_of, nat_digits, pad_left, pad_left_spec, str_eq, u64_to_string};

verus! {

/// What the text column counts.
#[derive(Debug, Clone, Copy, PartialEq, Eq, Structural)]
pub enum TextUnit {
    Bytes,
    Chars,
}

/// Which counts are shown.
#[derive(Debug, Clone, Copy, PartialEq, Eq, Structural)]
pub struct Mode {
    pub text_unit: TextUnit,
    pub show_lines: bool,
    pub show_words: bool,
    pub show_text: bool,
}

impl Mode {
    /// The counts the flags `-c`, `-l`, `-w` and `-m` ask for: all of lines,
    /// words and bytes when none is given.
    pub fn from_flags(c: bool, l: bool, w: bool, m: bool) -> (res: Mode)
        ensures
            !c && !l && !w && !m ==> res == (Mode {
                text_unit: TextUnit::Bytes,
                show_lines: true,
                show_words: true,
                show_text: true,
            }),
            c || l || w || m ==> res == (Mode {
                text_unit: if !c && m {
                    TextUnit::Chars
                } else {
                    TextUnit::Bytes
                },
                show_lines: l,
                show_words: w,
                show_text: c || m,
            }),
    {
        let no_flags = !c && !l && !w && !m;
        if no_flags {
            return Mode {
                text_unit: TextUnit::Bytes,
                show_lines: true,
                show_words: true,
                show_text: true,
            };
        }
        let text_unit = if c {
            TextUnit::Bytes
        } else if m {
            TextUnit::Chars
        } else {
            TextUnit::Bytes
        };
        Mode { text_unit, show_lines: l, show_words: w, show_text: c || m }
    }
}

/// The counts of one input.
#[derive(Debug, Clone, Copy, PartialEq, Eq, Structural)]
pub struct Counter {
    pub lines: usize,
    pub words: usize,
    pub bytes: usize,
    pub chars: usize,
}

impl Counter {
    /// All counts zero.
    pub fn zero() -> (res: Counter)
        ensures
            res == (Counter { lines: 0, words: 0, bytes: 0, chars: 0 }),
    {
        Counter { lines: 0, words: 0, bytes: 0, chars: 0 }
    }

    /// The counts of two inputs together.
    pub fn plus(self, rhs: Counter) -> (res: Counter)
        requires
            self.lines + rhs.lines <= usize::MAX,
            self.words + rhs.words <= usize::MAX,
            self.bytes + rhs.bytes <= usize::MAX,
            self.chars + rhs.chars <= usize::MAX,
        ensures
            res.lines == self.lines + rhs.lines,
            res.words == self.words + rhs.words,
            res.bytes == self.bytes + rhs.bytes,
            res.chars == self.chars + rhs.chars,
    {
        Counter {
            lines: self.lines + rhs.lines,
            words: self.words + rhs.words,
            bytes: self.bytes + rhs.bytes,
            chars: self.chars + rhs.chars,
        }
    }
}

/// ASCII whitespace as `u8::is_ascii_whitespace` has it: space, tab, line
/// feed, form feed and carriage return.
pub open spec fn is_ws(b: u8) -> bool {
    b == 32 || b == 9 || b == 10 || b == 12 || b == 13
}

/// The number of line feeds in `b`.
pub open spec fn count_nl(b: Seq<u8>) -> nat
    decreases b.len(),
{
    if b.len() == 0 {
        0
    } else {
        count_nl(b.drop_last()) + if b.last() == 10 {
            1nat
        } else {
            0nat
        }
    }
}

/// Words started in `b`, and whether it ends inside a word, when it
/// begins inside one exactly when `in_word`.
pub open spec fn word_scan(b: Seq<u8>, in_word: bool) -> (nat, bool)
    decreases b.len(),
{
    if b.len() == 0 {
        (0, in_word)
    } else {
        let (w, iw) = word_scan(b.drop_last(), in_word);
        if is_ws(b.last()) {
            (w, false)
        } else if !iw {
            (w + 1, true)
        } else {
            (w, true)
        }
    }
}

/// How far `b` is valid UTF-8.
fn utf8_valid_up_to(b: &[u8]) -> (res: usize)
    ensures
        res == valid_prefix_len(b@),
{
    match utf8_text(b) {
        Ok(_) => {
            proof {
                assert(b@.subrange(0, b@.len() as int) =~= b@);
            }
            b.len()
        },
        Err(f) => {
            proof {
                lemma_valid_prefix(b@, b@.len() as int);
            }
            f.valid_up_to
        },
    }
}

/// The number of characters valid UTF-8 bytes encode.
pub open spec fn utf8_chars(b: Seq<u8>) -> nat {
    decode_utf8(b).len()
}

proof fn lemma_valid_prefix(b: Seq<u8>, k: int)
    requires
        0 <= k <= b.len(),
    ensures
        valid_prefix_upto(b, k) <= k,
        valid_utf8(b.subrange(0, valid_prefix_upto(b, k) as int)),
    decreases k,
{
    if k <= 0 {
        assert(b.subrange(0, 0).len() == 0);
    } else if !valid_utf8(b.subrange(0, k)) {
        lemma_valid_prefix(b, k - 1);
    }
}

/// The counts gathered so far and what is carried from one chunk to the
/// next: whether the last chunk ended inside a word, and the bytes of a
/// character it ended in the middle of.
pub struct WcState {
    pub counter: Counter,
    pub in_word: bool,
    pub leftover: Vec<u8>,
}

/// The bytes whose characters are counted for chunk `buf`, and how many of
/// them are valid.
pub open spec fn char_window(leftover: Seq<u8>, buf: Seq<u8>) -> Seq<u8> {
    if leftover.len() == 0 {
        buf
    } else {
        leftover + buf
    }
}

/// A chunk can be taken: after bytes carried over, the invalid part of the
/// joined bytes starts inside the chunk.
pub open spec fn feed_ok(leftover: Seq<u8>, buf: Seq<u8>) -> bool {
    let w = char_window(leftover, buf);
    let v = valid_prefix_len(w);
    leftover.len() == 0 || v == w.len() || v <= buf.len()
}

/// The bytes carried after chunk `buf`.
pub open spec fn next_leftover(leftover: Seq<u8>, buf: Seq<u8>) -> Seq<u8> {
    let w = char_window(leftover, buf);
    let v = valid_prefix_len(w);
    if leftover.len() == 0 {
        buf.subrange(v as int, buf.len() as int)
    } else if v == w.len() {
        Seq::empty()
    } else {
        buf.subrange(v as int, buf.len() as int)
    }
}

impl WcState {
    /// Nothing counted yet.
    pub fn new() -> (res: WcState)
        ensures
            res.counter == Counter::zero_spec(),
            !res.in_word,
            res.leftover@.len() == 0,
    {
        WcState { counter: Counter::zero(), in_word: false, leftover: Vec::new() }
    }

    /// Whether `feed` can take `buf`.
    pub fn can_feed(&self, buf: &[u8]) -> (res: bool)
        ensures
            res == feed_ok(self.leftover@, buf@),
    {
        if self.leftover.len() == 0 {
            return true;
        }
        let mut w: Vec<u8> = Vec::new();
        append_bytes(&mut w, self.leftover.as_slice());
        append_bytes(&mut w, buf);
        let v = utf8_valid_up_to(w.as_slice());
        v == w.len() || v <= buf.len()
    }

    /// Counts the chunk `buf`.
    pub fn feed(&mut self, buf: &[u8])
        requires
            feed_ok(old(self).leftover@, buf@),
            old(self).counter.bytes + buf@.len() <= usize::MAX,
            old(self).counter.lines + buf@.len() <= usize::MAX,
            old(self).counter.words + buf@.len() <= usize::MAX,
            old(self).counter.chars + old(self).leftover@.len() + buf@.len() <= usize::MAX,
        ensures
            final(self).counter.bytes == old(self).counter.bytes + buf@.len(),
            final(self).counter.lines == old(self).counter.lines + count_nl(buf@),
            final(self).counter.words == old(self).counter.words + word_scan(
                buf@,
                old(self).in_word,
            ).0,
            final(self).in_word == word_scan(buf@, old(self).in_word).1,
            final(self).counter.chars == old(self).counter.chars + utf8_chars(
                char_window(old(self).leftover@, buf@).subrange(
                    0,
                    valid_prefix_len(char_window(old(self).leftover@, buf@)) as int,
                ),
            ),
            final(self).leftover@ == next_leftover(old(self).leftover@, buf@),
    {
        let buflen = buf.len();
        self.counter.bytes = self.counter.bytes + buflen;
        let mut lines = self.counter.lines;
        let mut words = self.counter.words;
        let mut in_word = self.in_word;
        let ghost lines0 = lines;
        let ghost words0 = words;
        let ghost iw0 = in_word;
        let mut i: usize = 0;
        while i < buflen
            invariant
                buflen == buf@.len(),
                i <= buflen,
                lines == lines0 + count_nl(buf@.subrange(0, i as int)),
                words == words0 + word_scan(buf@.subrange(0, i as int), iw0).0,
                in_word == word_scan(buf@.subrange(0, i as int), iw0).1,
                lines0 + buflen <= usize::MAX,
                words0 + buflen <= usize::MAX,
                count_nl(buf@.subrange(0, i as int)) <= i,
                word_scan(buf@.subrange(0, i as int), iw0).0 <= i,
            decreases buflen - i,
        {
            let b = buf[i];
            assert(buf@.subrange(0, i + 1).drop_last() =~= buf@.subrange(0, i as int));
            if b == 10 {
                lines += 1;
            }
            if b == 32 || b == 9 || b == 10 || b == 12 || b == 13 {
                in_word = false;
            } else {
                if !in_word {
                    words += 1;
                    in_word = true;
                }
            }
            i += 1;
        }
        assert(buf@.subrange(0, buflen as int) =~= buf@);
        self.counter.lines = lines;
        self.counter.words = words;
        self.in_word = in_word;
        let ghost w = char_window(self.leftover@, buf@);
        if self.leftover.len() == 0 {
            let v = utf8_valid_up_to(buf);
            proof {
                lemma_valid_prefix(buf@, buflen as int);
            }
            let n = count_chars(&buf[0..v]);
            proof {
                lemma_decode_len(buf@.subrange(0, v as int));
            }
            self.counter.chars = self.counter.chars + n;
            let mut rest: Vec<u8> = Vec::new();
            append_bytes(&mut rest, &buf[v..buflen]);
            self.leftover = rest;
        } else {
            let mut combined: Vec<u8> = Vec::new();
            append_bytes(&mut combined, self.leftover.as_slice());
            append_bytes(&mut combined, buf);
            assert(combined@ =~= w);
            let v = utf8_valid_up_to(combined.as_slice());
            proof {
                lemma_valid_prefix(w, w.len() as int);
            }
            let n = count_chars(&combined.as_slice()[0..v]);
            proof {
                lemma_decode_len(w.subrange(0, v as int));
            }
            self.counter.chars = self.counter.chars + n;
            self.leftover.clear();
            if v < combined.len() {
                append_bytes(&mut self.leftover, &buf[v..buflen]);
            }
        }
    }
}

impl Counter {
    pub open spec fn zero_spec() -> Counter {
        Counter { lines: 0, words: 0, bytes: 0, chars: 0 }
    }
}

/// The number of characters the valid UTF-8 bytes `b` encode.
fn count_chars(b: &[u8]) -> (res: usize)
    requires
        valid_utf8(b@),
    ensures
        res == utf8_chars(b@),
{
    match utf8_text(b) {
        Ok(s) => chars_of(s.as_str()).len(),
        Err(_) => 0,
    }
}

/// One line of output: the shown counts, each right-aligned in eight
/// columns, then the file's name unless it is standard input.
pub open spec fn counter_line(file: Seq<char>, c: Counter, mode: Mode) -> Seq<char> {
    (if mode.show_lines {
        pad_left_spec(nat_digits(c.lines as nat), 8)
    } else {
        Seq::empty()
    }) + (if mode.show_words {
        pad_left_spec(nat_digits(c.words as nat), 8)
    } else {
        Seq::empty()
    }) + (if mode.show_text {
        pad_left_spec(
            nat_digits(
                if mode.text_unit == TextUnit::Bytes {
                    c.bytes as nat
                } else {
                    c.chars as nat
                },
            ),
            8,
        )
    } else {
        Seq::empty()
    }) + (if file != "-"@ {
        " "@ + file
    } else {
        Seq::empty()
    }) + "\n"@
}

/// Formats the counts of `file`.
pub fn format_counter(file: &str, c: Counter, mode: &Mode) -> (res: String)
    ensures
        res@ == counter_line(file@, c, *mode),
{
    let mut out = String::new();
    if mode.show_lines {
        let s = pad_left(u64_to_string(c.lines as u64).as_str(), 8);
        append_str(&mut out, s.as_str());
    }
    let ghost a = out@;
    if mode.show_words {
        let s = pad_left(u64_to_string(c.words as u64).as_str(), 8);
        append_str(&mut out, s.as_str());
    }
    let ghost b = out@;
    if mode.show_text {
        let n = match mode.text_unit {
            TextUnit::Bytes => c.bytes,
            TextUnit::Chars => c.chars,
        };
        let s = pad_left(u64_to_string(n as u64).as_str(), 8);
        append_str(&mut out, s.as_str());
    }
    let ghost d = out@;
    if !str_eq(file, "-") {
        append_str(&mut out, " ");
        append_str(&mut out, file);
    }
    append_str(&mut out, "\n");
    proof {
        assert(out@ =~= counter_line(file@, c, *mode));
    }
    out
}

/// Counting lines in two chunks one after the other counts them in the
/// whole: the total does not depend on where the input was cut.
pub proof fn law_lines_split(a: Seq<u8>, b: Seq<u8>)
    ensures
        count_nl(a + b) == count_nl(a) + count_nl(b),
    decreases b.len(),
{
    if b.len() > 0 {
        assert((a + b).drop_last() =~= a + b.drop_last());
        law_lines_split(a, b.drop_last());
    } else {
        assert(a + b =~= a);
    }
}

/// Counting words in two chunks, carrying whether the first ended inside a
/// word, counts them in the whole: a word cut in two is counted once.
pub proof fn law_words_split(a: Seq<u8>, b: Seq<u8>, in_word: bool)
    ensures
        word_scan(a + b, in_word) == (
            word_scan(a, in_word).0 + word_scan(b, word_scan(a, in_word).1).0,
            word_scan(b, word_scan(a, in_word).1).1,
        ),
    decreases b.len(),
{
    if b.len() > 0 {
        assert((a + b).drop_last() =~= a + b.drop_last());
        assert((a + b).last() == b.last());
        law_words_split(a, b.drop_last(), in_word);
    } else {
        assert(a + b =~= a);
    }
}

} // verus!
