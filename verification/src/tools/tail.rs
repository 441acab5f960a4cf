//! The last (or all but the first) lines or bytes of a file.

use vstd::prelude::*;
use vstd::utf8::{decode_utf8, valid_utf8};
use crate::text::{append_str, chars_of, parse_usize, parse_usize_spec, push_char, string_of};

verus! {

/// Which part is shown: the last `n`, or everything from the `n`th on.
#[derive(Debug, Clone, Copy, PartialEq, Eq, Structural)]
pub enum Mode {
    Last(usize),
    FromStart(usize),
}

/// What is counted.
#[derive(Debug, Clone, Copy, PartialEq, Eq, Structural)]
pub enum TextUnit {
    Bytes,
    Lines,
}

/// What a count argument means: `+N` counts from the start, `-N` or `N`
/// from the end.
pub open spec fn parse_mode_spec(s: Seq<char>) -> Option<Mode> {
    if s.len() > 0 && s[0] == '+' {
        match parse_usize_spec(s.drop_first()) {
            Some(n) => Some(Mode::FromStart(n as usize)),
            None => None,
        }
    } else {
        let t = if s.len() > 0 && s[0] == '-' {
            s.drop_first()
        } else {
            s
        };
        match parse_usize_spec(t) {
            Some(n) => Some(Mode::Last(n as usize)),
            None => None,
        }
    }
}

/// Reads a count argument; `unit` names what is counted in the message
/// for a count that cannot be read.
pub fn parse_mode(s: &str, unit: &str) -> (res: Result<Mode, String>)
    ensures
        match parse_mode_spec(s@) {
            Some(m) => res == Ok::<Mode, String>(m),
            None => res matches Err(msg) && msg@ == "illegal "@ + unit@ + " count -- "@ + s@,
        },
{
    let cs = chars_of(s);
    let parsed = if cs.len() > 0 && cs[0] == '+' {
        let r = string_of(cs.as_slice(), 1, cs.len());
        assert(r@ =~= s@.drop_first());
        match parse_usize(r.as_str()) {
            Some(n) => Some(Mode::FromStart(n)),
            None => None,
        }
    } else {
        let start: usize = if cs.len() > 0 && cs[0] == '-' {
            1
        } else {
            0
        };
        let t = string_of(cs.as_slice(), start, cs.len());
        proof {
            if start == 1 {
                assert(t@ =~= s@.drop_first());
            } else {
                assert(t@ =~= s@);
            }
        }
        match parse_usize(t.as_str()) {
            Some(n) => Some(Mode::Last(n)),
            None => None,
        }
    };
    match parsed {
        Some(m) => Ok(m),
        None => {
            let mut msg = String::from_str("illegal ");
            append_str(&mut msg, unit);
            append_str(&mut msg, " count -- ");
            append_str(&mut msg, s);
            Err(msg)
        },
    }
}

/// The pieces of `s` between line feeds (one more than there are line
/// feeds).
pub open spec fn split_nl(s: Seq<char>) -> Seq<Seq<char>>
    decreases s.len(),
{
    if s.len() == 0 {
        seq![Seq::empty()]
    } else {
        let p = split_nl(s.drop_last());
        if s.last() == '\n' {
            p.push(Seq::empty())
        } else {
            p.update(p.len() - 1, p.last().push(s.last()))
        }
    }
}

proof fn lemma_split_nonempty(s: Seq<char>)
    ensures
        split_nl(s).len() >= 1,
    decreases s.len(),
{
    if s.len() > 0 {
        lemma_split_nonempty(s.drop_last());
    }
}

/// The lines of `content`: the pieces between line feeds, without the empty
/// piece after a final line feed.
pub open spec fn lines_of(content: Seq<char>) -> Seq<Seq<char>> {
    let p = split_nl(content);
    if p.last().len() == 0 {
        p.drop_last()
    } else {
        p
    }
}

/// Splits `content` into lines.
pub fn split_lines(content: &str) -> (res: Vec<String>)
    ensures
        res@.map_values(|l: String| l@) == lines_of(content@),
{
    let cs = chars_of(content);
    let mut pieces: Vec<String> = Vec::new();
    let mut cur = String::new();
    let mut cur_len: usize = 0;
    let mut i: usize = 0;
    proof {
        assert(cs@.subrange(0, 0) =~= Seq::<char>::empty());
        assert(pieces@.map_values(|l: String| l@).push(cur@) =~= seq![Seq::<char>::empty()]);
    }
    while i < cs.len()
        invariant
            cs@ == content@,
            i <= cs@.len(),
            cur_len as int == cur@.len(),
            cur_len <= i,
            pieces@.map_values(|l: String| l@).push(cur@) == split_nl(cs@.subrange(0, i as int)),
        decreases cs.len() - i,
    {
        let ghost before = pieces@.map_values(|l: String| l@).push(cur@);
        assert(cs@.subrange(0, i + 1).drop_last() =~= cs@.subrange(0, i as int));
        if cs[i] == '\n' {
            let ghost pv = pieces@;
            let done = cur;
            pieces.push(done);
            cur = String::new();
            cur_len = 0;
            proof {
                assert(pieces@.map_values(|l: String| l@) =~= pv.map_values(|l: String| l@).push(
                    done@,
                ));
                assert(pieces@.map_values(|l: String| l@).push(cur@) =~= before.push(
                    Seq::<char>::empty(),
                ));
            }
        } else {
            push_char(&mut cur, cs[i]);
            cur_len += 1;
            proof {
                assert(pieces@.map_values(|l: String| l@).push(cur@) =~= before.update(
                    before.len() - 1,
                    before.last().push(cs@[i as int]),
                ));
            }
        }
        i += 1;
    }
    assert(cs@.subrange(0, cs@.len() as int) =~= cs@);
    let ghost pv = pieces@;
    if cur_len != 0 {
        let last = cur;
        pieces.push(last);
        assert(pieces@.map_values(|l: String| l@) =~= pv.map_values(|l: String| l@).push(last@));
    } else {
        assert(pv.map_values(|l: String| l@) =~= split_nl(content@).drop_last());
    }
    pieces
}

/// The text bytes decode to when each invalid sequence is replaced by the
/// replacement character.
pub uninterp spec fn utf8_lossy(b: Seq<u8>) -> Seq<char>;

/// The bytes as text, invalid sequences replaced.
/// Trusted: wraps `String::from_utf8_lossy`. The result is named by
/// `utf8_lossy`; the contract adds what std documents for valid input:
/// then the text is exactly what the bytes encode.
#[verifier::external_body]
pub(crate) fn lossy_text(b: &[u8]) -> (res: String)
    ensures
        res@ == utf8_lossy(b@),
        valid_utf8(b@) ==> res@ == decode_utf8(b@),
{
    String::from_utf8_lossy(b).into_owned()
}

/// The lines, each followed by a line feed.
pub open spec fn lines_text(ls: Seq<Seq<char>>) -> Seq<char>
    decreases ls.len(),
{
    if ls.len() == 0 {
        Seq::empty()
    } else {
        lines_text(ls.drop_last()) + ls.last() + "\n"@
    }
}

pub open spec fn min(a: int, b: int) -> int {
    if a < b {
        a
    } else {
        b
    }
}

/// `n - 1`, or 0 for 0.
pub open spec fn before(n: int) -> int {
    if n > 0 {
        n - 1
    } else {
        0
    }
}

/// What is printed for a file holding `data`.
pub open spec fn tail_spec(data: Seq<u8>, mode: Mode, unit: TextUnit) -> Seq<char> {
    let len = data.len() as int;
    match mode {
        Mode::Last(n) => if n == 0 {
            Seq::empty()
        } else {
            match unit {
                TextUnit::Bytes => utf8_lossy(data.subrange(len - min(n as int, len), len)),
                TextUnit::Lines => {
                    let ls = lines_of(utf8_lossy(data));
                    let k = ls.len() as int;
                    lines_text(ls.subrange(k - min(n as int, k), k))
                },
            }
        },
        Mode::FromStart(n) => match unit {
            TextUnit::Bytes => utf8_lossy(data.subrange(min(before(n as int), len), len)),
            TextUnit::Lines => {
                let ls = lines_of(utf8_lossy(data));
                let k = ls.len() as int;
                lines_text(ls.subrange(min(before(n as int), k), k))
            },
        },
    }
}

fn write_lines(ls: &Vec<String>, from: usize) -> (res: String)
    requires
        from <= ls@.len(),
    ensures
        res@ == lines_text(ls@.map_values(|l: String| l@).subrange(from as int, ls@.len() as int)),
{
    let ghost v = ls@.map_values(|l: String| l@);
    let mut out = String::new();
    let mut i = from;
    assert(v.subrange(from as int, from as int) =~= Seq::<Seq<char>>::empty());
    while i < ls.len()
        invariant
            from <= i <= ls@.len(),
            v == ls@.map_values(|l: String| l@),
            out@ == lines_text(v.subrange(from as int, i as int)),
        decreases ls.len() - i,
    {
        assert(v.subrange(from as int, i + 1).drop_last() =~= v.subrange(from as int, i as int));
        append_str(&mut out, ls[i].as_str());
        append_str(&mut out, "\n");
        i += 1;
    }
    out
}

/// What is printed for a file holding `data`.
pub fn tail_output(data: &[u8], mode: Mode, unit: TextUnit) -> (res: String)
    ensures
        res@ == tail_spec(data@, mode, unit),
{
    let len = data.len();
    match mode {
        Mode::Last(n) => {
            if n == 0 {
                return String::new();
            }
            match unit {
                TextUnit::Bytes => {
                    let start = if n < len {
                        len - n
                    } else {
                        0
                    };
                    lossy_text(&data[start..len])
                },
                TextUnit::Lines => {
                    let text = lossy_text(data);
                    let ls = split_lines(text.as_str());
                    let k = ls.len();
                    let start = if n < k {
                        k - n
                    } else {
                        0
                    };
                    write_lines(&ls, start)
                },
            }
        },
        Mode::FromStart(n) => {
            let skip = if n > 0 {
                n - 1
            } else {
                0
            };
            match unit {
                TextUnit::Bytes => {
                    let s = if skip < len {
                        skip
                    } else {
                        len
                    };
                    lossy_text(&data[s..len])
                },
                TextUnit::Lines => {
                    let text = lossy_text(data);
                    let ls = split_lines(text.as_str());
                    let k = ls.len();
                    let s = if skip < k {
                        skip
                    } else {
                        k
                    };
                    write_lines(&ls, s)
                },
            }
        },
    }
}

} // verus!
