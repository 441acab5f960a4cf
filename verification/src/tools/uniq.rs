//! Collapsing runs of equal lines, optionally with their counts.

use vstd::prelude::*;
use crate::text::{append_str, nat_digits, pad_left, pad_left_spec, u64_to_string};

verus! {

/// A line without its one trailing line feed.
pub open spec fn strip_nl(s: Seq<char>) -> Seq<char> {
    if s.len() > 0 && s.last() == '\n' {
        s.drop_last()
    } else {
        s
    }
}

/// What is written for a run of `count` copies of `line`: the line, after
/// the count right-aligned in four columns and a space when counts are
/// shown.
pub open spec fn emit_spec(count: nat, line: Seq<char>, show: bool) -> Seq<char> {
    if show {
        pad_left_spec(nat_digits(count), 4) + " "@ + line
    } else {
        line
    }
}

/// The text written for a run of `count` copies of `line`.
pub fn emit(count: usize, line: &str, show: bool) -> (res: String)
    ensures
        res@ == emit_spec(count as nat, line@, show),
{
    if show {
        let mut s = pad_left(u64_to_string(count as u64).as_str(), 4);
        append_str(&mut s, " ");
        append_str(&mut s, line);
        s
    } else {
        line.to_owned()
    }
}

fn strip_newline(s: &str) -> (res: Vec<char>)
    ensures
        res@ == strip_nl(s@),
{
    let mut v = crate::text::chars_of(s);
    if v.len() > 0 && v[v.len() - 1] == '\n' {
        v.pop();
    }
    v
}

/// The run of equal lines being read: the first line of the run, as read,
/// and how many lines it has.
pub struct Uniq {
    pub prev: String,
    pub count: usize,
    pub started: bool,
}

impl Uniq {
    /// Nothing read yet.
    pub fn new() -> (res: Uniq)
        ensures
            !res.started,
            res.count == 0,
    {
        Uniq { prev: String::new(), count: 0, started: false }
    }

    /// Takes the next line, as read with its line feed. A line equal to the
    /// run's first, line feeds aside, extends the run; another ends it, and
    /// the text for the ended run is returned.
    pub fn push(&mut self, line: String, show: bool) -> (res: Option<String>)
        requires
            old(self).count < usize::MAX,
        ensures
            final(self).started,
            !old(self).started ==> res is None && final(self).prev@ == line@ && final(self).count
                == 1,
            old(self).started && strip_nl(line@) == strip_nl(old(self).prev@) ==> res is None
                && final(self).prev@ == old(self).prev@ && final(self).count == old(self).count + 1,
            old(self).started && strip_nl(line@) != strip_nl(old(self).prev@) ==> (res matches Some(
                out,
            ) && out@ == emit_spec(old(self).count as nat, old(self).prev@, show)),
            old(self).started && strip_nl(line@) != strip_nl(old(self).prev@) ==> final(self).prev@
                == line@ && final(self).count == 1,
    {
        if !self.started {
            self.prev = line;
            self.count = 1;
            self.started = true;
            return None;
        }
        let a = strip_newline(line.as_str());
        let b = strip_newline(self.prev.as_str());
        if crate::text::slice_eq(a.as_slice(), 0, a.len(), b.as_slice()) {
            assert(a@.subrange(0, a@.len() as int) =~= a@);
            self.count = self.count + 1;
            None
        } else {
            assert(a@.subrange(0, a@.len() as int) =~= a@);
            let out = emit(self.count, self.prev.as_str(), show);
            self.prev = line;
            self.count = 1;
            Some(out)
        }
    }

    /// The text for the last run, if any line was read.
    pub fn finish(&self, show: bool) -> (res: Option<String>)
        ensures
            !self.started ==> res is None,
            self.started ==> (res matches Some(out) && out@ == emit_spec(
                self.count as nat,
                self.prev@,
                show,
            )),
    {
        if self.started {
            Some(emit(self.count, self.prev.as_str(), show))
        } else {
            None
        }
    }
}

} // verus!
