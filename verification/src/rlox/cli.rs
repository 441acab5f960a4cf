//! The two ways the interpreter is started.

use vstd::prelude::*;
use crate::text::{chars_of, str_eq, string_of};
use crate::tools::cal::{trim_end, trim_end_spec};
use crate::tools::cat::{is_whitespace, unicode_whitespace};

verus! {

/// Command-line options: an optional script to run.
pub struct Cli {
    pub file: Option<String>,
}

/// Run a script, or read lines interactively.
pub enum CliMode {
    Repl,
    FromFile(String),
}

impl Cli {
    /// With a script the interpreter runs that file; without one it starts
    /// the interactive prompt.
    pub fn parse_mode(self) -> (res: CliMode)
        ensures
            match self.file {
                Some(f) => res matches CliMode::FromFile(g) && g@ == f@,
                None => res is Repl,
            },
    {
        match self.file {
            Some(f) => CliMode::FromFile(f),
            None => CliMode::Repl,
        }
    }
}


/// `s` without leading whitespace.
pub open spec fn trim_start_spec(s: Seq<char>) -> Seq<char>
    decreases s.len(),
{
    if s.len() > 0 && unicode_whitespace(s[0]) {
        trim_start_spec(s.drop_first())
    } else {
        s
    }
}

/// `s` without whitespace at either end.
pub open spec fn trim_spec(s: Seq<char>) -> Seq<char> {
    trim_start_spec(trim_end_spec(s))
}

/// The words that end an interactive session.
pub open spec fn is_quit_word(t: Seq<char>) -> bool {
    t == "quit"@ || t == "q"@ || t == "exit"@
}

/// A line typed at the prompt: `None` when, trimmed, it is a word that ends
/// the session; otherwise the trimmed line, to be run.
pub fn repl_input(line: &str) -> (res: Option<String>)
    ensures
        match res {
            None => is_quit_word(trim_spec(line@)),
            Some(t) => !is_quit_word(trim_spec(line@)) && t@ == trim_spec(line@),
        },
{
    let end_trimmed = trim_end(line);
    let cs = chars_of(end_trimmed.as_str());
    let n = cs.len();
    let mut i: usize = 0;
    assert(cs@.subrange(0, n as int) =~= cs@);
    while i < n && is_whitespace(cs[i])
        invariant
            n == cs@.len(),
            i <= n,
            trim_start_spec(cs@) == trim_start_spec(cs@.subrange(i as int, n as int)),
        decreases n - i,
    {
        assert(cs@.subrange(i as int, n as int).drop_first() =~= cs@.subrange(i + 1, n as int));
        i += 1;
    }
    let t = string_of(cs.as_slice(), i, n);
    assert(t@ == trim_spec(line@));
    if str_eq(t.as_str(), "quit") || str_eq(t.as_str(), "q") || str_eq(t.as_str(), "exit") {
        None
    } else {
        Some(t)
    }
}

} // verus!
