//! Numbering the lines of a text.

use vstd::prelude::*;
use crate::text::{append_str, chars_of, nat_digits, pad_left, pad_left_spec, u64_to_string};

verus! {

/// Which lines get a number.
#[derive(Debug, Clone, Copy, PartialEq, Eq, Structural)]
pub enum LineNumbering {
    Off,
    All,
    NonBlank,
}

/// The files to print and how their lines are numbered.
#[derive(Debug)]
pub struct Config {
    pub files: Vec<String>,
    pub numbering: LineNumbering,
}

/// The configuration the flags ask for: `-b` numbers the lines that are not
/// blank and wins over `-n`, which numbers all lines.
pub fn get_args(files: Vec<String>, number_lines: bool, number_nonblank_lines: bool) -> (res: Config)
    ensures
        res.files@ == files@,
        res.numbering == if number_nonblank_lines {
            LineNumbering::NonBlank
        } else if number_lines {
            LineNumbering::All
        } else {
            LineNumbering::Off
        },
{
    let numbering = if number_nonblank_lines {
        LineNumbering::NonBlank
    } else if number_lines {
        LineNumbering::All
    } else {
        LineNumbering::Off
    };
    Config { files, numbering }
}

/// Whether `c` is whitespace in the Unicode sense (`White_Space`).
pub uninterp spec fn unicode_whitespace(c: char) -> bool;

/// Whether `c` is whitespace.
/// Trusted: wraps `char::is_whitespace`. The result is named by
/// `unicode_whitespace`; the contract adds what std documents for ASCII:
/// there the whitespace characters are space, tab, line feed, vertical tab,
/// form feed and carriage return.
#[verifier::external_body]
pub(crate) fn is_whitespace(c: char) -> (res: bool)
    ensures
        res == unicode_whitespace(c),
        (c as u32) < 128 ==> (res <==> (c == ' ' || c == '\t' || c == '\n' || c == '\x0B' || c
            == '\x0C' || c == '\r')),
{
    c.is_whitespace()
}

/// A line is blank when all its characters are whitespace.
pub open spec fn is_blank(s: Seq<char>) -> bool {
    forall|i: int| 0 <= i < s.len() ==> unicode_whitespace(#[trigger] s[i])
}

/// Whether `line` is blank.
pub fn blank(line: &str) -> (res: bool)
    ensures
        res == is_blank(line@),
{
    let cs = chars_of(line);
    let mut i: usize = 0;
    while i < cs.len()
        invariant
            cs@ == line@,
            i <= cs@.len(),
            forall|j: int| 0 <= j < i ==> unicode_whitespace(#[trigger] cs@[j]),
        decreases cs.len() - i,
    {
        if !is_whitespace(cs[i]) {
            return false;
        }
        i += 1;
    }
    true
}

/// A numbered line: the number right-aligned in six columns, a tab, the
/// line.
pub open spec fn numbered(n: nat, line: Seq<char>) -> Seq<char> {
    pad_left_spec(nat_digits(n), 6) + "\t"@ + line + "\n"@
}

/// What is printed for `line` and the number the next numbered line gets.
pub open spec fn format_line_spec(line: Seq<char>, numbering: LineNumbering, line_no: nat) -> (
    Seq<char>,
    nat,
) {
    match numbering {
        LineNumbering::Off => (line + "\n"@, line_no),
        LineNumbering::All => (numbered(line_no, line), line_no + 1),
        LineNumbering::NonBlank => if is_blank(line) {
            ("\n"@, line_no)
        } else {
            (numbered(line_no, line), line_no + 1)
        },
    }
}

/// Prints one line (given without its line feed) as `numbering` says, the
/// next number to use being `line_no`; gives the next number after it.
pub fn format_line(line: &str, numbering: LineNumbering, line_no: usize) -> (res: (String, usize))
    requires
        line_no < usize::MAX,
    ensures
        res.0@ == format_line_spec(line@, numbering, line_no as nat).0,
        res.1 as nat == format_line_spec(line@, numbering, line_no as nat).1,
{
    match numbering {
        LineNumbering::Off => {
            let mut s = line.to_owned();
            append_str(&mut s, "\n");
            (s, line_no)
        },
        LineNumbering::All => (number_line(line, line_no), line_no + 1),
        LineNumbering::NonBlank => {
            if blank(line) {
                let mut s = String::new();
                append_str(&mut s, "\n");
                (s, line_no)
            } else {
                (number_line(line, line_no), line_no + 1)
            }
        },
    }
}

fn number_line(line: &str, n: usize) -> (res: String)
    ensures
        res@ == numbered(n as nat, line@),
{
    let mut s = pad_left(u64_to_string(n as u64).as_str(), 6);
    append_str(&mut s, "\t");
    append_str(&mut s, line);
    append_str(&mut s, "\n");
    s
}

} // verus!
