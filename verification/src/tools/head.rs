//! The first lines or bytes of each input.

use vstd::prelude::*;
use crate::text::{append_str, str_eq};

verus! {

/// How much of each input is shown.
#[derive(Debug, Clone, Copy, PartialEq, Eq, Structural)]
pub enum Limit {
    Lines(usize),
    Bytes(usize),
}

/// The limit the options `-n` (lines) and `-c` (bytes) ask for: a count of
/// zero is refused, bytes win over lines, ten lines when neither is given.
pub fn limit_of(lines: Option<usize>, bytes: Option<usize>) -> (res: Result<Limit, String>)
    ensures
        lines == Some(0usize) ==> (res matches Err(m) && m@ == "illegal line count -- 0"@),
        lines != Some(0usize) && bytes == Some(0usize) ==> (res matches Err(m) && m@
            == "illegal byte count -- 0"@),
        lines != Some(0usize) && bytes is Some && bytes != Some(0usize) ==> res == Ok::<
            Limit,
            String,
        >(Limit::Bytes(bytes->Some_0)),
        lines is Some && lines != Some(0usize) && bytes is None ==> res == Ok::<Limit, String>(
            Limit::Lines(lines->Some_0),
        ),
        lines is None && bytes is None ==> res == Ok::<Limit, String>(Limit::Lines(10)),
{
    match (lines, bytes) {
        (Some(0), _) => Err(String::from_str("illegal line count -- 0")),
        (_, Some(0)) => Err(String::from_str("illegal byte count -- 0")),
        (_, Some(n)) => Ok(Limit::Bytes(n)),
        (Some(n), _) => Ok(Limit::Lines(n)),
        _ => Ok(Limit::Lines(10)),
    }
}

/// How an input is named in headers and messages: `stdin` for `-`.
pub fn file_label(file: &str) -> (res: String)
    ensures
        file@ == "-"@ ==> res@ == "stdin"@,
        file@ != "-"@ ==> res@ == file@,
{
    if str_eq(file, "-") {
        String::from_str("stdin")
    } else {
        file.to_owned()
    }
}

/// The header printed before input number `i` when there are several: a
/// blank line between inputs, then `==> name <==`.
pub fn file_header(i: usize, file: &str) -> (res: String)
    ensures
        res@ == (if i > 0 {
            "\n"@
        } else {
            Seq::<char>::empty()
        }) + "==> "@ + (if file@ == "-"@ {
            "stdin"@
        } else {
            file@
        }) + " <==\n"@,
{
    let mut s = String::new();
    if i > 0 {
        append_str(&mut s, "\n");
    }
    append_str(&mut s, "==> ");
    let label = file_label(file);
    append_str(&mut s, label.as_str());
    append_str(&mut s, " <==\n");
    s
}

/// How many bytes of a chunk of `available` bytes are written when
/// `remaining` bytes are still wanted.
pub fn bytes_to_take(remaining: usize, available: usize) -> (res: usize)
    ensures
        res == if remaining < available {
            remaining
        } else {
            available
        },
{
    if remaining < available {
        remaining
    } else {
        available
    }
}

} // verus!
