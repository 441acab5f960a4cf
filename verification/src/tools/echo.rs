//! Echoing arguments.

use vstd::prelude::*;
use crate::text::{append_str, join, join_spec, strings_view};

verus! {

/// What `echo` writes: the words joined by spaces, then a line feed unless
/// it is omitted.
pub fn echo_output(text: &Vec<String>, omit_newline: bool) -> (res: String)
    ensures
        res@ == join_spec(strings_view(text@), " "@) + if omit_newline {
            Seq::<char>::empty()
        } else {
            "\n"@
        },
{
    let mut out = join(text, " ");
    if !omit_newline {
        append_str(&mut out, "\n");
    } else {
        assert(out@ =~= out@ + Seq::<char>::empty());
    }
    out
}

} // verus!
