//! One step of serving a connection: what to do with the bytes read so far.

use vstd::prelude::*;
use crate::resp::command::{SpecCommand, dispatch_spec, respond, respond_spec};
use crate::resp::db::Db;
use crate::resp::encode::{encode, encode_spec};
use crate::resp::parser::{ParseResult, SpecParse, parse, resp_error_message, spec_parse};

verus! {

/// What a connection does next.
pub enum Step {
    /// No whole request is buffered yet: read more bytes.
    NeedMore,
    /// A request was answered: send these bytes.
    Reply(Vec<u8>),
    /// The buffered bytes are not a request: drop the connection with this
    /// message.
    Fail(String),
}

/// The front of `buf` can be answered without failing: its header slice is
/// not taken backwards, and a `DEL` it holds counts its keys in an `i64`.
pub open spec fn step_ok(buf: Seq<u8>) -> bool {
    &&& !(spec_parse(buf) is Panic)
    &&& spec_parse(buf) matches SpecParse::Complete(f, _) ==> (dispatch_spec(f) matches Ok(
        SpecCommand::Del(ks),
    ) ==> ks.len() < i64::MAX)
}

/// Handles the request at the front of `buf` against `db`: a whole request
/// is taken off the buffer, run, and its encoded answer returned; with too
/// few bytes nothing changes; bytes that are not a frame give the parser's
/// message.
pub fn serve_step(db: &mut Db, buf: &mut Vec<u8>) -> (res: Step)
    requires
        step_ok(old(buf)@),
    ensures
        match spec_parse(old(buf)@) {
            SpecParse::Complete(f, n) => {
                &&& final(buf)@ == old(buf)@.subrange(n, old(buf)@.len() as int)
                &&& final(db)@ == respond_spec(old(db)@, f).0
                &&& res matches Step::Reply(b) && b@ == encode_spec(respond_spec(old(db)@, f).1)
            },
            SpecParse::Incomplete => final(buf)@ == old(buf)@ && final(db)@ == old(db)@ && res is NeedMore,
            SpecParse::Error(e) => {
                &&& final(buf)@ == old(buf)@
                &&& final(db)@ == old(db)@
                &&& res matches Step::Fail(m) && m@ == resp_error_message(e)
            },
            SpecParse::Panic => false,
        },
{
    match parse(buf.as_slice()) {
        ParseResult::Complete(frame, consumed) => {
            let rest = buf.split_off(consumed);
            *buf = rest;
            let response = respond(frame, db);
            Step::Reply(encode(&response))
        },
        ParseResult::Incomplete => Step::NeedMore,
        ParseResult::Error(e) => Step::Fail(e.message()),
    }
}

} // verus!
