//! Commands: decoding a request frame into a command, and running the
//! command against the store.

use vstd::prelude::*;
use vstd::string::StringExecFns;
use vstd::utf8::{decode_utf8, valid_utf8};
use crate::resp::db::{Db, copy_bytes};
use crate::resp::frame::{Frame, SpecFrame, frames_view};
use crate::text::{Utf8Fault, append_str, chars_of, slice_eq, utf8_fault, utf8_fault_message, utf8_message, utf8_text};

verus! {

/// Why a frame is not a command.
#[derive(Debug, Clone, PartialEq)]
pub enum CommandError {
    NotArray,
    EmptyCommand,
    NameNotBulk,
    /// A command name or key that is not UTF-8.
    Utf8(Utf8Fault),
    /// A command name other than GET, SET and DEL (upper-cased).
    Unknown(String),
    GetArity,
    GetKeyNotBulk,
    SetArity,
    SetKeyNotBulk,
    SetValueNotBulk,
    DelArity,
    DelKeyNotBulk,
}

/// The mathematical value of a command error.
pub enum SpecCmdError {
    NotArray,
    EmptyCommand,
    NameNotBulk,
    Utf8(Utf8Fault),
    Unknown(Seq<char>),
    GetArity,
    GetKeyNotBulk,
    SetArity,
    SetKeyNotBulk,
    SetValueNotBulk,
    DelArity,
    DelKeyNotBulk,
}

impl View for CommandError {
    type V = SpecCmdError;

    open spec fn view(&self) -> SpecCmdError {
        match self {
            CommandError::NotArray => SpecCmdError::NotArray,
            CommandError::EmptyCommand => SpecCmdError::EmptyCommand,
            CommandError::NameNotBulk => SpecCmdError::NameNotBulk,
            CommandError::Utf8(f) => SpecCmdError::Utf8(*f),
            CommandError::Unknown(s) => SpecCmdError::Unknown(s@),
            CommandError::GetArity => SpecCmdError::GetArity,
            CommandError::GetKeyNotBulk => SpecCmdError::GetKeyNotBulk,
            CommandError::SetArity => SpecCmdError::SetArity,
            CommandError::SetKeyNotBulk => SpecCmdError::SetKeyNotBulk,
            CommandError::SetValueNotBulk => SpecCmdError::SetValueNotBulk,
            CommandError::DelArity => SpecCmdError::DelArity,
            CommandError::DelKeyNotBulk => SpecCmdError::DelKeyNotBulk,
        }
    }
}

/// The text of a command error, as the server reports it after `ERR`.
pub open spec fn cmd_error_message(e: SpecCmdError) -> Seq<char> {
    match e {
        SpecCmdError::NotArray => "command must be an array"@,
        SpecCmdError::EmptyCommand => "empty command"@,
        SpecCmdError::NameNotBulk => "command name must be a bulk string"@,
        SpecCmdError::Utf8(f) => utf8_message(f),
        SpecCmdError::Unknown(name) => "unknown command: "@ + name,
        SpecCmdError::GetArity => "GET requires exactly 1 argument"@,
        SpecCmdError::GetKeyNotBulk => "GET key must be a bulk string"@,
        SpecCmdError::SetArity => "SET requires exactly 2 arguments"@,
        SpecCmdError::SetKeyNotBulk => "SET key must be a bulk string"@,
        SpecCmdError::SetValueNotBulk => "SET value must be a bulk string"@,
        SpecCmdError::DelArity => "DEL requires at least 1 argument"@,
        SpecCmdError::DelKeyNotBulk => "DEL key must be a bulk string"@,
    }
}

impl CommandError {
    /// The text of the error.
    pub fn message(&self) -> (res: String)
        ensures
            res@ == cmd_error_message(self@),
    {
        match self {
            CommandError::NotArray => String::from_str("command must be an array"),
            CommandError::EmptyCommand => String::from_str("empty command"),
            CommandError::NameNotBulk => String::from_str("command name must be a bulk string"),
            CommandError::Utf8(f) => utf8_fault_message(*f),
            CommandError::Unknown(name) => {
                let mut s = String::from_str("unknown command: ");
                s.append(name.as_str());
                s
            },
            CommandError::GetArity => String::from_str("GET requires exactly 1 argument"),
            CommandError::GetKeyNotBulk => String::from_str("GET key must be a bulk string"),
            CommandError::SetArity => String::from_str("SET requires exactly 2 arguments"),
            CommandError::SetKeyNotBulk => String::from_str("SET key must be a bulk string"),
            CommandError::SetValueNotBulk => String::from_str("SET value must be a bulk string"),
            CommandError::DelArity => String::from_str("DEL requires at least 1 argument"),
            CommandError::DelKeyNotBulk => String::from_str("DEL key must be a bulk string"),
        }
    }
}

/// `GET key`
pub struct Get {
    pub key: String,
}

/// `SET key value`
pub struct SetCommand {
    pub key: String,
    pub value: Vec<u8>,
}

/// `DEL key [key ...]`
pub struct Del {
    pub keys: Vec<String>,
}

/// A decoded command.
pub enum Command {
    Get(Get),
    SetKey(SetCommand),
    Del(Del),
}

/// The mathematical value of a command.
pub enum SpecCommand {
    Get(Seq<char>),
    SetKey(Seq<char>, Seq<u8>),
    Del(Seq<Seq<char>>),
}

impl View for Command {
    type V = SpecCommand;

    open spec fn view(&self) -> SpecCommand {
        match self {
            Command::Get(g) => SpecCommand::Get(g.key@),
            Command::SetKey(s) => SpecCommand::SetKey(s.key@, s.value@),
            Command::Del(d) => SpecCommand::Del(d.keys@.map_values(|k: String| k@)),
        }
    }
}

// ------------------------------------------------------------------------
// What decoding means
// ------------------------------------------------------------------------

/// Unicode upper-casing of a text, as `str::to_uppercase` defines it.
pub uninterp spec fn unicode_uppercase(s: Seq<char>) -> Seq<char>;

pub open spec fn ascii_upper(c: char) -> char {
    if 'a' <= c && c <= 'z' {
        ((c as u32) - 32) as char
    } else {
        c
    }
}

/// A command name compared upper-cased: ASCII letters map to their
/// capitals; a name with other characters maps as Unicode says.
pub open spec fn upper_name(s: Seq<char>) -> Seq<char> {
    if forall|i: int| 0 <= i < s.len() ==> (#[trigger] s[i] as u32) < 128 {
        s.map_values(|c: char| ascii_upper(c))
    } else {
        unicode_uppercase(s)
    }
}

/// The upper-cased text.
/// Trusted: wraps `str::to_uppercase`. The result is named by
/// `unicode_uppercase`; for an all-ASCII text std documents the plain ASCII
/// mapping, which the contract states.
#[verifier::external_body]
pub(crate) fn to_uppercase(s: &str) -> (res: String)
    ensures
        res@ == unicode_uppercase(s@),
        (forall|i: int| 0 <= i < s@.len() ==> (s@[i] as u32) < 128) ==> res@ == s@.map_values(
            |c: char| ascii_upper(c),
        ),
{
    s.to_uppercase()
}

/// A text argument: a bulk string holding UTF-8.
pub open spec fn text_arg(f: SpecFrame, not_bulk: SpecCmdError) -> Result<Seq<char>, SpecCmdError> {
    match f {
        SpecFrame::Bulk(Some(b)) => if valid_utf8(b) {
            Ok(decode_utf8(b))
        } else {
            Err(SpecCmdError::Utf8(utf8_fault(b)))
        },
        _ => Err(not_bulk),
    }
}

pub open spec fn get_spec(args: Seq<SpecFrame>) -> Result<SpecCommand, SpecCmdError> {
    if args.len() != 1 {
        Err(SpecCmdError::GetArity)
    } else {
        match text_arg(args[0], SpecCmdError::GetKeyNotBulk) {
            Ok(k) => Ok(SpecCommand::Get(k)),
            Err(e) => Err(e),
        }
    }
}

pub open spec fn set_spec(args: Seq<SpecFrame>) -> Result<SpecCommand, SpecCmdError> {
    if args.len() != 2 {
        Err(SpecCmdError::SetArity)
    } else {
        match text_arg(args[0], SpecCmdError::SetKeyNotBulk) {
            Err(e) => Err(e),
            Ok(k) => match args[1] {
                SpecFrame::Bulk(Some(v)) => Ok(SpecCommand::SetKey(k, v)),
                _ => Err(SpecCmdError::SetValueNotBulk),
            },
        }
    }
}

/// The keys `args[i..]`, after the keys `acc`, or the first bad argument.
pub open spec fn del_keys(args: Seq<SpecFrame>, i: int, acc: Seq<Seq<char>>) -> Result<
    Seq<Seq<char>>,
    SpecCmdError,
>
    decreases args.len() - i,
{
    if i < 0 || i >= args.len() {
        Ok(acc)
    } else {
        match text_arg(args[i], SpecCmdError::DelKeyNotBulk) {
            Err(e) => Err(e),
            Ok(k) => del_keys(args, i + 1, acc.push(k)),
        }
    }
}

pub open spec fn del_spec(args: Seq<SpecFrame>) -> Result<SpecCommand, SpecCmdError> {
    if args.len() == 0 {
        Err(SpecCmdError::DelArity)
    } else {
        match del_keys(args, 0, seq![]) {
            Ok(ks) => Ok(SpecCommand::Del(ks)),
            Err(e) => Err(e),
        }
    }
}

/// Decoding a request frame: an array whose first element names the
/// command (compared upper-cased) and whose other elements are its
/// arguments.
pub open spec fn dispatch_spec(f: SpecFrame) -> Result<SpecCommand, SpecCmdError> {
    match f {
        SpecFrame::Array(Some(arr)) => if arr.len() == 0 {
            Err(SpecCmdError::EmptyCommand)
        } else {
            match arr[0] {
                SpecFrame::Bulk(Some(b)) => if !valid_utf8(b) {
                    Err(SpecCmdError::Utf8(utf8_fault(b)))
                } else {
                    let name = upper_name(decode_utf8(b));
                    let args = arr.skip(1);
                    if name == seq!['G', 'E', 'T'] {
                        get_spec(args)
                    } else if name == seq!['S', 'E', 'T'] {
                        set_spec(args)
                    } else if name == seq!['D', 'E', 'L'] {
                        del_spec(args)
                    } else {
                        Err(SpecCmdError::Unknown(name))
                    }
                },
                _ => Err(SpecCmdError::NameNotBulk),
            }
        },
        _ => Err(SpecCmdError::NotArray),
    }
}

pub open spec fn cmd_result_matches(
    r: Result<Command, CommandError>,
    s: Result<SpecCommand, SpecCmdError>,
) -> bool {
    match s {
        Ok(c) => r matches Ok(x) && x@ == c,
        Err(e) => r matches Err(x) && x@ == e,
    }
}

// ------------------------------------------------------------------------
// Decoding
// ------------------------------------------------------------------------

fn text_of(f: &Frame, not_bulk: CommandError) -> (res: Result<String, CommandError>)
    ensures
        match text_arg(f@, not_bulk@) {
            Ok(k) => res matches Ok(s) && s@ == k,
            Err(e) => res matches Err(x) && x@ == e,
        },
{
    match f {
        Frame::Bulk(Some(bytes)) => match utf8_text(bytes.as_slice()) {
            Ok(s) => Ok(s),
            Err(f) => Err(CommandError::Utf8(f)),
        },
        _ => Err(not_bulk),
    }
}

impl Get {
    /// `GET` takes exactly one bulk-string key.
    pub fn parse(args: Vec<Frame>) -> (res: Result<Get, CommandError>)
        ensures
            cmd_result_matches(
                match res {
                    Ok(g) => Ok(Command::Get(g)),
                    Err(e) => Err(e),
                },
                get_spec(frames_view(args@)),
            ),
    {
        if args.len() != 1 {
            return Err(CommandError::GetArity);
        }
        let key = text_of(&args[0], CommandError::GetKeyNotBulk)?;
        Ok(Get { key })
    }

    /// The stored value as a bulk string, or a null bulk string.
    pub fn execute(self, db: &Db) -> (res: Frame)
        ensures
            res@ == get_reply(db@, self.key@),
    {
        Frame::Bulk(db.get(&self.key))
    }
}

impl SetCommand {
    /// `SET` takes exactly two bulk strings: a UTF-8 key and a value.
    pub fn parse(args: Vec<Frame>) -> (res: Result<SetCommand, CommandError>)
        ensures
            cmd_result_matches(
                match res {
                    Ok(s) => Ok(Command::SetKey(s)),
                    Err(e) => Err(e),
                },
                set_spec(frames_view(args@)),
            ),
    {
        if args.len() != 2 {
            return Err(CommandError::SetArity);
        }
        let key = text_of(&args[0], CommandError::SetKeyNotBulk)?;
        let value = match &args[1] {
            Frame::Bulk(Some(bytes)) => copy_bytes(bytes),
            _ => return Err(CommandError::SetValueNotBulk),
        };
        Ok(SetCommand { key, value })
    }

    /// Stores the value and answers `+OK`.
    pub fn execute(self, db: &mut Db) -> (res: Frame)
        ensures
            final(db)@ == old(db)@.insert(self.key@, self.value@),
            res@ == SpecFrame::Simple("OK"@),
    {
        db.set(self.key, self.value);
        Frame::Simple("OK".to_owned())
    }
}

impl Del {
    /// `DEL` takes one or more bulk-string keys.
    pub fn parse(args: Vec<Frame>) -> (res: Result<Del, CommandError>)
        ensures
            cmd_result_matches(
                match res {
                    Ok(d) => Ok(Command::Del(d)),
                    Err(e) => Err(e),
                },
                del_spec(frames_view(args@)),
            ),
    {
        if args.len() == 0 {
            return Err(CommandError::DelArity);
        }
        let ghost v = frames_view(args@);
        let mut keys: Vec<String> = Vec::new();
        let mut i: usize = 0;
        assert(keys@.map_values(|k: String| k@) =~= seq![]);
        while i < args.len()
            invariant
                0 <= i <= args@.len(),
                v == frames_view(args@),
                del_keys(v, 0, seq![]) == del_keys(v, i as int, keys@.map_values(|k: String| k@)),
            decreases args.len() - i,
        {
            let key = text_of(&args[i], CommandError::DelKeyNotBulk)?;
            let ghost ks = keys@;
            keys.push(key);
            assert(keys@.map_values(|k: String| k@) =~= ks.map_values(|k: String| k@).push(key@));
            i += 1;
        }
        Ok(Del { keys })
    }

    /// Removes the keys and answers the number that were present.
    pub fn execute(self, db: &mut Db) -> (res: Frame)
        requires
            self.keys@.len() < i64::MAX,
        ensures
            res@ == SpecFrame::Integer(removed_count(old(db)@, self.keys@.map_values(|k: String| k@)) as int),
            final(db)@ == remove_all(old(db)@, self.keys@.map_values(|k: String| k@)),
    {
        let ghost ks = self.keys@.map_values(|k: String| k@);
        let mut n: i64 = 0;
        let mut i: usize = 0;
        assert(ks.take(0) =~= seq![]);
        while i < self.keys.len()
            invariant
                i <= self.keys@.len() < i64::MAX,
                ks == self.keys@.map_values(|k: String| k@),
                0 <= n <= i,
                n == removed_count(old(db)@, ks.take(i as int)),
                db@ == remove_all(old(db)@, ks.take(i as int)),
            decreases self.keys.len() - i,
        {
            assert(ks.take(i + 1).drop_last() =~= ks.take(i as int));
            let ghost before = db@;
            if db.del(&self.keys[i]) {
                n += 1;
            }
            i += 1;
        }
        assert(ks.take(i as int) =~= ks);
        Frame::Integer(n)
    }
}

/// The reply to `GET k` on the store `m`: the value as a bulk string, or a
/// null bulk string.
pub open spec fn get_reply(m: Map<Seq<char>, Seq<u8>>, k: Seq<char>) -> SpecFrame {
    SpecFrame::Bulk(
        if m.contains_key(k) {
            Some(m[k])
        } else {
            None
        },
    )
}

/// The store after deleting the keys `ks` in order.
pub open spec fn remove_all(m: Map<Seq<char>, Seq<u8>>, ks: Seq<Seq<char>>) -> Map<
    Seq<char>,
    Seq<u8>,
>
    decreases ks.len(),
{
    if ks.len() == 0 {
        m
    } else {
        remove_all(m, ks.drop_last()).remove(ks.last())
    }
}

/// The number of deletions in the sequence `ks` that find their key
/// present, deleting in order from `m`.
pub open spec fn removed_count(m: Map<Seq<char>, Seq<u8>>, ks: Seq<Seq<char>>) -> nat
    decreases ks.len(),
{
    if ks.len() == 0 {
        0
    } else {
        removed_count(m, ks.drop_last()) + if remove_all(m, ks.drop_last()).contains_key(
            ks.last(),
        ) {
            1nat
        } else {
            0nat
        }
    }
}

/// The store after a command, and its reply: `GET` answers the value
/// stored with the key; `SET` stores the value and answers `OK`; `DEL`
/// removes the keys and answers how many were there.
pub open spec fn run_spec(m: Map<Seq<char>, Seq<u8>>, c: SpecCommand) -> (Map<Seq<char>, Seq<u8>>, SpecFrame) {
    match c {
        SpecCommand::Get(k) => (m, get_reply(m, k)),
        SpecCommand::SetKey(k, v) => (m.insert(k, v), SpecFrame::Simple("OK"@)),
        SpecCommand::Del(ks) => (remove_all(m, ks), SpecFrame::Integer(removed_count(m, ks) as int)),
    }
}

/// The store after a request frame, and the reply to it: what the command
/// it holds gives, or, for a frame that is no command, an error reply
/// `ERR` and the reason, the store unchanged.
pub open spec fn respond_spec(m: Map<Seq<char>, Seq<u8>>, f: SpecFrame) -> (Map<Seq<char>, Seq<u8>>, SpecFrame) {
    match dispatch_spec(f) {
        Ok(c) => run_spec(m, c),
        Err(e) => (m, SpecFrame::Error("ERR "@ + cmd_error_message(e))),
    }
}

/// Answers a request frame against the store.
pub fn respond(frame: Frame, db: &mut Db) -> (res: Frame)
    requires
        dispatch_spec(frame@) matches Ok(SpecCommand::Del(ks)) ==> ks.len() < i64::MAX,
    ensures
        (final(db)@, res@) == respond_spec(old(db)@, frame@),
{
    match Command::from_frame(frame) {
        Ok(cmd) => {
            proof {
                match &cmd {
                    Command::Del(d) => {
                        assert(d.keys@.map_values(|k: String| k@).len() == d.keys@.len());
                    },
                    _ => {},
                }
            }
            cmd.execute(db)
        },
        Err(e) => {
            let mut msg = String::from_str("ERR ");
            proof {
                reveal_strlit("ERR ");
            }
            let reason = e.message();
            append_str(&mut msg, reason.as_str());
            Frame::Error(msg)
        },
    }
}

impl Command {
    /// Decodes a request frame into a command.
    pub fn from_frame(frame: Frame) -> (res: Result<Command, CommandError>)
        ensures
            cmd_result_matches(res, dispatch_spec(frame@)),
    {
        dispatch(frame)
    }

    /// Runs the command against the store and returns the reply frame.
    pub fn execute(self, db: &mut Db) -> (res: Frame)
        requires
            self matches Command::Del(d) ==> d.keys@.len() < i64::MAX,
        ensures
            (final(db)@, res@) == run_spec(old(db)@, self@),
    {
        match self {
            Command::Get(g) => g.execute(db),
            Command::SetKey(s) => s.execute(db),
            Command::Del(d) => d.execute(db),
        }
    }
}

/// Decodes a request frame into a command: the first element of the array
/// names the command, the rest are its arguments.
pub fn dispatch(frame: Frame) -> (res: Result<Command, CommandError>)
    ensures
        cmd_result_matches(res, dispatch_spec(frame@)),
{
    let ghost fv = frame@;
    let mut arr = match frame {
        Frame::Array(Some(frames)) => frames,
        _ => return Err(CommandError::NotArray),
    };
    if arr.len() == 0 {
        return Err(CommandError::EmptyCommand);
    }
    let ghost v = frames_view(arr@);
    assert(fv matches SpecFrame::Array(Some(s)) && s =~= v);
    let ghost before = arr@;
    let first = arr.remove(0);
    assert(frames_view(arr@) =~= v.skip(1)) by {
        assert(arr@ == before.remove(0));
    }
    assert(first@ == v[0]);
    let name = match first {
        Frame::Bulk(Some(bytes)) => match utf8_text(bytes.as_slice()) {
            Ok(s) => to_uppercase(s.as_str()),
            Err(f) => return Err(CommandError::Utf8(f)),
        },
        _ => return Err(CommandError::NameNotBulk),
    };
    let chars = chars_of(name.as_str());
    let get = ['G', 'E', 'T'];
    let set = ['S', 'E', 'T'];
    let del = ['D', 'E', 'L'];
    assert(get@ =~= seq!['G', 'E', 'T']);
    assert(set@ =~= seq!['S', 'E', 'T']);
    assert(del@ =~= seq!['D', 'E', 'L']);
    assert(chars@.subrange(0, chars@.len() as int) =~= chars@);
    if slice_eq(chars.as_slice(), 0, chars.len(), &get) {
        Ok(Command::Get(Get::parse(arr)?))
    } else if slice_eq(chars.as_slice(), 0, chars.len(), &set) {
        Ok(Command::SetKey(SetCommand::parse(arr)?))
    } else if slice_eq(chars.as_slice(), 0, chars.len(), &del) {
        Ok(Command::Del(Del::parse(arr)?))
    } else {
        Err(CommandError::Unknown(name))
    }
}

} // verus!
