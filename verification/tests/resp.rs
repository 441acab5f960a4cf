use byo_suite::resp::command::{dispatch, respond, Command, CommandError, Del, Get, SetCommand};
use byo_suite::resp::db::{copy_bytes, Db};
use byo_suite::resp::encode::encode;
use byo_suite::resp::frame::Frame;
use byo_suite::resp::session::{serve_step, Step};
use byo_suite::text::Utf8Fault;
use byo_suite::resp::parser::{find_crlf, parse, parse_i64, IntErrorKind, ParseResult, RespError};

fn bulk(s: &str) -> Frame {
    Frame::Bulk(Some(s.as_bytes().to_vec()))
}

fn request(parts: &[&str]) -> Frame {
    Frame::Array(Some(parts.iter().map(|p| bulk(p)).collect()))
}

fn run(db: &mut Db, parts: &[&str]) -> Frame {
    dispatch(request(parts)).unwrap().execute(db)
}

#[test]
fn finds_the_first_line_break() {
    assert_eq!(find_crlf(b"+OK\r\n"), Some(3));
    assert_eq!(find_crlf(b"ab\rc\r\n"), Some(4));
    assert_eq!(find_crlf(b"abc\r"), None);
    assert_eq!(find_crlf(b""), None);
}

#[test]
fn reads_decimal_integers() {
    assert_eq!(parse_i64(&['4', '2']), Ok(42));
    assert_eq!(parse_i64(&['-', '7']), Ok(-7));
    assert_eq!(parse_i64(&['+', '7']), Ok(7));
    assert_eq!(parse_i64(&[]), Err(IntErrorKind::Empty));
    assert_eq!(parse_i64(&['-']), Err(IntErrorKind::InvalidDigit));
    assert_eq!(parse_i64(&['1', 'x']), Err(IntErrorKind::InvalidDigit));
    let big: Vec<char> = "9223372036854775808".chars().collect();
    assert_eq!(parse_i64(&big), Err(IntErrorKind::PosOverflow));
    let small: Vec<char> = "-9223372036854775809".chars().collect();
    assert_eq!(parse_i64(&small), Err(IntErrorKind::NegOverflow));
    let min: Vec<char> = "-9223372036854775808".chars().collect();
    assert_eq!(parse_i64(&min), Ok(i64::MIN));
}

#[test]
fn parses_simple_strings_and_errors() {
    match parse(b"+OK\r\nrest") {
        ParseResult::Complete(Frame::Simple(s), n) => {
            assert_eq!(s, "OK");
            assert_eq!(n, 5);
        }
        other => panic!("unexpected {:?}", other),
    }
    match parse(b"-ERR bad\r\n") {
        ParseResult::Complete(Frame::Error(s), n) => {
            assert_eq!(s, "ERR bad");
            assert_eq!(n, 10);
        }
        other => panic!("unexpected {:?}", other),
    }
}

#[test]
fn parses_integers() {
    match parse(b":-12\r\n") {
        ParseResult::Complete(Frame::Integer(n), len) => {
            assert_eq!(n, -12);
            assert_eq!(len, 6);
        }
        other => panic!("unexpected {:?}", other),
    }
    assert!(matches!(parse(b":x\r\n"), ParseResult::Error(RespError::ParseInt(IntErrorKind::InvalidDigit))));
}

#[test]
fn parses_bulk_strings() {
    match parse(b"$5\r\nhello\r\n") {
        ParseResult::Complete(Frame::Bulk(Some(b)), n) => {
            assert_eq!(b, b"hello".to_vec());
            assert_eq!(n, 11);
        }
        other => panic!("unexpected {:?}", other),
    }
    assert!(matches!(parse(b"$-1\r\n"), ParseResult::Complete(Frame::Bulk(None), 5)));
    assert!(matches!(parse(b"$0\r\n\r\n"), ParseResult::Complete(Frame::Bulk(Some(_)), 6)));
    assert!(matches!(parse(b"$5\r\nhel"), ParseResult::Incomplete));
    assert!(matches!(parse(b"$-2\r\n"), ParseResult::Error(RespError::InvalidBulkLength)));
}

#[test]
fn parses_arrays() {
    match parse(b"*2\r\n$3\r\nGET\r\n$1\r\nk\r\n") {
        ParseResult::Complete(Frame::Array(Some(items)), n) => {
            assert_eq!(n, 20);
            assert_eq!(items.len(), 2);
            assert!(matches!(&items[0], Frame::Bulk(Some(b)) if b == b"GET"));
            assert!(matches!(&items[1], Frame::Bulk(Some(b)) if b == b"k"));
        }
        other => panic!("unexpected {:?}", other),
    }
    assert!(matches!(parse(b"*-1\r\n"), ParseResult::Complete(Frame::Array(None), 5)));
    assert!(matches!(parse(b"*0\r\n"), ParseResult::Complete(Frame::Array(Some(_)), 4)));
    assert!(matches!(parse(b"*2\r\n:1\r\n"), ParseResult::Incomplete));
    assert!(matches!(parse(b"*-3\r\n"), ParseResult::Error(RespError::InvalidArrayLength)));
}

#[test]
fn incomplete_and_invalid_buffers() {
    assert!(matches!(parse(b""), ParseResult::Incomplete));
    assert!(matches!(parse(b"+OK"), ParseResult::Incomplete));
    assert!(matches!(parse(b"!x\r\n"), ParseResult::Error(RespError::InvalidFirstByte(33))));
    match parse(b"+ab\xff\r\n") {
        ParseResult::Error(e) => {
            assert_eq!(e, RespError::Utf8(Utf8Fault { valid_up_to: 2, error_len: Some(1) }));
            assert_eq!(e.message(), "invalid utf-8 sequence of 1 bytes from index 2");
        }
        other => panic!("unexpected {:?}", other),
    }
    match parse(b"+a\xe2\x82\r\n") {
        ParseResult::Error(e) => {
            assert_eq!(e.message(), "incomplete utf-8 byte sequence from index 1");
        }
        other => panic!("unexpected {:?}", other),
    }
}

#[test]
fn db_set_get_del() {
    let mut db = Db::new();
    let k = "name".to_string();
    assert_eq!(db.get(&k), None);
    db.set(k.clone(), b"one".to_vec());
    assert_eq!(db.get(&k), Some(b"one".to_vec()));
    db.set(k.clone(), b"two".to_vec());
    assert_eq!(db.get(&k), Some(b"two".to_vec()));
    assert!(db.del(&k));
    assert_eq!(db.get(&k), None);
    assert!(!db.del(&k));
}

#[test]
fn copy_bytes_copies() {
    let v = vec![1u8, 2, 3];
    assert_eq!(copy_bytes(&v), v);
}

#[test]
fn set_then_get_answers_the_value() {
    let mut db = Db::new();
    assert!(matches!(run(&mut db, &["SET", "k", "v"]), Frame::Simple(ref s) if s == "OK"));
    match run(&mut db, &["GET", "k"]) {
        Frame::Bulk(Some(b)) => assert_eq!(b, b"v".to_vec()),
        other => panic!("unexpected {:?}", other),
    }
    assert!(matches!(run(&mut db, &["GET", "other"]), Frame::Bulk(None)));
}

#[test]
fn command_names_are_case_insensitive() {
    let mut db = Db::new();
    run(&mut db, &["set", "k", "v"]);
    assert!(matches!(run(&mut db, &["gEt", "k"]), Frame::Bulk(Some(_))));
}

#[test]
fn del_counts_the_keys_present() {
    let mut db = Db::new();
    run(&mut db, &["SET", "a", "1"]);
    run(&mut db, &["SET", "b", "2"]);
    assert!(matches!(run(&mut db, &["DEL", "a", "b", "c", "a"]), Frame::Integer(2)));
    assert!(matches!(run(&mut db, &["GET", "a"]), Frame::Bulk(None)));
}

#[test]
fn decoding_errors() {
    assert_eq!(dispatch(Frame::Integer(1)).err(), Some(CommandError::NotArray));
    assert_eq!(dispatch(Frame::Array(None)).err(), Some(CommandError::NotArray));
    assert_eq!(dispatch(Frame::Array(Some(vec![]))).err(), Some(CommandError::EmptyCommand));
    assert_eq!(dispatch(Frame::Array(Some(vec![Frame::Integer(1)]))).err(), Some(CommandError::NameNotBulk));
    assert_eq!(dispatch(request(&["PING"])).err(), Some(CommandError::Unknown("PING".to_string())));
    assert_eq!(dispatch(request(&["ping"])).err(), Some(CommandError::Unknown("PING".to_string())));
    assert_eq!(dispatch(request(&["GET"])).err(), Some(CommandError::GetArity));
    assert_eq!(dispatch(request(&["GET", "a", "b"])).err(), Some(CommandError::GetArity));
    assert_eq!(dispatch(request(&["SET", "a"])).err(), Some(CommandError::SetArity));
    assert_eq!(dispatch(request(&["DEL"])).err(), Some(CommandError::DelArity));
    let bad_key = Frame::Array(Some(vec![bulk("GET"), Frame::Integer(3)]));
    assert_eq!(dispatch(bad_key).err(), Some(CommandError::GetKeyNotBulk));
    let bad_value = Frame::Array(Some(vec![bulk("SET"), bulk("k"), Frame::Integer(3)]));
    assert_eq!(dispatch(bad_value).err(), Some(CommandError::SetValueNotBulk));
    let bad_set_key = Frame::Array(Some(vec![bulk("SET"), Frame::Simple("k".to_string()), bulk("v")]));
    assert_eq!(dispatch(bad_set_key).err(), Some(CommandError::SetKeyNotBulk));
    let bad_del = Frame::Array(Some(vec![bulk("DEL"), bulk("a"), Frame::Bulk(None)]));
    assert_eq!(dispatch(bad_del).err(), Some(CommandError::DelKeyNotBulk));
    let not_utf8 = Frame::Array(Some(vec![bulk("GET"), Frame::Bulk(Some(vec![0xff]))]));
    let err = dispatch(not_utf8).err().unwrap();
    assert_eq!(err, CommandError::Utf8(Utf8Fault { valid_up_to: 0, error_len: Some(1) }));
    assert_eq!(err.message(), "invalid utf-8 sequence of 1 bytes from index 0");
}

#[test]
fn command_parsers_take_the_arguments() {
    let g = Get::parse(vec![bulk("k")]).ok().unwrap();
    assert_eq!(g.key, "k");
    let s = SetCommand::parse(vec![bulk("k"), bulk("v")]).ok().unwrap();
    assert_eq!(s.key, "k");
    assert_eq!(s.value, b"v".to_vec());
    let d = Del::parse(vec![bulk("a"), bulk("b")]).ok().unwrap();
    assert_eq!(d.keys, vec!["a".to_string(), "b".to_string()]);
    assert!(matches!(Command::from_frame(request(&["DEL", "x"])), Ok(Command::Del(_))));
}

#[test]
fn encodes_frames() {
    assert_eq!(encode(&Frame::Simple("OK".to_string())), b"+OK\r\n".to_vec());
    assert_eq!(encode(&Frame::Error("ERR x".to_string())), b"-ERR x\r\n".to_vec());
    assert_eq!(encode(&Frame::Integer(-12)), b":-12\r\n".to_vec());
    assert_eq!(encode(&Frame::Bulk(None)), b"$-1\r\n".to_vec());
    assert_eq!(encode(&bulk("héllo")), "$6\r\nhéllo\r\n".as_bytes().to_vec());
    assert_eq!(encode(&Frame::Array(None)), b"*-1\r\n".to_vec());
    assert_eq!(encode(&request(&["GET", "k"])), b"*2\r\n$3\r\nGET\r\n$1\r\nk\r\n".to_vec());
}

#[test]
fn encoded_frames_parse_back() {
    let f = Frame::Array(Some(vec![Frame::Integer(7), bulk("v"), Frame::Simple("s".to_string())]));
    let bytes = encode(&f);
    match parse(&bytes) {
        ParseResult::Complete(Frame::Array(Some(items)), n) => {
            assert_eq!(n, bytes.len());
            assert!(matches!(items[0], Frame::Integer(7)));
            assert!(matches!(&items[2], Frame::Simple(s) if s == "s"));
        }
        other => panic!("unexpected {:?}", other),
    }
}

#[test]
fn error_messages() {
    assert_eq!(CommandError::Unknown("PING".to_string()).message(), "unknown command: PING");
    assert_eq!(CommandError::NotArray.message(), "command must be an array");
    assert_eq!(CommandError::SetArity.message(), "SET requires exactly 2 arguments");
    assert_eq!(RespError::InvalidFirstByte(33).message(), "invalid first byte: 33");
    assert_eq!(RespError::ParseInt(IntErrorKind::InvalidDigit).message(), "invalid digit found in string");
}

#[test]
fn requests_are_answered_or_refused() {
    let mut db = Db::new();
    assert!(matches!(respond(request(&["SET", "k", "v"]), &mut db), Frame::Simple(ref s) if s == "OK"));
    assert!(matches!(respond(request(&["get", "k"]), &mut db), Frame::Bulk(Some(ref b)) if b == b"v"));
    assert!(matches!(
        respond(request(&["PING"]), &mut db),
        Frame::Error(ref e) if e == "ERR unknown command: PING"
    ));
    assert!(matches!(
        respond(Frame::Simple("GET".to_string()), &mut db),
        Frame::Error(ref e) if e == "ERR command must be an array"
    ));
    assert!(matches!(respond(request(&["DEL", "k", "z"]), &mut db), Frame::Integer(1)));
    assert!(matches!(respond(request(&["GET", "k"]), &mut db), Frame::Bulk(None)));
}

#[test]
fn a_cut_frame_asks_for_more_bytes() {
    let frames: [&[u8]; 4] = [b"+OK\r\n", b":42\r\n", b"$3\r\nabc\r\n", b"*2\r\n:1\r\n$1\r\nx\r\n"];
    for f in frames.iter() {
        match parse(f) {
            ParseResult::Complete(_, n) => assert_eq!(n, f.len()),
            other => panic!("unexpected {:?}", other),
        }
        for m in 0..f.len() {
            assert!(matches!(parse(&f[..m]), ParseResult::Incomplete), "cut at {}", m);
        }
    }
}

#[test]
fn bytes_after_a_frame_are_not_read() {
    let mut buf = b"*2\r\n+a\r\n:7\r\n".to_vec();
    let whole = buf.len();
    buf.extend_from_slice(b"-garbage\r\n$");
    match parse(&buf) {
        ParseResult::Complete(Frame::Array(Some(items)), n) => {
            assert_eq!(n, whole);
            assert_eq!(items.len(), 2);
            assert!(matches!(&items[0], Frame::Simple(s) if s == "a"));
            assert!(matches!(&items[1], Frame::Integer(7)));
        }
        other => panic!("unexpected {:?}", other),
    }
}

#[test]
fn serve_step_answers_one_buffered_request() {
    let mut db = Db::new();
    let mut buf = b"*3\r\n$3\r\nSET\r\n$1\r\nk\r\n$1\r\nv\r\n*2\r\n$3\r\nGET\r\n$1\r\nk\r\n".to_vec();
    match serve_step(&mut db, &mut buf) {
        Step::Reply(bytes) => assert_eq!(bytes, b"+OK\r\n".to_vec()),
        _ => panic!("expected a reply"),
    }
    assert_eq!(buf, b"*2\r\n$3\r\nGET\r\n$1\r\nk\r\n".to_vec());
    match serve_step(&mut db, &mut buf) {
        Step::Reply(bytes) => assert_eq!(bytes, b"$1\r\nv\r\n".to_vec()),
        _ => panic!("expected a reply"),
    }
    assert!(buf.is_empty());
    assert!(matches!(serve_step(&mut db, &mut buf), Step::NeedMore));
    let mut partial = b"*2\r\n$3\r\nGE".to_vec();
    assert!(matches!(serve_step(&mut db, &mut partial), Step::NeedMore));
    assert_eq!(partial, b"*2\r\n$3\r\nGE".to_vec());
    let mut bad = b"?x\r\n".to_vec();
    match serve_step(&mut db, &mut bad) {
        Step::Fail(m) => assert_eq!(m, "invalid first byte: 63"),
        _ => panic!("expected a failure"),
    }
}
