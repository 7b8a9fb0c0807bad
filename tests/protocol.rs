use bytes::BytesMut;
use rust_redis::cmd::Command;
use rust_redis::db::Db;
use rust_redis::frame::{end_of_stream, StreamEnd};
use rust_redis::glob::glob_match;
use rust_redis::frame::{
    check_complete, get_u8, parse_decimal, read_decimal, read_line, read_n_bytes, read_until_crlf,
    serialize_frame, skip, Cursor, Error, Frame,
};
use rust_redis::pubsub::PubSub;

fn req(parts: &[&str]) -> Frame {
    Frame::Array(parts.iter().map(|p| Frame::Bulk(p.as_bytes().to_vec())).collect())
}

fn run(db: &mut Db, hub: &PubSub, parts: &[&str], now: u64) -> Vec<u8> {
    let reply = match Command::from_frame(req(parts)) {
        Ok(c) => c.execute(db, hub, now),
        Err(e) => Frame::Error(e),
    };
    serialize_frame(&reply)
}

fn bytes(s: &str) -> Vec<u8> {
    s.as_bytes().to_vec()
}

#[test]
fn ping_replies_pong_or_echoes() {
    let (mut db, hub) = (Db::new(), PubSub::new());
    assert_eq!(run(&mut db, &hub, &["PING"], 0), bytes("+PONG\r\n"));
    assert_eq!(run(&mut db, &hub, &["PING", "hi"], 0), bytes("$2\r\nhi\r\n"));
    assert_eq!(run(&mut db, &hub, &["echo", "x y"], 0), bytes("$3\r\nx y\r\n"));
}

#[test]
fn set_get_del() {
    let (mut db, hub) = (Db::new(), PubSub::new());
    assert_eq!(run(&mut db, &hub, &["SET", "foo", "bar"], 0), bytes("+OK\r\n"));
    assert_eq!(run(&mut db, &hub, &["GET", "foo"], 0), bytes("$3\r\nbar\r\n"));
    assert_eq!(run(&mut db, &hub, &["DEL", "foo", "foo"], 0), bytes(":1\r\n"));
    assert_eq!(run(&mut db, &hub, &["GET", "foo"], 0), bytes("$-1\r\n"));
}

#[test]
fn set_with_expiry_reads_absent_later() {
    let (mut db, hub) = (Db::new(), PubSub::new());
    assert_eq!(run(&mut db, &hub, &["SET", "x", "y", "EX", "1"], 0), bytes("+OK\r\n"));
    assert_eq!(run(&mut db, &hub, &["GET", "x"], 999), bytes("$1\r\ny\r\n"));
    assert_eq!(run(&mut db, &hub, &["GET", "x"], 1100), bytes("$-1\r\n"));
    assert_eq!(run(&mut db, &hub, &["EXISTS", "x"], 1100), bytes(":0\r\n"));
}

#[test]
fn list_scenario() {
    let (mut db, hub) = (Db::new(), PubSub::new());
    assert_eq!(run(&mut db, &hub, &["RPUSH", "L", "a", "b", "c"], 0), bytes(":3\r\n"));
    assert_eq!(run(&mut db, &hub, &["LPUSH", "L", "z"], 0), bytes(":4\r\n"));
    assert_eq!(
        run(&mut db, &hub, &["LRANGE", "L", "0", "-1"], 0),
        bytes("*4\r\n$1\r\nz\r\n$1\r\na\r\n$1\r\nb\r\n$1\r\nc\r\n")
    );
    assert_eq!(run(&mut db, &hub, &["LPOP", "L"], 0), bytes("$1\r\nz\r\n"));
    assert_eq!(run(&mut db, &hub, &["LLEN", "L"], 0), bytes(":3\r\n"));
    assert_eq!(run(&mut db, &hub, &["RPOP", "L"], 0), bytes("$1\r\nc\r\n"));
}

#[test]
fn lpush_pushes_each_value_to_the_head() {
    let (mut db, hub) = (Db::new(), PubSub::new());
    assert_eq!(run(&mut db, &hub, &["LPUSH", "k", "a", "b", "c"], 0), bytes(":3\r\n"));
    assert_eq!(
        run(&mut db, &hub, &["LRANGE", "k", "0", "-1"], 0),
        bytes("*3\r\n$1\r\nc\r\n$1\r\nb\r\n$1\r\na\r\n")
    );
}

#[test]
fn set_scenario() {
    let (mut db, hub) = (Db::new(), PubSub::new());
    assert_eq!(run(&mut db, &hub, &["SADD", "S", "a", "b", "a"], 0), bytes(":2\r\n"));
    assert_eq!(run(&mut db, &hub, &["SISMEMBER", "S", "a"], 0), bytes(":1\r\n"));
    assert_eq!(run(&mut db, &hub, &["SCARD", "S"], 0), bytes(":2\r\n"));
    assert_eq!(run(&mut db, &hub, &["SREM", "S", "a", "b"], 0), bytes(":2\r\n"));
    assert_eq!(run(&mut db, &hub, &["EXISTS", "S"], 0), bytes(":0\r\n"));
}

#[test]
fn hash_scenario() {
    let (mut db, hub) = (Db::new(), PubSub::new());
    assert_eq!(run(&mut db, &hub, &["HSET", "u", "name", "Alice"], 0), bytes(":1\r\n"));
    assert_eq!(run(&mut db, &hub, &["HSET", "u", "name", "Bob"], 0), bytes(":0\r\n"));
    assert_eq!(
        run(&mut db, &hub, &["HGETALL", "u"], 0),
        bytes("*2\r\n$4\r\nname\r\n$3\r\nBob\r\n")
    );
    assert_eq!(run(&mut db, &hub, &["HGET", "u", "name"], 0), bytes("$3\r\nBob\r\n"));
    assert_eq!(run(&mut db, &hub, &["HDEL", "u", "name"], 0), bytes(":1\r\n"));
    assert_eq!(run(&mut db, &hub, &["TYPE", "u"], 0), bytes("+none\r\n"));
}

#[test]
fn type_dbsize_flush_keys() {
    let (mut db, hub) = (Db::new(), PubSub::new());
    run(&mut db, &hub, &["SET", "a", "1"], 0);
    run(&mut db, &hub, &["RPUSH", "b", "1"], 0);
    assert_eq!(run(&mut db, &hub, &["TYPE", "a"], 0), bytes("+string\r\n"));
    assert_eq!(run(&mut db, &hub, &["type", "b"], 0), bytes("+list\r\n"));
    assert_eq!(run(&mut db, &hub, &["DBSIZE"], 0), bytes(":2\r\n"));
    assert_eq!(run(&mut db, &hub, &["KEYS", "a*"], 0), bytes("*1\r\n$1\r\na\r\n"));
    assert_eq!(run(&mut db, &hub, &["FLUSHDB"], 0), bytes("+OK\r\n"));
    assert_eq!(run(&mut db, &hub, &["DBSIZE"], 0), bytes(":0\r\n"));
}

#[test]
fn command_shape_errors() {
    let (mut db, hub) = (Db::new(), PubSub::new());
    assert_eq!(
        run(&mut db, &hub, &["GET"], 0),
        bytes("-ERR wrong number of arguments for 'get' command\r\n")
    );
    assert_eq!(run(&mut db, &hub, &["NOPE", "x"], 0), bytes("-ERR unknown command 'NOPE'\r\n"));
    assert_eq!(
        run(&mut db, &hub, &["LRANGE", "l", "x", "1"], 0),
        bytes("-ERR value is not an integer or out of range\r\n")
    );
    assert_eq!(
        run(&mut db, &hub, &["SET", "k", "v", "PX", "1"], 0),
        bytes("-ERR syntax error near 'PX'\r\n")
    );
    assert_eq!(run(&mut db, &hub, &["SET", "k", "v", "EX"], 0), bytes("-ERR syntax error\r\n"));
    assert_eq!(
        run(&mut db, &hub, &["SET", "k", "v", "EX", "-3"], 0),
        bytes("-ERR value is not an integer or out of range\r\n")
    );
    match Command::from_frame(Frame::Integer(3)) {
        Err(e) => assert_eq!(e, "ERR command must be a non-empty array"),
        Ok(_) => panic!("an integer is no command"),
    }
    match Command::from_frame(Frame::Array(vec![Frame::Bulk(vec![0xff])])) {
        Err(e) => assert_eq!(e, "ERR command name must be a string"),
        Ok(_) => panic!("the name is not UTF-8"),
    }
}

#[test]
fn simple_string_arguments_are_accepted() {
    let (mut db, hub) = (Db::new(), PubSub::new());
    let f = Frame::Array(vec![
        Frame::Simple("set".to_string()),
        Frame::Simple("k".to_string()),
        Frame::Simple("v".to_string()),
    ]);
    let c = Command::from_frame(f).unwrap();
    assert!(c.is_write_command());
    assert_eq!(serialize_frame(&c.execute(&mut db, &hub, 0)), bytes("+OK\r\n"));
    assert_eq!(run(&mut db, &hub, &["GET", "k"], 0), bytes("$1\r\nv\r\n"));
    assert!(!Command::from_frame(req(&["GET", "k"])).unwrap().is_write_command());
}

#[test]
fn encodes_every_frame_kind() {
    let f = Frame::Array(vec![
        Frame::Simple("OK".to_string()),
        Frame::Error("ERR x".to_string()),
        Frame::Integer(-42),
        Frame::Integer(i64::MIN),
        Frame::Bulk(b"a\r\nb".to_vec()),
        Frame::Null,
        Frame::Array(vec![]),
    ]);
    assert_eq!(
        serialize_frame(&f),
        bytes("*7\r\n+OK\r\n-ERR x\r\n:-42\r\n:-9223372036854775808\r\n$4\r\na\r\nb\r\n$-1\r\n*0\r\n")
    );
}

#[test]
fn decodes_what_it_encodes() {
    let f = Frame::Array(vec![
        Frame::Simple("héllo".to_string()),
        Frame::Integer(i64::MAX),
        Frame::Bulk(vec![0, 13, 10, 255]),
        Frame::Array(vec![Frame::Null, Frame::Error("e".to_string())]),
    ]);
    let wire = serialize_frame(&f);
    let mut buf = BytesMut::from(&wire[..]);
    buf.extend_from_slice(b"+next\r\n");
    let got = Frame::parse(&mut buf).unwrap().unwrap();
    assert_eq!(serialize_frame(&got), wire);
    assert_eq!(&buf[..], b"+next\r\n");
}

#[test]
fn decoding_byte_by_byte_waits_for_the_whole_frame() {
    let wire = b"*2\r\n$3\r\nGET\r\n$1\r\nk\r\n".to_vec();
    let mut buf = BytesMut::new();
    for (i, byte) in wire.iter().enumerate() {
        buf.extend_from_slice(&[*byte]);
        let r = Frame::parse(&mut buf).unwrap();
        if i + 1 < wire.len() {
            assert!(r.is_none());
            assert_eq!(buf.len(), i + 1);
        } else {
            assert_eq!(serialize_frame(&r.unwrap()), wire);
            assert!(buf.is_empty());
        }
    }
}

#[test]
fn rejects_malformed_frames() {
    for bad in [&b"?x\r\n"[..], b"+a\nb\r\n", b"+a\rb\r\n", b"$-2\r\n", b"$x\r\n", b"*-5\r\n", b":12a\r\n", b"$1\r\nab\r\n", b"+\xff\r\n"] {
        let mut buf = BytesMut::from(bad);
        match Frame::parse(&mut buf) {
            Err(Error::Invalid(_)) => {}
            _ => panic!("accepted {:?}", bad),
        }
        assert_eq!(&buf[..], bad);
    }
}

#[test]
fn null_array_and_deep_nesting() {
    let mut buf = BytesMut::from(&b"*-1\r\n"[..]);
    assert_eq!(serialize_frame(&Frame::parse(&mut buf).unwrap().unwrap()), b"$-1\r\n".to_vec());
    let mut deep = Vec::new();
    for _ in 0..65 {
        deep.extend_from_slice(b"*1\r\n");
    }
    deep.extend_from_slice(b":1\r\n");
    let mut buf = BytesMut::from(&deep[..]);
    assert!(matches!(Frame::parse(&mut buf), Err(Error::Invalid(_))));
    let mut buf = BytesMut::from(&deep[4..]);
    assert!(Frame::parse(&mut buf).unwrap().is_some());
}

#[test]
fn cursor_readers() {
    let data = b"+OK\r\n:-7\r\nabc";
    let mut c = Cursor { buf: &data[..], pos: 0 };
    assert_eq!(get_u8(&mut c).unwrap(), b'+');
    assert_eq!(read_line(&mut c).unwrap(), b"OK");
    assert_eq!(get_u8(&mut c).unwrap(), b':');
    assert_eq!(read_decimal(&mut c).unwrap(), -7);
    assert_eq!(read_n_bytes(&mut c, 2).unwrap(), b"ab");
    assert!(matches!(read_n_bytes(&mut c, 2), Err(Error::Incomplete)));
    assert!(skip(&mut c, 1).is_ok());
    assert!(matches!(get_u8(&mut c), Err(Error::Incomplete)));
    let mut c = Cursor { buf: &b"abc\r"[..], pos: 0 };
    assert!(matches!(read_until_crlf(&mut c), Err(Error::Incomplete)));
    assert_eq!(c.pos, 0);
    let mut c = Cursor { buf: &b"$3\r\nabc\r\n+x"[..], pos: 0 };
    assert!(check_complete(&mut c).is_ok());
    assert_eq!(c.pos, 9);
    assert!(matches!(check_complete(&mut c), Err(Error::Incomplete)));
}

#[test]
fn decimal_text() {
    assert_eq!(parse_decimal(b"0"), Some(0));
    assert_eq!(parse_decimal(b"+12"), Some(12));
    assert_eq!(parse_decimal(b"-9223372036854775808"), Some(i64::MIN));
    assert_eq!(parse_decimal(b"9223372036854775807"), Some(i64::MAX));
    assert_eq!(parse_decimal(b"9223372036854775808"), None);
    assert_eq!(parse_decimal(b"-"), None);
    assert_eq!(parse_decimal(b""), None);
    assert_eq!(parse_decimal(b"1 "), None);
}

#[test]
fn parse_with_bytes_keeps_the_bytes_as_sent() {
    let mut buf = BytesMut::from(&b":+05\r\n*1\r\n+PING\r\n$2"[..]);
    let (f, raw) = Frame::parse_with_bytes(&mut buf).unwrap().unwrap();
    assert_eq!(raw, b":+05\r\n".to_vec());
    assert_eq!(serialize_frame(&f), b":5\r\n".to_vec());
    let (_, raw) = Frame::parse_with_bytes(&mut buf).unwrap().unwrap();
    assert_eq!(raw, b"*1\r\n+PING\r\n".to_vec());
    assert!(Frame::parse_with_bytes(&mut buf).unwrap().is_none());
    assert_eq!(&buf[..], b"$2");
}

#[test]
fn end_of_stream_tells_close_from_reset() {
    assert_eq!(end_of_stream(0), StreamEnd::Closed);
    assert_eq!(end_of_stream(3), StreamEnd::Reset);
}

#[test]
fn glob_counts_bytes() {
    assert!(!glob_match("h?llo", "h\u{e9}llo"));
    assert!(glob_match("h??llo", "h\u{e9}llo"));
    assert!(glob_match("h*llo", "h\u{e9}llo"));
    assert!(glob_match("[a-c]x", "bx"));
    assert!(!glob_match("[^a-c]x", "bx"));
    assert!(glob_match("a[", "a["));
}
