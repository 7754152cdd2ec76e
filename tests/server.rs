use bytes::BytesMut;
use resp_kv::command::{parse_command, Command, CommandError};
use resp_kv::resp::{parse, Resp, RespConcreteType, RespError, RespTypePartialable};
use resp_kv::server::{process, respond};
use resp_kv::store::{handle_command, invalid_command_reply, Store};

struct Conn {
    buf: BytesMut,
    partial: Option<RespTypePartialable>,
}

impl Conn {
    fn new() -> Conn {
        Conn { buf: BytesMut::new(), partial: None }
    }

    fn read(&mut self, bytes: &[u8], store: &mut Store, now: u64) -> (Vec<u8>, Option<RespError>) {
        self.buf.extend_from_slice(bytes);
        process(&mut self.buf, &mut self.partial, store, now)
    }
}

fn value(input: &[u8]) -> RespConcreteType {
    let mut b = BytesMut::from(input);
    match parse(&mut b, None) {
        Ok(Resp::Concrete(v)) => v,
        other => panic!("{:?}", other),
    }
}

const SET_FOO_BAR: &[u8] = b"*3\r\n$3\r\nSET\r\n$3\r\nfoo\r\n$3\r\nbar\r\n";
const GET_FOO: &[u8] = b"*2\r\n$3\r\nGET\r\n$3\r\nfoo\r\n";
const SET_FOO_BAR_PX100: &[u8] = b"*5\r\n$3\r\nSET\r\n$3\r\nfoo\r\n$3\r\nbar\r\n$2\r\nPX\r\n$3\r\n100\r\n";

#[test]
fn ping_gets_pong() {
    let mut store = Store::new();
    let mut c = Conn::new();
    assert_eq!(c.read(b"*1\r\n$4\r\nPING\r\n", &mut store, 0), (b"+PONG\r\n".to_vec(), None));
}

#[test]
fn echo_gets_its_argument() {
    let mut store = Store::new();
    let mut c = Conn::new();
    assert_eq!(c.read(b"*2\r\n$4\r\nECHO\r\n$3\r\nhey\r\n", &mut store, 0), (b"$3\r\nhey\r\n".to_vec(), None));
}

#[test]
fn echo_reply_counts_bytes() {
    let mut store = Store::new();
    let mut c = Conn::new();
    let (out, err) = c.read("*2\r\n$4\r\necho\r\n$2\r\né\r\n".as_bytes(), &mut store, 0);
    assert_eq!(out, "$2\r\né\r\n".as_bytes().to_vec());
    assert!(err.is_none());
}

#[test]
fn set_then_get() {
    let mut store = Store::new();
    let mut c = Conn::new();
    assert_eq!(c.read(SET_FOO_BAR, &mut store, 0), (b"+OK\r\n".to_vec(), None));
    assert_eq!(c.read(GET_FOO, &mut store, 1), (b"$3\r\nbar\r\n".to_vec(), None));
}

#[test]
fn set_px_then_get_after_expiry() {
    let mut store = Store::new();
    let mut c = Conn::new();
    assert_eq!(c.read(SET_FOO_BAR_PX100, &mut store, 1_000), (b"+OK\r\n".to_vec(), None));
    assert_eq!(c.read(GET_FOO, &mut store, 1_150), (b"$-1\r\n".to_vec(), None));
}

#[test]
fn expiry_boundary_and_overwrite() {
    let mut store = Store::new();
    let mut c = Conn::new();
    c.read(SET_FOO_BAR_PX100, &mut store, 1_000);
    assert_eq!(c.read(GET_FOO, &mut store, 1_000).0, b"$3\r\nbar\r\n".to_vec());
    assert_eq!(c.read(GET_FOO, &mut store, 1_099).0, b"$3\r\nbar\r\n".to_vec());
    assert_eq!(c.read(GET_FOO, &mut store, 1_100).0, b"$-1\r\n".to_vec());
    assert!(store.contains_key(&"foo".to_string()));
    assert_eq!(store.len(), 1);
    assert_eq!(c.read(b"*3\r\n$3\r\nSET\r\n$3\r\nfoo\r\n$2\r\nv2\r\n", &mut store, 2_000).0, b"+OK\r\n".to_vec());
    assert_eq!(c.read(GET_FOO, &mut store, 2_001).0, b"$2\r\nv2\r\n".to_vec());
    assert_eq!(store.len(), 1);
}

#[test]
fn split_ping_gets_one_reply() {
    let mut store = Store::new();
    let mut c = Conn::new();
    assert_eq!(c.read(b"*1\r\n$4\r\nPI", &mut store, 0), (Vec::new(), None));
    assert!(c.partial.is_some());
    assert_eq!(c.read(b"NG\r\n", &mut store, 0), (b"+PONG\r\n".to_vec(), None));
    assert!(c.partial.is_none());
}

#[test]
fn ping_fed_one_byte_at_a_time() {
    let mut store = Store::new();
    let mut c = Conn::new();
    let mut out = Vec::new();
    for b in b"*1\r\n$4\r\nPING\r\n" {
        let (r, e) = c.read(&[*b], &mut store, 0);
        assert!(e.is_none());
        out.extend(r);
    }
    assert_eq!(out, b"+PONG\r\n".to_vec());
}

#[test]
fn pipelined_commands_each_get_one_reply() {
    let mut store = Store::new();
    let mut c = Conn::new();
    let mut input = SET_FOO_BAR.to_vec();
    input.extend_from_slice(GET_FOO);
    assert_eq!(c.read(&input, &mut store, 0), (b"+OK\r\n$3\r\nbar\r\n".to_vec(), None));
}

#[test]
fn get_absent_key_is_null() {
    let mut store = Store::new();
    let mut c = Conn::new();
    assert_eq!(c.read(GET_FOO, &mut store, 0).0, b"$-1\r\n".to_vec());
}

#[test]
fn wrong_arity_gets_invalid_command() {
    let mut store = Store::new();
    let mut c = Conn::new();
    let invalid = b"+Invalid Command\r\n".to_vec();
    assert_eq!(c.read(b"*1\r\n$3\r\nGET\r\n", &mut store, 0).0, invalid);
    assert_eq!(c.read(b"*3\r\n$3\r\nGET\r\n$1\r\na\r\n$1\r\nb\r\n", &mut store, 0).0, invalid);
    assert_eq!(c.read(b"*2\r\n$3\r\nSET\r\n$1\r\na\r\n", &mut store, 0).0, invalid);
    assert_eq!(c.read(b"*1\r\n$3\r\nset\r\n", &mut store, 0).0, invalid);
    assert_eq!(store.len(), 0);
    assert_eq!(c.read(b"*1\r\n$4\r\nPING\r\n", &mut store, 0).0, b"+PONG\r\n".to_vec());
}

#[test]
fn framing_error_is_reported() {
    let mut store = Store::new();
    let mut c = Conn::new();
    let (out, err) = c.read(b"*1\r\n$4\r\nPING\r\n!oops", &mut store, 0);
    assert_eq!(out, b"+PONG\r\n".to_vec());
    assert_eq!(err, Some(RespError::UnknownStartingByte(b'!')));
}

#[test]
fn decode_commands_case_insensitively() {
    assert!(matches!(parse_command(value(b"*1\r\n$4\r\npInG\r\n"), 0), Ok(Command::Ping)));
    match parse_command(value(b"*2\r\n$3\r\nget\r\n$1\r\nk\r\n"), 0) {
        Ok(Command::Get(k)) => assert_eq!(k, "k"),
        _ => panic!(),
    }
    match parse_command(value(SET_FOO_BAR_PX100), 500) {
        Ok(Command::SetKey(s)) => {
            assert_eq!(s.key, "foo");
            assert_eq!(s.value, "bar");
            assert_eq!(s.expiry_at, Some(600));
        }
        _ => panic!(),
    }
    match parse_command(value(b"*5\r\n$3\r\nset\r\n$1\r\nk\r\n$1\r\nv\r\n$2\r\npx\r\n$2\r\n+5\r\n"), 10) {
        Ok(Command::SetKey(s)) => assert_eq!(s.expiry_at, Some(15)),
        _ => panic!(),
    }
    match parse_command(value(SET_FOO_BAR), 500) {
        Ok(Command::SetKey(s)) => assert_eq!(s.expiry_at, None),
        _ => panic!(),
    }
}

#[test]
fn expiry_is_absolute() {
    let a = match parse_command(value(SET_FOO_BAR_PX100), 1) {
        Ok(Command::SetKey(s)) => s.expiry_at,
        _ => panic!(),
    };
    let b = match parse_command(value(SET_FOO_BAR_PX100), 2) {
        Ok(Command::SetKey(s)) => s.expiry_at,
        _ => panic!(),
    };
    assert_ne!(a, b);
}

#[test]
fn expiry_past_u64_means_none() {
    let v = value(b"*5\r\n$3\r\nSET\r\n$1\r\nk\r\n$1\r\nv\r\n$2\r\nPX\r\n$20\r\n18446744073709551615\r\n");
    match parse_command(v, 1) {
        Ok(Command::SetKey(s)) => assert_eq!(s.expiry_at, None),
        _ => panic!(),
    }
}

#[test]
fn command_errors() {
    assert!(matches!(parse_command(value(b":1\r\n"), 0), Err(CommandError::UnknownCommand(_))));
    assert!(matches!(parse_command(value(b"*0\r\n"), 0), Err(CommandError::UnknownCommand(_))));
    assert!(matches!(parse_command(value(b"*1\r\n:1\r\n"), 0), Err(CommandError::UnknownCommand(_))));
    assert!(matches!(parse_command(value(b"*1\r\n$4\r\nQUIT\r\n"), 0), Err(CommandError::UnknownCommand(_))));
    assert!(matches!(parse_command(value(b"*2\r\n$4\r\nECHO\r\n:1\r\n"), 0), Err(CommandError::UnknownCommand(_))));
    assert!(matches!(parse_command(value(b"*2\r\n$4\r\nPING\r\n$1\r\nx\r\n"), 0), Err(CommandError::BadLength(1))));
    assert!(matches!(parse_command(value(b"*1\r\n$4\r\nECHO\r\n"), 0), Err(CommandError::BadLength(0))));
    assert!(matches!(
        parse_command(value(b"*4\r\n$3\r\nSET\r\n$1\r\nk\r\n$1\r\nv\r\n$2\r\nPX\r\n"), 0),
        Err(CommandError::BadLength(3))
    ));
    assert!(matches!(
        parse_command(value(b"*5\r\n$3\r\nSET\r\n$1\r\nk\r\n$1\r\nv\r\n$2\r\nEX\r\n$1\r\n1\r\n"), 0),
        Err(CommandError::BadLength(4))
    ));
    match parse_command(value(b"*5\r\n$3\r\nSET\r\n$1\r\nk\r\n$1\r\nv\r\n$2\r\nPX\r\n$2\r\n1x\r\n"), 0) {
        Err(CommandError::BadExpiry(t)) => assert_eq!(t, "1x"),
        _ => panic!(),
    }
    assert!(matches!(
        parse_command(value(b"*5\r\n$3\r\nSET\r\n$1\r\nk\r\n$1\r\nv\r\n$2\r\nPX\r\n$2\r\n-1\r\n"), 0),
        Err(CommandError::BadExpiry(_))
    ));
}

#[test]
fn executor_replies() {
    let mut store = Store::new();
    assert_eq!(handle_command(Command::Ping, &mut store, 0), b"+PONG\r\n".to_vec());
    assert_eq!(handle_command(Command::Echo("hi".to_string()), &mut store, 0), b"$2\r\nhi\r\n".to_vec());
    assert_eq!(handle_command(Command::Error(invalid_command_reply()), &mut store, 0), b"+Invalid Command\r\n".to_vec());
    let long = "x".repeat(123);
    let mut expected = b"$123\r\n".to_vec();
    expected.extend_from_slice(long.as_bytes());
    expected.extend_from_slice(b"\r\n");
    assert_eq!(handle_command(Command::Echo(long), &mut store, 0), expected);
}

#[test]
fn respond_runs_store_commands() {
    let mut store = Store::new();
    assert_eq!(respond(value(SET_FOO_BAR), &mut store, 0), b"+OK\r\n".to_vec());
    assert_eq!(store.get(&"foo".to_string(), 0), Some("bar".to_string()));
    assert_eq!(respond(value(b"*1\r\n$4\r\nNOPE\r\n"), &mut store, 0), b"+Invalid Command\r\n".to_vec());
}

#[test]
fn connection_split_anywhere_gives_same_replies() {
    let mut input = SET_FOO_BAR.to_vec();
    input.extend_from_slice(b"*1\r\n$4\r\nPING\r\n");
    input.extend_from_slice(GET_FOO);
    let mut whole_store = Store::new();
    let mut whole = Conn::new();
    let (expected, err) = whole.read(&input, &mut whole_store, 7);
    assert!(err.is_none());
    assert_eq!(expected, b"+OK\r\n+PONG\r\n$3\r\nbar\r\n".to_vec());
    for k in 0..=input.len() {
        let mut store = Store::new();
        let mut c = Conn::new();
        let (mut out, e1) = c.read(&input[..k], &mut store, 7);
        assert!(e1.is_none());
        let (rest, e2) = c.read(&input[k..], &mut store, 7);
        assert!(e2.is_none());
        out.extend(rest);
        assert_eq!(out, expected, "split at {}", k);
        assert_eq!(store.get(&"foo".to_string(), 7), Some("bar".to_string()));
    }
}

#[test]
fn bulk_string_length_mismatch_is_a_framing_error() {
    let mut store = Store::new();
    let mut c = Conn::new();
    let (out, err) = c.read(b"*2\r\n$4\r\nECHO\r\n$5\r\nhey\r\n", &mut store, 0);
    assert!(out.is_empty());
    assert_eq!(err, Some(RespError::BadBulkStringSize(5)));
}

#[test]
fn command_error_payloads() {
    match parse_command(value(b"*1\r\n$4\r\nQUIT\r\n"), 0) {
        Err(CommandError::UnknownCommand(name)) => assert_eq!(name, "QUIT"),
        _ => panic!(),
    }
    match parse_command(value(b"*3\r\n$3\r\nGET\r\n$1\r\na\r\n$1\r\nb\r\n"), 0) {
        Err(CommandError::BadLength(n)) => assert_eq!(n, 2),
        _ => panic!(),
    }
    match parse_command(value(b"*3\r\n$3\r\nSET\r\n:1\r\n$1\r\nv\r\n"), 0) {
        Err(CommandError::UnknownCommand(name)) => assert_eq!(name, "SET"),
        _ => panic!(),
    }
    match parse_command(value(b":5\r\n"), 0) {
        Err(CommandError::UnknownCommand(name)) => assert_eq!(name, ""),
        _ => panic!(),
    }
}

#[test]
fn echo_with_line_feed_in_payload_split_anywhere() {
    let input: &[u8] = b"*2\r\n$4\r\nECHO\r\n$3\r\na\nb\r\n";
    for k in 0..=input.len() {
        let mut store = Store::new();
        let mut c = Conn::new();
        let (mut out, e1) = c.read(&input[..k], &mut store, 0);
        assert!(e1.is_none(), "split at {}", k);
        let (rest, e2) = c.read(&input[k..], &mut store, 0);
        assert!(e2.is_none(), "split at {}", k);
        out.extend(rest);
        assert_eq!(out, b"$3\r\na\nb\r\n".to_vec(), "split at {}", k);
    }
}
