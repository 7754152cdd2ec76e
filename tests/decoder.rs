use bytes::BytesMut;
use resp_kv::resp::{
    array, array_with_partial, integer, parse, string, string_with_length, string_with_partial, word,
    Resp, RespArray, RespConcreteType, RespError, RespInt, RespIntPartial, RespString, RespStringPartial,
    RespArrayPartial, RespTypePartialable, Word,
};

fn buf(b: &[u8]) -> BytesMut {
    BytesMut::from(b)
}

fn bulk_strings(v: &RespConcreteType) -> Vec<String> {
    match v {
        RespConcreteType::Array(items) => items
            .iter()
            .map(|i| match i {
                RespConcreteType::BulkString(s) => s.clone(),
                other => panic!("not a bulk string: {:?}", other),
            })
            .collect(),
        other => panic!("not an array: {:?}", other),
    }
}

fn decode_whole(input: &[u8]) -> RespConcreteType {
    let mut b = buf(input);
    match parse(&mut b, None) {
        Ok(Resp::Concrete(v)) => v,
        other => panic!("unexpected {:?}", other),
    }
}

fn decode_in_chunks(chunks: &[&[u8]]) -> Vec<RespConcreteType> {
    let mut partial: Option<RespTypePartialable> = None;
    let mut out = Vec::new();
    let mut b = BytesMut::new();
    for c in chunks {
        b.extend_from_slice(c);
        while !b.is_empty() {
            match parse(&mut b, partial.take()).expect("framing error") {
                Resp::Concrete(v) => out.push(v),
                Resp::Partial(p) => partial = Some(p),
                Resp::Empty => {}
            }
        }
    }
    assert!(partial.is_none());
    out
}

#[test]
fn word_takes_one_token() {
    let mut b = buf(b"abc\r\ndef");
    match word(&mut b) {
        Word::Concrete(t) => assert_eq!(t, b"abc".to_vec()),
        other => panic!("{:?}", other),
    }
    assert_eq!(&b[..], b"def");
}

#[test]
fn word_lone_cr_completes_token() {
    let mut b = buf(b"12\r");
    match word(&mut b) {
        Word::Concrete(t) => assert_eq!(t, b"12".to_vec()),
        other => panic!("{:?}", other),
    }
    assert!(b.is_empty());
}

#[test]
fn word_without_terminator_is_partial_and_drains() {
    let mut b = buf(b"\nPI");
    match word(&mut b) {
        Word::Partial(t) => assert_eq!(t, b"PI".to_vec()),
        other => panic!("{:?}", other),
    }
    assert!(b.is_empty());
}

#[test]
fn integer_parses_signed_values() {
    let mut b = buf(b"-42\r\n");
    match integer(&mut b, None) {
        Ok(RespInt::Concrete(n)) => assert_eq!(n, -42),
        other => panic!("{:?}", other),
    }
    let mut b = buf(b"+7\r\n");
    assert!(matches!(integer(&mut b, None), Ok(RespInt::Concrete(7))));
    let mut b = buf(b"9223372036854775807\r\n");
    assert!(matches!(integer(&mut b, None), Ok(RespInt::Concrete(i64::MAX))));
    let mut b = buf(b"-9223372036854775808\r\n");
    assert!(matches!(integer(&mut b, None), Ok(RespInt::Concrete(i64::MIN))));
}

#[test]
fn integer_resumes_partial_digits() {
    let mut b = buf(b"12");
    let p = match integer(&mut b, None) {
        Ok(RespInt::Partial(p)) => p,
        other => panic!("{:?}", other),
    };
    let mut b = buf(b"34\r\n");
    assert!(matches!(integer(&mut b, Some(p)), Ok(RespInt::Concrete(1234))));
    let mut b = buf(b"5\r\n");
    assert!(matches!(integer(&mut b, Some(RespIntPartial(b"-".to_vec()))), Ok(RespInt::Concrete(-5))));
}

#[test]
fn integer_failures() {
    for bad in [&b"12a\r\n"[..], b"\r\n", b"-\r\n", b"9223372036854775808\r\n", b"--1\r\n"] {
        let mut b = buf(bad);
        assert!(matches!(integer(&mut b, None), Err(RespError::IntParseFailure)), "{:?}", bad);
    }
}

#[test]
fn string_decodes_payload() {
    let mut b = buf(b"3\r\nhey\r\n");
    match string(&mut b) {
        Ok(RespString::Concrete(s)) => assert_eq!(s, "hey"),
        other => panic!("{:?}", other),
    }
    assert!(b.is_empty());
}

#[test]
fn string_decodes_utf8_payload() {
    let mut b = buf("2\r\né\r\n".as_bytes());
    match string(&mut b) {
        Ok(RespString::Concrete(s)) => assert_eq!(s, "é"),
        other => panic!("{:?}", other),
    }
}

#[test]
fn string_rejects_invalid_utf8() {
    let mut b = buf(b"2\r\n\xff\xfe\r\n");
    assert!(matches!(string(&mut b), Err(RespError::StringParseFailure)));
}

#[test]
fn string_length_mismatch_fails() {
    let mut b = buf(b"3\r\nhe\r\n");
    assert!(matches!(string(&mut b), Err(RespError::BadBulkStringSize(3))));
    let mut b = buf(b"3\r\nhell\r\n");
    assert!(matches!(string(&mut b), Err(RespError::BadBulkStringSize(3))));
}

#[test]
fn string_negative_length_fails() {
    let mut b = buf(b"-1\r\n");
    assert!(matches!(string(&mut b), Err(RespError::BadBulkStringSize(-1))));
}

#[test]
fn string_empty_payload() {
    let mut b = buf(b"0\r\n\r\n");
    match string(&mut b) {
        Ok(RespString::Concrete(s)) => assert_eq!(s, ""),
        other => panic!("{:?}", other),
    }
}

#[test]
fn string_resumes_with_partial_and_length() {
    let mut b = buf(b"5\r\nhel");
    let p = match string(&mut b) {
        Ok(RespString::Partial(p)) => p,
        other => panic!("{:?}", other),
    };
    let mut b = buf(b"lo\r\n");
    match string_with_partial(&mut b, p) {
        Ok(RespString::Concrete(s)) => assert_eq!(s, "hello"),
        other => panic!("{:?}", other),
    }
    let mut b = buf(b"lo\r\n");
    match string_with_length(&mut b, b"hel".to_vec(), 5) {
        Ok(RespString::Concrete(s)) => assert_eq!(s, "hello"),
        other => panic!("{:?}", other),
    }
    let p = RespStringPartial { length: RespInt::Partial(RespIntPartial(b"1".to_vec())), string: Vec::new() };
    let mut b = buf(b"0\r\n0123456789\r\n");
    match string_with_partial(&mut b, p) {
        Ok(RespString::Concrete(s)) => assert_eq!(s, "0123456789"),
        other => panic!("{:?}", other),
    }
}

#[test]
fn array_decodes_nested_values() {
    let mut b = buf(b"3\r\n:1\r\n*1\r\n$1\r\nx\r\n$2\r\nab\r\n");
    match array(&mut b) {
        Ok(RespArray::Concrete(items)) => {
            assert_eq!(items.len(), 3);
            assert!(matches!(items[0], RespConcreteType::Int(1)));
            match &items[1] {
                RespConcreteType::Array(inner) => {
                    assert!(matches!(&inner[0], RespConcreteType::BulkString(s) if s == "x"))
                }
                other => panic!("{:?}", other),
            }
            assert!(matches!(&items[2], RespConcreteType::BulkString(s) if s == "ab"));
        }
        other => panic!("{:?}", other),
    }
    assert!(b.is_empty());
}

#[test]
fn array_empty() {
    let mut b = buf(b"0\r\n");
    match array(&mut b) {
        Ok(RespArray::Concrete(items)) => assert!(items.is_empty()),
        other => panic!("{:?}", other),
    }
}

#[test]
fn array_negative_count_fails() {
    let mut b = buf(b"-2\r\n");
    assert!(matches!(array(&mut b), Err(RespError::BadArraySize(-2))));
}

#[test]
fn array_resumes_nested_partial_item() {
    let mut b = buf(b"2\r\n*2\r\n$3\r\nfo");
    let p = match array(&mut b) {
        Ok(RespArray::Partial(p)) => p,
        other => panic!("{:?}", other),
    };
    let mut b = buf(b"o\r\n$1\r\nz\r\n:5\r\n");
    match array_with_partial(&mut b, p) {
        Ok(RespArray::Concrete(items)) => {
            assert_eq!(items.len(), 2);
            assert_eq!(bulk_strings(&items[0]), vec!["foo".to_string(), "z".to_string()]);
            assert!(matches!(items[1], RespConcreteType::Int(5)));
        }
        other => panic!("{:?}", other),
    }
}

#[test]
fn parse_unknown_marker_fails() {
    let mut b = buf(b"+OK\r\n");
    assert!(matches!(parse(&mut b, None), Err(RespError::UnknownStartingByte(b'+'))));
}

#[test]
fn parse_skips_leading_line_feed() {
    let mut b = buf(b"\n:3\r\n");
    assert!(matches!(parse(&mut b, None), Ok(Resp::Concrete(RespConcreteType::Int(3)))));
    let mut b = buf(b"\n");
    assert!(matches!(parse(&mut b, None), Ok(Resp::Empty)));
    assert!(b.is_empty());
}

#[test]
fn parse_stops_after_one_value() {
    let mut b = buf(b":1\r\n:2\r\n");
    assert!(matches!(parse(&mut b, None), Ok(Resp::Concrete(RespConcreteType::Int(1)))));
    assert_eq!(&b[..], b":2\r\n");
}

#[test]
fn fragmentation_every_split_gives_same_value() {
    let input: &[u8] = b"*3\r\n$3\r\nSET\r\n$3\r\nfoo\r\n$3\r\nbar\r\n";
    let whole = bulk_strings(&decode_whole(input));
    assert_eq!(whole, vec!["SET".to_string(), "foo".to_string(), "bar".to_string()]);
    for k in 0..=input.len() {
        let got = decode_in_chunks(&[&input[..k], &input[k..]]);
        assert_eq!(got.len(), 1, "split at {}", k);
        assert_eq!(bulk_strings(&got[0]), whole, "split at {}", k);
    }
    let bytes: Vec<&[u8]> = input.chunks(1).collect();
    let got = decode_in_chunks(&bytes);
    assert_eq!(got.len(), 1);
    assert_eq!(bulk_strings(&got[0]), whole);
}

#[test]
fn length_fidelity_through_parse() {
    let mut b = buf(b"$5\r\nabc\r\n");
    assert!(matches!(parse(&mut b, None), Err(RespError::BadBulkStringSize(5))));
}

#[test]
fn word_keeps_inner_line_feeds() {
    let mut b = buf(b"a\nb\r\nrest");
    match word(&mut b) {
        Word::Concrete(t) => assert_eq!(t, b"a\nb".to_vec()),
        other => panic!("{:?}", other),
    }
    assert_eq!(&b[..], b"rest");
    let mut b = buf(b"a\n\r");
    match word(&mut b) {
        Word::Concrete(t) => assert_eq!(t, b"a\n".to_vec()),
        other => panic!("{:?}", other),
    }
    let mut b = buf(b"a\nb");
    match word(&mut b) {
        Word::Partial(t) => assert_eq!(t, b"a\nb".to_vec()),
        other => panic!("{:?}", other),
    }
    assert!(b.is_empty());
}

#[test]
fn integer_with_inner_line_feed_fails() {
    let mut b = buf(b"1\n\r\n");
    assert!(matches!(integer(&mut b, None), Err(RespError::IntParseFailure)));
    let mut b = buf(b"1\n2");
    match integer(&mut b, None) {
        Ok(RespInt::Partial(RespIntPartial(d))) => assert_eq!(d, b"1\n2".to_vec()),
        other => panic!("{:?}", other),
    }
    let mut b = buf(b"\n2\r\n");
    assert!(matches!(integer(&mut b, Some(RespIntPartial(b"1".to_vec()))), Err(RespError::IntParseFailure)));
}

#[test]
fn bulk_string_payload_keeps_line_feeds() {
    let mut b = buf(b"$3\r\na\nb\r\n");
    match parse(&mut b, None) {
        Ok(Resp::Concrete(RespConcreteType::BulkString(s))) => assert_eq!(s, "a\nb"),
        other => panic!("{:?}", other),
    }
    assert!(b.is_empty());
    let mut b = buf(b"$2\r\na\nb\r\n");
    assert!(matches!(parse(&mut b, None), Err(RespError::BadBulkStringSize(2))));
    let mut b = buf(b"a\nb\r\n");
    assert!(matches!(string_with_length(&mut b, Vec::new(), 2), Err(RespError::BadBulkStringSize(2))));
    let mut b = buf(b"a\nb\r\n");
    match string_with_length(&mut b, Vec::new(), 3) {
        Ok(RespString::Concrete(s)) => assert_eq!(s, "a\nb"),
        other => panic!("{:?}", other),
    }
}

#[test]
fn full_array_continuation_finishes_at_once() {
    let p = RespArrayPartial {
        length: RespInt::Concrete(1),
        concrete_array: vec![RespConcreteType::Int(7)],
        partial_item: None,
    };
    let mut b = buf(b":8\r\n");
    match array_with_partial(&mut b, p) {
        Ok(RespArray::Concrete(items)) => {
            assert_eq!(items.len(), 1);
            assert!(matches!(items[0], RespConcreteType::Int(7)));
        }
        other => panic!("{:?}", other),
    }
    assert_eq!(&b[..], b":8\r\n");
    let p = RespArrayPartial { length: RespInt::Concrete(0), concrete_array: Vec::new(), partial_item: None };
    let mut b = buf(b"");
    assert!(matches!(array_with_partial(&mut b, p), Ok(RespArray::Concrete(items)) if items.is_empty()));
}

#[test]
fn failure_consumes_the_leading_line_feed_only() {
    let mut b = buf(b"\n+x");
    assert!(matches!(parse(&mut b, None), Err(RespError::UnknownStartingByte(b'+'))));
    assert_eq!(&b[..], b"x");
}
