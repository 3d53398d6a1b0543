use bytes::BytesMut;
use moonis::client::{process, respond_all};
use moonis::encoder::{encode, encode_string};
use moonis::parser::{decode_value, DecodeStep, Fault};
use moonis::reader::RespReader;
use moonis::storage::Storage;
use moonis::types::{command_from_name, get_next_value, BulkString, CmdError, RedisCmd, RespValue};

fn bulk(s: &[u8]) -> RespValue {
    RespValue::BulkString(BulkString(s.to_vec()))
}

fn request(words: &[&[u8]]) -> RespValue {
    RespValue::Array(words.iter().map(|w| bulk(w)).collect())
}

fn encoded(v: RespValue) -> Vec<u8> {
    let mut buf = BytesMut::new();
    encode(v, &mut buf);
    buf.to_vec()
}

/// Feeds one read to a connection and returns what it would write back.
fn exchange(store: &mut Storage, reader: &mut RespReader, input: &[u8]) -> Vec<u8> {
    reader.feed(input);
    let values = reader.next_values().expect("well-formed input");
    let mut out = BytesMut::new();
    respond_all(store, values, &mut out);
    out.to_vec()
}

fn bulk_words(v: &RespValue) -> Vec<Vec<u8>> {
    match v {
        RespValue::Array(items) => items
            .iter()
            .map(|i| match i {
                RespValue::BulkString(b) => b.0.clone(),
                other => panic!("not a bulk string: {:?}", other),
            })
            .collect(),
        other => panic!("not an array: {:?}", other),
    }
}

#[test]
fn scenario_session() {
    let mut store = Storage::new();
    let mut reader = RespReader::new();
    assert_eq!(exchange(&mut store, &mut reader, b"PING\r\n"), b"+PONG\r\n".to_vec());
    assert_eq!(
        exchange(&mut store, &mut reader, b"*3\r\n$3\r\nSET\r\n$1\r\nk\r\n$1\r\nv\r\n"),
        b"+OK\r\n".to_vec()
    );
    assert_eq!(
        exchange(&mut store, &mut reader, b"*2\r\n$3\r\nGET\r\n$1\r\nk\r\n"),
        b"$1\r\nv\r\n".to_vec()
    );
    assert_eq!(exchange(&mut store, &mut reader, b"GET missing\r\n"), b"$-1\r\n".to_vec());
    assert_eq!(
        exchange(&mut store, &mut reader, b"*1\r\n$8\r\nFLUSHALL\r\n"),
        b"+OK\r\n".to_vec()
    );
    assert_eq!(exchange(&mut store, &mut reader, b"GET k\r\n"), b"$-1\r\n".to_vec());
    assert_eq!(
        exchange(&mut store, &mut reader, b"FOO\r\nPING\r\n"),
        b"-INVALID_COMMAND\r\n+PONG\r\n".to_vec()
    );
}

#[test]
fn pipelined_requests_answered_in_order() {
    let mut store = Storage::new();
    let mut reader = RespReader::new();
    let input = b"SET a 1\r\n*3\r\n$6\r\nAPPEND\r\n$1\r\na\r\n$2\r\n23\r\nGET a\r\nEXISTS a\r\nDEL a b\r\n";
    let out = exchange(&mut store, &mut reader, input);
    assert_eq!(out, b"+OK\r\n:3\r\n$3\r\n123\r\n:1\r\n:1\r\n".to_vec());
    assert!(reader.is_empty());
}

#[test]
fn byte_by_byte_equals_whole() {
    let input: &[u8] = b"*2\r\n$3\r\nGET\r\n$2\r\nab\r\nPING x\r\n*-1\r\n*0\r\n";
    let mut whole = RespReader::new();
    whole.feed(input);
    let all = whole.next_values().unwrap();
    assert_eq!(all.len(), 4);

    let mut piecewise = RespReader::new();
    let mut got = Vec::new();
    for b in input {
        piecewise.feed(&[*b]);
        got.extend(piecewise.next_values().unwrap());
    }
    assert!(piecewise.is_empty());
    assert_eq!(got.len(), all.len());
    for (a, b) in got.iter().zip(all.iter()) {
        assert_eq!(format!("{:?}", a), format!("{:?}", b));
    }
    assert_eq!(bulk_words(&got[0]), vec![b"GET".to_vec(), b"ab".to_vec()]);
    assert_eq!(bulk_words(&got[1]), vec![b"PING".to_vec(), b"x".to_vec()]);
    assert!(matches!(got[2], RespValue::Null));
    assert_eq!(bulk_words(&got[3]).len(), 0);
}

#[test]
fn incomplete_keeps_bytes() {
    let mut reader = RespReader::new();
    reader.feed(b"*2\r\n$3\r\nGE");
    assert_eq!(reader.next_values().unwrap().len(), 0);
    assert!(!reader.is_empty());
    reader.feed(b"T\r\n$1\r\nk\r");
    assert_eq!(reader.next_values().unwrap().len(), 0);
    reader.feed(b"\n");
    let vs = reader.next_values().unwrap();
    assert_eq!(vs.len(), 1);
    assert_eq!(bulk_words(&vs[0]), vec![b"GET".to_vec(), b"k".to_vec()]);
    assert!(reader.is_empty());
}

#[test]
fn decode_counts_bytes() {
    match decode_value(b"*1\r\n$4\r\nPING\r\nrest") {
        DecodeStep::Value(v, n) => {
            assert_eq!(n, 14);
            assert_eq!(bulk_words(&v), vec![b"PING".to_vec()]);
        }
        other => panic!("{:?}", other),
    }
    assert!(matches!(decode_value(b""), DecodeStep::Incomplete));
    assert!(matches!(decode_value(b"*1\r\n$4\r\nPI"), DecodeStep::Incomplete));
    assert!(matches!(decode_value(b"*1\r\n$4\r\nPING"), DecodeStep::Incomplete));
}

#[test]
fn decode_null_bulk_in_array() {
    match decode_value(b"*2\r\n$-1\r\n$1\r\nx\r\n") {
        DecodeStep::Value(RespValue::Array(items), n) => {
            assert_eq!(n, 16);
            assert!(matches!(items[0], RespValue::Null));
            assert!(matches!(&items[1], RespValue::BulkString(b) if b.0 == b"x".to_vec()));
        }
        other => panic!("{:?}", other),
    }
}

#[test]
fn decode_binary_body() {
    match decode_value(b"*1\r\n$4\r\na\r\nb\r\n") {
        DecodeStep::Value(v, n) => {
            assert_eq!(n, 14);
            assert_eq!(bulk_words(&v), vec![b"a\r\nb".to_vec()]);
        }
        other => panic!("{:?}", other),
    }
}

#[test]
fn decode_rejects_bad_input() {
    assert!(matches!(decode_value(b"*x\r\n"), DecodeStep::Invalid(1, Fault::BadInteger)));
    assert!(matches!(decode_value(b"*1\r\n+OK\r\n"), DecodeStep::Invalid(4, Fault::NotBulk)));
    assert!(matches!(decode_value(b"*1\r\n:5\r\n"), DecodeStep::Invalid(4, Fault::NotBulk)));
    assert!(matches!(decode_value(b"*1\r\n$2\r\nabXY"), DecodeStep::Invalid(10, Fault::BadTerminator)));
    assert!(matches!(decode_value(b"*1\r\n$1\r\nab\r\n"), DecodeStep::Invalid(9, Fault::BadTerminator)));
    assert!(matches!(decode_value(b"*1\r\n$z\r\n"), DecodeStep::Invalid(5, Fault::BadInteger)));
    assert!(matches!(
        decode_value(b"*99999999999999999999\r\n"),
        DecodeStep::Invalid(1, Fault::BadInteger)
    ));
    assert!(matches!(decode_value(b"GET \xff\r\n"), DecodeStep::Invalid(0, Fault::BadUtf8)));
    assert!(matches!(decode_value(b"\xff\r\n"), DecodeStep::Invalid(0, Fault::BadUtf8)));
    let mut reader = RespReader::new();
    reader.feed(b"PING\r\n*z\r\n");
    assert_eq!(reader.next_values().err(), Some((1, Fault::BadInteger)));
    assert!(!reader.is_empty());
}

#[test]
fn command_line_splits_on_white_space() {
    match decode_value("  SET\tk \u{a0}v\u{3000}\r\n".as_bytes()) {
        DecodeStep::Value(v, _) => {
            assert_eq!(bulk_words(&v), vec![b"SET".to_vec(), b"k".to_vec(), b"v".to_vec()]);
        }
        other => panic!("{:?}", other),
    }
    match decode_value(b"\r\n") {
        DecodeStep::Value(v, n) => {
            assert_eq!(n, 2);
            assert_eq!(bulk_words(&v).len(), 0);
        }
        other => panic!("{:?}", other),
    }
}

#[test]
fn encodes_each_variant() {
    assert_eq!(encoded(RespValue::Null), b"$-1\r\n".to_vec());
    assert_eq!(encoded(RespValue::SimpleString("OK".to_string())), b"+OK\r\n".to_vec());
    assert_eq!(
        encoded(RespValue::Error("ERR".to_string(), Some("detail".to_string()))),
        b"-ERR\r\n".to_vec()
    );
    assert_eq!(encoded(RespValue::Integer(0)), b":0\r\n".to_vec());
    assert_eq!(encoded(RespValue::Integer(-42)), b":-42\r\n".to_vec());
    assert_eq!(encoded(RespValue::Integer(i64::MIN)), b":-9223372036854775808\r\n".to_vec());
    assert_eq!(encoded(RespValue::Integer(i64::MAX)), b":9223372036854775807\r\n".to_vec());
    assert_eq!(encoded(bulk(b"")), b"$0\r\n\r\n".to_vec());
    assert_eq!(encoded(bulk("é".as_bytes())), b"$2\r\n\xc3\xa9\r\n".to_vec());
    assert_eq!(
        encoded(RespValue::Array(vec![bulk(b"a"), RespValue::Integer(1), RespValue::Array(vec![])])),
        b"*3\r\n$1\r\na\r\n:1\r\n*0\r\n".to_vec()
    );
    let mut buf = BytesMut::new();
    encode_string(b'+', "hi".to_string(), &mut buf);
    assert_eq!(buf.to_vec(), b"+hi\r\n".to_vec());
}

#[test]
fn round_trip_request() {
    let words: Vec<Vec<u8>> = vec![b"SET".to_vec(), b"key\r\n".to_vec(), vec![0, 255, 13]];
    let v = RespValue::Array(words.iter().map(|w| bulk(w)).collect());
    let bytes = encoded(v);
    match decode_value(&bytes) {
        DecodeStep::Value(d, n) => {
            assert_eq!(n, bytes.len());
            assert_eq!(bulk_words(&d), words);
        }
        other => panic!("{:?}", other),
    }
}

#[test]
fn interprets_commands() {
    assert!(matches!(
        RedisCmd::try_from(request(&[b"get", b"k"])),
        Ok(RedisCmd::Get(k)) if k.0 == b"k".to_vec()
    ));
    assert!(matches!(
        RedisCmd::try_from(request(&[b"Set", b"k", b"v", b"extra"])),
        Ok(RedisCmd::SetKey(k, v)) if k.0 == b"k".to_vec() && v.0 == b"v".to_vec()
    ));
    assert!(matches!(
        RedisCmd::try_from(request(&[b"DEL", b"a", b"b"])),
        Ok(RedisCmd::Delete(ks)) if ks.len() == 2
    ));
    assert!(matches!(RedisCmd::try_from(request(&[b"PING"])), Ok(RedisCmd::Ping(None))));
    assert!(matches!(
        RedisCmd::try_from(request(&[b"ping", b"hey"])),
        Ok(RedisCmd::Ping(Some(m))) if m.0 == b"hey".to_vec()
    ));
    assert!(matches!(RedisCmd::try_from(request(&[b"KEYS", b"*"])), Ok(RedisCmd::Keys(_))));
    assert!(matches!(RedisCmd::try_from(request(&[b"EXISTS", b"k"])), Ok(RedisCmd::Exists(_))));
    assert!(matches!(RedisCmd::try_from(request(&[b"flushall"])), Ok(RedisCmd::FlushAll)));
    assert!(matches!(RedisCmd::try_from(request(&[b"COMMAND"])), Ok(RedisCmd::Command)));
    assert!(matches!(
        RedisCmd::try_from(request(&[b"APPEND", b"k", b"v"])),
        Ok(RedisCmd::Append(_, _))
    ));
}

#[test]
fn rejects_commands() {
    assert_eq!(RedisCmd::try_from(RespValue::Integer(3)).err(), Some(CmdError::NotAnArray));
    assert_eq!(RedisCmd::try_from(request(&[])).err(), Some(CmdError::NoCommand));
    assert_eq!(RedisCmd::try_from(request(&[b""])).err(), Some(CmdError::NoCommand));
    assert_eq!(RedisCmd::try_from(request(&[b"GET"])).err(), Some(CmdError::NotEnoughArguments));
    assert_eq!(RedisCmd::try_from(request(&[b"SET", b"k"])).err(), Some(CmdError::NotEnoughArguments));
    assert_eq!(RedisCmd::try_from(request(&[b"DEL"])).err(), Some(CmdError::NotEnoughArguments));
    assert_eq!(RedisCmd::try_from(request(&[b"FOO"])).err(), Some(CmdError::UnknownCommand));
    assert_eq!(
        RedisCmd::try_from(RespValue::Array(vec![bulk(b"GET"), RespValue::Integer(1)])).err(),
        Some(CmdError::InvalidArgument)
    );
    assert_eq!(
        RedisCmd::try_from(RespValue::Array(vec![bulk(b"DEL"), bulk(b"a"), RespValue::Null])).err(),
        Some(CmdError::InvalidArgument)
    );
    assert_eq!(
        RedisCmd::try_from(RespValue::Array(vec![RespValue::Integer(1)])).err(),
        Some(CmdError::InvalidArgument)
    );
    assert_eq!(
        RedisCmd::try_from(RespValue::Array(vec![bulk(b"PING"), RespValue::Integer(1)])).err(),
        Some(CmdError::InvalidArgument)
    );
    assert_eq!(RedisCmd::try_from(request(&[b"\xff\xfe"])).err(), Some(CmdError::NoCommand));
    assert_eq!(RedisCmd::try_from(request(&[b"KEYS"])).err(), Some(CmdError::NotEnoughArguments));
    assert_eq!(RedisCmd::try_from(request(&[b"EXISTS"])).err(), Some(CmdError::NotEnoughArguments));
}

#[test]
fn command_words_upper_cased_as_text() {
    assert!(matches!(
        RedisCmd::try_from(request(&["\u{17f}et".as_bytes(), b"k", b"v"])),
        Ok(RedisCmd::SetKey(k, v)) if k.0 == b"k".to_vec() && v.0 == b"v".to_vec()
    ));
    assert!(matches!(
        RedisCmd::try_from(request(&["EX\u{131}STS".as_bytes(), b"k"])),
        Ok(RedisCmd::Exists(k)) if k.0 == b"k".to_vec()
    ));
    assert!(matches!(command_from_name("FLUSHALL", vec![]), Ok(RedisCmd::FlushAll)));
    assert_eq!(command_from_name("flushall", vec![]).err(), Some(CmdError::UnknownCommand));
    assert_eq!(command_from_name("", vec![]).err(), Some(CmdError::NoCommand));
}

#[test]
fn next_value_takes_the_front() {
    let mut args = vec![bulk(b"a"), RespValue::Integer(2), bulk(b"c")];
    assert_eq!(get_next_value(&mut args).ok(), Some(BulkString(b"a".to_vec())));
    assert_eq!(args.len(), 2);
    assert_eq!(get_next_value(&mut args).err(), Some(CmdError::InvalidArgument));
    assert_eq!(args.len(), 1);
    assert_eq!(get_next_value(&mut args).ok(), Some(BulkString(b"c".to_vec())));
    assert_eq!(get_next_value(&mut args).err(), Some(CmdError::NotEnoughArguments));
    assert!(args.is_empty());
}

#[test]
fn process_replies() {
    let mut store = Storage::new();
    assert_eq!(encoded(process(&mut store, request(&[b"COMMAND"]))), b"-NOT_IMPLEMENTED\r\n".to_vec());
    assert_eq!(encoded(process(&mut store, RespValue::Null)), b"-INVALID_COMMAND\r\n".to_vec());
    assert_eq!(encoded(process(&mut store, request(&[b"PING", b"yo"]))), b"$2\r\nyo\r\n".to_vec());
    assert_eq!(encoded(process(&mut store, request(&[b"SET", b"a", b"1"]))), b"+OK\r\n".to_vec());
    assert_eq!(encoded(process(&mut store, request(&[b"EXISTS", b"a"]))), b":1\r\n".to_vec());
    assert_eq!(encoded(process(&mut store, request(&[b"EXISTS", b"b"]))), b":0\r\n".to_vec());
    assert_eq!(encoded(process(&mut store, request(&[b"KEYS", b"*"]))), b"*1\r\n$1\r\na\r\n".to_vec());
}

#[test]
fn round_trip_request_with_null() {
    let v = RespValue::Array(vec![bulk(b"x"), RespValue::Null, bulk(b"")]);
    let bytes = encoded(v);
    assert_eq!(bytes, b"*3\r\n$1\r\nx\r\n$-1\r\n$0\r\n\r\n".to_vec());
    match decode_value(&bytes) {
        DecodeStep::Value(RespValue::Array(items), n) => {
            assert_eq!(n, bytes.len());
            assert_eq!(items.len(), 3);
            assert!(matches!(&items[0], RespValue::BulkString(b) if b.0 == b"x".to_vec()));
            assert!(matches!(items[1], RespValue::Null));
            assert!(matches!(&items[2], RespValue::BulkString(b) if b.0.is_empty()));
        }
        other => panic!("{:?}", other),
    }
}

#[test]
fn uneven_chunks_equal_whole() {
    let input: &[u8] = b"SET a 1\r\n*2\r\n$3\r\nGET\r\n$1\r\na\r\n*3\r\n$3\r\nDEL\r\n$1\r\na\r\n$1\r\na\r\n";
    for size in 1..input.len() {
        let mut store = Storage::new();
        let mut reader = RespReader::new();
        let mut out = Vec::new();
        for chunk in input.chunks(size) {
            out.extend(exchange(&mut store, &mut reader, chunk));
        }
        assert_eq!(out, b"+OK\r\n$1\r\n1\r\n:1\r\n".to_vec());
        assert!(reader.is_empty());
    }
}
