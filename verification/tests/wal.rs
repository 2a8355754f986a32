//! The write-ahead log.

use psyrag::codec::encode_op;
use psyrag::crc::crc32;
use psyrag::graph::Op;
use psyrag::json::Json;
use psyrag::wal::{frame, parse_line, Parsed};

#[test]
fn crc32_known_answer() {
    assert_eq!(crc32(b"123456789"), 0xCBF4_3926);
}

#[test]
fn framed_line_roundtrip() {
    let op = Op::ObserveNode {
        name: "a".into(),
        asset_type: "t/x".into(),
        props: Json::Obj(vec![("k".to_string(), Json::Num("1".to_string()))]),
        ts: 5,
        origin: None,
    };
    let json = encode_op(&op).text();
    let line = format!("{:08x}:{}", crc32(json.as_bytes()), json);
    assert_eq!(line, frame(&json));
    match parse_line(&line) {
        Ok(Parsed::Record(Op::ObserveNode { name, ts, .. })) => {
            assert_eq!(name, "a");
            assert_eq!(ts, 5);
        }
        _ => panic!("expected framed record"),
    }
}

#[test]
fn crc_mismatch_is_error() {
    let line = format!("deadbeef:{}", r#"{"op":"retire_node","name":"a","ts":1}"#);
    assert!(parse_line(&line).is_err());
}

#[test]
fn legacy_line_still_parses() {
    let line = r#"{"op":"retire_node","name":"a","ts":1}"#;
    assert!(matches!(parse_line(line), Ok(Parsed::Record(_))));
}
