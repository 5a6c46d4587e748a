use miniredis::resp::decode_next;
use miniredis::resp::encode;
use miniredis::resp::ProtocolError;
use miniredis::resp::Value;

fn bulk(s: &str) -> Value {
    Value::BulkString(s.as_bytes().to_vec())
}

fn round_trips(v: Value) {
    let bytes = encode(&v);
    let got = decode_next(&bytes).expect("frame must decode");
    let (decoded, used) = got.expect("frame must be complete");
    assert_eq!(decoded, v);
    assert_eq!(used, bytes.len());
}

#[test]
fn round_trip_simple_string() {
    round_trips(Value::SimpleString(b"OK".to_vec()));
    round_trips(Value::SimpleString(Vec::new()));
}

#[test]
fn round_trip_error() {
    round_trips(Value::Error(b"ERR something went wrong".to_vec()));
}

#[test]
fn round_trip_integers() {
    for i in [0i64, 1, 7, 42, 1000, -1, -42, i64::MAX, i64::MIN] {
        round_trips(Value::Integer(i));
    }
}

#[test]
fn round_trip_bulk_string() {
    round_trips(bulk("bar"));
    round_trips(Value::BulkString(Vec::new()));
    round_trips(Value::BulkString(b"with\r\nembedded\r\nterminators".to_vec()));
    round_trips(Value::BulkString(vec![0u8, 255u8, 13u8, 10u8, 13u8]));
}

#[test]
fn round_trip_nulls() {
    round_trips(Value::Null);
    round_trips(Value::NullArray);
}

#[test]
fn round_trip_arrays() {
    round_trips(Value::Array(Vec::new()));
    round_trips(Value::Array(vec![bulk("SET"), bulk("foo"), bulk("bar")]));
    round_trips(Value::Array(vec![
        Value::Integer(-7),
        Value::Null,
        Value::Array(vec![Value::SimpleString(b"nested".to_vec()), Value::NullArray]),
        bulk("tail"),
    ]));
}

#[test]
fn exact_wire_forms() {
    assert_eq!(encode(&Value::SimpleString(b"OK".to_vec())), b"+OK\r\n".to_vec());
    assert_eq!(encode(&Value::Error(b"ERR x".to_vec())), b"-ERR x\r\n".to_vec());
    assert_eq!(encode(&Value::Integer(-42)), b":-42\r\n".to_vec());
    assert_eq!(encode(&bulk("bar")), b"$3\r\nbar\r\n".to_vec());
    assert_eq!(encode(&Value::Null), b"$-1\r\n".to_vec());
    assert_eq!(encode(&Value::NullArray), b"*-1\r\n".to_vec());
    assert_eq!(
        encode(&Value::Array(vec![bulk("SET"), bulk("foo"), bulk("bar")])),
        b"*3\r\n$3\r\nSET\r\n$3\r\nfoo\r\n$3\r\nbar\r\n".to_vec()
    );
}

#[test]
fn one_byte_at_a_time_yields_none_until_complete() {
    let v = Value::Array(vec![bulk("SET"), bulk("foo"), bulk("bar")]);
    let bytes = encode(&v);
    for k in 0..bytes.len() {
        let prefix: Vec<u8> = bytes[..k].to_vec();
        assert_eq!(decode_next(&prefix).expect("prefix must not fail"), None, "prefix of {k} bytes");
    }
    let full = decode_next(&bytes).expect("complete frame").expect("complete frame");
    assert_eq!(full, (v, bytes.len()));
}

#[test]
fn one_byte_at_a_time_for_every_variant() {
    for v in [
        Value::SimpleString(b"PONG".to_vec()),
        Value::Error(b"ERR e".to_vec()),
        Value::Integer(-9001),
        bulk("abc"),
        Value::Null,
        Value::NullArray,
        Value::Array(vec![Value::Integer(1), Value::Array(vec![bulk("x")])]),
    ] {
        let bytes = encode(&v);
        for k in 0..bytes.len() {
            let prefix: Vec<u8> = bytes[..k].to_vec();
            assert_eq!(decode_next(&prefix).expect("prefix must not fail"), None);
        }
        assert_eq!(decode_next(&bytes).unwrap().unwrap(), (v, bytes.len()));
    }
}

#[test]
fn trailing_bytes_are_left_alone() {
    let buf = b"+OK\r\n:12\r\n".to_vec();
    let (v, used) = decode_next(&buf).unwrap().unwrap();
    assert_eq!(v, Value::SimpleString(b"OK".to_vec()));
    assert_eq!(used, 5);
    let rest: Vec<u8> = buf[used..].to_vec();
    let (v2, used2) = decode_next(&rest).unwrap().unwrap();
    assert_eq!(v2, Value::Integer(12));
    assert_eq!(used2, 5);
}

#[test]
fn unknown_prefix_is_malformed() {
    assert_eq!(decode_next(&b"!x\r\n".to_vec()), Err(ProtocolError::Malformed));
}

#[test]
fn bad_integer_is_malformed() {
    assert_eq!(decode_next(&b":12a\r\n".to_vec()), Err(ProtocolError::Malformed));
    assert_eq!(decode_next(&b":007\r\n".to_vec()), Err(ProtocolError::Malformed));
    assert_eq!(decode_next(&b":\r\n".to_vec()), Err(ProtocolError::Malformed));
    assert_eq!(decode_next(&b":-0\r\n".to_vec()), Err(ProtocolError::Malformed));
    assert_eq!(decode_next(&b":9223372036854775808\r\n".to_vec()), Err(ProtocolError::Malformed));
}

#[test]
fn extreme_integers_decode() {
    let buf = b":9223372036854775807\r\n".to_vec();
    assert_eq!(decode_next(&buf).unwrap().unwrap(), (Value::Integer(i64::MAX), buf.len()));
    let buf = b":-9223372036854775808\r\n".to_vec();
    assert_eq!(decode_next(&buf).unwrap().unwrap(), (Value::Integer(i64::MIN), buf.len()));
}

#[test]
fn bad_length_is_malformed() {
    assert_eq!(decode_next(&b"$3x\r\nabc\r\n".to_vec()), Err(ProtocolError::Malformed));
    assert_eq!(decode_next(&b"$536870913\r\n".to_vec()), Err(ProtocolError::Malformed));
    assert_eq!(decode_next(&b"$-0\r\n".to_vec()), Err(ProtocolError::Malformed));
    assert_eq!(decode_next(&b"*03\r\n".to_vec()), Err(ProtocolError::Malformed));
}

#[test]
fn negative_length_denotes_null() {
    assert_eq!(decode_next(&b"$-1\r\n".to_vec()).unwrap().unwrap(), (Value::Null, 5));
    assert_eq!(decode_next(&b"$-2\r\n".to_vec()).unwrap().unwrap(), (Value::Null, 5));
    assert_eq!(decode_next(&b"*-1\r\n".to_vec()).unwrap().unwrap(), (Value::NullArray, 5));
}

#[test]
fn bulk_payload_read_by_length_not_by_scanning() {
    let buf = b"$4\r\na\r\nb\r\n".to_vec();
    let (v, used) = decode_next(&buf).unwrap().unwrap();
    assert_eq!(v, Value::BulkString(b"a\r\nb".to_vec()));
    assert_eq!(used, buf.len());
}

#[test]
fn bulk_missing_terminator_is_malformed() {
    assert_eq!(decode_next(&b"$3\r\nabcd\r\n".to_vec()), Err(ProtocolError::Malformed));
}

#[test]
fn missing_line_feed_is_malformed() {
    assert_eq!(decode_next(&b"+OK\rX\r\n".to_vec()), Err(ProtocolError::Malformed));
}

#[test]
fn nesting_past_the_depth_bound_is_too_deep() {
    let mut buf: Vec<u8> = Vec::new();
    for _ in 0..33 {
        buf.extend_from_slice(b"*1\r\n");
    }
    assert_eq!(decode_next(&buf), Err(ProtocolError::TooDeep));
}

#[test]
fn nesting_within_the_depth_bound_decodes() {
    let mut v = Value::Integer(5);
    for _ in 0..31 {
        v = Value::Array(vec![v]);
    }
    round_trips(v);
}
