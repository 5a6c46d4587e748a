use miniredis::dispatch::dispatch;
use miniredis::dispatch::extract_command;
use miniredis::dispatch::handle_set;
use miniredis::dispatch::process_buffer;
use miniredis::dispatch::unpack_bulk_str;
use miniredis::dispatch::DispatchError;
use miniredis::dispatch::SessionAction;
use miniredis::resp::encode;
use miniredis::resp::Value;
use miniredis::store::RedisInternalState;

fn bulk(s: &str) -> Value {
    Value::BulkString(s.as_bytes().to_vec())
}

fn req(words: &[&str]) -> Value {
    Value::Array(words.iter().map(|w| bulk(w)).collect())
}

#[test]
fn unpack_bulk_str_accepts_only_bulk_strings() {
    assert_eq!(unpack_bulk_str(&bulk("hi")), Ok(b"hi".to_vec()));
    assert_eq!(unpack_bulk_str(&Value::Integer(3)), Err(DispatchError::InvalidBulkString));
    assert_eq!(
        unpack_bulk_str(&Value::SimpleString(b"hi".to_vec())),
        Err(DispatchError::InvalidBulkString)
    );
}

#[test]
fn extract_command_splits_name_and_arguments() {
    let r = extract_command(req(&["GET", "key"])).unwrap();
    assert_eq!(r.0, b"GET".to_vec());
    assert_eq!(r.1, vec![bulk("key")]);
}

#[test]
fn extract_command_rejects_bad_shapes() {
    assert_eq!(extract_command(Value::Integer(1)), Err(DispatchError::InvalidCommand));
    assert_eq!(extract_command(Value::Array(Vec::new())), Err(DispatchError::InvalidCommand));
    assert_eq!(
        extract_command(Value::Array(vec![Value::Integer(1), bulk("x")])),
        Err(DispatchError::InvalidCommand)
    );
}

#[test]
fn handle_set_writes_the_entry() {
    let mut state = RedisInternalState::new();
    let args = vec![bulk("foo"), bulk("bar")];
    let ack = handle_set(&args, &mut state, 0).unwrap();
    assert_eq!(ack, b"OK".to_vec());
    assert_eq!(state.get(&b"foo".to_vec(), 12345), Some(b"bar".to_vec()));
}

#[test]
fn handle_set_rejects_missing_arguments() {
    let mut state = RedisInternalState::new();
    assert_eq!(handle_set(&Vec::new(), &mut state, 0), Err(DispatchError::MissingArgument));
    assert_eq!(
        handle_set(&vec![bulk("only-key")], &mut state, 0),
        Err(DispatchError::MissingArgument)
    );
    assert_eq!(
        handle_set(&vec![bulk("k"), bulk("v"), bulk("PX")], &mut state, 0),
        Err(DispatchError::MissingArgument)
    );
}

#[test]
fn handle_set_rejects_non_bulk_arguments() {
    let mut state = RedisInternalState::new();
    assert_eq!(
        handle_set(&vec![Value::Integer(1), bulk("v")], &mut state, 0),
        Err(DispatchError::InvalidBulkString)
    );
    assert_eq!(
        handle_set(&vec![bulk("k"), Value::Null], &mut state, 0),
        Err(DispatchError::InvalidBulkString)
    );
    assert_eq!(
        handle_set(&vec![bulk("k"), bulk("v"), Value::Integer(0)], &mut state, 0),
        Err(DispatchError::InvalidBulkString)
    );
    assert_eq!(
        handle_set(&vec![bulk("k"), bulk("v"), bulk("px"), Value::Integer(9)], &mut state, 0),
        Err(DispatchError::InvalidBulkString)
    );
}

#[test]
fn handle_set_rejects_bad_expiry_values() {
    let mut state = RedisInternalState::new();
    assert_eq!(
        handle_set(&vec![bulk("k"), bulk("v"), bulk("PX"), bulk("10x")], &mut state, 0),
        Err(DispatchError::InvalidExpiry)
    );
    assert_eq!(
        handle_set(&vec![bulk("k"), bulk("v"), bulk("PX"), bulk("")], &mut state, 0),
        Err(DispatchError::InvalidExpiry)
    );
    assert_eq!(
        handle_set(
            &vec![bulk("k"), bulk("v"), bulk("PX"), bulk("99999999999999999999")],
            &mut state,
            0
        ),
        Err(DispatchError::InvalidExpiry)
    );
}

#[test]
fn handle_set_px_sets_an_absolute_expiration() {
    let t0: u64 = 500;
    let mut state = RedisInternalState::new();
    let args = vec![bulk("k"), bulk("v"), bulk("px"), bulk("10")];
    handle_set(&args, &mut state, t0).unwrap();
    assert_eq!(state.get(&b"k".to_vec(), t0), Some(b"v".to_vec()));
    assert_eq!(state.get(&b"k".to_vec(), t0 + 9), Some(b"v".to_vec()));
    assert_eq!(state.get(&b"k".to_vec(), t0 + 10), None);
}

#[test]
fn handle_set_px_accepts_leading_zeros() {
    let t0: u64 = 500;
    let mut state = RedisInternalState::new();
    handle_set(&vec![bulk("k"), bulk("v"), bulk("PX"), bulk("0010")], &mut state, t0).unwrap();
    assert_eq!(state.get(&b"k".to_vec(), t0 + 9), Some(b"v".to_vec()));
    assert_eq!(state.get(&b"k".to_vec(), t0 + 10), None);
}

#[test]
fn handle_set_ignores_an_unknown_third_argument() {
    let mut state = RedisInternalState::new();
    handle_set(&vec![bulk("k"), bulk("v"), bulk("EX"), bulk("10")], &mut state, 0).unwrap();
    // no expiration was applied
    assert_eq!(state.get(&b"k".to_vec(), u64::MAX), Some(b"v".to_vec()));
}

#[test]
fn ping_answers_pong_case_insensitively() {
    let mut state = RedisInternalState::new();
    assert_eq!(dispatch(req(&["PING"]), &mut state, 0), Value::SimpleString(b"PONG".to_vec()));
    assert_eq!(dispatch(req(&["ping"]), &mut state, 0), Value::SimpleString(b"PONG".to_vec()));
    assert_eq!(dispatch(req(&["PiNg"]), &mut state, 0), Value::SimpleString(b"PONG".to_vec()));
}

#[test]
fn echo_answers_its_first_argument() {
    let mut state = RedisInternalState::new();
    assert_eq!(dispatch(req(&["ECHO", "hello"]), &mut state, 0), bulk("hello"));
    let nested = Value::Array(vec![Value::Integer(2), bulk("x")]);
    let copy = miniredis::dispatch::clone_value(&nested);
    assert_eq!(dispatch(Value::Array(vec![bulk("echo"), copy]), &mut state, 0), nested);
    assert!(matches!(dispatch(req(&["ECHO"]), &mut state, 0), Value::Error(_)));
}

#[test]
fn get_and_set_through_dispatch() {
    let mut state = RedisInternalState::new();
    assert_eq!(dispatch(req(&["GET", "foo"]), &mut state, 0), Value::Null);
    assert_eq!(
        dispatch(req(&["SET", "foo", "bar"]), &mut state, 0),
        Value::SimpleString(b"OK".to_vec())
    );
    assert_eq!(dispatch(req(&["get", "foo"]), &mut state, 1), bulk("bar"));
}

#[test]
fn unknown_command_answers_an_error_and_the_session_continues() {
    let mut state = RedisInternalState::new();
    assert!(matches!(dispatch(req(&["FROB"]), &mut state, 0), Value::Error(_)));
    // the store was not touched and later commands still work
    assert_eq!(
        dispatch(req(&["SET", "a", "b"]), &mut state, 0),
        Value::SimpleString(b"OK".to_vec())
    );
    assert_eq!(dispatch(req(&["GET", "a"]), &mut state, 0), bulk("b"));
}

#[test]
fn non_array_request_answers_an_error() {
    let mut state = RedisInternalState::new();
    assert!(matches!(dispatch(Value::Integer(1), &mut state, 0), Value::Error(_)));
    assert!(matches!(dispatch(req(&[]), &mut state, 0), Value::Error(_)));
}

#[test]
fn end_to_end_set_get_missing() {
    let mut state = RedisInternalState::new();
    // client sends ["SET","foo","bar"]
    let buf = encode(&req(&["SET", "foo", "bar"]));
    match process_buffer(&buf, &mut state, 0) {
        SessionAction::Reply(bytes, used) => {
            assert_eq!(bytes, b"+OK\r\n".to_vec());
            assert_eq!(used, buf.len());
        }
        _ => panic!("expected a reply"),
    }
    // client sends ["GET","foo"]
    let buf = encode(&req(&["GET", "foo"]));
    match process_buffer(&buf, &mut state, 0) {
        SessionAction::Reply(bytes, used) => {
            assert_eq!(bytes, b"$3\r\nbar\r\n".to_vec());
            assert_eq!(used, buf.len());
        }
        _ => panic!("expected a reply"),
    }
    // client sends ["GET","missing"]: a null bulk string comes back
    let buf = encode(&req(&["GET", "missing"]));
    match process_buffer(&buf, &mut state, 0) {
        SessionAction::Reply(bytes, used) => {
            assert_eq!(bytes, b"$-1\r\n".to_vec());
            assert_eq!(used, buf.len());
        }
        _ => panic!("expected a reply"),
    }
}

#[test]
fn end_to_end_unknown_command_keeps_the_connection() {
    let mut state = RedisInternalState::new();
    let buf = encode(&req(&["FROB"]));
    match process_buffer(&buf, &mut state, 0) {
        SessionAction::Reply(bytes, used) => {
            assert_eq!(bytes, b"-ERR unknown command\r\n".to_vec());
            assert_eq!(used, buf.len());
        }
        _ => panic!("an unknown command must still be answered"),
    }
    // the same connection then serves a valid command
    let buf = encode(&req(&["SET", "foo", "bar"]));
    match process_buffer(&buf, &mut state, 0) {
        SessionAction::Reply(bytes, _) => assert_eq!(bytes, b"+OK\r\n".to_vec()),
        _ => panic!("expected a reply"),
    }
}

#[test]
fn incomplete_input_asks_for_more() {
    let mut state = RedisInternalState::new();
    let buf = b"*1\r\n$4\r\nPI".to_vec();
    assert!(matches!(process_buffer(&buf, &mut state, 0), SessionAction::NeedMore));
}

#[test]
fn malformed_input_closes_the_connection() {
    let mut state = RedisInternalState::new();
    let buf = b"!bad\r\n".to_vec();
    assert!(matches!(process_buffer(&buf, &mut state, 0), SessionAction::Close));
}

#[test]
fn too_deep_input_closes_the_connection() {
    let mut state = RedisInternalState::new();
    let mut buf: Vec<u8> = Vec::new();
    for _ in 0..40 {
        buf.extend_from_slice(b"*1\r\n");
    }
    assert!(matches!(process_buffer(&buf, &mut state, 0), SessionAction::Close));
}
