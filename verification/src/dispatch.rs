//! Command dispatch: turns one decoded request value into a reply value,
//! reading or writing the store. Command names are case-insensitive. An
//! unrecognized or ill-formed command yields an Error reply, never an abort,
//! and leaves the store untouched.
use crate::bytes::bytes_eq;
use crate::bytes::spec_upper;
use crate::bytes::to_upper;
use crate::num::all_digits;
use crate::num::digits_value;
use crate::num::parse_u64_decimal;
use crate::resp::decode_next;
use crate::resp::encode;
use crate::resp::lemma_seq_model;
use crate::resp::seq_model;
use crate::resp::spec_parse_value;
use crate::resp::value_model;
use crate::resp::wire;
use crate::resp::Parse;
use crate::resp::ProtocolError;
use crate::resp::Value;
use crate::resp::ValueModel;
use crate::resp::MAX_DEPTH;
use crate::store::ok_reply;
use crate::store::spec_get;
use crate::store::RedisInternalState;
use crate::store::RedisStoredValue;
use crate::store::StoredModel;
use vstd::prelude::*;

verus! {

/// Why a request could not be executed as a command.
#[derive(Debug, Clone, Copy, PartialEq, Eq)]
pub enum DispatchError {
    /// The command name is none of the supported ones.
    UnknownCommand,
    /// The request is not an array headed by a bulk-string command name.
    InvalidCommand,
    /// An argument that must be a bulk string is not one.
    InvalidBulkString,
    /// The command needs more arguments than were sent.
    MissingArgument,
    /// The PX argument is not an unsigned decimal number of milliseconds.
    InvalidExpiry,
}

pub open spec fn ping_cmd() -> Seq<u8> {
    seq![80u8, 73u8, 78u8, 71u8]
}

pub open spec fn echo_cmd() -> Seq<u8> {
    seq![69u8, 67u8, 72u8, 79u8]
}

pub open spec fn get_cmd() -> Seq<u8> {
    seq![71u8, 69u8, 84u8]
}

pub open spec fn set_cmd() -> Seq<u8> {
    seq![83u8, 69u8, 84u8]
}

pub open spec fn pong_reply() -> Seq<u8> {
    seq![80u8, 79u8, 78u8, 71u8]
}

pub open spec fn px_opt() -> Seq<u8> {
    seq![80u8, 88u8]
}

/// The text carried by the Error reply for each failure.
pub open spec fn error_message(e: DispatchError) -> Seq<u8> {
    match e {
        DispatchError::UnknownCommand => seq![
            69u8, 82u8, 82u8, 32u8, 117u8, 110u8, 107u8, 110u8, 111u8, 119u8, 110u8, 32u8, 99u8,
            111u8, 109u8, 109u8, 97u8, 110u8, 100u8,
        ],
        DispatchError::InvalidCommand => seq![
            69u8, 82u8, 82u8, 32u8, 105u8, 110u8, 118u8, 97u8, 108u8, 105u8, 100u8, 32u8, 114u8,
            101u8, 113u8, 117u8, 101u8, 115u8, 116u8,
        ],
        DispatchError::InvalidBulkString => seq![
            69u8, 82u8, 82u8, 32u8, 101u8, 120u8, 112u8, 101u8, 99u8, 116u8, 101u8, 100u8, 32u8,
            98u8, 117u8, 108u8, 107u8, 32u8, 115u8, 116u8, 114u8, 105u8, 110u8, 103u8,
        ],
        DispatchError::MissingArgument => seq![
            69u8, 82u8, 82u8, 32u8, 109u8, 105u8, 115u8, 115u8, 105u8, 110u8, 103u8, 32u8, 97u8,
            114u8, 103u8, 117u8, 109u8, 101u8, 110u8, 116u8,
        ],
        DispatchError::InvalidExpiry => seq![
            69u8, 82u8, 82u8, 32u8, 105u8, 110u8, 118u8, 97u8, 108u8, 105u8, 100u8, 32u8, 101u8,
            120u8, 112u8, 105u8, 114u8, 101u8, 32u8, 116u8, 105u8, 109u8, 101u8,
        ],
    }
}

fn error_message_bytes(e: DispatchError) -> (r: Vec<u8>)
    ensures
        r@ == error_message(e),
{
    match e {
        DispatchError::UnknownCommand => {
            let v: Vec<u8> = vec![
                69u8, 82u8, 82u8, 32u8, 117u8, 110u8, 107u8, 110u8, 111u8, 119u8, 110u8, 32u8,
                99u8, 111u8, 109u8, 109u8, 97u8, 110u8, 100u8,
            ];
            v
        },
        DispatchError::InvalidCommand => {
            let v: Vec<u8> = vec![
                69u8, 82u8, 82u8, 32u8, 105u8, 110u8, 118u8, 97u8, 108u8, 105u8, 100u8, 32u8,
                114u8, 101u8, 113u8, 117u8, 101u8, 115u8, 116u8,
            ];
            v
        },
        DispatchError::InvalidBulkString => {
            let v: Vec<u8> = vec![
                69u8, 82u8, 82u8, 32u8, 101u8, 120u8, 112u8, 101u8, 99u8, 116u8, 101u8, 100u8,
                32u8, 98u8, 117u8, 108u8, 107u8, 32u8, 115u8, 116u8, 114u8, 105u8, 110u8, 103u8,
            ];
            v
        },
        DispatchError::MissingArgument => {
            let v: Vec<u8> = vec![
                69u8, 82u8, 82u8, 32u8, 109u8, 105u8, 115u8, 115u8, 105u8, 110u8, 103u8, 32u8,
                97u8, 114u8, 103u8, 117u8, 109u8, 101u8, 110u8, 116u8,
            ];
            v
        },
        DispatchError::InvalidExpiry => {
            let v: Vec<u8> = vec![
                69u8, 82u8, 82u8, 32u8, 105u8, 110u8, 118u8, 97u8, 108u8, 105u8, 100u8, 32u8,
                101u8, 120u8, 112u8, 105u8, 114u8, 101u8, 32u8, 116u8, 105u8, 109u8, 101u8,
            ];
            v
        },
    }
}

/// Reads the payload of a bulk string, and rejects every other variant.
pub fn unpack_bulk_str(value: &Value) -> (r: Result<Vec<u8>, DispatchError>)
    ensures
        match *value {
            Value::BulkString(s) => r matches Ok(b) && b@ == s@,
            _ => r == Err::<Vec<u8>, DispatchError>(DispatchError::InvalidBulkString),
        },
{
    match value {
        Value::BulkString(s) => Ok(crate::bytes::clone_bytes(s)),
        _ => Err(DispatchError::InvalidBulkString),
    }
}

/// Splits a request into its command name and arguments: the request must
/// be an array whose first element is a bulk string naming the command.
pub fn extract_command(value: Value) -> (r: Result<(Vec<u8>, Vec<Value>), DispatchError>)
    ensures
        match value {
            Value::Array(a) => {
                if a@.len() >= 1 && (a@[0] is BulkString) {
                    r matches Ok(p) && p.0@ == a@[0]->BulkString_0@ && p.1@ == a@.skip(1)
                } else {
                    r == Err::<(Vec<u8>, Vec<Value>), DispatchError>(DispatchError::InvalidCommand)
                }
            },
            _ => r == Err::<(Vec<u8>, Vec<Value>), DispatchError>(DispatchError::InvalidCommand),
        },
{
    match value {
        Value::Array(mut a) => {
            if a.len() == 0 {
                return Err(DispatchError::InvalidCommand);
            }
            let ghost orig = a@;
            let first = a.remove(0);
            proof {
                assert(a@ =~= orig.skip(1));
            }
            match first {
                Value::BulkString(s) => Ok((s, a)),
                _ => Err(DispatchError::InvalidCommand),
            }
        },
        _ => Err(DispatchError::InvalidCommand),
    }
}

/// A structurally equal copy of a value.
#[verifier::loop_isolation(false)]
pub fn clone_value(v: &Value) -> (r: Value)
    ensures
        value_model(r) == value_model(*v),
    decreases *v,
{
    match v {
        Value::SimpleString(s) => Value::SimpleString(crate::bytes::clone_bytes(s)),
        Value::Error(s) => Value::Error(crate::bytes::clone_bytes(s)),
        Value::Integer(i) => Value::Integer(*i),
        Value::BulkString(s) => Value::BulkString(crate::bytes::clone_bytes(s)),
        Value::Array(vs) => {
            let mut out: Vec<Value> = Vec::new();
            let mut i: usize = 0;
            while i < vs.len()
                invariant
                    0 <= i <= vs@.len(),
                    out@.len() == i,
                    forall|j: int|
                        0 <= j < i ==> value_model(#[trigger] out@[j]) == value_model(vs@[j]),
                decreases vs@.len() - i,
            {
                let c = clone_value(&vs[i]);
                out.push(c);
                i = i + 1;
            }
            proof {
                lemma_seq_model(out@);
                lemma_seq_model(vs@);
                assert forall|j: int| 0 <= j < vs@.len() implies seq_model(out@)[j] == seq_model(
                    vs@,
                )[j] by {
                    assert(seq_model(out@)[j] == value_model(out@[j]));
                    assert(seq_model(vs@)[j] == value_model(vs@[j]));
                }
                assert(seq_model(out@) =~= seq_model(vs@));
            }
            Value::Array(out)
        },
        Value::Null => Value::Null,
        Value::NullArray => Value::NullArray,
    }
}

/// Saturating addition of an instant and a delay in milliseconds.
pub open spec fn sat_add(a: u64, b: int) -> u64 {
    if a + b > u64::MAX {
        u64::MAX
    } else {
        (a + b) as u64
    }
}

/// The expiration a SET request asks for: none without a PX option, the
/// current instant plus the given delay with one. A third argument other
/// than PX is ignored, as a convenience of this command set.
pub open spec fn set_expiration(args: Seq<ValueModel>, now: u64) -> Result<
    Option<u64>,
    DispatchError,
> {
    if args.len() <= 2 {
        Ok(Option::None)
    } else if !(args[2] is BulkString) {
        Err(DispatchError::InvalidBulkString)
    } else if spec_upper(args[2]->BulkString_0) == px_opt() {
        if args.len() <= 3 {
            Err(DispatchError::MissingArgument)
        } else if !(args[3] is BulkString) {
            Err(DispatchError::InvalidBulkString)
        } else {
            let pxb = args[3]->BulkString_0;
            if pxb.len() >= 1 && all_digits(pxb) && digits_value(pxb) <= u64::MAX {
                Ok(Option::Some(sat_add(now, digits_value(pxb))))
            } else {
                Err(DispatchError::InvalidExpiry)
            }
        }
    } else {
        Ok(Option::None)
    }
}

/// What a SET request does: with bulk-string key and value arguments, the
/// key and the entry that are written; otherwise the error that is
/// reported, in the order the arguments are examined.
pub open spec fn handle_set_spec(args: Seq<ValueModel>, now: u64) -> Result<
    (Seq<u8>, StoredModel),
    DispatchError,
> {
    if args.len() < 2 {
        Err(DispatchError::MissingArgument)
    } else if !(args[0] is BulkString) {
        Err(DispatchError::InvalidBulkString)
    } else if !(args[1] is BulkString) {
        Err(DispatchError::InvalidBulkString)
    } else {
        match set_expiration(args, now) {
            Ok(exp) => Ok(
                (
                    args[0]->BulkString_0,
                    StoredModel { value: args[1]->BulkString_0, expiration: exp },
                ),
            ),
            Err(e) => Err(e),
        }
    }
}

/// Executes `SET key value [PX milliseconds]` against the store, taking the
/// current instant from the caller. Writes exactly the entry that
/// `handle_set_spec` names, or reports its error and leaves the store as it
/// was.
pub fn handle_set(
    args: &Vec<Value>,
    internal_state: &mut RedisInternalState,
    now_millis: u64,
) -> (r: Result<Vec<u8>, DispatchError>)
    requires
        old(internal_state).wf(),
    ensures
        final(internal_state).wf(),
        match handle_set_spec(seq_model(args@), now_millis) {
            Ok(ke) => r matches Ok(ack) && ack@ == ok_reply() && final(internal_state)@ == old(
                internal_state,
            )@.insert(ke.0, ke.1),
            Err(e) => r == Err::<Vec<u8>, DispatchError>(e) && final(internal_state)@ == old(
                internal_state,
            )@,
        },
{
    proof {
        lemma_seq_model(args@);
    }
    let ghost margs = seq_model(args@);
    if args.len() < 2 {
        return Err(DispatchError::MissingArgument);
    }
    let key = match unpack_bulk_str(&args[0]) {
        Ok(k) => k,
        Err(e) => {
            return Err(e);
        },
    };
    let val = match unpack_bulk_str(&args[1]) {
        Ok(v) => v,
        Err(e) => {
            return Err(e);
        },
    };
    let expiration: Option<u64>;
    if args.len() >= 3 {
        let opt = match unpack_bulk_str(&args[2]) {
            Ok(o) => o,
            Err(e) => {
                return Err(e);
            },
        };
        let up = to_upper(&opt);
        let is_px = up.len() == 2 && { up[0] == 80 && up[1] == 88 };
        proof {
            if is_px {
                assert(up@ =~= px_opt());
            } else {
                assert(up@ != px_opt());
            }
        }
        if is_px {
            if args.len() < 4 {
                return Err(DispatchError::MissingArgument);
            }
            let pxv = match unpack_bulk_str(&args[3]) {
                Ok(p) => p,
                Err(e) => {
                    return Err(e);
                },
            };
            match parse_u64_decimal(&pxv) {
                Some(ms) => {
                    expiration = Some(now_millis.saturating_add(ms));
                },
                None => {
                    return Err(DispatchError::InvalidExpiry);
                },
            }
        } else {
            expiration = None;
        }
    } else {
        expiration = None;
    }
    let sv = RedisStoredValue::new(val, expiration);
    match internal_state.set(&key, &sv) {
        Ok(ack) => Ok(ack),
        Err(_) => vstd::pervasive::unreached(),
    }
}

/// The reply to one request, and the store contents after it: PING answers
/// PONG; ECHO answers its first argument; GET answers the live value under
/// the key or the null bulk string; SET inserts per `handle_set_spec` and
/// answers OK; anything else answers an Error and writes nothing.
pub open spec fn dispatch_spec(req: ValueModel, m: Map<Seq<u8>, StoredModel>, now: u64) -> (
    ValueModel,
    Map<Seq<u8>, StoredModel>,
) {
    match req {
        ValueModel::Array(ms) => {
            if ms.len() >= 1 && (ms[0] is BulkString) {
                let name = spec_upper(ms[0]->BulkString_0);
                let args = ms.skip(1);
                if name == ping_cmd() {
                    (ValueModel::SimpleString(pong_reply()), m)
                } else if name == echo_cmd() {
                    if args.len() >= 1 {
                        (args[0], m)
                    } else {
                        (ValueModel::Error(error_message(DispatchError::MissingArgument)), m)
                    }
                } else if name == get_cmd() {
                    if args.len() < 1 {
                        (ValueModel::Error(error_message(DispatchError::MissingArgument)), m)
                    } else if !(args[0] is BulkString) {
                        (ValueModel::Error(error_message(DispatchError::InvalidBulkString)), m)
                    } else {
                        match spec_get(m, args[0]->BulkString_0, now) {
                            Option::Some(v) => (ValueModel::BulkString(v), m),
                            Option::None => (ValueModel::Null, m),
                        }
                    }
                } else if name == set_cmd() {
                    match handle_set_spec(args, now) {
                        Ok(ke) => (ValueModel::SimpleString(ok_reply()), m.insert(ke.0, ke.1)),
                        Err(e) => (ValueModel::Error(error_message(e)), m),
                    }
                } else {
                    (ValueModel::Error(error_message(DispatchError::UnknownCommand)), m)
                }
            } else {
                (ValueModel::Error(error_message(DispatchError::InvalidCommand)), m)
            }
        },
        _ => (ValueModel::Error(error_message(DispatchError::InvalidCommand)), m),
    }
}

/// Executes one decoded request and produces the reply value.
#[verifier::rlimit(60)]
pub fn dispatch(request: Value, internal_state: &mut RedisInternalState, now_millis: u64) -> (r:
    Value)
    requires
        old(internal_state).wf(),
    ensures
        final(internal_state).wf(),
        value_model(r) == dispatch_spec(value_model(request), old(internal_state)@, now_millis).0,
        final(internal_state)@ == dispatch_spec(
            value_model(request),
            old(internal_state)@,
            now_millis,
        ).1,
{
    let ghost req_m = value_model(request);
    let ghost m0 = internal_state@;
    let ghost expected = dispatch_spec(req_m, m0, now_millis);
    match extract_command(request) {
        Err(e) => {
            proof {
                assert(e == DispatchError::InvalidCommand);
                assert(expected.0 == ValueModel::Error(error_message(DispatchError::InvalidCommand)));
                assert(expected.1 == m0);
            }
            Value::Error(error_message_bytes(e))
        },
        Ok((name, args)) => {
            let ghost a = request->Array_0;
            let ghost ms = seq_model(a@);
            proof {
                lemma_seq_model(a@);
                lemma_seq_model(args@);
                assert(seq_model(args@) =~= ms.skip(1));
                assert(req_m == ValueModel::Array(ms));
                assert(ms[0] == value_model(a@[0]));
                assert(ms[0]->BulkString_0 == a@[0]->BulkString_0@);
                assert(name@ == ms[0]->BulkString_0);
            }
            let ghost margs = ms.skip(1);
            let up = to_upper(&name);
            let ping: Vec<u8> = vec![80u8, 73u8, 78u8, 71u8];
            let echo: Vec<u8> = vec![69u8, 67u8, 72u8, 79u8];
            let getc: Vec<u8> = vec![71u8, 69u8, 84u8];
            let setc: Vec<u8> = vec![83u8, 69u8, 84u8];
            proof {
                assert(ping@ =~= ping_cmd());
                assert(echo@ =~= echo_cmd());
                assert(getc@ =~= get_cmd());
                assert(setc@ =~= set_cmd());
                assert(up@ == spec_upper(ms[0]->BulkString_0));
            }
            if bytes_eq(&up, &ping) {
                let pong: Vec<u8> = vec![80u8, 79u8, 78u8, 71u8];
                proof {
                    assert(pong@ =~= pong_reply());
                    assert(expected.0 == ValueModel::SimpleString(pong_reply()));
                    assert(expected.1 == m0);
                }
                Value::SimpleString(pong)
            } else if bytes_eq(&up, &echo) {
                if args.len() >= 1 {
                    let r = clone_value(&args[0]);
                    proof {
                        assert(margs.len() >= 1);
                        assert(margs[0] == value_model(args@[0]));
                        assert(expected.0 == margs[0]);
                        assert(expected.1 == m0);
                    }
                    r
                } else {
                    proof {
                        assert(expected.0 == ValueModel::Error(
                            error_message(DispatchError::MissingArgument),
                        ));
                        assert(expected.1 == m0);
                    }
                    Value::Error(error_message_bytes(DispatchError::MissingArgument))
                }
            } else if bytes_eq(&up, &getc) {
                if args.len() < 1 {
                    proof {
                        assert(expected.0 == ValueModel::Error(
                            error_message(DispatchError::MissingArgument),
                        ));
                        assert(expected.1 == m0);
                    }
                    Value::Error(error_message_bytes(DispatchError::MissingArgument))
                } else {
                    proof {
                        assert(margs[0] == value_model(args@[0]));
                    }
                    match unpack_bulk_str(&args[0]) {
                        Ok(k) => {
                            proof {
                                assert(args@[0] is BulkString);
                                assert(margs[0] is BulkString);
                                assert(k@ == margs[0]->BulkString_0);
                                assert(expected.1 == m0);
                            }
                            match internal_state.get(&k, now_millis) {
                                Some(v) => {
                                    proof {
                                        assert(expected.0 == ValueModel::BulkString(v@));
                                    }
                                    Value::BulkString(v)
                                },
                                None => {
                                    proof {
                                        assert(expected.0 == ValueModel::Null);
                                    }
                                    Value::Null
                                },
                            }
                        },
                        Err(e) => {
                            proof {
                                assert(!(margs[0] is BulkString));
                                assert(e == DispatchError::InvalidBulkString);
                                assert(expected.0 == ValueModel::Error(
                                    error_message(DispatchError::InvalidBulkString),
                                ));
                                assert(expected.1 == m0);
                            }
                            Value::Error(error_message_bytes(e))
                        },
                    }
                }
            } else if bytes_eq(&up, &setc) {
                proof {
                    assert(seq_model(args@) == margs);
                }
                match handle_set(&args, internal_state, now_millis) {
                    Ok(ack) => {
                        proof {
                            assert(handle_set_spec(margs, now_millis) is Ok);
                            let ke = handle_set_spec(margs, now_millis)->Ok_0;
                            assert(expected.0 == ValueModel::SimpleString(ok_reply()));
                            assert(expected.1 == m0.insert(ke.0, ke.1));
                            assert(internal_state@ == expected.1);
                        }
                        Value::SimpleString(ack)
                    },
                    Err(e) => {
                        proof {
                            assert(handle_set_spec(margs, now_millis) == Err::<
                                (Seq<u8>, StoredModel),
                                DispatchError,
                            >(e));
                            assert(expected.0 == ValueModel::Error(error_message(e)));
                            assert(expected.1 == m0);
                        }
                        Value::Error(error_message_bytes(e))
                    },
                }
            } else {
                proof {
                    assert(expected.0 == ValueModel::Error(
                        error_message(DispatchError::UnknownCommand),
                    ));
                    assert(expected.1 == m0);
                }
                Value::Error(error_message_bytes(DispatchError::UnknownCommand))
            }
        },
    }
}

/// An unrecognized command yields an Error reply and writes nothing, so the
/// session can continue with later requests.
pub proof fn lemma_unknown_command(req: ValueModel, m: Map<Seq<u8>, StoredModel>, now: u64)
    requires
        req matches ValueModel::Array(ms) && ms.len() >= 1 && ms[0] is BulkString && spec_upper(
            ms[0]->BulkString_0,
        ) != ping_cmd() && spec_upper(ms[0]->BulkString_0) != echo_cmd() && spec_upper(
            ms[0]->BulkString_0,
        ) != get_cmd() && spec_upper(ms[0]->BulkString_0) != set_cmd(),
    ensures
        dispatch_spec(req, m, now).0 is Error,
        dispatch_spec(req, m, now).1 == m,
{
}

/// What the connection handler should do with its buffer: answer with these
/// bytes after consuming that many, wait for more input, or close the
/// connection because the stream is unrecoverable.
pub enum SessionAction {
    Reply(Vec<u8>, usize),
    NeedMore,
    Close,
}

/// One step of a connection: reads at most one complete frame from the
/// front of the buffer, executes it, and encodes the reply. Decoding
/// failures ask the caller to close; an incomplete frame asks for more
/// bytes; both leave the store untouched.
pub fn process_buffer(
    buf: &Vec<u8>,
    internal_state: &mut RedisInternalState,
    now_millis: u64,
) -> (r: SessionAction)
    requires
        old(internal_state).wf(),
    ensures
        final(internal_state).wf(),
        match spec_parse_value(buf@, 0, MAX_DEPTH as nat) {
            Parse::Found(req, end) => {
                let reply = dispatch_spec(req, old(internal_state)@, now_millis).0;
                &&& r matches SessionAction::Reply(out, used) && out@ == wire(reply) && used as int
                    == end
                &&& final(internal_state)@ == dispatch_spec(
                    req,
                    old(internal_state)@,
                    now_millis,
                ).1
            },
            Parse::Incomplete => r is NeedMore && final(internal_state)@ == old(internal_state)@,
            Parse::Malformed => r is Close && final(internal_state)@ == old(internal_state)@,
            Parse::TooDeep => r is Close && final(internal_state)@ == old(internal_state)@,
        },
{
    match decode_next(buf) {
        Ok(Some((req, used))) => {
            let reply = dispatch(req, internal_state, now_millis);
            let out = encode(&reply);
            SessionAction::Reply(out, used)
        },
        Ok(None) => SessionAction::NeedMore,
        Err(ProtocolError::Malformed) => SessionAction::Close,
        Err(ProtocolError::TooDeep) => SessionAction::Close,
    }
}

} // verus!
