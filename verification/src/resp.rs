//! The wire-protocol codec: a tagged value type, its canonical byte encoding,
//! and a streaming decoder that reads exactly one complete frame from the
//! front of a buffer.
//!
//! Frames: `+text\r\n` (simple string), `-text\r\n` (error), `:n\r\n`
//! (integer), `$len\r\npayload\r\n` (bulk string, `$-1\r\n` for the null bulk
//! string), `*len\r\nelements` (array, `*-1\r\n` for the null array).
use crate::num::dec_digits;
use crate::num::digits_value;
use crate::num::is_canon_digits;
use crate::num::is_digit;
use vstd::prelude::*;

verus! {

/// Lengths the decoder is willing to read; anything larger is malformed.
pub const MAX_PAYLOAD_LEN: u64 = 536870912;

/// Array nesting the decoder is willing to enter; anything deeper fails.
pub const MAX_DEPTH: u8 = 32;

/// One wire-protocol value. Payloads are raw bytes: bulk strings may carry
/// any bytes, and simple strings and errors any bytes free of CR and LF.
#[derive(Debug, PartialEq, Eq)]
pub enum Value {
    SimpleString(Vec<u8>),
    Error(Vec<u8>),
    Integer(i64),
    BulkString(Vec<u8>),
    Array(Vec<Value>),
    Null,
    NullArray,
}

/// The mathematical shape of a Value: sequences in place of vectors.
pub enum ValueModel {
    SimpleString(Seq<u8>),
    Error(Seq<u8>),
    Integer(int),
    BulkString(Seq<u8>),
    Array(Seq<ValueModel>),
    Null,
    NullArray,
}

pub open spec fn seq_model(vs: Seq<Value>) -> Seq<ValueModel>
    decreases vs,
{
    if vs.len() == 0 {
        Seq::empty()
    } else {
        seq![value_model(vs[0])] + seq_model(vs.subrange(1, vs.len() as int))
    }
}

pub open spec fn value_model(v: Value) -> ValueModel
    decreases v,
{
    match v {
        Value::SimpleString(s) => ValueModel::SimpleString(s@),
        Value::Error(s) => ValueModel::Error(s@),
        Value::Integer(i) => ValueModel::Integer(i as int),
        Value::BulkString(s) => ValueModel::BulkString(s@),
        Value::Array(vs) => ValueModel::Array(seq_model(vs@)),
        Value::Null => ValueModel::Null,
        Value::NullArray => ValueModel::NullArray,
    }
}

impl View for Value {
    type V = ValueModel;

    open spec fn view(&self) -> ValueModel {
        value_model(*self)
    }
}

pub proof fn lemma_seq_model(vs: Seq<Value>)
    ensures
        seq_model(vs).len() == vs.len(),
        forall|i: int| 0 <= i < vs.len() ==> seq_model(vs)[i] == value_model(#[trigger] vs[i]),
    decreases vs,
{
    if vs.len() > 0 {
        let tail = vs.subrange(1, vs.len() as int);
        lemma_seq_model(tail);
        assert forall|i: int| 0 <= i < vs.len() implies seq_model(vs)[i] == value_model(
            vs[i],
        ) by {
            if i == 0 {
                assert(seq_model(vs)[0] == value_model(vs[0]));
            } else {
                assert(seq_model(vs)[i] == seq_model(tail)[i - 1]);
                assert(tail[i - 1] == vs[i]);
            }
        }
    }
}

/// Decoding failure: the bytes cannot extend to any frame (`Malformed`), or
/// the frame nests arrays beyond the supported depth (`TooDeep`).
#[derive(Debug, Clone, Copy, PartialEq, Eq)]
pub enum ProtocolError {
    Malformed,
    TooDeep,
}

// ---------------------------------------------------------------------------
// Canonical encoding
// ---------------------------------------------------------------------------

pub open spec fn crlf() -> Seq<u8> {
    seq![13u8, 10u8]
}

pub open spec fn int_literal(i: int) -> Seq<u8> {
    if i < 0 {
        seq![45u8] + dec_digits((-i) as nat)
    } else {
        dec_digits(i as nat)
    }
}

/// The canonical byte encoding of a value.
pub open spec fn wire(m: ValueModel) -> Seq<u8>
    decreases m,
{
    match m {
        ValueModel::SimpleString(s) => seq![43u8] + s + crlf(),
        ValueModel::Error(s) => seq![45u8] + s + crlf(),
        ValueModel::Integer(i) => seq![58u8] + int_literal(i) + crlf(),
        ValueModel::BulkString(s) => seq![36u8] + dec_digits(s.len()) + crlf() + s + crlf(),
        ValueModel::Array(ms) => seq![42u8] + dec_digits(ms.len()) + crlf() + wire_elems(ms),
        ValueModel::Null => seq![36u8, 45u8, 49u8, 13u8, 10u8],
        ValueModel::NullArray => seq![42u8, 45u8, 49u8, 13u8, 10u8],
    }
}

pub open spec fn wire_elems(ms: Seq<ValueModel>) -> Seq<u8>
    decreases ms,
{
    if ms.len() == 0 {
        Seq::empty()
    } else {
        wire(ms[0]) + wire_elems(ms.subrange(1, ms.len() as int))
    }
}

/// The values the codec round-trips: CR/LF-free line payloads, integers that
/// fit the wire's 64-bit field, payload lengths under the decoder's bound,
/// and arrays nested within `depth` levels.
pub open spec fn no_crlf(s: Seq<u8>) -> bool {
    forall|i: int| 0 <= i < s.len() ==> #[trigger] s[i] != 13 && s[i] != 10
}

pub open spec fn wf_value(m: ValueModel, depth: nat) -> bool
    decreases m,
{
    match m {
        ValueModel::SimpleString(s) => no_crlf(s),
        ValueModel::Error(s) => no_crlf(s),
        ValueModel::Integer(i) => i64::MIN <= i <= i64::MAX,
        ValueModel::BulkString(s) => s.len() <= MAX_PAYLOAD_LEN,
        ValueModel::Array(ms) => depth >= 1 && ms.len() <= MAX_PAYLOAD_LEN && wf_elems(
            ms,
            (depth - 1) as nat,
        ),
        ValueModel::Null => true,
        ValueModel::NullArray => true,
    }
}

pub open spec fn wf_elems(ms: Seq<ValueModel>, depth: nat) -> bool
    decreases ms,
{
    ms.len() == 0 || (wf_value(ms[0], depth) && wf_elems(ms.subrange(1, ms.len() as int), depth))
}

// ---------------------------------------------------------------------------
// Parsing, specified
// ---------------------------------------------------------------------------

/// Position of the first CR at or after `from`.
pub open spec fn spec_find_cr(s: Seq<u8>, from: int) -> Option<int>
    decreases s.len() - from,
{
    if from >= s.len() {
        None
    } else if s[from] == 13 {
        Some(from)
    } else {
        spec_find_cr(s, from + 1)
    }
}

/// Where a CRLF-terminated line starting at `start` ends: `Got(cr)` when the
/// terminator is present, `Inc` when more bytes could still complete it.
pub enum LineRes {
    Got(int),
    Inc,
    Mal,
}

pub open spec fn spec_line_end(s: Seq<u8>, start: int) -> LineRes {
    match spec_find_cr(s, start) {
        Option::None => LineRes::Inc,
        Option::Some(i) => if i + 1 >= s.len() {
            LineRes::Inc
        } else if s[i + 1] != 10 {
            LineRes::Mal
        } else {
            LineRes::Got(i)
        },
    }
}

/// A length field announcing a null value: a minus sign and a canonical
/// nonzero number (a negative length denotes absence).
pub open spec fn is_null_len(c: Seq<u8>) -> bool {
    &&& c.len() >= 2
    &&& c[0] == 45
    &&& is_canon_digits(c.subrange(1, c.len() as int))
    &&& digits_value(c.subrange(1, c.len() as int)) >= 1
}

pub open spec fn is_len_lit(c: Seq<u8>) -> bool {
    is_canon_digits(c) && digits_value(c) <= MAX_PAYLOAD_LEN
}

pub open spec fn is_int_lit(c: Seq<u8>) -> bool {
    if c.len() >= 1 && c[0] == 45 {
        &&& c.len() >= 2
        &&& is_canon_digits(c.subrange(1, c.len() as int))
        &&& 1 <= digits_value(c.subrange(1, c.len() as int)) <= 0x8000_0000_0000_0000
    } else {
        is_canon_digits(c) && digits_value(c) <= i64::MAX
    }
}

pub open spec fn int_lit_value(c: Seq<u8>) -> int {
    if c.len() >= 1 && c[0] == 45 {
        -digits_value(c.subrange(1, c.len() as int))
    } else {
        digits_value(c)
    }
}

/// What the decoder finds at `pos`: a complete value and its end position, a
/// frame that needs more bytes, bytes no frame can start with, or nesting
/// past the depth budget.
pub enum Parse {
    Found(ValueModel, int),
    Incomplete,
    Malformed,
    TooDeep,
}

pub enum ParseList {
    Found(Seq<ValueModel>, int),
    Incomplete,
    Malformed,
    TooDeep,
}

pub open spec fn spec_parse_value(s: Seq<u8>, pos: int, d: nat) -> Parse
    decreases d, 0nat,
{
    if pos >= s.len() || pos < 0 {
        Parse::Incomplete
    } else if s[pos] == 43 || s[pos] == 45 {
        match spec_line_end(s, pos + 1) {
            LineRes::Got(cr) => {
                let c = s.subrange(pos + 1, cr);
                if s[pos] == 43 {
                    Parse::Found(ValueModel::SimpleString(c), cr + 2)
                } else {
                    Parse::Found(ValueModel::Error(c), cr + 2)
                }
            },
            LineRes::Inc => Parse::Incomplete,
            LineRes::Mal => Parse::Malformed,
        }
    } else if s[pos] == 58 {
        match spec_line_end(s, pos + 1) {
            LineRes::Got(cr) => {
                let c = s.subrange(pos + 1, cr);
                if is_int_lit(c) {
                    Parse::Found(ValueModel::Integer(int_lit_value(c)), cr + 2)
                } else {
                    Parse::Malformed
                }
            },
            LineRes::Inc => Parse::Incomplete,
            LineRes::Mal => Parse::Malformed,
        }
    } else if s[pos] == 36 {
        match spec_line_end(s, pos + 1) {
            LineRes::Got(cr) => {
                let c = s.subrange(pos + 1, cr);
                if is_null_len(c) {
                    Parse::Found(ValueModel::Null, cr + 2)
                } else if is_len_lit(c) {
                    let n = digits_value(c);
                    if cr + 2 + n + 2 > s.len() {
                        Parse::Incomplete
                    } else if s[cr + 2 + n] == 13 && s[cr + 2 + n + 1] == 10 {
                        Parse::Found(ValueModel::BulkString(s.subrange(cr + 2, cr + 2 + n)), cr + 2 + n + 2)
                    } else {
                        Parse::Malformed
                    }
                } else {
                    Parse::Malformed
                }
            },
            LineRes::Inc => Parse::Incomplete,
            LineRes::Mal => Parse::Malformed,
        }
    } else if s[pos] == 42 {
        match spec_line_end(s, pos + 1) {
            LineRes::Got(cr) => {
                let c = s.subrange(pos + 1, cr);
                if is_null_len(c) {
                    Parse::Found(ValueModel::NullArray, cr + 2)
                } else if is_len_lit(c) {
                    if d == 0 {
                        Parse::TooDeep
                    } else {
                        match spec_parse_elems(s, cr + 2, digits_value(c) as nat, (d - 1) as nat) {
                            ParseList::Found(ms, end) => Parse::Found(ValueModel::Array(ms), end),
                            ParseList::Incomplete => Parse::Incomplete,
                            ParseList::Malformed => Parse::Malformed,
                            ParseList::TooDeep => Parse::TooDeep,
                        }
                    }
                } else {
                    Parse::Malformed
                }
            },
            LineRes::Inc => Parse::Incomplete,
            LineRes::Mal => Parse::Malformed,
        }
    } else {
        Parse::Malformed
    }
}

pub open spec fn spec_parse_elems(s: Seq<u8>, pos: int, n: nat, d: nat) -> ParseList
    decreases d, n,
{
    if n == 0 {
        ParseList::Found(Seq::empty(), pos)
    } else {
        match spec_parse_value(s, pos, d) {
            Parse::Found(m, end) => match spec_parse_elems(s, end, (n - 1) as nat, d) {
                ParseList::Found(ms, end2) => ParseList::Found(seq![m] + ms, end2),
                ParseList::Incomplete => ParseList::Incomplete,
                ParseList::Malformed => ParseList::Malformed,
                ParseList::TooDeep => ParseList::TooDeep,
            },
            Parse::Incomplete => ParseList::Incomplete,
            Parse::Malformed => ParseList::Malformed,
            Parse::TooDeep => ParseList::TooDeep,
        }
    }
}

// ---------------------------------------------------------------------------
// Executable decoder
// ---------------------------------------------------------------------------

/// What `decode_next` must return, given what the parse of the buffer finds.
pub open spec fn decode_post(
    s: Seq<u8>,
    pos: int,
    d: nat,
    r: Result<Option<(Value, usize)>, ProtocolError>,
) -> bool {
    match spec_parse_value(s, pos, d) {
        Parse::Found(m, end) => r matches Ok(Some((v, e))) && value_model(v) == m && e as int
            == end && pos < e <= s.len(),
        Parse::Incomplete => r matches Ok(o) && o is None,
        Parse::Malformed => r == Result::<Option<(Value, usize)>, ProtocolError>::Err(
            ProtocolError::Malformed,
        ),
        Parse::TooDeep => r == Result::<Option<(Value, usize)>, ProtocolError>::Err(
            ProtocolError::TooDeep,
        ),
    }
}

enum LineEnd {
    Got(usize),
    Inc,
    Mal,
}

fn find_cr(buf: &Vec<u8>, from: usize) -> (r: Option<usize>)
    requires
        from <= buf.len(),
    ensures
        match r {
            Some(i) => spec_find_cr(buf@, from as int) == Some(i as int) && from <= i
                < buf@.len(),
            None => spec_find_cr(buf@, from as int) is None,
        },
{
    let mut i = from;
    while i < buf.len()
        invariant
            from <= i <= buf.len(),
            spec_find_cr(buf@, from as int) == spec_find_cr(buf@, i as int),
        decreases buf.len() - i,
    {
        if buf[i] == 13 {
            return Some(i);
        }
        i = i + 1;
    }
    None
}

fn line_end(buf: &Vec<u8>, start: usize) -> (r: LineEnd)
    requires
        start <= buf.len(),
    ensures
        match r {
            LineEnd::Got(cr) => spec_line_end(buf@, start as int) == LineRes::Got(cr as int)
                && start <= cr && cr + 2 <= buf.len(),
            LineEnd::Inc => spec_line_end(buf@, start as int) is Inc,
            LineEnd::Mal => spec_line_end(buf@, start as int) is Mal,
        },
{
    match find_cr(buf, start) {
        Some(i) => {
            if i + 1 >= buf.len() {
                LineEnd::Inc
            } else if buf[i + 1] != 10 {
                LineEnd::Mal
            } else {
                LineEnd::Got(i)
            }
        },
        None => LineEnd::Inc,
    }
}

fn copy_range(buf: &Vec<u8>, a: usize, b: usize) -> (r: Vec<u8>)
    requires
        a <= b <= buf.len(),
    ensures
        r@ == buf@.subrange(a as int, b as int),
{
    let mut r: Vec<u8> = Vec::new();
    let mut i = a;
    while i < b
        invariant
            a <= i <= b <= buf.len(),
            r@ == buf@.subrange(a as int, i as int),
        decreases b - i,
    {
        r.push(buf[i]);
        proof {
            assert(r@ =~= buf@.subrange(a as int, i + 1));
        }
        i = i + 1;
    }
    r
}

enum LenTok {
    NullLen,
    Len(u64),
    Bad,
}

fn read_len(buf: &Vec<u8>, a: usize, b: usize) -> (r: LenTok)
    requires
        a <= b <= buf.len(),
    ensures
        match r {
            LenTok::NullLen => is_null_len(buf@.subrange(a as int, b as int)),
            LenTok::Len(n) => is_len_lit(buf@.subrange(a as int, b as int)) && n as int
                == digits_value(buf@.subrange(a as int, b as int)) && !is_null_len(
                buf@.subrange(a as int, b as int),
            ),
            LenTok::Bad => !is_null_len(buf@.subrange(a as int, b as int)) && !is_len_lit(
                buf@.subrange(a as int, b as int),
            ),
        },
{
    let ghost c = buf@.subrange(a as int, b as int);
    if b - a >= 1 && buf[a] == 45 {
        proof {
            assert(c[0] == 45);
            assert(!is_digit(c[0]));
            assert(!is_canon_digits(c));
        }
        if b - a >= 2 {
            match crate::num::parse_canon_digits(buf, a + 1, b) {
                Some(v) => {
                    proof {
                        assert(c.subrange(1, c.len() as int) =~= buf@.subrange(a + 1, b as int));
                    }
                    if v >= 1 {
                        LenTok::NullLen
                    } else {
                        LenTok::Bad
                    }
                },
                None => {
                    proof {
                        assert(c.subrange(1, c.len() as int) =~= buf@.subrange(a + 1, b as int));
                    }
                    LenTok::Bad
                },
            }
        } else {
            LenTok::Bad
        }
    } else {
        match crate::num::parse_canon_digits(buf, a, b) {
            Some(v) => {
                proof {
                    if c.len() >= 1 {
                        assert(c[0] == buf@[a as int]);
                    }
                }
                if v <= MAX_PAYLOAD_LEN {
                    LenTok::Len(v)
                } else {
                    LenTok::Bad
                }
            },
            None => LenTok::Bad,
        }
    }
}

fn read_int(buf: &Vec<u8>, a: usize, b: usize) -> (r: Option<i64>)
    requires
        a <= b <= buf.len(),
    ensures
        match r {
            Some(i) => is_int_lit(buf@.subrange(a as int, b as int)) && i as int == int_lit_value(
                buf@.subrange(a as int, b as int),
            ),
            None => !is_int_lit(buf@.subrange(a as int, b as int)),
        },
{
    let ghost c = buf@.subrange(a as int, b as int);
    if b - a >= 1 && buf[a] == 45 {
        proof {
            assert(c[0] == 45);
        }
        if b - a >= 2 {
            match crate::num::parse_canon_digits(buf, a + 1, b) {
                Some(v) => {
                    proof {
                        assert(c.subrange(1, c.len() as int) =~= buf@.subrange(a + 1, b as int));
                    }
                    if v >= 1 && v <= 0x8000_0000_0000_0000 {
                        if v == 0x8000_0000_0000_0000 {
                            Some(i64::MIN)
                        } else {
                            Some(-(v as i64))
                        }
                    } else {
                        None
                    }
                },
                None => {
                    proof {
                        assert(c.subrange(1, c.len() as int) =~= buf@.subrange(a + 1, b as int));
                    }
                    None
                },
            }
        } else {
            None
        }
    } else {
        match crate::num::parse_canon_digits(buf, a, b) {
            Some(v) => {
                proof {
                    if c.len() >= 1 {
                        assert(c[0] == buf@[a as int]);
                    }
                }
                if v <= 0x7fff_ffff_ffff_ffff {
                    Some(v as i64)
                } else {
                    None
                }
            },
            None => None,
        }
    }
}

/// Appends `pre` to the value list of a found parse, leaving the other
/// outcomes as they are.
pub open spec fn with_prefix(pre: Seq<ValueModel>, pl: ParseList) -> ParseList {
    match pl {
        ParseList::Found(ms, end) => ParseList::Found(pre + ms, end),
        ParseList::Incomplete => ParseList::Incomplete,
        ParseList::Malformed => ParseList::Malformed,
        ParseList::TooDeep => ParseList::TooDeep,
    }
}

#[verifier::loop_isolation(false)]
fn decode_at(buf: &Vec<u8>, pos: usize, depth: u8) -> (r: Result<
    Option<(Value, usize)>,
    ProtocolError,
>)
    requires
        pos <= buf.len(),
    ensures
        decode_post(buf@, pos as int, depth as nat, r),
    decreases depth,
{
    if pos >= buf.len() {
        return Ok(None);
    }
    let t = buf[pos];
    if t == 43 || t == 45 {
        match line_end(buf, pos + 1) {
            LineEnd::Got(cr) => {
                let content = copy_range(buf, pos + 1, cr);
                if t == 43 {
                    Ok(Some((Value::SimpleString(content), cr + 2)))
                } else {
                    Ok(Some((Value::Error(content), cr + 2)))
                }
            },
            LineEnd::Inc => Ok(None),
            LineEnd::Mal => Err(ProtocolError::Malformed),
        }
    } else if t == 58 {
        match line_end(buf, pos + 1) {
            LineEnd::Got(cr) => match read_int(buf, pos + 1, cr) {
                Some(i) => Ok(Some((Value::Integer(i), cr + 2))),
                None => Err(ProtocolError::Malformed),
            },
            LineEnd::Inc => Ok(None),
            LineEnd::Mal => Err(ProtocolError::Malformed),
        }
    } else if t == 36 {
        match line_end(buf, pos + 1) {
            LineEnd::Got(cr) => match read_len(buf, pos + 1, cr) {
                LenTok::NullLen => Ok(Some((Value::Null, cr + 2))),
                LenTok::Len(len64) => {
                    let end = cr + 2;
                    let n = len64 as usize;
                    if buf.len() - end < n || buf.len() - end - n < 2 {
                        proof {
                            assert(end + n + 2 > buf@.len());
                        }
                        Ok(None)
                    } else {
                        if buf[end + n] == 13 && buf[end + n + 1] == 10 {
                            let payload = copy_range(buf, end, end + n);
                            Ok(Some((Value::BulkString(payload), end + n + 2)))
                        } else {
                            Err(ProtocolError::Malformed)
                        }
                    }
                },
                LenTok::Bad => Err(ProtocolError::Malformed),
            },
            LineEnd::Inc => Ok(None),
            LineEnd::Mal => Err(ProtocolError::Malformed),
        }
    } else if t == 42 {
        match line_end(buf, pos + 1) {
            LineEnd::Got(cr) => match read_len(buf, pos + 1, cr) {
                LenTok::NullLen => Ok(Some((Value::NullArray, cr + 2))),
                LenTok::Len(len64) => {
                    if depth == 0 {
                        return Err(ProtocolError::TooDeep);
                    }
                    let d2 = depth - 1;
                    let start = cr + 2;
                    let ghost s = buf@;
                    let ghost n_total = len64 as nat;
                    let mut elems: Vec<Value> = Vec::new();
                    let mut p: usize = start;
                    let mut i: u64 = 0;
                    proof {
                        assert(with_prefix(
                            seq_model(elems@),
                            spec_parse_elems(s, p as int, n_total, d2 as nat),
                        ) == spec_parse_elems(s, start as int, n_total, d2 as nat)) by {
                            lemma_seq_model(elems@);
                            match spec_parse_elems(s, start as int, n_total, d2 as nat) {
                                ParseList::Found(ms, end) => {
                                    assert(seq_model(elems@) + ms =~= ms);
                                },
                                ParseList::Incomplete => {},
                                ParseList::Malformed => {},
                                ParseList::TooDeep => {},
                            }
                        }
                    }
                    while i < len64
                        invariant
                            i <= len64,
                            start <= p <= buf.len(),
                            s == buf@,
                            elems@.len() == i,
                            n_total == len64 as nat,
                            with_prefix(
                                seq_model(elems@),
                                spec_parse_elems(s, p as int, (n_total - i) as nat, d2 as nat),
                            ) == spec_parse_elems(s, start as int, n_total, d2 as nat),
                        decreases len64 - i,
                    {
                        let ghost pre = seq_model(elems@);
                        let ghost rem = (n_total - i) as nat;
                        proof {
                            assert(rem > 0);
                        }
                        match decode_at(buf, p, d2) {
                            Ok(Some((v, e))) => {
                                proof {
                                    let m = value_model(v);
                                    let inner = spec_parse_elems(
                                        s,
                                        e as int,
                                        (rem - 1) as nat,
                                        d2 as nat,
                                    );
                                    assert(spec_parse_elems(s, p as int, rem, d2 as nat) == (
                                    match inner {
                                        ParseList::Found(ms2, e2) => ParseList::Found(
                                            seq![m] + ms2,
                                            e2,
                                        ),
                                        ParseList::Incomplete => ParseList::Incomplete,
                                        ParseList::Malformed => ParseList::Malformed,
                                        ParseList::TooDeep => ParseList::TooDeep,
                                    }));
                                    lemma_seq_model(elems@);
                                    lemma_seq_model(elems@.push(v));
                                    assert forall|j: int|
                                        0 <= j < elems@.len() + 1 implies seq_model(
                                        elems@.push(v),
                                    )[j] == pre.push(m)[j] by {
                                        if j < elems@.len() {
                                            assert(elems@.push(v)[j] == elems@[j]);
                                        } else {
                                            assert(elems@.push(v)[j] == v);
                                        }
                                    }
                                    assert(seq_model(elems@.push(v)) =~= pre.push(m));
                                    match inner {
                                        ParseList::Found(ms2, e2) => {
                                            assert(pre + (seq![m] + ms2) =~= pre.push(m) + ms2);
                                        },
                                        ParseList::Incomplete => {},
                                        ParseList::Malformed => {},
                                        ParseList::TooDeep => {},
                                    }
                                }
                                elems.push(v);
                                p = e;
                                i = i + 1;
                            },
                            Ok(None) => {
                                return Ok(None);
                            },
                            Err(er) => {
                                return Err(er);
                            },
                        }
                    }
                    proof {
                        assert(spec_parse_elems(s, p as int, 0nat, d2 as nat)
                            == ParseList::Found(Seq::empty(), p as int));
                        let pre = seq_model(elems@);
                        assert(pre + Seq::<ValueModel>::empty() =~= pre);
                        assert(spec_parse_elems(s, start as int, n_total, d2 as nat)
                            == ParseList::Found(pre, p as int));
                    }
                    Ok(Some((Value::Array(elems), p)))
                },
                LenTok::Bad => Err(ProtocolError::Malformed),
            },
            LineEnd::Inc => Ok(None),
            LineEnd::Mal => Err(ProtocolError::Malformed),
        }
    } else {
        Err(ProtocolError::Malformed)
    }
}

/// Reads at most one complete frame from the front of the buffer.
///
/// Yields the decoded value and the number of bytes it occupied; `Ok(None)`
/// when the buffer holds only an incomplete frame and more bytes must be
/// read; `Malformed` when no continuation of the buffer is a frame;
/// `TooDeep` when arrays nest past the supported depth.
pub fn decode_next(buf: &Vec<u8>) -> (r: Result<Option<(Value, usize)>, ProtocolError>)
    ensures
        decode_post(buf@, 0, MAX_DEPTH as nat, r),
{
    decode_at(buf, 0, MAX_DEPTH)
}

// ---------------------------------------------------------------------------
// Executable encoder
// ---------------------------------------------------------------------------

fn push_bytes(out: &mut Vec<u8>, s: &Vec<u8>)
    ensures
        final(out)@ == old(out)@ + s@,
{
    let mut i: usize = 0;
    while i < s.len()
        invariant
            i <= s.len(),
            out@ == old(out)@ + s@.subrange(0, i as int),
        decreases s.len() - i,
    {
        out.push(s[i]);
        proof {
            assert(out@ =~= old(out)@ + s@.subrange(0, i + 1));
        }
        i = i + 1;
    }
    proof {
        assert(out@ =~= old(out)@ + s@);
    }
}

fn push_int(out: &mut Vec<u8>, i: i64)
    ensures
        final(out)@ == old(out)@ + int_literal(i as int),
{
    if i >= 0 {
        crate::num::push_dec_u64(out, i as u64);
    } else {
        out.push(45);
        let m: u64 = (-(i as i128)) as u64;
        proof {
            assert(m as nat == (-(i as int)) as nat);
        }
        crate::num::push_dec_u64(out, m);
        proof {
            assert(out@ =~= old(out)@ + (seq![45u8] + dec_digits((-(i as int)) as nat)));
        }
    }
}

pub proof fn lemma_wire_elems_push(ms: Seq<ValueModel>, m: ValueModel)
    ensures
        wire_elems(ms.push(m)) == wire_elems(ms) + wire(m),
    decreases ms,
{
    let p = ms.push(m);
    if ms.len() == 0 {
        assert(p.len() == 1);
        assert(p[0] == m);
        assert(p.subrange(1, p.len() as int) =~= Seq::<ValueModel>::empty());
        assert(wire_elems(p) == wire(m) + wire_elems(Seq::empty()));
        assert(wire(m) + Seq::<u8>::empty() =~= wire(m));
        assert(Seq::<u8>::empty() + wire(m) =~= wire(m));
    } else {
        lemma_wire_elems_push(ms.subrange(1, ms.len() as int), m);
        assert(p[0] == ms[0]);
        assert(p.subrange(1, p.len() as int) =~= ms.subrange(1, ms.len() as int).push(m));
        assert(wire_elems(p) == wire(ms[0]) + (wire_elems(ms.subrange(1, ms.len() as int)) + wire(
            m,
        )));
        assert(wire(ms[0]) + (wire_elems(ms.subrange(1, ms.len() as int)) + wire(m)) =~= (wire(
            ms[0],
        ) + wire_elems(ms.subrange(1, ms.len() as int))) + wire(m));
    }
}

#[verifier::loop_isolation(false)]
fn encode_into(v: &Value, out: &mut Vec<u8>)
    ensures
        final(out)@ == old(out)@ + wire(value_model(*v)),
    decreases *v,
{
    match v {
        Value::SimpleString(s) => {
            out.push(43);
            push_bytes(out, s);
            out.push(13);
            out.push(10);
            proof {
                assert(out@ =~= old(out)@ + (seq![43u8] + s@ + crlf()));
            }
        },
        Value::Error(s) => {
            out.push(45);
            push_bytes(out, s);
            out.push(13);
            out.push(10);
            proof {
                assert(out@ =~= old(out)@ + (seq![45u8] + s@ + crlf()));
            }
        },
        Value::Integer(i) => {
            out.push(58);
            push_int(out, *i);
            out.push(13);
            out.push(10);
            proof {
                assert(out@ =~= old(out)@ + (seq![58u8] + int_literal(*i as int) + crlf()));
            }
        },
        Value::BulkString(s) => {
            out.push(36);
            crate::num::push_dec_u64(out, s.len() as u64);
            out.push(13);
            out.push(10);
            push_bytes(out, s);
            out.push(13);
            out.push(10);
            proof {
                assert((s.len() as u64) as nat == s@.len());
                assert(out@ =~= old(out)@ + (seq![36u8] + dec_digits(s@.len()) + crlf() + s@
                    + crlf()));
            }
        },
        Value::Array(vs) => {
            out.push(42);
            crate::num::push_dec_u64(out, vs.len() as u64);
            out.push(13);
            out.push(10);
            let ghost header_done = out@;
            let ghost ms = seq_model(vs@);
            proof {
                lemma_seq_model(vs@);
                assert((vs.len() as u64) as nat == vs@.len());
                assert(header_done =~= old(out)@ + (seq![42u8] + dec_digits(vs@.len()) + crlf()));
            }
            let mut i: usize = 0;
            while i < vs.len()
                invariant
                    i <= vs.len(),
                    ms == seq_model(vs@),
                    ms.len() == vs@.len(),
                    forall|j: int| 0 <= j < vs@.len() ==> ms[j] == value_model(#[trigger] vs@[j]),
                    out@ == header_done + wire_elems(ms.subrange(0, i as int)),
                decreases vs.len() - i,
            {
                let ghost before = out@;
                encode_into(&vs[i], out);
                proof {
                    lemma_wire_elems_push(ms.subrange(0, i as int), ms[i as int]);
                    assert(ms.subrange(0, i as int).push(ms[i as int]) =~= ms.subrange(0, i + 1));
                    assert(out@ =~= header_done + wire_elems(ms.subrange(0, i + 1)));
                }
                i = i + 1;
            }
            proof {
                assert(ms.subrange(0, ms.len() as int) =~= ms);
                assert(out@ =~= old(out)@ + (seq![42u8] + dec_digits(vs@.len()) + crlf()
                    + wire_elems(ms)));
            }
        },
        Value::Null => {
            out.push(36);
            out.push(45);
            out.push(49);
            out.push(13);
            out.push(10);
            proof {
                assert(out@ =~= old(out)@ + seq![36u8, 45u8, 49u8, 13u8, 10u8]);
            }
        },
        Value::NullArray => {
            out.push(42);
            out.push(45);
            out.push(49);
            out.push(13);
            out.push(10);
            proof {
                assert(out@ =~= old(out)@ + seq![42u8, 45u8, 49u8, 13u8, 10u8]);
            }
        },
    }
}

/// Produces the canonical wire form of a value.
pub fn encode(v: &Value) -> (r: Vec<u8>)
    ensures
        r@ == wire(v@),
{
    let mut out: Vec<u8> = Vec::new();
    encode_into(v, &mut out);
    proof {
        assert(out@ =~= wire(value_model(*v)));
    }
    out
}

} // verus!
