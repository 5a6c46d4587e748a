//! Laws of the codec: decoding inverts encoding, and a strict prefix of an
//! encoded frame always asks for more bytes rather than failing.
use crate::num::dec_digits;
use crate::num::digits_value;
use crate::num::is_canon_digits;
use crate::num::lemma_dec_digits;
use crate::num::lemma_dec_digits_len;
use crate::num::lemma_pow10_19;
use crate::resp::crlf;
use crate::resp::int_literal;
use crate::resp::is_int_lit;
use crate::resp::is_len_lit;
use crate::resp::is_null_len;
use crate::resp::int_lit_value;
use crate::resp::spec_find_cr;
use crate::resp::spec_line_end;
use crate::resp::spec_parse_elems;
use crate::resp::spec_parse_value;
use crate::resp::wf_elems;
use crate::resp::wf_value;
use crate::resp::wire;
use crate::resp::wire_elems;
use crate::resp::LineRes;
use crate::resp::Parse;
use crate::resp::ParseList;
use crate::resp::ValueModel;
use crate::resp::MAX_DEPTH;
use crate::resp::MAX_PAYLOAD_LEN;
use vstd::prelude::*;

verus! {

proof fn lemma_find_cr_at(s: Seq<u8>, from: int, cr: int)
    requires
        0 <= from <= cr < s.len(),
        s[cr] == 13,
        forall|j: int| from <= j < cr ==> s[j] != 13,
    ensures
        spec_find_cr(s, from) == Some(cr),
    decreases cr - from,
{
    if from < cr {
        lemma_find_cr_at(s, from + 1, cr);
    }
}

proof fn lemma_find_cr_none(s: Seq<u8>, from: int)
    requires
        0 <= from,
        forall|j: int| from <= j < s.len() ==> s[j] != 13,
    ensures
        spec_find_cr(s, from) is None,
    decreases s.len() - from,
{
    if from < s.len() {
        lemma_find_cr_none(s, from + 1);
    }
}

/// A complete CRLF-terminated line whose body holds no CR.
proof fn lemma_line_at(s: Seq<u8>, start: int, body: Seq<u8>)
    requires
        0 <= start,
        start + body.len() + 1 < s.len(),
        forall|j: int| 0 <= j < body.len() ==> s[start + j] == body[j],
        forall|j: int| 0 <= j < body.len() ==> body[j] != 13,
        s[start + body.len()] == 13,
        s[start + body.len() + 1] == 10,
    ensures
        spec_line_end(s, start) == LineRes::Got(start + body.len()),
        s.subrange(start, start + body.len()) == body,
{
    let cr = start + body.len() as int;
    assert forall|j: int| start <= j < cr implies s[j] != 13 by {
        assert(s[j] == body[j - start]);
    }
    lemma_find_cr_at(s, start, cr);
    assert(s.subrange(start, cr) =~= body);
}

/// A line whose terminator has not arrived: either no CR yet, or a CR as
/// the buffer's last byte.
proof fn lemma_line_inc(s: Seq<u8>, start: int)
    requires
        0 <= start,
        forall|j: int| start <= j < s.len() - 1 ==> s[j] != 13,
    ensures
        spec_line_end(s, start) is Inc,
{
    if start >= s.len() {
        lemma_find_cr_none(s, start);
    } else if s[s.len() - 1] == 13 {
        lemma_find_cr_at(s, start, s.len() - 1);
    } else {
        lemma_find_cr_none(s, start);
    }
}

/// The canonical digits of a length are a pure length literal.
proof fn lemma_len_lit(n: nat)
    requires
        n <= MAX_PAYLOAD_LEN,
    ensures
        is_len_lit(dec_digits(n)),
        !is_null_len(dec_digits(n)),
        digits_value(dec_digits(n)) == n,
        forall|j: int| 0 <= j < dec_digits(n).len() ==> dec_digits(n)[j] != 13 && dec_digits(n)[j]
            != 10 && dec_digits(n)[j] != 45,
        dec_digits(n).len() >= 1,
{
    lemma_dec_digits(n);
    lemma_pow10_19();
    lemma_dec_digits_len(n, 19);
    let c = dec_digits(n);
    assert(is_canon_digits(c));
    assert forall|j: int| 0 <= j < c.len() implies c[j] != 13 && c[j] != 10 && c[j] != 45 by {
        assert(crate::num::is_digit(c[j]));
    }
}

/// The canonical literal of a 64-bit integer parses back to the integer.
proof fn lemma_int_lit(i: int)
    requires
        i64::MIN <= i <= i64::MAX,
    ensures
        is_int_lit(int_literal(i)),
        int_lit_value(int_literal(i)) == i,
        int_literal(i).len() >= 1,
        forall|j: int| 0 <= j < int_literal(i).len() ==> int_literal(i)[j] != 13 && int_literal(
            i,
        )[j] != 10,
{
    lemma_pow10_19();
    let c = int_literal(i);
    if i >= 0 {
        lemma_dec_digits(i as nat);
        lemma_dec_digits_len(i as nat, 19);
        assert(is_canon_digits(c));
        assert(c[0] != 45) by {
            assert(crate::num::is_digit(c[0]));
        }
        assert forall|j: int| 0 <= j < c.len() implies c[j] != 13 && c[j] != 10 by {
            assert(crate::num::is_digit(c[j]));
        }
    } else {
        let mag = (-i) as nat;
        lemma_dec_digits(mag);
        lemma_dec_digits_len(mag, 19);
        let dd = dec_digits(mag);
        assert(c == seq![45u8] + dd);
        assert(c[0] == 45);
        assert(c.subrange(1, c.len() as int) =~= dd);
        assert(is_canon_digits(dd));
        assert(1 <= digits_value(dd) <= 0x8000_0000_0000_0000);
        assert(int_lit_value(c) == -digits_value(dd));
        assert forall|j: int| 0 <= j < c.len() implies c[j] != 13 && c[j] != 10 by {
            if j >= 1 {
                assert(c[j] == dd[j - 1]);
                assert(crate::num::is_digit(dd[j - 1]));
            }
        }
    }
}

/// Decoding at `pos` of a buffer that carries the whole encoding of a
/// well-formed value there finds exactly that value, whatever surrounds it.
pub proof fn lemma_parse_wire(m: ValueModel, s: Seq<u8>, pos: int, d: nat)
    requires
        wf_value(m, d),
        0 <= pos,
        pos + wire(m).len() <= s.len(),
        s.subrange(pos, pos + wire(m).len() as int) == wire(m),
    ensures
        spec_parse_value(s, pos, d) == Parse::Found(m, pos + wire(m).len()),
    decreases d, 0nat,
{
    let w = wire(m);
    let ln = w.len() as int;
    assert forall|k: int| 0 <= k < ln implies s[pos + k] == w[k] by {
        assert(s.subrange(pos, pos + ln)[k] == s[pos + k]);
    }
    match m {
        ValueModel::SimpleString(body) => {
            assert(w == seq![43u8] + body + crlf());
            assert forall|j: int| 0 <= j < body.len() implies s[pos + 1 + j] == body[j] && body[j]
                != 13 by {
                assert(w[1 + j] == body[j]);
            }
            assert(s[pos] == w[0]);
            assert(s[pos + 1 + body.len()] == w[1 + body.len() as int]);
            assert(s[pos + 2 + body.len()] == w[2 + body.len() as int]);
            lemma_line_at(s, pos + 1, body);
            assert(spec_parse_value(s, pos, d) == Parse::Found(
                ValueModel::SimpleString(body),
                pos + ln,
            ));
        },
        ValueModel::Error(body) => {
            assert(w == seq![45u8] + body + crlf());
            assert forall|j: int| 0 <= j < body.len() implies s[pos + 1 + j] == body[j] && body[j]
                != 13 by {
                assert(w[1 + j] == body[j]);
            }
            assert(s[pos] == w[0]);
            assert(s[pos + 1 + body.len()] == w[1 + body.len() as int]);
            assert(s[pos + 2 + body.len()] == w[2 + body.len() as int]);
            lemma_line_at(s, pos + 1, body);
            assert(spec_parse_value(s, pos, d) == Parse::Found(ValueModel::Error(body), pos + ln));
        },
        ValueModel::Integer(i) => {
            lemma_int_lit(i);
            let body = int_literal(i);
            assert(w == seq![58u8] + body + crlf());
            assert forall|j: int| 0 <= j < body.len() implies s[pos + 1 + j] == body[j] && body[j]
                != 13 by {
                assert(w[1 + j] == body[j]);
            }
            assert(s[pos] == w[0]);
            assert(s[pos + 1 + body.len()] == w[1 + body.len() as int]);
            assert(s[pos + 2 + body.len()] == w[2 + body.len() as int]);
            lemma_line_at(s, pos + 1, body);
            assert(s.subrange(pos + 1, pos + 1 + body.len()) == body);
            assert(spec_parse_value(s, pos, d) == Parse::Found(
                ValueModel::Integer(int_lit_value(body)),
                pos + ln,
            ));
            assert(int_lit_value(body) == i);
        },
        ValueModel::BulkString(body) => {
            let dd = dec_digits(body.len());
            lemma_len_lit(body.len());
            assert(w == seq![36u8] + dd + crlf() + body + crlf());
            let dl = dd.len() as int;
            assert forall|j: int| 0 <= j < dl implies s[pos + 1 + j] == dd[j] && dd[j] != 13 by {
                assert(w[1 + j] == dd[j]);
            }
            assert(s[pos] == w[0]);
            assert(s[pos + 1 + dl] == w[1 + dl]);
            assert(w[1 + dl] == 13);
            assert(s[pos + 2 + dl] == w[2 + dl]);
            assert(w[2 + dl] == 10);
            lemma_line_at(s, pos + 1, dd);
            let c = s.subrange(pos + 1, pos + 1 + dl);
            assert(c == dd);
            assert(!is_null_len(c) && is_len_lit(c));
            let n = digits_value(c);
            assert(n == body.len());
            let payload_start = pos + 3 + dl;
            assert forall|j: int| 0 <= j < body.len() implies s[payload_start + j] == body[j] by {
                assert(w[3 + dl + j] == body[j]);
            }
            assert(s[payload_start + n] == w[3 + dl + n]);
            assert(w[3 + dl + n] == 13);
            assert(s[payload_start + n + 1] == w[3 + dl + n + 1]);
            assert(w[3 + dl + n + 1] == 10);
            assert(s.subrange(payload_start, payload_start + n) =~= body);
            assert(payload_start + n + 2 == pos + ln);
            assert(spec_parse_value(s, pos, d) == Parse::Found(
                ValueModel::BulkString(body),
                pos + ln,
            ));
        },
        ValueModel::Array(ms) => {
            let dd = dec_digits(ms.len());
            lemma_len_lit(ms.len());
            let we = wire_elems(ms);
            assert(w == seq![42u8] + dd + crlf() + we);
            let dl = dd.len() as int;
            assert forall|j: int| 0 <= j < dl implies s[pos + 1 + j] == dd[j] && dd[j] != 13 by {
                assert(w[1 + j] == dd[j]);
            }
            assert(s[pos] == w[0]);
            assert(s[pos + 1 + dl] == w[1 + dl]);
            assert(w[1 + dl] == 13);
            assert(s[pos + 2 + dl] == w[2 + dl]);
            assert(w[2 + dl] == 10);
            lemma_line_at(s, pos + 1, dd);
            let c = s.subrange(pos + 1, pos + 1 + dl);
            assert(c == dd);
            assert(!is_null_len(c) && is_len_lit(c));
            assert(digits_value(c) == ms.len());
            let start = pos + 3 + dl;
            assert forall|j: int| 0 <= j < we.len() implies s[start + j] == we[j] by {
                assert(w[3 + dl + j] == we[j]);
            }
            assert(s.subrange(start, start + we.len()) =~= we);
            assert(d >= 1);
            lemma_parse_wire_elems(ms, s, start, (d - 1) as nat);
            assert(start + we.len() == pos + ln);
            assert(spec_parse_value(s, pos, d) == Parse::Found(ValueModel::Array(ms), pos + ln));
        },
        ValueModel::Null => {
            assert(w == seq![36u8, 45u8, 49u8, 13u8, 10u8]);
            assert(s[pos] == 36);
            assert(s[pos + 1] == 45);
            assert(s[pos + 2] == 49);
            assert(s[pos + 3] == 13);
            assert(s[pos + 4] == 10);
            let body = seq![45u8, 49u8];
            lemma_line_at(s, pos + 1, body);
            let c = s.subrange(pos + 1, pos + 3);
            assert(c == body);
            assert(c.subrange(1, 2) =~= seq![49u8]);
            assert(digits_value(seq![49u8]) == 1) by {
                assert(seq![49u8].drop_last() =~= Seq::<u8>::empty());
                assert(digits_value(Seq::<u8>::empty()) == 0);
            }
            assert(is_null_len(c));
            assert(spec_parse_value(s, pos, d) == Parse::Found(ValueModel::Null, pos + 5));
        },
        ValueModel::NullArray => {
            assert(w == seq![42u8, 45u8, 49u8, 13u8, 10u8]);
            assert(s[pos] == 42);
            assert(s[pos + 1] == 45);
            assert(s[pos + 2] == 49);
            assert(s[pos + 3] == 13);
            assert(s[pos + 4] == 10);
            let body = seq![45u8, 49u8];
            lemma_line_at(s, pos + 1, body);
            let c = s.subrange(pos + 1, pos + 3);
            assert(c == body);
            assert(c.subrange(1, 2) =~= seq![49u8]);
            assert(digits_value(seq![49u8]) == 1) by {
                assert(seq![49u8].drop_last() =~= Seq::<u8>::empty());
                assert(digits_value(Seq::<u8>::empty()) == 0);
            }
            assert(is_null_len(c));
            assert(spec_parse_value(s, pos, d) == Parse::Found(ValueModel::NullArray, pos + 5));
        },
    }
}

/// Element lists parse back from their concatenated encodings.
pub proof fn lemma_parse_wire_elems(ms: Seq<ValueModel>, s: Seq<u8>, pos: int, d: nat)
    requires
        wf_elems(ms, d),
        0 <= pos,
        pos + wire_elems(ms).len() <= s.len(),
        s.subrange(pos, pos + wire_elems(ms).len() as int) == wire_elems(ms),
    ensures
        spec_parse_elems(s, pos, ms.len(), d) == ParseList::Found(ms, pos + wire_elems(ms).len()),
    decreases d, ms.len(),
{
    let we = wire_elems(ms);
    let ln = we.len() as int;
    assert forall|k: int| 0 <= k < ln implies s[pos + k] == we[k] by {
        assert(s.subrange(pos, pos + ln)[k] == s[pos + k]);
    }
    if ms.len() == 0 {
        assert(ms =~= Seq::<ValueModel>::empty());
    } else {
        let w0 = wire(ms[0]);
        let rest = ms.subrange(1, ms.len() as int);
        let wr = wire_elems(rest);
        assert(we == w0 + wr);
        assert(s.subrange(pos, pos + w0.len()) =~= w0) by {
            assert forall|k: int| 0 <= k < w0.len() implies s[pos + k] == w0[k] by {
                assert(we[k] == w0[k]);
            }
        }
        assert(wf_value(ms[0], d));
        lemma_parse_wire(ms[0], s, pos, d);
        let mid = pos + w0.len() as int;
        assert(s.subrange(mid, mid + wr.len()) =~= wr) by {
            assert forall|k: int| 0 <= k < wr.len() implies s[mid + k] == wr[k] by {
                assert(we[w0.len() + k] == wr[k]);
            }
        }
        lemma_parse_wire_elems(rest, s, mid, d);
        assert(spec_parse_elems(s, mid, (ms.len() - 1) as nat, d) == ParseList::Found(
            rest,
            mid + wr.len(),
        ));
        assert(seq![ms[0]] + rest =~= ms);
        assert(spec_parse_elems(s, pos, ms.len(), d) == ParseList::Found(ms, pos + ln));
    }
}

/// A buffer that ends inside a value's encoding parses as incomplete.
pub proof fn lemma_prefix_value(m: ValueModel, s: Seq<u8>, pos: int, k: int, d: nat)
    requires
        wf_value(m, d),
        0 <= pos,
        0 <= k < wire(m).len(),
        s.len() == pos + k,
        s.subrange(pos, pos + k) == wire(m).subrange(0, k),
    ensures
        spec_parse_value(s, pos, d) == Parse::Incomplete,
    decreases d, 0nat,
{
    let w = wire(m);
    assert forall|j: int| 0 <= j < k implies s[pos + j] == w[j] by {
        assert(s.subrange(pos, pos + k)[j] == s[pos + j]);
        assert(w.subrange(0, k)[j] == w[j]);
    }
    if k == 0 {
    } else {
        match m {
            ValueModel::SimpleString(body) => {
                assert(s[pos] == w[0]);
                assert forall|j: int| pos + 1 <= j < s.len() - 1 implies s[j] != 13 by {
                    assert(s[j] == w[j - pos]);
                    assert(w[j - pos] == body[j - pos - 1]);
                }
                lemma_line_inc(s, pos + 1);
            },
            ValueModel::Error(body) => {
                assert(s[pos] == w[0]);
                assert forall|j: int| pos + 1 <= j < s.len() - 1 implies s[j] != 13 by {
                    assert(s[j] == w[j - pos]);
                    assert(w[j - pos] == body[j - pos - 1]);
                }
                lemma_line_inc(s, pos + 1);
            },
            ValueModel::Integer(i) => {
                lemma_int_lit(i);
                let body = int_literal(i);
                assert(s[pos] == w[0]);
                assert forall|j: int| pos + 1 <= j < s.len() - 1 implies s[j] != 13 by {
                    assert(s[j] == w[j - pos]);
                    assert(w[j - pos] == body[j - pos - 1]);
                }
                lemma_line_inc(s, pos + 1);
            },
            ValueModel::Null => {
                let body = seq![45u8, 49u8];
                assert(s[pos] == w[0]);
                assert forall|j: int| pos + 1 <= j < s.len() - 1 implies s[j] != 13 by {
                    assert(s[j] == w[j - pos]);
                    assert(w[j - pos] == body[j - pos - 1]);
                }
                lemma_line_inc(s, pos + 1);
            },
            ValueModel::NullArray => {
                let body = seq![45u8, 49u8];
                assert(s[pos] == w[0]);
                assert forall|j: int| pos + 1 <= j < s.len() - 1 implies s[j] != 13 by {
                    assert(s[j] == w[j - pos]);
                    assert(w[j - pos] == body[j - pos - 1]);
                }
                lemma_line_inc(s, pos + 1);
            },
            ValueModel::BulkString(body) => {
                let dd = dec_digits(body.len());
                lemma_len_lit(body.len());
                let dl = dd.len() as int;
                assert(s[pos] == w[0]);
                if k <= 2 + dl {
                    assert forall|j: int| pos + 1 <= j < s.len() - 1 implies s[j] != 13 by {
                        assert(s[j] == w[j - pos]);
                        assert(w[j - pos] == dd[j - pos - 1]);
                    }
                    lemma_line_inc(s, pos + 1);
                } else {
                    assert forall|j: int| 0 <= j < dl implies s[pos + 1 + j] == dd[j] && dd[j]
                        != 13 by {
                        assert(w[1 + j] == dd[j]);
                    }
                    assert(s[pos + 1 + dl] == w[1 + dl]);
                    assert(w[1 + dl] == 13);
                    assert(s[pos + 2 + dl] == w[2 + dl]);
                    assert(w[2 + dl] == 10);
                    lemma_line_at(s, pos + 1, dd);
                    let c = s.subrange(pos + 1, pos + 1 + dl);
                    assert(c == dd);
                    assert(!is_null_len(c) && is_len_lit(c));
                    let n = digits_value(c);
                    assert(n == body.len());
                    assert(pos + 3 + dl + n + 2 == pos + wire(m).len());
                    assert(pos + 3 + dl + n + 2 > s.len());
                    assert(spec_parse_value(s, pos, d) == Parse::Incomplete);
                }
            },
            ValueModel::Array(ms) => {
                let dd = dec_digits(ms.len());
                lemma_len_lit(ms.len());
                let we = wire_elems(ms);
                let dl = dd.len() as int;
                assert(s[pos] == w[0]);
                if k <= 2 + dl {
                    assert forall|j: int| pos + 1 <= j < s.len() - 1 implies s[j] != 13 by {
                        assert(s[j] == w[j - pos]);
                        assert(w[j - pos] == dd[j - pos - 1]);
                    }
                    lemma_line_inc(s, pos + 1);
                } else {
                    assert forall|j: int| 0 <= j < dl implies s[pos + 1 + j] == dd[j] && dd[j]
                        != 13 by {
                        assert(w[1 + j] == dd[j]);
                    }
                    assert(s[pos + 1 + dl] == w[1 + dl]);
                    assert(w[1 + dl] == 13);
                    assert(s[pos + 2 + dl] == w[2 + dl]);
                    assert(w[2 + dl] == 10);
                    lemma_line_at(s, pos + 1, dd);
                    let c = s.subrange(pos + 1, pos + 1 + dl);
                    assert(c == dd);
                    assert(!is_null_len(c) && is_len_lit(c));
                    assert(digits_value(c) == ms.len());
                    assert(d >= 1);
                    let start = pos + 3 + dl;
                    let k2 = k - 3 - dl;
                    assert(0 <= k2 < we.len());
                    assert(s.subrange(start, start + k2) =~= we.subrange(0, k2)) by {
                        assert forall|j: int| 0 <= j < k2 implies s[start + j] == we[j] by {
                            assert(s[start + j] == w[3 + dl + j]);
                            assert(w[3 + dl + j] == we[j]);
                        }
                    }
                    lemma_prefix_elems(ms, s, start, k2, (d - 1) as nat);
                    assert(spec_parse_value(s, pos, d) == Parse::Incomplete);
                }
            },
        }
    }
}

/// A buffer that ends inside an element list's encoding parses as
/// incomplete.
pub proof fn lemma_prefix_elems(ms: Seq<ValueModel>, s: Seq<u8>, pos: int, k: int, d: nat)
    requires
        wf_elems(ms, d),
        0 <= pos,
        0 <= k < wire_elems(ms).len(),
        s.len() == pos + k,
        s.subrange(pos, pos + k) == wire_elems(ms).subrange(0, k),
    ensures
        spec_parse_elems(s, pos, ms.len(), d) == ParseList::Incomplete,
    decreases d, ms.len(),
{
    let we = wire_elems(ms);
    assert(ms.len() >= 1);
    assert forall|j: int| 0 <= j < k implies s[pos + j] == we[j] by {
        assert(s.subrange(pos, pos + k)[j] == s[pos + j]);
        assert(we.subrange(0, k)[j] == we[j]);
    }
    let w0 = wire(ms[0]);
    let rest = ms.subrange(1, ms.len() as int);
    let wr = wire_elems(rest);
    assert(we == w0 + wr);
    assert(wf_value(ms[0], d));
    if k < w0.len() {
        assert(s.subrange(pos, pos + k) =~= w0.subrange(0, k)) by {
            assert forall|j: int| 0 <= j < k implies s[pos + j] == w0[j] by {
                assert(we[j] == w0[j]);
            }
        }
        lemma_prefix_value(ms[0], s, pos, k, d);
    } else {
        assert(s.subrange(pos, pos + w0.len()) =~= w0) by {
            assert forall|j: int| 0 <= j < w0.len() implies s[pos + j] == w0[j] by {
                assert(we[j] == w0[j]);
            }
        }
        lemma_parse_wire(ms[0], s, pos, d);
        let mid = pos + w0.len() as int;
        let k2 = k - w0.len();
        assert(0 <= k2 < wr.len());
        assert(s.subrange(mid, mid + k2) =~= wr.subrange(0, k2)) by {
            assert forall|j: int| 0 <= j < k2 implies s[mid + j] == wr[j] by {
                assert(s[mid + j] == we[w0.len() + j]);
                assert(we[w0.len() + j] == wr[j]);
            }
        }
        lemma_prefix_elems(rest, s, mid, k2, d);
    }
}

/// Partial frames: every strict prefix of a well-formed value's encoding
/// decodes to "need more bytes" — never to a value, never to an error — and
/// the complete encoding then decodes to the value itself.
pub proof fn lemma_prefix_incomplete(m: ValueModel, k: int)
    requires
        wf_value(m, MAX_DEPTH as nat),
        0 <= k < wire(m).len(),
    ensures
        spec_parse_value(wire(m).subrange(0, k), 0, MAX_DEPTH as nat) == Parse::Incomplete,
{
    let s = wire(m).subrange(0, k);
    assert(s.subrange(0, k) =~= wire(m).subrange(0, k));
    lemma_prefix_value(m, s, 0, k, MAX_DEPTH as nat);
}

/// Round trip: the canonical encoding of every well-formed value decodes to
/// exactly that value, consuming exactly the encoding's bytes.
pub proof fn lemma_round_trip(m: ValueModel)
    requires
        wf_value(m, MAX_DEPTH as nat),
    ensures
        spec_parse_value(wire(m), 0, MAX_DEPTH as nat) == Parse::Found(m, wire(m).len() as int),
{
    let s = wire(m);
    assert(s.subrange(0, s.len() as int) =~= s);
    lemma_parse_wire(m, s, 0, MAX_DEPTH as nat);
}

} // verus!
