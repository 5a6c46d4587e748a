//! Decimal digit strings: the canonical form written by the encoder and the
//! grammar accepted by the decoder's length and integer fields.
use vstd::prelude::*;

verus! {

/// 10 to the power k.
pub open spec fn pow10(k: nat) -> nat
    decreases k,
{
    if k == 0 {
        1
    } else {
        10 * pow10((k - 1) as nat)
    }
}

/// Canonical decimal digits of n, most significant first: no leading zero
/// except for the single digit of zero itself.
pub open spec fn dec_digits(n: nat) -> Seq<u8>
    decreases n,
{
    if n < 10 {
        seq![(48 + n) as u8]
    } else {
        dec_digits(n / 10).push((48 + n % 10) as u8)
    }
}

pub open spec fn is_digit(b: u8) -> bool {
    48 <= b <= 57
}

pub open spec fn all_digits(c: Seq<u8>) -> bool {
    forall|i: int| 0 <= i < c.len() ==> is_digit(#[trigger] c[i])
}

/// Numeric value of a digit string, most significant first.
pub open spec fn digits_value(c: Seq<u8>) -> int
    decreases c.len(),
{
    if c.len() == 0 {
        0
    } else {
        digits_value(c.drop_last()) * 10 + (c.last() - 48)
    }
}

/// The canonical literals the decoder accepts: one to nineteen digits with no
/// leading zero (so every representable value has exactly one spelling).
pub open spec fn is_canon_digits(c: Seq<u8>) -> bool {
    &&& all_digits(c)
    &&& 1 <= c.len() <= 19
    &&& (c.len() > 1 ==> c[0] != 48)
}

pub proof fn lemma_pow10_pos(k: nat)
    ensures
        pow10(k) >= 1,
    decreases k,
{
    if k > 0 {
        lemma_pow10_pos((k - 1) as nat);
    }
}

pub proof fn lemma_pow10_mono(a: nat, b: nat)
    requires
        a <= b,
    ensures
        1 <= pow10(a) <= pow10(b),
    decreases b,
{
    lemma_pow10_pos(a);
    if a < b {
        lemma_pow10_mono(a, (b - 1) as nat);
        lemma_pow10_pos((b - 1) as nat);
        assert(pow10(b) == 10 * pow10((b - 1) as nat));
    }
}

pub proof fn lemma_pow10_19()
    ensures
        pow10(19) == 10_000_000_000_000_000_000,
{
    assert(pow10(19) == 10_000_000_000_000_000_000) by {
        reveal_with_fuel(pow10, 21);
    }
}

/// The digits of n are digits, start nonzero for n >= 1, and evaluate to n.
pub proof fn lemma_dec_digits(n: nat)
    ensures
        all_digits(dec_digits(n)),
        dec_digits(n).len() >= 1,
        digits_value(dec_digits(n)) == n,
        n >= 1 ==> dec_digits(n)[0] != 48,
        n < 10 ==> dec_digits(n).len() == 1,
    decreases n,
{
    if n < 10 {
        let c = dec_digits(n);
        assert(c.drop_last() =~= Seq::<u8>::empty());
        assert(digits_value(Seq::<u8>::empty()) == 0);
        assert(digits_value(c) == n);
    } else {
        lemma_dec_digits(n / 10);
        let c2 = dec_digits(n / 10);
        let x: u8 = (48 + n % 10) as u8;
        let c = c2.push(x);
        assert(c.drop_last() =~= c2);
        assert(c.last() == x);
        assert(digits_value(c) == digits_value(c2) * 10 + (x - 48));
        assert(digits_value(c) == (n / 10) * 10 + n % 10);
        assert((n / 10) * 10 + n % 10 == n) by (nonlinear_arith);
        assert(c[0] == c2[0]);
        assert(forall|i: int| 0 <= i < c.len() ==> is_digit(#[trigger] c[i]));
    }
}

/// n below 10^k takes at most k digits.
pub proof fn lemma_dec_digits_len(n: nat, k: nat)
    requires
        k >= 1,
        n < pow10(k),
    ensures
        dec_digits(n).len() <= k,
    decreases n,
{
    if n < 10 {
    } else {
        if k == 1 {
            assert(pow10(0) == 1);
            assert(pow10(1) == 10);
            assert(false);
        }
        assert(pow10(k) == 10 * pow10((k - 1) as nat));
        assert(n / 10 < pow10((k - 1) as nat)) by (nonlinear_arith)
            requires
                n < 10 * pow10((k - 1) as nat),
                n >= 10,
        ;
        lemma_dec_digits_len(n / 10, (k - 1) as nat);
    }
}

/// A digit string's value is bounded by 10^length and is non-negative.
pub proof fn lemma_digits_value_bound(c: Seq<u8>)
    requires
        all_digits(c),
    ensures
        0 <= digits_value(c) < pow10(c.len()),
    decreases c.len(),
{
    if c.len() == 0 {
    } else {
        assert(all_digits(c.drop_last()));
        lemma_digits_value_bound(c.drop_last());
        assert(pow10(c.len()) == 10 * pow10((c.len() - 1) as nat));
        assert(is_digit(c.last()));
    }
}

/// Extending a digit string to the right never shrinks its value.
pub proof fn lemma_digits_prefix_mono(c: Seq<u8>, i: int, j: int)
    requires
        all_digits(c),
        0 <= i <= j <= c.len(),
    ensures
        digits_value(c.subrange(0, i)) <= digits_value(c.subrange(0, j)),
    decreases j - i,
{
    if i < j {
        lemma_digits_prefix_mono(c, i, j - 1);
        let p = c.subrange(0, j - 1);
        let q = c.subrange(0, j);
        assert(q.drop_last() =~= p);
        assert(all_digits(p));
        lemma_digits_value_bound(p);
        assert(digits_value(q) == digits_value(p) * 10 + (q.last() - 48));
        assert(is_digit(q.last()));
        assert(digits_value(p) * 10 >= digits_value(p)) by (nonlinear_arith)
            requires
                digits_value(p) >= 0,
        ;
    }
}

/// Appends the canonical decimal digits of n.
pub fn push_dec_u64(out: &mut Vec<u8>, n: u64)
    ensures
        final(out)@ == old(out)@ + dec_digits(n as nat),
    decreases n,
{
    if n < 10 {
        out.push(48 + n as u8);
        proof {
            assert(out@ =~= old(out)@ + dec_digits(n as nat));
        }
    } else {
        push_dec_u64(out, n / 10);
        out.push(48 + (n % 10) as u8);
        proof {
            assert((n / 10) as nat == (n as nat) / 10);
            assert((n % 10) as nat == (n as nat) % 10);
            assert(out@ =~= old(out)@ + dec_digits(n as nat));
        }
    }
}

/// Reads a canonical numeric literal from buf[a..b]; yields its value
/// exactly when the bytes form one.
pub fn parse_canon_digits(buf: &Vec<u8>, a: usize, b: usize) -> (r: Option<u64>)
    requires
        a <= b <= buf.len(),
    ensures
        match r {
            Some(v) => is_canon_digits(buf@.subrange(a as int, b as int)) && v as int
                == digits_value(buf@.subrange(a as int, b as int)),
            None => !is_canon_digits(buf@.subrange(a as int, b as int)),
        },
{
    let ghost c = buf@.subrange(a as int, b as int);
    let n = b - a;
    proof {
        assert(c.len() == n);
    }
    if n == 0 || n > 19 {
        return None;
    }
    if n > 1 && buf[a] == 48 {
        proof {
            assert(c[0] == buf@[a as int]);
        }
        return None;
    }
    let mut acc: u64 = 0;
    let mut i: usize = a;
    while i < b
        invariant
            a <= i <= b <= buf.len(),
            1 <= b - a <= 19,
            c == buf@.subrange(a as int, b as int),
            all_digits(buf@.subrange(a as int, i as int)),
            acc as int == digits_value(buf@.subrange(a as int, i as int)),
            acc < pow10((i - a) as nat),
        decreases b - i,
    {
        let d = buf[i];
        if d < 48 || d > 57 {
            proof {
                assert(c[i - a] == buf@[i as int]);
                assert(!is_digit(c[i - a]));
                assert(!all_digits(c));
            }
            return None;
        }
        proof {
            let p = buf@.subrange(a as int, i as int);
            let q = buf@.subrange(a as int, i + 1);
            assert(q.drop_last() =~= p);
            assert(q.last() == d);
            lemma_pow10_mono((i + 1 - a) as nat, 19);
            lemma_pow10_19();
            assert(pow10((i + 1 - a) as nat) == 10 * pow10((i - a) as nat));
            assert(acc * 10 + (d - 48) < pow10((i + 1 - a) as nat)) by (nonlinear_arith)
                requires
                    acc < pow10((i - a) as nat),
                    0 <= d - 48 < 10,
                    pow10((i + 1 - a) as nat) == 10 * pow10((i - a) as nat),
            ;
            assert(acc * 10 + (d - 48) < 10_000_000_000_000_000_000);
        }
        acc = acc * 10 + (d - 48) as u64;
        i = i + 1;
    }
    proof {
        assert(buf@.subrange(a as int, i as int) =~= c);
        assert(c[0] == buf@[a as int]);
        assert(is_canon_digits(c));
    }
    Some(acc)
}

/// Reads an unsigned decimal number, leading zeros allowed, as the PX
/// argument of SET is written; yields its value exactly when the bytes are
/// all digits and the value fits in 64 bits.
pub fn parse_u64_decimal(bytes: &Vec<u8>) -> (r: Option<u64>)
    ensures
        match r {
            Some(v) => bytes@.len() >= 1 && all_digits(bytes@) && v as int == digits_value(
                bytes@,
            ),
            None => bytes@.len() == 0 || !all_digits(bytes@) || digits_value(bytes@)
                > u64::MAX as int,
        },
{
    if bytes.len() == 0 {
        return None;
    }
    let mut acc: u64 = 0;
    let mut i: usize = 0;
    while i < bytes.len()
        invariant
            0 <= i <= bytes@.len(),
            all_digits(bytes@.subrange(0, i as int)),
            acc as int == digits_value(bytes@.subrange(0, i as int)),
        decreases bytes@.len() - i,
    {
        let d = bytes[i];
        if d < 48 || d > 57 {
            proof {
                assert(bytes@[i as int] == d);
                assert(!is_digit(bytes@[i as int]));
                assert(!all_digits(bytes@));
            }
            return None;
        }
        let ghost p = bytes@.subrange(0, i as int);
        let ghost q = bytes@.subrange(0, i + 1);
        proof {
            assert(q.drop_last() =~= p);
            assert(q.last() == d);
        }
        let step = match acc.checked_mul(10) {
            Some(m) => m.checked_add((d - 48) as u64),
            None => None,
        };
        match step {
            Some(v) => {
                acc = v;
            },
            None => {
                proof {
                    assert(digits_value(q) == acc * 10 + (d - 48));
                    assert(digits_value(q) > u64::MAX as int);
                    assert(all_digits(q));
                    if all_digits(bytes@) {
                        lemma_digits_prefix_mono(bytes@, i + 1, bytes@.len() as int);
                        assert(bytes@.subrange(0, bytes@.len() as int) =~= bytes@);
                        assert(digits_value(bytes@) >= digits_value(q));
                    }
                }
                return None;
            },
        }
        i = i + 1;
    }
    proof {
        assert(bytes@.subrange(0, i as int) =~= bytes@);
    }
    Some(acc)
}

} // verus!
