//! Decimal integers in ASCII: how the frame reader reads a length or a count
//! (through the `atoi` crate), and how the frame writer prints one.

use vstd::prelude::*;

verus! {

/// An ASCII digit, `0` to `9`.
pub open spec fn is_digit(b: u8) -> bool {
    48 <= b <= 57
}

/// How many ASCII digits `t` starts with.
pub open spec fn leading_digits(t: Seq<u8>) -> nat
    decreases t.len(),
{
    if t.len() == 0 || !is_digit(t[0]) {
        0
    } else {
        1 + leading_digits(t.drop_first())
    }
}

/// The number that a run of ASCII digits denotes.
pub open spec fn digits_value(d: Seq<u8>) -> nat
    decreases d.len(),
{
    if d.len() == 0 {
        0
    } else {
        digits_value(d.drop_last()) * 10 + (d.last() - 48) as nat
    }
}

/// Whether `t` starts with a sign byte (`+` or `-`).
pub open spec fn has_sign(t: Seq<u8>) -> bool {
    t.len() > 0 && (t[0] == 43 || t[0] == 45)
}

/// Whether `t` starts with a minus sign.
pub open spec fn is_negative(t: Seq<u8>) -> bool {
    t.len() > 0 && t[0] == 45
}

/// The magnitude that `atoi` reads from `t`: the digits right after an
/// optional sign, up to the first byte that is not a digit.
pub open spec fn magnitude(t: Seq<u8>) -> nat {
    let body = if has_sign(t) { t.drop_first() } else { t };
    digits_value(body.take(leading_digits(body) as int))
}

/// Whether `atoi` consumes anything at all: a sign or at least one digit.
pub open spec fn reads_something(t: Seq<u8>) -> bool {
    has_sign(t) || leading_digits(t) > 0
}

/// What `atoi::atoi::<u64>` returns for `t`: `None` when `t` starts with
/// neither a sign nor a digit, or when the number does not fit; a minus sign
/// only admits zero. Bytes after the digits are ignored.
pub open spec fn atoi_u64(t: Seq<u8>) -> Option<u64> {
    if !reads_something(t) {
        None
    } else if is_negative(t) {
        if magnitude(t) == 0 { Some(0) } else { None }
    } else if magnitude(t) <= u64::MAX {
        Some(magnitude(t) as u64)
    } else {
        None
    }
}

/// What `atoi::atoi::<i64>` returns for `t`, on the same reading as
/// [`atoi_u64`], with the range of `i64`.
pub open spec fn atoi_i64(t: Seq<u8>) -> Option<i64> {
    if !reads_something(t) {
        None
    } else if is_negative(t) {
        if magnitude(t) <= 0x8000_0000_0000_0000 { Some((0 - magnitude(t)) as i64) } else { None }
    } else if magnitude(t) <= i64::MAX {
        Some(magnitude(t) as i64)
    } else {
        None
    }
}

/// `atoi::atoi::<u64>`: the unsigned number at the start of `text`.
#[verifier::external_body]
pub(crate) fn atoi_unsigned(text: &[u8]) -> (r: Option<u64>)
    ensures
        r == atoi_u64(text@),
{
    atoi::atoi::<u64>(text)
}

/// `atoi::atoi::<i64>`: the signed number at the start of `text`.
#[verifier::external_body]
pub(crate) fn atoi_signed(text: &[u8]) -> (r: Option<i64>)
    ensures
        r == atoi_i64(text@),
{
    atoi::atoi::<i64>(text)
}

/// The shortest ASCII decimal form of `n`.
pub open spec fn decimal(n: nat) -> Seq<u8>
    decreases n,
{
    if n < 10 {
        seq![(48 + n) as u8]
    } else {
        decimal(n / 10).push((48 + n % 10) as u8)
    }
}

/// The ASCII decimal form of a signed number: a minus sign before the
/// magnitude of a negative one.
pub open spec fn signed_decimal(n: int) -> Seq<u8> {
    if n < 0 {
        seq![45u8] + decimal((0 - n) as nat)
    } else {
        decimal(n as nat)
    }
}

pub proof fn lemma_decimal_digits(n: nat)
    ensures
        decimal(n).len() >= 1,
        forall|k: int| 0 <= k < decimal(n).len() ==> is_digit(#[trigger] decimal(n)[k]),
        digits_value(decimal(n)) == n,
    decreases n,
{
    let d = decimal(n);
    if n >= 10 {
        lemma_decimal_digits(n / 10);
        assert(d.drop_last() =~= decimal(n / 10));
        assert(d.last() == (48 + n % 10) as u8);
        assert((d.last() - 48) as nat == n % 10);
        assert(digits_value(d) == digits_value(d.drop_last()) * 10 + (d.last() - 48) as nat);
        assert((n / 10) * 10 + n % 10 == n) by (nonlinear_arith);
    } else {
        assert(d.drop_last() =~= Seq::<u8>::empty());
        assert(digits_value(d) == digits_value(d.drop_last()) * 10 + (d.last() - 48) as nat);
    }
}

pub proof fn lemma_leading_digits_all(t: Seq<u8>)
    requires
        forall|k: int| 0 <= k < t.len() ==> is_digit(#[trigger] t[k]),
    ensures
        leading_digits(t) == t.len(),
    decreases t.len(),
{
    if t.len() > 0 {
        lemma_leading_digits_all(t.drop_first());
    }
}

/// `atoi` reads back the decimal form of a number.
pub proof fn lemma_atoi_decimal(n: nat)
    requires
        n <= u64::MAX,
    ensures
        atoi_u64(decimal(n)) == Some(n as u64),
{
    let d = decimal(n);
    lemma_decimal_digits(n);
    lemma_leading_digits_all(d);
    assert(is_digit(d[0]));
    assert(!has_sign(d));
    assert(d.take(d.len() as int) =~= d);
}

/// `atoi` reads back the signed decimal form of a number.
pub proof fn law_atoi_reads_signed_decimal(i: i64)
    ensures
        atoi_i64(signed_decimal(i as int)) == Some(i),
{
    let t = signed_decimal(i as int);
    if i < 0 {
        let m = (0 - i) as nat;
        let d = decimal(m);
        lemma_decimal_digits(m);
        lemma_leading_digits_all(d);
        assert(t.drop_first() =~= d);
        assert(d.take(d.len() as int) =~= d);
        assert(is_negative(t));
        assert(has_sign(t));
        assert(magnitude(t) == m);
    } else {
        let d = decimal(i as nat);
        lemma_decimal_digits(i as nat);
        lemma_leading_digits_all(d);
        assert(is_digit(d[0]));
        assert(d.take(d.len() as int) =~= d);
    }
}

/// Appends the decimal form of `n` to `out`.
pub fn write_decimal(n: u64, out: &mut Vec<u8>)
    ensures
        final(out)@ == old(out)@ + decimal(n as nat),
    decreases n,
{
    if n >= 10 {
        write_decimal(n / 10, out);
    }
    let digit: u8 = (n % 10) as u8;
    out.push(48 + digit);
    proof {
        assert(out@ =~= old(out)@ + decimal(n as nat));
    }
}

/// Appends the decimal form of `n`, with a minus sign when negative.
pub fn write_signed_decimal(n: i64, out: &mut Vec<u8>)
    ensures
        final(out)@ == old(out)@ + signed_decimal(n as int),
{
    if n < 0 {
        out.push(45);
        let wide: i128 = n as i128;
        let magnitude: u64 = (0 - wide) as u64;
        write_decimal(magnitude, out);
        proof {
            assert(out@ =~= old(out)@ + signed_decimal(n as int));
        }
    } else {
        let magnitude: u64 = n as u64;
        write_decimal(magnitude, out);
    }
}

} // verus!
