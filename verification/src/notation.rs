//! Scaled values written as numerals, and the proof that what is written
//! reads back as the same value.
//!
//! A value is written with a minus sign where it is negative, its whole
//! part without leading zeros, the point, and as many digits after it as
//! the value has decimal places: `1234` at three places is `1.234`.

use vstd::prelude::*;
use crate::decimal::{
    all_digits, digits_value, exponent_digits, fraction_part, has_sign, integer_part, is_digit,
    is_negative, is_numeral, lemma_digits_value_concat, lemma_digits_value_push,
    lemma_kept_value, lemma_pow10_increasing, lemma_pow10_positive, lemma_scanned_numeral, pow10,
    scaled_digits, scaled_value, scanned, unsigned_part, DIGIT_ZERO, MINUS, POINT,
};

verus! {

/// The byte of the digit `d`.
pub open spec fn digit_byte(d: int) -> u8 {
    (DIGIT_ZERO + d) as u8
}

/// The digits of `n` without leading zeros; one zero for zero.
pub open spec fn digits_of(n: nat) -> Seq<u8>
    decreases n,
{
    if n < 10 {
        seq![digit_byte(n as int)]
    } else {
        digits_of(n / 10).push(digit_byte((n % 10) as int))
    }
}

/// The last `width` digits of `n`, with leading zeros.
pub open spec fn fixed_digits(n: nat, width: nat) -> Seq<u8>
    decreases width,
{
    if width == 0 {
        Seq::empty()
    } else {
        fixed_digits(n / 10, (width - 1) as nat).push(digit_byte((n % 10) as int))
    }
}

/// The magnitude of `v`.
pub open spec fn magnitude(v: int) -> nat {
    if v < 0 {
        (-v) as nat
    } else {
        v as nat
    }
}

/// The numeral that `v`, a value scaled by `10^places`, is written as: a
/// minus sign where `v` is negative, the whole part, the point, and `places`
/// digits after it.
pub open spec fn numeral_text(v: int, places: nat) -> Seq<u8> {
    let sign = if v < 0 { seq![MINUS] } else { Seq::<u8>::empty() };
    sign + digits_of(magnitude(v) / pow10(places)) + seq![POINT] + fixed_digits(
        magnitude(v) % pow10(places),
        places,
    )
}

proof fn lemma_digits_of(n: nat)
    ensures
        all_digits(digits_of(n)),
        digits_of(n).len() >= 1,
        digits_value(digits_of(n)) == n,
    decreases n,
{
    if n >= 10 {
        lemma_digits_of(n / 10);
        lemma_digits_value_push(digits_of(n / 10), digit_byte((n % 10) as int));
    } else {
        assert(digits_of(n).drop_last() =~= Seq::<u8>::empty());
        assert(digits_value(digits_of(n).drop_last()) == 0);
        assert(digits_of(n).last() == digit_byte(n as int));
    }
}

proof fn lemma_fixed_digits(n: nat, width: nat)
    ensures
        all_digits(fixed_digits(n, width)),
        fixed_digits(n, width).len() == width,
        n < pow10(width) ==> digits_value(fixed_digits(n, width)) == n,
    decreases width,
{
    if width > 0 {
        lemma_fixed_digits(n / 10, (width - 1) as nat);
        lemma_digits_value_push(
            fixed_digits(n / 10, (width - 1) as nat),
            digit_byte((n % 10) as int),
        );
    }
}

/// A written numeral is a numeral and reads as the value it was written from.
pub proof fn lemma_numeral_text_reads(v: int, places: nat)
    ensures
        is_numeral(numeral_text(v, places)),
        scaled_value(numeral_text(v, places), places) == v,
{
    let text = numeral_text(v, places);
    let whole = digits_of(magnitude(v) / pow10(places));
    let part = fixed_digits(magnitude(v) % pow10(places), places);
    lemma_pow10_positive(places);
    lemma_digits_of(magnitude(v) / pow10(places));
    lemma_fixed_digits(magnitude(v) % pow10(places), places);
    let body = whole + seq![POINT] + part;
    assert(has_sign(text) == (v < 0) && is_negative(text) == (v < 0)) by {
        if v >= 0 {
            assert(text[0] == whole[0]);
            assert(is_digit(whole[0]));
        }
    }
    assert(unsigned_part(text) =~= body);
    assert forall|k: int| 0 <= k < whole.len() implies #[trigger] is_digit(body[k]) by {
        assert(body[k] == whole[k]);
    }
    assert forall|k: int| whole.len() < k < body.len() implies #[trigger] is_digit(body[k]) by {
        assert(body[k] == part[k - whole.len() - 1]);
    }
    assert(scanned(body, whole.len() as int, true, body.len() as int)) by {
        reveal(scanned);
    }
    lemma_scanned_numeral(body, whole.len() as int, true, body.len() as int);
    assert(integer_part(text) =~= whole);
    assert(fraction_part(text) =~= part);
    assert(exponent_digits(text) =~= Seq::<u8>::empty());
    lemma_kept_value(whole + part, (whole.len() + places) as int);
    assert(scaled_digits(text, places) =~= whole + part);
    lemma_digits_value_concat(whole, part);
    assert(magnitude(v) == (magnitude(v) / pow10(places)) * pow10(places) + magnitude(v) % pow10(
        places,
    )) by (nonlinear_arith)
        requires
            pow10(places) > 0,
    ;
}

/// A written numeral holds nothing but a minus sign, digits and the point.
pub proof fn lemma_numeral_text_bytes(v: int, places: nat)
    ensures
        forall|i: int|
            0 <= i < numeral_text(v, places).len() ==> {
                let b = #[trigger] numeral_text(v, places)[i];
                is_digit(b) || b == MINUS || b == POINT
            },
{
    let text = numeral_text(v, places);
    let whole = digits_of(magnitude(v) / pow10(places));
    let part = fixed_digits(magnitude(v) % pow10(places), places);
    lemma_digits_of(magnitude(v) / pow10(places));
    lemma_fixed_digits(magnitude(v) % pow10(places), places);
    let body = whole + seq![POINT] + part;
    assert forall|i: int| 0 <= i < text.len() implies {
        let b = #[trigger] text[i];
        is_digit(b) || b == MINUS || b == POINT
    } by {
        let shift: int = if v < 0 { 1 } else { 0 };
        if i >= shift {
            assert(text[i] == body[i - shift]);
            if i - shift < whole.len() {
                assert(body[i - shift] == whole[i - shift]);
            } else if i - shift > whole.len() {
                assert(body[i - shift] == part[i - shift - whole.len() - 1]);
            }
        }
    }
}

/// Ten to the power `places`.
fn power_of_ten(places: u32) -> (p: u64)
    requires
        places <= 18,
    ensures
        p == pow10(places as nat),
        1 <= p <= 1_000_000_000_000_000_000,
{
    let mut p: u64 = 1;
    let mut i: u32 = 0;
    proof {
        reveal_with_fuel(pow10, 19);
        assert(pow10(18) == 1_000_000_000_000_000_000);
    }
    while i < places
        invariant
            i <= places <= 18,
            p == pow10(i as nat),
            pow10(18) == 1_000_000_000_000_000_000,
        decreases places - i,
    {
        proof {
            lemma_pow10_increasing((i + 1) as nat, 18);
        }
        p = p * 10;
        i = i + 1;
    }
    proof {
        lemma_pow10_increasing(places as nat, 18);
        lemma_pow10_positive(places as nat);
    }
    p
}

/// Appends the digits of `n` without leading zeros.
fn push_digits(out: &mut Vec<u8>, n: u64)
    ensures
        final(out)@ == old(out)@ + digits_of(n as nat),
    decreases n,
{
    if n >= 10 {
        push_digits(out, n / 10);
    }
    out.push(DIGIT_ZERO + (n % 10) as u8);
    assert(out@ =~= old(out)@ + digits_of(n as nat));
}

/// Appends the last `width` digits of `n`, with leading zeros.
fn push_fixed_digits(out: &mut Vec<u8>, n: u64, width: u32)
    ensures
        final(out)@ == old(out)@ + fixed_digits(n as nat, width as nat),
    decreases width,
{
    if width > 0 {
        push_fixed_digits(out, n / 10, width - 1);
        out.push(DIGIT_ZERO + (n % 10) as u8);
    }
    assert(out@ =~= old(out)@ + fixed_digits(n as nat, width as nat));
}

/// Appends to `out` the numeral of `value`, a value scaled by `10^places`.
pub fn write_scaled(out: &mut Vec<u8>, value: i64, places: u32)
    requires
        places <= 18,
    ensures
        final(out)@ == old(out)@ + numeral_text(value as int, places as nat),
{
    let unit: u64 = power_of_ten(places);
    let size: u64 = if value < 0 {
        (-(value as i128)) as u64
    } else {
        value as u64
    };
    if value < 0 {
        out.push(MINUS);
    }
    push_digits(out, size / unit);
    out.push(POINT);
    push_fixed_digits(out, size % unit, places);
    assert(out@ =~= old(out)@ + numeral_text(value as int, places as nat));
}

} // verus!
