//! Decimal numerals read as scaled integers.
//!
//! A numeral is an optional sign, then digits with an optional fractional
//! part, then an optional exponent of ten: `12`, `-0.5`, `+3.`, `.25`,
//! `1.5e3`, `2E-2`. Its value is taken at a fixed number of decimal places,
//! further places being cut off, so that `1.2345` at three places is `1234`.

use vstd::prelude::*;
use crate::text::{index_of, lemma_index_of, lemma_index_of_is};

verus! {

pub const DIGIT_ZERO: u8 = 48;

pub const DIGIT_NINE: u8 = 57;

pub const PLUS: u8 = 43;

pub const MINUS: u8 = 45;

pub const POINT: u8 = 46;

pub const LOWER_E: u8 = 101;

pub const UPPER_E: u8 = 69;

/// Largest magnitude a scaled value is reported with; larger ones saturate.
pub const SCALED_LIMIT: i64 = 9_223_372_036_854_775_807;

/// Largest magnitude an exponent is read with.
const EXPONENT_LIMIT: u128 = 1_000_000_000_000_000_000_000_000_000_000;

pub open spec fn is_digit(b: u8) -> bool {
    DIGIT_ZERO <= b <= DIGIT_NINE
}

pub open spec fn all_digits(s: Seq<u8>) -> bool {
    forall|i: int| 0 <= i < s.len() ==> #[trigger] is_digit(s[i])
}

/// The number that a string of digits denotes; the empty string denotes zero.
pub open spec fn digits_value(s: Seq<u8>) -> nat
    decreases s.len(),
{
    if s.len() == 0 {
        0
    } else {
        (digits_value(s.drop_last()) * 10 + (s.last() - DIGIT_ZERO)) as nat
    }
}

pub open spec fn has_sign(text: Seq<u8>) -> bool {
    text.len() > 0 && (text[0] == PLUS || text[0] == MINUS)
}

pub open spec fn is_negative(text: Seq<u8>) -> bool {
    text.len() > 0 && text[0] == MINUS
}

/// A text without its sign.
pub open spec fn unsigned_part(text: Seq<u8>) -> Seq<u8> {
    if has_sign(text) {
        text.skip(1)
    } else {
        text
    }
}

/// Whether `b` is the letter that opens an exponent.
pub open spec fn is_mark(b: u8) -> bool {
    b == LOWER_E || b == UPPER_E
}

/// Where the exponent of an unsigned numeral opens: the position of its
/// first exponent letter, or its length when it has none.
pub open spec fn mark_position(body: Seq<u8>) -> int {
    let lower = index_of(body, LOWER_E);
    let upper = index_of(body, UPPER_E);
    if lower <= upper {
        lower
    } else {
        upper
    }
}

/// The part of an unsigned numeral before its exponent.
pub open spec fn mantissa_of(body: Seq<u8>) -> Seq<u8> {
    body.take(mark_position(body))
}

/// The part of an unsigned numeral after its exponent letter; empty when
/// there is no exponent.
pub open spec fn exponent_of(body: Seq<u8>) -> Seq<u8> {
    if mark_position(body) < body.len() {
        body.skip(mark_position(body) + 1)
    } else {
        Seq::empty()
    }
}

/// The digits of a mantissa before its point.
pub open spec fn integer_of(mantissa: Seq<u8>) -> Seq<u8> {
    mantissa.take(index_of(mantissa, POINT))
}

/// The digits of a mantissa after its point; empty when there is no point.
pub open spec fn fraction_of(mantissa: Seq<u8>) -> Seq<u8> {
    let dot = index_of(mantissa, POINT);
    if dot < mantissa.len() {
        mantissa.skip(dot + 1)
    } else {
        Seq::empty()
    }
}

/// The digits before the decimal point.
pub open spec fn integer_part(text: Seq<u8>) -> Seq<u8> {
    integer_of(mantissa_of(unsigned_part(text)))
}

/// The digits after the decimal point.
pub open spec fn fraction_part(text: Seq<u8>) -> Seq<u8> {
    fraction_of(mantissa_of(unsigned_part(text)))
}

/// Whether the numeral has an exponent.
pub open spec fn has_exponent(text: Seq<u8>) -> bool {
    mark_position(unsigned_part(text)) < unsigned_part(text).len()
}

/// The digits of the exponent.
pub open spec fn exponent_digits(text: Seq<u8>) -> Seq<u8> {
    unsigned_part(exponent_of(unsigned_part(text)))
}

/// The exponent of ten; zero when there is none.
pub open spec fn exponent_value(text: Seq<u8>) -> int {
    if is_negative(exponent_of(unsigned_part(text))) {
        -(digits_value(exponent_digits(text)) as int)
    } else {
        digits_value(exponent_digits(text)) as int
    }
}

/// Whether `text` is a numeral: digits on both sides of at most one point,
/// at least one digit in all, and, where there is an exponent letter, an
/// optional sign and at least one digit after it.
pub open spec fn is_numeral(text: Seq<u8>) -> bool {
    &&& all_digits(integer_part(text))
    &&& all_digits(fraction_part(text))
    &&& integer_part(text).len() + fraction_part(text).len() > 0
    &&& has_exponent(text) ==> all_digits(exponent_digits(text)) && exponent_digits(text).len() > 0
}

/// The first `cut` of the digits `all`, with zeros where there are fewer.
pub open spec fn kept_digits(all: Seq<u8>, cut: int) -> Seq<u8> {
    if cut <= 0 {
        Seq::empty()
    } else {
        Seq::new(cut as nat, |i: int| if i < all.len() { all[i] } else { DIGIT_ZERO })
    }
}

/// The digits of the numeral that stand before the point once it has been
/// moved right by the exponent and by `places`.
pub open spec fn scaled_digits(text: Seq<u8>, places: nat) -> Seq<u8> {
    kept_digits(
        integer_part(text) + fraction_part(text),
        integer_part(text).len() + exponent_value(text) + places,
    )
}

/// The value of a numeral times `10^places`, cut off toward zero.
pub open spec fn scaled_value(text: Seq<u8>, places: nat) -> int {
    if is_negative(text) {
        -(digits_value(scaled_digits(text, places)) as int)
    } else {
        digits_value(scaled_digits(text, places)) as int
    }
}

/// `v` held to the range from `-SCALED_LIMIT` to `SCALED_LIMIT`.
pub open spec fn saturated(v: int) -> int {
    if v > SCALED_LIMIT {
        SCALED_LIMIT as int
    } else if v < -SCALED_LIMIT {
        -SCALED_LIMIT
    } else {
        v
    }
}

/// Ten to the power `k`.
pub open spec fn pow10(k: nat) -> nat
    decreases k,
{
    if k == 0 {
        1
    } else {
        10 * pow10((k - 1) as nat)
    }
}

/// A run of `count` zeros.
pub open spec fn zeros(count: nat) -> Seq<u8> {
    Seq::new(count, |i: int| DIGIT_ZERO)
}

/// Powers of ten are positive.
pub proof fn lemma_pow10_positive(k: nat)
    ensures
        pow10(k) > 0,
    decreases k,
{
    if k > 0 {
        lemma_pow10_positive((k - 1) as nat);
    }
}

/// Powers of ten grow with the exponent.
pub proof fn lemma_pow10_increasing(a: nat, b: nat)
    requires
        a <= b,
    ensures
        pow10(a) <= pow10(b),
    decreases b,
{
    if a < b {
        lemma_pow10_increasing(a, (b - 1) as nat);
        lemma_pow10_positive((b - 1) as nat);
    }
}

/// The value of digits with one more digit behind them.
pub(crate) proof fn lemma_digits_value_push(s: Seq<u8>, d: u8)
    requires
        is_digit(d),
    ensures
        digits_value(s.push(d)) == digits_value(s) * 10 + (d - DIGIT_ZERO),
{
    assert(s.push(d).drop_last() =~= s);
}

/// The value of two strings of digits, one behind the other.
pub(crate) proof fn lemma_digits_value_concat(s: Seq<u8>, t: Seq<u8>)
    requires
        all_digits(t),
    ensures
        digits_value(s + t) == digits_value(s) * pow10(t.len()) + digits_value(t),
    decreases t.len(),
{
    if t.len() == 0 {
        assert(s + t =~= s);
        assert(pow10(0) == 1);
        assert(digits_value(t) == 0);
    } else {
        let front = t.drop_last();
        let last = t.last();
        assert((s + t).drop_last() =~= s + front);
        assert((s + t).last() == last);
        assert(is_digit(last));
        lemma_digits_value_concat(s, front);
        let a = digits_value(s) as int;
        let b = digits_value(front) as int;
        let p = pow10(front.len()) as int;
        let d = last - DIGIT_ZERO;
        let q = pow10(t.len()) as int;
        assert(q == 10 * p);
        assert(a * p >= 0) by (nonlinear_arith)
            requires
                a >= 0,
                p >= 0,
        ;
        assert(digits_value(s + front) == a * p + b);
        assert(digits_value(s + t) == (a * p + b) * 10 + d);
        assert(digits_value(t) == b * 10 + d);
        assert((a * p + b) * 10 + d == a * q + (b * 10 + d)) by (nonlinear_arith)
            requires
                q == 10 * p,
        ;
        assert(digits_value(s) * pow10(t.len()) == a * q);
    }
}

proof fn lemma_zeros_value(count: nat)
    ensures
        digits_value(zeros(count)) == 0,
        all_digits(zeros(count)),
    decreases count,
{
    if count > 0 {
        lemma_zeros_value((count - 1) as nat);
        assert(zeros(count).drop_last() =~= zeros((count - 1) as nat));
    }
}

/// The value of kept digits: that of the digits taken, times ten for each
/// zero that fills up.
pub(crate) proof fn lemma_kept_value(all: Seq<u8>, cut: int)
    requires
        cut >= 0,
    ensures
        cut <= all.len() ==> kept_digits(all, cut) == all.take(cut),
        cut > all.len() ==> digits_value(kept_digits(all, cut)) == digits_value(all) * pow10(
            (cut - all.len()) as nat,
        ),
{
    if cut <= all.len() {
        assert(kept_digits(all, cut) =~= all.take(cut));
    } else {
        let fill = zeros((cut - all.len()) as nat);
        assert(kept_digits(all, cut) =~= all + fill);
        lemma_zeros_value((cut - all.len()) as nat);
        lemma_digits_value_concat(all, fill);
    }
}

/// Once the cut lies nineteen places or more past the digits, the value
/// saturates unless it is zero.
proof fn lemma_far_cut(all: Seq<u8>, cut: int)
    requires
        cut >= all.len() + 19,
    ensures
        saturated(digits_value(kept_digits(all, cut)) as int) == if digits_value(all) == 0 {
            0
        } else {
            SCALED_LIMIT as int
        },
{
    lemma_kept_value(all, cut);
    let shift = (cut - all.len()) as nat;
    lemma_pow10_increasing(19, shift);
    reveal_with_fuel(pow10, 20);
    assert(pow10(19) == 10_000_000_000_000_000_000);
    let value = digits_value(all) as int;
    let power = pow10(shift) as int;
    if value == 0 {
        assert(value * power == 0) by (nonlinear_arith)
            requires
                value == 0,
        ;
    } else {
        assert(value * power >= power) by (nonlinear_arith)
            requires
                value >= 1,
                power >= 0,
        ;
    }
}

/// What the exponent of a numeral adds to the cut, read from the text after
/// the exponent letter and held to `EXPONENT_LIMIT` on either side.
spec fn capped_exponent(tail: Seq<u8>) -> int {
    let size = digits_value(unsigned_part(tail)) as int;
    let capped = if size > EXPONENT_LIMIT { EXPONENT_LIMIT as int } else { size };
    if is_negative(tail) { -capped } else { capped }
}

/// Reading the exponent with a limit does not change the saturated value.
proof fn lemma_capped_cut(all: Seq<u8>, base: int, exponent: int, capped: int)
    requires
        0 <= base,
        all.len() + 19 <= EXPONENT_LIMIT,
        base < EXPONENT_LIMIT,
        capped == if exponent > EXPONENT_LIMIT {
            EXPONENT_LIMIT as int
        } else if exponent < -EXPONENT_LIMIT {
            -EXPONENT_LIMIT
        } else {
            exponent
        },
    ensures
        saturated(digits_value(kept_digits(all, base + capped)) as int) == saturated(
            digits_value(kept_digits(all, base + exponent)) as int,
        ),
{
    if exponent > EXPONENT_LIMIT {
        lemma_far_cut(all, base + capped);
        lemma_far_cut(all, base + exponent);
    }
}

/// What scanning finds at the head of an unsigned text: `int_len` digits,
/// then perhaps a point and more digits, up to `end`, where no digit stands.
#[verifier::opaque]
pub(crate) open spec fn scanned(body: Seq<u8>, int_len: int, has_point: bool, end: int) -> bool {
    &&& 0 <= int_len <= end <= body.len()
    &&& forall|k: int| 0 <= k < int_len ==> #[trigger] is_digit(body[k])
    &&& has_point ==> int_len < end && body[int_len] == POINT
    &&& !has_point ==> end == int_len && (end < body.len() ==> body[end] != POINT)
    &&& forall|k: int| int_len < k < end ==> #[trigger] is_digit(body[k])
    &&& end < body.len() ==> !is_digit(body[end])
}

proof fn lemma_mark_not_before(body: Seq<u8>, int_len: int, has_point: bool, end: int)
    requires
        scanned(body, int_len, has_point, end),
    ensures
        end <= mark_position(body) <= body.len(),
        end < body.len() && !is_mark(body[end]) ==> end < mark_position(body),
        end < body.len() && is_mark(body[end]) ==> end == mark_position(body),
{
    reveal(scanned);
    lemma_index_of(body, LOWER_E);
    lemma_index_of(body, UPPER_E);
    let lower = index_of(body, LOWER_E);
    let upper = index_of(body, UPPER_E);
    if lower < end {
        assert(is_digit(body[lower]) || body[lower] == POINT);
    }
    if upper < end {
        assert(is_digit(body[upper]) || body[upper] == POINT);
    }
}

pub(crate) proof fn lemma_scanned_numeral(body: Seq<u8>, int_len: int, has_point: bool, end: int)
    requires
        scanned(body, int_len, has_point, end),
        end == body.len() || is_mark(body[end]),
    ensures
        mark_position(body) == end,
        integer_of(mantissa_of(body)) == body.take(int_len),
        fraction_of(mantissa_of(body)) == if has_point {
            body.subrange(int_len + 1, end)
        } else {
            Seq::<u8>::empty()
        },
{
    reveal(scanned);
    lemma_mark_not_before(body, int_len, has_point, end);
    let mantissa = mantissa_of(body);
    assert(mantissa =~= body.take(end));
    assert forall|k: int| 0 <= k < int_len implies mantissa[k] != POINT by {
        assert(is_digit(body[k]));
    }
    if has_point {
        lemma_index_of_is(mantissa, POINT, int_len);
        assert(mantissa.take(int_len) =~= body.take(int_len));
        assert(mantissa.skip(int_len + 1) =~= body.subrange(int_len + 1, end));
    } else {
        lemma_index_of_is(mantissa, POINT, end);
        assert(mantissa.take(end) =~= body.take(int_len));
    }
}

proof fn lemma_scanned_not_numeral(body: Seq<u8>, int_len: int, has_point: bool, end: int)
    requires
        scanned(body, int_len, has_point, end),
        end < body.len(),
        !is_mark(body[end]),
    ensures
        !(all_digits(integer_of(mantissa_of(body))) && all_digits(fraction_of(mantissa_of(body)))),
{
    reveal(scanned);
    lemma_mark_not_before(body, int_len, has_point, end);
    let mantissa = mantissa_of(body);
    assert(mantissa[end] == body[end]);
    assert forall|k: int| 0 <= k < int_len implies mantissa[k] != POINT by {
        assert(is_digit(body[k]));
    }
    if has_point {
        lemma_index_of_is(mantissa, POINT, int_len);
        assert(fraction_of(mantissa)[end - int_len - 1] == mantissa[end]);
    } else {
        lemma_index_of(mantissa, POINT);
        let dot = index_of(mantissa, POINT);
        if dot < end {
            assert(is_digit(body[dot]));
        }
        assert(integer_of(mantissa)[end] == mantissa[end]);
    }
}

/// What the scan of a text found: after the sign, digits up to `int_end`,
/// perhaps a point and digits up to `frac_end`, where no digit stands.
#[verifier::opaque]
spec fn scan_found(text: Seq<u8>, start: int, int_end: int, has_point: bool, frac_end: int) -> bool {
    &&& start == if has_sign(text) { 1int } else { 0int }
    &&& scanned(text.skip(start), int_end - start, has_point, frac_end - start)
}

/// A text whose mantissa is followed by anything but an exponent letter is
/// no numeral.
proof fn lemma_scan_rejects(text: Seq<u8>, start: int, int_end: int, has_point: bool, frac_end: int)
    requires
        scan_found(text, start, int_end, has_point, frac_end),
        frac_end < text.len(),
        !is_mark(text[frac_end]),
    ensures
        !is_numeral(text),
{
    reveal(scan_found);
    reveal(scanned);
    let body = unsigned_part(text);
    assert(body =~= text.skip(start));
    lemma_scanned_not_numeral(body, int_end - start, has_point, frac_end - start);
}

/// The parts of a text whose mantissa ends the text or is followed by an
/// exponent letter.
proof fn lemma_scan_parts(text: Seq<u8>, start: int, int_end: int, has_point: bool, frac_end: int)
    requires
        scan_found(text, start, int_end, has_point, frac_end),
        frac_end == text.len() || is_mark(text[frac_end]),
    ensures
        integer_part(text) == text.subrange(start, int_end),
        fraction_part(text) == if has_point {
            text.subrange(int_end + 1, frac_end)
        } else {
            Seq::<u8>::empty()
        },
        all_digits(integer_part(text)),
        all_digits(fraction_part(text)),
        has_exponent(text) == (frac_end < text.len()),
        exponent_of(unsigned_part(text)) == if frac_end < text.len() {
            text.skip(frac_end + 1)
        } else {
            Seq::<u8>::empty()
        },
{
    reveal(scan_found);
    reveal(scanned);
    let body = unsigned_part(text);
    assert(body =~= text.skip(start));
    lemma_scanned_numeral(body, int_end - start, has_point, frac_end - start);
    assert(body.take(int_end - start) =~= text.subrange(start, int_end));
    if has_point {
        assert(body.subrange(int_end - start + 1, frac_end - start) =~= text.subrange(
            int_end + 1,
            frac_end,
        ));
    }
    if frac_end < text.len() {
        assert(body.skip(frac_end - start + 1) =~= text.skip(frac_end + 1));
    }
}

/// The value of a numeral from the magnitude read with a capped exponent.
proof fn lemma_scaled_outcome(text: Seq<u8>, places: nat, capped: int, read: int)
    requires
        is_numeral(text),
        capped == capped_exponent(exponent_of(unsigned_part(text))),
        integer_part(text).len() + fraction_part(text).len() + 19 <= EXPONENT_LIMIT,
        integer_part(text).len() + places < EXPONENT_LIMIT,
        read == saturated(
            digits_value(
                kept_digits(
                    integer_part(text) + fraction_part(text),
                    integer_part(text).len() + capped + places,
                ),
            ) as int,
        ),
    ensures
        saturated(scaled_value(text, places)) == if is_negative(text) {
            -read
        } else {
            read
        },
{
    let all = integer_part(text) + fraction_part(text);
    let base = (integer_part(text).len() + places) as int;
    lemma_capped_cut(all, base, exponent_value(text), capped);
    assert(integer_part(text).len() + exponent_value(text) + places == base + exponent_value(text));
    assert(integer_part(text).len() + capped + places == base + capped);
}

fn is_digit_byte(b: u8) -> (r: bool)
    ensures
        r == is_digit(b),
{
    DIGIT_ZERO <= b && b <= DIGIT_NINE
}

/// Appends one digit to a saturated magnitude.
fn push_digit(acc: u64, digit: u8, Ghost(exact): Ghost<nat>) -> (next: u64)
    requires
        digit <= 9,
        acc == saturated(exact as int),
    ensures
        next == saturated(exact * 10 + digit),
{
    let wide: u128 = acc as u128 * 10 + digit as u128;
    if wide > SCALED_LIMIT as u128 {
        SCALED_LIMIT as u64
    } else {
        wide as u64
    }
}

/// Runs over the digits that start at `from`.
fn scan_digits(text: &[u8], from: usize) -> (to: usize)
    requires
        from <= text.len(),
    ensures
        from <= to <= text.len(),
        forall|k: int| from <= k < to ==> #[trigger] is_digit(text[k]),
        to < text.len() ==> !is_digit(text[to as int]),
{
    let mut to: usize = from;
    while to < text.len() && is_digit_byte(text[to])
        invariant
            from <= to <= text.len(),
            forall|k: int| from <= k < to ==> #[trigger] is_digit(text[k]),
        decreases text.len() - to,
    {
        to = to + 1;
    }
    to
}

/// Appends `count` digits of `text`, from `from` on, to a saturated magnitude.
fn take_digits(text: &[u8], from: usize, count: usize, acc: u64, Ghost(before): Ghost<Seq<u8>>) -> (next: u64)
    requires
        from + count <= text.len(),
        forall|k: int| from <= k < from + count ==> #[trigger] is_digit(text[k]),
        acc == saturated(digits_value(before) as int),
    ensures
        next == saturated(
            digits_value(before + text@.subrange(from as int, from + count)) as int,
        ),
{
    let mut acc: u64 = acc;
    let mut i: usize = 0;
    assert(before + text@.subrange(from as int, from as int) =~= before);
    while i < count
        invariant
            i <= count,
            from + count <= text.len(),
            forall|k: int| from <= k < from + count ==> #[trigger] is_digit(text[k]),
            acc == saturated(digits_value(before + text@.subrange(from as int, from + i)) as int),
        decreases count - i,
    {
        let ghost seen = before + text@.subrange(from as int, from + i);
        proof {
            assert(is_digit(text[from + i]));
            lemma_digits_value_push(seen, text[from + i]);
            assert(seen.push(text[from + i]) =~= before + text@.subrange(
                from as int,
                from + i + 1,
            ));
        }
        acc = push_digit(acc, text[from + i] - DIGIT_ZERO, Ghost(digits_value(seen)));
        i = i + 1;
    }
    acc
}

/// Multiplies a saturated magnitude by ten, `count` times.
fn pad_zeros(acc: u64, count: u128, Ghost(exact): Ghost<nat>) -> (next: u64)
    requires
        acc == saturated(exact as int),
    ensures
        next == saturated((exact * pow10(count as nat)) as int),
{
    let rounds: u128 = if count > 19 { 19 } else { count };
    let mut acc: u64 = acc;
    let mut i: u128 = 0;
    assert(pow10(0) == 1);
    assert(exact * pow10(0) == exact) by (nonlinear_arith)
        requires
            pow10(0) == 1,
    ;
    while i < rounds
        invariant
            i <= rounds <= 19,
            acc == saturated((exact * pow10(i as nat)) as int),
        decreases rounds - i,
    {
        let ghost so_far = exact * pow10(i as nat);
        proof {
            assert(pow10((i + 1) as nat) == 10 * pow10(i as nat));
            assert(so_far * 10 + 0 == exact * pow10((i + 1) as nat)) by (nonlinear_arith)
                requires
                    so_far == exact * pow10(i as nat),
                    pow10((i + 1) as nat) == 10 * pow10(i as nat),
            ;
        }
        acc = push_digit(acc, 0, Ghost(so_far));
        i = i + 1;
    }
    proof {
        if count > 19 {
            reveal_with_fuel(pow10, 20);
            assert(pow10(19) == 10_000_000_000_000_000_000);
            lemma_pow10_increasing(19, count as nat);
            let low = pow10(19) as int;
            let high = pow10(count as nat) as int;
            let e = exact as int;
            if exact == 0 {
                assert(e * low == 0 && e * high == 0) by (nonlinear_arith)
                    requires
                        e == 0,
                ;
            } else {
                assert(e * low >= low && e * high >= high) by (nonlinear_arith)
                    requires
                        e >= 1,
                        low >= 0,
                        high >= 0,
                ;
            }
        }
    }
    acc
}

/// The number that the digits from `from` to `to` denote, held to `EXPONENT_LIMIT`.
fn read_exponent(text: &[u8], from: usize, to: usize) -> (size: u128)
    requires
        from <= to <= text.len(),
        forall|k: int| from <= k < to ==> #[trigger] is_digit(text[k]),
    ensures
        size <= EXPONENT_LIMIT,
        size == if digits_value(text@.subrange(from as int, to as int)) > EXPONENT_LIMIT {
            EXPONENT_LIMIT as int
        } else {
            digits_value(text@.subrange(from as int, to as int)) as int
        },
{
    let mut size: u128 = 0;
    let mut i: usize = from;
    assert(text@.subrange(from as int, from as int) =~= Seq::<u8>::empty());
    while i < to
        invariant
            from <= i <= to <= text.len(),
            forall|k: int| from <= k < to ==> #[trigger] is_digit(text[k]),
            size <= EXPONENT_LIMIT,
            size == if digits_value(text@.subrange(from as int, i as int)) > EXPONENT_LIMIT {
                EXPONENT_LIMIT as int
            } else {
                digits_value(text@.subrange(from as int, i as int)) as int
            },
        decreases to - i,
    {
        proof {
            let seen = text@.subrange(from as int, i as int);
            assert(is_digit(text[i as int]));
            lemma_digits_value_push(seen, text[i as int]);
            assert(seen.push(text[i as int]) =~= text@.subrange(from as int, i + 1));
        }
        let wide: u128 = size * 10 + (text[i] - DIGIT_ZERO) as u128;
        size = if wide > EXPONENT_LIMIT { EXPONENT_LIMIT } else { wide };
        i = i + 1;
    }
    size
}

/// Reads the text after an exponent letter: an optional sign and digits.
fn scan_exponent(text: &[u8], from: usize) -> (r: Option<i128>)
    requires
        from <= text.len(),
    ensures
        r.is_some() == (all_digits(unsigned_part(text@.skip(from as int))) && unsigned_part(
            text@.skip(from as int),
        ).len() > 0),
        r matches Some(exponent) ==> exponent == capped_exponent(text@.skip(from as int)),
{
    let n: usize = text.len();
    let ghost tail = text@.skip(from as int);
    let mut digits_from: usize = from;
    let mut down: bool = false;
    if digits_from < n && (text[digits_from] == PLUS || text[digits_from] == MINUS) {
        down = text[digits_from] == MINUS;
        digits_from = digits_from + 1;
    }
    let digits_to: usize = scan_digits(text, digits_from);
    proof {
        assert(unsigned_part(tail) =~= text@.subrange(digits_from as int, n as int));
        if digits_to < n {
            assert(unsigned_part(tail)[digits_to - digits_from] == text[digits_to as int]);
        }
    }
    if digits_to < n || digits_to == digits_from {
        return None;
    }
    let size: u128 = read_exponent(text, digits_from, n);
    if down {
        Some(-(size as i128))
    } else {
        Some(size as i128)
    }
}

/// The digits of both parts of a mantissa up to the cut, as a saturated magnitude.
fn shift_digits(
    text: &[u8],
    int_from: usize,
    int_len: usize,
    frac_from: usize,
    frac_len: usize,
    cut: i128,
) -> (acc: u64)
    requires
        int_from + int_len <= text.len(),
        frac_from + frac_len <= text.len(),
        forall|k: int| int_from <= k < int_from + int_len ==> #[trigger] is_digit(text[k]),
        forall|k: int| frac_from <= k < frac_from + frac_len ==> #[trigger] is_digit(text[k]),
        cut <= 2 * EXPONENT_LIMIT,
    ensures
        acc == saturated(
            digits_value(
                kept_digits(
                    text@.subrange(int_from as int, int_from + int_len) + text@.subrange(
                        frac_from as int,
                        frac_from + frac_len,
                    ),
                    cut as int,
                ),
            ) as int,
        ),
{
    if cut <= 0 {
        return 0;
    }
    let whole: usize = if cut >= int_len as i128 {
        int_len
    } else {
        cut as usize
    };
    let part: usize = if cut <= int_len as i128 {
        0
    } else if cut - int_len as i128 >= frac_len as i128 {
        frac_len
    } else {
        (cut - int_len as i128) as usize
    };
    let all_len: i128 = int_len as i128 + frac_len as i128;
    let fill: u128 = if cut > all_len {
        (cut - all_len) as u128
    } else {
        0
    };
    let ghost all = text@.subrange(int_from as int, int_from + int_len) + text@.subrange(
        frac_from as int,
        frac_from + frac_len,
    );
    let ghost first = text@.subrange(int_from as int, int_from + whole);
    let ghost taken = first + text@.subrange(frac_from as int, frac_from + part);
    let acc = take_digits(text, int_from, whole, 0, Ghost(Seq::empty()));
    assert(Seq::<u8>::empty() + first =~= first);
    let acc = take_digits(text, frac_from, part, acc, Ghost(first));
    proof {
        lemma_kept_value(all, cut as int);
        let value = digits_value(taken);
        if cut <= all_len {
            assert(taken =~= all.take(cut as int));
            assert(pow10(0) == 1);
            assert(value * pow10(0) == value) by (nonlinear_arith)
                requires
                    pow10(0) == 1,
            ;
        } else {
            assert(taken =~= all);
        }
    }
    pad_zeros(acc, fill, Ghost(digits_value(taken)))
}

/// Where the parts of a numeral stand in its text.
struct Layout {
    negative: bool,
    int_from: usize,
    int_len: usize,
    frac_from: usize,
    frac_len: usize,
    exponent: i128,
}

/// Whether `layout` describes the numeral `text`.
spec fn lays_out(layout: Layout, text: Seq<u8>) -> bool {
    &&& layout.negative == is_negative(text)
    &&& layout.int_from + layout.int_len <= text.len()
    &&& layout.frac_from + layout.frac_len <= text.len()
    &&& integer_part(text) == text.subrange(
        layout.int_from as int,
        layout.int_from + layout.int_len,
    )
    &&& fraction_part(text) == text.subrange(
        layout.frac_from as int,
        layout.frac_from + layout.frac_len,
    )
    &&& layout.exponent == capped_exponent(exponent_of(unsigned_part(text)))
}

/// Finds the parts of a numeral; `None` when `text` is not a numeral.
fn lay_out(text: &[u8]) -> (r: Option<Layout>)
    ensures
        r.is_some() == is_numeral(text@),
        r matches Some(layout) ==> lays_out(layout, text@),
{
    let n: usize = text.len();
    let mut start: usize = 0;
    let mut negative: bool = false;
    if n > 0 && (text[0] == PLUS || text[0] == MINUS) {
        negative = text[0] == MINUS;
        start = 1;
    }
    let int_end: usize = scan_digits(text, start);
    let has_point: bool = int_end < n && text[int_end] == POINT;
    let frac_start: usize = if has_point {
        int_end + 1
    } else {
        int_end
    };
    let frac_end: usize = scan_digits(text, frac_start);
    let int_len: usize = int_end - start;
    let frac_len: usize = frac_end - frac_start;
    assert(scan_found(text@, start as int, int_end as int, has_point, frac_end as int)) by {
        reveal(scan_found);
        reveal(scanned);
        let body = text@.skip(start as int);
        assert forall|k: int| 0 <= k < int_end - start implies #[trigger] is_digit(body[k]) by {
            assert(is_digit(text[start + k]));
        }
        assert forall|k: int| int_end - start < k < frac_end - start implies #[trigger] is_digit(
            body[k],
        ) by {
            assert(is_digit(text[start + k]));
        }
    }
    if frac_end < n && text[frac_end] != LOWER_E && text[frac_end] != UPPER_E {
        proof {
            lemma_scan_rejects(text@, start as int, int_end as int, has_point, frac_end as int);
        }
        return None;
    }
    proof {
        lemma_scan_parts(text@, start as int, int_end as int, has_point, frac_end as int);
        assert(integer_part(text@).len() == int_len);
        assert(fraction_part(text@).len() == frac_len);
        assert(text@.subrange(frac_start as int, frac_start + frac_len) =~= fraction_part(text@));
    }
    if int_len == 0 && frac_len == 0 {
        return None;
    }
    let mut exponent: i128 = 0;
    if frac_end < n {
        match scan_exponent(text, frac_end + 1) {
            Some(read) => {
                exponent = read;
            },
            None => {
                return None;
            },
        }
    } else {
        assert(unsigned_part(Seq::<u8>::empty()) =~= Seq::<u8>::empty());
    }
    Some(Layout { negative, int_from: start, int_len, frac_from: frac_start, frac_len, exponent })
}

/// Reads a numeral at `places` decimal places.
///
/// Returns `None` when `text` is not a numeral. A value beyond
/// `SCALED_LIMIT` in magnitude is reported as the limit with the numeral's sign.
pub fn parse_scaled(text: &[u8], places: u32) -> (r: Option<i64>)
    ensures
        is_numeral(text@) ==> r == Some(saturated(scaled_value(text@, places as nat)) as i64),
        !is_numeral(text@) ==> r.is_none(),
{
    match lay_out(text) {
        None => None,
        Some(layout) => {
            proof {
                assert forall|k: int|
                    layout.int_from <= k < layout.int_from + layout.int_len implies #[trigger] is_digit(
                    text[k],
                ) by {
                    assert(is_digit(integer_part(text@)[k - layout.int_from]));
                }
                assert forall|k: int|
                    layout.frac_from <= k < layout.frac_from + layout.frac_len implies #[trigger] is_digit(
                    text[k],
                ) by {
                    assert(is_digit(fraction_part(text@)[k - layout.frac_from]));
                }
            }
            let cut: i128 = layout.int_len as i128 + layout.exponent + places as i128;
            let acc: u64 = shift_digits(
                text,
                layout.int_from,
                layout.int_len,
                layout.frac_from,
                layout.frac_len,
                cut,
            );
            proof {
                lemma_scaled_outcome(text@, places as nat, layout.exponent as int, acc as int);
            }
            if layout.negative {
                Some(-(acc as i64))
            } else {
                Some(acc as i64)
            }
        },
    }
}

} // verus!
