//! Arbitrary-precision decimals, the form in which amounts are kept at rest,
//! and the lossless conversion between them and 256-bit unsigned integers.

use crate::error::Error;
use crate::primitives::{lemma_value_bounded, pow2_256, U256};
use vstd::prelude::*;

verus! {

/// Ten to the power `e`.
pub open spec fn pow10(e: nat) -> nat
    decreases e,
{
    if e == 0 {
        1
    } else {
        10 * pow10((e - 1) as nat)
    }
}

/// The natural number that a sequence of decimal digits stands for, most
/// significant digit first. The empty sequence stands for zero.
pub open spec fn digits_value(digits: Seq<u8>) -> nat
    decreases digits.len(),
{
    if digits.len() == 0 {
        0
    } else {
        digits_value(digits.drop_last()) * 10 + digits.last() as nat
    }
}

/// Whether every element is a decimal digit.
pub open spec fn is_numeral(digits: Seq<u8>) -> bool {
    forall|i: int| 0 <= i < digits.len() ==> #[trigger] digits[i] < 10
}

/// The decimal digits of `n`, most significant first, without leading zeros;
/// zero is the single digit 0.
pub open spec fn decimal_digits(n: nat) -> Seq<u8>
    decreases n,
{
    if n < 10 {
        seq![n as u8]
    } else {
        decimal_digits(n / 10).push((n % 10) as u8)
    }
}

/// A decimal as a mathematical value: the number
/// `(-1)^negative * digits * 10^(-scale)`.
pub struct DecimalView {
    /// Whether the sign is minus.
    pub negative: bool,
    /// The digits of the unscaled magnitude, most significant first.
    pub digits: Seq<u8>,
    /// How many of the digits stand behind the decimal point; where negative,
    /// how many zeros follow the digits.
    pub scale: int,
}

impl DecimalView {
    /// The unscaled magnitude.
    pub open spec fn magnitude(self) -> nat {
        digits_value(self.digits)
    }

    /// Whether the decimal is less than zero.
    pub open spec fn is_negative(self) -> bool {
        self.negative && self.magnitude() > 0
    }

    /// Whether the decimal is an integer.
    pub open spec fn is_integral(self) -> bool {
        self.scale <= 0 || self.magnitude() % pow10(self.scale as nat) == 0
    }

    /// The magnitude of the decimal, rounded towards zero.
    pub open spec fn integral_magnitude(self) -> nat {
        if self.scale <= 0 {
            self.magnitude() * pow10((-self.scale) as nat)
        } else {
            self.magnitude() / pow10(self.scale as nat)
        }
    }
}

/// The decimal that stands for the natural number `n`: its digits without
/// leading zeros, scale zero, sign plus.
pub open spec fn encoded(n: nat) -> DecimalView {
    DecimalView { negative: false, digits: decimal_digits(n), scale: 0 }
}

/// The 256-bit unsigned integer that a decimal stands for: `None` where the
/// digits are malformed, and where the decimal is negative, not an integer,
/// or two to the power 256 or more.
pub open spec fn decoded(d: DecimalView) -> Option<nat> {
    if is_numeral(d.digits) && !d.is_negative() && d.is_integral() && d.integral_magnitude()
        < pow2_256() {
        Some(d.integral_magnitude())
    } else {
        None
    }
}

/// An arbitrary-precision decimal: sign, decimal digits and scale.
#[derive(Debug, PartialEq, Eq)]
pub struct Decimal {
    /// Whether the sign is minus.
    pub negative: bool,
    /// The digits of the unscaled magnitude, most significant first, each
    /// from 0 to 9.
    pub digits: Vec<u8>,
    /// How many of the digits stand behind the decimal point; where negative,
    /// how many zeros follow the digits.
    pub scale: i64,
}

impl View for Decimal {
    type V = DecimalView;

    open spec fn view(&self) -> DecimalView {
        DecimalView { negative: self.negative, digits: self.digits@, scale: self.scale as int }
    }
}

/// Powers of ten are positive.
pub proof fn lemma_pow10_positive(e: nat)
    ensures
        pow10(e) >= 1,
    decreases e,
{
    if e > 0 {
        lemma_pow10_positive((e - 1) as nat);
    }
}

/// A greater exponent gives no lesser power of ten.
pub proof fn lemma_pow10_monotone(a: nat, b: nat)
    requires
        a <= b,
    ensures
        pow10(a) <= pow10(b),
    decreases b,
{
    if a < b {
        lemma_pow10_monotone(a, (b - 1) as nat);
    }
}

/// A numeral of `len` digits stands for a number below ten to the `len`.
pub proof fn lemma_digits_value_bound(digits: Seq<u8>)
    requires
        is_numeral(digits),
    ensures
        digits_value(digits) < pow10(digits.len()),
    decreases digits.len(),
{
    if digits.len() > 0 {
        assert(is_numeral(digits.drop_last())) by {
            assert forall|i: int| 0 <= i < digits.drop_last().len() implies #[trigger] digits.drop_last()[i]
                < 10 by {
                assert(digits[i] < 10);
            }
        }
        lemma_digits_value_bound(digits.drop_last());
        assert(digits.last() < 10);
    }
}

/// A digit sequence stands for zero exactly where all its digits are zero.
pub proof fn lemma_digits_value_zero(digits: Seq<u8>)
    ensures
        digits_value(digits) == 0 <==> forall|i: int| 0 <= i < digits.len() ==> #[trigger] digits[i] == 0,
    decreases digits.len(),
{
    if digits.len() > 0 {
        let front = digits.drop_last();
        lemma_digits_value_zero(front);
        if digits_value(digits) == 0 {
            assert(digits_value(front) == 0 && digits.last() == 0);
            assert forall|i: int| 0 <= i < digits.len() implies #[trigger] digits[i] == 0 by {
                if i < front.len() {
                    assert(front[i] == 0);
                }
            }
        }
        if forall|i: int| 0 <= i < digits.len() ==> #[trigger] digits[i] == 0 {
            assert forall|i: int| 0 <= i < front.len() implies #[trigger] front[i] == 0 by {
                assert(digits[i] == 0);
            }
            assert(digits[digits.len() - 1] == 0);
        }
    }
}

/// Splitting a digit sequence `k` digits before its end splits its value at
/// ten to the `k`.
pub proof fn lemma_digits_value_split(digits: Seq<u8>, k: nat)
    requires
        k <= digits.len(),
    ensures
        digits_value(digits) == digits_value(digits.take(digits.len() - k)) * pow10(k)
            + digits_value(digits.skip(digits.len() - k)),
    decreases k,
{
    let cut = digits.len() - k;
    if k == 0 {
        assert(digits.take(cut) =~= digits);
        assert(digits.skip(cut) =~= Seq::<u8>::empty());
        assert(pow10(0) == 1);
        assert(digits_value(digits) * 1 == digits_value(digits));
    } else {
        let front = digits.drop_last();
        lemma_digits_value_split(front, (k - 1) as nat);
        assert(front.take(cut) =~= digits.take(cut));
        assert(front.skip(cut) =~= digits.skip(cut).drop_last());
        assert(digits.skip(cut).last() == digits.last());
        let a = digits_value(digits.take(cut));
        let b = digits_value(front.skip(cut));
        let p = pow10((k - 1) as nat);
        assert(digits_value(front) == a * p + b);
        assert(digits_value(digits) == digits_value(front) * 10 + digits.last());
        assert(digits_value(digits.skip(cut)) == b * 10 + digits.last());
        assert(pow10(k) == 10 * p);
        let q = pow10(k);
        assert((a * p + b) * 10 == a * q + b * 10) by (nonlinear_arith)
            requires
                q == 10 * p,
        ;
    }
}

/// Dropping digits from the end does not raise the value.
pub proof fn lemma_digits_value_prefix(digits: Seq<u8>, len: nat)
    requires
        len <= digits.len(),
    ensures
        digits_value(digits.take(len as int)) <= digits_value(digits),
{
    let k = (digits.len() - len) as nat;
    lemma_digits_value_split(digits, k);
    lemma_pow10_positive(k);
    let a = digits_value(digits.take(len as int));
    let p = pow10(k);
    assert(a <= a * p) by (nonlinear_arith)
        requires
            p >= 1,
            a >= 0,
    ;
}

/// Whether a numeral with `scale` digits behind the point is an integer is
/// decided by those digits, as far as they exist: it is one exactly where
/// they stand for zero, and the digits before them are then its magnitude.
pub proof fn lemma_integral_by_digits(digits: Seq<u8>, scale: nat)
    requires
        is_numeral(digits),
        scale > 0,
    ensures
        ({
            let k = if scale <= digits.len() {
                scale
            } else {
                digits.len()
            };
            let cut = digits.len() - k;
            &&& digits_value(digits.skip(cut)) == 0 <==> digits_value(digits) % pow10(scale) == 0
            &&& digits_value(digits.skip(cut)) == 0 ==> digits_value(digits) / pow10(scale)
                == digits_value(digits.take(cut))
            &&& digits_value(digits.skip(cut)) == 0 ==> (digits_value(digits) == 0 <==> digits_value(
                digits.take(cut),
            ) == 0)
        }),
{
    let k: nat = if scale <= digits.len() {
        scale
    } else {
        digits.len()
    };
    let cut = digits.len() - k;
    let whole = digits_value(digits);
    let high = digits_value(digits.take(cut));
    let low = digits_value(digits.skip(cut));
    let p = pow10(scale);
    lemma_digits_value_split(digits, k);
    lemma_pow10_positive(scale);
    lemma_pow10_positive(k);
    assert(is_numeral(digits.skip(cut))) by {
        assert forall|i: int| 0 <= i < digits.skip(cut).len() implies #[trigger] digits.skip(cut)[i]
            < 10 by {
            assert(digits[cut + i] < 10);
        }
    }
    lemma_digits_value_bound(digits.skip(cut));
    lemma_pow10_monotone(k, scale);
    if scale <= digits.len() {
        assert(whole == high * p + low);
        assert(whole % p == low && whole / p == high) by (nonlinear_arith)
            requires
                whole == high * p + low,
                0 <= low < p,
                high >= 0,
        ;
        assert(high * p == 0 <==> high == 0) by (nonlinear_arith)
            requires
                p >= 1,
                high >= 0,
        ;
    } else {
        assert(digits.take(cut) =~= Seq::<u8>::empty());
        assert(high == 0);
        assert(high * pow10(k) == 0) by (nonlinear_arith)
            requires
                high == 0,
        ;
        assert(whole == low);
        assert(whole % p == whole && whole / p == 0) by (nonlinear_arith)
            requires
                0 <= whole < p,
        ;
    }
}

/// The decimal digits of a number are a numeral without leading zeros that
/// stands for the number.
pub proof fn lemma_decimal_digits(n: nat)
    ensures
        is_numeral(decimal_digits(n)),
        digits_value(decimal_digits(n)) == n,
        decimal_digits(n).len() >= 1,
        n > 0 ==> decimal_digits(n)[0] != 0,
    decreases n,
{
    if n < 10 {
        assert(seq![n as u8].drop_last() =~= Seq::<u8>::empty());
        assert(digits_value(seq![n as u8]) == digits_value(seq![n as u8].drop_last()) * 10 + n);
    } else {
        lemma_decimal_digits(n / 10);
        let front = decimal_digits(n / 10);
        let all = front.push((n % 10) as u8);
        assert(all.drop_last() =~= front);
        assert(all[0] == front[0]);
    }
}

/// Round trip: the decimal that stands for a 256-bit unsigned integer is
/// read back as that integer.
pub proof fn lemma_decode_encode(n: nat)
    requires
        n < pow2_256(),
    ensures
        decoded(encoded(n)) == Some(n),
{
    lemma_decimal_digits(n);
    assert(pow10(0) == 1);
    assert(n * 1 == n);
}

/// The decimal that stands for `value`, without loss.
pub fn encode(value: U256) -> (d: Decimal)
    ensures
        d@ == encoded(value@),
{
    let mut digits: Vec<u8> = Vec::new();
    let first = value.div_rem_10();
    let mut rest: U256 = first.0;
    digits.push(first.1);
    assert(digits@ =~= seq![first.1]);
    while !rest.is_zero()
        invariant
            decimal_digits(value@) == if rest@ > 0 {
                decimal_digits(rest@) + digits@
            } else {
                digits@
            },
        decreases rest@,
    {
        let next = rest.div_rem_10();
        let ghost shorter = digits@;
        digits.insert(0, next.1);
        assert(digits@ =~= seq![next.1] + shorter);
        assert(decimal_digits(rest@) + shorter =~= if next.0@ > 0 {
            decimal_digits(next.0@) + digits@
        } else {
            digits@
        });
        rest = next.0;
    }
    Decimal { negative: false, digits, scale: 0 }
}

/// Whether every element of `digits` is a decimal digit.
fn holds_digits_only(digits: &Vec<u8>) -> (r: bool)
    ensures
        r == is_numeral(digits@),
{
    let mut i: usize = 0;
    while i < digits.len()
        invariant
            i <= digits@.len(),
            forall|j: int| 0 <= j < i ==> #[trigger] digits@[j] < 10,
        decreases digits@.len() - i,
    {
        if digits[i] >= 10 {
            return false;
        }
        i += 1;
    }
    true
}

/// Whether the digits from position `from` on stand for zero.
fn stands_for_zero_from(digits: &Vec<u8>, from: usize) -> (r: bool)
    requires
        from <= digits@.len(),
    ensures
        r == (digits_value(digits@.skip(from as int)) == 0),
{
    let ghost tail = digits@.skip(from as int);
    let mut i: usize = from;
    while i < digits.len()
        invariant
            from <= i <= digits@.len(),
            tail == digits@.skip(from as int),
            forall|j: int| 0 <= j < i - from ==> #[trigger] tail[j] == 0,
        decreases digits@.len() - i,
    {
        if digits[i] != 0 {
            proof {
                lemma_digits_value_zero(tail);
                assert(tail[i - from] != 0);
            }
            return false;
        }
        i += 1;
    }
    proof {
        lemma_digits_value_zero(tail);
    }
    true
}

/// The number that the first `len` digits stand for, or `None` where it
/// does not fit in 256 bits.
fn leading_value(digits: &Vec<u8>, len: usize) -> (r: Option<U256>)
    requires
        len <= digits@.len(),
    ensures
        match r {
            Some(v) => v@ == digits_value(digits@.take(len as int)),
            None => digits_value(digits@.take(len as int)) >= pow2_256(),
        },
{
    let ghost head = digits@.take(len as int);
    let mut acc: U256 = U256::zero();
    let mut k: usize = 0;
    assert(head.take(0) =~= Seq::<u8>::empty());
    while k < len
        invariant
            k <= len <= digits@.len(),
            head == digits@.take(len as int),
            acc@ == digits_value(head.take(k as int)),
        decreases len - k,
    {
        proof {
            assert(head.take(k + 1).drop_last() =~= head.take(k as int));
            lemma_digits_value_prefix(head, (k + 1) as nat);
        }
        match acc.mul_10_add(digits[k]) {
            Some(next) => {
                acc = next;
            },
            None => {
                return None;
            },
        }
        k += 1;
    }
    assert(head.take(len as int) =~= head);
    Some(acc)
}

/// `value` followed by `zeros` decimal zeros, or `None` where that does not
/// fit in 256 bits.
fn with_zeros(value: U256, zeros: u64) -> (r: Option<U256>)
    ensures
        match r {
            Some(v) => v@ == value@ * pow10(zeros as nat),
            None => value@ * pow10(zeros as nat) >= pow2_256(),
        },
{
    if value.is_zero() {
        assert(value@ * pow10(zeros as nat) == 0) by (nonlinear_arith)
            requires
                value@ == 0,
        ;
        return Some(value);
    }
    let mut acc: U256 = value;
    let mut z: u64 = 0;
    assert(value@ * pow10(0) == value@) by (nonlinear_arith)
        requires
            pow10(0) == 1,
    ;
    while z < zeros
        invariant
            z <= zeros,
            acc@ == value@ * pow10(z as nat),
        decreases zeros - z,
    {
        proof {
            let reached = pow10((z + 1) as nat);
            let wanted = pow10(zeros as nat);
            lemma_pow10_monotone((z + 1) as nat, zeros as nat);
            assert(value@ * reached <= value@ * wanted) by (nonlinear_arith)
                requires
                    reached <= wanted,
            ;
            assert(value@ * pow10(z as nat) * 10 == value@ * reached) by (nonlinear_arith)
                requires
                    reached == 10 * pow10(z as nat),
            ;
        }
        match acc.mul_10_add(0) {
            Some(next) => {
                acc = next;
            },
            None => {
                return None;
            },
        }
        z += 1;
    }
    Some(acc)
}

/// The 256-bit unsigned integer that `value` stands for. Fails with
/// [`Error::ConversionError`] where a digit is not from 0 to 9, and where the
/// decimal is negative, not an integer, or too great for 256 bits.
pub fn decode(value: &Decimal) -> (r: Result<U256, Error>)
    ensures
        match r {
            Ok(v) => decoded(value@) == Some(v@),
            Err(e) => e == Error::ConversionError && decoded(value@) is None,
        },
{
    if !holds_digits_only(&value.digits) {
        return Err(Error::ConversionError);
    }
    let len: usize = value.digits.len();
    // Digits behind the decimal point, as far as there are any, must be zero.
    let whole: usize = if value.scale <= 0 {
        len
    } else if (value.scale as u64) < (len as u64) {
        len - (value.scale as usize)
    } else {
        0
    };
    if value.scale > 0 {
        proof {
            lemma_integral_by_digits(value.digits@, value.scale as nat);
        }
        if !stands_for_zero_from(&value.digits, whole) {
            return Err(Error::ConversionError);
        }
    } else {
        assert(value.digits@.take(whole as int) =~= value.digits@);
    }
    let ghost head = digits_value(value.digits@.take(whole as int));
    proof {
        let factor = pow10((-value.scale) as nat);
        lemma_pow10_positive((-value.scale) as nat);
        assert(head <= head * factor) by (nonlinear_arith)
            requires
                factor >= 1,
                head >= 0,
        ;
    }
    assert(head <= value@.integral_magnitude());
    assert(head == 0 <==> value@.magnitude() == 0);
    let unit = match leading_value(&value.digits, whole) {
        Some(unit) => unit,
        None => {
            return Err(Error::ConversionError);
        },
    };
    if value.negative && !unit.is_zero() {
        return Err(Error::ConversionError);
    }
    let result = if value.scale < 0 {
        let zeros: u64 = ((-(value.scale + 1)) as u64) + 1;
        match with_zeros(unit, zeros) {
            Some(result) => result,
            None => {
                return Err(Error::ConversionError);
            },
        }
    } else {
        unit
    };
    proof {
        lemma_value_bounded(result);
        if value.scale == 0 {
            assert(pow10(0) == 1);
            assert(head * 1 == head);
        }
    }
    Ok(result)
}

} // verus!
