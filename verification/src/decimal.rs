//! Fixed-point decimal numbers as the engine sees them: a 96-bit signed
//! mantissa and a power-of-ten scale between 0 and 28.  Arithmetic is done
//! by `rust_decimal`; the functions below state what each call returns.
use rust_decimal::prelude::ToPrimitive;
use rust_decimal::Decimal;
use crate::text::decimal_digits;
use vstd::prelude::*;

verus! {

/// Largest magnitude of a mantissa: 2^96 - 1.
pub const MAX_MANTISSA: i128 = 79228162514264337593543950335;

/// Largest scale (number of decimal places).
pub const MAX_SCALE: u32 = 28;

/// 10 to the power `n`.
pub open spec fn pow10(n: nat) -> int
    decreases n,
{
    if n == 0 {
        1
    } else {
        10 * pow10((n - 1) as nat)
    }
}

/// Largest magnitude of a value, counted in units of 10^-28.
pub open spec fn max_units() -> int {
    MAX_MANTISSA * pow10(28)
}

/// A decimal number `mantissa * 10^-scale`.
#[derive(Clone, Copy, Debug)]
pub struct Dec {
    pub mantissa: i128,
    pub scale: u32,
}

impl Dec {
    /// The mantissa fits in 96 bits and the scale is at most 28.
    pub open spec fn wf(self) -> bool {
        &&& -MAX_MANTISSA <= self.mantissa <= MAX_MANTISSA
        &&& self.scale <= MAX_SCALE
    }

    /// The value of the number, counted in units of 10^-28.
    pub open spec fn units(self) -> int {
        self.mantissa * pow10((28 - self.scale) as nat)
    }

    /// The value has no fractional part.
    pub open spec fn is_integral(self) -> bool {
        self.units() % pow10(28) == 0
    }

    /// The integer part of a nonnegative value.
    pub open spec fn trunc_nonneg(self) -> int {
        self.units() / pow10(28)
    }

    /// What `to_u64` gives: nothing for a negative value, else the integer
    /// part when it fits in 64 bits.
    pub open spec fn to_u64_spec(self) -> Option<u64> {
        if self.units() < 0 {
            None
        } else if self.trunc_nonneg() <= u64::MAX {
            Some(self.trunc_nonneg() as u64)
        } else {
            None
        }
    }

    /// `num * 10^-scale`, as `Decimal::new` builds it.
    pub fn new(num: i64, scale: u32) -> (r: Dec)
        requires
            scale <= MAX_SCALE,
        ensures
            r.mantissa == num,
            r.scale == scale,
            r.wf(),
    {
        Dec { mantissa: num as i128, scale }
    }

    /// The number zero with scale zero.
    pub open spec fn zero_value() -> Dec {
        Dec { mantissa: 0, scale: 0 }
    }

    /// The number zero.
    pub fn zero() -> (r: Dec)
        ensures
            r == Dec::zero_value(),
            r.wf(),
            r.units() == 0,
    {
        Dec { mantissa: 0, scale: 0 }
    }

    /// The value is zero.
    pub fn is_zero(&self) -> (b: bool)
        ensures
            b == (self.units() == 0),
    {
        proof {
            lemma_units_sign(*self);
        }
        self.mantissa == 0
    }

    /// The value is strictly positive.
    pub fn is_positive(&self) -> (b: bool)
        ensures
            b == (self.units() > 0),
    {
        proof {
            lemma_units_sign(*self);
        }
        self.mantissa > 0
    }

    /// The value is strictly negative.
    pub fn is_negative(&self) -> (b: bool)
        ensures
            b == (self.units() < 0),
    {
        proof {
            lemma_units_sign(*self);
        }
        self.mantissa < 0
    }
}

/// Powers of ten are positive.
pub proof fn lemma_pow10_pos(n: nat)
    ensures
        pow10(n) > 0,
    decreases n,
{
    if n > 0 {
        lemma_pow10_pos((n - 1) as nat);
    }
}

/// The sign of a value is the sign of its mantissa.
pub proof fn lemma_units_sign(d: Dec)
    ensures
        (d.units() == 0) == (d.mantissa == 0),
        (d.units() > 0) == (d.mantissa > 0),
        (d.units() < 0) == (d.mantissa < 0),
{
    let p = pow10((28 - d.scale) as nat);
    lemma_pow10_pos((28 - d.scale) as nat);
    assert((d.mantissa * p == 0) == (d.mantissa == 0)) by (nonlinear_arith)
        requires
            p > 0,
    ;
    assert((d.mantissa * p > 0) == (d.mantissa > 0)) by (nonlinear_arith)
        requires
            p > 0,
    ;
    assert((d.mantissa * p < 0) == (d.mantissa < 0)) by (nonlinear_arith)
        requires
            p > 0,
    ;
}

/// Powers of ten grow with the exponent.
pub proof fn lemma_pow10_mono(a: nat, b: nat)
    requires
        a <= b,
    ensures
        pow10(a) <= pow10(b),
    decreases b,
{
    lemma_pow10_pos(a);
    if a < b {
        lemma_pow10_mono(a, (b - 1) as nat);
    }
}

/// Powers of ten multiply by adding exponents.
pub proof fn lemma_pow10_add(a: nat, b: nat)
    ensures
        pow10(a + b) == pow10(a) * pow10(b),
    decreases b,
{
    if b > 0 {
        lemma_pow10_add(a, (b - 1) as nat);
        assert(pow10(a + b) == 10 * pow10((a + b - 1) as nat));
        assert(pow10(b) == 10 * pow10((b - 1) as nat));
        assert(10 * (pow10(a) * pow10((b - 1) as nat)) == pow10(a) * (10 * pow10((b - 1) as nat)))
            by (nonlinear_arith);
    }
}

/// A well-formed number is within range.
pub proof fn lemma_wf_in_range(d: Dec)
    requires
        d.wf(),
    ensures
        in_range(d.units()),
{
    let p = pow10((28 - d.scale) as nat);
    let q = pow10(28);
    lemma_pow10_mono((28 - d.scale) as nat, 28);
    lemma_pow10_pos((28 - d.scale) as nat);
    let m = d.mantissa as int;
    let mm = MAX_MANTISSA as int;
    assert(-mm * q <= m * p <= mm * q) by (nonlinear_arith)
        requires
            -mm <= m <= mm,
            0 < p <= q,
            mm >= 0,
    ;
}

/// The exact value `u` (in units of 10^-28) can be written with scale `s`
/// and a 96-bit mantissa.
pub open spec fn representable_at(u: int, s: nat) -> bool {
    &&& s <= 28
    &&& u % pow10((28 - s) as nat) == 0
    &&& -MAX_MANTISSA <= u / pow10((28 - s) as nat) <= MAX_MANTISSA
}

/// Zero can be written at every scale.
pub proof fn lemma_zero_representable(s: nat)
    requires
        s <= 28,
    ensures
        representable_at(0, s),
{
    let p = pow10((28 - s) as nat);
    lemma_pow10_pos((28 - s) as nat);
    assert(0int % p == 0 && 0int / p == 0) by (nonlinear_arith)
        requires
            p > 0,
    ;
}

/// The larger of two scales.
pub open spec fn max_scale(a: Dec, b: Dec) -> nat {
    if a.scale >= b.scale {
        a.scale as nat
    } else {
        b.scale as nat
    }
}

/// The exact value `u` is within the range of a decimal.
pub open spec fn in_range(u: int) -> bool {
    -max_units() <= u <= max_units()
}

/// What `rust_decimal` returns for `a + b`.
pub uninterp spec fn decimal_sum(a: Dec, b: Dec) -> Dec;

/// What `rust_decimal` returns for `a - b`.
pub uninterp spec fn decimal_difference(a: Dec, b: Dec) -> Dec;

/// What `rust_decimal` returns for `a * b`.
pub uninterp spec fn decimal_product(a: Dec, b: Dec) -> Dec;

/// What `rust_decimal` returns for `a / b`.
pub uninterp spec fn decimal_quotient(a: Dec, b: Dec) -> Dec;

/// `s` with zeros in front, up to length `w`.
pub open spec fn zero_padded(s: Seq<char>, w: nat) -> Seq<char> {
    if s.len() >= w {
        s
    } else {
        Seq::new((w - s.len()) as nat, |i: int| '0') + s
    }
}

/// What `rust_decimal` prints for a number (`Display` without options): a
/// minus sign when it is negative, the digits of its integer part ("0" when
/// there are none), and, when its scale is positive, a point followed by
/// exactly `scale` fraction digits.
pub open spec fn decimal_text(d: Dec) -> Seq<char> {
    let n = (if d.mantissa < 0 {
        -d.mantissa
    } else {
        d.mantissa as int
    }) as nat;
    let chars = zero_padded(
        if n == 0 {
            Seq::empty()
        } else {
            decimal_digits(n)
        },
        d.scale as nat,
    );
    let w = chars.len() - d.scale;
    let whole = if w == 0 {
        seq!['0']
    } else {
        chars.subrange(0, w)
    };
    let body = if d.scale == 0 {
        whole
    } else {
        whole + seq!['.'] + chars.subrange(w, chars.len() as int)
    };
    if d.mantissa < 0 {
        seq!['-'] + body
    } else {
        body
    }
}

/// What `rust_decimal`'s `checked_add` returns for `a + b`.
pub uninterp spec fn decimal_checked_sum(a: Dec, b: Dec) -> Option<Dec>;

/// What `rust_decimal`'s `checked_sub` returns for `a - b`.
pub uninterp spec fn decimal_checked_difference(a: Dec, b: Dec) -> Option<Dec>;

/// What `rust_decimal`'s `checked_mul` returns for `a * b`.
pub uninterp spec fn decimal_checked_product(a: Dec, b: Dec) -> Option<Dec>;

/// What `rust_decimal`'s `checked_div` returns for `a / b`.
pub uninterp spec fn decimal_checked_quotient(a: Dec, b: Dec) -> Option<Dec>;

/// `a + b` does not overflow: its exact value is in range, or `rust_decimal`
/// can still represent it once rounded.
pub open spec fn sum_fits(a: Dec, b: Dec) -> bool {
    in_range(a.units() + b.units()) || decimal_checked_sum(a, b) is Some
}

/// `rust_decimal` subtracts `b` from `a` exactly when both are written
/// without decimal places: the result is too, and its mantissa is the
/// difference.
pub open spec fn exact_whole_difference(a: Dec, b: Dec) -> bool {
    a.scale == 0 && b.scale == 0 ==> decimal_difference(a, b).scale == 0 && decimal_difference(
        a,
        b,
    ).mantissa == a.mantissa - b.mantissa
}

/// `a - b` does not overflow.
pub open spec fn difference_fits(a: Dec, b: Dec) -> bool {
    in_range(a.units() - b.units()) || decimal_checked_difference(a, b) is Some
}

/// `a + b` by `rust_decimal` (`<Decimal as Add>::add`), which panics
/// exactly when `checked_add` gives `None` and otherwise gives its result.
/// Claimed: a well-formed result, exact whenever the exact sum can be
/// written at the larger of the two scales; otherwise it is rounded, which is
/// left unsaid.  Two numbers without decimal places add to the sum of their
/// mantissas, again without decimal places (at scale 0 an overflow is an
/// error, not a rounding).
#[verifier::external_body]
pub(crate) fn dec_add(a: Dec, b: Dec) -> (r: Dec)
    requires
        a.wf(),
        b.wf(),
        sum_fits(a, b),
    ensures
        r.wf(),
        r == decimal_sum(a, b),
        decimal_checked_sum(a, b) == Some(r),
        representable_at(a.units() + b.units(), max_scale(a, b)) ==> r.units() == a.units()
            + b.units(),
        a.scale == 0 && b.scale == 0 ==> r.scale == 0 && r.mantissa == a.mantissa + b.mantissa,
{
    let x = Decimal::from_i128_with_scale(a.mantissa, a.scale);
    let y = Decimal::from_i128_with_scale(b.mantissa, b.scale);
    let z = x + y;
    Dec { mantissa: z.mantissa(), scale: z.scale() }
}

/// `a.checked_add(b)` by `rust_decimal`: the sum, or `None` on overflow.
/// Claimed: a sum whose exact value is in range does not overflow, and a
/// result is what `+` gives.
#[verifier::external_body]
pub(crate) fn dec_checked_add(a: Dec, b: Dec) -> (r: Option<Dec>)
    requires
        a.wf(),
        b.wf(),
    ensures
        r == decimal_checked_sum(a, b),
        in_range(a.units() + b.units()) ==> r is Some,
        r matches Some(x) ==> x == decimal_sum(a, b) && x.wf(),
{
    let x = Decimal::from_i128_with_scale(a.mantissa, a.scale);
    let y = Decimal::from_i128_with_scale(b.mantissa, b.scale);
    match x.checked_add(y) {
        Some(z) => Some(Dec { mantissa: z.mantissa(), scale: z.scale() }),
        None => None,
    }
}

/// `a - b` by `rust_decimal` (`<Decimal as Sub>::sub`), which panics
/// exactly when `checked_sub` gives `None`.  Claimed as for `dec_add`: a
/// well-formed result, exact whenever it can be written at the larger scale.
/// Also claimed: two numbers without decimal places subtract to the
/// difference of their mantissas, again without decimal places (equal scales
/// need no rescaling, and at scale 0 an overflow is an error, not a
/// rounding).
#[verifier::external_body]
pub(crate) fn dec_sub(a: Dec, b: Dec) -> (r: Dec)
    requires
        a.wf(),
        b.wf(),
        difference_fits(a, b),
    ensures
        r.wf(),
        r == decimal_difference(a, b),
        decimal_checked_difference(a, b) == Some(r),
        representable_at(a.units() - b.units(), max_scale(a, b)) ==> r.units() == a.units()
            - b.units(),
        a.scale == 0 && b.scale == 0 ==> r.scale == 0 && r.mantissa == a.mantissa - b.mantissa,
{
    let x = Decimal::from_i128_with_scale(a.mantissa, a.scale);
    let y = Decimal::from_i128_with_scale(b.mantissa, b.scale);
    let z = x - y;
    Dec { mantissa: z.mantissa(), scale: z.scale() }
}

/// `a.checked_sub(b)` by `rust_decimal`: the difference, or `None` on
/// overflow.  Claimed as for `dec_checked_add`.
#[verifier::external_body]
pub(crate) fn dec_checked_sub(a: Dec, b: Dec) -> (r: Option<Dec>)
    requires
        a.wf(),
        b.wf(),
    ensures
        r == decimal_checked_difference(a, b),
        in_range(a.units() - b.units()) ==> r is Some,
        r matches Some(x) ==> x == decimal_difference(a, b) && x.wf(),
{
    let x = Decimal::from_i128_with_scale(a.mantissa, a.scale);
    let y = Decimal::from_i128_with_scale(b.mantissa, b.scale);
    match x.checked_sub(y) {
        Some(z) => Some(Dec { mantissa: z.mantissa(), scale: z.scale() }),
        None => None,
    }
}

/// The exact product of two decimals is within range.
pub open spec fn product_in_range(a: Dec, b: Dec) -> bool {
    -MAX_MANTISSA * pow10((a.scale + b.scale) as nat) <= a.mantissa * b.mantissa
        <= MAX_MANTISSA * pow10((a.scale + b.scale) as nat)
}

/// `a * b` does not overflow.
pub open spec fn product_fits(a: Dec, b: Dec) -> bool {
    product_in_range(a, b) || decimal_checked_product(a, b) is Some
}

/// The exact product of two decimals in units of 10^-28 (when it is a
/// whole number of such units).
pub open spec fn exact_product_units(a: Dec, b: Dec) -> int {
    a.units() * b.units() / pow10(28)
}

/// The exact product can be written with a 96-bit mantissa and at most as
/// many decimal places as the two factors have together (and at most 28).
pub open spec fn product_representable(a: Dec, b: Dec) -> bool {
    &&& (a.units() * b.units()) % pow10(28) == 0
    &&& exists|s: nat|
        s <= a.scale + b.scale && s <= 28 && #[trigger] representable_at(
            exact_product_units(a, b),
            s,
        )
}

/// The exact product is a whole number.
pub open spec fn product_whole(a: Dec, b: Dec) -> bool {
    (a.units() * b.units()) % pow10(56) == 0
}

/// `a * b` by `rust_decimal` (`<Decimal as Mul>::mul`), which panics
/// exactly when `checked_mul` gives `None`.  Claimed: a well-formed result,
/// and the exact product (mantissas multiplied, scales added) whenever that
/// product fits in 96 bits with a scale of at most 28; more generally the
/// exact product whenever it can be written at some scale up to that one
/// (`rust_decimal` only drops digits, from the right, until the product
/// fits, rounding only digits that are not zero); and the exact product
/// whenever it is a whole number (a whole product that does not fit is an
/// overflow, not a rounding).
#[verifier::external_body]
pub(crate) fn dec_mul(a: Dec, b: Dec) -> (r: Dec)
    requires
        a.wf(),
        b.wf(),
        product_fits(a, b),
    ensures
        r.wf(),
        r == decimal_product(a, b),
        decimal_checked_product(a, b) == Some(r),
        (a.scale + b.scale <= MAX_SCALE && -MAX_MANTISSA <= a.mantissa * b.mantissa
            <= MAX_MANTISSA) ==> r.units() == a.mantissa * b.mantissa * pow10(
            (28 - a.scale - b.scale) as nat,
        ),
        product_representable(a, b) ==> r.units() == exact_product_units(a, b),
        product_whole(a, b) ==> r.units() == exact_product_units(a, b),
{
    let x = Decimal::from_i128_with_scale(a.mantissa, a.scale);
    let y = Decimal::from_i128_with_scale(b.mantissa, b.scale);
    let z = x * y;
    Dec { mantissa: z.mantissa(), scale: z.scale() }
}

/// `a.checked_mul(b)` by `rust_decimal`: the product, or `None` on
/// overflow.  Claimed: a product whose exact value is in range does not
/// overflow, a whole product out of range does, and a result is what `*`
/// gives, exact as for `dec_mul`.
#[verifier::external_body]
pub(crate) fn dec_checked_mul(a: Dec, b: Dec) -> (r: Option<Dec>)
    requires
        a.wf(),
        b.wf(),
    ensures
        r == decimal_checked_product(a, b),
        product_in_range(a, b) ==> r is Some,
        product_whole(a, b) && !product_in_range(a, b) ==> r is None,
        r matches Some(x) ==> x == decimal_product(a, b) && x.wf(),
        product_representable(a, b) || product_whole(a, b) ==> (r matches Some(x) ==> x.units()
            == exact_product_units(a, b)),
{
    let x = Decimal::from_i128_with_scale(a.mantissa, a.scale);
    let y = Decimal::from_i128_with_scale(b.mantissa, b.scale);
    match x.checked_mul(y) {
        Some(z) => Some(Dec { mantissa: z.mantissa(), scale: z.scale() }),
        None => None,
    }
}

/// The exact quotient of two decimals is within range.
pub open spec fn quotient_in_range(a: Dec, b: Dec) -> bool {
    &&& b.units() != 0
    &&& -MAX_MANTISSA * b.units() <= a.units() <= MAX_MANTISSA * b.units()
        || MAX_MANTISSA * b.units() <= a.units() <= -MAX_MANTISSA * b.units()
}

/// `a / b` neither divides by zero nor overflows.
pub open spec fn quotient_fits(a: Dec, b: Dec) -> bool {
    quotient_in_range(a, b) || decimal_checked_quotient(a, b) is Some
}

/// The exact quotient `a / b` can be written with at most 28 decimal places
/// and a 96-bit mantissa (and `b` is not zero).
pub open spec fn quotient_representable(a: Dec, b: Dec) -> bool {
    &&& b.units() != 0
    &&& exists|s: nat, m: int| #[trigger] quotient_is(a, b, s, m)
}

/// `a / b` is `m` with `s` decimal places, `s` at most 28 and `m` a 96-bit
/// mantissa.
pub open spec fn quotient_is(a: Dec, b: Dec, s: nat, m: int) -> bool {
    s <= 28 && -MAX_MANTISSA <= m <= MAX_MANTISSA && a.units() * pow10(s) == b.units() * m
}

/// `a / b` by `rust_decimal` (`<Decimal as Div>::div`), which panics
/// exactly when `checked_div` gives `None` (division by zero or overflow).
/// Claimed: a well-formed result, which is the exact quotient whenever that
/// can be written with at most 28 decimal places (`rust_decimal` adds
/// quotient digits while a remainder is left and the quotient still fits,
/// and rounds only a remainder that is not zero).  Otherwise the quotient
/// is rounded to the available precision; how is left unsaid.
#[verifier::external_body]
pub(crate) fn dec_div(a: Dec, b: Dec) -> (r: Dec)
    requires
        a.wf(),
        b.wf(),
        quotient_fits(a, b),
    ensures
        r.wf(),
        r == decimal_quotient(a, b),
        decimal_checked_quotient(a, b) == Some(r),
        quotient_representable(a, b) ==> r.units() * b.units() == a.units() * pow10(28),
{
    let x = Decimal::from_i128_with_scale(a.mantissa, a.scale);
    let y = Decimal::from_i128_with_scale(b.mantissa, b.scale);
    let z = x / y;
    Dec { mantissa: z.mantissa(), scale: z.scale() }
}

/// `a.checked_div(b)` by `rust_decimal`: the quotient, or `None` on
/// division by zero or overflow.  Claimed: a nonzero divisor with an exact
/// quotient in range gives a result, and a result is what `/` gives, exact
/// as for `dec_div`.
#[verifier::external_body]
pub(crate) fn dec_checked_div(a: Dec, b: Dec) -> (r: Option<Dec>)
    requires
        a.wf(),
        b.wf(),
    ensures
        r == decimal_checked_quotient(a, b),
        quotient_in_range(a, b) ==> r is Some,
        quotient_representable(a, b) ==> r is Some,
        r matches Some(x) ==> x == decimal_quotient(a, b) && x.wf(),
        quotient_representable(a, b) ==> (r matches Some(x) ==> x.units() * b.units() == a.units()
            * pow10(28)),
{
    let x = Decimal::from_i128_with_scale(a.mantissa, a.scale);
    let y = Decimal::from_i128_with_scale(b.mantissa, b.scale);
    match x.checked_div(y) {
        Some(z) => Some(Dec { mantissa: z.mantissa(), scale: z.scale() }),
        None => None,
    }
}

/// `a < b` by `rust_decimal`'s ordering, which compares values.
#[verifier::external_body]
pub(crate) fn dec_lt(a: Dec, b: Dec) -> (r: bool)
    requires
        a.wf(),
        b.wf(),
    ensures
        r == (a.units() < b.units()),
{
    Decimal::from_i128_with_scale(a.mantissa, a.scale) < Decimal::from_i128_with_scale(
        b.mantissa,
        b.scale,
    )
}

/// `a == b` by `rust_decimal`'s equality, which compares values.
#[verifier::external_body]
pub(crate) fn dec_eq(a: Dec, b: Dec) -> (r: bool)
    requires
        a.wf(),
        b.wf(),
    ensures
        r == (a.units() == b.units()),
{
    Decimal::from_i128_with_scale(a.mantissa, a.scale) == Decimal::from_i128_with_scale(
        b.mantissa,
        b.scale,
    )
}

/// `d.fract()` by `rust_decimal`: the number minus its integer part.
/// Claimed: a well-formed result that is zero exactly when `d` has no
/// fractional part.
#[verifier::external_body]
pub(crate) fn dec_fract(d: Dec) -> (r: Dec)
    requires
        d.wf(),
    ensures
        r.wf(),
        (r.mantissa == 0) == d.is_integral(),
{
    let z = Decimal::from_i128_with_scale(d.mantissa, d.scale).fract();
    Dec { mantissa: z.mantissa(), scale: z.scale() }
}

/// `d.to_u64()` by `rust_decimal` (`ToPrimitive`): `None` for a negative
/// number, else the integer part (rounded toward zero) when it fits in 64
/// bits, else `None`.
#[verifier::external_body]
pub(crate) fn dec_to_u64(d: Dec) -> (r: Option<u64>)
    requires
        d.wf(),
    ensures
        r == d.to_u64_spec(),
{
    Decimal::from_i128_with_scale(d.mantissa, d.scale).to_u64()
}

/// `Decimal::to_string` through `rust_decimal`'s `Display`, without
/// formatting options.  Claimed: the text is `decimal_text(d)`, the sign,
/// the integer digits and, for a positive scale, a point and exactly
/// `scale` fraction digits.
#[verifier::external_body]
pub(crate) fn dec_to_string(d: Dec) -> (r: String)
    requires
        d.wf(),
    ensures
        r@ == decimal_text(d),
{
    Decimal::from_i128_with_scale(d.mantissa, d.scale).to_string()
}

/// The smaller of two numbers, `a` when they are equal (`Decimal::min`).
pub fn dec_min(a: Dec, b: Dec) -> (r: Dec)
    requires
        a.wf(),
        b.wf(),
    ensures
        r == (if a.units() > b.units() {
            b
        } else {
            a
        }),
{
    if dec_lt(b, a) {
        b
    } else {
        a
    }
}

/// Whether `a + b` can be computed without overflow.
pub fn can_add(a: Dec, b: Dec) -> (r: bool)
    requires
        a.wf(),
        b.wf(),
    ensures
        r == sum_fits(a, b),
{
    dec_checked_add(a, b).is_some()
}

/// Whether `a - b` can be computed without overflow.
pub fn can_sub(a: Dec, b: Dec) -> (r: bool)
    requires
        a.wf(),
        b.wf(),
    ensures
        r == difference_fits(a, b),
{
    dec_checked_sub(a, b).is_some()
}

/// Whether `a * b` can be computed without overflow.
pub fn can_mul(a: Dec, b: Dec) -> (r: bool)
    requires
        a.wf(),
        b.wf(),
    ensures
        r == product_fits(a, b),
{
    dec_checked_mul(a, b).is_some()
}

/// Whether `a / b` can be computed without a division by zero or an
/// overflow.
pub fn can_div(a: Dec, b: Dec) -> (r: bool)
    requires
        a.wf(),
        b.wf(),
    ensures
        r == quotient_fits(a, b),
{
    dec_checked_div(a, b).is_some()
}

impl Dec {
    /// The number is well formed (checked at run time).
    pub fn check_wf(&self) -> (b: bool)
        ensures
            b == self.wf(),
    {
        -MAX_MANTISSA <= self.mantissa && self.mantissa <= MAX_MANTISSA && self.scale <= MAX_SCALE
    }

    /// Equality as `==` on `Dec` computes it: by value for well-formed
    /// numbers, field by field otherwise.
    pub open spec fn same_as(&self, other: &Dec) -> bool {
        if self.wf() && other.wf() {
            self.units() == other.units()
        } else {
            self.mantissa == other.mantissa && self.scale == other.scale
        }
    }
}

impl PartialEq for Dec {
    fn eq(&self, other: &Dec) -> (r: bool) {
        if self.check_wf() && other.check_wf() {
            dec_eq(*self, *other)
        } else {
            self.mantissa == other.mantissa && self.scale == other.scale
        }
    }
}

impl vstd::std_specs::cmp::PartialEqSpecImpl for Dec {
    open spec fn obeys_eq_spec() -> bool {
        true
    }

    open spec fn eq_spec(&self, other: &Dec) -> bool {
        self.same_as(other)
    }
}

} // verus!
