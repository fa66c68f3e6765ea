//! Exact decimal amounts of money.
//!
//! An [`Amount`] is a signed integer mantissa together with a scale, the
//! number of digits behind the decimal point. The arithmetic is that of
//! `rust_decimal`, and every result is checked before it is handed out: a
//! sum is exact or absent; a product or a quotient is exact, or rounded to
//! as many digits as a decimal can hold, or absent.

use crate::wide::{lemma_pow_base_values, pow_base, Wide, BASE};
use rust_decimal::Decimal;
use vstd::arithmetic::div_mod::{
    lemma_fundamental_div_mod_converse_div, lemma_fundamental_div_mod_converse_mod,
};
use vstd::prelude::*;

verus! {

/// The largest scale an amount can have.
pub const MAX_SCALE: u32 = 28;

/// The largest mantissa an amount can have: 2^96 - 1.
pub const MAX_MANTISSA: i128 = 0xFFFF_FFFF_FFFF_FFFF_FFFF_FFFF;

/// One whole currency unit, counted in units of 10^-28.
pub const ONE_UNIT: u128 = 10_000_000_000_000_000_000_000_000_000;

/// Ten to the power `k`.
pub open spec fn pow10(k: nat) -> nat
    decreases k,
{
    if k == 0 {
        1
    } else {
        10 * pow10((k - 1) as nat)
    }
}

/// Whether a mantissa and a scale are those of a decimal number.
pub open spec fn in_range(mantissa: int, scale: int) -> bool {
    &&& -MAX_MANTISSA <= mantissa <= MAX_MANTISSA
    &&& 0 <= scale <= MAX_SCALE
}

/// The number `mantissa / 10^scale`, counted in units of 10^-28.
pub open spec fn units_of(mantissa: int, scale: int) -> int {
    mantissa * pow10((MAX_SCALE - scale) as nat)
}

/// A power of ten is at least one.
pub proof fn lemma_pow10_positive(k: nat)
    ensures
        pow10(k) >= 1,
    decreases k,
{
    if k > 0 {
        lemma_pow10_positive((k - 1) as nat);
    }
}

/// The power of a sum is the product of the powers.
pub proof fn lemma_pow10_add(a: nat, b: nat)
    ensures
        pow10(a + b) == pow10(a) * pow10(b),
    decreases a,
{
    if a == 0 {
        assert(pow10(0) * pow10(b) == pow10(b)) by (nonlinear_arith)
            requires
                pow10(0) == 1,
        ;
    } else {
        lemma_pow10_add((a - 1) as nat, b);
        assert(pow10(a + b) == 10 * pow10((a + b - 1) as nat));
        assert(pow10(a) == 10 * pow10((a - 1) as nat));
        assert(10 * (pow10((a - 1) as nat) * pow10(b)) == (10 * pow10((a - 1) as nat)) * pow10(b))
            by (nonlinear_arith);
    }
}

/// Ten to the power 28 is one whole unit.
pub proof fn lemma_pow10_28()
    ensures
        pow10(28) == ONE_UNIT,
{
    reveal_with_fuel(pow10, 29);
}

/// Ten to the power `k`, for the exponents a scale can take.
pub fn power_of_ten(k: u32) -> (r: u128)
    requires
        k <= MAX_SCALE,
    ensures
        r == pow10(k as nat),
        1 <= r <= ONE_UNIT,
{
    let mut r: u128 = 1;
    let mut i: u32 = 0;
    proof {
        lemma_pow10_28();
    }
    while i < k
        invariant
            i <= k <= MAX_SCALE,
            r == pow10(i as nat),
            r * pow10((28 - i) as nat) == ONE_UNIT,
            r >= 1,
        decreases k - i,
    {
        proof {
            let rest = pow10((28 - i - 1) as nat);
            assert(pow10((28 - i) as nat) == 10 * rest);
            lemma_pow10_positive((28 - i - 1) as nat);
            assert((r * 10) * rest == r * (10 * rest)) by (nonlinear_arith);
            assert(r * 10 <= (r * 10) * rest) by (nonlinear_arith)
                requires
                    rest >= 1,
                    r >= 0,
            ;
        }
        r = r * 10;
        i = i + 1;
    }
    proof {
        let rest = pow10((28 - k) as nat);
        lemma_pow10_positive((28 - k) as nat);
        assert(r <= r * rest) by (nonlinear_arith)
            requires
                rest >= 1,
                r >= 0,
        ;
    }
    r
}

/// The sign of a number.
#[derive(Clone, Copy, Debug, PartialEq, Eq, Structural)]
pub enum Sign {
    Negative,
    Zero,
    Positive,
}

/// The sign of the integer `x`.
pub open spec fn sign_of(x: int) -> Sign {
    if x < 0 {
        Sign::Negative
    } else if x == 0 {
        Sign::Zero
    } else {
        Sign::Positive
    }
}

/// The sign of `whole * 10^28 + part`, for a `part` of a few units at most.
fn sign_of_parts(whole: i128, part: i128) -> (r: Sign)
    requires
        -4 * ONE_UNIT < part < 4 * ONE_UNIT,
        -4 * MAX_MANTISSA <= whole <= 4 * MAX_MANTISSA,
    ensures
        r == sign_of(whole * ONE_UNIT + part),
{
    if whole >= 5 {
        assert(whole * ONE_UNIT >= 5 * ONE_UNIT) by (nonlinear_arith)
            requires
                whole >= 5,
        ;
        Sign::Positive
    } else if whole <= -5 {
        assert(whole * ONE_UNIT <= -5 * ONE_UNIT) by (nonlinear_arith)
            requires
                whole <= -5,
        ;
        Sign::Negative
    } else {
        assert(-5 * ONE_UNIT < whole * ONE_UNIT < 5 * ONE_UNIT) by (nonlinear_arith)
            requires
                -5 < whole < 5,
        ;
        let value: i128 = whole * (ONE_UNIT as i128) + part;
        if value < 0 {
            Sign::Negative
        } else if value == 0 {
            Sign::Zero
        } else {
            Sign::Positive
        }
    }
}

/// A decimal number of at most 28 decimals with a mantissa of at most 96 bits.
#[derive(Clone, Copy, Debug)]
pub struct Amount {
    mantissa: i128,
    scale: u32,
}

impl View for Amount {
    type V = int;

    /// The amount, counted in units of 10^-28.
    open spec fn view(&self) -> int {
        units_of(self.spec_mantissa() as int, self.spec_scale() as int)
    }
}

impl Amount {
    /// Whether mantissa and scale are within their limits. Every amount that
    /// executable code can hold is valid.
    #[verifier::type_invariant]
    pub closed spec fn valid(self) -> bool {
        in_range(self.mantissa as int, self.scale as int)
    }

    /// What it is to be valid.
    pub proof fn lemma_valid(self)
        ensures
            self.valid() == in_range(self.spec_mantissa() as int, self.spec_scale() as int),
    {
    }

    /// The mantissa: the amount is `mantissa / 10^scale`.
    pub closed spec fn spec_mantissa(self) -> i128 {
        self.mantissa
    }

    /// The scale: the number of digits behind the decimal point.
    pub closed spec fn spec_scale(self) -> u32 {
        self.scale
    }

    /// The amount `mantissa / 10^scale`, or nothing where the mantissa takes
    /// more than 96 bits or the scale is above 28.
    pub fn new(mantissa: i128, scale: u32) -> (r: Option<Amount>)
        ensures
            r is Some <==> in_range(mantissa as int, scale as int),
            r matches Some(a) ==> a.spec_mantissa() == mantissa && a.spec_scale() == scale,
    {
        if scale <= MAX_SCALE && -MAX_MANTISSA <= mantissa && mantissa <= MAX_MANTISSA {
            Some(Amount { mantissa, scale })
        } else {
            None
        }
    }

    /// What [`Amount::zero`] returns.
    pub closed spec fn spec_zero() -> Amount {
        Amount { mantissa: 0, scale: 0 }
    }

    /// The amount zero.
    pub fn zero() -> (r: Amount)
        ensures
            r == Self::spec_zero(),
            r@ == 0,
            r.spec_mantissa() == 0,
            r.spec_scale() == 0,
    {
        Amount { mantissa: 0, scale: 0 }
    }

    /// What [`Amount::hundred`] returns.
    pub closed spec fn spec_hundred() -> Amount {
        Amount { mantissa: 100, scale: 0 }
    }

    /// The amount one hundred.
    pub fn hundred() -> (r: Amount)
        ensures
            r == Self::spec_hundred(),
            r@ == 100 * ONE_UNIT,
            r.spec_mantissa() == 100,
            r.spec_scale() == 0,
    {
        proof {
            lemma_pow10_28();
        }
        Amount { mantissa: 100, scale: 0 }
    }

    /// What [`Amount::thousand`] returns.
    pub closed spec fn spec_thousand() -> Amount {
        Amount { mantissa: 1000, scale: 0 }
    }

    /// The amount one thousand.
    pub fn thousand() -> (r: Amount)
        ensures
            r == Self::spec_thousand(),
            r@ == 1000 * ONE_UNIT,
            r.spec_mantissa() == 1000,
            r.spec_scale() == 0,
    {
        proof {
            lemma_pow10_28();
        }
        Amount { mantissa: 1000, scale: 0 }
    }

    /// The whole number `n`.
    pub fn from_i64(n: i64) -> (r: Amount)
        ensures
            r@ == n * ONE_UNIT,
            r.spec_mantissa() == n,
            r.spec_scale() == 0,
    {
        proof {
            lemma_pow10_28();
        }
        Amount { mantissa: n as i128, scale: 0 }
    }

    /// What [`Amount::from_usize`] returns.
    pub closed spec fn spec_from_usize(n: usize) -> Amount {
        Amount { mantissa: n as i128, scale: 0 }
    }

    /// The whole number `n`, as a count of things.
    pub fn from_usize(n: usize) -> (r: Amount)
        ensures
            r == Self::spec_from_usize(n),
            r@ == n * ONE_UNIT,
            r.spec_mantissa() == n,
            r.spec_scale() == 0,
    {
        proof {
            lemma_pow10_28();
        }
        Amount { mantissa: n as i128, scale: 0 }
    }

    /// The mantissa: the amount is `mantissa / 10^scale`.
    pub fn mantissa(&self) -> (r: i128)
        ensures
            r == self.spec_mantissa(),
            self.valid(),
    {
        proof {
            use_type_invariant(self);
        }
        self.mantissa
    }

    /// The scale: the number of digits behind the decimal point.
    pub fn scale(&self) -> (r: u32)
        ensures
            r == self.spec_scale(),
            self.valid(),
    {
        proof {
            use_type_invariant(self);
        }
        self.scale
    }

    /// Splits the amount into whole units and the rest: both carry the
    /// amount's sign, and the rest is less than one unit.
    fn parts(&self) -> (r: (i128, i128))
        ensures
            self@ == r.0 * ONE_UNIT + r.1,
            -ONE_UNIT < r.1 < ONE_UNIT,
            -MAX_MANTISSA <= r.0 <= MAX_MANTISSA,
            self.spec_mantissa() >= 0 ==> r.0 >= 0 && r.1 >= 0,
            self.spec_mantissa() <= 0 ==> r.0 <= 0 && r.1 <= 0,
            self.valid(),
    {
        proof {
            use_type_invariant(self);
        }
        let negative = self.mantissa < 0;
        let magnitude: u128 = if negative {
            (-self.mantissa) as u128
        } else {
            self.mantissa as u128
        };
        let below = power_of_ten(self.scale);
        let above = power_of_ten(MAX_SCALE - self.scale);
        let whole: u128 = magnitude / below;
        let rest: u128 = magnitude % below;
        proof {
            lemma_pow10_add(self.scale as nat, (MAX_SCALE - self.scale) as nat);
            lemma_pow10_28();
            assert(below * above == ONE_UNIT);
            assert(magnitude == whole * below + rest) by (nonlinear_arith)
                requires
                    whole == magnitude / below,
                    rest == magnitude % below,
                    below > 0,
            ;
            assert(rest * above < below * above) by (nonlinear_arith)
                requires
                    rest < below,
                    above >= 1,
            ;
            assert(magnitude * above == whole * (below * above) + rest * above)
                by (nonlinear_arith)
                requires
                    magnitude == whole * below + rest,
            ;
            assert(whole <= magnitude && rest <= magnitude) by (nonlinear_arith)
                requires
                    magnitude == whole * below + rest,
                    below >= 1,
                    whole >= 0,
                    rest >= 0,
            ;
        }
        let part: u128 = rest * above;
        if magnitude == 0 {
            assert(rest * above == 0) by (nonlinear_arith)
                requires
                    rest == 0,
            ;
        }
        if negative {
            assert(self@ == -(magnitude * above)) by (nonlinear_arith)
                requires
                    self@ == self.mantissa * above,
                    magnitude == -self.mantissa,
            ;
            assert(-(whole as int) * ONE_UNIT == -(whole * ONE_UNIT)) by (nonlinear_arith);
            (-(whole as i128), -(part as i128))
        } else {
            (whole as i128, part as i128)
        }
    }

    /// The value of an amount has the sign of its mantissa.
    pub proof fn lemma_sign(self)
        requires
            self.valid(),
        ensures
            sign_of(self@) == sign_of(self.spec_mantissa() as int),
    {
        lemma_pow10_positive((MAX_SCALE - self.scale) as nat);
        let p = pow10((MAX_SCALE - self.scale) as nat);
        if self.mantissa < 0 {
            assert(self.mantissa * p < 0) by (nonlinear_arith)
                requires
                    self.mantissa < 0,
                    p >= 1,
            ;
        } else if self.mantissa > 0 {
            assert(self.mantissa * p > 0) by (nonlinear_arith)
                requires
                    self.mantissa > 0,
                    p >= 1,
            ;
        } else {
            assert(self.mantissa * p == 0) by (nonlinear_arith)
                requires
                    self.mantissa == 0,
            ;
        }
    }

    /// The sign of the amount.
    pub fn sign(&self) -> (r: Sign)
        ensures
            r == sign_of(self@),
    {
        proof {
            use_type_invariant(self);
            self.lemma_sign();
        }
        if self.mantissa < 0 {
            Sign::Negative
        } else if self.mantissa == 0 {
            Sign::Zero
        } else {
            Sign::Positive
        }
    }

    /// Whether the amount is zero.
    pub fn is_zero(&self) -> (r: bool)
        ensures
            r == (self@ == 0),
    {
        self.sign() == Sign::Zero
    }

    /// Whether the amount is below zero.
    pub fn is_negative(&self) -> (r: bool)
        ensures
            r == (self@ < 0),
    {
        self.sign() == Sign::Negative
    }

    /// The amount with its sign turned.
    pub fn neg(&self) -> (r: Amount)
        ensures
            r == self.spec_neg(),
            r@ == -self@,
            r.spec_mantissa() == -self.spec_mantissa(),
            r.spec_scale() == self.spec_scale(),
    {
        proof {
            use_type_invariant(self);
            let p = pow10((MAX_SCALE - self.scale) as nat);
            assert((-self.mantissa) * p == -(self.mantissa * p)) by (nonlinear_arith);
        }
        Amount { mantissa: -self.mantissa, scale: self.scale }
    }

    /// What [`Amount::abs`] returns.
    pub closed spec fn spec_abs(self) -> Amount {
        if self.mantissa < 0 {
            self.spec_neg()
        } else {
            self
        }
    }

    /// The amount without its sign.
    pub fn abs(&self) -> (r: Amount)
        ensures
            r == self.spec_abs(),
            r@ == (if self@ < 0 { -self@ } else { self@ }),
            r.spec_scale() == self.spec_scale(),
    {
        proof {
            use_type_invariant(self);
            self.lemma_sign();
        }
        if self.mantissa < 0 {
            self.neg()
        } else {
            *self
        }
    }

    /// Whether two amounts are the same number, whatever their scales.
    pub fn same_value(&self, other: &Amount) -> (r: bool)
        ensures
            r == (self@ == other@),
    {
        self.compare(other) == Sign::Zero
    }

    /// Whether this amount is below the other.
    pub fn less_than(&self, other: &Amount) -> (r: bool)
        ensures
            r == (self@ < other@),
    {
        self.compare(other) == Sign::Negative
    }

    /// The sign of the difference between this amount and the other.
    pub fn compare(&self, other: &Amount) -> (r: Sign)
        ensures
            r == sign_of(self@ - other@),
    {
        let (whole_a, part_a) = self.parts();
        let (whole_b, part_b) = other.parts();
        assert((whole_a - whole_b) * ONE_UNIT + (part_a - part_b) == self@ - other@)
            by (nonlinear_arith)
            requires
                self@ == whole_a * ONE_UNIT + part_a,
                other@ == whole_b * ONE_UNIT + part_b,
        ;
        sign_of_parts(whole_a - whole_b, part_a - part_b)
    }
}


/// Mantissa and scale of what `rust_decimal` gives as the sum of the
/// decimals `m1 / 10^s1` and `m2 / 10^s2`, or nothing where it reports an
/// overflow.
pub uninterp spec fn decimal_sum(m1: i128, s1: u32, m2: i128, s2: u32) -> Option<(i128, u32)>;

/// Mantissa and scale of what `rust_decimal` gives as the product of the
/// decimals `m1 / 10^s1` and `m2 / 10^s2`, or nothing where it reports an
/// overflow.
pub uninterp spec fn decimal_product(m1: i128, s1: u32, m2: i128, s2: u32) -> Option<(i128, u32)>;

/// Mantissa and scale of what `rust_decimal` gives as the quotient of the
/// decimal `m1 / 10^s1` by `m2 / 10^s2`, or nothing where it reports an
/// overflow or a division by zero.
pub uninterp spec fn decimal_quotient(m1: i128, s1: u32, m2: i128, s2: u32) -> Option<(i128, u32)>;

/// Calls `rust_decimal::Decimal::checked_add` on the two decimals. Nothing is
/// claimed of the result but that it depends on the operands alone: the
/// crate rounds a sum that its 96 bits cannot hold, so the caller compares
/// the result with the exact sum.
#[verifier::external_body]
fn decimal_checked_add(m1: i128, s1: u32, m2: i128, s2: u32) -> (r: Option<(i128, u32)>)
    requires
        in_range(m1 as int, s1 as int),
        in_range(m2 as int, s2 as int),
    ensures
        r == decimal_sum(m1, s1, m2, s2),
{
    let left = Decimal::from_i128_with_scale(m1, s1);
    let right = Decimal::from_i128_with_scale(m2, s2);
    match left.checked_add(right) {
        Some(sum) => Some((sum.mantissa(), sum.scale())),
        None => None,
    }
}

/// Calls `rust_decimal::Decimal::checked_mul` on the two decimals. Nothing is
/// claimed of the result but that it depends on the operands alone.
#[verifier::external_body]
fn decimal_checked_mul(m1: i128, s1: u32, m2: i128, s2: u32) -> (r: Option<(i128, u32)>)
    requires
        in_range(m1 as int, s1 as int),
        in_range(m2 as int, s2 as int),
    ensures
        r == decimal_product(m1, s1, m2, s2),
{
    let left = Decimal::from_i128_with_scale(m1, s1);
    let right = Decimal::from_i128_with_scale(m2, s2);
    match left.checked_mul(right) {
        Some(product) => Some((product.mantissa(), product.scale())),
        None => None,
    }
}

/// Calls `rust_decimal::Decimal::checked_div` on the two decimals. Nothing is
/// claimed of the result but that it depends on the operands alone.
#[verifier::external_body]
fn decimal_checked_div(m1: i128, s1: u32, m2: i128, s2: u32) -> (r: Option<(i128, u32)>)
    requires
        in_range(m1 as int, s1 as int),
        in_range(m2 as int, s2 as int),
    ensures
        r == decimal_quotient(m1, s1, m2, s2),
{
    let left = Decimal::from_i128_with_scale(m1, s1);
    let right = Decimal::from_i128_with_scale(m2, s2);
    match left.checked_div(right) {
        Some(quotient) => Some((quotient.mantissa(), quotient.scale())),
        None => None,
    }
}

/// The text that `rust_decimal` writes for the decimal `m / 10^s` with
/// `precision` digits behind the decimal point.
pub uninterp spec fn decimal_text(m: i128, s: u32, precision: usize) -> Seq<char>;

/// A power of ten that a `u128` holds has an exponent below 39.
pub proof fn lemma_digits_of_u128(k: nat)
    requires
        pow10(k) <= u128::MAX,
    ensures
        k <= 38,
    decreases k,
{
    if k > 38 {
        lemma_pow10_add(39, (k - 39) as nat);
        lemma_pow10_positive((k - 39) as nat);
        lemma_pow10_add(28, 11);
        lemma_pow10_28();
        assert(pow10(11) == 100_000_000_000) by {
            reveal_with_fuel(pow10, 12);
        }
        assert(pow10(39) > u128::MAX);
        assert(pow10(39) * pow10((k - 39) as nat) >= pow10(39)) by (nonlinear_arith)
            requires
                pow10((k - 39) as nat) >= 1,
                pow10(39) >= 0,
        ;
    }
}

/// The number of characters that `rust_decimal` has room for when it writes
/// a decimal.
pub const TEXT_ROOM: usize = 32;

/// The number of digits of a whole number; zero has one.
pub open spec fn decimal_digits(n: nat) -> nat
    decreases n,
{
    if n < 10 {
        1
    } else {
        1 + decimal_digits(n / 10)
    }
}

/// Whether there is room for the text of the decimal `m / 10^s` with
/// `precision` digits behind the decimal point: for the digits before the
/// point, the point and the digits behind it.
pub open spec fn text_fits(m: i128, s: u32, precision: usize) -> bool {
    decimal_digits((magnitude(m as int) / (pow10(s as nat) as int)) as nat) + 1 + precision
        <= TEXT_ROOM
}

/// Writes the decimal with the `Display` of `rust_decimal::Decimal`, with
/// `precision` digits behind the decimal point. The crate writes into a
/// buffer of 32 characters and panics where they do not suffice, so the
/// text must fit. Nothing is claimed of the text but that it depends on the
/// decimal and the precision alone.
#[verifier::external_body]
fn decimal_format(m: i128, s: u32, precision: usize) -> (r: String)
    requires
        in_range(m as int, s as int),
        precision <= MAX_SCALE,
        text_fits(m, s, precision),
    ensures
        r@ == decimal_text(m, s, precision),
{
    format!("{:.precision$}", Decimal::from_i128_with_scale(m, s))
}

/// Rounds `x`, counted in units of 10^-28, to whole units, a half going to
/// the even neighbour.
pub open spec fn round_half_even(x: int) -> int {
    let whole = x / (ONE_UNIT as int);
    let rest = x % (ONE_UNIT as int);
    if 2 * rest < ONE_UNIT {
        whole
    } else if 2 * rest > ONE_UNIT {
        whole + 1
    } else if whole % 2 == 0 {
        whole
    } else {
        whole + 1
    }
}

/// The `i64` that is nearest to `n`.
pub open spec fn nearest_i64(n: int) -> i64 {
    if n < i64::MIN {
        i64::MIN
    } else if n > i64::MAX {
        i64::MAX
    } else {
        n as i64
    }
}

/// The number without its sign.
pub open spec fn magnitude(x: int) -> int {
    if x < 0 {
        -x
    } else {
        x
    }
}

/// Whether a number of `x` units, counted against `base`, has room for one
/// more digit behind the decimal point than `scale`: rounded to that digit
/// it would still have at most 28 digits behind the decimal point and a
/// mantissa of at most 96 bits.
pub open spec fn has_room(x: int, base: int, scale: int) -> bool {
    scale < MAX_SCALE && 2 * x < (base * (2 * MAX_MANTISSA + 1)) * pow10(
        (MAX_SCALE - 1 - scale) as nat,
    )
}

/// Whether a result that is off its target by `off` is within half a unit
/// of the digit `digits` behind the decimal point. `base` is what a unit of
/// 10^-28 counts for.
pub open spec fn is_within(off: int, base: int, digits: int) -> bool {
    2 * magnitude(off) <= base * pow10((MAX_SCALE - digits) as nat)
}

/// Whether a result with `scale` digits behind the decimal point is as near
/// its target as a decimal gets. Either `off`, what it is off by, is
/// nothing; or the result is the target rounded to a digit that the target
/// has no room beyond, however many zeros of it are left unwritten. `x` is
/// the target without its sign, and `base` what a unit of 10^-28 counts
/// for.
pub open spec fn is_settled(off: int, base: int, x: int, scale: int) -> bool {
    off == 0 || exists|digits: int|
        scale <= digits <= MAX_SCALE && #[trigger] is_within(off, base, digits) && !has_room(
            x,
            base,
            digits,
        )
}

/// Whether `quotient`, a number with `scale` digits behind the decimal
/// point, is the quotient of `dividend` by `divisor`: either it is that
/// exactly, or it is that rounded to as many digits as a decimal can hold.
/// The numbers are counted in units of 10^-28.
pub open spec fn is_rounded_ratio(dividend: int, divisor: int, quotient: int, scale: int) -> bool {
    is_settled(
        divisor * quotient - dividend * ONE_UNIT,
        magnitude(divisor),
        magnitude(dividend) * ONE_UNIT,
        scale,
    )
}

/// Whether `quotient`, a number with `scale` digits behind the decimal
/// point, is the quotient of `dividend` by the whole number `count`, exact
/// or rounded as [`is_rounded_ratio`] has it. The dividend and the quotient
/// are counted in units of 10^-28.
pub open spec fn is_rounded_quotient(dividend: int, count: int, quotient: int, scale: int) -> bool {
    is_rounded_ratio(dividend, count * ONE_UNIT, quotient, scale)
}

/// Whether `product`, a number with `scale` digits behind the decimal point,
/// is the product of `a` and `b`: either it is that exactly, or it is that
/// rounded to as many digits as a decimal can hold. The numbers are counted
/// in units of 10^-28.
pub open spec fn is_rounded_product(a: int, b: int, product: int, scale: int) -> bool {
    is_settled(product * ONE_UNIT - a * b, ONE_UNIT as int, magnitude(a * b), scale)
}

/// A product is nothing only where a factor is.
proof fn lemma_product_is_zero(c: int, d: int)
    requires
        c != 0,
        c * d == 0,
    ensures
        d == 0,
{
    assert(d == 0) by (nonlinear_arith)
        requires
            c != 0,
            c * d == 0,
    ;
}

/// The size of a product is the product of the sizes.
proof fn lemma_magnitude_of_product(c: int, d: int)
    ensures
        magnitude(c * d) == magnitude(c) * magnitude(d),
{
    assert(magnitude(c * d) == magnitude(c) * magnitude(d)) by (nonlinear_arith)
        requires
            magnitude(c) == (if c < 0 { -c } else { c }),
            magnitude(d) == (if d < 0 { -d } else { d }),
            magnitude(c * d) == (if c * d < 0 { -(c * d) } else { c * d }),
    ;
}

/// A decimal with `scale` digits behind the decimal point is a whole number
/// of units of each digit from there on.
proof fn lemma_units_in_digits(m: int, scale: int, digits: int)
    requires
        0 <= scale <= digits <= MAX_SCALE,
    ensures
        units_of(m, scale) == (m * pow10((digits - scale) as nat)) * pow10(
            (MAX_SCALE - digits) as nat,
        ),
{
    lemma_pow10_add((digits - scale) as nat, (MAX_SCALE - digits) as nat);
    let p = pow10((digits - scale) as nat) as int;
    let u = pow10((MAX_SCALE - digits) as nat) as int;
    assert(m * (p * u) == (m * p) * u) by (nonlinear_arith);
}

/// What is settled on an amount that a decimal can hold is that amount: a
/// result `q` that is off its target `e` by nothing, or is the target
/// rounded to a digit that it has no room beyond, is `e`, where `e` is a
/// decimal itself. `c` is what a unit of 10^-28 counts for.
pub proof fn lemma_settled_on_a_decimal(c: int, m: int, s: int, em: int, es: int)
    requires
        c != 0,
        in_range(m, s),
        in_range(em, es),
        is_settled(
            c * (units_of(m, s) - units_of(em, es)),
            magnitude(c),
            magnitude(c) * magnitude(units_of(em, es)),
            s,
        ),
    ensures
        units_of(m, s) == units_of(em, es),
{
    let q = units_of(m, s);
    let e = units_of(em, es);
    let off = c * (q - e);
    let base = magnitude(c);
    if off == 0 {
        lemma_product_is_zero(c, q - e);
    } else {
        let digits = choose|digits: int|
            s <= digits <= MAX_SCALE && #[trigger] is_within(off, base, digits) && !has_room(
                base * magnitude(e),
                base,
                digits,
            );
        let unit = pow10((MAX_SCALE - digits) as nat) as int;
        lemma_pow10_positive((MAX_SCALE - digits) as nat);
        lemma_magnitude_of_product(c, q - e);
        assert(2 * magnitude(q - e) <= unit) by (nonlinear_arith)
            requires
                2 * (base * magnitude(q - e)) <= base * unit,
                base > 0,
        ;
        if es > digits {
            // the target has digits beyond, so there would be room for one more
            let finer = pow10((MAX_SCALE - 1 - digits) as nat) as int;
            let least = pow10((MAX_SCALE - es) as nat) as int;
            let between = pow10((es - 1 - digits) as nat) as int;
            lemma_pow10_add((MAX_SCALE - es) as nat, (es - 1 - digits) as nat);
            lemma_pow10_positive((MAX_SCALE - es) as nat);
            lemma_pow10_positive((es - 1 - digits) as nat);
            lemma_magnitude_of_product(em, least);
            assert(magnitude(e) <= MAX_MANTISSA * finer) by (nonlinear_arith)
                requires
                    magnitude(e) == magnitude(em) * least,
                    0 <= magnitude(em) <= MAX_MANTISSA,
                    finer == least * between,
                    least >= 1,
                    between >= 1,
            ;
            assert(2 * (base * magnitude(e)) < (base * (2 * MAX_MANTISSA + 1)) * finer)
                by (nonlinear_arith)
                requires
                    0 <= magnitude(e) <= MAX_MANTISSA * finer,
                    base > 0,
                    finer >= 1,
            ;
            assert(false);
        }
        lemma_units_in_digits(m, s, digits);
        lemma_units_in_digits(em, es, digits);
        let k = m * pow10((digits - s) as nat) - em * pow10((digits - es) as nat);
        assert(q - e == k * unit) by (nonlinear_arith)
            requires
                q == (m * pow10((digits - s) as nat)) * unit,
                e == (em * pow10((digits - es) as nat)) * unit,
                k == m * pow10((digits - s) as nat) - em * pow10((digits - es) as nat),
        ;
        lemma_magnitude_of_product(k, unit);
        assert(k == 0) by (nonlinear_arith)
            requires
                2 * (magnitude(k) * unit) <= unit,
                unit >= 1,
                magnitude(k) == (if k < 0 { -k } else { k }),
        ;
        assert(k * unit == 0) by (nonlinear_arith)
            requires
                k == 0,
        ;
    }
}

/// A quotient that a decimal can hold is had exactly: where the decimal
/// `em / 10^es` times the divisor is the dividend, it is what every quotient
/// is, however it is rounded.
pub proof fn lemma_exact_ratio(dividend: int, divisor: int, m: int, s: int, em: int, es: int)
    requires
        divisor != 0,
        in_range(m, s),
        in_range(em, es),
        divisor * units_of(em, es) == dividend * ONE_UNIT,
        is_rounded_ratio(dividend, divisor, units_of(m, s), s),
    ensures
        units_of(m, s) == units_of(em, es),
{
    let q = units_of(m, s);
    let e = units_of(em, es);
    assert(divisor * q - dividend * ONE_UNIT == divisor * (q - e)) by (nonlinear_arith)
        requires
            divisor * e == dividend * ONE_UNIT,
    ;
    lemma_magnitude_of_product(divisor, e);
    lemma_magnitude_of_product(dividend, ONE_UNIT as int);
    lemma_settled_on_a_decimal(divisor, m, s, em, es);
}

/// A product that a decimal can hold is had exactly: where the decimal
/// `em / 10^es` is the product of `a` and `b`, it is what every product is,
/// however it is rounded.
pub proof fn lemma_exact_product(a: int, b: int, m: int, s: int, em: int, es: int)
    requires
        in_range(m, s),
        in_range(em, es),
        units_of(em, es) * ONE_UNIT == a * b,
        is_rounded_product(a, b, units_of(m, s), s),
    ensures
        units_of(m, s) == units_of(em, es),
{
    let p = units_of(m, s);
    let e = units_of(em, es);
    let unit = ONE_UNIT as int;
    assert(p * unit - a * b == unit * (p - e)) by (nonlinear_arith)
        requires
            e * unit == a * b,
    ;
    lemma_magnitude_of_product(unit, e);
    assert(unit * e == a * b) by (nonlinear_arith)
        requires
            e * unit == a * b,
    ;
    lemma_settled_on_a_decimal(unit, m, s, em, es);
}

/// The number `x` with a sign.
pub open spec fn signed(negative: bool, x: int) -> int {
    if negative {
        -x
    } else {
        x
    }
}

/// Whether twice the distance between two numbers is within a slack. The
/// numbers are given by their signs and what they are without them.
fn close(x_negative: bool, x: &Wide, y_negative: bool, y: &Wide, slack: &Wide) -> (r: bool)
    requires
        x@ <= pow_base(7),
        y@ <= pow_base(7),
        slack@ <= pow_base(7),
    ensures
        r == (2 * magnitude(signed(x_negative, x@) - signed(y_negative, y@)) <= slack@),
{
    x.bounds();
    y.bounds();
    slack.bounds();
    proof {
        lemma_pow_base_values();
        assert(4 * pow_base(7) <= BASE * pow_base(7)) by (nonlinear_arith)
            requires
                pow_base(7) >= 0,
        ;
    }
    if x_negative == y_negative {
        if x.le(y) {
            let twice_x = x.times(2).unwrap();
            let twice_y = y.times(2).unwrap();
            let most = twice_x.plus(slack).unwrap();
            twice_y.le(&most)
        } else {
            let twice_x = x.times(2).unwrap();
            let twice_y = y.times(2).unwrap();
            let most = twice_y.plus(slack).unwrap();
            twice_x.le(&most)
        }
    } else {
        let sum = x.plus(y).unwrap();
        let twice = sum.times(2).unwrap();
        twice.le(slack)
    }
}

/// Whether two numbers are the same. The numbers are given by their signs and
/// what they are without them.
fn same(x_negative: bool, x: &Wide, y_negative: bool, y: &Wide) -> (r: bool)
    ensures
        r == (signed(x_negative, x@) == signed(y_negative, y@)),
{
    x.bounds();
    y.bounds();
    if x_negative == y_negative {
        x.le(y) && y.le(x)
    } else {
        let zero = Wide::new(0);
        x.le(&zero) && y.le(&zero)
    }
}

/// Whether a number of `x` units, counted against `base`, has room for one
/// more digit behind the decimal point than `scale`.
fn room(x: &Wide, base: &Wide, scale: u32) -> (r: bool)
    requires
        scale <= MAX_SCALE,
        x@ <= (MAX_MANTISSA * ONE_UNIT) * (MAX_MANTISSA * ONE_UNIT),
        base@ <= MAX_MANTISSA * ONE_UNIT,
    ensures
        r == has_room(x@, base@, scale as int),
{
    if scale >= MAX_SCALE {
        return false;
    }
    x.bounds();
    base.bounds();
    let factor: u128 = 2 * (MAX_MANTISSA as u128) + 1;
    let last = power_of_ten(MAX_SCALE - 1 - scale);
    let ghost most = MAX_MANTISSA * ONE_UNIT;
    proof {
        lemma_pow_base_values();
        assert(most * most < pow_base(6)) by (nonlinear_arith)
            requires
                0 <= most < pow_base(3),
                pow_base(6) == pow_base(3) * pow_base(3),
        ;
        assert(4 * pow_base(6) <= pow_base(7) && pow_base(7) <= pow_base(8)) by (nonlinear_arith)
            requires
                pow_base(7) == BASE * pow_base(6),
                pow_base(8) == BASE * pow_base(7),
                pow_base(6) >= 0,
        ;
        assert(0 <= base@ * factor <= most * (3 * MAX_MANTISSA)) by (nonlinear_arith)
            requires
                0 <= base@ <= most,
                0 <= factor <= 3 * MAX_MANTISSA,
        ;
        assert(0 <= (base@ * factor) * last <= (most * (3 * MAX_MANTISSA)) * ONE_UNIT)
            by (nonlinear_arith)
            requires
                0 <= base@ * factor <= most * (3 * MAX_MANTISSA),
                0 <= last <= ONE_UNIT,
        ;
        assert((most * (3 * MAX_MANTISSA)) * ONE_UNIT == 3 * (most * most)) by (nonlinear_arith)
            requires
                most == MAX_MANTISSA * ONE_UNIT,
        ;
    }
    let twice = x.times(2).unwrap();
    let bound = base.times(factor).unwrap().times(last).unwrap();
    !bound.le(&twice)
}

/// Whether a result is as near its target as a decimal gets. The result and
/// the target are given by their signs and what they are without them, in
/// units of `base`; `scale` is the number of digits of the result.
fn settled(
    result_negative: bool,
    result: &Wide,
    target_negative: bool,
    target: &Wide,
    base: &Wide,
    scale: u32,
) -> (r: bool)
    requires
        scale <= MAX_SCALE,
        result@ <= (MAX_MANTISSA * ONE_UNIT) * (MAX_MANTISSA * ONE_UNIT),
        target@ <= (MAX_MANTISSA * ONE_UNIT) * (MAX_MANTISSA * ONE_UNIT),
        base@ <= MAX_MANTISSA * ONE_UNIT,
    ensures
        r == is_settled(
            signed(result_negative, result@) - signed(target_negative, target@),
            base@,
            target@,
            scale as int,
        ),
{
    result.bounds();
    target.bounds();
    base.bounds();
    let ghost off = signed(result_negative, result@) - signed(target_negative, target@);
    let ghost most = MAX_MANTISSA * ONE_UNIT;
    proof {
        lemma_pow_base_values();
        assert(most * most < pow_base(6)) by (nonlinear_arith)
            requires
                0 <= most < pow_base(3),
                pow_base(6) == pow_base(3) * pow_base(3),
        ;
        assert(pow_base(6) <= pow_base(7) && pow_base(7) <= pow_base(8)) by (nonlinear_arith)
            requires
                pow_base(7) == BASE * pow_base(6),
                pow_base(8) == BASE * pow_base(7),
                pow_base(6) >= 0,
        ;
        assert(most * ONE_UNIT <= most * most) by (nonlinear_arith)
            requires
                ONE_UNIT <= most,
                most >= 0,
        ;
    }
    if same(result_negative, result, target_negative, target) {
        return true;
    }
    let mut digits: u32 = scale;
    while digits <= MAX_SCALE
        invariant
            scale <= digits <= MAX_SCALE + 1,
            off == signed(result_negative, result@) - signed(target_negative, target@),
            most == MAX_MANTISSA * ONE_UNIT,
            0 <= result@ <= most * most,
            0 <= target@ <= most * most,
            0 <= base@ <= most,
            most * most < pow_base(6),
            pow_base(6) <= pow_base(7) && pow_base(7) <= pow_base(8),
            most * ONE_UNIT <= most * most,
            forall|d: int|
                scale <= d < digits ==> !(#[trigger] is_within(off, base@, d) && !has_room(
                    target@,
                    base@,
                    d,
                )),
        decreases MAX_SCALE + 1 - digits,
    {
        let last = power_of_ten(MAX_SCALE - digits);
        proof {
            assert(0 <= base@ * last <= most * ONE_UNIT) by (nonlinear_arith)
                requires
                    0 <= base@ <= most,
                    0 <= last <= ONE_UNIT,
            ;
        }
        let slack = base.times(last).unwrap();
        let near = close(result_negative, result, target_negative, target, &slack);
        let more = room(target, base, digits);
        if near && !more {
            assert(is_within(off, base@, digits as int));
            return true;
        }
        digits = digits + 1;
    }
    false
}

/// `n` as an `i64`, where it is one.
pub open spec fn as_i64(n: int) -> Option<i64> {
    if i64::MIN <= n <= i64::MAX {
        Some(n as i64)
    } else {
        None
    }
}

impl Amount {
    /// The amount that a computed mantissa and scale stand for, where they
    /// are within their limits.
    pub closed spec fn spec_accept(candidate: Option<(i128, u32)>) -> Option<Amount> {
        match candidate {
            Some((m, s)) => if in_range(m as int, s as int) {
                Some(Amount { mantissa: m, scale: s })
            } else {
                None
            },
            None => None,
        }
    }

    /// The amount that a computed mantissa and scale stand for, where they
    /// are within their limits and the amount is the exact sum of `a` and `b`.
    pub closed spec fn spec_accept_sum(a: Amount, b: Amount, candidate: Option<(i128, u32)>) -> Option<
        Amount,
    > {
        match Self::spec_accept(candidate) {
            Some(c) => if c@ == a@ + b@ {
                Some(c)
            } else {
                None
            },
            None => None,
        }
    }

    /// What [`Amount::checked_add`] returns.
    pub open spec fn spec_checked_add(self, other: Amount) -> Option<Amount> {
        Self::spec_accept_sum(
            self,
            other,
            decimal_sum(
                self.spec_mantissa(),
                self.spec_scale(),
                other.spec_mantissa(),
                other.spec_scale(),
            ),
        )
    }

    /// What [`Amount::checked_sub`] returns.
    pub open spec fn spec_checked_sub(self, other: Amount) -> Option<Amount> {
        self.spec_checked_add(other.spec_neg())
    }

    /// The amount that a computed mantissa and scale stand for, where they
    /// are within their limits and the amount is the product of `a` and `b`,
    /// exact or rounded to as many digits as a decimal can hold.
    pub closed spec fn spec_accept_product(a: Amount, b: Amount, candidate: Option<(i128, u32)>) -> Option<
        Amount,
    > {
        match Self::spec_accept(candidate) {
            Some(c) => if is_rounded_product(a@, b@, c@, c.scale as int) {
                Some(c)
            } else {
                None
            },
            None => None,
        }
    }

    /// The amount that a computed mantissa and scale stand for, where they
    /// are within their limits and the amount is the quotient of `a` by
    /// `b`, exact or rounded to as many digits as a decimal can hold.
    pub closed spec fn spec_accept_quotient(a: Amount, b: Amount, candidate: Option<(i128, u32)>) -> Option<
        Amount,
    > {
        match Self::spec_accept(candidate) {
            Some(c) => if is_rounded_ratio(a@, b@, c@, c.scale as int) {
                Some(c)
            } else {
                None
            },
            None => None,
        }
    }

    /// What [`Amount::checked_mul`] returns.
    pub open spec fn spec_checked_mul(self, other: Amount) -> Option<Amount> {
        Self::spec_accept_product(
            self,
            other,
            decimal_product(
                self.spec_mantissa(),
                self.spec_scale(),
                other.spec_mantissa(),
                other.spec_scale(),
            ),
        )
    }

    /// What [`Amount::checked_div`] returns.
    pub open spec fn spec_checked_div(self, other: Amount) -> Option<Amount> {
        if other@ == 0 {
            None
        } else {
            Self::spec_accept_quotient(
                self,
                other,
                decimal_quotient(
                    self.spec_mantissa(),
                    self.spec_scale(),
                    other.spec_mantissa(),
                    other.spec_scale(),
                ),
            )
        }
    }

    /// What [`Amount::divided_by`] returns.
    pub open spec fn spec_divided_by(self, count: usize) -> Option<Amount> {
        self.spec_checked_div(Self::spec_from_usize(count))
    }

    /// What [`Amount::neg`] returns.
    pub closed spec fn spec_neg(self) -> Amount {
        Amount { mantissa: (-self.mantissa) as i128, scale: self.scale }
    }

    /// A hundred is worth a hundred units.
    pub proof fn lemma_hundred()
        ensures
            Self::spec_hundred()@ == 100 * ONE_UNIT,
            Self::spec_hundred().valid(),
    {
        lemma_pow10_28();
    }

    /// Zero is worth nothing.
    pub proof fn lemma_zero()
        ensures
            Self::spec_zero()@ == 0,
            Self::spec_zero().valid(),
    {
    }

    /// Turning the sign of an amount turns the sign of its value.
    pub proof fn lemma_neg(a: Amount)
        requires
            a.valid(),
        ensures
            a.spec_neg()@ == -a@,
            a.spec_neg().valid(),
    {
        let p = pow10((MAX_SCALE - a.scale) as nat);
        assert((-a.mantissa) * p == -(a.mantissa * p)) by (nonlinear_arith);
    }

    /// Two amounts with the same mantissa and scale are the same amount.
    pub proof fn lemma_same_parts(a: Amount, b: Amount)
        requires
            a.spec_mantissa() == b.spec_mantissa(),
            a.spec_scale() == b.spec_scale(),
        ensures
            a == b,
    {
    }

    /// A checked sum is within the limits and exact.
    pub proof fn lemma_checked_add(a: Amount, b: Amount)
        ensures
            a.spec_checked_add(b) matches Some(c) ==> c.valid() && c@ == a@ + b@,
    {
    }

    /// A sum that was accepted is within the limits and exact.
    pub proof fn lemma_accepted_sum(a: Amount, b: Amount, candidate: Option<(i128, u32)>)
        ensures
            Self::spec_accept_sum(a, b, candidate) matches Some(c) ==> c.valid() && c@ == a@ + b@
                && candidate == Some((c.spec_mantissa(), c.spec_scale())),
            Self::spec_accept_sum(a, b, candidate) is Some <==> (candidate matches Some((m, s))
                && in_range(m as int, s as int) && units_of(m as int, s as int) == a@ + b@),
    {
    }

    /// An amount that was accepted is within the limits.
    pub proof fn lemma_accepted(candidate: Option<(i128, u32)>)
        ensures
            Self::spec_accept(candidate) matches Some(c) ==> c.valid() && candidate == Some(
                (c.spec_mantissa(), c.spec_scale()),
            ),
            Self::spec_accept(candidate) is Some <==> (candidate matches Some((m, s)) && in_range(
                m as int,
                s as int,
            )),
    {
    }

    /// Takes a computed mantissa and scale for an amount where they are
    /// within their limits.
    pub fn accept(candidate: Option<(i128, u32)>) -> (r: Option<Amount>)
        ensures
            r == Self::spec_accept(candidate),
            r is Some <==> (candidate matches Some((m, s)) && in_range(m as int, s as int)),
            r matches Some(c) ==> candidate == Some((c.spec_mantissa(), c.spec_scale())),
    {
        match candidate {
            Some((m, s)) => Amount::new(m, s),
            None => None,
        }
    }

    /// Takes a computed mantissa and scale for the sum of `a` and `b` where
    /// they are within their limits and the amount they stand for is the
    /// exact sum.
    pub fn accept_sum(a: &Amount, b: &Amount, candidate: Option<(i128, u32)>) -> (r: Option<Amount>)
        ensures
            r == Self::spec_accept_sum(*a, *b, candidate),
            r is Some <==> (candidate matches Some((m, s)) && in_range(m as int, s as int)
                && units_of(m as int, s as int) == a@ + b@),
            r matches Some(c) ==> c@ == a@ + b@ && candidate == Some(
                (c.spec_mantissa(), c.spec_scale()),
            ),
    {
        match Amount::accept(candidate) {
            Some(c) => {
                let (whole_a, part_a) = a.parts();
                let (whole_b, part_b) = b.parts();
                let (whole_c, part_c) = c.parts();
                assert((whole_a + whole_b - whole_c) * ONE_UNIT + (part_a + part_b - part_c) == a@
                    + b@ - c@) by (nonlinear_arith)
                    requires
                        a@ == whole_a * ONE_UNIT + part_a,
                        b@ == whole_b * ONE_UNIT + part_b,
                        c@ == whole_c * ONE_UNIT + part_c,
                ;
                if sign_of_parts(whole_a + whole_b - whole_c, part_a + part_b - part_c)
                    == Sign::Zero {
                    Some(c)
                } else {
                    None
                }
            },
            None => None,
        }
    }

    /// The exact sum of the two amounts. The sum is computed by
    /// `rust_decimal` and handed out only where it is exact: nothing is
    /// returned where the crate reports an overflow or had to round.
    pub fn checked_add(&self, other: &Amount) -> (r: Option<Amount>)
        ensures
            r == self.spec_checked_add(*other),
            r matches Some(c) ==> c@ == self@ + other@,
    {
        let candidate = decimal_checked_add(
            self.mantissa(),
            self.scale(),
            other.mantissa(),
            other.scale(),
        );
        Amount::accept_sum(self, other, candidate)
    }

    /// The exact difference of the two amounts, under the conditions of
    /// [`Amount::checked_add`].
    pub fn checked_sub(&self, other: &Amount) -> (r: Option<Amount>)
        ensures
            r == self.spec_checked_sub(*other),
            r matches Some(c) ==> c@ == self@ - other@,
    {
        let minus = other.neg();
        proof {
            Self::lemma_same_parts(minus, other.spec_neg());
        }
        self.checked_add(&minus)
    }

    /// The amount without its sign, counted in units of 10^-28, as a wide
    /// number.
    fn wide_units(&self) -> (r: Wide)
        ensures
            r@ == magnitude(self@),
            r@ <= MAX_MANTISSA * ONE_UNIT,
            self.valid(),
    {
        proof {
            use_type_invariant(self);
            self.lemma_sign();
            lemma_pow_base_values();
        }
        let size: u128 = if self.mantissa < 0 {
            (-self.mantissa) as u128
        } else {
            self.mantissa as u128
        };
        let above = power_of_ten(MAX_SCALE - self.scale);
        proof {
            assert(0 <= size * above <= MAX_MANTISSA * ONE_UNIT) by (nonlinear_arith)
                requires
                    0 <= size <= MAX_MANTISSA,
                    0 <= above <= ONE_UNIT,
            ;
            assert(MAX_MANTISSA * ONE_UNIT < pow_base(3));
            assert(pow_base(3) <= BASE * pow_base(7)) by (nonlinear_arith)
                requires
                    pow_base(7) == BASE * (pow_base(3) * pow_base(3)),
                    pow_base(3) >= 1,
            ;
            if self.mantissa < 0 {
                assert((-self.mantissa) * above == -(self.mantissa * above)) by (nonlinear_arith);
            }
        }
        Wide::new(size).times(above).unwrap()
    }

    /// Whether `product` is the product of this amount and the other: that
    /// exactly, or that rounded to as many digits as a decimal can hold.
    pub fn has_product(&self, other: &Amount, product: &Amount) -> (r: bool)
        ensures
            r == is_rounded_product(self@, other@, product@, product.spec_scale() as int),
    {
        let a = self.wide_units();
        let b = other.wide_units();
        let p = product.wide_units();
        let size_b: u128 = if other.mantissa < 0 {
            (-other.mantissa) as u128
        } else {
            other.mantissa as u128
        };
        let above_b = power_of_ten(MAX_SCALE - other.scale);
        let ghost most = MAX_MANTISSA * ONE_UNIT;
        proof {
            lemma_pow_base_values();
            other.lemma_sign();
            assert(most * most < pow_base(6)) by (nonlinear_arith)
                requires
                    0 <= most < pow_base(3),
                    pow_base(6) == pow_base(3) * pow_base(3),
            ;
            assert(pow_base(6) <= pow_base(7) && pow_base(7) <= pow_base(8)) by (nonlinear_arith)
                requires
                    pow_base(7) == BASE * pow_base(6),
                    pow_base(8) == BASE * pow_base(7),
                    pow_base(6) >= 0,
            ;
            assert(0 <= a@ * size_b <= most * MAX_MANTISSA) by (nonlinear_arith)
                requires
                    0 <= a@ <= most,
                    0 <= size_b <= MAX_MANTISSA,
            ;
            assert(0 <= (a@ * size_b) * above_b <= (most * MAX_MANTISSA) * ONE_UNIT)
                by (nonlinear_arith)
                requires
                    0 <= a@ * size_b <= most * MAX_MANTISSA,
                    0 <= above_b <= ONE_UNIT,
            ;
            assert((most * MAX_MANTISSA) * ONE_UNIT == most * most) by (nonlinear_arith)
                requires
                    most == MAX_MANTISSA * ONE_UNIT,
            ;
            assert(0 <= p@ * ONE_UNIT <= most * ONE_UNIT) by (nonlinear_arith)
                requires
                    0 <= p@ <= most,
            ;
            assert(most * ONE_UNIT <= most * most) by (nonlinear_arith)
                requires
                    ONE_UNIT <= most,
                    most >= 0,
            ;
        }
        let x = p.times(ONE_UNIT).unwrap();
        let y = a.times(size_b).unwrap().times(above_b).unwrap();
        proof {
            product.lemma_sign();
            self.lemma_sign();
            let negative_y = (self.mantissa < 0) != (other.mantissa < 0);
            assert(b@ == size_b * above_b) by {
                if other.mantissa < 0 {
                    assert((-other.mantissa) * above_b == -(other.mantissa * above_b))
                        by (nonlinear_arith);
                }
            }
            assert(y@ == a@ * b@) by (nonlinear_arith)
                requires
                    y@ == (a@ * size_b) * above_b,
                    b@ == size_b * above_b,
            ;
            assert(signed(product.mantissa < 0, x@) == product@ * ONE_UNIT) by (nonlinear_arith)
                requires
                    x@ == magnitude(product@) * ONE_UNIT,
                    product.mantissa < 0 ==> product@ <= 0,
                    product.mantissa >= 0 ==> product@ >= 0,
            ;
            assert(signed(negative_y, y@) == self@ * other@) by (nonlinear_arith)
                requires
                    y@ == magnitude(self@) * magnitude(other@),
                    self.mantissa < 0 ==> self@ <= 0,
                    self.mantissa >= 0 ==> self@ >= 0,
                    other.mantissa < 0 ==> other@ <= 0,
                    other.mantissa >= 0 ==> other@ >= 0,
                    negative_y == ((self.mantissa < 0) != (other.mantissa < 0)),
            ;
        }
        proof {
            assert(y@ == magnitude(self@ * other@));
            assert(y@ <= most * most) by (nonlinear_arith)
                requires
                    y@ == a@ * b@,
                    0 <= a@ <= most,
                    0 <= b@ <= most,
            ;
        }
        let negative = (self.mantissa < 0) != (other.mantissa < 0);
        settled(product.mantissa < 0, &x, negative, &y, &Wide::new(ONE_UNIT), product.scale)
    }

    /// Whether `quotient` is the quotient of this amount by `divisor`: that
    /// exactly, or that rounded to as many digits as a decimal can hold.
    pub fn has_quotient(&self, divisor: &Amount, quotient: &Amount) -> (r: bool)
        ensures
            r == is_rounded_ratio(self@, divisor@, quotient@, quotient.spec_scale() as int),
    {
        let a = self.wide_units();
        let b = divisor.wide_units();
        proof {
            use_type_invariant(quotient);
        }
        let size_q: u128 = if quotient.mantissa < 0 {
            (-quotient.mantissa) as u128
        } else {
            quotient.mantissa as u128
        };
        let last = power_of_ten(MAX_SCALE - quotient.scale);
        let ghost most = MAX_MANTISSA * ONE_UNIT;
        proof {
            lemma_pow_base_values();
            quotient.lemma_sign();
            assert(most * most < pow_base(6)) by (nonlinear_arith)
                requires
                    0 <= most < pow_base(3),
                    pow_base(6) == pow_base(3) * pow_base(3),
            ;
            assert(pow_base(6) <= pow_base(7) && pow_base(7) <= pow_base(8)) by (nonlinear_arith)
                requires
                    pow_base(7) == BASE * pow_base(6),
                    pow_base(8) == BASE * pow_base(7),
                    pow_base(6) >= 0,
            ;
            assert(0 <= a@ * ONE_UNIT <= most * ONE_UNIT) by (nonlinear_arith)
                requires
                    0 <= a@ <= most,
            ;
            assert(most * ONE_UNIT <= most * most) by (nonlinear_arith)
                requires
                    ONE_UNIT <= most,
                    most >= 0,
            ;
            assert(0 <= b@ * size_q <= most * MAX_MANTISSA) by (nonlinear_arith)
                requires
                    0 <= b@ <= most,
                    0 <= size_q <= MAX_MANTISSA,
            ;
            assert(0 <= (b@ * size_q) * last <= (most * MAX_MANTISSA) * ONE_UNIT)
                by (nonlinear_arith)
                requires
                    0 <= b@ * size_q <= most * MAX_MANTISSA,
                    0 <= last <= ONE_UNIT,
            ;
            assert((most * MAX_MANTISSA) * ONE_UNIT == most * most) by (nonlinear_arith)
                requires
                    most == MAX_MANTISSA * ONE_UNIT,
            ;
        }
        let x = a.times(ONE_UNIT).unwrap();
        let y = b.times(size_q).unwrap().times(last).unwrap();
        proof {
            self.lemma_sign();
            divisor.lemma_sign();
            let negative_y = (divisor.mantissa < 0) != (quotient.mantissa < 0);
            assert(magnitude(quotient@) == size_q * last) by {
                if quotient.mantissa < 0 {
                    assert((-quotient.mantissa) * last == -(quotient.mantissa * last))
                        by (nonlinear_arith);
                }
            }
            assert(y@ == b@ * magnitude(quotient@)) by (nonlinear_arith)
                requires
                    y@ == (b@ * size_q) * last,
                    magnitude(quotient@) == size_q * last,
            ;
            assert(signed(self.mantissa < 0, x@) == self@ * ONE_UNIT) by (nonlinear_arith)
                requires
                    x@ == magnitude(self@) * ONE_UNIT,
                    self.mantissa < 0 ==> self@ <= 0,
                    self.mantissa >= 0 ==> self@ >= 0,
            ;
            assert(signed(negative_y, y@) == divisor@ * quotient@) by (nonlinear_arith)
                requires
                    y@ == magnitude(divisor@) * magnitude(quotient@),
                    divisor.mantissa < 0 ==> divisor@ <= 0,
                    divisor.mantissa >= 0 ==> divisor@ >= 0,
                    quotient.mantissa < 0 ==> quotient@ <= 0,
                    quotient.mantissa >= 0 ==> quotient@ >= 0,
                    negative_y == ((divisor.mantissa < 0) != (quotient.mantissa < 0)),
            ;
        }
        let negative = (divisor.mantissa < 0) != (quotient.mantissa < 0);
        settled(negative, &y, self.mantissa < 0, &x, &b, quotient.scale)
    }

    /// Takes a computed mantissa and scale for the product of `a` and `b`
    /// where they are within their limits and the amount they stand for is
    /// the product, exact or rounded to as many digits as a decimal can
    /// hold.
    pub fn accept_product(a: &Amount, b: &Amount, candidate: Option<(i128, u32)>) -> (r: Option<
        Amount,
    >)
        ensures
            r == Self::spec_accept_product(*a, *b, candidate),
            r is Some <==> (candidate matches Some((m, s)) && in_range(m as int, s as int)
                && is_rounded_product(a@, b@, units_of(m as int, s as int), s as int)),
            r matches Some(c) ==> is_rounded_product(a@, b@, c@, c.spec_scale() as int)
                && candidate == Some((c.spec_mantissa(), c.spec_scale())),
    {
        match Amount::accept(candidate) {
            Some(c) => if a.has_product(b, &c) {
                Some(c)
            } else {
                None
            },
            None => None,
        }
    }

    /// Takes a computed mantissa and scale for the quotient of `a` by `b`
    /// where they are within their limits and the amount they stand for is
    /// the quotient, exact or rounded to as many digits as a decimal can
    /// hold.
    pub fn accept_quotient(a: &Amount, b: &Amount, candidate: Option<(i128, u32)>) -> (r: Option<
        Amount,
    >)
        ensures
            r == Self::spec_accept_quotient(*a, *b, candidate),
            r is Some <==> (candidate matches Some((m, s)) && in_range(m as int, s as int)
                && is_rounded_ratio(a@, b@, units_of(m as int, s as int), s as int)),
            r matches Some(c) ==> is_rounded_ratio(a@, b@, c@, c.spec_scale() as int)
                && candidate == Some((c.spec_mantissa(), c.spec_scale())),
    {
        match Amount::accept(candidate) {
            Some(c) => if a.has_quotient(b, &c) {
                Some(c)
            } else {
                None
            },
            None => None,
        }
    }

    /// The product of the two amounts, exact or rounded to as many digits
    /// as a decimal can hold. The product is computed by `rust_decimal`
    /// and handed out only where it is that: nothing is returned where the
    /// crate reports an overflow or answers otherwise.
    pub fn checked_mul(&self, other: &Amount) -> (r: Option<Amount>)
        ensures
            r == self.spec_checked_mul(*other),
            r matches Some(p) ==> is_rounded_product(self@, other@, p@, p.spec_scale() as int),
    {
        let candidate = decimal_checked_mul(
            self.mantissa(),
            self.scale(),
            other.mantissa(),
            other.scale(),
        );
        Amount::accept_product(self, other, candidate)
    }

    /// The quotient of this amount by the other, exact or rounded to as
    /// many digits as a decimal can hold. The quotient is computed by
    /// `rust_decimal` and handed out only where it is that: nothing is
    /// returned where the divisor is zero, nor where the crate reports an
    /// overflow or answers otherwise.
    pub fn checked_div(&self, other: &Amount) -> (r: Option<Amount>)
        ensures
            r == self.spec_checked_div(*other),
            r matches Some(q) ==> is_rounded_ratio(self@, other@, q@, q.spec_scale() as int),
            other@ == 0 ==> r is None,
    {
        if other.is_zero() {
            return None;
        }
        let candidate = decimal_checked_div(
            self.mantissa(),
            self.scale(),
            other.mantissa(),
            other.scale(),
        );
        Amount::accept_quotient(self, other, candidate)
    }

    /// A quotient by a whole number is off by no more than the number times
    /// half a unit of its last digit.
    pub proof fn lemma_quotient_by_count(dividend: int, count: int, quotient: int, scale: int)
        requires
            count >= 0,
            0 <= scale <= MAX_SCALE,
            is_rounded_quotient(dividend, count, quotient, scale),
        ensures
            -(count * pow10((MAX_SCALE - scale) as nat)) <= 2 * (dividend - count * quotient)
                <= count * pow10((MAX_SCALE - scale) as nat),
    {
        let last = pow10((MAX_SCALE - scale) as nat) as int;
        let off = count * quotient - dividend;
        let wide_off = (count * ONE_UNIT) * quotient - dividend * ONE_UNIT;
        let base = magnitude(count * ONE_UNIT);
        assert(wide_off == off * ONE_UNIT) by (nonlinear_arith)
            requires
                off == count * quotient - dividend,
                wide_off == (count * ONE_UNIT) * quotient - dividend * ONE_UNIT,
        ;
        assert(base == count * ONE_UNIT) by (nonlinear_arith)
            requires
                base == magnitude(count * ONE_UNIT),
                count >= 0,
        ;
        lemma_pow10_positive((MAX_SCALE - scale) as nat);
        if wide_off == 0 {
            assert(off == 0) by (nonlinear_arith)
                requires
                    off * ONE_UNIT == 0,
            ;
            assert(count * last >= 0) by (nonlinear_arith)
                requires
                    count >= 0,
                    last >= 1,
            ;
        } else {
            let digits = choose|digits: int|
                scale <= digits <= MAX_SCALE && #[trigger] is_within(wide_off, base, digits);
            let finer = pow10((MAX_SCALE - digits) as nat) as int;
            lemma_pow10_add((MAX_SCALE - digits) as nat, (digits - scale) as nat);
            lemma_pow10_positive((digits - scale) as nat);
            lemma_pow10_positive((MAX_SCALE - digits) as nat);
            let rest = pow10((digits - scale) as nat) as int;
            assert(finer <= last) by (nonlinear_arith)
                requires
                    last == finer * rest,
                    rest >= 1,
                    finer >= 1,
            ;
            assert(base * finer <= (count * last) * ONE_UNIT) by (nonlinear_arith)
                requires
                    base == count * ONE_UNIT,
                    0 <= finer <= last,
                    count >= 0,
            ;
            assert(magnitude(wide_off) == magnitude(off) * ONE_UNIT) by (nonlinear_arith)
                requires
                    wide_off == off * ONE_UNIT,
            ;
            assert(2 * magnitude(off) <= count * last) by (nonlinear_arith)
                requires
                    2 * (magnitude(off) * ONE_UNIT) <= (count * last) * ONE_UNIT,
            ;
        }
    }

    /// What is had as a product is within the limits and is the rounded
    /// product.
    pub proof fn lemma_checked_mul(a: Amount, b: Amount)
        ensures
            a.spec_checked_mul(b) matches Some(p) ==> p.valid() && is_rounded_product(
                a@,
                b@,
                p@,
                p.spec_scale() as int,
            ),
    {
    }

    /// What is had as a quotient is within the limits and is the rounded
    /// quotient.
    pub proof fn lemma_checked_div(a: Amount, b: Amount)
        ensures
            a.spec_checked_div(b) matches Some(q) ==> q.valid() && b@ != 0 && is_rounded_ratio(
                a@,
                b@,
                q@,
                q.spec_scale() as int,
            ),
    {
    }

    /// What is had as the quotient by a whole number is the rounded quotient.
    pub proof fn lemma_divided_by(self, count: usize)
        ensures
            self.spec_divided_by(count) matches Some(q) ==> q.valid() && is_rounded_quotient(
                self@,
                count as int,
                q@,
                q.spec_scale() as int,
            ),
    {
        lemma_pow10_28();
    }

    /// The quotient of this amount by `count`, exact or rounded to as many
    /// digits as a decimal can hold, under the conditions of
    /// [`Amount::checked_div`].
    pub fn divided_by(&self, count: usize) -> (r: Option<Amount>)
        ensures
            r == self.spec_divided_by(count),
            r matches Some(q) ==> is_rounded_quotient(
                self@,
                count as int,
                q@,
                q.spec_scale() as int,
            ),
            count == 0 ==> r is None,
    {
        let divisor = Amount::from_usize(count);
        self.checked_div(&divisor)
    }

    /// What [`Amount::to_text`] returns: the text that `rust_decimal`
    /// writes for the amount, with zeros behind it where more than 28
    /// digits are asked for.
    pub open spec fn spec_text(self, precision: usize) -> Seq<char> {
        if precision <= MAX_SCALE {
            decimal_text(self.spec_mantissa(), self.spec_scale(), precision)
        } else {
            decimal_text(self.spec_mantissa(), self.spec_scale(), MAX_SCALE as usize) + Seq::new(
                (precision - MAX_SCALE) as nat,
                |i: int| '0',
            )
        }
    }

    /// The digits behind the decimal point that `rust_decimal` writes itself
    /// where `precision` are asked for: at most 28.
    pub open spec fn written(precision: usize) -> usize {
        if precision <= MAX_SCALE {
            precision
        } else {
            MAX_SCALE as usize
        }
    }

    /// Whether the amount can be written with `precision` digits behind the
    /// decimal point: `rust_decimal` has room for 32 characters, which are
    /// the digits before the point, the point, and the digits behind it, of
    /// which it writes at most 28 itself.
    pub open spec fn spec_text_fits(self, precision: usize) -> bool {
        text_fits(self.spec_mantissa(), self.spec_scale(), Self::written(precision))
    }

    /// Whether the amount can be written with `precision` digits behind the
    /// decimal point.
    pub fn text_fits(&self, precision: usize) -> (r: bool)
        ensures
            r == self.spec_text_fits(precision),
    {
        proof {
            use_type_invariant(self);
        }
        let size: u128 = if self.mantissa < 0 {
            (-self.mantissa) as u128
        } else {
            self.mantissa as u128
        };
        let whole: u128 = size / power_of_ten(self.scale);
        let mut rest: u128 = whole;
        let mut digits: usize = 1;
        assert(rest * pow10(0) <= whole) by (nonlinear_arith)
            requires
                rest == whole,
                pow10(0) == 1,
        ;
        while rest >= 10
            invariant
                1 <= digits <= 40,
                rest <= whole,
                rest * pow10((digits - 1) as nat) <= whole,
                decimal_digits(whole as nat) == digits - 1 + decimal_digits(rest as nat),
            decreases rest,
        {
            proof {
                let p = pow10((digits - 1) as nat);
                lemma_pow10_positive((digits - 1) as nat);
                assert(pow10(digits as nat) == 10 * p);
                assert((rest / 10) * (10 * p) <= rest * p) by (nonlinear_arith)
                    requires
                        (rest / 10) * 10 <= rest,
                        p >= 0,
                ;
                assert(10 * p <= rest * p) by (nonlinear_arith)
                    requires
                        rest >= 10,
                        p >= 0,
                ;
                lemma_digits_of_u128(digits as nat);
            }
            rest = rest / 10;
            digits = digits + 1;
        }
        let written: usize = if precision <= MAX_SCALE as usize {
            precision
        } else {
            MAX_SCALE as usize
        };
        digits + 1 + written <= TEXT_ROOM
    }

    /// The amount as text, with `precision` digits behind the decimal point,
    /// as `rust_decimal` writes it. There is none where the amount cannot be
    /// written so.
    pub fn to_text(&self, precision: usize) -> (r: Option<String>)
        ensures
            r is Some <==> self.spec_text_fits(precision),
            r matches Some(text) ==> text@ == self.spec_text(precision),
    {
        if !self.text_fits(precision) {
            return None;
        }
        if precision <= MAX_SCALE as usize {
            Some(decimal_format(self.mantissa(), self.scale(), precision))
        } else {
            let mut text = decimal_format(self.mantissa(), self.scale(), MAX_SCALE as usize);
            let ghost digits = text@;
            let more = precision - MAX_SCALE as usize;
            let mut i: usize = 0;
            assert(text@ == digits + Seq::new(0, |i: int| '0'));
            while i < more
                invariant
                    i <= more,
                    text@ == digits + Seq::new(i as nat, |i: int| '0'),
                decreases more - i,
            {
                proof {
                    reveal_strlit("0");
                    assert("0"@ == seq!['0']);
                    assert(Seq::new(i as nat, |i: int| '0') + seq!['0'] == Seq::new(
                        (i + 1) as nat,
                        |i: int| '0',
                    ));
                }
                text.append("0");
                i = i + 1;
            }
            Some(text)
        }
    }

    /// The largest whole number that is not above the amount, where it is an
    /// `i64`.
    pub fn floor_i64(&self) -> (r: Option<i64>)
        ensures
            r == as_i64(self@ / (ONE_UNIT as int)),
    {
        let (whole, part) = self.parts();
        let floor: i128 = if part < 0 {
            whole - 1
        } else {
            whole
        };
        proof {
            let rest: int = if part < 0 {
                part + ONE_UNIT
            } else {
                part as int
            };
            assert(self@ == floor * ONE_UNIT + rest) by (nonlinear_arith)
                requires
                    self@ == whole * ONE_UNIT + part,
                    part < 0 ==> floor == whole - 1 && rest == part + ONE_UNIT,
                    part >= 0 ==> floor == whole && rest == part,
            ;
            lemma_fundamental_div_mod_converse_div(
                self@,
                ONE_UNIT as int,
                floor as int,
                rest,
            );
        }
        if floor < i64::MIN as i128 || floor > i64::MAX as i128 {
            None
        } else {
            Some(floor as i64)
        }
    }

    /// The amount as a key to sort by: the largest whole number that is not
    /// above it, or the nearest `i64` where that is none.
    pub fn floor_key(&self) -> (r: i64)
        ensures
            r == nearest_i64(self@ / (ONE_UNIT as int)),
    {
        match self.floor_i64() {
            Some(k) => k,
            None => if self.is_negative() {
                i64::MIN
            } else {
                i64::MAX
            },
        }
    }

    /// The amount as a key to sort by: the nearest whole number, a half
    /// going to the even neighbour, or the nearest `i64` where that is none.
    pub fn round_key(&self) -> (r: i64)
        ensures
            r == nearest_i64(round_half_even(self@)),
    {
        match self.round_i64() {
            Some(k) => k,
            None => if self.is_negative() {
                i64::MIN
            } else {
                i64::MAX
            },
        }
    }

    /// The nearest whole number, a half going to the even neighbour, where
    /// it is an `i64`.
    pub fn round_i64(&self) -> (r: Option<i64>)
        ensures
            r == as_i64(round_half_even(self@)),
    {
        let (whole, part) = self.parts();
        let (floor, rest): (i128, i128) = if part < 0 {
            (whole - 1, part + ONE_UNIT as i128)
        } else {
            (whole, part)
        };
        proof {
            assert(self@ == floor * ONE_UNIT + rest) by (nonlinear_arith)
                requires
                    self@ == whole * ONE_UNIT + part,
                    part < 0 ==> floor == whole - 1 && rest == part + ONE_UNIT,
                    part >= 0 ==> floor == whole && rest == part,
            ;
            lemma_fundamental_div_mod_converse_div(
                self@,
                ONE_UNIT as int,
                floor as int,
                rest as int,
            );
            lemma_fundamental_div_mod_converse_mod(
                self@,
                ONE_UNIT as int,
                floor as int,
                rest as int,
            );
        }
        let half: i128 = (ONE_UNIT / 2) as i128;
        let rounded: i128 = if rest < half {
            floor
        } else if rest > half {
            floor + 1
        } else if floor % 2 == 0 {
            floor
        } else {
            floor + 1
        };
        if rounded < i64::MIN as i128 || rounded > i64::MAX as i128 {
            None
        } else {
            Some(rounded as i64)
        }
    }
}

impl Default for Amount {
    fn default() -> (r: Amount)
        ensures
            r == Amount::spec_zero(),
            r@ == 0,
    {
        Amount::zero()
    }
}

/// Two amounts are equal where they are the same number: 1.5 equals 1.50.
impl PartialEq for Amount {
    fn eq(&self, other: &Amount) -> (r: bool) {
        self.same_value(other)
    }
}

impl vstd::std_specs::cmp::PartialEqSpecImpl for Amount {
    open spec fn obeys_eq_spec() -> bool {
        true
    }

    open spec fn eq_spec(&self, other: &Amount) -> bool {
        self@ == other@
    }
}

/// The value of an amount that may be absent.
pub open spec fn option_value(amount: Option<Amount>) -> Option<int> {
    match amount {
        Some(a) => Some(a@),
        None => None,
    }
}

/// Whether two amounts that may be absent are both absent or the same number.
pub fn same_option(a: &Option<Amount>, b: &Option<Amount>) -> (r: bool)
    ensures
        r == (option_value(*a) == option_value(*b)),
{
    match (a, b) {
        (Some(x), Some(y)) => x.same_value(y),
        (None, None) => true,
        _ => false,
    }
}

/// The values of a sequence of amounts.
pub open spec fn values(amounts: Seq<Amount>) -> Seq<int> {
    Seq::new(amounts.len(), |i: int| amounts[i]@)
}

/// The sum of a sequence of numbers.
pub open spec fn total_value(numbers: Seq<int>) -> int
    decreases numbers.len(),
{
    if numbers.len() == 0 {
        0
    } else {
        total_value(numbers.drop_last()) + numbers.last()
    }
}

/// The sum of two sequences that are joined is the sum of their sums.
pub proof fn lemma_total_value_add(a: Seq<int>, b: Seq<int>)
    ensures
        total_value(a + b) == total_value(a) + total_value(b),
    decreases b.len(),
{
    if b.len() == 0 {
        assert(a + b == a);
    } else {
        assert((a + b).drop_last() == a + b.drop_last());
        lemma_total_value_add(a, b.drop_last());
    }
}

/// What [`sum`] returns: the amounts added up from the left, starting from
/// zero, as long as every sum on the way is exact.
pub open spec fn checked_sum(amounts: Seq<Amount>) -> Option<Amount>
    decreases amounts.len(),
{
    if amounts.len() == 0 {
        Some(Amount::spec_zero())
    } else {
        match checked_sum(amounts.drop_last()) {
            Some(before) => before.spec_checked_add(amounts.last()),
            None => None,
        }
    }
}

/// A checked sum is the sum of the values.
pub proof fn lemma_checked_sum(amounts: Seq<Amount>)
    ensures
        checked_sum(amounts) matches Some(t) ==> t.valid() && t@ == total_value(values(amounts)),
    decreases amounts.len(),
{
    if amounts.len() == 0 {
        Amount::lemma_zero();
    } else {
        lemma_checked_sum(amounts.drop_last());
        assert(values(amounts).drop_last() == values(amounts.drop_last()));
        match checked_sum(amounts.drop_last()) {
            Some(before) => {
                Amount::lemma_checked_add(before, amounts.last());
            },
            None => {},
        }
    }
}

/// The sum of the amounts, added up from the left. Nothing is returned where
/// a sum on the way is not exact.
pub fn sum(amounts: &Vec<Amount>) -> (r: Option<Amount>)
    ensures
        r == checked_sum(amounts@),
        r matches Some(t) ==> t@ == total_value(values(amounts@)),
{
    let mut total: Option<Amount> = Some(Amount::zero());
    let n = amounts.len();
    let mut i: usize = 0;
    assert(amounts@.take(0) == Seq::<Amount>::empty());
    while i < n
        invariant
            n == amounts.len(),
            i <= n,
            total == checked_sum(amounts@.take(i as int)),
        decreases n - i,
    {
        proof {
            assert(amounts@.take(i + 1).drop_last() == amounts@.take(i as int));
        }
        total =
        match total {
            Some(before) => before.checked_add(&amounts[i]),
            None => None,
        };
        i = i + 1;
    }
    proof {
        assert(amounts@.take(n as int) == amounts@);
        lemma_checked_sum(amounts@);
    }
    total
}

} // verus!
