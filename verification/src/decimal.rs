//! Exact decimal amounts, carried by `bigdecimal::BigDecimal`.
//!
//! The arithmetic is done by the `bigdecimal` crate. What this module assumes
//! of it is written on the private functions at the end of the file, one for
//! each operation; everything else is proved from those statements.
//!
//! An amount keeps its scale within the limits of a stored `NUMERIC`: at most
//! 16383 digits behind the decimal point and 131072 before it. Within these
//! limits every sum and difference can be computed.

use bigdecimal::BigDecimal;
use bigdecimal::FromPrimitive;
use bigdecimal::One;
use bigdecimal::Zero;
use vstd::prelude::*;
use crate::number::{lemma_from_parts, pow10, Number};

verus! {

/// `bigdecimal::BigDecimal`, taken as a value whose inside is not looked into.
#[verifier::external_type_specification]
#[verifier::external_body]
pub struct ExBigDecimal(bigdecimal::BigDecimal);

/// The unscaled integer that a `BigDecimal` stores.
pub uninterp spec fn decimal_digits(d: BigDecimal) -> int;

/// The scale that a `BigDecimal` stores: the number it denotes is
/// `decimal_digits(d) * 10^-decimal_scale(d)`.
pub uninterp spec fn decimal_scale(d: BigDecimal) -> int;

/// What `BigDecimal`'s `Display` prints for the given digits and scale.
pub uninterp spec fn decimal_text(digits: int, scale: int) -> Seq<char>;

/// What `BigDecimal::from_str` reads from a text: the digits and the scale of
/// the decimal, or `None` where the text is not a decimal number.
pub uninterp spec fn parsed_decimal(text: Seq<char>) -> Option<(int, int)>;

/// The most digits that an amount may have behind the decimal point.
pub const MAX_SCALE: i64 = 16383;

/// The least scale of an amount: the most powers of ten that it may be
/// written short of.
pub const MIN_SCALE: i64 = -131072;

/// The scale lies within the limits of an amount.
pub open spec fn scale_within_limits(scale: int) -> bool {
    MIN_SCALE <= scale <= MAX_SCALE
}

/// `scale` is neither less than both of `a` and `b` nor more than both.
pub open spec fn scale_between(scale: int, a: int, b: int) -> bool {
    (a <= scale || b <= scale) && (scale <= a || scale <= b)
}

/// The number that a `BigDecimal` denotes.
pub open spec fn number_of(d: BigDecimal) -> Number {
    Number::from_parts(decimal_digits(d), decimal_scale(d))
}

/// An exact decimal amount of any size and precision.
#[derive(Debug)]
pub struct Decimal {
    inner: BigDecimal,
}

impl View for Decimal {
    type V = Number;

    /// The number the amount denotes, in canonical form.
    open spec fn view(&self) -> Number {
        Number::from_parts(self.digits(), self.scale())
    }
}

impl Decimal {
    /// The scale of every amount lies within the limits.
    #[verifier::type_invariant]
    spec fn within_limits(&self) -> bool {
        scale_within_limits(decimal_scale(self.inner))
    }

    /// The unscaled digits as stored.
    pub closed spec fn digits(&self) -> int {
        decimal_digits(self.inner)
    }

    /// The scale as stored. Amounts that denote the same number may differ in
    /// scale, and are then printed differently.
    pub closed spec fn scale(&self) -> int {
        decimal_scale(self.inner)
    }

    /// The text that [`Decimal::to_text`] gives.
    pub open spec fn text(&self) -> Seq<char> {
        decimal_text(self.digits(), self.scale())
    }

    /// The view of every amount is canonical, so equal views mean equal numbers.
    pub proof fn lemma_view_canonical(&self)
        ensures
            self@.canonical(),
    {
        lemma_from_parts(self.digits(), self.scale());
    }

    /// The amount that a `BigDecimal` holds; `None` where its scale lies
    /// outside the limits of an amount.
    pub fn from_big(value: BigDecimal) -> (r: Option<Decimal>)
        ensures
            match r {
                Some(d) => d.digits() == decimal_digits(value) && d.scale() == decimal_scale(value)
                    && d@ == number_of(value) && scale_within_limits(d.scale()),
                None => !scale_within_limits(decimal_scale(value)),
            },
    {
        let scale = big_scale(&value);
        if MIN_SCALE <= scale && scale <= MAX_SCALE {
            Some(Decimal { inner: value })
        } else {
            None
        }
    }

    /// The `BigDecimal` that holds the amount.
    pub fn into_big(self) -> (r: BigDecimal)
        ensures
            decimal_digits(r) == self.digits(),
            decimal_scale(r) == self.scale(),
            number_of(r) == self@,
    {
        self.inner
    }

    /// The amount zero.
    pub fn zero() -> (r: Decimal)
        ensures
            r@ == Number::zero(),
            r.digits() == 0,
            r.scale() == 0,
    {
        Decimal { inner: big_zero() }
    }

    /// The amount one.
    pub fn one() -> (r: Decimal)
        ensures
            r@ == Number::from_int(1),
            r.digits() == 1,
            r.scale() == 0,
    {
        let r = Decimal { inner: big_one() };
        proof {
            assert(pow10(0) == 1);
        }
        r
    }

    /// The whole number `n` as an amount.
    pub fn from_i32(n: i32) -> (r: Option<Decimal>)
        ensures
            match r {
                Some(d) => d@ == Number::from_int(n as int) && d.digits() == n && d.scale() == 0,
                None => false,
            },
    {
        let big = big_from_i32(n)?;
        proof {
            assert(pow10(0) == 1);
            assert(n * 1 == n);
        }
        Some(Decimal { inner: big })
    }

    /// Reads a decimal number from its text; `None` where the text spells no
    /// decimal number, or one whose scale lies outside the limits of an
    /// amount.
    pub fn parse(text: &str) -> (r: Option<Decimal>)
        ensures
            match r {
                Some(d) => parsed_decimal(text@) == Some((d.digits(), d.scale()))
                    && scale_within_limits(d.scale()),
                None => match parsed_decimal(text@) {
                    Some(parts) => !scale_within_limits(parts.1),
                    None => true,
                },
            },
    {
        match big_parse(text) {
            Some(big) => Decimal::from_big(big),
            None => None,
        }
    }

    /// The text of the amount, as `bigdecimal` prints it.
    pub fn to_text(&self) -> (r: String)
        ensures
            r@ == self.text(),
    {
        big_to_string(&self.inner)
    }

    /// The exact sum of the two amounts.
    pub fn plus(self, other: &Decimal) -> (r: Decimal)
        ensures
            r@ == self@.plus(other@),
    {
        proof {
            use_type_invariant(&self);
            use_type_invariant(other);
        }
        Decimal { inner: big_add(self.inner, &other.inner) }
    }

    /// Adds `other` to the amount, exactly.
    pub fn add_assign(&mut self, other: Decimal)
        ensures
            final(self)@ == old(self)@.plus(other@),
    {
        proof {
            use_type_invariant(&*self);
            use_type_invariant(&other);
        }
        let mut sum = big_zero();
        core::mem::swap(&mut self.inner, &mut sum);
        big_add_assign(&mut sum, other.inner);
        self.inner = sum;
    }

    /// Adds `other` to the amount, exactly.
    pub fn add_assign_ref(&mut self, other: &Decimal)
        ensures
            final(self)@ == old(self)@.plus(other@),
    {
        proof {
            use_type_invariant(&*self);
            use_type_invariant(other);
        }
        let mut sum = big_zero();
        core::mem::swap(&mut self.inner, &mut sum);
        big_add_assign_ref(&mut sum, &other.inner);
        self.inner = sum;
    }

    /// Subtracts `other` from the amount, exactly.
    pub fn sub_assign_ref(&mut self, other: &Decimal)
        ensures
            final(self)@ == old(self)@.minus(other@),
    {
        proof {
            use_type_invariant(&*self);
            use_type_invariant(other);
        }
        let mut difference = big_zero();
        core::mem::swap(&mut self.inner, &mut difference);
        big_sub_assign_ref(&mut difference, &other.inner);
        self.inner = difference;
    }

    /// The exact product of the amount and a whole number.
    pub fn times(&self, factor: i32) -> (r: Decimal)
        ensures
            r@ == self@.times(factor as int),
    {
        proof {
            use_type_invariant(self);
        }
        Decimal { inner: big_times(&self.inner, factor) }
    }

    /// Whether the amount is strictly smaller than `other`.
    pub fn lt(&self, other: &Decimal) -> (r: bool)
        ensures
            r == self@.lt(other@),
    {
        big_lt(&self.inner, &other.inner)
    }

    /// Whether the amount is at most `other`.
    pub fn le(&self, other: &Decimal) -> (r: bool)
        ensures
            r == self@.le(other@),
    {
        big_le(&self.inner, &other.inner)
    }

    /// Whether both amounts denote the same number, whatever their scales.
    pub fn same(&self, other: &Decimal) -> (r: bool)
        ensures
            r == (self@ == other@),
    {
        big_eq(&self.inner, &other.inner)
    }

    /// Whether the amount is zero.
    pub fn is_zero(&self) -> (r: bool)
        ensures
            r == self@.is_zero(),
    {
        proof {
            lemma_from_parts(self.digits(), self.scale());
        }
        big_is_zero(&self.inner)
    }

    /// The smaller of two amounts; `self` when they denote the same number.
    pub fn min(self, other: Decimal) -> (r: Decimal)
        ensures
            r@ == self@.min(other@),
            r == (if self@.le(other@) {
                self
            } else {
                other
            }),
    {
        if self.le(&other) {
            self
        } else {
            other
        }
    }
}

impl Clone for Decimal {
    fn clone(&self) -> (r: Decimal)
        ensures
            r == *self,
    {
        proof {
            use_type_invariant(self);
        }
        Decimal { inner: big_clone(&self.inner) }
    }
}

/// `BigDecimal::zero()`: the digits 0 with scale 0.
#[verifier::external_body]
fn big_zero() -> (r: BigDecimal)
    ensures
        decimal_digits(r) == 0,
        decimal_scale(r) == 0,
{
    BigDecimal::zero()
}

/// `BigDecimal::one()`: the digits 1 with scale 0.
#[verifier::external_body]
fn big_one() -> (r: BigDecimal)
    ensures
        decimal_digits(r) == 1,
        decimal_scale(r) == 0,
{
    BigDecimal::one()
}

/// `BigDecimal::from_i32`: always succeeds, with the digits `n` and scale 0.
#[verifier::external_body]
fn big_from_i32(n: i32) -> (r: Option<BigDecimal>)
    ensures
        match r {
            Some(d) => decimal_digits(d) == n && decimal_scale(d) == 0,
            None => false,
        },
{
    BigDecimal::from_i32(n)
}

/// `BigDecimal::from_str`: the decimal that the text spells, if it spells one.
#[verifier::external_body]
fn big_parse(text: &str) -> (r: Option<BigDecimal>)
    ensures
        match r {
            Some(d) => parsed_decimal(text@) == Some((decimal_digits(d), decimal_scale(d))),
            None => parsed_decimal(text@) is None,
        },
{
    text.parse::<BigDecimal>().ok()
}

/// `BigDecimal`'s `Display`, through `to_string`.
#[verifier::external_body]
fn big_to_string(d: &BigDecimal) -> (r: String)
    ensures
        r@ == decimal_text(decimal_digits(*d), decimal_scale(*d)),
{
    d.to_string()
}

/// `BigDecimal`'s `Clone`: a copy that is equal to what was copied.
#[verifier::external_body]
fn big_clone(d: &BigDecimal) -> (r: BigDecimal)
    ensures
        r == *d,
{
    d.clone()
}

/// `BigDecimal::fractional_digit_count`: the scale as stored.
#[verifier::external_body]
fn big_scale(d: &BigDecimal) -> (r: i64)
    ensures
        r == decimal_scale(*d),
{
    d.fractional_digit_count()
}

/// `BigDecimal + &BigDecimal`: the exact sum, stored with the scale of one
/// of the two or a scale in between. The scales are to lie within the
/// limits: the operands are brought to one scale, which takes memory in
/// proportion to how far the scales are apart.
#[verifier::external_body]
fn big_add(a: BigDecimal, b: &BigDecimal) -> (r: BigDecimal)
    requires
        scale_within_limits(decimal_scale(a)),
        scale_within_limits(decimal_scale(*b)),
    ensures
        number_of(r) == number_of(a).plus(number_of(*b)),
        scale_between(decimal_scale(r), decimal_scale(a), decimal_scale(*b)),
{
    a + b
}

/// `BigDecimal += BigDecimal`: the exact sum, stored with the scale of one
/// of the two or a scale in between. The scales are to lie within the limits.
#[verifier::external_body]
fn big_add_assign(a: &mut BigDecimal, b: BigDecimal)
    requires
        scale_within_limits(decimal_scale(*old(a))),
        scale_within_limits(decimal_scale(b)),
    ensures
        number_of(*final(a)) == number_of(*old(a)).plus(number_of(b)),
        scale_between(decimal_scale(*final(a)), decimal_scale(*old(a)), decimal_scale(b)),
{
    *a += b;
}

/// `BigDecimal += &BigDecimal`: the exact sum, stored with the scale of one
/// of the two or a scale in between. The scales are to lie within the limits.
#[verifier::external_body]
fn big_add_assign_ref(a: &mut BigDecimal, b: &BigDecimal)
    requires
        scale_within_limits(decimal_scale(*old(a))),
        scale_within_limits(decimal_scale(*b)),
    ensures
        number_of(*final(a)) == number_of(*old(a)).plus(number_of(*b)),
        scale_between(decimal_scale(*final(a)), decimal_scale(*old(a)), decimal_scale(*b)),
{
    *a += b;
}

/// `BigDecimal -= &BigDecimal`: the exact difference, stored with the scale
/// of one of the two or a scale in between. The scales are to lie within the
/// limits.
#[verifier::external_body]
fn big_sub_assign_ref(a: &mut BigDecimal, b: &BigDecimal)
    requires
        scale_within_limits(decimal_scale(*old(a))),
        scale_within_limits(decimal_scale(*b)),
    ensures
        number_of(*final(a)) == number_of(*old(a)).minus(number_of(*b)),
        scale_between(decimal_scale(*final(a)), decimal_scale(*old(a)), decimal_scale(*b)),
{
    *a -= b;
}

/// `&BigDecimal * i32`: the exact product, stored with the scale of the
/// decimal.
#[verifier::external_body]
fn big_times(a: &BigDecimal, factor: i32) -> (r: BigDecimal)
    ensures
        number_of(r) == number_of(*a).times(factor as int),
        decimal_scale(r) == decimal_scale(*a),
{
    a * factor
}

/// `BigDecimal`'s `<`: the order of the numbers denoted.
#[verifier::external_body]
fn big_lt(a: &BigDecimal, b: &BigDecimal) -> (r: bool)
    ensures
        r == number_of(*a).lt(number_of(*b)),
{
    a < b
}

/// `BigDecimal`'s `<=`: the order of the numbers denoted.
#[verifier::external_body]
fn big_le(a: &BigDecimal, b: &BigDecimal) -> (r: bool)
    ensures
        r == number_of(*a).le(number_of(*b)),
{
    a <= b
}

/// `BigDecimal`'s `==`: true exactly when both denote the same number,
/// whatever their scales.
#[verifier::external_body]
fn big_eq(a: &BigDecimal, b: &BigDecimal) -> (r: bool)
    ensures
        r == (number_of(*a) == number_of(*b)),
{
    a == b
}

/// `BigDecimal::is_zero`: whether the stored digits are zero.
#[verifier::external_body]
fn big_is_zero(d: &BigDecimal) -> (r: bool)
    ensures
        r == (decimal_digits(*d) == 0),
{
    d.is_zero()
}

} // verus!
