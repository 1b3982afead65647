//! Decimal numbers as mathematical values.
//!
//! A [`Number`] is `mantissa / 10^places`. Every decimal number has exactly one
//! canonical form, in which `places` is as small as possible, so that two
//! canonical numbers are equal exactly when they denote the same value.

use vstd::prelude::*;

verus! {

/// Ten to the power `n`.
pub open spec fn pow10(n: nat) -> int
    decreases n,
{
    if n == 0 {
        1
    } else {
        10 * pow10((n - 1) as nat)
    }
}

/// The larger of two natural numbers.
pub open spec fn max_places(a: nat, b: nat) -> nat {
    if a >= b {
        a
    } else {
        b
    }
}

/// The decimal number `mantissa / 10^places`.
pub struct Number {
    pub mantissa: int,
    pub places: nat,
}

impl Number {
    /// No shorter way to write the number exists: either it has no decimal
    /// places, or its last decimal place is not a zero.
    pub open spec fn canonical(self) -> bool {
        self.places == 0 || self.mantissa % 10 != 0
    }

    /// The number counted in units of `10^-k`. Exact whenever `k >= self.places`.
    pub open spec fn units(self, k: nat) -> int {
        self.mantissa * pow10((k - self.places) as nat)
    }

    /// The canonical form of `m / 10^p`: trailing zeros after the decimal point
    /// are dropped.
    pub open spec fn reduce(m: int, p: nat) -> Number
        decreases p,
    {
        if p == 0 || m % 10 != 0 {
            Number { mantissa: m, places: p }
        } else {
            Number::reduce(m / 10, (p - 1) as nat)
        }
    }

    /// The canonical form of `digits * 10^-scale`, for a scale of either sign.
    pub open spec fn from_parts(digits: int, scale: int) -> Number {
        if scale <= 0 {
            Number { mantissa: digits * pow10((-scale) as nat), places: 0 }
        } else {
            Number::reduce(digits, scale as nat)
        }
    }

    /// The number zero.
    pub open spec fn zero() -> Number {
        Number { mantissa: 0, places: 0 }
    }

    /// The whole number `n`.
    pub open spec fn from_int(n: int) -> Number {
        Number { mantissa: n, places: 0 }
    }

    /// The number is zero, however it is written.
    pub open spec fn is_zero(self) -> bool {
        self.mantissa == 0
    }

    /// The number is greater than zero.
    pub open spec fn is_positive(self) -> bool {
        self.mantissa > 0
    }

    /// The number is less than zero.
    pub open spec fn is_negative(self) -> bool {
        self.mantissa < 0
    }

    /// The exact sum, in canonical form.
    pub open spec fn plus(self, other: Number) -> Number {
        let k = max_places(self.places, other.places);
        Number::reduce(self.units(k) + other.units(k), k)
    }

    /// The exact product with a whole number, in canonical form.
    pub open spec fn times(self, factor: int) -> Number {
        Number::reduce(self.mantissa * factor, self.places)
    }

    /// The number with the opposite sign.
    pub open spec fn negated(self) -> Number {
        Number { mantissa: -self.mantissa, places: self.places }
    }

    /// The exact difference, in canonical form.
    pub open spec fn minus(self, other: Number) -> Number {
        self.plus(other.negated())
    }

    /// The number is strictly smaller than `other`.
    pub open spec fn lt(self, other: Number) -> bool {
        let k = max_places(self.places, other.places);
        self.units(k) < other.units(k)
    }

    /// The number is at most `other`.
    pub open spec fn le(self, other: Number) -> bool {
        let k = max_places(self.places, other.places);
        self.units(k) <= other.units(k)
    }

    /// The smaller of the two; `self` when they are equal.
    pub open spec fn min(self, other: Number) -> Number {
        if self.le(other) {
            self
        } else {
            other
        }
    }
}

/// Powers of ten are positive.
pub proof fn lemma_pow10_positive(n: nat)
    ensures
        pow10(n) > 0,
    decreases n,
{
    if n > 0 {
        lemma_pow10_positive((n - 1) as nat);
    }
}

/// The power of a sum of exponents is the product of the powers.
pub proof fn lemma_pow10_adds(a: nat, b: nat)
    ensures
        pow10(a + b) == pow10(a) * pow10(b),
    decreases a,
{
    if a == 0 {
        assert(pow10(0 + b) == 1 * pow10(b));
    } else {
        lemma_pow10_adds((a - 1) as nat, b);
        let pa = pow10((a - 1) as nat);
        let pb = pow10(b);
        assert(pow10(a + b) == 10 * pow10((a - 1 + b) as nat));
        assert(10 * (pa * pb) == (10 * pa) * pb) by (nonlinear_arith);
    }
}

/// Counting in finer units multiplies the count by a power of ten.
pub proof fn lemma_units_shift(x: Number, j: nat, k: nat)
    requires
        x.places <= j <= k,
    ensures
        x.units(k) == x.units(j) * pow10((k - j) as nat),
{
    let a = (j - x.places) as nat;
    let b = (k - j) as nat;
    lemma_pow10_adds(a, b);
    assert((k - x.places) as nat == a + b);
    let m = x.mantissa;
    let pa = pow10(a);
    let pb = pow10(b);
    assert(m * (pa * pb) == (m * pa) * pb) by (nonlinear_arith);
}

/// Reducing keeps the value, never adds places, and yields the canonical form.
pub proof fn lemma_reduce(m: int, p: nat)
    ensures
        Number::reduce(m, p).canonical(),
        Number::reduce(m, p).places <= p,
        Number::reduce(m, p).units(p) == m,
        m == 0 ==> Number::reduce(m, p) == Number::zero(),
        (Number::reduce(m, p).mantissa > 0) == (m > 0),
        (Number::reduce(m, p).mantissa < 0) == (m < 0),
    decreases p,
{
    if p == 0 || m % 10 != 0 {
        assert(pow10(0) == 1);
        assert(m * 1 == m);
    } else {
        let q = (p - 1) as nat;
        let r = Number::reduce(m / 10, q);
        lemma_reduce(m / 10, q);
        lemma_units_shift(r, q, p);
        assert(pow10(0) == 1);
        assert(pow10(1) == 10 * pow10(0));
        assert((p - q) as nat == 1);
        assert(r.units(p) == r.units(q) * 10);
        assert(m == 10 * (m / 10));
    }
}

/// The value of a reduced number, counted in any fine enough unit.
pub proof fn lemma_reduce_units(m: int, p: nat, k: nat)
    requires
        p <= k,
    ensures
        Number::reduce(m, p).units(k) == m * pow10((k - p) as nat),
{
    lemma_reduce(m, p);
    lemma_units_shift(Number::reduce(m, p), p, k);
}

/// Two canonical numbers with the same value are the same number.
pub proof fn lemma_canonical_unique(x: Number, y: Number, k: nat)
    requires
        x.canonical(),
        y.canonical(),
        x.places <= k,
        y.places <= k,
        x.units(k) == y.units(k),
    ensures
        x == y,
{
    if x.places <= y.places {
        lemma_canonical_unique_ordered(x, y, k);
    } else {
        lemma_canonical_unique_ordered(y, x, k);
    }
}

/// The same, for the case that `x` has no more places than `y`.
proof fn lemma_canonical_unique_ordered(x: Number, y: Number, k: nat)
    requires
        x.canonical(),
        y.canonical(),
        x.places <= y.places <= k,
        x.units(k) == y.units(k),
    ensures
        x == y,
{
    let d = (y.places - x.places) as nat;
    let e = (k - y.places) as nat;
    let pe = pow10(e);
    lemma_pow10_positive(e);
    lemma_units_shift(x, y.places, k);
    let xu = x.units(y.places);
    let ym = y.mantissa;
    assert(y.units(y.places) == ym) by {
        assert(pow10(0) == 1);
    }
    assert(y.units(k) == ym * pe);
    assert(xu == ym) by (nonlinear_arith)
        requires
            xu * pe == ym * pe,
            pe > 0,
    ;
    if d == 0 {
        assert(pow10(0) == 1);
    } else {
        let pd = pow10((d - 1) as nat);
        let xm = x.mantissa;
        assert(xu == xm * (10 * pd));
        assert(xm * (10 * pd) == 10 * (xm * pd)) by (nonlinear_arith);
        assert(ym % 10 == 0);
    }
}

/// Sums add up in any fine enough unit.
pub proof fn lemma_plus(x: Number, y: Number, k: nat)
    requires
        x.places <= k,
        y.places <= k,
    ensures
        x.plus(y).canonical(),
        x.plus(y).places <= max_places(x.places, y.places),
        x.plus(y).units(k) == x.units(k) + y.units(k),
{
    let j = max_places(x.places, y.places);
    let s = x.units(j) + y.units(j);
    lemma_reduce(s, j);
    lemma_reduce_units(s, j, k);
    lemma_units_shift(x, j, k);
    lemma_units_shift(y, j, k);
    let p = pow10((k - j) as nat);
    let a = x.units(j);
    let b = y.units(j);
    assert((a + b) * p == a * p + b * p) by (nonlinear_arith);
}

/// Adding to zero changes nothing.
pub proof fn lemma_plus_zero(x: Number)
    requires
        x.canonical(),
    ensures
        Number::zero().plus(x) == x,
        x.plus(Number::zero()) == x,
{
    let k = x.places;
    lemma_plus(Number::zero(), x, k);
    lemma_plus(x, Number::zero(), k);
    lemma_sign(Number::zero(), k);
    lemma_canonical_unique(Number::zero().plus(x), x, k);
    lemma_canonical_unique(x.plus(Number::zero()), x, k);
}

/// Adding a number that is zero, however it is written, changes nothing.
pub proof fn lemma_plus_nothing(x: Number, z: Number)
    requires
        x.canonical(),
        z.is_zero(),
    ensures
        x.plus(z) == x,
{
    let k = max_places(x.places, z.places);
    lemma_plus(x, z, k);
    lemma_sign(z, k);
    lemma_canonical_unique(x.plus(z), x, k);
}

/// Negation turns the sign in any unit, and undoes itself.
pub proof fn lemma_negated(x: Number, k: nat)
    ensures
        x.negated().canonical() == x.canonical(),
        x.negated().places == x.places,
        x.negated().units(k) == -x.units(k),
        x.negated().negated() == x,
{
    let p = pow10((k - x.places) as nat);
    let m = x.mantissa;
    assert((-m) * p == -(m * p)) by (nonlinear_arith);
}

/// Whole multiples multiply in any fine enough unit.
pub proof fn lemma_times(x: Number, factor: int, k: nat)
    requires
        x.places <= k,
    ensures
        x.times(factor).canonical(),
        x.times(factor).places <= x.places,
        x.times(factor).units(k) == factor * x.units(k),
{
    lemma_reduce(x.mantissa * factor, x.places);
    lemma_reduce_units(x.mantissa * factor, x.places, k);
    let p = pow10((k - x.places) as nat);
    let m = x.mantissa;
    assert((m * factor) * p == factor * (m * p)) by (nonlinear_arith);
}

/// Differences subtract in any fine enough unit.
pub proof fn lemma_minus(x: Number, y: Number, k: nat)
    requires
        x.places <= k,
        y.places <= k,
    ensures
        x.minus(y).canonical(),
        x.minus(y).places <= max_places(x.places, y.places),
        x.minus(y).units(k) == x.units(k) - y.units(k),
{
    lemma_negated(y, k);
    lemma_plus(x, y.negated(), k);
}

/// Order and sign can be read off in any fine enough unit.
pub proof fn lemma_order(x: Number, y: Number, k: nat)
    requires
        x.places <= k,
        y.places <= k,
    ensures
        x.lt(y) == (x.units(k) < y.units(k)),
        x.le(y) == (x.units(k) <= y.units(k)),
        x.le(y) == !y.lt(x),
{
    let j = max_places(x.places, y.places);
    lemma_units_shift(x, j, k);
    lemma_units_shift(y, j, k);
    let p = pow10((k - j) as nat);
    lemma_pow10_positive((k - j) as nat);
    let a = x.units(j);
    let b = y.units(j);
    assert((a < b) == (a * p < b * p)) by (nonlinear_arith)
        requires
            p > 0,
    ;
    assert((a <= b) == (a * p <= b * p)) by (nonlinear_arith)
        requires
            p > 0,
    ;
}

/// The sign of a number is that of its count in any fine enough unit, and
/// says how it compares to zero.
pub proof fn lemma_sign(x: Number, k: nat)
    requires
        x.places <= k,
    ensures
        x.is_zero() == (x.units(k) == 0),
        x.is_positive() == (x.units(k) > 0),
        x.is_negative() == (x.units(k) < 0),
        x.is_positive() == Number::zero().lt(x),
        x.is_negative() == x.lt(Number::zero()),
        !x.is_positive() == x.le(Number::zero()),
{
    let p = pow10((k - x.places) as nat);
    lemma_pow10_positive((k - x.places) as nat);
    let m = x.mantissa;
    assert((m == 0) == (m * p == 0) && (m > 0) == (m * p > 0) && (m < 0) == (m * p < 0))
        by (nonlinear_arith)
        requires
            p > 0,
    ;
    let z = Number::zero();
    let pz = pow10((x.places - z.places) as nat);
    assert(0 * pz == 0);
    assert(x.units(x.places) == m) by {
        assert(pow10(0) == 1);
    }
}

/// The canonical form of `digits * 10^-scale` is canonical and has the sign of
/// `digits`.
pub proof fn lemma_from_parts(digits: int, scale: int)
    ensures
        Number::from_parts(digits, scale).canonical(),
        Number::from_parts(digits, scale).is_zero() == (digits == 0),
        Number::from_parts(digits, scale).is_positive() == (digits > 0),
        Number::from_parts(digits, scale).is_negative() == (digits < 0),
{
    if scale <= 0 {
        let p = pow10((-scale) as nat);
        lemma_pow10_positive((-scale) as nat);
        assert((digits == 0) == (digits * p == 0) && (digits > 0) == (digits * p > 0) && (digits
            < 0) == (digits * p < 0)) by (nonlinear_arith)
            requires
                p > 0,
        ;
    } else {
        lemma_reduce(digits, scale as nat);
    }
}

} // verus!
