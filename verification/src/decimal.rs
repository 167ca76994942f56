//! Decimal numbers as `rust_decimal` represents them: a signed 96-bit
//! mantissa and a power-of-ten scale between 0 and 28.
//!
//! Every value is modelled by the integer `value()`, the number expressed in
//! units of 10^-28, so that all decimals compare and add as integers.
//! Arithmetic is delegated to `rust_decimal`; its results are named, and the
//! exactness facts that its source shows are stated beside the names.

use vstd::prelude::*;

verus! {

/// Largest mantissa magnitude: 2^96 - 1.
pub const MAX_MANTISSA: i128 = 79228162514264337593543950335;

/// Largest number of digits after the decimal point.
pub const MAX_SCALE: u32 = 28;

/// 10^n.
pub open spec fn pow10(n: nat) -> int
    decreases n,
{
    if n == 0 {
        1
    } else {
        10 * pow10((n - 1) as nat)
    }
}

/// One whole unit, in units of 10^-28.
pub open spec fn unit() -> int {
    pow10(28)
}

/// The value `mantissa * 10^(-scale)`.
///
/// `==` compares by value, as it does for `rust_decimal::Decimal`
/// (`1.0 == 1.00`); the fields keep the representation.
#[derive(Clone, Copy, Debug)]
pub struct Decimal {
    pub mantissa: i128,
    pub scale: u32,
}

/// The outcome of comparing two decimals by value.
#[derive(Clone, Copy, Debug, PartialEq, Eq, Structural)]
pub enum Comparison {
    Less,
    Equal,
    Greater,
}

impl Decimal {
    /// Representable by `rust_decimal`.
    pub open spec fn wf(self) -> bool {
        -MAX_MANTISSA <= self.mantissa <= MAX_MANTISSA && self.scale <= MAX_SCALE
    }

    /// The number in units of 10^-28.
    pub open spec fn value(self) -> int {
        self.mantissa * pow10((28 - self.scale) as nat)
    }

    /// `num * 10^(-scale)`, as `rust_decimal::Decimal::new` builds it.
    pub fn new(num: i64, scale: u32) -> (r: Decimal)
        requires
            scale <= MAX_SCALE,
        ensures
            r.wf(),
            r.mantissa == num,
            r.scale == scale,
    {
        Decimal { mantissa: num as i128, scale }
    }

    /// The integer `n` at scale 0.
    pub fn from_u64(n: u64) -> (r: Decimal)
        ensures
            r.wf(),
            r.mantissa == n,
            r.scale == 0,
    {
        Decimal { mantissa: n as i128, scale: 0 }
    }

    /// Zero at scale 0.
    pub fn zero() -> (r: Decimal)
        ensures
            r.wf(),
            r.mantissa == 0,
            r.scale == 0,
            r.value() == 0,
    {
        Decimal { mantissa: 0, scale: 0 }
    }

    /// One at scale 0.
    pub fn one() -> (r: Decimal)
        ensures
            r.wf(),
            r.mantissa == 1,
            r.scale == 0,
    {
        Decimal { mantissa: 1, scale: 0 }
    }

    pub fn is_zero(&self) -> (r: bool)
        ensures
            r == (self.mantissa == 0),
            r == (self.value() == 0),
    {
        proof {
            lemma_value_sign(*self);
        }
        self.mantissa == 0
    }

    pub fn is_sign_negative(&self) -> (r: bool)
        ensures
            r == (self.mantissa < 0),
            r == (self.value() < 0),
    {
        proof {
            lemma_value_sign(*self);
        }
        self.mantissa < 0
    }
}

pub proof fn lemma_pow10_positive(n: nat)
    ensures
        pow10(n) > 0,
    decreases n,
{
    if n > 0 {
        lemma_pow10_positive((n - 1) as nat);
    }
}

/// The sign of a value is the sign of its mantissa.
pub proof fn lemma_value_sign(d: Decimal)
    ensures
        (d.value() == 0) == (d.mantissa == 0),
        (d.value() > 0) == (d.mantissa > 0),
        (d.value() < 0) == (d.mantissa < 0),
{
    let p = pow10((28 - d.scale) as nat);
    lemma_pow10_positive((28 - d.scale) as nat);
    assert((d.mantissa as int) * p == d.value());
    if d.mantissa > 0 {
        assert((d.mantissa as int) * p > 0) by (nonlinear_arith)
            requires
                d.mantissa > 0,
                p > 0,
        ;
    } else if d.mantissa < 0 {
        assert((d.mantissa as int) * p < 0) by (nonlinear_arith)
            requires
                d.mantissa < 0,
                p > 0,
        ;
    }
}

impl Decimal {
    /// Whether the representation is in range, checked at run time.
    pub fn in_range(&self) -> (r: bool)
        ensures
            r == self.wf(),
    {
        -MAX_MANTISSA <= self.mantissa && self.mantissa <= MAX_MANTISSA && self.scale <= MAX_SCALE
    }

    /// What `==` means on decimals.
    pub open spec fn same_as(self, other: Decimal) -> bool {
        if self.wf() && other.wf() {
            self.value() == other.value()
        } else {
            self.mantissa == other.mantissa && self.scale == other.scale
        }
    }
}

impl PartialEq for Decimal {
    fn eq(&self, other: &Decimal) -> (r: bool) {
        if self.in_range() && other.in_range() {
            match compare(self, other) {
                Comparison::Equal => true,
                _ => false,
            }
        } else {
            self.mantissa == other.mantissa && self.scale == other.scale
        }
    }
}

impl vstd::std_specs::cmp::PartialEqSpecImpl for Decimal {
    open spec fn obeys_eq_spec() -> bool {
        true
    }

    open spec fn eq_spec(&self, other: &Decimal) -> bool {
        self.same_as(*other)
    }
}

impl Eq for Decimal {
}

/// Compares two decimals by value, as `Ord` for `rust_decimal::Decimal` does.
///
/// Calls `Ord::cmp`; the contract claims that the comparison is exact (it
/// aligns scales without rounding, as `ops/cmp.rs` shows).
#[verifier::external_body]
pub(crate) fn compare(a: &Decimal, b: &Decimal) -> (r: Comparison)
    requires
        a.wf(),
        b.wf(),
    ensures
        (r == Comparison::Less) == (a.value() < b.value()),
        (r == Comparison::Equal) == (a.value() == b.value()),
        (r == Comparison::Greater) == (a.value() > b.value()),
{
    let x = rust_decimal::Decimal::from_i128_with_scale(a.mantissa, a.scale);
    let y = rust_decimal::Decimal::from_i128_with_scale(b.mantissa, b.scale);
    match x.cmp(&y) {
        std::cmp::Ordering::Less => Comparison::Less,
        std::cmp::Ordering::Equal => Comparison::Equal,
        std::cmp::Ordering::Greater => Comparison::Greater,
    }
}


/// The smaller of two decimals by value; the first one when they are equal,
/// as `Ord::min` returns it.
pub fn min(a: Decimal, b: Decimal) -> (r: Decimal)
    requires
        a.wf(),
        b.wf(),
    ensures
        r == (if a.value() <= b.value() { a } else { b }),
{
    match compare(&a, &b) {
        Comparison::Greater => b,
        _ => a,
    }
}

/// The largest scale of two operands, the scale at which `rust_decimal`
/// aligns them before adding.
pub open spec fn aligned_scale(a: Decimal, b: Decimal) -> nat {
    if a.scale >= b.scale {
        a.scale as nat
    } else {
        b.scale as nat
    }
}

/// `v` (in units of 10^-28) has a magnitude that a 96-bit mantissa holds at
/// scale `s`.
pub open spec fn fits_at(v: int, s: nat) -> bool {
    -MAX_MANTISSA * pow10((28 - s) as nat) <= v <= MAX_MANTISSA * pow10((28 - s) as nat)
}

/// Both operands and the exact outcome `exact` fit in 96 bits at the
/// aligned scale: `rust_decimal` then adds or subtracts without rounding.
pub open spec fn exact_at_aligned_scale(a: Decimal, b: Decimal, exact: int) -> bool {
    let s = aligned_scale(a, b);
    fits_at(a.value(), s) && fits_at(b.value(), s) && fits_at(exact, s)
}

/// What `rust_decimal::Decimal::checked_add` returns for `a` and `b`.
pub uninterp spec fn decimal_sum(a: Decimal, b: Decimal) -> Option<Decimal>;

/// What `rust_decimal::Decimal::checked_sub` returns for `a` and `b`.
pub uninterp spec fn decimal_difference(a: Decimal, b: Decimal) -> Option<Decimal>;

/// What `rust_decimal::Decimal::checked_mul` returns for `a` and `b`.
pub uninterp spec fn decimal_product(a: Decimal, b: Decimal) -> Option<Decimal>;

/// What `rust_decimal::Decimal::checked_div` returns for `a` and `b`.
pub uninterp spec fn decimal_quotient(a: Decimal, b: Decimal) -> Option<Decimal>;

/// `rust_decimal::Decimal::checked_add`.
///
/// Claims, from `ops/add.rs`: the result is a representable decimal whose
/// scale is at most the aligned scale; it is exact when both operands and
/// the sum fit in 96 bits at the aligned scale; overflow (`None`) happens
/// only when the sum exceeds the largest integer mantissa; otherwise the
/// rounding error is below one whole unit.
#[verifier::external_body]
pub(crate) fn checked_add(a: &Decimal, b: &Decimal) -> (r: Option<Decimal>)
    requires
        a.wf(),
        b.wf(),
    ensures
        r == decimal_sum(*a, *b),
        r matches Some(x) ==> x.wf() && x.scale <= aligned_scale(*a, *b),
        r matches Some(x) ==> -unit() <= x.value() - (a.value() + b.value()) <= unit(),
        exact_at_aligned_scale(*a, *b, a.value() + b.value()) ==> r is Some && r->0.value()
            == a.value() + b.value(),
        r is None ==> !(-(MAX_MANTISSA - 1) * unit() <= a.value() + b.value() <= (MAX_MANTISSA
            - 1) * unit()),
{
    let x = rust_decimal::Decimal::from_i128_with_scale(a.mantissa, a.scale);
    let y = rust_decimal::Decimal::from_i128_with_scale(b.mantissa, b.scale);
    match x.checked_add(y) {
        Some(z) => Some(Decimal { mantissa: z.mantissa(), scale: z.scale() }),
        None => None,
    }
}

/// `rust_decimal::Decimal::checked_sub`.
///
/// Claims, from `ops/add.rs` (subtraction is addition of the negation): the
/// same facts as for `checked_add`, and that subtracting a non-negative
/// value no larger than `a` never overflows and never goes below zero.
#[verifier::external_body]
pub(crate) fn checked_sub(a: &Decimal, b: &Decimal) -> (r: Option<Decimal>)
    requires
        a.wf(),
        b.wf(),
    ensures
        r == decimal_difference(*a, *b),
        r matches Some(x) ==> x.wf() && x.scale <= aligned_scale(*a, *b),
        exact_at_aligned_scale(*a, *b, a.value() - b.value()) ==> r is Some && r->0.value()
            == a.value() - b.value(),
        -(MAX_MANTISSA - 1) * unit() <= a.value() - b.value() <= (MAX_MANTISSA - 1) * unit()
            ==> r is Some,
        r matches Some(x) ==> -unit() <= x.value() - (a.value() - b.value()) <= unit(),
        0 <= b.value() <= a.value() ==> r is Some && r->0.value() >= 0,
{
    let x = rust_decimal::Decimal::from_i128_with_scale(a.mantissa, a.scale);
    let y = rust_decimal::Decimal::from_i128_with_scale(b.mantissa, b.scale);
    match x.checked_sub(y) {
        Some(z) => Some(Decimal { mantissa: z.mantissa(), scale: z.scale() }),
        None => None,
    }
}

/// `rust_decimal::Decimal::checked_mul`.
///
/// Claims, from `ops/mul.rs`: the result is representable; it is the exact
/// product when the scales add up to at most 28 and the product of the
/// mantissas fits in 96 bits, and then, for two non-zero operands, its
/// mantissa is that product and its scale the sum of the scales (a zero
/// operand gives zero at scale 0); overflow happens only when the product
/// exceeds the largest integer mantissa.
#[verifier::external_body]
pub(crate) fn checked_mul(a: &Decimal, b: &Decimal) -> (r: Option<Decimal>)
    requires
        a.wf(),
        b.wf(),
    ensures
        r == decimal_product(*a, *b),
        r matches Some(x) ==> x.wf(),
        a.scale + b.scale <= MAX_SCALE && -MAX_MANTISSA <= a.mantissa * b.mantissa
            <= MAX_MANTISSA ==> r is Some && r->0.value() == a.mantissa * b.mantissa * pow10(
            (28 - a.scale - b.scale) as nat,
        ),
        -(MAX_MANTISSA - 1) * unit() * unit() <= a.value() * b.value() <= (MAX_MANTISSA - 1)
            * unit() * unit() ==> r is Some,
        a.mantissa != 0 && b.mantissa != 0 && a.scale + b.scale <= MAX_SCALE && -MAX_MANTISSA
            <= a.mantissa * b.mantissa <= MAX_MANTISSA ==> r is Some && r->0.mantissa == a.mantissa
            * b.mantissa && r->0.scale == a.scale + b.scale,
{
    let x = rust_decimal::Decimal::from_i128_with_scale(a.mantissa, a.scale);
    let y = rust_decimal::Decimal::from_i128_with_scale(b.mantissa, b.scale);
    match x.checked_mul(y) {
        Some(z) => Some(Decimal { mantissa: z.mantissa(), scale: z.scale() }),
        None => None,
    }
}

/// `rust_decimal::Decimal::checked_div`.
///
/// Claims that the result is representable, that division by zero gives
/// `None`, and that a divisor of magnitude at least one gives `Some` (the
/// documentation says `None` comes only from overflow or a zero divisor, and
/// such a quotient is no larger than the dividend); how the quotient is
/// rounded is left to the name.
#[verifier::external_body]
pub(crate) fn checked_div(a: &Decimal, b: &Decimal) -> (r: Option<Decimal>)
    requires
        a.wf(),
        b.wf(),
    ensures
        r == decimal_quotient(*a, *b),
        r matches Some(x) ==> x.wf(),
        b.value() == 0 ==> r is None,
        b.value() >= unit() || b.value() <= -unit() ==> r is Some,
{
    let x = rust_decimal::Decimal::from_i128_with_scale(a.mantissa, a.scale);
    let y = rust_decimal::Decimal::from_i128_with_scale(b.mantissa, b.scale);
    match x.checked_div(y) {
        Some(z) => Some(Decimal { mantissa: z.mantissa(), scale: z.scale() }),
        None => None,
    }
}


/// What `rust_decimal::Decimal::from_str` returns for the text `s`.
pub uninterp spec fn decimal_parse(s: Seq<char>) -> Option<Decimal>;

/// The text that `Display` for `rust_decimal::Decimal` writes for `d`.
pub uninterp spec fn decimal_text(d: Decimal) -> Seq<char>;

/// What `rust_decimal::Decimal::round_dp` returns for `d` and `dp`.
pub uninterp spec fn decimal_rounded(d: Decimal, dp: u32) -> Decimal;

/// What `rust_decimal::Decimal::rescale` leaves in `d` for `scale`.
pub uninterp spec fn decimal_rescaled(d: Decimal, scale: u32) -> Decimal;

/// `rust_decimal::Decimal::from_str`: parses decimal text.
///
/// Claims only that a parsed value is representable; which texts parse, and
/// to what, is left to the name.
#[verifier::external_body]
pub(crate) fn parse(s: &str) -> (r: Option<Decimal>)
    ensures
        r == decimal_parse(s@),
        r matches Some(x) ==> x.wf(),
{
    match <rust_decimal::Decimal as std::str::FromStr>::from_str(s) {
        Ok(z) => Some(Decimal { mantissa: z.mantissa(), scale: z.scale() }),
        Err(_) => None,
    }
}

impl Decimal {
    /// The text of the decimal, as `to_string` on `rust_decimal::Decimal`
    /// writes it (every digit of the scale is kept: `100.50` stays `100.50`).
    #[verifier::external_body]
    pub(crate) fn to_text(&self) -> (r: String)
        requires
            self.wf(),
        ensures
            r@ == decimal_text(*self),
    {
        rust_decimal::Decimal::from_i128_with_scale(self.mantissa, self.scale).to_string()
    }

    /// `rust_decimal::Decimal::round_dp`: rounds to `dp` digits after the
    /// point (banker's rounding).
    ///
    /// Claims only that the result is representable.
    #[verifier::external_body]
    pub(crate) fn round_dp(&self, dp: u32) -> (r: Decimal)
        requires
            self.wf(),
        ensures
            r == decimal_rounded(*self, dp),
            r.wf(),
    {
        let z = rust_decimal::Decimal::from_i128_with_scale(self.mantissa, self.scale).round_dp(dp);
        Decimal { mantissa: z.mantissa(), scale: z.scale() }
    }

    /// `rust_decimal::Decimal::rescale`: changes the scale to `scale`,
    /// rounding when digits are dropped.
    ///
    /// Claims only that the result is representable.
    #[verifier::external_body]
    pub(crate) fn rescaled(&self, scale: u32) -> (r: Decimal)
        requires
            self.wf(),
            scale <= MAX_SCALE,
        ensures
            r == decimal_rescaled(*self, scale),
            r.wf(),
    {
        let mut z = rust_decimal::Decimal::from_i128_with_scale(self.mantissa, self.scale);
        z.rescale(scale);
        Decimal { mantissa: z.mantissa(), scale: z.scale() }
    }
}

/// A decimal minus itself is exactly zero.
pub proof fn lemma_self_difference(d: Decimal)
    requires
        d.wf(),
    ensures
        exact_at_aligned_scale(d, d, d.value() - d.value()),
{
    let p = pow10((28 - d.scale) as nat);
    lemma_pow10_positive((28 - d.scale) as nat);
    assert(aligned_scale(d, d) == d.scale);
    let m = d.mantissa as int;
    assert(-MAX_MANTISSA * p <= m * p <= MAX_MANTISSA * p) by (nonlinear_arith)
        requires
            -MAX_MANTISSA <= m <= MAX_MANTISSA,
            p > 0,
    ;
    assert(0 <= MAX_MANTISSA * p) by (nonlinear_arith)
        requires
            p > 0,
    ;
}

} // verus!
