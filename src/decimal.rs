//! Exact decimal quantities.
//!
//! A [`Dec`] is `mantissa * 10^-scale`, with the range of `rust_decimal::Decimal`
//! (a 96-bit magnitude and a scale of at most 28). Addition, subtraction,
//! negation and multiplication are exact: they never round, and report an
//! out-of-range result as `None`. Comparison, division, rounding and text go
//! through `rust_decimal`.
use vstd::prelude::*;

verus! {

/// Largest magnitude of a mantissa: `2^96 - 1`.
pub const MAX_MANTISSA: i128 = 79228162514264337593543950335;

/// Largest scale (digits after the decimal point).
pub const MAX_SCALE: u32 = 28;

/// The decimal number `mantissa * 10^-scale`.
#[derive(Clone, Copy, Debug, PartialEq, Eq, Hash, Structural)]
pub struct Dec {
    pub mantissa: i128,
    pub scale: u32,
}

pub open spec fn pow10(n: nat) -> int
    decreases n,
{
    if n == 0 {
        1
    } else {
        10 * pow10((n - 1) as nat)
    }
}

/// The mantissa of `d` written at scale `s` (not below `d.scale`).
pub open spec fn aligned(d: Dec, s: nat) -> int {
    d.mantissa * pow10((s - d.scale) as nat)
}

/// The mantissa that fits, at the given scale, or `None`.
pub open spec fn dec_of(m: int, s: nat) -> Option<Dec> {
    if -MAX_MANTISSA <= m <= MAX_MANTISSA {
        Some(Dec { mantissa: m as i128, scale: s as u32 })
    } else {
        None
    }
}

pub open spec fn max_scale(a: Dec, b: Dec) -> nat {
    if a.scale >= b.scale {
        a.scale as nat
    } else {
        b.scale as nat
    }
}

impl Dec {
    /// Within the range of `rust_decimal::Decimal`.
    pub open spec fn wf(self) -> bool {
        &&& self.scale <= MAX_SCALE
        &&& -MAX_MANTISSA <= self.mantissa <= MAX_MANTISSA
    }

    /// The value in units of `10^-28`: every well-formed value is a whole number of them.
    pub open spec fn units(self) -> int {
        self.mantissa * pow10((MAX_SCALE - self.scale) as nat)
    }

    pub open spec fn spec_neg(self) -> Dec {
        Dec { mantissa: -self.mantissa as i128, scale: self.scale }
    }

    /// The exact sum, at the larger of the two scales, when its mantissa fits.
    pub open spec fn spec_add(self, o: Dec) -> Option<Dec> {
        let s = max_scale(self, o);
        dec_of(aligned(self, s) + aligned(o, s), s)
    }

    pub open spec fn spec_sub(self, o: Dec) -> Option<Dec> {
        self.spec_add(o.spec_neg())
    }

    /// The exact product, at the sum of the scales, when it is in range.
    pub open spec fn spec_mul(self, o: Dec) -> Option<Dec> {
        if self.scale + o.scale <= MAX_SCALE {
            dec_of(self.mantissa * o.mantissa, (self.scale + o.scale) as nat)
        } else {
            None
        }
    }

    pub fn zero() -> (r: Dec)
        ensures
            r == (Dec { mantissa: 0, scale: 0 }),
            r.wf(),
            r.units() == 0,
    {
        Dec { mantissa: 0, scale: 0 }
    }

    /// `None` where the parts are outside the range of the type.
    pub fn new(mantissa: i128, scale: u32) -> (r: Option<Dec>)
        ensures
            r is Some <==> (scale <= MAX_SCALE && -MAX_MANTISSA <= mantissa <= MAX_MANTISSA),
            r is Some ==> r->0 == (Dec { mantissa, scale }) && r->0.wf(),
    {
        if scale <= MAX_SCALE && -MAX_MANTISSA <= mantissa && mantissa <= MAX_MANTISSA {
            Some(Dec { mantissa, scale })
        } else {
            None
        }
    }

    /// Whether the parts are within the range of the type.
    pub fn is_valid(&self) -> (r: bool)
        ensures
            r == self.wf(),
    {
        self.scale <= MAX_SCALE && -MAX_MANTISSA <= self.mantissa && self.mantissa <= MAX_MANTISSA
    }

    pub fn is_positive(&self) -> (r: bool)
        ensures
            r == (self.units() > 0),
    {
        proof {
            lemma_units_sign(*self);
        }
        self.mantissa > 0
    }

    pub fn is_zero(&self) -> (r: bool)
        ensures
            r == (self.units() == 0),
    {
        proof {
            lemma_units_sign(*self);
        }
        self.mantissa == 0
    }

    pub fn neg(&self) -> (r: Dec)
        requires
            self.wf(),
        ensures
            r == self.spec_neg(),
            r.wf(),
            r.units() == -self.units(),
    {
        proof {
            lemma_neg_units(*self);
        }
        Dec { mantissa: -self.mantissa, scale: self.scale }
    }

    /// The exact sum; `None` where it does not fit at the larger scale.
    pub fn add(&self, o: &Dec) -> (r: Option<Dec>)
        requires
            self.wf(),
            o.wf(),
        ensures
            r == self.spec_add(*o),
            r is Some ==> r->0.wf() && r->0.units() == self.units() + o.units(),
    {
        let s: u32 = if self.scale >= o.scale {
            self.scale
        } else {
            o.scale
        };
        let pa = pow10_exec(s - self.scale);
        let pb = pow10_exec(s - o.scale);
        proof {
            lemma_add_units(*self, *o);
            lemma_pow10_pos((s - self.scale) as nat);
            lemma_pow10_pos((s - o.scale) as nat);
            if self.scale < s {
                lemma_mul_big(self.mantissa as int, pa as int);
            }
            if o.scale < s {
                lemma_mul_big(o.mantissa as int, pb as int);
            }
        }
        let ma = match self.mantissa.checked_mul(pa) {
            Some(m) => m,
            None => {
                proof {
                    assert(o.scale == s);
                    assert(aligned(*o, s as nat) == o.mantissa);
                }
                return None;
            },
        };
        let mb = match o.mantissa.checked_mul(pb) {
            Some(m) => m,
            None => {
                proof {
                    assert(self.scale == s);
                    assert(aligned(*self, s as nat) == self.mantissa);
                }
                return None;
            },
        };
        let m = match ma.checked_add(mb) {
            Some(m) => m,
            None => { return None; },
        };
        if -MAX_MANTISSA <= m && m <= MAX_MANTISSA {
            Some(Dec { mantissa: m, scale: s })
        } else {
            None
        }
    }

    /// The exact difference; `None` where it does not fit at the larger scale.
    pub fn sub(&self, o: &Dec) -> (r: Option<Dec>)
        requires
            self.wf(),
            o.wf(),
        ensures
            r == self.spec_sub(*o),
            r is Some ==> r->0.wf() && r->0.units() == self.units() - o.units(),
    {
        let n = o.neg();
        self.add(&n)
    }

    /// The exact product; `None` where the scale or the mantissa is out of range.
    pub fn mul(&self, o: &Dec) -> (r: Option<Dec>)
        requires
            self.wf(),
            o.wf(),
        ensures
            r == self.spec_mul(*o),
            r is Some ==> r->0.wf() && r->0.units() * pow10(MAX_SCALE as nat) == self.units()
                * o.units(),
    {
        if self.scale + o.scale > MAX_SCALE {
            return None;
        }
        proof {
            lemma_mul_units(*self, *o);
        }
        match self.mantissa.checked_mul(o.mantissa) {
            Some(m) => {
                if -MAX_MANTISSA <= m && m <= MAX_MANTISSA {
                    Some(Dec { mantissa: m, scale: self.scale + o.scale })
                } else {
                    None
                }
            },
            None => None,
        }
    }
}

/// What `rust_decimal` writes for a value (its `Display`, which its `Debug` also uses).
pub uninterp spec fn decimal_text(d: Dec) -> Seq<char>;

/// What `rust_decimal`'s `checked_div` gives for `a / b`.
pub uninterp spec fn decimal_quotient(a: Dec, b: Dec) -> Option<Dec>;

/// What `rust_decimal`'s `round_dp` gives for `d` at `dp` decimal places.
pub uninterp spec fn decimal_rounded(d: Dec, dp: u32) -> Dec;

/// Relies on `rust_decimal::Decimal`'s `Ord`, which orders by value.
#[verifier::external_body]
pub(crate) fn compare(a: &Dec, b: &Dec) -> (r: core::cmp::Ordering)
    requires
        a.wf(),
        b.wf(),
    ensures
        (r == core::cmp::Ordering::Less) == (a.units() < b.units()),
        (r == core::cmp::Ordering::Equal) == (a.units() == b.units()),
        (r == core::cmp::Ordering::Greater) == (a.units() > b.units()),
{
    let x = rust_decimal::Decimal::from_i128_with_scale(a.mantissa, a.scale);
    let y = rust_decimal::Decimal::from_i128_with_scale(b.mantissa, b.scale);
    x.cmp(&y)
}

/// Relies on `rust_decimal::Decimal`'s `Display` for the text of a value.
#[verifier::external_body]
pub(crate) fn to_text(d: &Dec) -> (r: String)
    requires
        d.wf(),
    ensures
        r@ == decimal_text(*d),
{
    rust_decimal::Decimal::from_i128_with_scale(d.mantissa, d.scale).to_string()
}

/// Relies on `rust_decimal::Decimal::checked_div`: `None` on a zero divisor or an
/// overflow; every `Decimal` it returns is in the range of [`Dec`].
#[verifier::external_body]
fn checked_quotient(a: &Dec, b: &Dec) -> (r: Option<Dec>)
    requires
        a.wf(),
        b.wf(),
    ensures
        r == decimal_quotient(*a, *b),
        r is Some ==> r->0.wf(),
{
    let x = rust_decimal::Decimal::from_i128_with_scale(a.mantissa, a.scale);
    let y = rust_decimal::Decimal::from_i128_with_scale(b.mantissa, b.scale);
    x.checked_div(y).map(|q| Dec { mantissa: q.mantissa(), scale: q.scale() })
}

/// Relies on `rust_decimal::Decimal::round_dp` (banker's rounding); every `Decimal`
/// it returns is in the range of [`Dec`].
#[verifier::external_body]
pub(crate) fn round_dp(d: &Dec, dp: u32) -> (r: Dec)
    requires
        d.wf(),
    ensures
        r == decimal_rounded(*d, dp),
        r.wf(),
{
    let q = rust_decimal::Decimal::from_i128_with_scale(d.mantissa, d.scale).round_dp(dp);
    Dec { mantissa: q.mantissa(), scale: q.scale() }
}

/// `a / b` rounded to `dp` decimal places, as `rust_decimal` computes it; `None`
/// where the divisor is zero or the quotient is out of range.
pub fn quotient_rounded(a: &Dec, b: &Dec, dp: u32) -> (r: Option<Dec>)
    requires
        a.wf(),
        b.wf(),
    ensures
        r == (match decimal_quotient(*a, *b) {
            Some(q) => Some(decimal_rounded(q, dp)),
            None => None,
        }),
        r is Some ==> r->0.wf(),
{
    match checked_quotient(a, b) {
        Some(q) => Some(round_dp(&q, dp)),
        None => None,
    }
}

/// `10^n` for `n` up to the largest scale.
fn pow10_exec(n: u32) -> (r: i128)
    requires
        n <= MAX_SCALE,
    ensures
        r == pow10(n as nat),
        r > 0,
{
    let mut r: i128 = 1;
    let mut i: u32 = 0;
    while i < n
        invariant
            i <= n <= MAX_SCALE,
            r == pow10(i as nat),
            0 < r <= pow10(i as nat),
        decreases n - i,
    {
        proof {
            lemma_pow10_bound(i as nat);
        }
        r = r * 10;
        i = i + 1;
    }
    r
}

pub proof fn lemma_pow10_pos(n: nat)
    ensures
        pow10(n) >= 1,
    decreases n,
{
    if n > 0 {
        lemma_pow10_pos((n - 1) as nat);
    }
}

proof fn lemma_pow10_bound(n: nat)
    requires
        n < MAX_SCALE,
    ensures
        10 * pow10(n) <= 10000000000000000000000000000,
{
    reveal_with_fuel(pow10, 29);
    assert(pow10(28) == 10000000000000000000000000000);
    let k = (MAX_SCALE - n - 1) as nat;
    lemma_pow10_add(n + 1, k);
    assert(n + 1 + k == 28);
    lemma_pow10_pos(k);
    assert(pow10(n + 1) * pow10(k) >= pow10(n + 1)) by (nonlinear_arith)
        requires
            pow10(k) >= 1,
            pow10(n + 1) >= 1,
    ;
    lemma_pow10_pos(n + 1);
}

pub proof fn lemma_pow10_add(a: nat, b: nat)
    ensures
        pow10(a + b) == pow10(a) * pow10(b),
    decreases a,
{
    if a > 0 {
        lemma_pow10_add((a - 1) as nat, b);
        assert(pow10(a + b) == 10 * pow10((a - 1 + b) as nat));
        assert(10 * (pow10((a - 1) as nat) * pow10(b)) == (10 * pow10((a - 1) as nat)) * pow10(b))
            by (nonlinear_arith);
    }
}

/// The sign of the value is the sign of the mantissa.
pub proof fn lemma_units_sign(d: Dec)
    ensures
        (d.units() > 0) == (d.mantissa > 0),
        (d.units() == 0) == (d.mantissa == 0),
        (d.units() < 0) == (d.mantissa < 0),
{
    let p = pow10((MAX_SCALE - d.scale) as nat);
    lemma_pow10_pos((MAX_SCALE - d.scale) as nat);
    let m = d.mantissa as int;
    assert(m > 0 ==> m * p > 0) by (nonlinear_arith)
        requires
            p >= 1,
    ;
    assert(m < 0 ==> m * p < 0) by (nonlinear_arith)
        requires
            p >= 1,
    ;
}

pub proof fn lemma_neg_units(d: Dec)
    requires
        d.wf(),
    ensures
        d.spec_neg().units() == -d.units(),
        d.spec_neg().wf(),
{
    let p = pow10((MAX_SCALE - d.scale) as nat);
    assert((-d.mantissa) * p == -(d.mantissa * p)) by (nonlinear_arith);
}

/// A mantissa scaled up by a positive power of ten that leaves the range of `i128`
/// leaves the range of the type by more than any other mantissa can make up.
proof fn lemma_mul_big(m: int, p: int)
    requires
        p >= 1,
    ensures
        m * p > i128::MAX ==> m * p > 2 * MAX_MANTISSA,
        m * p < i128::MIN ==> m * p < -2 * MAX_MANTISSA,
{
}

proof fn lemma_aligned_units(d: Dec, s: nat)
    requires
        d.scale <= s <= MAX_SCALE,
    ensures
        aligned(d, s) * pow10((MAX_SCALE - s) as nat) == d.units(),
{
    let k = (s - d.scale) as nat;
    let j = (MAX_SCALE - s) as nat;
    lemma_pow10_add(k, j);
    assert((k + j) as nat == (MAX_SCALE - d.scale) as nat);
    assert(d.mantissa * pow10(k) * pow10(j) == d.mantissa * (pow10(k) * pow10(j)))
        by (nonlinear_arith);
}

/// A difference that fits is exact.
pub proof fn lemma_sub_exact(a: Dec, b: Dec)
    requires
        a.wf(),
        b.wf(),
    ensures
        a.spec_sub(b) is Some ==> a.spec_sub(b)->0.wf() && a.spec_sub(b)->0.units() == a.units()
            - b.units(),
{
    lemma_neg_units(b);
    lemma_add_units(a, b.spec_neg());
}

proof fn lemma_add_units(a: Dec, b: Dec)
    requires
        a.wf(),
        b.wf(),
    ensures
        a.spec_add(b) is Some ==> a.spec_add(b)->0.wf() && a.spec_add(b)->0.units() == a.units()
            + b.units(),
{
    let s = max_scale(a, b);
    lemma_aligned_units(a, s);
    lemma_aligned_units(b, s);
    let p = pow10((MAX_SCALE - s) as nat);
    assert((aligned(a, s) + aligned(b, s)) * p == aligned(a, s) * p + aligned(b, s) * p)
        by (nonlinear_arith);
}

proof fn lemma_mul_units(a: Dec, b: Dec)
    requires
        a.wf(),
        b.wf(),
        a.scale + b.scale <= MAX_SCALE,
    ensures
        a.spec_mul(b) is Some ==> a.spec_mul(b)->0.wf() && a.spec_mul(b)->0.units() * pow10(
            MAX_SCALE as nat,
        ) == a.units() * b.units(),
{
    let s = (a.scale + b.scale) as nat;
    let ka = (MAX_SCALE - a.scale) as nat;
    let kb = (MAX_SCALE - b.scale) as nat;
    let k = (MAX_SCALE - s) as nat;
    lemma_pow10_add(ka, kb);
    lemma_pow10_add(k, MAX_SCALE as nat);
    assert(ka + kb == k + MAX_SCALE);
    let ma = a.mantissa as int;
    let mb = b.mantissa as int;
    let pa = pow10(ka);
    let pb = pow10(kb);
    let pk = pow10(k);
    let pm = pow10(MAX_SCALE as nat);
    assert((ma * pa) * (mb * pb) == (ma * mb) * (pa * pb)) by (nonlinear_arith);
    assert((ma * mb) * (pk * pm) == (ma * mb) * pk * pm) by (nonlinear_arith);
}

} // verus!
