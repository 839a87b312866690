use vstd::prelude::*;

use crate::fraction::Fraction;
use crate::marginal_schedule::RATE_SCALE;

verus! {

/// One bracket of a marginal-rate table: the rate (in basis points) that
/// applies to income up to `income_limit`, the numerator of the limit over
/// its table's limit denominator (one, but for a table rescaled by an
/// exchange rate). `None` marks the unbounded top bracket.
#[derive(Clone, Copy, Debug, PartialEq, Eq, Structural)]
pub struct MarginalRateKnot {
    pub marginal_rate: u32,
    pub income_limit: Option<i64>,
}

impl MarginalRateKnot {
    pub fn new(income_limit: Option<i64>, marginal_rate: u32) -> (r: MarginalRateKnot)
        ensures
            r.income_limit == income_limit,
            r.marginal_rate == marginal_rate,
    {
        MarginalRateKnot { marginal_rate, income_limit }
    }

    pub fn marginal_rate(&self) -> (r: u32)
        ensures
            r == self.marginal_rate,
    {
        self.marginal_rate
    }

    pub fn income_limit(&self) -> (r: Option<i64>)
        ensures
            r == self.income_limit,
    {
        self.income_limit
    }
}

/// A point of a cumulative tax curve: the tax owed on an income of exactly
/// `income_limit`, held exactly in ten-thousandths of a minor unit.
#[derive(Clone, Copy, Debug, PartialEq, Eq, Structural)]
pub struct IncomeTaxKnot {
    pub income_tax_amount_bp: i64,
    pub income_limit: i32,
}

/// The largest tax amount a knot holds, in ten-thousandths of a minor unit:
/// the full rate on the largest `i32` income.
pub const AMOUNT_BOUND: i64 = 21_474_836_480_000;

impl IncomeTaxKnot {
    /// A knot whose tax amount is a whole number of minor units.
    pub fn new(income_limit: i32, income_tax_amount: i32) -> (r: IncomeTaxKnot)
        ensures
            r.income_limit == income_limit,
            r.income_tax_amount_bp == income_tax_amount * RATE_SCALE,
            r.bounded(),
    {
        IncomeTaxKnot {
            income_tax_amount_bp: income_tax_amount as i64 * RATE_SCALE as i64,
            income_limit,
        }
    }

    /// The amount fits the arithmetic of the curves: at most
    /// `AMOUNT_BOUND` in size.
    pub open spec fn bounded(&self) -> bool {
        -AMOUNT_BOUND <= self.income_tax_amount_bp <= AMOUNT_BOUND
    }

    /// The tax amount in minor units, exactly.
    pub fn income_tax_amount(&self) -> (r: Fraction)
        ensures
            r@ == (self.income_tax_amount_bp as int, RATE_SCALE as int),
    {
        Fraction { numer: self.income_tax_amount_bp as i128, denom: RATE_SCALE as i128 }
    }

    pub fn income_limit(&self) -> (r: i32)
        ensures
            r == self.income_limit,
    {
        self.income_limit
    }
}

/// A point with rational coordinates: income `income_numer / denom` and
/// tax `income_tax_amount_numer / (denom * RATE_SCALE)`, for a positive
/// `denom`.
#[derive(Clone, Copy, Debug, PartialEq, Eq, Structural)]
pub struct IncomeTaxPoint {
    pub income_numer: i128,
    pub income_tax_amount_numer: i128,
    pub denom: i128,
}

impl View for IncomeTaxPoint {
    type V = (int, int, int);

    open spec fn view(&self) -> (int, int, int) {
        (self.income_numer as int, self.income_tax_amount_numer as int, self.denom as int)
    }
}

impl IncomeTaxPoint {
    /// Sizes that the arithmetic on points allows: a denominator below
    /// 2^80, an income numerator below 2^112 and a tax numerator below
    /// 2^126.
    pub open spec fn bounded(&self) -> bool {
        &&& 0 < self.denom < 0x1_0000_0000_0000_0000_0000
        &&& -0x1_0000_0000_0000_0000_0000_0000_0000 < self.income_numer
            < 0x1_0000_0000_0000_0000_0000_0000_0000
        &&& -0x4000_0000_0000_0000_0000_0000_0000_0000 < self.income_tax_amount_numer
            < 0x4000_0000_0000_0000_0000_0000_0000_0000
    }

    /// The point `(income / denom, income_tax_amount / (denom * RATE_SCALE))`.
    pub fn new(income: i128, income_tax_amount: i128, denom: i128) -> (r: IncomeTaxPoint)
        requires
            denom > 0,
        ensures
            r@ == (income as int, income_tax_amount as int, denom as int),
    {
        IncomeTaxPoint { income_numer: income, income_tax_amount_numer: income_tax_amount, denom }
    }

    pub fn income(&self) -> (r: Fraction)
        ensures
            r@ == (self.income_numer as int, self.denom as int),
    {
        Fraction { numer: self.income_numer, denom: self.denom }
    }

    pub fn income_tax_amount(&self) -> (r: Fraction)
        requires
            self.bounded(),
        ensures
            r@ == (self.income_tax_amount_numer as int, self.denom * RATE_SCALE),
    {
        Fraction { numer: self.income_tax_amount_numer, denom: self.denom * RATE_SCALE as i128 }
    }

    /// Tax as a share of income at this point; zero at zero income.
    pub fn effective_tax_rate(&self) -> (r: Fraction)
        requires
            self.bounded(),
        ensures
            r.valid(),
            self.income_numer == 0 ==> r@ == (0int, 1int),
            self.income_numer != 0 ==> same_rate(
                r@,
                (self.income_tax_amount_numer as int, self.income_numer * RATE_SCALE),
            ),
    {
        if self.income_numer == 0 {
            Fraction { numer: 0, denom: 1 }
        } else if self.income_numer > 0 {
            Fraction {
                numer: self.income_tax_amount_numer,
                denom: self.income_numer * RATE_SCALE as i128,
            }
        } else {
            Fraction {
                numer: -self.income_tax_amount_numer,
                denom: -self.income_numer * RATE_SCALE as i128,
            }
        }
    }
}

/// `r` is the quotient `q.0 / q.1` written with a positive denominator.
pub open spec fn same_rate(r: (int, int), q: (int, int)) -> bool {
    r.1 > 0 && ((q.1 > 0 && r == q) || (q.1 < 0 && r == (-q.0, -q.1)))
}

} // verus!
