use vstd::prelude::*;

verus! {

/// An exact rational number `numer / denom`, with a positive denominator.
///
/// Fractions are not reduced: two fractions denote the same number when
/// their cross products agree (see `same_value`).
#[derive(Clone, Copy, Debug, PartialEq, Eq, Structural)]
pub struct Fraction {
    pub numer: i128,
    pub denom: i128,
}

/// Whether two (numerator, denominator) pairs denote the same rational number.
pub open spec fn same_value(a: (int, int), b: (int, int)) -> bool {
    a.0 * b.1 == b.0 * a.1
}

/// Whether the rational `a` is at most the rational `b` (positive denominators).
pub open spec fn value_le(a: (int, int), b: (int, int)) -> bool {
    a.0 * b.1 <= b.0 * a.1
}

impl View for Fraction {
    type V = (int, int);

    open spec fn view(&self) -> (int, int) {
        (self.numer as int, self.denom as int)
    }
}

impl Fraction {
    pub open spec fn valid(&self) -> bool {
        self.denom > 0
    }

    /// Small enough for one more product in `i128`: a denominator below
    /// 2^46 and a numerator below 2^79 in size.
    pub open spec fn bounded(&self) -> bool {
        0 < self.denom < 0x4000_0000_0000 && -0x8000_0000_0000_0000_0000 < self.numer
            < 0x8000_0000_0000_0000_0000
    }

    /// The fraction `numer / denom`.
    pub fn new(numer: i128, denom: i128) -> (r: Fraction)
        requires
            denom > 0,
        ensures
            r@ == (numer as int, denom as int),
            r.valid(),
    {
        Fraction { numer, denom }
    }

    pub fn numer(&self) -> (r: i128)
        ensures
            r == self.numer,
    {
        self.numer
    }

    pub fn denom(&self) -> (r: i128)
        ensures
            r == self.denom,
    {
        self.denom
    }
}

} // verus!
