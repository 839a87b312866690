use vstd::prelude::*;

verus! {

/// Why an evaluation of a tax curve was refused.
#[derive(Clone, Copy, Debug, PartialEq, Eq, Structural)]
pub enum TaxError {
    /// The income to evaluate is below zero.
    NegativeIncome(i32),
    /// An income lies beyond the curve's last knot.
    IncomeOutOfBounds,
    /// No tax curve can be built: the exchange rate is zero or leaves no
    /// valid bracket table, or the maximum income is not positive.
    InvalidSchedule,
}

} // verus!
