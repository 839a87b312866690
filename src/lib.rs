//! Progressive income tax schedules: converting marginal-rate bracket tables
//! into cumulative tax curves, evaluating those curves, and finding the
//! incomes at which two curves break even.
//!
//! Incomes are whole numbers of a currency's minor unit and marginal rates
//! are in basis points. Everything is exact: a bracket limit rescaled by an
//! exchange rate is held as a fraction over its table's limit denominator,
//! curve knots hold tax amounts in ten-thousandths of a minor unit, and
//! every computed tax, rate or break-even point is an exact fraction. Tax
//! curves need whole-unit limits, so a rescaled table is rounded down to
//! whole minor units where a curve is built from it, and only there.
pub mod amount_schedule;
pub mod errors;
pub mod exchange_rates;
pub mod fraction;
pub mod knots;
pub mod marginal_schedule;
mod parallel;
pub mod segment;
pub mod taxes_config;
pub mod utils;

pub use amount_schedule::IncomeTaxAmountSchedule;
pub use errors::TaxError;
pub use fraction::Fraction;
pub use marginal_schedule::MarginalIncomeTaxRateSchedule;
pub use knots::{IncomeTaxKnot, IncomeTaxPoint, MarginalRateKnot};
pub use segment::LinearPiecewiseSegment;
