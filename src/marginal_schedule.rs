use vstd::prelude::*;

use crate::errors::TaxError;
use crate::fraction::Fraction;
use crate::amount_schedule::{
    curve_value,
    increasing_limits,
    knots_bounded,
    lemma_curve_monotone,
    lemma_segment_index_bounds,
    segment_index_from,
    nondecreasing_amounts,
    valid_amount_knots,
    IncomeTaxAmountSchedule,
};
use crate::fraction::{same_value, value_le};
use crate::segment::lemma_mul_bound;
use crate::knots::{IncomeTaxKnot, MarginalRateKnot};

verus! {

/// Basis points in a whole: a marginal rate of `RATE_SCALE` is 100%.
pub const RATE_SCALE: u32 = 10_000;

/// Parts per million in a whole: an exchange rate of `UNIT_EXCHANGE_RATE`
/// is 1.
pub const UNIT_EXCHANGE_RATE: u64 = 1_000_000;

/// The largest bracket limit numerator a table holds (2^62).
pub const MAX_LIMIT: i64 = 0x4000_0000_0000_0000;

/// The finite income limit of bracket `i` (zero for the unbounded one).
pub open spec fn limit_of(k: Seq<MarginalRateKnot>, i: int) -> int {
    match k[i].income_limit {
        Some(v) => v as int,
        None => 0,
    }
}

/// The limit below bracket `i`: zero for the first bracket.
pub open spec fn prev_limit(k: Seq<MarginalRateKnot>, i: int) -> int {
    if i <= 0 {
        0
    } else {
        limit_of(k, i - 1)
    }
}

/// The rate of the bracket below bracket `i`: zero for the first bracket.
pub open spec fn prev_rate(k: Seq<MarginalRateKnot>, i: int) -> int {
    if i <= 0 {
        0
    } else {
        k[i - 1].marginal_rate as int
    }
}

pub open spec fn excess(x: int, b: int) -> int {
    if x > b {
        x - b
    } else {
        0
    }
}

/// A bracket table: at least one bracket; every bracket but the last has
/// a limit; limits are positive, at most `MAX_LIMIT`, and rise strictly;
/// rates are between 0 and 100%.
pub open spec fn valid_marginal_knots(k: Seq<MarginalRateKnot>) -> bool {
    &&& k.len() >= 1
    &&& forall|i: int|
        0 <= i < k.len() && (#[trigger] k[i].income_limit) is Some ==> limit_of(k, i) <= MAX_LIMIT
    &&& forall|i: int| 0 <= i < k.len() - 1 ==> (#[trigger] k[i].income_limit) is Some
    &&& forall|i: int| 0 <= i < k.len() ==> #[trigger] k[i].marginal_rate <= RATE_SCALE
    &&& forall|i: int|
        0 <= i < k.len() && (#[trigger] k[i].income_limit) is Some ==> limit_of(k, i) > prev_limit(
            k,
            i,
        )
}

/// The first `n` terms of the tax formula, in basis points of a minor unit:
/// the sum of `(r_i - r_(i-1)) * max(0, x - b_(i-1))` with `(b_(-1), r_(-1))
/// = (0, 0)`.
pub open spec fn tax_terms(k: Seq<MarginalRateKnot>, x: int, n: int) -> int
    decreases n,
{
    if n <= 0 {
        0
    } else {
        tax_terms(k, x, n - 1) + (k[n - 1].marginal_rate - prev_rate(k, n - 1)) * excess(
            x,
            prev_limit(k, n - 1),
        )
    }
}

/// The tax owed on income `x`, exactly, in ten-thousandths of a minor unit.
pub open spec fn marginal_tax(k: Seq<MarginalRateKnot>, x: int) -> int {
    tax_terms(k, x, k.len() as int)
}

/// The part of income `x` that falls inside bracket `i`.
pub open spec fn portion(k: Seq<MarginalRateKnot>, x: int, i: int) -> int {
    let lo = prev_limit(k, i);
    let hi = limit_of(k, i);
    if x <= lo {
        0
    } else if x >= hi {
        hi - lo
    } else {
        x - lo
    }
}

/// The tax, in basis points, on the parts of `x` inside the first `m`
/// brackets, each at its own rate.
pub open spec fn bracket_tax(k: Seq<MarginalRateKnot>, x: int, m: int) -> int
    decreases m,
{
    if m <= 0 {
        0
    } else {
        bracket_tax(k, x, m - 1) + k[m - 1].marginal_rate * portion(k, x, m - 1)
    }
}

/// The formula's first `n` terms are the bracket-by-bracket tax on the
/// first `n - 1` brackets plus the `n`-th rate on all income above them.
pub proof fn lemma_terms_as_brackets(k: Seq<MarginalRateKnot>, x: int, n: int)
    requires
        valid_marginal_knots(k),
        1 <= n <= k.len(),
    ensures
        tax_terms(k, x, n) == bracket_tax(k, x, n - 1) + k[n - 1].marginal_rate * excess(
            x,
            prev_limit(k, n - 1),
        ),
    decreases n,
{
    if n > 1 {
        lemma_terms_as_brackets(k, x, n - 1);
        let r0 = k[n - 2].marginal_rate as int;
        let r1 = k[n - 1].marginal_rate as int;
        let lo = prev_limit(k, n - 2);
        let hi = prev_limit(k, n - 1);
        assert(k[n - 2].income_limit is Some);
        assert(hi == limit_of(k, n - 2));
        assert(hi > lo);
        assert(excess(x, lo) - excess(x, hi) == portion(k, x, n - 2));
        let e0 = excess(x, lo);
        let e1 = excess(x, hi);
        assert(prev_rate(k, n - 1) == r0);
        assert(tax_terms(k, x, n) == tax_terms(k, x, n - 1) + (r1 - r0) * e1);
        assert(tax_terms(k, x, n - 1) == bracket_tax(k, x, n - 2) + r0 * e0);
        assert(bracket_tax(k, x, n - 1) == bracket_tax(k, x, n - 2) + r0 * portion(k, x, n - 2));
        assert(r0 * e0 + (r1 - r0) * e1 == r0 * (e0 - e1) + r1 * e1) by (nonlinear_arith);
    } else {
        assert(tax_terms(k, x, 0) == 0);
        assert(bracket_tax(k, x, 0) == 0);
        assert(prev_rate(k, 0) == 0);
        assert(tax_terms(k, x, 1) == (k[0].marginal_rate - 0) * excess(x, prev_limit(k, 0)));
    }
}

/// For income `x >= 0`, the tax on the first `m` brackets is at least zero
/// and at most the full rate on the income they span.
pub proof fn lemma_bracket_tax_bounds(k: Seq<MarginalRateKnot>, x: int, m: int)
    requires
        valid_marginal_knots(k),
        0 <= m < k.len(),
        x >= 0,
    ensures
        0 <= bracket_tax(k, x, m),
        bracket_tax(k, x, m) <= RATE_SCALE * (if x < prev_limit(k, m) {
            x
        } else {
            prev_limit(k, m)
        }),
    decreases m,
{
    if m > 0 {
        lemma_bracket_tax_bounds(k, x, m - 1);
        let r = k[m - 1].marginal_rate as int;
        let p = portion(k, x, m - 1);
        assert(k[m - 1].income_limit is Some);
        assert(limit_of(k, m - 1) > prev_limit(k, m - 1));
        assert(0 <= p);
        assert(0 <= r * p <= RATE_SCALE * p) by (nonlinear_arith)
            requires
                0 <= r <= RATE_SCALE,
                0 <= p,
        ;
    }
}

/// Tax on each bracket does not fall as income rises.
pub proof fn lemma_bracket_tax_monotone(k: Seq<MarginalRateKnot>, x: int, y: int, m: int)
    requires
        valid_marginal_knots(k),
        0 <= m < k.len(),
        x <= y,
    ensures
        bracket_tax(k, x, m) <= bracket_tax(k, y, m),
    decreases m,
{
    if m > 0 {
        lemma_bracket_tax_monotone(k, x, y, m - 1);
        let r = k[m - 1].marginal_rate as int;
        assert(k[m - 1].income_limit is Some);
        assert(limit_of(k, m - 1) > prev_limit(k, m - 1));
        let p = portion(k, x, m - 1);
        let q = portion(k, y, m - 1);
        assert(p <= q);
        assert(r * p <= r * q) by (nonlinear_arith)
            requires
                0 <= r,
                p <= q,
        ;
    }
}

/// For income `x >= 0` the formula's first `n` terms (`n >= 1`) add up to
/// at least zero and at most `x` at the full rate.
pub proof fn lemma_tax_terms_bounds(k: Seq<MarginalRateKnot>, x: int, n: int)
    requires
        valid_marginal_knots(k),
        1 <= n <= k.len(),
        x >= 0,
    ensures
        0 <= tax_terms(k, x, n) <= RATE_SCALE * x,
{
    lemma_terms_as_brackets(k, x, n);
    lemma_bracket_tax_bounds(k, x, n - 1);
    let r = k[n - 1].marginal_rate as int;
    let e = excess(x, prev_limit(k, n - 1));
    let p = prev_limit(k, n - 1);
    assert(0 <= r * e <= RATE_SCALE * e) by (nonlinear_arith)
        requires
            0 <= r <= RATE_SCALE,
            0 <= e,
    ;
    assert(RATE_SCALE * (if x < p {
        x
    } else {
        p
    }) + RATE_SCALE * e == RATE_SCALE * x) by (nonlinear_arith)
        requires
            e == (if x > p {
                x - p
            } else {
                0
            }),
    ;
}

/// The tax does not fall as income rises.
pub proof fn lemma_marginal_tax_monotone(k: Seq<MarginalRateKnot>, x: int, y: int)
    requires
        valid_marginal_knots(k),
        x <= y,
    ensures
        tax_terms(k, x, k.len() as int) <= tax_terms(k, y, k.len() as int),
        marginal_tax(k, x) <= marginal_tax(k, y),
{
    let n = k.len() as int;
    lemma_terms_as_brackets(k, x, n);
    lemma_terms_as_brackets(k, y, n);
    lemma_bracket_tax_monotone(k, x, y, n - 1);
    let r = k[n - 1].marginal_rate as int;
    let p = prev_limit(k, n - 1);
    assert(r * excess(x, p) <= r * excess(y, p)) by (nonlinear_arith)
        requires
            0 <= r,
            excess(x, p) <= excess(y, p),
    ;
}

/// Every limit is a whole number of minor units that fits an `i32`.
pub open spec fn whole_unit_limits(k: Seq<MarginalRateKnot>) -> bool {
    forall|i: int|
        0 <= i < k.len() && (#[trigger] k[i].income_limit) is Some ==> limit_of(k, i) <= i32::MAX
}

/// Every finite limit is positive.
pub proof fn lemma_limit_positive(k: Seq<MarginalRateKnot>, i: int)
    requires
        valid_marginal_knots(k),
        0 <= i < k.len(),
        k[i].income_limit is Some,
    ensures
        limit_of(k, i) > 0,
    decreases i,
{
    assert(limit_of(k, i) > prev_limit(k, i));
    if i > 0 {
        assert(k[i - 1].income_limit is Some);
        lemma_limit_positive(k, i - 1);
    }
}

/// Limits rise strictly across the whole table, not only from one bracket
/// to the next.
pub proof fn lemma_limits_increasing(k: Seq<MarginalRateKnot>, i: int, j: int)
    requires
        valid_marginal_knots(k),
        0 <= i < j < k.len(),
        k[j].income_limit is Some,
    ensures
        0 < limit_of(k, i) < limit_of(k, j),
    decreases j - i,
{
    assert(k[i].income_limit is Some);
    lemma_limit_positive(k, i);
    assert(limit_of(k, j) > prev_limit(k, j));
    if j > i + 1 {
        assert(k[j - 1].income_limit is Some);
        lemma_limits_increasing(k, i, j - 1);
    }
}

/// Number of brackets, from bracket `i` on, that are not the top bracket and
/// end below `max`, counted up to the first that does not.
pub open spec fn brackets_below(k: Seq<MarginalRateKnot>, max: int, i: int) -> int
    decreases k.len() - i,
{
    if i < 0 || i + 1 >= k.len() || limit_of(k, i) >= max {
        i
    } else {
        brackets_below(k, max, i + 1)
    }
}

/// The cumulative tax curve of table `k` up to income `max`: the origin, one
/// knot at each bracket limit below `max` (the top bracket aside), and a
/// last knot at `max`; each with the tax owed at its income.
pub open spec fn converted_knots(k: Seq<MarginalRateKnot>, max: int) -> Seq<IncomeTaxKnot> {
    seq![IncomeTaxKnot { income_tax_amount_bp: 0, income_limit: 0 }] + Seq::new(
        brackets_below(k, max, 0) as nat,
        |i: int| limit_knot(k, i),
    ) + seq![IncomeTaxKnot { income_tax_amount_bp: marginal_tax(k, max) as i64, income_limit: max as i32 }]
}

/// The knot at the limit of bracket `i`, with the tax owed there.
pub open spec fn limit_knot(k: Seq<MarginalRateKnot>, i: int) -> IncomeTaxKnot {
    IncomeTaxKnot {
        income_tax_amount_bp: marginal_tax(k, limit_of(k, i)) as i64,
        income_limit: limit_of(k, i) as i32,
    }
}

/// Table `k` with every limit multiplied by `u` and the rates kept.
pub open spec fn scaled_knots(k: Seq<MarginalRateKnot>, u: int) -> Seq<MarginalRateKnot> {
    k.map_values(
        |b: MarginalRateKnot|
            MarginalRateKnot {
                marginal_rate: b.marginal_rate,
                income_limit: match b.income_limit {
                    Some(v) => Some((v * u) as i64),
                    None => None,
                },
            },
    )
}

/// The table, as knots and a limit denominator, that an optional exchange
/// rate `m` (parts per million, local units per foreign unit) turns a
/// whole-unit table `k` into: each limit `b` becomes exactly `b / m`, that
/// is `b * 1_000_000` over the denominator `p`. No rate, or the rate one,
/// keeps `k` over one; a zero rate, or one above `u32::MAX`, gives none.
pub open spec fn adjusted_table(k: Seq<MarginalRateKnot>, rate: Option<u64>) -> Option<
    (Seq<MarginalRateKnot>, int),
> {
    match rate {
        None => Some((k, 1)),
        Some(p) => if p == UNIT_EXCHANGE_RATE {
            Some((k, 1))
        } else if p == 0 || p > u32::MAX {
            None
        } else {
            Some((scaled_knots(k, UNIT_EXCHANGE_RATE as int), p as int))
        },
    }
}

/// Table `k`, whose limits are over denominator `d`, with each limit
/// rounded down to a whole minor unit.
pub open spec fn rounded_knots(k: Seq<MarginalRateKnot>, d: int) -> Seq<MarginalRateKnot> {
    k.map_values(
        |b: MarginalRateKnot|
            MarginalRateKnot {
                marginal_rate: b.marginal_rate,
                income_limit: match b.income_limit {
                    Some(v) => Some(((v as int) / d) as i64),
                    None => None,
                },
            },
    )
}

/// The whole-unit table at or below `k` over denominator `d`: its rounded
/// limits, when they still form a valid table that fits an `i32`.
pub open spec fn rounded_table(k: Seq<MarginalRateKnot>, d: int) -> Option<Seq<MarginalRateKnot>> {
    if valid_marginal_knots(rounded_knots(k, d)) && whole_unit_limits(rounded_knots(k, d)) {
        Some(rounded_knots(k, d))
    } else {
        None
    }
}

/// The whole-unit table that a tax curve is built from, for table `k` at
/// an optional exchange rate: the exactly rescaled table, rounded down to
/// whole minor units (see `adjusted_table` and `rounded_table`).
pub open spec fn curve_table(k: Seq<MarginalRateKnot>, rate: Option<u64>) -> Option<
    Seq<MarginalRateKnot>,
> {
    match adjusted_table(k, rate) {
        Some(a) => rounded_table(a.0, a.1),
        None => None,
    }
}

/// Multiplying every limit of a valid whole-unit table by a positive `u`
/// that keeps them below `MAX_LIMIT` gives a valid table.
pub proof fn lemma_scaled_valid(k: Seq<MarginalRateKnot>, u: int)
    requires
        valid_marginal_knots(k),
        whole_unit_limits(k),
        0 < u <= UNIT_EXCHANGE_RATE,
    ensures
        valid_marginal_knots(scaled_knots(k, u)),
        forall|i: int|
            0 <= i < k.len() ==> limit_of(scaled_knots(k, u), i) == #[trigger] limit_of(k, i) * u,
{
    let s = scaled_knots(k, u);
    assert forall|i: int| 0 <= i < k.len() implies limit_of(s, i) == #[trigger] limit_of(k, i) * u by {
        match k[i].income_limit {
            Some(v) => {
                lemma_limit_positive(k, i);
                assert(limit_of(k, i) <= i32::MAX);
                assert(s[i].income_limit == Some((v * u) as i64));
                assert(0 < v * u <= 0x8000_0000 * 1_000_000) by (nonlinear_arith)
                    requires
                        0 < v <= 0x7FFF_FFFF,
                        0 < u <= 1_000_000,
                ;
            },
            None => {
                assert(s[i].income_limit is None);
                assert(0 * u == 0);
            },
        }
    }
    assert forall|i: int| 0 <= i < s.len() && (#[trigger] s[i].income_limit) is Some implies limit_of(
        s,
        i,
    ) > prev_limit(s, i) by {
        assert(limit_of(k, i) > prev_limit(k, i));
        let a = limit_of(k, i);
        let b = prev_limit(k, i);
        if i > 0 {
            assert(limit_of(s, i - 1) == limit_of(k, i - 1) * u);
        }
        assert(a * u > b * u) by (nonlinear_arith)
            requires
                a > b,
                u > 0,
        ;
    }
    assert forall|i: int| 0 <= i < s.len() && (#[trigger] s[i].income_limit) is Some implies limit_of(
        s,
        i,
    ) <= MAX_LIMIT by {
        let a = limit_of(k, i);
        assert(a <= 0x7FFF_FFFF);
        assert(a * u <= 0x7FFF_FFFF * 1_000_000) by (nonlinear_arith)
            requires
                a <= 0x7FFF_FFFF,
                0 < u <= 1_000_000,
        ;
    }
    assert forall|i: int| 0 <= i < s.len() - 1 implies (#[trigger] s[i].income_limit) is Some by {
        assert(k[i].income_limit is Some);
    }
    assert forall|i: int| 0 <= i < s.len() implies #[trigger] s[i].marginal_rate <= RATE_SCALE by {
        assert(k[i].marginal_rate <= RATE_SCALE);
    }
}

/// Scaling every limit and the income by one factor scales the formula by
/// it too.
pub proof fn lemma_scaled_terms(k: Seq<MarginalRateKnot>, u: int, y: int, n: int)
    requires
        valid_marginal_knots(k),
        whole_unit_limits(k),
        0 < u <= UNIT_EXCHANGE_RATE,
        0 <= n <= k.len(),
    ensures
        tax_terms(scaled_knots(k, u), y * u, n) == u * tax_terms(k, y, n),
    decreases n,
{
    if n > 0 {
        lemma_scaled_terms(k, u, y, n - 1);
        lemma_scaled_valid(k, u);
        let s = scaled_knots(k, u);
        let i = n - 1;
        let b = prev_limit(k, i);
        if i > 0 {
            assert(limit_of(s, i - 1) == limit_of(k, i - 1) * u);
        } else {
            assert(b * u == 0) by (nonlinear_arith)
                requires
                    b == 0,
            ;
        }
        assert(prev_limit(s, i) == b * u);
        assert(prev_rate(s, i) == prev_rate(k, i));
        assert(s[i].marginal_rate == k[i].marginal_rate);
        assert(excess(y * u, b * u) == u * excess(y, b)) by (nonlinear_arith)
            requires
                u > 0,
                excess(y * u, b * u) == (if y * u > b * u {
                    y * u - b * u
                } else {
                    0
                }),
                excess(y, b) == (if y > b {
                    y - b
                } else {
                    0
                }),
        ;
        let d = k[i].marginal_rate - prev_rate(k, i);
        assert(tax_terms(s, y * u, n - 1) + d * (u * excess(y, b)) == u * (tax_terms(k, y, n - 1) + d
            * excess(y, b))) by (nonlinear_arith)
            requires
                tax_terms(s, y * u, n - 1) == u * tax_terms(k, y, n - 1),
        ;
    }
}

/// Rescaling a table by an exchange rate `m = p / 1_000_000` scales its tax
/// with it: the rescaled table taxes income `x` exactly as the table taxes
/// `m * x`, divided by `m`. The rescaled tax is
/// `sum of (r_i - r_(i-1)) * max(0, x * p - b_(i-1) * 1_000_000)` over
/// `RATE_SCALE * p`; at a whole income `y = m * x` that is the table's tax
/// at `y` times `1_000_000 / p`.
pub proof fn lemma_exchange_rate_scales_tax(k: Seq<MarginalRateKnot>, p: u64, x: int, y: int)
    requires
        valid_marginal_knots(k),
        whole_unit_limits(k),
        0 < p <= u32::MAX,
        p != UNIT_EXCHANGE_RATE,
        x * p == y * UNIT_EXCHANGE_RATE,
    ensures
        adjusted_table(k, Some(p)) == Some((scaled_knots(k, UNIT_EXCHANGE_RATE as int), p as int)),
        marginal_tax(scaled_knots(k, UNIT_EXCHANGE_RATE as int), x * p) == UNIT_EXCHANGE_RATE
            * marginal_tax(k, y),
{
    lemma_scaled_terms(k, UNIT_EXCHANGE_RATE as int, y, k.len() as int);
}

/// An exchange rate of one, like none, leaves a bracket table as it is,
/// and so the curve built from it.
pub proof fn lemma_unit_exchange_rate_keeps_schedule(k: Seq<MarginalRateKnot>)
    requires
        valid_marginal_knots(k),
        whole_unit_limits(k),
    ensures
        adjusted_table(k, Some(UNIT_EXCHANGE_RATE)) == Some((k, 1int)),
        adjusted_table(k, None) == Some((k, 1int)),
        curve_table(k, Some(UNIT_EXCHANGE_RATE)) == Some(k),
        curve_table(k, None) == Some(k),
{
    lemma_rounded_by_one(k);
}

/// Rounding limits over the denominator one changes nothing.
pub proof fn lemma_rounded_by_one(k: Seq<MarginalRateKnot>)
    requires
        valid_marginal_knots(k),
        whole_unit_limits(k),
    ensures
        rounded_knots(k, 1) == k,
        rounded_table(k, 1) == Some(k),
{
    assert forall|i: int| 0 <= i < k.len() implies #[trigger] rounded_knots(k, 1)[i] == k[i] by {
        match k[i].income_limit {
            Some(v) => {
                assert((v as int) / 1 == v);
            },
            None => {},
        }
    }
    assert(rounded_knots(k, 1) =~= k);
}

/// The inputs the per-country functions take: a valid table of whole-unit
/// limits, not yet rescaled.
pub open spec fn whole_unit_table(s: MarginalIncomeTaxRateSchedule) -> bool {
    valid_marginal_knots(s@) && whole_unit_limits(s@) && s.denom() == 1
}

/// The count of brackets below `max`, from bracket `i` on: each of them is
/// not the top bracket and ends below `max`.
pub proof fn lemma_brackets_below(k: Seq<MarginalRateKnot>, max: int, i: int)
    requires
        valid_marginal_knots(k),
        0 <= i <= k.len() - 1,
    ensures
        i <= brackets_below(k, max, i) <= k.len() - 1,
        forall|t: int|
            i <= t < brackets_below(k, max, i) ==> t < k.len() - 1 && #[trigger] limit_of(k, t) < max,
        brackets_below(k, max, i) == k.len() - 1 || limit_of(k, brackets_below(k, max, i)) >= max,
    decreases k.len() - i,
{
    if !(i + 1 >= k.len() || limit_of(k, i) >= max) {
        lemma_brackets_below(k, max, i + 1);
    }
}

/// The income of knot `t` of `converted_knots(k, max)`.
pub open spec fn converted_income(k: Seq<MarginalRateKnot>, max: int, t: int) -> int {
    if t == 0 {
        0
    } else if t <= brackets_below(k, max, 0) {
        limit_of(k, t - 1)
    } else {
        max
    }
}

/// Converting a valid table gives knots whose amounts never fall, and for a
/// positive `max` a valid cumulative tax curve.
pub proof fn lemma_converted_valid(k: Seq<MarginalRateKnot>, max: int)
    requires
        valid_marginal_knots(k),
        0 <= max <= i32::MAX,
    ensures
        converted_knots(k, max).len() == brackets_below(k, max, 0) + 2,
        forall|t: int|
            0 <= t < converted_knots(k, max).len() ==> (#[trigger] converted_knots(k, max)[t]).income_limit
                == converted_income(k, max, t) && converted_knots(k, max)[t].income_tax_amount_bp
                == marginal_tax(k, converted_income(k, max, t)),
        nondecreasing_amounts(converted_knots(k, max)),
        knots_bounded(converted_knots(k, max)),
        max > 0 ==> valid_amount_knots(converted_knots(k, max)),
{
    let c = brackets_below(k, max, 0);
    let ck = converted_knots(k, max);
    lemma_brackets_below(k, max, 0);
    assert forall|t: int| 0 <= t < ck.len() implies 0 <= converted_income(k, max, t) <= max
        && (#[trigger] ck[t]).income_limit == converted_income(k, max, t) && ck[t].bounded()
        && ck[t].income_tax_amount_bp == marginal_tax(k, converted_income(k, max, t)) by {
        let x = converted_income(k, max, t);
        if 0 < t <= c {
            assert(k[t - 1].income_limit is Some);
            lemma_limit_positive(k, t - 1);
        }
        lemma_tax_terms_bounds(k, x, k.len() as int);
        if t == 0 {
            assert(marginal_tax(k, 0) == 0);
        }
    }
    assert forall|i: int, j: int| 0 <= i < j < ck.len() implies converted_income(k, max, i)
        <= converted_income(k, max, j) && (max > 0 ==> converted_income(k, max, i)
        < converted_income(k, max, j)) by {
        if 0 < j <= c {
            assert(k[j - 1].income_limit is Some);
            lemma_limit_positive(k, j - 1);
            if 0 < i {
                lemma_limits_increasing(k, i - 1, j - 1);
            }
        }
        if 0 < i <= c {
            assert(limit_of(k, i - 1) < max);
        }
    }
    assert forall|i: int, j: int| 0 <= i < j < ck.len() implies (#[trigger] ck[i]).income_tax_amount_bp
        <= (#[trigger] ck[j]).income_tax_amount_bp by {
        lemma_marginal_tax_monotone(k, converted_income(k, max, i), converted_income(k, max, j));
    }
    if max > 0 {
        assert forall|i: int, j: int| 0 <= i < j < ck.len() implies (#[trigger] ck[i]).income_limit
            < (#[trigger] ck[j]).income_limit by {}
    }
}

/// On the tax curve of any valid table, the tax owed never falls as income
/// rises, anywhere up to the curve's maximum income.
pub proof fn lemma_converted_curve_monotone(k: Seq<MarginalRateKnot>, max: int, x: int, y: int)
    requires
        valid_marginal_knots(k),
        0 < max <= i32::MAX,
        0 <= x <= y <= max,
    ensures
        value_le(curve_value(converted_knots(k, max), x), curve_value(converted_knots(k, max), y)),
{
    lemma_converted_valid(k, max);
    lemma_curve_monotone(converted_knots(k, max), x, y);
}

/// Inside one bracket the tax formula is a straight line whose slope is
/// that bracket's rate: over the formula's first `n` terms, the slope is the
/// rate of bracket `min(n - 1, j)`.
pub proof fn lemma_terms_linear(k: Seq<MarginalRateKnot>, x: int, y: int, j: int, n: int)
    requires
        valid_marginal_knots(k),
        0 <= j < k.len(),
        0 <= n <= k.len(),
        prev_limit(k, j) <= y <= x,
        j == k.len() - 1 || x <= limit_of(k, j),
    ensures
        tax_terms(k, x, n) - tax_terms(k, y, n) == (if n == 0 {
            0
        } else if n <= j + 1 {
            k[n - 1].marginal_rate as int
        } else {
            k[j].marginal_rate as int
        }) * (x - y),
    decreases n,
{
    if n > 0 {
        lemma_terms_linear(k, x, y, j, n - 1);
        let i = n - 1;
        let a = prev_rate(k, i);
        let b = k[i].marginal_rate as int;
        if i <= j {
            if i > 0 {
                assert(k[i - 1].income_limit is Some);
                lemma_limit_positive(k, i - 1);
                if i < j {
                    assert(k[j - 1].income_limit is Some);
                    if i - 1 < j - 1 {
                        lemma_limits_increasing(k, i - 1, j - 1);
                    }
                }
            } else if j > 0 {
                assert(k[j - 1].income_limit is Some);
                lemma_limit_positive(k, j - 1);
            }
            assert(prev_limit(k, i) <= prev_limit(k, j));
            assert(excess(x, prev_limit(k, i)) - excess(y, prev_limit(k, i)) == x - y);
            assert(a * (x - y) + (b - a) * (x - y) == b * (x - y)) by (nonlinear_arith);
            assert(a * (x - y) + (b - a) * (excess(x, prev_limit(k, i)) - excess(
                y,
                prev_limit(k, i),
            )) == b * (x - y));
            assert((b - a) * excess(x, prev_limit(k, i)) - (b - a) * excess(y, prev_limit(k, i))
                == (b - a) * (excess(x, prev_limit(k, i)) - excess(y, prev_limit(k, i))))
                by (nonlinear_arith);
        } else {
            assert(k[j].income_limit is Some);
            assert(k[i - 1].income_limit is Some);
            if i - 1 > j {
                lemma_limits_increasing(k, j, i - 1);
            }
            assert(prev_limit(k, i) >= x);
            assert(excess(x, prev_limit(k, i)) == 0);
            assert(excess(y, prev_limit(k, i)) == 0);
        }
    }
}

/// The tax curve built from a valid table agrees with the tax formula at
/// every income from zero to the curve's maximum.
pub proof fn lemma_converted_curve_is_tax(k: Seq<MarginalRateKnot>, max: int, x: int)
    requires
        valid_marginal_knots(k),
        0 < max <= i32::MAX,
        0 <= x <= max,
    ensures
        same_value(
            curve_value(converted_knots(k, max), x),
            (marginal_tax(k, x), RATE_SCALE as int),
        ),
{
    let ck = converted_knots(k, max);
    let c = brackets_below(k, max, 0);
    lemma_converted_valid(k, max);
    lemma_brackets_below(k, max, 0);
    let g = segment_index_from(ck, x, 0);
    lemma_segment_index_bounds(ck, x, 0);
    assert(ck[ck.len() - 1].income_limit == max);
    assert(increasing_limits(ck));
    if g + 1 < ck.len() - 1 {
        assert(ck[g + 1].income_limit <= ck[ck.len() - 1].income_limit);
    }
    let lo = ck[g].income_limit as int;
    let hi = ck[g + 1].income_limit as int;
    assert(lo <= x <= hi);
    assert(lo == prev_limit(k, g));
    if g < c {
        assert(hi == limit_of(k, g));
    } else {
        assert(hi == max);
        assert(g == k.len() - 1 || limit_of(k, g) >= max);
    }
    let n = k.len() as int;
    let r = k[g].marginal_rate as int;
    lemma_terms_linear(k, x, lo, g, n);
    lemma_terms_linear(k, hi, lo, g, n);
    let tl = marginal_tax(k, lo);
    let th = marginal_tax(k, hi);
    let tx = marginal_tax(k, x);
    assert(tx - tl == r * (x - lo));
    assert(th - tl == r * (hi - lo));
    let d = hi - lo;
    assert(d > 0);
    assert(ck[g].income_tax_amount_bp == tl);
    assert(ck[g + 1].income_tax_amount_bp == th);
    assert(curve_value(ck, x) == (tl * d + (th - tl) * (x - lo), d * RATE_SCALE));
    assert(tl * d + (th - tl) * (x - lo) == tx * d) by (nonlinear_arith)
        requires
            tx - tl == r * (x - lo),
            th - tl == r * d,
    ;
    assert((tx * d) * RATE_SCALE == tx * (d * RATE_SCALE)) by (nonlinear_arith);
}

/// A table of tax brackets, each with the marginal rate that applies to the
/// income inside it.
#[derive(Clone, Debug, PartialEq, Eq)]
pub struct MarginalIncomeTaxRateSchedule {
    schedule: Vec<MarginalRateKnot>,
    limit_denom: u64,
}

impl View for MarginalIncomeTaxRateSchedule {
    type V = Seq<MarginalRateKnot>;

    closed spec fn view(&self) -> Seq<MarginalRateKnot> {
        self.schedule@
    }
}

impl MarginalIncomeTaxRateSchedule {
    pub fn schedule(&self) -> (r: &Vec<MarginalRateKnot>)
        ensures
            r@ == self@,
    {
        &self.schedule
    }

    /// The denominator of every bracket limit: a limit is its knot's
    /// `income_limit` divided by it.
    pub closed spec fn denom(&self) -> int {
        self.limit_denom as int
    }

    /// A table whose limits are whole minor units.
    pub fn new(marginal_rate_knots: Vec<MarginalRateKnot>) -> (r: MarginalIncomeTaxRateSchedule)
        ensures
            r@ == marginal_rate_knots@,
            r.denom() == 1,
    {
        MarginalIncomeTaxRateSchedule { schedule: marginal_rate_knots, limit_denom: 1 }
    }

    pub fn limit_denom(&self) -> (r: u64)
        ensures
            r == self.denom(),
    {
        self.limit_denom
    }

    /// The tax owed on `income`, exactly, in minor units: the formula
    /// `sum of (r_i - r_(i-1)) * max(0, income - b_(i-1))` over
    /// `RATE_SCALE`, with each limit `b` its numerator over `denom()`.
    pub fn get_tax_amount_from_marginal_rates_knots(&self, income: i32) -> (r: Result<
        Fraction,
        TaxError,
    >)
        requires
            valid_marginal_knots(self@),
            1 <= self.denom() <= u32::MAX,
        ensures
            income < 0 ==> r == Err::<Fraction, TaxError>(TaxError::NegativeIncome(income)),
            income >= 0 ==> r == Ok::<Fraction, TaxError>(
                Fraction {
                    numer: marginal_tax(self@, income * self.denom()) as i128,
                    denom: (RATE_SCALE * self.denom()) as i128,
                },
            ),
            income >= 0 ==> 0 <= marginal_tax(self@, income * self.denom()) <= RATE_SCALE * (income
                * self.denom()),
    {
        if income < 0 {
            return Err(TaxError::NegativeIncome(income));
        }
        let knots = &self.schedule;
        let d: i128 = self.limit_denom as i128;
        proof {
            lemma_mul_bound(income as int, d as int, 0x8000_0001, 0x1_0000_0001);
        }
        let x: i128 = income as i128 * d;
        assert(0 <= x < 0x8000_0000_0000_0000) by (nonlinear_arith)
            requires
                x == income * d,
                0 <= income < 0x8000_0000,
                1 <= d <= 0xFFFF_FFFF,
        ;
        let mut tax: i128 = 0;
        let mut i: usize = 0;
        while i < knots.len()
            invariant
                knots@ == self@,
                valid_marginal_knots(self@),
                0 <= x < 0x8000_0000_0000_0000,
                i <= knots@.len(),
                tax == tax_terms(self@, x as int, i as int),
            decreases knots@.len() - i,
        {
            let prev_limit: i64 = if i > 0 {
                match knots[i - 1].income_limit {
                    Some(v) => v,
                    None => 0,
                }
            } else {
                0
            };
            let prev_rate: u32 = if i > 0 {
                knots[i - 1].marginal_rate
            } else {
                0
            };
            proof {
                lemma_tax_terms_bounds(self@, x as int, i + 1);
                assert(prev_limit == crate::marginal_schedule::prev_limit(self@, i as int));
                if i > 0 {
                    assert(knots@[i - 1].income_limit is Some);
                    lemma_limit_positive(self@, i - 1);
                }
            }
            let over: i128 = if x > prev_limit as i128 {
                x - prev_limit as i128
            } else {
                0
            };
            let step: i128 = knots[i].marginal_rate as i128 - prev_rate as i128;
            assert(-0x1_0000_0000 <= step <= 0x1_0000_0000);
            assert(0 <= over < 0x8000_0000_0000_0000);
            assert(-0x1_0000_0000_0000_0000_0000_0000 <= step * over <= 0x1_0000_0000_0000_0000_0000_0000)
                by (nonlinear_arith)
                requires
                    -0x1_0000_0000 <= step <= 0x1_0000_0000,
                    0 <= over < 0x8000_0000_0000_0000,
            ;
            assert(over == excess(x as int, prev_limit as int));
            assert(tax + step * over == tax_terms(self@, x as int, i + 1));
            tax = tax + step * over;
            i += 1;
        }
        proof {
            lemma_tax_terms_bounds(self@, x as int, self@.len() as int);
        }
        Ok(Fraction { numer: tax, denom: RATE_SCALE as i128 * d })
    }

    /// Whether `knots` form a valid bracket table (see `valid_marginal_knots`).
    pub fn is_valid_table(knots: &[MarginalRateKnot]) -> (r: bool)
        ensures
            r == valid_marginal_knots(knots@),
    {
        let n = knots.len();
        if n == 0 {
            return false;
        }
        let mut i: usize = 0;
        while i < n
            invariant
                n == knots@.len(),
                n >= 1,
                i <= n,
                forall|t: int| 0 <= t < i && t < n - 1 ==> (#[trigger] knots@[t].income_limit) is Some,
                forall|t: int| 0 <= t < i ==> #[trigger] knots@[t].marginal_rate <= RATE_SCALE,
                forall|t: int|
                    0 <= t < i && (#[trigger] knots@[t].income_limit) is Some ==> limit_of(knots@, t)
                        <= MAX_LIMIT,
                forall|t: int|
                    0 <= t < i && (#[trigger] knots@[t].income_limit) is Some ==> limit_of(knots@, t)
                        > prev_limit(knots@, t),
            decreases n - i,
        {
            if knots[i].marginal_rate > RATE_SCALE {
                return false;
            }
            let prev: i64 = if i > 0 {
                match knots[i - 1].income_limit {
                    Some(v) => v,
                    None => 0,
                }
            } else {
                0
            };
            match knots[i].income_limit {
                Some(v) => {
                    if v <= prev || v > MAX_LIMIT {
                        return false;
                    }
                },
                None => {
                    if i + 1 < n {
                        return false;
                    }
                },
            }
            i += 1;
        }
        true
    }

    /// The same table priced in local currency: each limit `b` becomes
    /// exactly `b / m` for the exchange rate `m` (local units per foreign
    /// unit) given in parts per million, held as `b * 1_000_000` over the
    /// limit denominator `p`; rates are kept (see `adjusted_table`). No
    /// rate, or the rate one, keeps the table as it is.
    ///
    /// `None` when the rate is zero or above `u32::MAX` (a rate above 4294),
    /// which the exact arithmetic of the tax does not hold.
    pub fn exchange_rate_adjustment(&self, exchange_rate: &Option<u64>) -> (r: Option<Self>)
        requires
            valid_marginal_knots(self@),
            whole_unit_limits(self@),
            self.denom() == 1,
        ensures
            match r {
                Some(s) => adjusted_table(self@, *exchange_rate) == Some((s@, s.denom())),
                None => adjusted_table(self@, *exchange_rate) is None,
            },
            r matches Some(s) ==> valid_marginal_knots(s@) && 1 <= s.denom() <= u32::MAX,
    {
        let rate: u64 = match exchange_rate {
            Some(p) => *p,
            None => UNIT_EXCHANGE_RATE,
        };
        if rate == UNIT_EXCHANGE_RATE {
            return Some(self.copy_table());
        }
        if rate == 0 || rate > u32::MAX as u64 {
            return None;
        }
        let knots = &self.schedule;
        let mut out: Vec<MarginalRateKnot> = Vec::new();
        let mut i: usize = 0;
        proof {
            lemma_scaled_valid(self@, UNIT_EXCHANGE_RATE as int);
        }
        while i < knots.len()
            invariant
                knots@ == self@,
                valid_marginal_knots(self@),
                whole_unit_limits(self@),
                i <= knots@.len(),
                out@ == scaled_knots(self@, UNIT_EXCHANGE_RATE as int).subrange(0, i as int),
            decreases knots@.len() - i,
        {
            let knot = knots[i];
            let limit = match knot.income_limit {
                Some(v) => {
                    proof {
                        assert(self@[i as int].income_limit is Some);
                        lemma_limit_positive(self@, i as int);
                        assert(v <= 0x7FFF_FFFF);
                        assert(0 < v * 1_000_000 <= 0x7FFF_FFFF * 1_000_000) by (nonlinear_arith)
                            requires
                                0 < v <= 0x7FFF_FFFF,
                        ;
                    }
                    Some(v * UNIT_EXCHANGE_RATE as i64)
                },
                None => None,
            };
            out.push(MarginalRateKnot { marginal_rate: knot.marginal_rate, income_limit: limit });
            i += 1;
            proof {
                assert(out@ =~= scaled_knots(self@, UNIT_EXCHANGE_RATE as int).subrange(0, i as int));
            }
        }
        proof {
            assert(out@ =~= scaled_knots(self@, UNIT_EXCHANGE_RATE as int));
        }
        Some(MarginalIncomeTaxRateSchedule { schedule: out, limit_denom: rate })
    }

    /// The whole-unit table a tax curve is built from at an optional
    /// exchange rate: this table rescaled exactly, then rounded down to whole
    /// minor units (see `curve_table`).
    pub fn curve_table_at(&self, exchange_rate: &Option<u64>) -> (r: Option<Self>)
        requires
            whole_unit_table(*self),
        ensures
            match r {
                Some(s) => curve_table(self@, *exchange_rate) == Some(s@) && whole_unit_table(s),
                None => curve_table(self@, *exchange_rate) is None,
            },
    {
        match self.exchange_rate_adjustment(exchange_rate) {
            Some(adjusted) => adjusted.rounded_to_minor_units(),
            None => None,
        }
    }

    /// A copy of this table.
    fn copy_table(&self) -> (r: Self)
        ensures
            r@ == self@,
            r.denom() == self.denom(),
    {
        let knots = &self.schedule;
        let mut out: Vec<MarginalRateKnot> = Vec::new();
        let mut i: usize = 0;
        while i < knots.len()
            invariant
                i <= knots@.len(),
                out@ == knots@.subrange(0, i as int),
            decreases knots@.len() - i,
        {
            out.push(knots[i]);
            i += 1;
            proof {
                assert(out@ =~= knots@.subrange(0, i as int));
            }
        }
        proof {
            assert(out@ =~= knots@);
        }
        MarginalIncomeTaxRateSchedule { schedule: out, limit_denom: self.limit_denom }
    }

    /// This table with each limit rounded down to a whole minor unit, as a
    /// tax curve needs (see `rounded_table`). `None` when rounding makes
    /// the limits no longer valid or too large for an `i32`.
    pub fn rounded_to_minor_units(&self) -> (r: Option<Self>)
        requires
            valid_marginal_knots(self@),
            1 <= self.denom() <= u32::MAX,
        ensures
            match r {
                Some(s) => rounded_table(self@, self.denom()) == Some(s@) && s.denom() == 1
                    && valid_marginal_knots(s@) && whole_unit_limits(s@),
                None => rounded_table(self@, self.denom()) is None,
            },
    {
        let d: i64 = self.limit_denom as i64;
        let knots = &self.schedule;
        let mut out: Vec<MarginalRateKnot> = Vec::new();
        let mut i: usize = 0;
        while i < knots.len()
            invariant
                knots@ == self@,
                valid_marginal_knots(self@),
                d == self.denom(),
                1 <= d <= u32::MAX,
                i <= knots@.len(),
                out@ == rounded_knots(self@, d as int).subrange(0, i as int),
            decreases knots@.len() - i,
        {
            let knot = knots[i];
            proof {
                if knot.income_limit is Some {
                    assert(self@[i as int].income_limit is Some);
                    lemma_limit_positive(self@, i as int);
                }
            }
            let limit = match knot.income_limit {
                Some(v) => Some(v / d),
                None => None,
            };
            out.push(MarginalRateKnot { marginal_rate: knot.marginal_rate, income_limit: limit });
            i += 1;
            proof {
                assert(out@ =~= rounded_knots(self@, d as int).subrange(0, i as int));
            }
        }
        proof {
            assert(out@ =~= rounded_knots(self@, d as int));
        }
        if Self::limits_fit_i32(out.as_slice()) && Self::is_valid_table(out.as_slice()) {
            Some(MarginalIncomeTaxRateSchedule { schedule: out, limit_denom: 1 })
        } else {
            None
        }
    }

    /// Whether every limit of `knots` fits an `i32`.
    pub fn limits_fit_i32(knots: &[MarginalRateKnot]) -> (r: bool)
        ensures
            r == whole_unit_limits(knots@),
    {
        let mut i: usize = 0;
        while i < knots.len()
            invariant
                i <= knots@.len(),
                forall|t: int|
                    0 <= t < i && (#[trigger] knots@[t].income_limit) is Some ==> limit_of(knots@, t)
                        <= i32::MAX,
            decreases knots@.len() - i,
        {
            if let Some(v) = knots[i].income_limit {
                if v > i32::MAX as i64 {
                    return false;
                }
            }
            i += 1;
        }
        true
    }

    /// The cumulative tax curve of this table up to `max_income_to_consider`
    /// (see `converted_knots`): the origin, a knot at each bracket limit
    /// below the maximum, and a last knot at the maximum.
    pub fn to_income_amount_schedule(&self, max_income_to_consider: i32) -> (r:
        IncomeTaxAmountSchedule)
        requires
            valid_marginal_knots(self@),
            whole_unit_limits(self@),
            self.denom() == 1,
            max_income_to_consider >= 0,
        ensures
            r@ == converted_knots(self@, max_income_to_consider as int),
            nondecreasing_amounts(r@),
            knots_bounded(r@),
            max_income_to_consider > 0 ==> valid_amount_knots(r@),
            max_income_to_consider > 0 ==> forall|x: int|
                0 <= x <= max_income_to_consider ==> same_value(
                    #[trigger] curve_value(r@, x),
                    (marginal_tax(self@, x), RATE_SCALE as int),
                ),
    {
        let knots = &self.schedule;
        let ghost max = max_income_to_consider as int;
        let mut income_tax_knots: Vec<IncomeTaxKnot> = Vec::new();
        income_tax_knots.push(IncomeTaxKnot { income_tax_amount_bp: 0, income_limit: 0 });
        let mut i: usize = 0;
        loop
            invariant
                knots@ == self@,
                valid_marginal_knots(self@),
                whole_unit_limits(self@),
                self.denom() == 1,
                max == max_income_to_consider,
                i + 1 <= knots@.len(),
                brackets_below(self@, max, 0) == brackets_below(self@, max, i as int),
                income_tax_knots@.len() == i + 1,
                income_tax_knots@[0] == (IncomeTaxKnot { income_tax_amount_bp: 0, income_limit: 0 }),
                forall|t: int| 0 <= t < i ==> income_tax_knots@[t + 1] == limit_knot(self@, t),
            ensures
                brackets_below(self@, max, 0) == i,
                income_tax_knots@.len() == i + 1,
                income_tax_knots@[0] == (IncomeTaxKnot { income_tax_amount_bp: 0, income_limit: 0 }),
                forall|t: int| 0 <= t < i ==> income_tax_knots@[t + 1] == limit_knot(self@, t),
            decreases knots@.len() - i,
        {
            if i >= knots.len() - 1 {
                break;
            }
            proof {
                assert(knots@[i as int].income_limit is Some);
                lemma_limit_positive(self@, i as int);
            }
            let limit: i32 = match knots[i].income_limit {
                Some(v) => v as i32,
                None => 0,
            };
            if limit >= max_income_to_consider {
                break;
            }
            proof {
                assert(knots@[i as int].income_limit is Some);
                lemma_limit_positive(self@, i as int);
            }
            let tax = match self.get_tax_amount_from_marginal_rates_knots(limit) {
                Ok(v) => v.numer as i64,
                Err(_) => 0,
            };
            income_tax_knots.push(IncomeTaxKnot { income_tax_amount_bp: tax, income_limit: limit });
            i += 1;
        }
        let top = match self.get_tax_amount_from_marginal_rates_knots(max_income_to_consider) {
            Ok(v) => v.numer as i64,
            Err(_) => 0,
        };
        income_tax_knots.push(
            IncomeTaxKnot { income_tax_amount_bp: top, income_limit: max_income_to_consider },
        );
        proof {
            assert(income_tax_knots@ =~= converted_knots(self@, max));
            lemma_converted_valid(self@, max);
            if max > 0 {
                assert forall|x: int| 0 <= x <= max implies same_value(
                    #[trigger] curve_value(income_tax_knots@, x),
                    (marginal_tax(self@, x), RATE_SCALE as int),
                ) by {
                    lemma_converted_curve_is_tax(self@, max, x);
                }
            }
        }
        IncomeTaxAmountSchedule::new(income_tax_knots)
    }
}

} // verus!
