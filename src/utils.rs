use vstd::prelude::*;

use crate::fraction::Fraction;
use crate::knots::IncomeTaxKnot;
use crate::amount_schedule::IncomeTaxAmountSchedule;
use crate::marginal_schedule::{
    curve_table,
    whole_unit_table,
    converted_knots,
    valid_marginal_knots,
    MarginalIncomeTaxRateSchedule,
    UNIT_EXCHANGE_RATE,
};
use crate::parallel::par_map;
use crate::segment::LinearPiecewiseSegment;

verus! {

/// Ascending order.
pub open spec fn sorted(s: Seq<i32>) -> bool {
    forall|i: int, j: int| 0 <= i <= j < s.len() ==> s[i] <= s[j]
}

/// The segment from knot `g` to knot `g + 1`.
pub open spec fn segment_of(knots: Seq<IncomeTaxKnot>, g: int) -> LinearPiecewiseSegment {
    LinearPiecewiseSegment { left_point: knots[g], right_point: knots[g + 1] }
}

/// The incomes of each group, in order.
pub open spec fn group_members(groups: Seq<(LinearPiecewiseSegment, Vec<i32>)>) -> Seq<Seq<i32>> {
    groups.map_values(|p: (LinearPiecewiseSegment, Vec<i32>)| p.1@)
}

/// All grouped incomes, group after group.
pub open spec fn grouped_incomes(groups: Seq<(LinearPiecewiseSegment, Vec<i32>)>) -> Seq<i32> {
    group_members(groups).flatten()
}

/// Income `v` belongs to segment `g`: it is at most the segment's right
/// limit and, past the first segment, above its left limit.
pub open spec fn in_group(knots: Seq<IncomeTaxKnot>, g: int, v: int) -> bool {
    v <= knots[g + 1].income_limit && (g == 0 || v > knots[g].income_limit)
}

proof fn lemma_members_push(
    groups: Seq<(LinearPiecewiseSegment, Vec<i32>)>,
    item: (LinearPiecewiseSegment, Vec<i32>),
)
    ensures
        grouped_incomes(groups.push(item)) == grouped_incomes(groups) + item.1@,
{
    assert(group_members(groups.push(item)) =~= group_members(groups).push(item.1@));
    group_members(groups).lemma_flatten_push(item.1@);
}

/// Splits ascending `incomes` into runs, one run per segment of
/// `knot_points` from the first segment on: run `g` holds the incomes up to
/// knot `g + 1` (and above knot `g`, past the first run). The sweep stops at
/// the last knot; incomes beyond it are left out.
pub fn group_incomes_by_segment(incomes: &[i32], knot_points: &[IncomeTaxKnot]) -> (r: Vec<
    (LinearPiecewiseSegment, Vec<i32>),
>)
    requires
        sorted(incomes@),
    ensures
        r@.len() == 0 || r@.len() + 1 <= knot_points@.len(),
        forall|g: int| 0 <= g < r@.len() ==> (#[trigger] r@[g]).0 == segment_of(knot_points@, g),
        forall|g: int, m: int|
            0 <= g < r@.len() && 0 <= m < r@[g].1@.len() ==> in_group(
                knot_points@,
                g,
                #[trigger] r@[g].1@[m] as int,
            ),
        grouped_incomes(r@).len() <= incomes@.len(),
        grouped_incomes(r@) == incomes@.subrange(0, grouped_incomes(r@).len() as int),
        grouped_incomes(r@).len() < incomes@.len() ==> knot_points@.len() < 2
            || incomes@[grouped_incomes(r@).len() as int] > knot_points@.last().income_limit,
        r@.len() > 0 ==> r@.last().1@.len() > 0 || (grouped_incomes(r@).len() < incomes@.len()
            && r@.len() + 1 == knot_points@.len()),
{
    let mut point_index: usize = 0;
    let mut incomes_in_segment: Vec<i32> = Vec::new();
    let mut overall_result: Vec<(LinearPiecewiseSegment, Vec<i32>)> = Vec::new();
    let mut income_index: usize = 0;
    proof {
        assert(group_members(overall_result@) =~= Seq::<Seq<i32>>::empty());
        assert(incomes@.subrange(0, 0) =~= Seq::<i32>::empty());
    }
    while income_index < incomes.len() && point_index + 1 < knot_points.len()
        invariant
            sorted(incomes@),
            income_index <= incomes@.len(),
            overall_result@.len() == point_index,
            point_index == 0 || point_index + 1 <= knot_points@.len(),
            forall|g: int|
                0 <= g < overall_result@.len() ==> (#[trigger] overall_result@[g]).0
                    == segment_of(knot_points@, g),
            forall|g: int, m: int|
                0 <= g < overall_result@.len() && 0 <= m < overall_result@[g].1@.len()
                    ==> in_group(knot_points@, g, #[trigger] overall_result@[g].1@[m] as int),
            incomes_in_segment@.len() > 0 ==> point_index + 1 < knot_points@.len(),
            forall|m: int|
                0 <= m < incomes_in_segment@.len() ==> in_group(
                    knot_points@,
                    point_index as int,
                    #[trigger] incomes_in_segment@[m] as int,
                ),
            grouped_incomes(overall_result@) + incomes_in_segment@ == incomes@.subrange(
                0,
                income_index as int,
            ),
            point_index > 0 && income_index < incomes@.len() ==> incomes@[income_index as int]
                > knot_points@[point_index as int].income_limit,
            incomes_in_segment@.len() == 0 && income_index > 0 ==> income_index < incomes@.len(),
            point_index > 0 ==> overall_result@.last().1@.len() > 0 || income_index
                < incomes@.len() || incomes_in_segment@.len() > 0,
            point_index < usize::MAX,
        decreases incomes@.len() - income_index + knot_points@.len() - point_index,
    {
        let income = incomes[income_index];
        if income <= knot_points[point_index + 1].income_limit {
            proof {
                assert(incomes@.subrange(0, income_index + 1) =~= incomes@.subrange(
                    0,
                    income_index as int,
                ).push(income));
                if point_index > 0 {
                    assert(income > knot_points@[point_index as int].income_limit);
                }
            }
            incomes_in_segment.push(income);
            income_index += 1;
            proof {
                assert(grouped_incomes(overall_result@) + incomes_in_segment@ =~= incomes@.subrange(
                    0,
                    income_index as int,
                ));
                if point_index > 0 && income_index < incomes@.len() {
                    assert(incomes@[income_index - 1] <= incomes@[income_index as int]);
                }
            }
        } else {
            let group = incomes_in_segment;
            incomes_in_segment = Vec::new();
            let item = (
                LinearPiecewiseSegment {
                    left_point: knot_points[point_index],
                    right_point: knot_points[point_index + 1],
                },
                group,
            );
            proof {
                lemma_members_push(overall_result@, item);
            }
            overall_result.push(item);
            point_index += 1;
            proof {
                assert(grouped_incomes(overall_result@) + incomes_in_segment@ =~= incomes@.subrange(
                    0,
                    income_index as int,
                ));
            }
        }
    }
    if incomes_in_segment.len() > 0 && point_index + 1 < knot_points.len() {
        let item = (
            LinearPiecewiseSegment {
                left_point: knot_points[point_index],
                right_point: knot_points[point_index + 1],
            },
            incomes_in_segment,
        );
        proof {
            lemma_members_push(overall_result@, item);
        }
        overall_result.push(item);
    }
    overall_result
}

/// How many of `start, start + step, start + 2 * step, ...` are at most
/// `stop`.
pub open spec fn range_count(start: int, stop: int, step: int) -> int {
    if start > stop {
        0
    } else {
        (stop - start) / step + 1
    }
}

/// The incomes `start, start + step, start + 2 * step, ...` up to and
/// including `stop`.
pub fn generate_range(start: i32, stop: i32, step: i32) -> (r: Vec<i32>)
    requires
        step > 0,
    ensures
        forall|k: int| 0 <= k < r@.len() ==> #[trigger] r@[k] == start + k * step && r@[k] <= stop,
        start + r@.len() * step > stop,
        r@.len() == range_count(start as int, stop as int, step as int),
{
    let mut values: Vec<i32> = Vec::new();
    let mut current: i64 = start as i64;
    assert(current == start + values@.len() * step);
    while current <= stop as i64
        invariant
            step > 0,
            current == start + values@.len() * step,
            current <= stop + step || values@.len() == 0,
            forall|k: int|
                0 <= k < values@.len() ==> #[trigger] values@[k] == start + k * step && values@[k]
                    <= stop,
        decreases stop + step - current,
    {
        values.push(current as i32);
        current = current + step as i64;
        proof {
            assert(current == start + values@.len() * step) by (nonlinear_arith)
                requires
                    current == start + (values@.len() - 1) * step + step,
            ;
        }
    }
    proof {
        let n = values@.len() as int;
        if start <= stop {
            let q = (stop - start) / (step as int);
            let m = (stop - start) % (step as int);
            vstd::arithmetic::div_mod::lemma_fundamental_div_mod(stop - start, step as int);
            assert(n >= 1);
            assert(values@[n - 1] <= stop);
            assert(q == n - 1) by (nonlinear_arith)
                requires
                    stop - start == step * q + m,
                    0 <= m < step,
                    start + (n - 1) * step <= stop,
                    start + n * step > stop,
                    n >= 1,
                    step > 0,
            ;
        } else {
            if n > 0 {
                assert(values@[0] <= stop);
            }
        }
    }
    values
}

/// Tax as a share of income: `amount / income`, and zero at zero income.
pub open spec fn effective_rate(income: int, amount: (int, int)) -> (int, int) {
    if income == 0 {
        (0, 1)
    } else if income > 0 {
        (amount.0, amount.1 * income)
    } else {
        (-amount.0, amount.1 * -income)
    }
}

/// The resulting denominator fits in an `i128`.
pub open spec fn effective_rate_fits(income: int, amount: Fraction) -> bool {
    amount.numer > i128::MIN && amount.denom * (if income < 0 {
        -income
    } else {
        income
    }) <= i128::MAX
}

/// The effective tax rate at one income (see `effective_rate`).
pub fn effective_tax_rate(income: i32, amount: Fraction) -> (r: Fraction)
    requires
        amount.valid(),
        effective_rate_fits(income as int, amount),
    ensures
        r@ == effective_rate(income as int, amount@),
        r.valid(),
{
    if income == 0 {
        Fraction { numer: 0, denom: 1 }
    } else if income > 0 {
        assert(amount.denom * income > 0) by (nonlinear_arith)
            requires
                amount.denom > 0,
                income > 0,
        ;
        Fraction { numer: amount.numer, denom: amount.denom * income as i128 }
    } else {
        assert(amount.denom * -income > 0) by (nonlinear_arith)
            requires
                amount.denom > 0,
                income < 0,
        ;
        Fraction { numer: -amount.numer, denom: amount.denom * -(income as i128) }
    }
}

/// The effective tax rate at each income, given the tax at each.
pub fn compute_effective_tax_rates(incomes: &[i32], income_tax_amounts: &[Fraction]) -> (r: Vec<
    Fraction,
>)
    requires
        incomes@.len() == income_tax_amounts@.len(),
        forall|k: int|
            0 <= k < incomes@.len() ==> (#[trigger] income_tax_amounts@[k]).valid()
                && effective_rate_fits(incomes@[k] as int, income_tax_amounts@[k]),
    ensures
        r@.len() == incomes@.len(),
        forall|k: int|
            0 <= k < incomes@.len() ==> (#[trigger] r@[k])@ == effective_rate(
                incomes@[k] as int,
                income_tax_amounts@[k]@,
            ) && r@[k].valid(),
{
    let mut pairs: Vec<(i32, Fraction)> = Vec::new();
    let mut k: usize = 0;
    while k < incomes.len()
        invariant
            incomes@.len() == income_tax_amounts@.len(),
            k <= incomes@.len(),
            pairs@.len() == k,
            forall|t: int| 0 <= t < k ==> #[trigger] pairs@[t] == (incomes@[t], income_tax_amounts@[t]),
        decreases incomes@.len() - k,
    {
        pairs.push((incomes[k], income_tax_amounts[k]));
        k += 1;
    }
    par_map(
        pairs.as_slice(),
        |pair: &(i32, Fraction)| -> (v: Fraction)
            requires
                pair.1.valid(),
                effective_rate_fits(pair.0 as int, pair.1),
            ensures
                v@ == effective_rate(pair.0 as int, pair.1@),
                v.valid()
        {
            effective_tax_rate(pair.0, pair.1)
        },
    )
}

/// Each value converted into local currency at an exchange rate given in
/// parts per million (local units per foreign unit), exactly.
pub fn exchange_rate_adjustment(values: &[i32], exchange_rate: u64) -> (r: Vec<Fraction>)
    ensures
        r@.len() == values@.len(),
        forall|k: int|
            0 <= k < values@.len() ==> (#[trigger] r@[k])@ == (
                values@[k] * exchange_rate,
                UNIT_EXCHANGE_RATE as int,
            ),
{
    par_map(
        values,
        |value: &i32| -> (v: Fraction)
            ensures
                v@ == (*value * exchange_rate, UNIT_EXCHANGE_RATE as int)
        {
            assert(-0x8000_0000_0000_0000_0000_0000 < (*value as int) * (exchange_rate as int)
                < 0x8000_0000_0000_0000_0000_0000) by (nonlinear_arith)
                requires
                    -0x8000_0000 <= *value < 0x8000_0000,
                    0 <= exchange_rate < 0x1_0000_0000_0000_0000,
            ;
            Fraction {
                numer: *value as i128 * exchange_rate as i128,
                denom: UNIT_EXCHANGE_RATE as i128,
            }
        },
    )
}

/// A bracket table rescaled by an optional exchange rate (see
/// `MarginalIncomeTaxRateSchedule::exchange_rate_adjustment`), rounded to
/// whole minor units and turned into its tax curve up to
/// `max_income_to_consider` (see `curve_table`). `None` when that gives no
/// table or the maximum is negative.
pub fn adjust_exchange_rate_schedule(
    marginal_schedule: &MarginalIncomeTaxRateSchedule,
    exchange_rate: &Option<u64>,
    max_income_to_consider: i32,
) -> (r: Option<IncomeTaxAmountSchedule>)
    requires
        whole_unit_table(*marginal_schedule),
    ensures
        match curve_table(marginal_schedule@, *exchange_rate) {
            Some(a) => if max_income_to_consider >= 0 {
                r matches Some(s) && s@ == converted_knots(a, max_income_to_consider as int)
            } else {
                r is None
            },
            None => r is None,
        },
{
    if max_income_to_consider < 0 {
        return None;
    }
    match marginal_schedule.curve_table_at(exchange_rate) {
        Some(whole) => Some(whole.to_income_amount_schedule(max_income_to_consider)),
        None => None,
    }
}

} // verus!
