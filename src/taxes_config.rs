use vstd::prelude::*;

use crate::amount_schedule::{points_view, sweep_points};
use crate::errors::TaxError;
use crate::fraction::Fraction;
use crate::knots::{same_rate, IncomeTaxPoint, MarginalRateKnot};
use crate::marginal_schedule::{
    adjusted_table,
    curve_table,
    marginal_tax,
    whole_unit_table,
    converted_knots,
    valid_marginal_knots,
    MarginalIncomeTaxRateSchedule,
    RATE_SCALE,
    UNIT_EXCHANGE_RATE,
};
use crate::parallel::par_map;
use crate::utils::{
    compute_effective_tax_rates,
    effective_rate,
    effective_tax_rate,
    generate_range,
    range_count,
    sorted,
};

verus! {

/// The tax curve of a country's bracket table `k` in local currency at
/// `rate`, up to income `max`, built from `curve_table(k, rate)`; `None`
/// when that gives no table or `max` is negative.
pub open spec fn country_curve(k: Seq<MarginalRateKnot>, rate: Option<u64>, max: int) -> Option<
    Seq<crate::knots::IncomeTaxKnot>,
> {
    match curve_table(k, rate) {
        Some(a) => if max >= 0 {
            Some(converted_knots(a, max))
        } else {
            None
        },
        None => None,
    }
}

/// The exchange rate worth reporting: none when it is one.
pub open spec fn reported_rate(rate: Option<u64>) -> Option<u64> {
    match rate {
        Some(p) => if p == UNIT_EXCHANGE_RATE {
            None
        } else {
            Some(p)
        },
        None => None,
    }
}

/// A country's taxes over a series of incomes, and at one chosen income.
pub struct TaxData {
    pub incomes: Vec<i32>,
    pub tax_amounts: Vec<Fraction>,
    pub effective_tax_rates: Vec<Fraction>,
    pub specific_income: Option<i32>,
    pub specific_tax_amount: Option<Fraction>,
    pub specific_tax_rate: Option<Fraction>,
    pub tax_brackets: Vec<MarginalRateKnot>,
    pub exchange_rate: Option<u64>,
}

/// The incomes at which two countries' taxes break even, with the tax and
/// the effective rate at each.
pub struct BreakevenData {
    pub breakeven_incomes: Vec<Fraction>,
    pub breakeven_tax_amounts: Vec<Fraction>,
    pub breakeven_effective_tax_rates: Vec<Fraction>,
}

/// The tax owed at income `x` on table `a.0`, whose limits are over the
/// denominator `a.1`: the tax formula, exactly.
pub open spec fn exact_tax(a: (Seq<MarginalRateKnot>, int), x: int) -> (int, int) {
    (marginal_tax(a.0, x * a.1), RATE_SCALE * a.1)
}

/// The tax series, the tax at one chosen income, and the effective rates of
/// both, for one country's bracket table in local currency.
///
/// The table is rescaled exactly by `exchange_rate` (parts per million;
/// none for one, see `adjusted_table`) and its tax formula evaluated at
/// each income up to `max_income`. Fails with `InvalidSchedule` when the
/// rate gives no table or `max_income` is negative, with
/// `IncomeOutOfBounds` when an income lies above `max_income`, and
/// otherwise with `NegativeIncome` when one is below zero. The chosen
/// income gets no tax outside `[0, max_income]`.
pub fn process_country_taxes(
    marginal_schedule: &MarginalIncomeTaxRateSchedule,
    incomes_to_compute: &[i32],
    max_income: i32,
    specific_income: Option<i32>,
    exchange_rate: Option<u64>,
) -> (r: Result<TaxData, TaxError>)
    requires
        whole_unit_table(*marginal_schedule),
        sorted(incomes_to_compute@),
    ensures
        adjusted_table(marginal_schedule@, exchange_rate) is None || max_income < 0 ==> r
            == Err::<TaxData, TaxError>(TaxError::InvalidSchedule),
        max_income >= 0 ==> (adjusted_table(marginal_schedule@, exchange_rate) matches Some(a) ==> {
            &&& (exists|k: int|
                0 <= k < incomes_to_compute@.len() && #[trigger] incomes_to_compute@[k] > max_income)
                ==> r is Err && r->Err_0 == TaxError::IncomeOutOfBounds
            &&& (forall|k: int|
                0 <= k < incomes_to_compute@.len() ==> #[trigger] incomes_to_compute@[k] <= max_income)
                && (exists|k: int|
                0 <= k < incomes_to_compute@.len() && #[trigger] incomes_to_compute@[k] < 0) ==> r is Err
                && r->Err_0 == TaxError::NegativeIncome(incomes_to_compute@[0])
            &&& (forall|k: int|
                0 <= k < incomes_to_compute@.len() ==> 0 <= #[trigger] incomes_to_compute@[k]
                    <= max_income) ==> r is Ok && tax_data_holds(
                r->Ok_0,
                a,
                marginal_schedule@,
                incomes_to_compute@,
                max_income as int,
                specific_income,
                exchange_rate,
            )
        }),
{
    let adjusted = match marginal_schedule.exchange_rate_adjustment(&exchange_rate) {
        Some(s) => s,
        None => {
            return Err(TaxError::InvalidSchedule);
        },
    };
    if max_income < 0 {
        return Err(TaxError::InvalidSchedule);
    }
    let n = incomes_to_compute.len();
    if n > 0 && incomes_to_compute[n - 1] > max_income {
        return Err(TaxError::IncomeOutOfBounds);
    }
    if n > 0 && incomes_to_compute[0] < 0 {
        return Err(TaxError::NegativeIncome(incomes_to_compute[0]));
    }
    proof {
        assert forall|k: int| 0 <= k < n implies 0 <= #[trigger] incomes_to_compute@[k]
            <= max_income by {
            assert(incomes_to_compute@[0] <= incomes_to_compute@[k] <= incomes_to_compute@[n - 1]);
        }
    }
    let tax_amounts = exact_taxes(&adjusted, incomes_to_compute);
    proof {
        assert forall|k: int| 0 <= k < incomes_to_compute@.len() implies (
        #[trigger] tax_amounts@[k]).valid() && crate::utils::effective_rate_fits(
            incomes_to_compute@[k] as int,
            tax_amounts@[k],
        ) by {
            lemma_rate_fits(incomes_to_compute@[k], tax_amounts@[k]);
        }
    }
    let effective_tax_rates = compute_effective_tax_rates(incomes_to_compute, tax_amounts.as_slice());
    let (specific_tax_amount, specific_tax_rate) = match specific_income {
        Some(x) => if 0 <= x && x <= max_income {
            let t = exact_tax_at(&adjusted, x);
            proof {
                lemma_rate_fits(x, t);
            }
            (Some(t), Some(effective_tax_rate(x, t)))
        } else {
            (None, None)
        },
        None => (None, None),
    };
    let tax_brackets = copy_brackets(marginal_schedule);
    let incomes = copy_incomes(incomes_to_compute);
    let reported = match exchange_rate {
        Some(p) => if p == UNIT_EXCHANGE_RATE {
            None
        } else {
            Some(p)
        },
        None => None,
    };
    Ok(
        TaxData {
            incomes,
            tax_amounts,
            effective_tax_rates,
            specific_income,
            specific_tax_amount,
            specific_tax_rate,
            tax_brackets,
            exchange_rate: reported,
        },
    )
}

/// The exact tax at one income of zero or more.
fn exact_tax_at(table: &MarginalIncomeTaxRateSchedule, income: i32) -> (r: Fraction)
    requires
        valid_marginal_knots(table@),
        1 <= table.denom() <= u32::MAX,
        income >= 0,
    ensures
        r@ == exact_tax((table@, table.denom()), income as int),
        r.bounded(),
{
    let r = match table.get_tax_amount_from_marginal_rates_knots(income) {
        Ok(t) => t,
        Err(_) => Fraction { numer: 0, denom: 1 },
    };
    proof {
        let x = income * table.denom();
        assert(0 <= x <= 0x7FFF_FFFF * 0xFFFF_FFFF) by (nonlinear_arith)
            requires
                x == income * table.denom(),
                0 <= income <= 0x7FFF_FFFF,
                1 <= table.denom() <= 0xFFFF_FFFF,
        ;
        assert(RATE_SCALE * table.denom() <= 10000 * 0xFFFF_FFFF);
    }
    r
}

/// The exact tax at each of the incomes, all zero or more.
fn exact_taxes(table: &MarginalIncomeTaxRateSchedule, incomes: &[i32]) -> (r: Vec<Fraction>)
    requires
        valid_marginal_knots(table@),
        1 <= table.denom() <= u32::MAX,
        forall|k: int| 0 <= k < incomes@.len() ==> 0 <= #[trigger] incomes@[k],
    ensures
        r@.len() == incomes@.len(),
        forall|k: int|
            0 <= k < incomes@.len() ==> (#[trigger] r@[k])@ == exact_tax(
                (table@, table.denom()),
                incomes@[k] as int,
            ) && r@[k].bounded(),
{
    par_map(
        incomes,
        |income: &i32| -> (v: Fraction)
            requires
                0 <= *income,
            ensures
                v@ == exact_tax((table@, table.denom()), *income as int),
                v.bounded()
        {
            exact_tax_at(table, *income)
        },
    )
}

/// A copy of a table's brackets.
fn copy_brackets(table: &MarginalIncomeTaxRateSchedule) -> (r: Vec<MarginalRateKnot>)
    ensures
        r@ == table@,
{
    let brackets = table.schedule();
    let mut out: Vec<MarginalRateKnot> = Vec::new();
    let mut i: usize = 0;
    while i < brackets.len()
        invariant
            i <= brackets@.len(),
            out@ == brackets@.subrange(0, i as int),
        decreases brackets@.len() - i,
    {
        out.push(brackets[i]);
        i += 1;
        proof {
            assert(out@ =~= brackets@.subrange(0, i as int));
        }
    }
    proof {
        assert(out@ =~= brackets@);
    }
    out
}

/// A copy of the incomes.
fn copy_incomes(incomes: &[i32]) -> (r: Vec<i32>)
    ensures
        r@ == incomes@,
{
    let mut out: Vec<i32> = Vec::new();
    let mut j: usize = 0;
    while j < incomes.len()
        invariant
            j <= incomes@.len(),
            out@ == incomes@.subrange(0, j as int),
        decreases incomes@.len() - j,
    {
        out.push(incomes[j]);
        j += 1;
        proof {
            assert(out@ =~= incomes@.subrange(0, j as int));
        }
    }
    proof {
        assert(out@ =~= incomes@);
    }
    out
}

/// The break-even points of two countries' tax curves, with the tax and
/// the effective rate at each point. Each curve is built up to
/// `max_income_to_consider` from the country's table rescaled by its
/// exchange rate and rounded down to whole minor units (see
/// `country_curve`). Fails with `InvalidSchedule` when either curve cannot
/// be built.
pub fn process_country_breakeven_points(
    schedule_one: &MarginalIncomeTaxRateSchedule,
    schedule_two: &MarginalIncomeTaxRateSchedule,
    max_income_to_consider: i32,
    exchange_rate_one: Option<u64>,
    exchange_rate_two: Option<u64>,
) -> (r: Result<BreakevenData, TaxError>)
    requires
        whole_unit_table(*schedule_one),
        whole_unit_table(*schedule_two),
    ensures
        country_curve(schedule_one@, exchange_rate_one, max_income_to_consider as int) is None
            || country_curve(schedule_two@, exchange_rate_two, max_income_to_consider as int) is None
            ==> r == Err::<BreakevenData, TaxError>(TaxError::InvalidSchedule),
        country_curve(schedule_one@, exchange_rate_one, max_income_to_consider as int) matches Some(c1)
            ==> country_curve(schedule_two@, exchange_rate_two, max_income_to_consider as int) matches Some(c2)
            ==> r is Ok && breakeven_data_holds(r->Ok_0, sweep_points(c1, c2, 0, 0)),
{
    let adjusted_one = match schedule_one.curve_table_at(&exchange_rate_one) {
        Some(s) => s,
        None => {
            return Err(TaxError::InvalidSchedule);
        },
    };
    let adjusted_two = match schedule_two.curve_table_at(&exchange_rate_two) {
        Some(s) => s,
        None => {
            return Err(TaxError::InvalidSchedule);
        },
    };
    if max_income_to_consider < 0 {
        return Err(TaxError::InvalidSchedule);
    }
    let curve_one = adjusted_one.to_income_amount_schedule(max_income_to_consider);
    let curve_two = adjusted_two.to_income_amount_schedule(max_income_to_consider);
    let breakevens = curve_one.compute_breakeven_taxes(&curve_two);
    let ghost pts = sweep_points(curve_one@, curve_two@, 0, 0);
    let breakeven_incomes = par_map(
        breakevens.as_slice(),
        |point: &IncomeTaxPoint| -> (v: Fraction)
            ensures
                v@ == (point.income_numer as int, point.denom as int)
        {
            point.income()
        },
    );
    let breakeven_tax_amounts = par_map(
        breakevens.as_slice(),
        |point: &IncomeTaxPoint| -> (v: Fraction)
            requires
                point.bounded(),
            ensures
                v@ == (point.income_tax_amount_numer as int, point.denom * RATE_SCALE)
        {
            point.income_tax_amount()
        },
    );
    let breakeven_effective_tax_rates = par_map(
        breakevens.as_slice(),
        |point: &IncomeTaxPoint| -> (v: Fraction)
            requires
                point.bounded(),
            ensures
                point_rate(v, *point)
        {
            point.effective_tax_rate()
        },
    );
    proof {
        assert forall|k: int| 0 <= k < breakevens@.len() implies (#[trigger] breakevens@[k])@
            == pts[k] by {
            assert(points_view(breakevens@)[k] == breakevens@[k]@);
        }
    }
    Ok(BreakevenData { breakeven_incomes, breakeven_tax_amounts, breakeven_effective_tax_rates })
}

/// The effective rate at point `p`: its tax over its income, or zero at
/// zero income.
pub open spec fn point_rate(v: Fraction, p: IncomeTaxPoint) -> bool {
    &&& v.valid()
    &&& p.income_numer == 0 ==> v@ == (0int, 1int)
    &&& p.income_numer != 0 ==> same_rate(
        v@,
        (p.income_tax_amount_numer as int, p.income_numer * RATE_SCALE),
    )
}

/// What `process_country_breakeven_points` reports for the break-even
/// points `pts`, each written `(income, tax, denominator)`.
pub open spec fn breakeven_data_holds(d: BreakevenData, pts: Seq<(int, int, int)>) -> bool {
    &&& d.breakeven_incomes@.len() == pts.len()
    &&& d.breakeven_tax_amounts@.len() == pts.len()
    &&& d.breakeven_effective_tax_rates@.len() == pts.len()
    &&& forall|k: int|
        0 <= k < pts.len() ==> {
            &&& (#[trigger] d.breakeven_incomes@[k])@ == (pts[k].0, pts[k].2)
            &&& d.breakeven_tax_amounts@[k]@ == (pts[k].1, pts[k].2 * RATE_SCALE)
            &&& pts[k].2 > 0
            &&& d.breakeven_effective_tax_rates@[k].valid()
            &&& pts[k].0 == 0 ==> d.breakeven_effective_tax_rates@[k]@ == (0int, 1int)
            &&& pts[k].0 != 0 ==> same_rate(
                d.breakeven_effective_tax_rates@[k]@,
                (pts[k].1, pts[k].0 * RATE_SCALE),
            )
        }
}

/// What `process_country_taxes` reports on the exactly rescaled table `a`
/// (knots and limit denominator) when every income lies in
/// `[0, max_income]`.
pub open spec fn tax_data_holds(
    d: TaxData,
    a: (Seq<MarginalRateKnot>, int),
    table: Seq<MarginalRateKnot>,
    incomes: Seq<i32>,
    max_income: int,
    specific_income: Option<i32>,
    exchange_rate: Option<u64>,
) -> bool {
    &&& d.incomes@ == incomes
    &&& d.tax_amounts@.len() == incomes.len()
    &&& d.effective_tax_rates@.len() == incomes.len()
    &&& forall|k: int|
        0 <= k < incomes.len() ==> (#[trigger] d.tax_amounts@[k])@ == exact_tax(a, incomes[k] as int)
            && d.effective_tax_rates@[k]@ == effective_rate(incomes[k] as int, d.tax_amounts@[k]@)
    &&& d.specific_income == specific_income
    &&& match specific_income {
        None => d.specific_tax_amount is None && d.specific_tax_rate is None,
        Some(x) => {
            &&& d.specific_tax_amount is Some <==> 0 <= x <= max_income
            &&& d.specific_tax_rate is Some <==> d.specific_tax_amount is Some
            &&& d.specific_tax_amount matches Some(t) ==> t@ == exact_tax(a, x as int)
                && d.specific_tax_rate->Some_0@ == effective_rate(x as int, t@)
        },
    }
    &&& d.tax_brackets@ == table
    &&& d.exchange_rate == reported_rate(exchange_rate)
}

proof fn lemma_rate_fits(income: i32, amount: Fraction)
    requires
        amount.bounded(),
    ensures
        amount.valid(),
        crate::utils::effective_rate_fits(income as int, amount),
{
    let a = if income < 0 {
        -(income as int)
    } else {
        income as int
    };
    assert(amount.denom * a <= 0x4000_0000_0000 * 0x8000_0000) by (nonlinear_arith)
        requires
            0 < amount.denom < 0x4000_0000_0000,
            0 <= a <= 0x8000_0000,
    ;
}

/// Minor units between two incomes of the tax series: ten currency units
/// (of a hundred minor units) up to a maximum of a million currency units,
/// a hundred above it.
pub open spec fn series_step(max_income: int) -> int {
    if max_income < 100_000_000 {
        1000
    } else {
        10000
    }
}

/// The incomes at which every country's tax is reported: zero, then every
/// `series_step` minor units up to `max_income`.
pub open spec fn income_series(max_income: int) -> Seq<i32> {
    Seq::new(
        range_count(0, max_income, series_step(max_income)) as nat,
        |k: int| (k * series_step(max_income)) as i32,
    )
}

/// The pairs `(i, j)` with `start <= i < j < n`, in order.
pub open spec fn pairs_from(n: int, start: int) -> Seq<(int, int)>
    decreases n - start,
{
    if start < 0 || start >= n {
        Seq::empty()
    } else {
        Seq::new((n - start - 1) as nat, |t: int| (start, start + 1 + t)) + pairs_from(n, start + 1)
    }
}

/// The tax series of every country and, when asked for, the break-even
/// points of every pair of countries `(i, j)` with `i < j`, in order.
///
/// Country `i` has the bracket table `tables[i]` and the exchange rate
/// `exchange_rates[i]`. Fails with `InvalidSchedule` when some country's
/// table cannot be taxed (see `table_ok`), or when break-even points are
/// asked for between two or more countries and some country's curve cannot
/// be built (see `country_curve`).
pub fn process_countries(
    tables: &[MarginalIncomeTaxRateSchedule],
    exchange_rates: &[Option<u64>],
    max_income: i32,
    specific_income: Option<i32>,
    show_break_even: bool,
) -> (r: Result<(Vec<TaxData>, Option<Vec<(usize, usize, BreakevenData)>>), TaxError>)
    requires
        tables@.len() == exchange_rates@.len(),
        forall|i: int| 0 <= i < tables@.len() ==> whole_unit_table(#[trigger] tables@[i]),
    ensures
        (exists|i: int|
            0 <= i < tables@.len() && !table_ok(
                #[trigger] tables@[i]@,
                exchange_rates@[i],
                max_income as int,
            )) ==> r == Err::<
            (Vec<TaxData>, Option<Vec<(usize, usize, BreakevenData)>>),
            TaxError,
        >(TaxError::InvalidSchedule),
        show_break_even && tables@.len() >= 2 && (exists|i: int|
            0 <= i < tables@.len() && country_curve(
                #[trigger] tables@[i]@,
                exchange_rates@[i],
                max_income as int,
            ) is None) ==> r == Err::<
            (Vec<TaxData>, Option<Vec<(usize, usize, BreakevenData)>>),
            TaxError,
        >(TaxError::InvalidSchedule),
        (forall|i: int|
            0 <= i < tables@.len() ==> table_ok(
                #[trigger] tables@[i]@,
                exchange_rates@[i],
                max_income as int,
            )) && (show_break_even && tables@.len() >= 2 ==> forall|i: int|
            0 <= i < tables@.len() ==> country_curve(
                #[trigger] tables@[i]@,
                exchange_rates@[i],
                max_income as int,
            ) is Some) ==> (r is Ok && countries_hold(
            r->Ok_0,
            tables@,
            exchange_rates@,
            max_income as int,
            specific_income,
            show_break_even,
        )),
{
    let step: i32 = if max_income < 100_000_000 {
        1000
    } else {
        10000
    };
    let n = tables.len();
    if max_income < 0 {
        if n > 0 {
            assert(!table_ok(tables@[0]@, exchange_rates@[0], max_income as int));
            return Err(TaxError::InvalidSchedule);
        }
    }
    let incomes_to_compute = generate_range(0, if max_income < 0 { -1 } else { max_income }, step);
    proof {
        if max_income >= 0 {
            assert(incomes_to_compute@ =~= income_series(max_income as int));
        }
        assert(sorted(incomes_to_compute@)) by {
            assert forall|a: int, b: int| 0 <= a <= b < incomes_to_compute@.len() implies
                incomes_to_compute@[a] <= incomes_to_compute@[b] by {
                assert(a * step <= b * step) by (nonlinear_arith)
                    requires
                        a <= b,
                        step > 0,
                ;
            }
        }
    }
    let mut data: Vec<TaxData> = Vec::new();
    let mut i: usize = 0;
    while i < n
        invariant
            n == tables@.len(),
            n == exchange_rates@.len(),
            i <= n,
            data@.len() == i,
            forall|t: int| 0 <= t < n ==> whole_unit_table(#[trigger] tables@[t]),
            sorted(incomes_to_compute@),
            max_income >= 0 ==> incomes_to_compute@ == income_series(max_income as int),
            n > 0 ==> max_income >= 0,
            forall|t: int|
                0 <= t < i ==> country_holds(
                    #[trigger] data@[t],
                    tables@[t]@,
                    exchange_rates@[t],
                    max_income as int,
                    specific_income,
                ),
        decreases n - i,
    {
        proof {
            assert(whole_unit_table(tables@[i as int]));
            assert forall|k: int| 0 <= k < incomes_to_compute@.len() implies 0
                <= #[trigger] incomes_to_compute@[k] <= max_income by {
                assert(incomes_to_compute@[k] <= max_income);
            }
        }
        let d = match process_country_taxes(
            &tables[i],
            incomes_to_compute.as_slice(),
            max_income,
            specific_income,
            exchange_rates[i],
        ) {
            Ok(d) => d,
            Err(e) => {
                return Err(e);
            },
        };
        data.push(d);
        i += 1;
    }
    proof {
        assert forall|t: int| 0 <= t < n implies table_ok(
            #[trigger] tables@[t]@,
            exchange_rates@[t],
            max_income as int,
        ) by {
            assert(country_holds(
                data@[t],
                tables@[t]@,
                exchange_rates@[t],
                max_income as int,
                specific_income,
            ));
        }
    }
    if !show_break_even {
        return Ok((data, None));
    }
    let mut pairs: Vec<(usize, usize, BreakevenData)> = Vec::new();
    let mut a: usize = 0;
    proof {
        assert(pairs_view(pairs@) + pairs_from(n as int, 0) =~= pairs_from(n as int, 0));
    }
    while a < n
        invariant
            n == tables@.len(),
            n == exchange_rates@.len(),
            show_break_even,
            a <= n,
            forall|t: int| 0 <= t < n ==> whole_unit_table(#[trigger] tables@[t]),
            forall|t: int|
                0 <= t < n ==> table_ok(
                    #[trigger] tables@[t]@,
                    exchange_rates@[t],
                    max_income as int,
                ),
            pairs_view(pairs@) + pairs_from(n as int, a as int) == pairs_from(n as int, 0),
            forall|t: int|
                0 <= t < pairs@.len() ==> pair_holds(
                    #[trigger] pairs@[t],
                    tables@,
                    exchange_rates@,
                    max_income as int,
                ),
        decreases n - a,
    {
        let mut b: usize = a + 1;
        proof {
            assert(pairs_from(n as int, a as int) =~= Seq::new(
                (n - b) as nat,
                |t: int| (a as int, b + t),
            ) + pairs_from(n as int, a + 1));
        }
        while b < n
            invariant
                n == tables@.len(),
                n == exchange_rates@.len(),
                show_break_even,
                a < n,
                a < b <= n,
                forall|t: int| 0 <= t < n ==> whole_unit_table(#[trigger] tables@[t]),
                forall|t: int|
                    0 <= t < n ==> table_ok(
                        #[trigger] tables@[t]@,
                        exchange_rates@[t],
                        max_income as int,
                    ),
                pairs_view(pairs@) + Seq::new((n - b) as nat, |t: int| (a as int, b + t))
                    + pairs_from(n as int, a + 1) == pairs_from(n as int, 0),
                forall|t: int|
                    0 <= t < pairs@.len() ==> pair_holds(
                        #[trigger] pairs@[t],
                        tables@,
                        exchange_rates@,
                        max_income as int,
                    ),
            decreases n - b,
        {
            proof {
                assert(whole_unit_table(tables@[a as int]));
                assert(whole_unit_table(tables@[b as int]));
            }
            let d = match process_country_breakeven_points(
                &tables[a],
                &tables[b],
                max_income,
                exchange_rates[a],
                exchange_rates[b],
            ) {
                Ok(d) => d,
                Err(e) => {
                    return Err(e);
                },
            };
            let ghost before = pairs@;
            pairs.push((a, b, d));
            proof {
                assert(pairs_view(pairs@) =~= pairs_view(before).push((a as int, b as int)));
                assert(Seq::new((n - b) as nat, |t: int| (a as int, b + t)) =~= seq![
                    (a as int, b as int),
                ] + Seq::new((n - (b + 1)) as nat, |t: int| (a as int, b + 1 + t)));
            }
            b += 1;
        }
        proof {
            assert(Seq::new((n - b) as nat, |t: int| (a as int, b + t)) =~= Seq::<
                (int, int),
            >::empty());
        }
        a += 1;
    }
    proof {
        assert(pairs_from(n as int, a as int) =~= Seq::<(int, int)>::empty());
        assert(pairs_view(pairs@) =~= pairs_view(pairs@) + pairs_from(n as int, a as int));
        if n >= 2 {
            assert forall|t: int| 0 <= t < n implies country_curve(
                #[trigger] tables@[t]@,
                exchange_rates@[t],
                max_income as int,
            ) is Some by {
                let k = if t == 0 {
                    0
                } else {
                    t - 1
                };
                assert(pairs_from(n as int, 0) == Seq::new(
                    (n - 1) as nat,
                    |u: int| (0int, 1 + u),
                ) + pairs_from(n as int, 1));
                assert(pairs_from(n as int, 0)[k] == (0int, k + 1));
                assert(pairs_view(pairs@)[k] == (pairs@[k].0 as int, pairs@[k].1 as int));
                assert(pair_holds(pairs@[k], tables@, exchange_rates@, max_income as int));
            }
        }
    }
    Ok((data, Some(pairs)))
}

/// Country table `k` at `rate` can be taxed up to `max`: the rate gives a
/// table and `max` is not negative.
pub open spec fn table_ok(k: Seq<MarginalRateKnot>, rate: Option<u64>, max: int) -> bool {
    adjusted_table(k, rate) is Some && max >= 0
}

/// What `process_countries` reports for one country: its exact tax series
/// over `income_series(max_income)`.
pub open spec fn country_holds(
    d: TaxData,
    table: Seq<MarginalRateKnot>,
    rate: Option<u64>,
    max_income: int,
    specific_income: Option<i32>,
) -> bool {
    match adjusted_table(table, rate) {
        Some(a) => max_income >= 0 && tax_data_holds(
            d,
            a,
            table,
            income_series(max_income),
            max_income,
            specific_income,
            rate,
        ),
        None => false,
    }
}

/// The country indices of each pair, in order.
pub open spec fn pairs_view(s: Seq<(usize, usize, BreakevenData)>) -> Seq<(int, int)> {
    s.map_values(|p: (usize, usize, BreakevenData)| (p.0 as int, p.1 as int))
}

/// What `process_countries` reports for the pair `p.0 < p.1`.
pub open spec fn pair_holds(
    p: (usize, usize, BreakevenData),
    tables: Seq<MarginalIncomeTaxRateSchedule>,
    rates: Seq<Option<u64>>,
    max_income: int,
) -> bool {
    country_curve(tables[p.0 as int]@, rates[p.0 as int], max_income) matches Some(c1)
        && country_curve(tables[p.1 as int]@, rates[p.1 as int], max_income) matches Some(c2)
        && breakeven_data_holds(p.2, sweep_points(c1, c2, 0, 0))
}

/// What `process_countries` reports when it succeeds.
pub open spec fn countries_hold(
    r: (Vec<TaxData>, Option<Vec<(usize, usize, BreakevenData)>>),
    tables: Seq<MarginalIncomeTaxRateSchedule>,
    rates: Seq<Option<u64>>,
    max_income: int,
    specific_income: Option<i32>,
    show_break_even: bool,
) -> bool {
    &&& r.0@.len() == tables.len()
    &&& forall|t: int|
        0 <= t < tables.len() ==> country_holds(
            #[trigger] r.0@[t],
            tables[t]@,
            rates[t],
            max_income,
            specific_income,
        )
    &&& show_break_even ==> (r.1 matches Some(v) && pairs_view(v@) == pairs_from(
        tables.len() as int,
        0,
    ) && forall|t: int|
        0 <= t < v@.len() ==> pair_holds(
            #[trigger] v@[t],
            tables,
            rates,
            max_income,
        ))
    &&& !show_break_even ==> r.1 is None
}

} // verus!
