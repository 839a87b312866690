use taxes_compare::marginal_schedule::UNIT_EXCHANGE_RATE;
use taxes_compare::utils::adjust_exchange_rate_schedule;
use taxes_compare::{
    Fraction, IncomeTaxAmountSchedule, IncomeTaxKnot, MarginalIncomeTaxRateSchedule,
    MarginalRateKnot, TaxError,
};

fn is(f: &Fraction, numer: i128, denom: i128) -> bool {
    f.numer() * denom == numer * f.denom()
}

// Brackets of 10%, 20% and 30% (rates in basis points).
fn progressive() -> MarginalIncomeTaxRateSchedule {
    MarginalIncomeTaxRateSchedule::new(vec![
        MarginalRateKnot::new(Some(10000), 1000),
        MarginalRateKnot::new(Some(20000), 2000),
        MarginalRateKnot::new(None, 3000),
    ])
}

// Brackets of 10%, 20%, 30% and 40%.
fn foo() -> MarginalIncomeTaxRateSchedule {
    MarginalIncomeTaxRateSchedule::new(vec![
        MarginalRateKnot::new(Some(100000), 1000),
        MarginalRateKnot::new(Some(200000), 2000),
        MarginalRateKnot::new(Some(300000), 3000),
        MarginalRateKnot::new(None, 4000),
    ])
}

#[test]
fn test_marginal_rates_schedule_to_income_tax_amount_schedule() {
    let schedule = progressive();
    let max_income_to_consider = 100000;
    let expected_result = vec![
        IncomeTaxKnot::new(0, 0),
        IncomeTaxKnot::new(10000, 1000),
        IncomeTaxKnot::new(20000, 3000),
        IncomeTaxKnot::new(max_income_to_consider, 27000),
    ];
    assert_eq!(
        &expected_result,
        schedule
            .to_income_amount_schedule(max_income_to_consider)
            .schedule()
    );
}

#[test]
fn test_get_tax_amounts_from_marginal_tax_rates_schedule() {
    let schedule = progressive();
    let result = schedule.get_tax_amount_from_marginal_rates_knots(25000);
    assert!(is(&result.unwrap(), 4500, 1));
    let invalid_result = schedule.get_tax_amount_from_marginal_rates_knots(-25000);
    assert_eq!(invalid_result.unwrap_err(), TaxError::NegativeIncome(-25000));
    let zero_result = schedule.get_tax_amount_from_marginal_rates_knots(0);
    assert!(is(&zero_result.unwrap(), 0, 1));
}

#[test]
fn test_adjust_exchange_rate_schedule() {
    let table = foo();
    let max_income_to_consider = 390000;
    let schedule_one = adjust_exchange_rate_schedule(&table, &None, max_income_to_consider);
    let schedule_two =
        adjust_exchange_rate_schedule(&table, &Some(2_000_000), max_income_to_consider);
    let schedule_three =
        adjust_exchange_rate_schedule(&table, &Some(500_000), max_income_to_consider);

    assert_eq!(
        schedule_one,
        Some(IncomeTaxAmountSchedule::new(vec![
            IncomeTaxKnot::new(0, 0),
            IncomeTaxKnot::new(100000, 10000),
            IncomeTaxKnot::new(200000, 30000),
            IncomeTaxKnot::new(300000, 60000),
            IncomeTaxKnot::new(390000, 96000)
        ]))
    );
    assert_eq!(
        schedule_two,
        Some(IncomeTaxAmountSchedule::new(vec![
            IncomeTaxKnot::new(0, 0),
            IncomeTaxKnot::new(50000, 5000),
            IncomeTaxKnot::new(100000, 15000),
            IncomeTaxKnot::new(150000, 30000),
            IncomeTaxKnot::new(390000, 126000)
        ]))
    );
    assert_eq!(
        schedule_three,
        Some(IncomeTaxAmountSchedule::new(vec![
            IncomeTaxKnot::new(0, 0),
            IncomeTaxKnot::new(200000, 20000),
            IncomeTaxKnot::new(390000, 58000)
        ]))
    );

    let max_income_to_consider = 400000;
    let schedule_one = adjust_exchange_rate_schedule(&table, &None, max_income_to_consider);
    let schedule_two =
        adjust_exchange_rate_schedule(&table, &Some(2_000_000), max_income_to_consider);
    let schedule_three =
        adjust_exchange_rate_schedule(&table, &Some(500_000), max_income_to_consider);

    assert_eq!(
        schedule_one,
        Some(IncomeTaxAmountSchedule::new(vec![
            IncomeTaxKnot::new(0, 0),
            IncomeTaxKnot::new(100000, 10000),
            IncomeTaxKnot::new(200000, 30000),
            IncomeTaxKnot::new(300000, 60000),
            IncomeTaxKnot::new(400000, 100000)
        ]))
    );
    assert_eq!(
        schedule_two,
        Some(IncomeTaxAmountSchedule::new(vec![
            IncomeTaxKnot::new(0, 0),
            IncomeTaxKnot::new(50000, 5000),
            IncomeTaxKnot::new(100000, 15000),
            IncomeTaxKnot::new(150000, 30000),
            IncomeTaxKnot::new(400000, 130000)
        ]))
    );
    assert_eq!(
        schedule_three,
        Some(IncomeTaxAmountSchedule::new(vec![
            IncomeTaxKnot::new(0, 0),
            IncomeTaxKnot::new(200000, 20000),
            IncomeTaxKnot::new(400000, 60000)
        ]))
    );
}

#[test]
fn tax_is_exact() {
    let schedule = progressive();
    let tax = |x: i32| schedule.get_tax_amount_from_marginal_rates_knots(x).unwrap();
    assert!(is(&tax(100000), 27000, 1));
    // 10% of 9 is 0.9 and 10% of 15 is 1.5: nothing is rounded.
    assert!(is(&tax(9), 9, 10));
    assert!(is(&tax(15), 3, 2));
    assert!(is(&tax(10000), 1000, 1));
    // One unbounded 50% bracket taxes income 1 as one half.
    let half = MarginalIncomeTaxRateSchedule::new(vec![MarginalRateKnot::new(None, 5000)]);
    assert!(is(&half.get_tax_amount_from_marginal_rates_knots(1).unwrap(), 1, 2));
}

#[test]
fn curve_agrees_with_the_formula_between_knots() {
    let half = MarginalIncomeTaxRateSchedule::new(vec![MarginalRateKnot::new(None, 5000)]);
    let curve = half.to_income_amount_schedule(3);
    assert!(is(&curve.compute_specific_income_tax(1).unwrap(), 1, 2));
    let table = foo();
    let curve = table.to_income_amount_schedule(390000);
    for income in [0, 1, 7, 99999, 100001, 150000, 250001, 389999, 390000] {
        let from_curve = curve.compute_specific_income_tax(income).unwrap();
        let from_formula = table.get_tax_amount_from_marginal_rates_knots(income).unwrap();
        assert!(is(&from_curve, from_formula.numer(), from_formula.denom()));
    }
}

#[test]
fn conversion_below_first_limit_keeps_only_the_ends() {
    let schedule = progressive();
    let curve = schedule.to_income_amount_schedule(5000);
    assert_eq!(
        curve.schedule(),
        &vec![IncomeTaxKnot::new(0, 0), IncomeTaxKnot::new(5000, 500)]
    );
    // A maximum exactly at a limit gives that knot once, as the last one.
    let curve = schedule.to_income_amount_schedule(20000);
    assert_eq!(
        curve.schedule(),
        &vec![
            IncomeTaxKnot::new(0, 0),
            IncomeTaxKnot::new(10000, 1000),
            IncomeTaxKnot::new(20000, 3000)
        ]
    );
}

#[test]
fn unit_exchange_rate_keeps_the_table() {
    let table = foo();
    let same = table.exchange_rate_adjustment(&Some(UNIT_EXCHANGE_RATE)).unwrap();
    assert_eq!(same, table);
    let none = table.exchange_rate_adjustment(&None).unwrap();
    assert_eq!(none, table);
    let a = adjust_exchange_rate_schedule(&table, &Some(UNIT_EXCHANGE_RATE), 390000).unwrap();
    let b = table.to_income_amount_schedule(390000);
    assert_eq!(a, b);
    for income in [0, 1, 99999, 150000, 390000] {
        assert_eq!(
            a.compute_specific_income_tax(income),
            b.compute_specific_income_tax(income)
        );
    }
}

#[test]
fn exchange_rate_rescales_limits() {
    let table = progressive();
    // Rate one half: each limit b becomes exactly 2 b, held as
    // b * 1_000_000 over 500_000.
    let doubled = table.exchange_rate_adjustment(&Some(500_000)).unwrap();
    assert_eq!(doubled.limit_denom(), 500_000);
    assert_eq!(
        doubled.schedule(),
        &vec![
            MarginalRateKnot::new(Some(10_000_000_000), 1000),
            MarginalRateKnot::new(Some(20_000_000_000), 2000),
            MarginalRateKnot::new(None, 3000),
        ]
    );
    let whole = doubled.rounded_to_minor_units().unwrap();
    assert_eq!(whole.limit_denom(), 1);
    assert_eq!(
        whole.schedule(),
        &vec![
            MarginalRateKnot::new(Some(20000), 1000),
            MarginalRateKnot::new(Some(40000), 2000),
            MarginalRateKnot::new(None, 3000),
        ]
    );
}

#[test]
fn invalid_exchange_rates_give_no_table() {
    let table = progressive();
    assert_eq!(table.exchange_rate_adjustment(&Some(0)), None);
    // Above u32::MAX parts per million.
    assert_eq!(table.exchange_rate_adjustment(&Some(1_000_000_000_000)), None);
    // A rate of one millionth is exact, but its limits do not fit a curve.
    let tiny = table.exchange_rate_adjustment(&Some(1)).unwrap();
    assert_eq!(tiny.limit_denom(), 1);
    assert_eq!(tiny.rounded_to_minor_units(), None);
    assert_eq!(adjust_exchange_rate_schedule(&table, &Some(1), 100000), None);
    assert_eq!(adjust_exchange_rate_schedule(&table, &None, -1), None);
}

#[test]
fn table_validation() {
    assert!(MarginalIncomeTaxRateSchedule::is_valid_table(
        progressive().schedule()
    ));
    assert!(!MarginalIncomeTaxRateSchedule::is_valid_table(&[]));
    // Not increasing.
    assert!(!MarginalIncomeTaxRateSchedule::is_valid_table(&[
        MarginalRateKnot::new(Some(20000), 1000),
        MarginalRateKnot::new(Some(10000), 2000),
        MarginalRateKnot::new(None, 3000),
    ]));
    // Unbounded bracket before the last.
    assert!(!MarginalIncomeTaxRateSchedule::is_valid_table(&[
        MarginalRateKnot::new(None, 1000),
        MarginalRateKnot::new(Some(10000), 2000),
    ]));
    // Rate above 100%.
    assert!(!MarginalIncomeTaxRateSchedule::is_valid_table(&[
        MarginalRateKnot::new(None, 10001),
    ]));
    // Zero first limit.
    assert!(!MarginalIncomeTaxRateSchedule::is_valid_table(&[
        MarginalRateKnot::new(Some(0), 1000),
        MarginalRateKnot::new(None, 2000),
    ]));
}

#[test]
fn converted_curve_amounts_never_fall() {
    let curve = foo().to_income_amount_schedule(390000);
    let knots = curve.schedule();
    for pair in knots.windows(2) {
        assert!(pair[0].income_limit() < pair[1].income_limit());
        assert!(pair[0].income_tax_amount_bp <= pair[1].income_tax_amount_bp);
    }
}

#[test]
fn rescaled_table_taxes_in_proportion() {
    // Rate 2: limits halve exactly, and tax'(x) = tax(2 x) / 2.
    let table = foo();
    let local = table.exchange_rate_adjustment(&Some(2_000_000)).unwrap();
    for x in [0, 1, 49999, 50000, 75001, 150000, 195000] {
        let scaled = local.get_tax_amount_from_marginal_rates_knots(x).unwrap();
        let original = table.get_tax_amount_from_marginal_rates_knots(2 * x).unwrap();
        assert!(is(&scaled, original.numer(), 2 * original.denom()));
    }
    // A limit that does not divide stays exact: 10 at rate 3 is 10/3, and
    // income 4 at 100% above it is taxed 2/3.
    let small = MarginalIncomeTaxRateSchedule::new(vec![
        MarginalRateKnot::new(Some(10), 0),
        MarginalRateKnot::new(None, 10000),
    ]);
    let third = small.exchange_rate_adjustment(&Some(3_000_000)).unwrap();
    assert_eq!(third.schedule()[0].income_limit(), Some(10_000_000));
    assert_eq!(third.limit_denom(), 3_000_000);
    let tax = third.get_tax_amount_from_marginal_rates_knots(4).unwrap();
    assert!(is(&tax, 2, 3));
    // Rounding for a curve gives the limit 3.
    let whole = third.rounded_to_minor_units().unwrap();
    assert_eq!(whole.schedule()[0], MarginalRateKnot::new(Some(3), 0));
}
