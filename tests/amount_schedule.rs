use taxes_compare::{Fraction, IncomeTaxAmountSchedule, IncomeTaxKnot, IncomeTaxPoint, TaxError};

fn is(f: &Fraction, numer: i128, denom: i128) -> bool {
    f.numer() * denom == numer * f.denom()
}

fn approx(p: &IncomeTaxPoint, x: f64, y: f64, tol: f64) -> bool {
    let px = p.income_numer as f64 / p.denom as f64;
    let py = p.income_tax_amount_numer as f64 / (p.denom as f64 * 10000.0);
    ((px - x).powi(2) + (py - y).powi(2)).sqrt() < tol
}

fn wiki() -> IncomeTaxAmountSchedule {
    IncomeTaxAmountSchedule::new(vec![
        IncomeTaxKnot::new(0, 0),
        IncomeTaxKnot::new(10000, 1000),
        IncomeTaxKnot::new(20000, 3000),
        IncomeTaxKnot::new(100000, 27000),
    ])
}

#[test]
fn test_compute_income_taxes() {
    let incomes = vec![500, 1500, 1700, 2500];
    let knot_points = vec![
        IncomeTaxKnot::new(0, 0),
        IncomeTaxKnot::new(1000, 0),
        IncomeTaxKnot::new(2000, 1),
        IncomeTaxKnot::new(3000, 3),
    ];
    let schedule = IncomeTaxAmountSchedule::new(knot_points);
    let actual_result = schedule.compute_income_taxes(&incomes).unwrap();
    // 0.0, 0.5, 0.7, 2.0
    let expected_result = [(0, 1), (1, 2), (7, 10), (2, 1)];
    assert_eq!(actual_result.len(), expected_result.len());
    for (v, (n, d)) in actual_result.iter().zip(expected_result.iter()) {
        assert!(is(v, *n, *d));
    }
    let invalid_incomes = vec![500, 1500, 1700, 2500, 3500];
    let invalid_result = schedule.compute_income_taxes(&invalid_incomes);
    assert_eq!(invalid_result.unwrap_err(), TaxError::IncomeOutOfBounds);
}

#[test]
fn test_get_tax_amounts_from_tax_amounts_schedule() {
    let schedule = wiki();
    let result = schedule.compute_specific_income_tax(25000);
    assert!(is(&result.unwrap(), 4500, 1));
    let result = schedule.compute_specific_income_tax(5000);
    assert!(is(&result.unwrap(), 500, 1));
    let invalid_result = schedule.compute_specific_income_tax(-25000);
    assert!(invalid_result.is_none());
    let zero_result = schedule.compute_specific_income_tax(0);
    assert!(is(&zero_result.unwrap(), 0, 1));
}

#[test]
fn test_get_breakeven_taxes() {
    let knots1 = vec![
        IncomeTaxKnot::new(0, 0),
        IncomeTaxKnot::new(5, 5),
        IncomeTaxKnot::new(15, 10),
        IncomeTaxKnot::new(20, 20),
    ];
    let knots2 = vec![
        IncomeTaxKnot::new(5, 0),
        IncomeTaxKnot::new(10, 10),
        IncomeTaxKnot::new(20, 15),
    ];
    let schedule1 = IncomeTaxAmountSchedule::new(knots1);
    let schedule2 = IncomeTaxAmountSchedule::new(knots2);
    let breakevens = schedule1.compute_breakeven_taxes(&schedule2);
    let tolerance = 1e-5;
    assert!(approx(&breakevens[0], 25.0 / 3.0, 20.0 / 3.0, tolerance));
    assert!(approx(&breakevens[1], 50.0 / 3.0, 40.0 / 3.0, tolerance));
}

#[test]
fn breakeven_points_are_exact() {
    let schedule1 = IncomeTaxAmountSchedule::new(vec![
        IncomeTaxKnot::new(0, 0),
        IncomeTaxKnot::new(5, 5),
        IncomeTaxKnot::new(15, 10),
        IncomeTaxKnot::new(20, 20),
    ]);
    let schedule2 = IncomeTaxAmountSchedule::new(vec![
        IncomeTaxKnot::new(5, 0),
        IncomeTaxKnot::new(10, 10),
        IncomeTaxKnot::new(20, 15),
    ]);
    let breakevens = schedule1.compute_breakeven_taxes(&schedule2);
    assert_eq!(breakevens.len(), 2);
    assert!(is(&breakevens[0].income(), 25, 3));
    assert!(is(&breakevens[0].income_tax_amount(), 20, 3));
    assert!(is(&breakevens[1].income(), 50, 3));
    assert!(is(&breakevens[1].income_tax_amount(), 40, 3));
}

#[test]
fn breakeven_leaves_out_the_origin_and_identical_curves() {
    // Both curves start at the origin and then part: only the origin is
    // shared, and it is not reported.
    let a = IncomeTaxAmountSchedule::new(vec![IncomeTaxKnot::new(0, 0), IncomeTaxKnot::new(10, 1)]);
    let b = IncomeTaxAmountSchedule::new(vec![IncomeTaxKnot::new(0, 0), IncomeTaxKnot::new(10, 2)]);
    assert!(a.compute_breakeven_taxes(&b).is_empty());
    // Coincident segments give no point.
    assert!(b.compute_breakeven_taxes(&b).is_empty());
    // On identical curves of several segments, a segment of one meets the
    // next segment of the other at their shared knot.
    let shared = wiki().compute_breakeven_taxes(&wiki());
    assert!(!shared.is_empty());
    assert!(shared[0].income_numer == 10000 * shared[0].denom);
    assert!(is(&shared[0].income_tax_amount(), 1000, 1));
}

#[test]
fn batch_edge_cases() {
    let schedule = wiki();
    assert_eq!(schedule.compute_income_taxes(&[]), Ok(vec![]));
    assert_eq!(
        schedule.compute_income_taxes(&[-5, 10]),
        Err(TaxError::NegativeIncome(-5))
    );
    // Out of bounds is reported before a negative income.
    assert_eq!(
        schedule.compute_income_taxes(&[-5, 200000]),
        Err(TaxError::IncomeOutOfBounds)
    );
    let at_knots = schedule.compute_income_taxes(&[0, 10000, 20000, 100000]).unwrap();
    assert!(is(&at_knots[0], 0, 1));
    assert!(is(&at_knots[1], 1000, 1));
    assert!(is(&at_knots[2], 3000, 1));
    assert!(is(&at_knots[3], 27000, 1));
    let repeated = schedule.compute_income_taxes(&[15000, 15000]).unwrap();
    assert!(is(&repeated[0], 2000, 1));
    assert!(is(&repeated[1], 2000, 1));
}

#[test]
fn lookup_edge_cases() {
    let schedule = wiki();
    assert_eq!(schedule.compute_specific_income_tax(100001), None);
    assert_eq!(
        schedule.compute_specific_income_tax(100000),
        Some(Fraction::new(270_000_000, 10000))
    );
    assert!(is(&schedule.compute_specific_income_tax(20000).unwrap(), 3000, 1));
    assert!(is(&schedule.compute_specific_income_tax(60000).unwrap(), 15000, 1));
    assert!(is(&schedule.compute_specific_income_tax(1).unwrap(), 1, 10));
}

#[test]
fn lookup_agrees_with_batch() {
    let schedule = wiki();
    let incomes: Vec<i32> = (0..=100).map(|k| k * 1000 + 7).filter(|x| *x <= 100000).collect();
    let batch = schedule.compute_income_taxes(&incomes).unwrap();
    for (x, v) in incomes.iter().zip(batch.iter()) {
        let single = schedule.compute_specific_income_tax(*x).unwrap();
        assert!(is(&single, v.numer(), v.denom()));
    }
}

#[test]
fn tax_never_falls_as_income_rises() {
    let schedule = wiki();
    let incomes: Vec<i32> = (0..=2000).map(|k| k * 50).collect();
    let taxes = schedule.compute_income_taxes(&incomes).unwrap();
    for pair in taxes.windows(2) {
        assert!(pair[0].numer() * pair[1].denom() <= pair[1].numer() * pair[0].denom());
    }
}

#[test]
fn taxes_over_a_range() {
    let schedule = wiki();
    let taxes = schedule.compute_income_taxes_in_range(0, 30000, 10000).unwrap();
    assert_eq!(taxes.len(), 4);
    assert!(is(&taxes[0], 0, 1));
    assert!(is(&taxes[1], 1000, 1));
    assert!(is(&taxes[2], 3000, 1));
    assert!(is(&taxes[3], 6000, 1));
    assert_eq!(
        schedule.compute_income_taxes_in_range(0, 100010, 10),
        Err(TaxError::IncomeOutOfBounds)
    );
    assert_eq!(
        schedule.compute_income_taxes_in_range(-10, 100, 10),
        Err(TaxError::NegativeIncome(-10))
    );
}
