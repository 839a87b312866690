use taxes_compare::{Fraction, IncomeTaxKnot, LinearPiecewiseSegment};

// Incomes and amounts in tenths.
#[test]
fn test_linear_interpolation() {
    let segment = LinearPiecewiseSegment {
        left_point: IncomeTaxKnot::new(50, 30),
        right_point: IncomeTaxKnot::new(40, 60),
    };
    let valid_result = segment.linear_interpolation(45);
    let v = valid_result.unwrap();
    assert_eq!(v.numer() * 1, 45 * v.denom());

    let invalid_result = segment.linear_interpolation(51);
    assert_eq!(invalid_result, None);

    let invalid_result_2 = segment.linear_interpolation(39);
    assert_eq!(invalid_result_2, None);
}

fn at(p: &taxes_compare::IncomeTaxPoint, x: i128, y: i128) -> bool {
    p.income_numer == x * p.denom && p.income_tax_amount_numer == y * p.denom * 10000
}

#[test]
fn test_get_breakeven_point() {
    let test_segment = LinearPiecewiseSegment {
        left_point: IncomeTaxKnot::new(10, 0),
        right_point: IncomeTaxKnot::new(0, 10),
    };
    let interecting_segment = LinearPiecewiseSegment {
        left_point: IncomeTaxKnot::new(10, 10),
        right_point: IncomeTaxKnot::new(0, 0),
    };

    let result = test_segment.compute_intersection(&interecting_segment);
    assert!(at(&result.unwrap(), 5, 5));

    let barely_interecting_segment = LinearPiecewiseSegment {
        left_point: IncomeTaxKnot::new(5, 5),
        right_point: IncomeTaxKnot::new(0, 0),
    };
    let result = test_segment.compute_intersection(&barely_interecting_segment);
    assert!(at(&result.unwrap(), 5, 5));

    let non_interecting_segment = LinearPiecewiseSegment {
        left_point: IncomeTaxKnot::new(4, 4),
        right_point: IncomeTaxKnot::new(0, 0),
    };
    let result = test_segment.compute_intersection(&non_interecting_segment);
    assert!(result.is_none());

    let result = test_segment.compute_intersection(&test_segment);
    assert!(result.is_none());

    let parallel_segment = LinearPiecewiseSegment {
        left_point: IncomeTaxKnot::new(0, 5),
        right_point: IncomeTaxKnot::new(5, 0),
    };
    let result = parallel_segment.compute_intersection(&test_segment);
    assert!(result.is_none());
}

#[test]
fn interpolation_at_ends_and_between() {
    let segment = LinearPiecewiseSegment {
        left_point: IncomeTaxKnot::new(1000, 0),
        right_point: IncomeTaxKnot::new(2000, 1),
    };
    let is = |f: Fraction, n: i128, d: i128| f.numer() * d == n * f.denom();
    assert!(is(segment.linear_interpolation(1000).unwrap(), 0, 1));
    assert!(is(segment.linear_interpolation(2000).unwrap(), 1, 1));
    assert!(is(segment.linear_interpolation(1700).unwrap(), 7, 10));
    assert_eq!(segment.linear_interpolation(999), None);
    assert!(is(segment.value_within(1500), 1, 2));
}

#[test]
fn intersection_off_the_grid() {
    let a = LinearPiecewiseSegment {
        left_point: IncomeTaxKnot::new(5, 5),
        right_point: IncomeTaxKnot::new(15, 10),
    };
    let b = LinearPiecewiseSegment {
        left_point: IncomeTaxKnot::new(5, 0),
        right_point: IncomeTaxKnot::new(10, 10),
    };
    let p = a.compute_intersection(&b).unwrap();
    // (25/3, 20/3)
    assert_eq!(p.income_numer * 3, 25 * p.denom);
    assert_eq!(p.income_tax_amount_numer * 3, 20 * p.denom * 10000);
}
