use taxes_compare::exchange_rates::get_currency_country_mapping;
use taxes_compare::utils::{
    compute_effective_tax_rates, effective_tax_rate, exchange_rate_adjustment, generate_range,
    group_incomes_by_segment,
};
use taxes_compare::{Fraction, IncomeTaxKnot, LinearPiecewiseSegment};

#[test]
fn utils_test_group_incomes_by_segment() {
    let incomes = vec![500, 1500, 1700, 2500, 3500];
    let knot_points = vec![
        IncomeTaxKnot::new(0, 0),
        IncomeTaxKnot::new(1000, 0),
        IncomeTaxKnot::new(2000, 1),
        IncomeTaxKnot::new(3000, 3),
    ];

    let expected_result = vec![
        (
            LinearPiecewiseSegment {
                left_point: IncomeTaxKnot::new(0, 0),
                right_point: IncomeTaxKnot::new(1000, 0),
            },
            vec![500],
        ),
        (
            LinearPiecewiseSegment {
                left_point: IncomeTaxKnot::new(1000, 0),
                right_point: IncomeTaxKnot::new(2000, 1),
            },
            vec![1500, 1700],
        ),
        (
            LinearPiecewiseSegment {
                left_point: IncomeTaxKnot::new(2000, 1),
                right_point: IncomeTaxKnot::new(3000, 3),
            },
            vec![2500],
        ),
    ];

    let actual_result = group_incomes_by_segment(&incomes, &knot_points);
    assert_eq!(expected_result, actual_result);
}

#[test]
fn grouping_emits_skipped_segments_empty() {
    let knot_points = vec![
        IncomeTaxKnot::new(0, 0),
        IncomeTaxKnot::new(1000, 0),
        IncomeTaxKnot::new(2000, 1),
        IncomeTaxKnot::new(3000, 3),
    ];
    let groups = group_incomes_by_segment(&[2500], &knot_points);
    let sizes: Vec<usize> = groups.iter().map(|g| g.1.len()).collect();
    assert_eq!(sizes, vec![0, 0, 1]);
    assert!(group_incomes_by_segment(&[], &knot_points).is_empty());
    assert!(group_incomes_by_segment(&[5], &knot_points[..1]).is_empty());
    // A knot's own income stays in the segment it closes.
    let groups = group_incomes_by_segment(&[1000, 2000], &knot_points);
    assert_eq!(groups.len(), 2);
    assert_eq!(groups[0].1, vec![1000]);
    assert_eq!(groups[1].1, vec![2000]);
}

#[test]
fn range_generation() {
    assert_eq!(generate_range(0, 30, 10), vec![0, 10, 20, 30]);
    assert_eq!(generate_range(0, 35, 10), vec![0, 10, 20, 30]);
    assert_eq!(generate_range(5, 4, 1), Vec::<i32>::new());
    assert_eq!(generate_range(7, 7, 3), vec![7]);
    let last = generate_range(i32::MAX - 2, i32::MAX, 2);
    assert_eq!(last, vec![i32::MAX - 2, i32::MAX]);
}

#[test]
fn effective_rates() {
    let rates = compute_effective_tax_rates(
        &[0, 2000, 25000],
        &[Fraction::new(0, 1), Fraction::new(1, 1), Fraction::new(4500, 1)],
    );
    assert_eq!(rates[0], Fraction::new(0, 1));
    assert_eq!(rates[1], Fraction::new(1, 2000));
    assert_eq!(rates[2], Fraction::new(4500, 25000));
    assert_eq!(effective_tax_rate(-4, Fraction::new(1, 2)), Fraction::new(-1, 8));
    assert_eq!(effective_tax_rate(0, Fraction::new(7, 3)), Fraction::new(0, 1));
}

#[test]
fn income_values_in_local_currency() {
    let local = exchange_rate_adjustment(&[100, -3, 0], 1_500_000);
    assert_eq!(local[0].numer() * 1, 150 * local[0].denom());
    assert_eq!(local[1].numer() * 2, -9 * local[1].denom());
    assert_eq!(local[2].numer(), 0);
}

#[test]
fn currency_of_each_country() {
    let table = get_currency_country_mapping();
    assert_eq!(table.len(), 11);
    assert!(table.contains(&("New Zealand", "NZD")));
    assert!(table.contains(&("Australia", "AUD")));
    assert!(table.contains(&("Spain", "EUR")));
    let mut countries: Vec<&str> = table.iter().map(|p| p.0).collect();
    countries.sort();
    countries.dedup();
    assert_eq!(countries.len(), 11);
}
