use taxes_compare::taxes_config::{
    process_countries, process_country_breakeven_points, process_country_taxes,
};
use taxes_compare::utils::generate_range;
use taxes_compare::{Fraction, MarginalIncomeTaxRateSchedule, MarginalRateKnot, TaxError};

fn progressive() -> MarginalIncomeTaxRateSchedule {
    MarginalIncomeTaxRateSchedule::new(vec![
        MarginalRateKnot::new(Some(10000), 1000),
        MarginalRateKnot::new(Some(20000), 2000),
        MarginalRateKnot::new(None, 3000),
    ])
}

fn flat() -> MarginalIncomeTaxRateSchedule {
    MarginalIncomeTaxRateSchedule::new(vec![MarginalRateKnot::new(None, 1500)])
}

fn is(f: &Fraction, numer: i128, denom: i128) -> bool {
    f.numer() * denom == numer * f.denom()
}

#[test]
fn country_taxes_series_and_specific_income() {
    let incomes = generate_range(0, 30000, 10000);
    let data = process_country_taxes(&progressive(), &incomes, 100000, Some(25000), None).unwrap();
    assert_eq!(data.incomes, incomes);
    assert!(is(&data.tax_amounts[1], 1000, 1));
    assert!(is(&data.tax_amounts[3], 6000, 1));
    assert!(is(&data.effective_tax_rates[0], 0, 1));
    assert!(is(&data.effective_tax_rates[3], 1, 5));
    assert!(is(&data.specific_tax_amount.unwrap(), 4500, 1));
    assert!(is(&data.specific_tax_rate.unwrap(), 9, 50));
    assert_eq!(data.tax_brackets, progressive().schedule().clone());
    assert_eq!(data.exchange_rate, None);
}

#[test]
fn country_taxes_errors() {
    let incomes = generate_range(0, 30000, 10000);
    assert_eq!(
        process_country_taxes(&progressive(), &incomes, 20000, None, None).err(),
        Some(TaxError::IncomeOutOfBounds)
    );
    assert_eq!(
        process_country_taxes(&progressive(), &[-1, 5], 20000, None, None).err(),
        Some(TaxError::NegativeIncome(-1))
    );
    assert_eq!(
        process_country_taxes(&progressive(), &incomes, 0, None, None).err(),
        Some(TaxError::IncomeOutOfBounds)
    );
    assert_eq!(
        process_country_taxes(&progressive(), &incomes, -1, None, None).err(),
        Some(TaxError::InvalidSchedule)
    );
    assert_eq!(
        process_country_taxes(&progressive(), &incomes, 100000, None, Some(0)).err(),
        Some(TaxError::InvalidSchedule)
    );
    // The chosen income beyond the curve gets no tax.
    let data = process_country_taxes(&progressive(), &incomes, 100000, Some(200000), Some(2_000_000))
        .unwrap();
    assert_eq!(data.specific_tax_amount, None);
    assert_eq!(data.specific_tax_rate, None);
    assert_eq!(data.exchange_rate, Some(2_000_000));
}

#[test]
fn breakeven_between_countries() {
    // 10% flat up to 10000 then 20%/30%, against 15% flat: they meet where
    // 1000 + 0.2 (x - 10000) = 0.15 x, at x = 20000 (tax 3000).
    let data = process_country_breakeven_points(&progressive(), &flat(), 100000, None, None).unwrap();
    assert_eq!(data.breakeven_incomes.len(), data.breakeven_tax_amounts.len());
    assert!(!data.breakeven_incomes.is_empty());
    assert!(is(&data.breakeven_incomes[0], 20000, 1));
    assert!(is(&data.breakeven_tax_amounts[0], 3000, 1));
    assert!(is(&data.breakeven_effective_tax_rates[0], 3, 20));
    assert_eq!(
        process_country_breakeven_points(&progressive(), &flat(), -5, None, None).err(),
        Some(TaxError::InvalidSchedule)
    );
}

#[test]
fn all_countries_and_pairs() {
    let tables = vec![progressive(), flat(), progressive()];
    let rates = vec![None, None, Some(2_000_000)];
    let (data, pairs) = process_countries(&tables, &rates, 100000, Some(25000), true).unwrap();
    assert_eq!(data.len(), 3);
    // Steps of 1000 minor units from 0 to 100000.
    assert_eq!(data[0].incomes, generate_range(0, 100000, 1000));
    assert!(is(&data[0].specific_tax_amount.unwrap(), 4500, 1));
    let pairs = pairs.unwrap();
    let keys: Vec<(usize, usize)> = pairs.iter().map(|p| (p.0, p.1)).collect();
    assert_eq!(keys, vec![(0, 1), (0, 2), (1, 2)]);
    assert!(is(&pairs[0].2.breakeven_incomes[0], 20000, 1));
    let (_, none) = process_countries(&tables, &rates, 100000, None, false).unwrap();
    assert!(none.is_none());
    assert_eq!(
        process_countries(&tables, &rates, -1, None, false).err(),
        Some(TaxError::InvalidSchedule)
    );
    let (empty, _) = process_countries(&[], &[], 0, None, false).unwrap();
    assert!(empty.is_empty());
}

#[test]
fn zero_maximum_income() {
    // The series is the one income 0, taxed 0 at rate 0.
    let data = process_country_taxes(&progressive(), &[0], 0, Some(0), None).unwrap();
    assert_eq!(data.incomes, vec![0]);
    assert!(is(&data.tax_amounts[0], 0, 1));
    assert!(is(&data.effective_tax_rates[0], 0, 1));
    assert!(is(&data.specific_tax_amount.unwrap(), 0, 1));
    assert!(is(&data.specific_tax_rate.unwrap(), 0, 1));
    let data = process_country_taxes(&progressive(), &[0], 0, Some(5), None).unwrap();
    assert_eq!(data.specific_tax_amount, None);
    let pair = process_country_breakeven_points(&progressive(), &flat(), 0, None, None).unwrap();
    assert!(pair.breakeven_incomes.is_empty());
    let tables = vec![progressive(), flat()];
    let (data, pairs) = process_countries(&tables, &[None, None], 0, None, true).unwrap();
    assert_eq!(data[0].incomes, vec![0]);
    assert!(is(&data[1].tax_amounts[0], 0, 1));
    let pairs = pairs.unwrap();
    assert_eq!(pairs.len(), 1);
    assert!(pairs[0].2.breakeven_incomes.is_empty());
}

#[test]
fn country_taxes_exact_at_any_rate() {
    // Limit 10 at rate 3 is 10/3; income 4 is taxed 100% above it: 2/3.
    let small = MarginalIncomeTaxRateSchedule::new(vec![
        MarginalRateKnot::new(Some(10), 0),
        MarginalRateKnot::new(None, 10000),
    ]);
    let data = process_country_taxes(&small, &[0, 3, 4], 100, Some(4), Some(3_000_000)).unwrap();
    assert!(is(&data.tax_amounts[0], 0, 1));
    assert!(is(&data.tax_amounts[1], 0, 1));
    assert!(is(&data.tax_amounts[2], 2, 3));
    assert!(is(&data.specific_tax_amount.unwrap(), 2, 3));
    assert!(is(&data.effective_tax_rates[2], 1, 6));
    assert_eq!(data.exchange_rate, Some(3_000_000));
}
