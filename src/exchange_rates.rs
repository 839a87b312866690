use vstd::prelude::*;

verus! {

/// The currency of each supported country, as `(country, currency code)`
/// pairs; each country appears once.
pub open spec fn currency_table() -> Seq<(&'static str, &'static str)> {
    seq![
        ("New Zealand", "NZD"),
        ("Australia", "AUD"),
        ("United Kingdom", "GBP"),
        ("Singapore", "SGD"),
        ("Norway", "NOK"),
        ("South Africa", "ZAR"),
        ("Netherlands", "EUR"),
        ("Ireland", "EUR"),
        ("Spain", "EUR"),
        ("United States of America (excl. state taxes)", "USD"),
        ("Canada (excl. provincial taxes)", "CAD"),
    ]
}

/// The country-to-currency table (see `currency_table`).
pub fn get_currency_country_mapping() -> (r: Vec<(&'static str, &'static str)>)
    ensures
        r@ == currency_table(),
{
    let mut country_currency_map: Vec<(&'static str, &'static str)> = Vec::new();
    country_currency_map.push(("New Zealand", "NZD"));
    country_currency_map.push(("Australia", "AUD"));
    country_currency_map.push(("United Kingdom", "GBP"));
    country_currency_map.push(("Singapore", "SGD"));
    country_currency_map.push(("Norway", "NOK"));
    country_currency_map.push(("South Africa", "ZAR"));
    country_currency_map.push(("Netherlands", "EUR"));
    country_currency_map.push(("Ireland", "EUR"));
    country_currency_map.push(("Spain", "EUR"));
    country_currency_map.push(("United States of America (excl. state taxes)", "USD"));
    country_currency_map.push(("Canada (excl. provincial taxes)", "CAD"));
    proof {
        assert(country_currency_map@ =~= currency_table());
    }
    country_currency_map
}

} // verus!
