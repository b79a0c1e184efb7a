use exchange_rates::{Conversion, ExchangeRates};

/// The rate that a chain of factors gives, multiplied out from one.
fn rate(chain: &[Conversion<f64>]) -> f64 {
    let mut acc = 1.;
    for c in chain {
        acc = match *c {
            Conversion::Direct(r) => acc * r,
            Conversion::Reciprocal(r) => acc * (1. / r),
        };
    }
    acc
}

fn query(e: &ExchangeRates<f64>, a: &str, b: &str) -> Option<f64> {
    e.get(a, b).map(|c| rate(&c))
}

#[test]
fn not_there() {
    let e = ExchangeRates::<f64>::from_rates(&[]);
    assert_eq!(query(&e, "USD", "EUR"), None);
}

#[test]
fn identical() {
    let e = ExchangeRates::<f64>::from_rates(&[]);
    assert_eq!(query(&e, "USD", "USD"), Some(1.));
}

#[test]
fn is_there() {
    let e = ExchangeRates::from_rates(&[("USD", "EUR", 1.)]);
    assert_eq!(query(&e, "USD", "EUR"), Some(1.));
}

#[test]
fn is_not_the_one_there() {
    let e = ExchangeRates::from_rates(&[("USD", "EUR", 1.)]);
    assert_eq!(query(&e, "JPY", "DKK"), None);
}

#[test]
fn reverse() {
    let e = ExchangeRates::from_rates(&[("USD", "EUR", 2.)]);
    assert_eq!(query(&e, "EUR", "USD"), Some(0.5));
}

#[test]
fn chain() {
    let e = ExchangeRates::from_rates(&[("USD", "JPY", 2.), ("JPY", "EUR", 3.)]);
    assert_eq!(query(&e, "USD", "EUR"), Some(6.));
}

#[test]
fn longer_chain() {
    let e = ExchangeRates::from_rates(&[
        ("START", "M1", 2.),
        ("M1", "M2", 2.),
        ("M2", "M3", 2.),
        ("M3", "M4", 5.),
        ("M4", "M5", 2.),
        ("M5", "M6", 2.),
        ("M6", "END", 2.),
    ]);
    assert_eq!(query(&e, "START", "END"), Some(5. * 64.));
}

#[test]
fn identity_of_unknown_currency_is_empty_chain() {
    let e = ExchangeRates::from_rates(&[("USD", "EUR", 3.)]);
    assert_eq!(e.get("XAU", "XAU"), Some(vec![]));
    assert_eq!(e.get("USD", "USD"), Some(vec![]));
}

#[test]
fn absent_source_is_not_found() {
    let e = ExchangeRates::from_rates(&[("USD", "EUR", 3.)]);
    assert_eq!(e.get("GBP", "EUR"), None);
    assert_eq!(e.get("USD", "GBP"), None);
}

#[test]
fn direct_factor_and_its_reciprocal() {
    let e = ExchangeRates::from_rates(&[("USD", "EUR", 4.)]);
    assert_eq!(e.get("USD", "EUR"), Some(vec![Conversion::Direct(4.)]));
    assert_eq!(e.get("EUR", "USD"), Some(vec![Conversion::Reciprocal(4.)]));
    assert_eq!(query(&e, "EUR", "USD"), Some(0.25));
}

#[test]
fn two_hops_through_reciprocals() {
    let e = ExchangeRates::from_rates(&[("JPY", "USD", 4.), ("EUR", "JPY", 8.)]);
    assert_eq!(
        e.get("USD", "EUR"),
        Some(vec![Conversion::Reciprocal(4.), Conversion::Reciprocal(8.)])
    );
    assert_eq!(query(&e, "USD", "EUR"), Some(0.25 * 0.125));
}

#[test]
fn shortest_chain_wins_over_longer_one() {
    let e = ExchangeRates::from_rates(&[
        ("A", "B", 2.),
        ("B", "C", 2.),
        ("C", "D", 2.),
        ("A", "D", 10.),
    ]);
    assert_eq!(query(&e, "A", "D"), Some(10.));
    assert_eq!(query(&e, "A", "B"), Some(2.));
    assert_eq!(e.get("B", "D").map(|c| c.len()), Some(2));
}

#[test]
fn later_rate_for_a_pair_wins() {
    let e = ExchangeRates::from_rates(&[("USD", "EUR", 2.), ("EUR", "USD", 4.)]);
    assert_eq!(query(&e, "EUR", "USD"), Some(4.));
    assert_eq!(query(&e, "USD", "EUR"), Some(0.25));
    let f = ExchangeRates::from_rates(&[("USD", "EUR", 2.), ("USD", "EUR", 5.)]);
    assert_eq!(query(&f, "USD", "EUR"), Some(5.));
    assert_eq!(query(&f, "EUR", "USD"), Some(0.2));
}

#[test]
fn disjoint_components_are_not_found() {
    let e = ExchangeRates::from_rates(&[("USD", "EUR", 1.), ("JPY", "DKK", 2.)]);
    assert_eq!(query(&e, "USD", "DKK"), None);
    assert_eq!(query(&e, "DKK", "EUR"), None);
    assert_eq!(query(&e, "DKK", "JPY"), Some(0.5));
}

#[test]
fn incremental_matches_batch() {
    let edges = [("USD", "JPY", 2.), ("JPY", "EUR", 3.), ("EUR", "GBP", 0.5), ("CHF", "SEK", 7.)];
    let batch = ExchangeRates::from_rates(&edges);
    let mut inc = ExchangeRates::new();
    for (a, b, r) in edges {
        inc.add(a, b, r);
    }
    let names = ["USD", "JPY", "EUR", "GBP", "CHF", "SEK", "NOK"];
    for a in names {
        for b in names {
            assert_eq!(batch.get(a, b), inc.get(a, b));
        }
    }
    assert_eq!(query(&inc, "USD", "GBP"), Some(3.));
}

#[test]
fn self_rate_leaves_identity_alone() {
    let mut e = ExchangeRates::new();
    e.add("USD", "USD", 3.);
    assert_eq!(e.get("USD", "USD"), Some(vec![]));
    e.add("USD", "EUR", 2.);
    assert_eq!(query(&e, "USD", "EUR"), Some(2.));
}
