use monobank_api::abbrev::to_abbreviation;
use monobank_api::convert::convert_balances_to_currency;
use monobank_api::convert::produce_report;
use monobank_api::convert::ConversionWarning;
use monobank_api::rates::find_rate;
use monobank_api::rates::get_exchange_rates;
use monobank_api::types::Account;
use monobank_api::types::ExchangeRate;
use monobank_api::types::Rate;

fn acc(currency_code: i32, balance: i64) -> Account {
    Account {
        id: String::from("acc"),
        balance,
        credit_limit: 0,
        currency_code,
        masked_pan: vec![],
    }
}

fn rec(a: i32, b: i32, buy: Option<Rate>, sell: Option<Rate>) -> ExchangeRate {
    ExchangeRate {
        currency_code_a: a,
        currency_code_b: b,
        date: Some(1_700_000_000),
        rate_buy: buy,
        rate_sell: sell,
        rate_cross: None,
    }
}

// Balances are minor units: UAH 1000.00 is 100000, USD 10.00 is 1000.
fn scenario_accounts() -> Vec<Account> {
    vec![acc(980, 100000), acc(840, 1000)]
}

// One record: A = 840 (USD), B = 980 (UAH), buy 41.0, sell 41.5.
fn scenario_rates() -> Vec<ExchangeRate> {
    vec![rec(
        840,
        980,
        Some(Rate { num: 41, den: 1 }),
        Some(Rate { num: 83, den: 2 }),
    )]
}

#[test]
fn scenario_convert_to_uah() {
    // 1000.00 UAH + 10.00 USD * 41.0 = 1410.00 UAH: 141000 minor units.
    let out = convert_balances_to_currency(&scenario_accounts(), 980, &scenario_rates());
    assert_eq!(out.total, 141000);
    assert!(out.warnings.is_empty());
}

#[test]
fn scenario_convert_to_usd() {
    // 10.00 USD + 1000.00 UAH / 41.5 = 34.09 USD at minor-unit precision:
    // 1000 + floor(100000 * 2 / 83) = 1000 + 2409 = 3409.
    let out = convert_balances_to_currency(&scenario_accounts(), 840, &scenario_rates());
    assert_eq!(out.total, 3409);
    assert!(out.warnings.is_empty());
}

#[test]
fn scenario_missing_rate_skips_and_warns() {
    // EUR has no record: its contribution is 0, a warning is recorded, the
    // other currencies are still summed.
    let mut accounts = scenario_accounts();
    accounts.push(acc(978, 5000));
    let out = convert_balances_to_currency(&accounts, 980, &scenario_rates());
    assert_eq!(out.total, 141000);
    assert_eq!(out.warnings, vec![ConversionWarning::MissingRate(978)]);
}

#[test]
fn all_accounts_already_in_target() {
    // Already in the target currency: the unconverted sum, rates unused.
    let accounts = vec![acc(980, 100000), acc(980, 2500)];
    let out = convert_balances_to_currency(&accounts, 980, &scenario_rates());
    assert_eq!(out.total, 102500);
    assert!(out.warnings.is_empty());
}

#[test]
fn zero_sell_rate_skips_and_warns() {
    // Inversion needed and the sell rate is zero: treated as no rate.
    let rates = vec![rec(
        840,
        980,
        Some(Rate { num: 41, den: 1 }),
        Some(Rate { num: 0, den: 1 }),
    )];
    let accounts = scenario_accounts();
    let out = convert_balances_to_currency(&accounts, 840, &rates);
    assert_eq!(out.total, 1000);
    assert_eq!(out.warnings, vec![ConversionWarning::ZeroDivisor(980)]);
}

#[test]
fn zero_sell_rate_harmless_in_natural_direction() {
    // Converting to UAH uses the buy rate; the zero sell rate is not read.
    let rates = vec![rec(
        840,
        980,
        Some(Rate { num: 41, den: 1 }),
        Some(Rate { num: 0, den: 1 }),
    )];
    let out = convert_balances_to_currency(&scenario_accounts(), 980, &rates);
    assert_eq!(out.total, 141000);
    assert!(out.warnings.is_empty());
}

#[test]
fn round_trip_at_zero_spread() {
    // With buy == sell, converting and converting back loses at most the
    // quantization of the truncating divisions.
    let rates = vec![rec(
        840,
        980,
        Some(Rate { num: 41, den: 1 }),
        Some(Rate { num: 41, den: 1 }),
    )];
    let uah = vec![acc(980, 100000)];
    let to_usd = convert_balances_to_currency(&uah, 840, &rates).total;
    assert_eq!(to_usd, 2439);
    let usd = vec![acc(840, to_usd as i64)];
    let back = convert_balances_to_currency(&usd, 980, &rates).total;
    assert_eq!(back, 99999);
    assert!((100000 - back) * 1 <= 1 + 41 - 2);
}

#[test]
fn warnings_follow_currency_order() {
    // Without any rate records, every non-target currency is skipped with
    // its own warning, in ascending code order; the target still counts.
    let accounts = vec![acc(985, 200), acc(980, 300), acc(978, 100)];
    let out = convert_balances_to_currency(&accounts, 980, &vec![]);
    assert_eq!(out.total, 300);
    assert_eq!(
        out.warnings,
        vec![ConversionWarning::MissingRate(978), ConversionWarning::MissingRate(985)]
    );
}

#[test]
fn no_accounts_no_total() {
    let accounts: Vec<Account> = vec![];
    let out = convert_balances_to_currency(&accounts, 980, &scenario_rates());
    assert_eq!(out.total, 0);
    assert!(out.warnings.is_empty());
}

#[test]
fn negative_balances_convert_toward_zero() {
    // A debt of 10.00 USD converts like a balance, with the sign kept.
    let accounts = vec![acc(840, -1000)];
    let to_uah = convert_balances_to_currency(&accounts, 980, &scenario_rates());
    assert_eq!(to_uah.total, -41000);
    // A debt of 1000.00 UAH through 1/41.5 truncates toward zero: -2409.
    let accounts = vec![acc(980, -100000)];
    let to_usd = convert_balances_to_currency(&accounts, 840, &scenario_rates());
    assert_eq!(to_usd.total, -2409);
}

#[test]
fn find_rate_matches_either_order_without_swapping() {
    let rates = scenario_rates();
    let forward = find_rate(840, 980, &rates).unwrap();
    let reverse = find_rate(980, 840, &rates).unwrap();
    // The stored orientation and the stored buy/sell survive both queries.
    assert_eq!(forward, reverse);
    assert_eq!(forward.currency_code_a, 840);
    assert_eq!(forward.currency_code_b, 980);
    assert_eq!(forward.buy, Rate { num: 41, den: 1 });
    assert_eq!(forward.sell, Rate { num: 83, den: 2 });
}

#[test]
fn find_rate_skips_records_missing_a_rate() {
    let rates = vec![
        rec(840, 980, Some(Rate { num: 40, den: 1 }), None),
        rec(840, 980, None, Some(Rate { num: 42, den: 1 })),
        rec(840, 980, Some(Rate { num: 41, den: 1 }), Some(Rate { num: 83, den: 2 })),
    ];
    let found = find_rate(980, 840, &rates).unwrap();
    assert_eq!(found.buy, Rate { num: 41, den: 1 });
}

#[test]
fn find_rate_first_match_wins() {
    let rates = vec![
        rec(840, 980, Some(Rate { num: 41, den: 1 }), Some(Rate { num: 83, den: 2 })),
        rec(980, 840, Some(Rate { num: 99, den: 1 }), Some(Rate { num: 99, den: 1 })),
    ];
    let found = find_rate(980, 840, &rates).unwrap();
    assert_eq!(found.buy, Rate { num: 41, den: 1 });
    assert_eq!(found.currency_code_a, 840);
}

#[test]
fn find_rate_not_found() {
    assert!(find_rate(978, 840, &scenario_rates()).is_none());
}

#[test]
fn exchange_rate_table_lists_every_pair() {
    let codes = vec![840, 978, 980];
    let table = get_exchange_rates(&codes, &scenario_rates());
    assert_eq!(table.len(), 3);
    assert_eq!((table[0].first, table[0].second), (840, 978));
    assert_eq!((table[1].first, table[1].second), (840, 980));
    assert_eq!((table[2].first, table[2].second), (978, 980));
    assert!(table[0].found.is_none());
    assert!(table[2].found.is_none());
    let pair = table[1].found.unwrap();
    assert_eq!(pair.buy, Rate { num: 41, den: 1 });
}

#[test]
fn report_covers_each_target() {
    let report = produce_report(&scenario_accounts(), &scenario_rates(), &vec![980, 840, 978]);
    assert_eq!(report, vec![(980, 141000), (840, 3409), (978, 0)]);
}

#[test]
fn abbreviation_of_known_codes() {
    assert_eq!(to_abbreviation(980), "UAH");
    assert_eq!(to_abbreviation(840), "USD");
    assert_eq!(to_abbreviation(978), "EUR");
}

#[test]
fn abbreviation_of_unknown_codes() {
    assert_eq!(to_abbreviation(123), "Unknown");
    assert_eq!(to_abbreviation(-1), "Unknown");
    assert_eq!(to_abbreviation(100000), "Unknown");
}
