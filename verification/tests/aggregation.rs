use monobank_api::aggregate::get_total_balance_by_currency;
use monobank_api::aggregate::get_total_balances;
use monobank_api::aggregate::get_unique_currencies;
use monobank_api::aggregate::per_currency_breakdown;
use monobank_api::types::Account;
use monobank_api::types::CurrencyTotal;

fn acc(currency_code: i32, balance: i64) -> Account {
    Account {
        id: String::from("acc"),
        balance,
        credit_limit: 0,
        currency_code,
        masked_pan: vec![String::from("537541******1234")],
    }
}

#[test]
fn unique_currencies_sorted_and_distinct() {
    let accounts = vec![acc(980, 1), acc(840, 2), acc(980, 3), acc(978, 4)];
    let codes = get_unique_currencies(&accounts);
    assert_eq!(codes, vec![840, 978, 980]);
}

#[test]
fn unique_currencies_empty() {
    let accounts: Vec<Account> = vec![];
    let codes = get_unique_currencies(&accounts);
    assert!(codes.is_empty());
}

#[test]
fn total_by_currency_sums_exactly() {
    let accounts = vec![acc(980, 100000), acc(840, 1000), acc(980, 2550), acc(980, -500)];
    assert_eq!(get_total_balance_by_currency(&accounts, 980), 102050);
    assert_eq!(get_total_balance_by_currency(&accounts, 840), 1000);
}

#[test]
fn total_by_currency_zero_when_none_match() {
    let accounts = vec![acc(980, 100000)];
    assert_eq!(get_total_balance_by_currency(&accounts, 840), 0);
}

#[test]
fn total_balances_one_entry_per_currency() {
    let accounts = vec![acc(980, 100000), acc(840, 1000), acc(980, 2550)];
    let totals = get_total_balances(&accounts);
    assert_eq!(
        totals,
        vec![
            CurrencyTotal { currency_code: 840, total: 1000 },
            CurrencyTotal { currency_code: 980, total: 102550 },
        ]
    );
}

#[test]
fn totals_partition_all_balances() {
    // The per-currency totals, summed, equal the sum of all balances.
    let accounts = vec![acc(980, 7), acc(840, -3), acc(978, 11), acc(840, 5), acc(980, 1)];
    let totals = get_total_balances(&accounts);
    let sum_of_totals: i64 = totals.iter().map(|t| t.total).sum();
    let sum_of_balances: i64 = accounts.iter().map(|a| a.balance).sum();
    assert_eq!(sum_of_totals, sum_of_balances);
    assert_eq!(sum_of_totals, 21);
}

#[test]
fn breakdown_matches_totals() {
    let accounts = vec![acc(980, 100000), acc(840, 1000)];
    assert_eq!(per_currency_breakdown(&accounts), get_total_balances(&accounts));
}

#[test]
fn account_getters() {
    let a = acc(980, 12345);
    assert_eq!(a.id().as_str(), "acc");
    assert_eq!(a.balance(), 12345);
    assert_eq!(a.currency_code(), 980);
}
