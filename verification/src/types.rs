//! The data the report works on: accounts, exchange-rate records and
//! per-currency totals, all over exact integers.

use vstd::prelude::*;

verus! {

/// An exchange rate as an exact ratio: an amount is converted by multiplying
/// with `num` and dividing by `den`. A feed value such as 41.5 becomes
/// `Rate { num: 415, den: 10 }`.
#[derive(Clone, Copy, PartialEq, Eq, Debug)]
pub struct Rate {
    pub num: u32,
    pub den: u32,
}

impl Rate {
    /// A usable rate has a positive denominator; a zero numerator is kept,
    /// so that a quoted rate of zero can be recognised where it matters.
    pub open spec fn wf(self) -> bool {
        self.den >= 1
    }
}

/// A market quote for converting between currencies `currency_code_a` and
/// `currency_code_b` (ISO 4217 numeric codes) on a given date. The feed may
/// omit any of the three rates, and the date.
#[derive(Clone, Copy, PartialEq, Eq, Debug)]
pub struct ExchangeRate {
    pub currency_code_a: i32,
    pub currency_code_b: i32,
    pub date: Option<i64>,
    pub rate_buy: Option<Rate>,
    pub rate_sell: Option<Rate>,
    pub rate_cross: Option<Rate>,
}

/// An absent rate is acceptable as it stands; a present one must be usable.
pub open spec fn rate_opt_wf(r: Option<Rate>) -> bool {
    r is Some ==> r.unwrap().wf()
}

pub open spec fn exchange_rate_wf(r: ExchangeRate) -> bool {
    &&& rate_opt_wf(r.rate_buy)
    &&& rate_opt_wf(r.rate_sell)
    &&& rate_opt_wf(r.rate_cross)
}

pub open spec fn rates_wf(rs: Seq<ExchangeRate>) -> bool {
    forall|i: int| 0 <= i < rs.len() ==> exchange_rate_wf(#[trigger] rs[i])
}

/// A snapshot of one account. The balance and the credit limit are integers
/// in minor units (e.g. cents) of the account's currency, which keeps every
/// sum exact.
#[derive(Clone, Debug)]
pub struct Account {
    pub id: String,
    pub balance: i64,
    pub credit_limit: i64,
    pub currency_code: i32,
    pub masked_pan: Vec<String>,
}

impl Account {
    pub fn id(&self) -> (r: &String)
        ensures
            r@ == self.id@,
    {
        &self.id
    }

    pub fn balance(&self) -> (r: i64)
        ensures
            r == self.balance,
    {
        self.balance
    }

    pub fn currency_code(&self) -> (r: i32)
        ensures
            r == self.currency_code,
    {
        self.currency_code
    }
}

/// The summed balance, in minor units, of all accounts held in one currency.
#[derive(Clone, Copy, PartialEq, Eq, Debug)]
pub struct CurrencyTotal {
    pub currency_code: i32,
    pub total: i64,
}

} // verus!
