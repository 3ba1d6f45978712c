//! Rate lookup: finding the exchange-rate record for an unordered pair of
//! currency codes.

use vstd::prelude::*;
use crate::types::ExchangeRate;
use crate::types::Rate;

verus! {

/// A record answers a query for the unordered pair `(x, y)` when its stored
/// codes are `(x, y)` in either order and both the buy and the sell rate
/// are present; records missing either rate are skipped.
pub open spec fn matches_pair(r: ExchangeRate, x: i32, y: i32) -> bool {
    &&& r.rate_buy is Some
    &&& r.rate_sell is Some
    &&& ((r.currency_code_a == x && r.currency_code_b == y) || (r.currency_code_a == y
        && r.currency_code_b == x))
}

/// The first record answering the unordered pair `(x, y)`, if any.
pub open spec fn find_rate_spec(x: i32, y: i32, rates: Seq<ExchangeRate>) -> Option<ExchangeRate>
    decreases rates.len(),
{
    if rates.len() == 0 {
        None
    } else if matches_pair(rates[0], x, y) {
        Some(rates[0])
    } else {
        find_rate_spec(x, y, rates.drop_first())
    }
}

/// A matched record, with its rates unwrapped. `currency_code_a` keeps the
/// record's stored orientation: buy and sell stay directional and are never
/// swapped, whatever the order of the query.
#[derive(Clone, Copy, PartialEq, Eq, Debug)]
pub struct FoundRate {
    pub currency_code_a: i32,
    pub currency_code_b: i32,
    pub buy: Rate,
    pub sell: Rate,
}

/// The matched record, reduced to what the converter reads from it.
pub open spec fn found_of(rec: ExchangeRate) -> FoundRate {
    FoundRate {
        currency_code_a: rec.currency_code_a,
        currency_code_b: rec.currency_code_b,
        buy: rec.rate_buy.unwrap(),
        sell: rec.rate_sell.unwrap(),
    }
}

/// Scanning past non-matching records does not change the lookup result.
pub proof fn lemma_find_rate_first_match(x: i32, y: i32, rates: Seq<ExchangeRate>, i: int)
    requires
        0 <= i < rates.len(),
        matches_pair(rates[i], x, y),
        forall|j: int| 0 <= j < i ==> !matches_pair(#[trigger] rates[j], x, y),
    ensures
        find_rate_spec(x, y, rates) == Some(rates[i]),
    decreases i,
{
    if i > 0 {
        let rest = rates.drop_first();
        assert(rest[i - 1] == rates[i]);
        assert forall|j: int| 0 <= j < i - 1 implies !matches_pair(#[trigger] rest[j], x, y) by {
            assert(rest[j] == rates[j + 1]);
        }
        lemma_find_rate_first_match(x, y, rest, i - 1);
    }
}

/// Where no record matches, the lookup finds nothing.
pub proof fn lemma_find_rate_none(x: i32, y: i32, rates: Seq<ExchangeRate>)
    requires
        forall|j: int| 0 <= j < rates.len() ==> !matches_pair(#[trigger] rates[j], x, y),
    ensures
        find_rate_spec(x, y, rates) is None,
    decreases rates.len(),
{
    if rates.len() > 0 {
        let rest = rates.drop_first();
        assert forall|j: int| 0 <= j < rest.len() implies !matches_pair(
            #[trigger] rest[j],
            x,
            y,
        ) by {
            assert(rest[j] == rates[j + 1]);
        }
        lemma_find_rate_none(x, y, rest);
    }
}

/// A found record is one of the scanned records, and matches the query.
pub proof fn lemma_find_rate_in(x: i32, y: i32, rates: Seq<ExchangeRate>)
    requires
        find_rate_spec(x, y, rates) is Some,
    ensures
        rates.contains(find_rate_spec(x, y, rates).unwrap()),
        matches_pair(find_rate_spec(x, y, rates).unwrap(), x, y),
    decreases rates.len(),
{
    if rates.len() > 0 && !matches_pair(rates[0], x, y) {
        let rest = rates.drop_first();
        lemma_find_rate_in(x, y, rest);
        let rec = find_rate_spec(x, y, rest).unwrap();
        let i = choose|i: int| 0 <= i < rest.len() && rest[i] == rec;
        assert(rates[i + 1] == rec);
    } else {
        assert(rates[0] == find_rate_spec(x, y, rates).unwrap());
    }
}

/// Scans the records in feed order and returns the first whose unordered
/// code pair equals `(code_x, code_y)` and whose buy and sell rates are both
/// present; `None` signals that no conversion is possible for the pair.
pub fn find_rate(code_x: i32, code_y: i32, rates: &Vec<ExchangeRate>) -> (r: Option<FoundRate>)
    ensures
        (r is Some) == (find_rate_spec(code_x, code_y, rates@) is Some),
        r is Some ==> r.unwrap() == found_of(find_rate_spec(code_x, code_y, rates@).unwrap()),
{
    let mut i: usize = 0;
    while i < rates.len()
        invariant
            0 <= i <= rates.len(),
            forall|j: int| 0 <= j < i ==> !matches_pair(#[trigger] rates@[j], code_x, code_y),
        decreases rates.len() - i,
    {
        let rec = rates[i];
        match (rec.rate_buy, rec.rate_sell) {
            (Some(buy), Some(sell)) => {
                if (rec.currency_code_a == code_x && rec.currency_code_b == code_y)
                    || (rec.currency_code_a == code_y && rec.currency_code_b == code_x) {
                    proof {
                        lemma_find_rate_first_match(code_x, code_y, rates@, i as int);
                    }
                    return Some(
                        FoundRate {
                            currency_code_a: rec.currency_code_a,
                            currency_code_b: rec.currency_code_b,
                            buy,
                            sell,
                        },
                    );
                }
            },
            _ => {},
        }
        i = i + 1;
    }
    proof {
        lemma_find_rate_none(code_x, code_y, rates@);
    }
    None
}

/// The lookup result reduced to what callers read: `None` where no record
/// answers the pair.
pub open spec fn found_rate_spec(x: i32, y: i32, rates: Seq<ExchangeRate>) -> Option<FoundRate> {
    match find_rate_spec(x, y, rates) {
        None => None,
        Some(rec) => Some(found_of(rec)),
    }
}

/// One row of the pairwise rate table: the code `first` paired with each
/// later code, with the looked-up rates, or `None` where no record answers
/// the pair.
#[derive(Clone, Copy, PartialEq, Eq, Debug)]
pub struct PairRates {
    pub first: i32,
    pub second: i32,
    pub found: Option<FoundRate>,
}

/// The table row for `c` against each code of `others`, in order.
pub open spec fn pair_row(c: i32, others: Seq<i32>, rates: Seq<ExchangeRate>) -> Seq<PairRates>
    decreases others.len(),
{
    if others.len() == 0 {
        Seq::empty()
    } else {
        pair_row(c, others.drop_last(), rates).push(
            PairRates {
                first: c,
                second: others.last(),
                found: found_rate_spec(c, others.last(), rates),
            },
        )
    }
}

/// The first `n` rows of the pairwise table: each of the first `n` codes,
/// paired with every code after it.
pub open spec fn pair_table_upto(
    codes: Seq<i32>,
    n: int,
    rates: Seq<ExchangeRate>,
) -> Seq<PairRates>
    recommends
        n <= codes.len(),
    decreases n,
{
    if n <= 0 {
        Seq::empty()
    } else {
        pair_table_upto(codes, n - 1, rates) + pair_row(codes[n - 1], codes.skip(n), rates)
    }
}

/// The full pairwise table: every unordered pair of listed codes once,
/// row-major in list order.
pub open spec fn pair_table(codes: Seq<i32>, rates: Seq<ExchangeRate>) -> Seq<PairRates> {
    pair_table_upto(codes, codes.len() as int, rates)
}

/// Looks up the rates for every unordered pair of the given currency
/// codes: one entry per pair, row-major, each holding the first matching
/// record's rates or `None` where no record answers the pair.
pub fn get_exchange_rates(unique_currencies: &Vec<i32>, rates: &Vec<ExchangeRate>) -> (r: Vec<
    PairRates,
>)
    ensures
        r@ == pair_table(unique_currencies@, rates@),
{
    let mut r: Vec<PairRates> = Vec::new();
    let mut i: usize = 0;
    while i < unique_currencies.len()
        invariant
            0 <= i <= unique_currencies.len(),
            r@ == pair_table_upto(unique_currencies@, i as int, rates@),
        decreases unique_currencies.len() - i,
    {
        let first = unique_currencies[i];
        let ghost row_start = r@;
        proof {
            assert(unique_currencies@.skip(i + 1).take(0) =~= Seq::<i32>::empty());
            assert(r@ =~= row_start + pair_row(first, Seq::<i32>::empty(), rates@));
        }
        let mut j: usize = i + 1;
        while j < unique_currencies.len()
            invariant
                0 <= i < unique_currencies.len(),
                i + 1 <= j <= unique_currencies.len(),
                first == unique_currencies@[i as int],
                row_start == pair_table_upto(unique_currencies@, i as int, rates@),
                r@ == row_start + pair_row(
                    first,
                    unique_currencies@.skip(i + 1).take(j - i - 1),
                    rates@,
                ),
            decreases unique_currencies.len() - j,
        {
            let second = unique_currencies[j];
            let found = find_rate(first, second, rates);
            proof {
                assert(found == found_rate_spec(first, second, rates@));
            }
            r.push(PairRates { first, second, found });
            proof {
                let s = unique_currencies@.skip(i + 1);
                assert(s.take(j - i).drop_last() =~= s.take(j - i - 1));
                assert(s.take(j - i).last() == s[j - i - 1]);
                assert(s[j - i - 1] == unique_currencies@[j as int]);
                assert(r@ =~= row_start + pair_row(first, s.take(j - i), rates@));
            }
            j = j + 1;
        }
        proof {
            let s = unique_currencies@.skip(i + 1);
            assert(s.take(unique_currencies@.len() - i - 1) =~= s);
            assert(unique_currencies@.skip(i as int + 1) == s);
            assert(r@ == pair_table_upto(unique_currencies@, i + 1, rates@));
        }
        i = i + 1;
    }
    proof {
        if unique_currencies@.len() == 0 {
            assert(r@ =~= pair_table(unique_currencies@, rates@));
        }
    }
    r
}

} // verus!
