//! Currency conversion: per-currency totals converted into one target
//! currency. A held currency is converted with the matched record's buy
//! rate when the record is stored from the held currency towards the
//! target, and with the inverted sell rate when it is stored the other way
//! round; a missing record or a zero sell rate skips that currency with a
//! warning, never aborting the report.

use vstd::prelude::*;
use vstd::math::abs;
use vstd::arithmetic::div_mod::lemma_div_nonincreasing;
use vstd::arithmetic::div_mod::lemma_div_pos_is_pos;
use vstd::arithmetic::div_mod::lemma_fundamental_div_mod;
use vstd::arithmetic::div_mod::lemma_mod_division_less_than_divisor;
use vstd::arithmetic::mul::lemma_mul_inequality;
use vstd::arithmetic::mul::lemma_mul_is_commutative;
use vstd::arithmetic::mul::lemma_mul_is_distributive_sub;
use vstd::arithmetic::mul::lemma_mul_nonnegative;
use vstd::arithmetic::mul::lemma_mul_unary_negation;
use vstd::arithmetic::mul::lemma_mul_upper_bound;
use crate::aggregate::insert_code;
use crate::aggregate::sum_abs;
use crate::aggregate::total_bal;
use crate::aggregate::sum_abs_over_codes;
use crate::aggregate::sum_bal;
use crate::aggregate::unique_sorted_codes;
use crate::aggregate::get_total_balances;
use crate::aggregate::lemma_strictly_sorted_no_duplicates;
use crate::aggregate::lemma_sum_abs_over_codes_le;
use crate::aggregate::lemma_sum_bal_abs;
use crate::aggregate::lemma_unique_sorted_codes_props;
use crate::aggregate::strictly_sorted;
use crate::rates::find_rate;
use crate::rates::find_rate_spec;
use crate::rates::lemma_find_rate_in;
use crate::types::Account;
use crate::types::ExchangeRate;
use crate::types::exchange_rate_wf;
use crate::types::rates_wf;

verus! {

/// Division with the quotient rounded toward zero, as the machine division
/// of signed integers computes it.
pub open spec fn div_trunc(a: int, b: int) -> int
    recommends
        b >= 1,
{
    if a >= 0 {
        a / b
    } else {
        -((-a) / b)
    }
}

/// An amount scaled by the ratio `num / den`, truncated toward zero.
pub open spec fn rate_mul(amt: int, num: int, den: int) -> int
    recommends
        den >= 1,
{
    div_trunc(amt * num, den)
}

/// A non-fatal condition met while converting one currency; the report
/// records it and goes on.
#[derive(Clone, Copy, PartialEq, Eq, Debug)]
pub enum ConversionWarning {
    /// No exchange-rate record matches the pair of this currency and the
    /// target: no conversion is possible, the currency is skipped.
    MissingRate(i32),
    /// The matched record asks for division by its sell rate, which is
    /// zero: treated as no rate available, the currency is skipped.
    ZeroDivisor(i32),
}

/// What one currency's total adds to the report in the target currency:
/// the amount itself for the target currency; otherwise, through the first
/// matching record, the amount times the buy rate when the record is
/// stored from the held currency, or divided by the sell rate when it is
/// stored from the target; nothing when no record matches or the needed
/// sell rate is zero.
pub open spec fn contribution(c: i32, amt: int, target: i32, rates: Seq<ExchangeRate>) -> int {
    if c == target {
        amt
    } else {
        match find_rate_spec(c, target, rates) {
            None => 0,
            Some(rec) => {
                let buy = rec.rate_buy.unwrap();
                let sell = rec.rate_sell.unwrap();
                if rec.currency_code_a == c {
                    rate_mul(amt, buy.num as int, buy.den as int)
                } else if sell.num == 0 {
                    0
                } else {
                    rate_mul(amt, sell.den as int, sell.num as int)
                }
            },
        }
    }
}

/// The warning, if any, that converting currency `c` into the target
/// records.
pub open spec fn warning_of(c: i32, target: i32, rates: Seq<ExchangeRate>) -> Option<
    ConversionWarning,
> {
    if c == target {
        None
    } else {
        match find_rate_spec(c, target, rates) {
            None => Some(ConversionWarning::MissingRate(c)),
            Some(rec) => {
                if rec.currency_code_a != c && rec.rate_sell.unwrap().num == 0 {
                    Some(ConversionWarning::ZeroDivisor(c))
                } else {
                    None
                }
            },
        }
    }
}

/// The converted total: the contributions of the listed currencies, summed.
pub open spec fn converted_over(
    codes: Seq<i32>,
    accounts: Seq<Account>,
    target: i32,
    rates: Seq<ExchangeRate>,
) -> int
    decreases codes.len(),
{
    if codes.len() == 0 {
        0
    } else {
        converted_over(codes.drop_last(), accounts, target, rates) + contribution(
            codes.last(),
            sum_bal(accounts, codes.last()),
            target,
            rates,
        )
    }
}

/// The warnings of the listed currencies, in list order.
pub open spec fn warnings_over(codes: Seq<i32>, target: i32, rates: Seq<ExchangeRate>) -> Seq<
    ConversionWarning,
>
    decreases codes.len(),
{
    if codes.len() == 0 {
        Seq::empty()
    } else {
        let rest = warnings_over(codes.drop_last(), target, rates);
        match warning_of(codes.last(), target, rates) {
            Some(w) => rest.push(w),
            None => rest,
        }
    }
}

/// Multiplies a minor-unit amount by `mul_by` and divides by `div_by`,
/// truncating toward zero; computed exactly in 128 bits.
fn scale_trunc(amt: i64, mul_by: u32, div_by: u32) -> (r: i128)
    requires
        div_by >= 1,
    ensures
        r == rate_mul(amt as int, mul_by as int, div_by as int),
{
    let neg = amt < 0;
    let mag: u64 = if neg {
        (-(amt as i128)) as u64
    } else {
        amt as u64
    };
    proof {
        assert(mag == abs(amt as int));
    }
    proof {
        lemma_mul_upper_bound(mag as int, 0x8000_0000_0000_0000, mul_by as int, 0xffff_ffff);
    }
    let prod: u128 = (mag as u128) * (mul_by as u128);
    let q: u128 = prod / (div_by as u128);
    proof {
        lemma_div_nonincreasing(prod as int, div_by as int);
        lemma_div_pos_is_pos(prod as int, div_by as int);
    }
    let r: i128 = if neg {
        -(q as i128)
    } else {
        q as i128
    };
    proof {
        if neg {
            assert(mag as int * mul_by as int == -((amt as int) * (mul_by as int))) by {
                lemma_mul_unary_negation(amt as int, mul_by as int);
            }
            assert((amt as int) * (mul_by as int) <= 0) by {
                lemma_mul_nonnegative(-(amt as int), mul_by as int);
            }
            assert(r == rate_mul(amt as int, mul_by as int, div_by as int));
        } else {
            assert((amt as int) * (mul_by as int) >= 0) by {
                lemma_mul_nonnegative(amt as int, mul_by as int);
            }
            assert(r == rate_mul(amt as int, mul_by as int, div_by as int));
        }
    }
    r
}

/// Truncating toward zero never increases the magnitude of a quotient.
proof fn lemma_div_trunc_abs_le(a: int, b: int)
    requires
        b >= 1,
    ensures
        abs(div_trunc(a, b)) <= abs(a),
{
    if a >= 0 {
        lemma_div_nonincreasing(a, b);
        lemma_div_pos_is_pos(a, b);
    } else {
        lemma_div_nonincreasing(-a, b);
        lemma_div_pos_is_pos(-a, b);
    }
}

/// One currency's contribution is bounded by its absolute amount times the
/// largest representable rate component.
proof fn lemma_contribution_bound(c: i32, amt: int, target: i32, rates: Seq<ExchangeRate>)
    requires
        rates_wf(rates),
    ensures
        abs(contribution(c, amt, target, rates)) <= abs(amt) * 0xffff_ffff,
{
    let u: int = 0xffff_ffff;
    assert(abs(amt) <= abs(amt) * u) by {
        lemma_mul_inequality(1, u, abs(amt) as int);
        lemma_mul_is_commutative(abs(amt) as int, u);
    }
    if c != target {
        match find_rate_spec(c, target, rates) {
            None => {},
            Some(rec) => {
                lemma_find_rate_in(c, target, rates);
                let i = choose|i: int| 0 <= i < rates.len() && rates[i] == rec;
                assert(exchange_rate_wf(rec));
                let buy = rec.rate_buy.unwrap();
                let sell = rec.rate_sell.unwrap();
                if rec.currency_code_a == c {
                    lemma_rate_mul_bound(amt, buy.num as int, buy.den as int);
                } else if sell.num == 0 {
                } else {
                    lemma_rate_mul_bound(amt, sell.den as int, sell.num as int);
                }
            },
        }
    }
}

/// Scaling by `num / den` with components below 2^32 multiplies the
/// magnitude by less than 2^32.
proof fn lemma_rate_mul_bound(amt: int, num: int, den: int)
    requires
        0 <= num <= 0xffff_ffff,
        1 <= den,
    ensures
        abs(rate_mul(amt, num, den)) <= abs(amt) * 0xffff_ffff,
{
    let u: int = 0xffff_ffff;
    lemma_div_trunc_abs_le(amt * num, den);
    assert(abs(amt * num) == abs(amt) * num) by {
        if amt < 0 {
            lemma_mul_unary_negation(amt, num);
            lemma_mul_nonnegative(-amt, num);
        } else {
            lemma_mul_nonnegative(amt, num);
        }
    }
    assert(abs(amt) * num <= abs(amt) * u) by {
        lemma_mul_inequality(num, u, abs(amt) as int);
        lemma_mul_is_commutative(abs(amt) as int, num);
        lemma_mul_is_commutative(abs(amt) as int, u);
    }
}

/// The running converted total is bounded by the listed currencies'
/// absolute sums times the largest representable rate component.
proof fn lemma_converted_over_bound(
    codes: Seq<i32>,
    accounts: Seq<Account>,
    target: i32,
    rates: Seq<ExchangeRate>,
)
    requires
        rates_wf(rates),
    ensures
        abs(converted_over(codes, accounts, target, rates)) <= sum_abs_over_codes(codes, accounts)
            * 0xffff_ffff,
    decreases codes.len(),
{
    if codes.len() > 0 {
        let c = codes.last();
        lemma_converted_over_bound(codes.drop_last(), accounts, target, rates);
        lemma_contribution_bound(c, sum_bal(accounts, c), target, rates);
        lemma_sum_bal_abs(accounts, c);
    }
}

/// A best-effort conversion result: the total in the target currency,
/// together with the warnings met on the way. No condition here is fatal.
#[derive(Debug)]
pub struct ConversionOutcome {
    pub total: i128,
    pub warnings: Vec<ConversionWarning>,
}

/// Converts every per-currency total into the target currency and sums the
/// results. A currency without a usable rate contributes nothing and leaves
/// a warning; the other currencies are still summed.
pub fn convert_balances_to_currency(
    accounts: &Vec<Account>,
    target_currency: i32,
    rates: &Vec<ExchangeRate>,
) -> (r: ConversionOutcome)
    requires
        sum_abs(accounts@) <= i64::MAX,
        rates_wf(rates@),
    ensures
        r.total == converted_over(
            unique_sorted_codes(accounts@),
            accounts@,
            target_currency,
            rates@,
        ),
        r.warnings@ == warnings_over(unique_sorted_codes(accounts@), target_currency, rates@),
{
    let ghost codes = unique_sorted_codes(accounts@);
    let total_balances = get_total_balances(accounts);
    let mut total: i128 = 0;
    let mut warnings: Vec<ConversionWarning> = Vec::new();
    let mut k: usize = 0;
    while k < total_balances.len()
        invariant
            0 <= k <= total_balances.len(),
            sum_abs(accounts@) <= i64::MAX,
            rates_wf(rates@),
            codes == unique_sorted_codes(accounts@),
            total_balances@.len() == codes.len(),
            forall|m: int| 0 <= m < codes.len() ==> (#[trigger] total_balances@[m]).currency_code
                == codes[m],
            forall|m: int| 0 <= m < codes.len() ==> (#[trigger] total_balances@[m]).total
                == sum_bal(accounts@, codes[m]),
            total == converted_over(codes.take(k as int), accounts@, target_currency, rates@),
            warnings@ == warnings_over(codes.take(k as int), target_currency, rates@),
        decreases total_balances.len() - k,
    {
        let entry = total_balances[k];
        let c = entry.currency_code;
        let amt = entry.total;
        proof {
            assert(codes.take(k + 1).drop_last() =~= codes.take(k as int));
            assert(codes.take(k + 1).last() == codes[k as int]);
            lemma_unique_sorted_codes_props(accounts@);
            assert(strictly_sorted(codes.take(k + 1))) by {
                assert(forall|m: int| 0 <= m < k + 1 ==> codes.take(k + 1)[m] == codes[m]);
            }
            lemma_strictly_sorted_no_duplicates(codes.take(k + 1));
            lemma_sum_abs_over_codes_le(codes.take(k + 1), accounts@);
            lemma_converted_over_bound(codes.take(k + 1), accounts@, target_currency, rates@);
            lemma_converted_over_bound(codes.take(k as int), accounts@, target_currency, rates@);
            lemma_strictly_sorted_no_duplicates(codes.take(k as int));
            lemma_sum_abs_over_codes_le(codes.take(k as int), accounts@);
        }
        if c == target_currency {
            total = total + amt as i128;
        } else {
            let found = find_rate(c, target_currency, rates);
            proof {
                if find_rate_spec(c, target_currency, rates@) is Some {
                    lemma_find_rate_in(c, target_currency, rates@);
                    let rec = find_rate_spec(c, target_currency, rates@).unwrap();
                    let i = choose|i: int| 0 <= i < rates@.len() && rates@[i] == rec;
                    assert(exchange_rate_wf(rec));
                }
            }
            match found {
                None => {
                    warnings.push(ConversionWarning::MissingRate(c));
                },
                Some(fr) => {
                    if fr.currency_code_a == c {
                        let part = scale_trunc(amt, fr.buy.num, fr.buy.den);
                        total = total + part;
                    } else if fr.sell.num == 0 {
                        warnings.push(ConversionWarning::ZeroDivisor(c));
                    } else {
                        let part = scale_trunc(amt, fr.sell.den, fr.sell.num);
                        total = total + part;
                    }
                },
            }
        }
        k = k + 1;
    }
    proof {
        assert(codes.take(codes.len() as int) =~= codes);
    }
    ConversionOutcome { total, warnings }
}

/// The externally exposed report: the accounts converted into each
/// requested target currency, one `(target, converted total)` pair per
/// request, in request order.
pub fn produce_report(
    accounts: &Vec<Account>,
    rates: &Vec<ExchangeRate>,
    target_currencies: &Vec<i32>,
) -> (r: Vec<(i32, i128)>)
    requires
        sum_abs(accounts@) <= i64::MAX,
        rates_wf(rates@),
    ensures
        r@.len() == target_currencies@.len(),
        forall|k: int| 0 <= k < r@.len() ==> (#[trigger] r@[k]).0 == target_currencies@[k],
        forall|k: int| 0 <= k < r@.len() ==> (#[trigger] r@[k]).1 == converted_over(
            unique_sorted_codes(accounts@),
            accounts@,
            target_currencies@[k],
            rates@,
        ),
{
    let mut r: Vec<(i32, i128)> = Vec::new();
    let mut k: usize = 0;
    while k < target_currencies.len()
        invariant
            0 <= k <= target_currencies.len(),
            sum_abs(accounts@) <= i64::MAX,
            rates_wf(rates@),
            r@.len() == k,
            forall|m: int| 0 <= m < k ==> (#[trigger] r@[m]).0 == target_currencies@[m],
            forall|m: int| 0 <= m < k ==> (#[trigger] r@[m]).1 == converted_over(
                unique_sorted_codes(accounts@),
                accounts@,
                target_currencies@[m],
                rates@,
            ),
        decreases target_currencies.len() - k,
    {
        let target = target_currencies[k];
        let outcome = convert_balances_to_currency(accounts, target, rates);
        r.push((target, outcome.total));
        k = k + 1;
    }
    r
}

/// Where every account is held in the one currency `c`, the distinct-code
/// sequence is exactly `[c]`.
proof fn lemma_ucs_all_same(accounts: Seq<Account>, c: i32)
    requires
        accounts.len() > 0,
        forall|k: int| 0 <= k < accounts.len() ==> (#[trigger] accounts[k]).currency_code == c,
    ensures
        unique_sorted_codes(accounts) == seq![c],
    decreases accounts.len(),
{
    let rest = accounts.drop_last();
    assert(accounts[accounts.len() - 1].currency_code == c);
    if rest.len() == 0 {
        assert(unique_sorted_codes(rest) == Seq::<i32>::empty());
    } else {
        assert forall|k: int| 0 <= k < rest.len() implies (#[trigger] rest[k]).currency_code
            == c by {
            assert(rest[k] == accounts[k]);
        }
        lemma_ucs_all_same(rest, c);
        assert(seq![c][0] == c);
        assert(insert_code(seq![c], c) == seq![c]);
    }
}

/// Where every account is held in currency `c`, its per-currency sum is
/// the sum over all accounts.
proof fn lemma_sum_bal_all_same(accounts: Seq<Account>, c: i32)
    requires
        forall|k: int| 0 <= k < accounts.len() ==> (#[trigger] accounts[k]).currency_code == c,
    ensures
        sum_bal(accounts, c) == total_bal(accounts),
    decreases accounts.len(),
{
    if accounts.len() > 0 {
        let rest = accounts.drop_last();
        assert(accounts[accounts.len() - 1].currency_code == c);
        assert forall|k: int| 0 <= k < rest.len() implies (#[trigger] rest[k]).currency_code
            == c by {
            assert(rest[k] == accounts[k]);
        }
        lemma_sum_bal_all_same(rest, c);
    }
}

/// Law: where every account is already held in the target currency, the
/// converted total is the plain, unconverted sum of all balances, whatever
/// rates were fetched.
pub proof fn lemma_convert_all_in_target(
    accounts: Seq<Account>,
    target: i32,
    rates: Seq<ExchangeRate>,
)
    requires
        forall|k: int| 0 <= k < accounts.len() ==> (#[trigger] accounts[k]).currency_code
            == target,
    ensures
        converted_over(unique_sorted_codes(accounts), accounts, target, rates) == total_bal(
            accounts,
        ),
{
    if accounts.len() == 0 {
        assert(unique_sorted_codes(accounts) == Seq::<i32>::empty());
        assert(converted_over(Seq::<i32>::empty(), accounts, target, rates) == 0);
    } else {
        lemma_ucs_all_same(accounts, target);
        let codes = seq![target];
        assert(codes.drop_last() =~= Seq::<i32>::empty());
        assert(codes.last() == target);
        assert(converted_over(Seq::<i32>::empty(), accounts, target, rates) == 0);
        assert(converted_over(codes, accounts, target, rates) == contribution(
            target,
            sum_bal(accounts, target),
            target,
            rates,
        ));
        lemma_sum_bal_all_same(accounts, target);
    }
}

/// The quantization argument for a round trip at a single rate, for a
/// nonnegative amount.
proof fn lemma_round_trip_nonneg(x: int, num: int, den: int)
    requires
        x >= 0,
        num >= 1,
        den >= 1,
    ensures
        0 <= rate_mul(rate_mul(x, num, den), den, num) <= x,
        num * (x - rate_mul(rate_mul(x, num, den), den, num)) <= num + den - 2,
{
    let a = x * num;
    lemma_mul_nonnegative(x, num);
    let y = a / den;
    lemma_div_pos_is_pos(a, den);
    lemma_fundamental_div_mod(a, den);
    lemma_mod_division_less_than_divisor(a, den);
    let r1 = a % den;
    assert(rate_mul(x, num, den) == y);
    let b = y * den;
    lemma_mul_nonnegative(y, den);
    assert(rate_mul(y, den, num) == div_trunc(b, num));
    let z = b / num;
    lemma_div_pos_is_pos(b, num);
    lemma_fundamental_div_mod(b, num);
    lemma_mod_division_less_than_divisor(b, num);
    let r2 = b % num;
    assert(b == a - r1) by {
        lemma_mul_is_commutative(y, den);
    }
    assert(num * (x - z) == r1 + r2) by {
        lemma_mul_is_distributive_sub(num, x, z);
        lemma_mul_is_commutative(x, num);
    }
    assert(x - z >= 0) by {
        if x - z <= -1 {
            lemma_mul_inequality(x - z, -1, num);
            lemma_mul_is_commutative(x - z, num);
        }
    }
}

/// Law: converting an amount with the rate `num / den` and converting the
/// result back with the same rate inverted — buy and sell coinciding, a
/// zero spread — recovers the amount up to the quantization of the two
/// truncating divisions: the loss never exceeds the amount, keeps its
/// sign, and scaled by `num` stays below `num + den`. A nonzero spread
/// between buy and sell additionally shifts the result by the spread
/// itself, which is intentional and not recovered.
pub proof fn lemma_round_trip(x: int, num: int, den: int)
    requires
        num >= 1,
        den >= 1,
    ensures
        abs(rate_mul(rate_mul(x, num, den), den, num)) <= abs(x),
        num * abs(x - rate_mul(rate_mul(x, num, den), den, num)) <= num + den - 2,
{
    if x >= 0 {
        lemma_round_trip_nonneg(x, num, den);
    } else {
        lemma_round_trip_nonneg(-x, num, den);
        let yp = rate_mul(-x, num, den);
        assert(rate_mul(x, num, den) == -yp) by {
            lemma_mul_unary_negation(x, num);
            lemma_mul_nonnegative(-x, num);
        }
        let zp = rate_mul(yp, den, num);
        assert(rate_mul(-yp, den, num) == -zp) by {
            lemma_mul_unary_negation(yp, den);
            lemma_mul_nonnegative(yp, den);
        }
        assert(x - rate_mul(rate_mul(x, num, den), den, num) == -((-x) - zp));
    }
}

/// Law: with one record whose buy and sell rate coincide at `r`, converting
/// an amount held in the record's B currency into its A currency — the
/// converter inverts the sell rate — and converting the result back — the
/// converter applies the buy rate — recovers the amount up to the
/// quantization of the truncating divisions; the result never grows.
pub proof fn lemma_contribution_round_trip(x: int, rec: ExchangeRate, r: crate::types::Rate)
    requires
        rec.currency_code_a != rec.currency_code_b,
        rec.rate_buy == Some(r),
        rec.rate_sell == Some(r),
        r.num >= 1,
        r.den >= 1,
    ensures
        ({
            let a = rec.currency_code_a;
            let b = rec.currency_code_b;
            let there = contribution(b, x, a, seq![rec]);
            let back = contribution(a, there, b, seq![rec]);
            abs(back) <= abs(x) && (r.den as int) * abs(x - back) <= r.den + r.num - 2
        }),
{
    let a = rec.currency_code_a;
    let b = rec.currency_code_b;
    let rates = seq![rec];
    assert(rates[0] == rec);
    assert(crate::rates::matches_pair(rec, b, a));
    assert(find_rate_spec(b, a, rates) == Some(rec));
    assert(crate::rates::matches_pair(rec, a, b));
    assert(find_rate_spec(a, b, rates) == Some(rec));
    let there = contribution(b, x, a, rates);
    assert(there == rate_mul(x, r.den as int, r.num as int));
    lemma_round_trip(x, r.den as int, r.num as int);
}

} // verus!

