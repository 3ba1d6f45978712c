//! Per-currency aggregation: the distinct currency codes of a set of
//! accounts, and the exact per-currency balance sums.

use vstd::prelude::*;
use vstd::math::abs;
use crate::types::Account;
use crate::types::CurrencyTotal;

verus! {

/// The exact sum of the balances of all accounts held in currency `c`.
pub open spec fn sum_bal(accounts: Seq<Account>, c: i32) -> int
    decreases accounts.len(),
{
    if accounts.len() == 0 {
        0
    } else {
        sum_bal(accounts.drop_last(), c) + if accounts.last().currency_code == c {
            accounts.last().balance as int
        } else {
            0
        }
    }
}

/// The sum of the balances of all accounts, whatever their currency.
pub open spec fn total_bal(accounts: Seq<Account>) -> int
    decreases accounts.len(),
{
    if accounts.len() == 0 {
        0
    } else {
        total_bal(accounts.drop_last()) + accounts.last().balance as int
    }
}

/// The sum of the absolute balances of all accounts: an upper bound for
/// every partial sum the aggregation can form.
pub open spec fn sum_abs(accounts: Seq<Account>) -> int
    decreases accounts.len(),
{
    if accounts.len() == 0 {
        0
    } else {
        sum_abs(accounts.drop_last()) + abs(accounts.last().balance as int)
    }
}

/// The sum of the absolute balances of the accounts held in currency `c`.
pub open spec fn sum_abs_bal(accounts: Seq<Account>, c: i32) -> int
    decreases accounts.len(),
{
    if accounts.len() == 0 {
        0
    } else {
        sum_abs_bal(accounts.drop_last(), c) + if accounts.last().currency_code == c {
            abs(accounts.last().balance as int)
        } else {
            0
        }
    }
}

/// A per-currency sum is bounded by the per-currency absolute sum, which is
/// bounded in turn by the absolute sum over all accounts.
pub proof fn lemma_sum_bal_abs(accounts: Seq<Account>, c: i32)
    ensures
        abs(sum_bal(accounts, c)) <= sum_abs_bal(accounts, c),
        sum_abs_bal(accounts, c) <= sum_abs(accounts),
    decreases accounts.len(),
{
    if accounts.len() > 0 {
        lemma_sum_bal_abs(accounts.drop_last(), c);
    }
}

/// Taking a prefix of the accounts can only lower the absolute sum.
pub proof fn lemma_sum_abs_take_le(accounts: Seq<Account>, i: int)
    requires
        0 <= i <= accounts.len(),
    ensures
        sum_abs(accounts.take(i)) <= sum_abs(accounts),
    decreases accounts.len() - i,
{
    if i == accounts.len() {
        assert(accounts.take(i) =~= accounts);
    } else {
        assert(accounts.take(i + 1).drop_last() =~= accounts.take(i));
        assert(accounts.take(i + 1).last() == accounts[i]);
        lemma_sum_abs_take_le(accounts, i + 1);
    }
}

/// Each code is strictly smaller than the next: sorted, without duplicates.
pub open spec fn strictly_sorted(s: Seq<i32>) -> bool {
    forall|i: int, j: int| 0 <= i < j < s.len() ==> s[i] < s[j]
}

/// Inserts a code into a sorted sequence of distinct codes, keeping it
/// sorted and distinct.
pub open spec fn insert_code(s: Seq<i32>, c: i32) -> Seq<i32>
    decreases s.len(),
{
    if s.len() == 0 {
        seq![c]
    } else if c < s[0] {
        seq![c] + s
    } else if c == s[0] {
        s
    } else {
        seq![s[0]] + insert_code(s.drop_first(), c)
    }
}

/// The distinct currency codes appearing among the accounts, in ascending
/// order.
pub open spec fn unique_sorted_codes(accounts: Seq<Account>) -> Seq<i32>
    decreases accounts.len(),
{
    if accounts.len() == 0 {
        Seq::empty()
    } else {
        insert_code(unique_sorted_codes(accounts.drop_last()), accounts.last().currency_code)
    }
}

/// Inserting into a sorted sequence keeps it sorted and adds exactly the
/// inserted code to its members.
pub proof fn lemma_insert_code_props(s: Seq<i32>, c: i32)
    requires
        strictly_sorted(s),
    ensures
        strictly_sorted(insert_code(s, c)),
        forall|x: i32| #![trigger insert_code(s, c).contains(x)]
            insert_code(s, c).contains(x) <==> (s.contains(x) || x == c),
    decreases s.len(),
{
    if s.len() == 0 {
        assert(insert_code(s, c) == seq![c]);
        assert forall|x: i32| insert_code(s, c).contains(x) <==> (s.contains(x) || x == c) by {
            assert(seq![c][0] == c);
        }
    } else if c < s[0] {
        let t = seq![c] + s;
        assert forall|i: int, j: int| 0 <= i < j < t.len() implies t[i] < t[j] by {
            if i == 0 {
                assert(t[j] == s[j - 1]);
            } else {
                assert(t[i] == s[i - 1] && t[j] == s[j - 1]);
            }
        }
        assert forall|x: i32| insert_code(s, c).contains(x) <==> (s.contains(x) || x == c) by {
            assert(t[0] == c);
            if s.contains(x) {
                let k = choose|k: int| 0 <= k < s.len() && s[k] == x;
                assert(t[k + 1] == x);
            }
            if t.contains(x) && x != c {
                let k = choose|k: int| 0 <= k < t.len() && t[k] == x;
                assert(s[k - 1] == x);
            }
        }
    } else if c == s[0] {
    } else {
        let rest = s.drop_first();
        assert(strictly_sorted(rest));
        lemma_insert_code_props(rest, c);
        let t = seq![s[0]] + insert_code(rest, c);
        assert(insert_code(s, c) == t);
        assert forall|i: int, j: int| 0 <= i < j < t.len() implies t[i] < t[j] by {
            if i == 0 {
                let y = insert_code(rest, c)[j - 1];
                assert(insert_code(rest, c).contains(y));
                if rest.contains(y) {
                    let k = choose|k: int| 0 <= k < rest.len() && rest[k] == y;
                    assert(s[k + 1] == y);
                }
            }
        }
        assert forall|x: i32| t.contains(x) <==> (s.contains(x) || x == c) by {
            if t.contains(x) {
                let k = choose|k: int| 0 <= k < t.len() && t[k] == x;
                if k == 0 {
                    assert(s[0] == x);
                } else {
                    assert(insert_code(rest, c).contains(x));
                    if rest.contains(x) {
                        let m = choose|m: int| 0 <= m < rest.len() && rest[m] == x;
                        assert(s[m + 1] == x);
                    }
                }
            }
            if s.contains(x) {
                let k = choose|k: int| 0 <= k < s.len() && s[k] == x;
                if k == 0 {
                    assert(t[0] == x);
                } else {
                    assert(rest[k - 1] == x);
                    assert(rest.contains(x));
                    assert(insert_code(rest, c).contains(x));
                    let m = choose|m: int| 0 <= m < insert_code(rest, c).len()
                        && insert_code(rest, c)[m] == x;
                    assert(t[m + 1] == x);
                }
            }
            if x == c {
                assert(insert_code(rest, c).contains(x));
                let m = choose|m: int| 0 <= m < insert_code(rest, c).len()
                    && insert_code(rest, c)[m] == x;
                assert(t[m + 1] == x);
            }
        }
    }
}

/// Where the first `j` codes are below `c` and the rest are not, inserting
/// `c` either finds it at position `j` or places it there.
proof fn lemma_insert_code_at(s: Seq<i32>, c: i32, j: int)
    requires
        strictly_sorted(s),
        0 <= j <= s.len(),
        forall|k: int| 0 <= k < j ==> s[k] < c,
        j < s.len() ==> s[j] >= c,
    ensures
        j < s.len() && s[j] == c ==> insert_code(s, c) == s,
        !(j < s.len() && s[j] == c) ==> insert_code(s, c) =~= s.take(j).push(c) + s.skip(j),
    decreases s.len(),
{
    if j == 0 {
        if s.len() == 0 {
            assert(insert_code(s, c) =~= s.take(0).push(c) + s.skip(0));
        } else if s[0] == c {
        } else {
            assert(c < s[0]);
            assert(insert_code(s, c) =~= s.take(0).push(c) + s.skip(0));
        }
    } else {
        let rest = s.drop_first();
        assert(strictly_sorted(rest));
        assert(s[0] < c);
        lemma_insert_code_at(rest, c, j - 1);
        if j < s.len() && s[j] == c {
            assert(rest[j - 1] == c);
            assert(insert_code(s, c) == seq![s[0]] + rest);
            assert(seq![s[0]] + rest =~= s);
        } else {
            assert(insert_code(rest, c) =~= rest.take(j - 1).push(c) + rest.skip(j - 1));
            assert(insert_code(s, c) =~= s.take(j).push(c) + s.skip(j));
        }
    }
}

/// The distinct-code sequence of any account list is sorted, and holds
/// exactly the codes that some account carries.
pub proof fn lemma_unique_sorted_codes_props(accounts: Seq<Account>)
    ensures
        strictly_sorted(unique_sorted_codes(accounts)),
        forall|x: i32| #![trigger unique_sorted_codes(accounts).contains(x)]
            unique_sorted_codes(accounts).contains(x) <==> exists|k: int|
                0 <= k < accounts.len() && accounts[k].currency_code == x,
    decreases accounts.len(),
{
    if accounts.len() == 0 {
    } else {
        let rest = accounts.drop_last();
        let c = accounts.last().currency_code;
        lemma_unique_sorted_codes_props(rest);
        lemma_insert_code_props(unique_sorted_codes(rest), c);
        assert forall|x: i32| unique_sorted_codes(accounts).contains(x) implies exists|k: int|
            0 <= k < accounts.len() && accounts[k].currency_code == x by {
            if x == c {
                assert(accounts[accounts.len() - 1].currency_code == x);
            } else {
                assert(unique_sorted_codes(rest).contains(x));
                let k = choose|k: int| 0 <= k < rest.len() && rest[k].currency_code == x;
                assert(rest[k] == accounts[k]);
                assert(accounts[k].currency_code == x);
            }
        }
        assert forall|x: i32| (exists|k: int|
            0 <= k < accounts.len() && accounts[k].currency_code == x) implies
            unique_sorted_codes(accounts).contains(x) by {
            let k = choose|k: int| 0 <= k < accounts.len() && accounts[k].currency_code == x;
            if k < accounts.len() - 1 {
                assert(rest[k] == accounts[k]);
                assert(rest[k].currency_code == x);
                assert(unique_sorted_codes(rest).contains(x));
            }
            assert(unique_sorted_codes(accounts) == insert_code(unique_sorted_codes(rest), c));
            assert(insert_code(unique_sorted_codes(rest), c).contains(x));
        }
    }
}

/// Collects the distinct currency codes among the accounts, in ascending
/// order.
pub fn get_unique_currencies(accounts: &Vec<Account>) -> (r: Vec<i32>)
    ensures
        r@ == unique_sorted_codes(accounts@),
{
    let mut codes: Vec<i32> = Vec::new();
    let mut i: usize = 0;
    while i < accounts.len()
        invariant
            0 <= i <= accounts.len(),
            codes@ == unique_sorted_codes(accounts@.take(i as int)),
            strictly_sorted(codes@),
        decreases accounts.len() - i,
    {
        let c = accounts[i].currency_code;
        let ghost prev = codes@;
        let mut j: usize = 0;
        while j < codes.len() && codes[j] < c
            invariant
                0 <= j <= codes.len(),
                codes@ == prev,
                forall|k: int| 0 <= k < j ==> codes@[k] < c,
            decreases codes.len() - j,
        {
            j = j + 1;
        }
        if j < codes.len() && codes[j] == c {
            proof {
                lemma_insert_code_at(prev, c, j as int);
            }
        } else {
            proof {
                lemma_insert_code_at(prev, c, j as int);
            }
            codes.insert(j, c);
            proof {
                assert(codes@ =~= prev.take(j as int).push(c) + prev.skip(j as int));
            }
        }
        proof {
            assert(accounts@.take(i + 1).drop_last() =~= accounts@.take(i as int));
            assert(accounts@.take(i + 1).last() == accounts@[i as int]);
            assert(codes@ == insert_code(prev, c));
            lemma_insert_code_props(prev, c);
        }
        i = i + 1;
    }
    proof {
        assert(accounts@.take(accounts@.len() as int) =~= accounts@);
    }
    codes
}

/// Sums the balances of all accounts whose currency code equals `currency`;
/// zero if none match. Balances are in minor units, so the sum is exact.
pub fn get_total_balance_by_currency(accounts: &Vec<Account>, currency: i32) -> (total: i64)
    requires
        sum_abs(accounts@) <= i64::MAX,
    ensures
        total == sum_bal(accounts@, currency),
{
    let mut total: i64 = 0;
    let mut i: usize = 0;
    while i < accounts.len()
        invariant
            0 <= i <= accounts.len(),
            sum_abs(accounts@) <= i64::MAX,
            total == sum_bal(accounts@.take(i as int), currency),
        decreases accounts.len() - i,
    {
        proof {
            assert(accounts@.take(i + 1).drop_last() =~= accounts@.take(i as int));
            assert(accounts@.take(i + 1).last() == accounts@[i as int]);
            lemma_sum_bal_abs(accounts@.take(i + 1), currency);
            lemma_sum_abs_take_le(accounts@, i + 1);
        }
        if accounts[i].currency_code == currency {
            total = total + accounts[i].balance;
        }
        i = i + 1;
    }
    proof {
        assert(accounts@.take(accounts@.len() as int) =~= accounts@);
    }
    total
}

/// One per-currency total per distinct currency code present, ascending by
/// currency code.
pub fn get_total_balances(accounts: &Vec<Account>) -> (r: Vec<CurrencyTotal>)
    requires
        sum_abs(accounts@) <= i64::MAX,
    ensures
        r@.len() == unique_sorted_codes(accounts@).len(),
        forall|k: int| 0 <= k < r@.len() ==> (#[trigger] r@[k]).currency_code
            == unique_sorted_codes(accounts@)[k],
        forall|k: int| 0 <= k < r@.len() ==> (#[trigger] r@[k]).total
            == sum_bal(accounts@, unique_sorted_codes(accounts@)[k]),
{
    let codes = get_unique_currencies(accounts);
    let mut r: Vec<CurrencyTotal> = Vec::new();
    let mut k: usize = 0;
    while k < codes.len()
        invariant
            0 <= k <= codes.len(),
            sum_abs(accounts@) <= i64::MAX,
            codes@ == unique_sorted_codes(accounts@),
            r@.len() == k,
            forall|m: int| 0 <= m < k ==> (#[trigger] r@[m]).currency_code == codes@[m],
            forall|m: int| 0 <= m < k ==> (#[trigger] r@[m]).total == sum_bal(accounts@, codes@[m]),
        decreases codes.len() - k,
    {
        let total = get_total_balance_by_currency(accounts, codes[k]);
        r.push(CurrencyTotal { currency_code: codes[k], total });
        k = k + 1;
    }
    r
}

/// The externally exposed per-currency breakdown: one `(currency, total)`
/// entry per distinct currency code among the accounts, ascending by code.
pub fn per_currency_breakdown(accounts: &Vec<Account>) -> (r: Vec<CurrencyTotal>)
    requires
        sum_abs(accounts@) <= i64::MAX,
    ensures
        r@.len() == unique_sorted_codes(accounts@).len(),
        forall|k: int| 0 <= k < r@.len() ==> (#[trigger] r@[k]).currency_code
            == unique_sorted_codes(accounts@)[k],
        forall|k: int| 0 <= k < r@.len() ==> (#[trigger] r@[k]).total
            == sum_bal(accounts@, unique_sorted_codes(accounts@)[k]),
{
    get_total_balances(accounts)
}

/// The per-currency totals, summed over a sequence of currency codes.
pub open spec fn sum_over_codes(codes: Seq<i32>, accounts: Seq<Account>) -> int
    decreases codes.len(),
{
    if codes.len() == 0 {
        0
    } else {
        sum_over_codes(codes.drop_last(), accounts) + sum_bal(accounts, codes.last())
    }
}

/// The per-currency absolute sums, summed over a sequence of currency codes.
pub open spec fn sum_abs_over_codes(codes: Seq<i32>, accounts: Seq<Account>) -> int
    decreases codes.len(),
{
    if codes.len() == 0 {
        0
    } else {
        sum_abs_over_codes(codes.drop_last(), accounts) + sum_abs_bal(accounts, codes.last())
    }
}

proof fn lemma_sum_over_codes_no_accounts(codes: Seq<i32>, accounts: Seq<Account>)
    requires
        accounts.len() == 0,
    ensures
        sum_over_codes(codes, accounts) == 0,
        sum_abs_over_codes(codes, accounts) == 0,
    decreases codes.len(),
{
    if codes.len() > 0 {
        lemma_sum_over_codes_no_accounts(codes.drop_last(), accounts);
    }
}

/// Removing the last account lowers a code-indexed sum by that account's
/// balance if its code is listed, and leaves it unchanged otherwise.
proof fn lemma_sum_over_codes_drop(codes: Seq<i32>, accounts: Seq<Account>)
    requires
        accounts.len() > 0,
        codes.no_duplicates(),
    ensures
        sum_over_codes(codes, accounts) == sum_over_codes(codes, accounts.drop_last())
            + if codes.contains(accounts.last().currency_code) {
                accounts.last().balance as int
            } else {
                0
            },
        sum_abs_over_codes(codes, accounts) == sum_abs_over_codes(codes, accounts.drop_last())
            + if codes.contains(accounts.last().currency_code) {
                abs(accounts.last().balance as int)
            } else {
                0
            },
    decreases codes.len(),
{
    let a = accounts.last();
    if codes.len() == 0 {
    } else {
        let cl = codes.last();
        let cr = codes.drop_last();
        assert(cr.no_duplicates()) by {
            assert(forall|i: int| 0 <= i < cr.len() ==> cr[i] == codes[i]);
        }
        lemma_sum_over_codes_drop(cr, accounts);
        if a.currency_code == cl {
            assert(codes.contains(a.currency_code)) by {
                assert(codes[codes.len() - 1] == a.currency_code);
            }
            assert(!cr.contains(a.currency_code)) by {
                if cr.contains(a.currency_code) {
                    let i = choose|i: int| 0 <= i < cr.len() && cr[i] == a.currency_code;
                    assert(codes[i] == codes[codes.len() - 1]);
                }
            }
        } else {
            assert(codes.contains(a.currency_code) <==> cr.contains(a.currency_code)) by {
                if cr.contains(a.currency_code) {
                    let i = choose|i: int| 0 <= i < cr.len() && cr[i] == a.currency_code;
                    assert(codes[i] == a.currency_code);
                }
                if codes.contains(a.currency_code) {
                    let i = choose|i: int| 0 <= i < codes.len() && codes[i] == a.currency_code;
                    assert(cr[i] == a.currency_code);
                }
            }
        }
    }
}

/// Where distinct codes cover every account, the code-indexed sum collects
/// each account exactly once.
proof fn lemma_sum_over_codes_covering(codes: Seq<i32>, accounts: Seq<Account>)
    requires
        codes.no_duplicates(),
        forall|k: int| 0 <= k < accounts.len() ==> codes.contains(
            (#[trigger] accounts[k]).currency_code,
        ),
    ensures
        sum_over_codes(codes, accounts) == total_bal(accounts),
    decreases accounts.len(),
{
    if accounts.len() == 0 {
        lemma_sum_over_codes_no_accounts(codes, accounts);
    } else {
        let rest = accounts.drop_last();
        lemma_sum_over_codes_drop(codes, accounts);
        assert(forall|k: int| 0 <= k < rest.len() ==> rest[k] == accounts[k]);
        lemma_sum_over_codes_covering(codes, rest);
        assert(codes.contains(accounts[accounts.len() - 1].currency_code));
    }
}

/// Distinct codes never count an account twice, so the code-indexed
/// absolute sums stay below the absolute sum over all accounts.
pub proof fn lemma_sum_abs_over_codes_le(codes: Seq<i32>, accounts: Seq<Account>)
    requires
        codes.no_duplicates(),
    ensures
        0 <= sum_abs_over_codes(codes, accounts),
        sum_abs_over_codes(codes, accounts) <= sum_abs(accounts),
    decreases accounts.len(),
{
    if accounts.len() == 0 {
        lemma_sum_over_codes_no_accounts(codes, accounts);
    } else {
        lemma_sum_over_codes_drop(codes, accounts);
        lemma_sum_abs_over_codes_le(codes, accounts.drop_last());
    }
}

/// Sorted without duplicates implies no duplicates.
pub proof fn lemma_strictly_sorted_no_duplicates(s: Seq<i32>)
    requires
        strictly_sorted(s),
    ensures
        s.no_duplicates(),
{
    assert forall|i: int, j: int|
        0 <= i < s.len() && 0 <= j < s.len() && i != j implies s[i] != s[j] by {
        if i < j {
            assert(s[i] < s[j]);
        } else {
            assert(s[j] < s[i]);
        }
    }
}

/// Law: the per-currency totals partition the accounts exhaustively and
/// disjointly by currency code, so summed over the distinct currency codes
/// they equal the sum of all account balances.
pub proof fn lemma_totals_partition(accounts: Seq<Account>)
    ensures
        sum_over_codes(unique_sorted_codes(accounts), accounts) == total_bal(accounts),
{
    let codes = unique_sorted_codes(accounts);
    lemma_unique_sorted_codes_props(accounts);
    lemma_strictly_sorted_no_duplicates(codes);
    assert forall|k: int| 0 <= k < accounts.len() implies codes.contains(
        (#[trigger] accounts[k]).currency_code,
    ) by {
        assert(accounts[k].currency_code == accounts[k].currency_code);
    }
    lemma_sum_over_codes_covering(codes, accounts);
}

} // verus!
