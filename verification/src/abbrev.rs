//! Display names for currencies: mapping ISO 4217 numeric codes to their
//! three-letter abbreviations.

use vstd::prelude::*;
use vstd::string::StringExecFns;

verus! {

/// The three-letter abbreviation the ISO 4217 table assigns to a numeric
/// currency code, where the code denotes a currency: a fixed table, a
/// function of the code alone.
pub uninterp spec fn alpha_code_of(code: u16) -> Option<Seq<char>>;

/// Relies on iso_currency::Currency::from_numeric and Currency::code: the
/// crate's generated ISO 4217 table maps a numeric code to its currency,
/// if any, and the currency to its three-letter code.
#[verifier::external_body]
fn lookup_alpha_code(code: u16) -> (r: Option<String>)
    ensures
        (r is Some) == (alpha_code_of(code) is Some),
        r is Some ==> r.unwrap()@ == alpha_code_of(code).unwrap(),
{
    match iso_currency::Currency::from_numeric(code) {
        Some(currency) => Some(currency.code().to_string()),
        None => None,
    }
}

/// The three-letter abbreviation for a numeric currency code, and
/// `"Unknown"` for a code with no place in the table — including any code
/// outside the numeric range ISO 4217 uses.
pub fn to_abbreviation(code: i32) -> (r: String)
    ensures
        0 <= code <= u16::MAX && alpha_code_of(code as u16) is Some ==> r@ == alpha_code_of(
            code as u16,
        ).unwrap(),
        !(0 <= code <= u16::MAX && alpha_code_of(code as u16) is Some) ==> r@ == "Unknown"@,
{
    if 0 <= code && code <= 65535 {
        match lookup_alpha_code(code as u16) {
            Some(s) => s,
            None => String::from_str("Unknown"),
        }
    } else {
        String::from_str("Unknown")
    }
}

} // verus!
