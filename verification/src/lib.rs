//! A verified core for a personal-banking balance report: account balances
//! held in several currencies are summed per currency and converted into a
//! single reporting currency with fetched buy/sell exchange rates.
//!
//! Balances are exact integers in minor units (e.g. cents) and rates are
//! exact ratios, so every aggregation result is pinned down precisely.

pub mod aggregate;
pub mod abbrev;
pub mod convert;
pub mod rates;
pub mod types;
