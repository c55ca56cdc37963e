//! A compact, queryable index of postal addresses: house numbers grouped by
//! country, city, postal code and street, with interned street names.
//!
//! - `text`: byte order of strings, case-insensitive tests, decimal house numbers.
//! - `sorted_vec`: the sorted, duplicate-free tables that intern strings.
//! - `compress`: the index itself, its insertion, ordering and lookups.
//! - `builder`: building an index from addresses, and loading a snapshot.
//! - `query`: the four completion queries.
//! - `address`, `autofix`, `country`: address records, their rescue and the
//!   normalisation of country names.
//! - `geometry`, `extract`: positions of map entities and the records taken
//!   from them.
pub mod text;
pub mod sorted_vec;
mod reorder;
pub mod compress;
pub mod query;
pub mod address;
pub mod builder;
pub mod autofix;
pub mod country;
pub mod geometry;
pub mod extract;
