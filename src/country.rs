//! Normalisation of country names to ISO 3166-1 alpha-2 codes.
use vstd::prelude::*;
use std::str::FromStr;
use codes_iso_3166::part_1::{CountryCode, ALL_CODES};
use crate::address::Address;
use crate::autofix::opt_view;

verus! {

/// Whether a text is one of the alpha-2 codes of ISO 3166-1.
pub uninterp spec fn iso_alpha2_valid(s: Seq<char>) -> bool;

/// The alpha-2 code of entry `i` of the ISO 3166-1 table, if there is one.
pub uninterp spec fn iso_code_at(i: int) -> Option<Seq<char>>;

/// The English short name of entry `i`, if there is such an entry.
pub uninterp spec fn iso_short_name_at(i: int) -> Option<Seq<char>>;

/// The local short name of entry `i`, if there is such an entry and it has one.
pub uninterp spec fn iso_local_name_at(i: int) -> Option<Seq<char>>;

/// Relies on `CountryCode::from_str` of codes-iso-3166, which accepts
/// exactly the alpha-2 codes.
#[verifier::external_body]
fn is_country_code(s: &str) -> (r: bool)
    ensures
        r == iso_alpha2_valid(s@),
{
    CountryCode::from_str(s).is_ok()
}

/// Relies on `ALL_CODES` of codes-iso-3166 and the `Display` of its
/// entries, which writes the alpha-2 code.
#[verifier::external_body]
fn code_at(i: usize) -> (r: Option<String>)
    ensures
        opt_view(r) == iso_code_at(i as int),
{
    match ALL_CODES.get(i) {
        Some(code) => Some(code.to_string()),
        None => None,
    }
}

/// Relies on `ALL_CODES` and `CountryCode::short_name` of codes-iso-3166.
#[verifier::external_body]
fn short_name_at(i: usize) -> (r: Option<String>)
    ensures
        opt_view(r) == iso_short_name_at(i as int),
{
    match ALL_CODES.get(i) {
        Some(code) => Some(code.short_name().to_string()),
        None => None,
    }
}

/// Relies on `ALL_CODES` and `CountryCode::local_short_name` of
/// codes-iso-3166.
#[verifier::external_body]
fn local_short_name_at(i: usize) -> (r: Option<String>)
    ensures
        opt_view(r) == iso_local_name_at(i as int),
{
    match ALL_CODES.get(i) {
        Some(code) => match code.local_short_name() {
            Some(name) => Some(name.to_string()),
            None => None,
        },
        None => None,
    }
}

/// The code of the first table entry from `i` on whose English or local
/// short name is `c`; `c` itself where the table ends first.
pub open spec fn code_by_name_from(c: Seq<char>, i: int) -> Seq<char>
    decreases usize::MAX - i,
{
    if i < 0 || i >= usize::MAX {
        c
    } else {
        match iso_code_at(i) {
            None => c,
            Some(code) => if iso_short_name_at(i) == Some(c) || iso_local_name_at(i) == Some(c) {
                code
            } else {
                code_by_name_from(c, i + 1)
            },
        }
    }
}

/// A valid alpha-2 code is kept; otherwise a country named `c`, in English
/// or locally, gives its code; otherwise `c` is kept.
pub open spec fn corrected_country(c: Seq<char>) -> Seq<char> {
    if iso_alpha2_valid(c) {
        c
    } else {
        code_by_name_from(c, 0)
    }
}

pub fn autocorrect_country_code(c: String) -> (r: String)
    ensures
        r@ == corrected_country(c@),
{
    if is_country_code(c.as_str()) {
        return c;
    }
    let mut i: usize = 0;
    while i < usize::MAX
        invariant
            !iso_alpha2_valid(c@),
            code_by_name_from(c@, i as int) == corrected_country(c@),
        decreases usize::MAX - i,
    {
        match code_at(i) {
            None => {
                return c;
            },
            Some(code) => {
                let short = short_name_at(i);
                if let Some(name) = short {
                    if name == c {
                        return code;
                    }
                }
                let local = local_short_name_at(i);
                if let Some(name) = local {
                    if name == c {
                        return code;
                    }
                }
            },
        }
        i = i + 1;
    }
    c
}

/// The address with its country normalised.
pub fn normalize_address(a: Address) -> (r: Address)
    ensures
        r.country@ == corrected_country(a.country@),
        r.city@ == a.city@,
        r.postcode@ == a.postcode@,
        r.street@ == a.street@,
        r.housenumber@ == a.housenumber@,
{
    Address {
        country: autocorrect_country_code(a.country),
        city: a.city,
        postcode: a.postcode,
        street: a.street,
        housenumber: a.housenumber,
    }
}

} // verus!
