//! Address records as they pass between the stages of the pipeline.
use vstd::prelude::*;
use crate::compress::Entry;

verus! {

/// A complete address.
pub struct Address {
    pub country: String,
    pub city: String,
    pub postcode: String,
    pub street: String,
    pub housenumber: String,
}

impl Address {
    /// The address as an entry of the index.
    pub open spec fn entry(&self) -> Entry {
        (self.country@, self.city@, self.postcode@, self.street@, self.housenumber@)
    }
}

/// The entries of a sequence of addresses, repeats merged.
pub open spec fn entries_of(s: Seq<Address>) -> Set<Entry> {
    Set::new(|e: Entry| exists|i: int| 0 <= i < s.len() && (#[trigger] s[i]).entry() == e)
}

/// An address of which any part may be missing.
pub struct IncompleteAddress {
    pub country: Option<String>,
    pub city: Option<String>,
    pub postcode: Option<String>,
    pub street: Option<String>,
    pub housenumber: Option<String>,
}

impl IncompleteAddress {
    pub open spec fn complete(&self) -> bool {
        &&& self.country is Some
        &&& self.city is Some
        &&& self.postcode is Some
        &&& self.street is Some
        &&& self.housenumber is Some
    }

    /// Whether every part is present.
    pub fn is_complete(&self) -> (r: bool)
        ensures
            r == self.complete(),
    {
        self.country.is_some() && self.city.is_some() && self.postcode.is_some() && self.street.is_some()
            && self.housenumber.is_some()
    }

    /// The complete address, where every part is present.
    pub fn into_complete(self) -> (r: Option<Address>)
        ensures
            match r {
                Some(a) => self.complete() && a.country@ == self.country->Some_0@ && a.city@ == self.city->Some_0@
                    && a.postcode@ == self.postcode->Some_0@ && a.street@ == self.street->Some_0@
                    && a.housenumber@ == self.housenumber->Some_0@,
                None => !self.complete(),
            },
    {
        match (self.country, self.city, self.postcode, self.street, self.housenumber) {
            (Some(country), Some(city), Some(postcode), Some(street), Some(housenumber)) => Some(
                Address { country, city, postcode, street, housenumber },
            ),
            _ => None,
        }
    }
}


/// Adding an address adds its entry.
pub proof fn lemma_entries_push(s: Seq<Address>, a: Address, e: Entry)
    ensures
        entries_of(s.push(a)).contains(e) <==> entries_of(s).contains(e) || a.entry() == e,
{
    let t = s.push(a);
    if entries_of(t).contains(e) {
        let i = choose|i: int| 0 <= i < t.len() && (#[trigger] t[i]).entry() == e;
        if i < s.len() {
            assert(s[i] == t[i]);
        }
    }
    if entries_of(s).contains(e) {
        let i = choose|i: int| 0 <= i < s.len() && (#[trigger] s[i]).entry() == e;
        assert(t[i] == s[i]);
    }
    if a.entry() == e {
        assert(t[s.len() as int] == a);
    }
}

} // verus!
