//! Rescue of addresses with a missing country or city: the missing part is
//! taken from the index where exactly one country or city fits what the
//! address does state.
use vstd::prelude::*;
use crate::address::{Address, IncompleteAddress};
use crate::compress::{City, Country, World};
use crate::text::compare_text;

verus! {

/// The characters of an optional string.
pub open spec fn opt_view(o: Option<String>) -> Option<Seq<char>> {
    match o {
        Some(s) => Some(s@),
        None => None,
    }
}

/// What an address states, part by part.
pub struct Parts {
    pub country: Option<Seq<char>>,
    pub city: Option<Seq<char>>,
    pub postcode: Option<Seq<char>>,
    pub street: Option<Seq<char>>,
    pub housenumber: Option<Seq<char>>,
}

impl IncompleteAddress {
    pub open spec fn parts(&self) -> Parts {
        Parts {
            country: opt_view(self.country),
            city: opt_view(self.city),
            postcode: opt_view(self.postcode),
            street: opt_view(self.street),
            housenumber: opt_view(self.housenumber),
        }
    }
}

impl Address {
    pub open spec fn parts(&self) -> Parts {
        Parts {
            country: Some(self.country@),
            city: Some(self.city@),
            postcode: Some(self.postcode@),
            street: Some(self.street@),
            housenumber: Some(self.housenumber@),
        }
    }
}

/// Nothing can repair the address: it lacks the street or the house
/// number, or it lacks two of country, city and postal code.
pub open spec fn unfixable(a: Parts) -> bool {
    let complete = a.country is Some && a.city is Some && a.postcode is Some && a.street is Some
        && a.housenumber is Some;
    let known = (if a.country is Some { 1int } else { 0 }) + (if a.city is Some { 1int } else { 0 }) + (if a.postcode
        is Some { 1int } else { 0 });
    !complete && (a.housenumber is None || a.street is None || known < 2)
}

pub fn is_unfixable(a: &IncompleteAddress) -> (r: bool)
    ensures
        r == unfixable(a.parts()),
{
    if a.is_complete() {
        return false;
    }
    if a.housenumber.is_none() || a.street.is_none() {
        return true;
    }
    let mut known: u8 = 0;
    if a.country.is_some() {
        known = known + 1;
    }
    if a.city.is_some() {
        known = known + 1;
    }
    if a.postcode.is_some() {
        known = known + 1;
    }
    known < 2
}

// ---------------------------------------------------------------------------
// Country from city and postal code
// ---------------------------------------------------------------------------

/// City `j` of country `i` has the name `city` and, where a postal code is
/// given, an area with that code.
pub open spec fn city_zip_match(w: World, i: int, j: int, city: Seq<char>, zip: Option<Seq<char>>) -> bool {
    &&& 0 <= i < w.countries_view().len()
    &&& 0 <= j < w.countries_view()[i].cities_view().len()
    &&& w.countries_view()[i].cities_view()[j].name_view() == city
    &&& match zip {
        Some(z) => w.countries_view()[i].cities_view()[j].area_named(z) is Some,
        None => true,
    }
}

/// `(i, j)` is the one pair that matches.
pub open spec fn only_city_zip_match(w: World, i: int, j: int, city: Seq<char>, zip: Option<Seq<char>>) -> bool {
    &&& city_zip_match(w, i, j, city, zip)
    &&& forall|a: int, b: int| #[trigger] city_zip_match(w, a, b, city, zip) ==> a == i && b == j
}

/// The code of the one country with a city of that name (and that postal
/// code, where given), if exactly one city anywhere fits.
pub open spec fn country_for(w: World, city: Seq<char>, zip: Option<Seq<char>>) -> Option<Seq<char>> {
    if exists|i: int, j: int| only_city_zip_match(w, i, j, city, zip) {
        let (i, j) = choose|i: int, j: int| only_city_zip_match(w, i, j, city, zip);
        Some(w.countries_view()[i].code_view())
    } else {
        None
    }
}

pub open spec fn scanned(a: int, b: int, i: int, j: int) -> bool {
    a < i || (a == i && b < j)
}

/// The country of the one city that has the name `city` and, where given,
/// the postal code `zip`; `None` where no city or several fit.
pub fn get_country_from_city_zip<'a>(w: &'a World, city: String, zip: Option<String>) -> (r: Option<&'a Country>)
    ensures
        match r {
            Some(c) => exists|i: int, j: int|
                only_city_zip_match(*w, i, j, city@, opt_view(zip)) && *c == w.countries_view()[i],
            None => !exists|i: int, j: int| only_city_zip_match(*w, i, j, city@, opt_view(zip)),
        },
        r is Some <==> country_for(*w, city@, opt_view(zip)) is Some,
        r matches Some(c) ==> country_for(*w, city@, opt_view(zip)) == Some(c.code_view()),
{
    let ghost z = opt_view(zip);
    let countries = w.countries();
    let mut found: Option<(usize, usize)> = None;
    let mut many = false;
    let ghost mut other: (int, int) = (0, 0);
    let mut i: usize = 0;
    while i < countries.len()
        invariant
            countries@ == w.countries_view(),
            z == opt_view(zip),
            i <= countries@.len(),
            !many && found is None ==> forall|a: int, b: int| #[trigger] city_zip_match(*w, a, b, city@, z) ==> !scanned(a, b, i as int, 0),
            !many && found is Some ==> {
                let (fi, fj) = found->Some_0;
                &&& city_zip_match(*w, fi as int, fj as int, city@, z)
                &&& scanned(fi as int, fj as int, i as int, 0)
                &&& forall|a: int, b: int| #[trigger] city_zip_match(*w, a, b, city@, z) && scanned(a, b, i as int, 0) ==> a == fi && b == fj
            },
            many ==> found is Some && {
                let (fi, fj) = found->Some_0;
                &&& city_zip_match(*w, fi as int, fj as int, city@, z)
                &&& city_zip_match(*w, other.0, other.1, city@, z)
                &&& (other.0 != fi || other.1 != fj)
            },
        decreases countries@.len() - i,
    {
        let cities = countries[i].cities();
        let mut j: usize = 0;
        while j < cities.len()
            invariant
                countries@ == w.countries_view(),
                cities@ == countries@[i as int].cities_view(),
                z == opt_view(zip),
                i < countries@.len(),
                j <= cities@.len(),
                !many && found is None ==> forall|a: int, b: int| #[trigger] city_zip_match(*w, a, b, city@, z) ==> !scanned(a, b, i as int, j as int),
                !many && found is Some ==> {
                    let (fi, fj) = found->Some_0;
                    &&& city_zip_match(*w, fi as int, fj as int, city@, z)
                    &&& scanned(fi as int, fj as int, i as int, j as int)
                    &&& forall|a: int, b: int| #[trigger] city_zip_match(*w, a, b, city@, z) && scanned(a, b, i as int, j as int) ==> a == fi && b == fj
                },
                many ==> found is Some && {
                    let (fi, fj) = found->Some_0;
                    &&& city_zip_match(*w, fi as int, fj as int, city@, z)
                    &&& city_zip_match(*w, other.0, other.1, city@, z)
                    &&& (other.0 != fi || other.1 != fj)
                },
            decreases cities@.len() - j,
        {
            let fits = if compare_text(cities[j].name().as_str(), city.as_str()) == 0 {
                match &zip {
                    Some(code) => cities[j].get_postal_area(code.as_str()).is_some(),
                    None => true,
                }
            } else {
                false
            };
            proof {
                assert(fits == city_zip_match(*w, i as int, j as int, city@, z));
            }
            if fits {
                match found {
                    None => {
                        found = Some((i, j));
                    },
                    Some(_) => {
                        if !many {
                            proof {
                                other = (i as int, j as int);
                            }
                        }
                        many = true;
                    },
                }
            }
            j = j + 1;
        }
        i = i + 1;
    }
    proof {
        assert forall|a: int, b: int| #[trigger] city_zip_match(*w, a, b, city@, z) implies scanned(a, b, i as int, 0) by {}
    }
    if many {
        proof {
            let (fi, fj) = found->Some_0;
            assert forall|i2: int, j2: int| !only_city_zip_match(*w, i2, j2, city@, z) by {
                if only_city_zip_match(*w, i2, j2, city@, z) {
                    assert(city_zip_match(*w, fi as int, fj as int, city@, z));
                    assert(city_zip_match(*w, other.0, other.1, city@, z));
                }
            }
        }
        None
    } else {
        match found {
            None => None,
            Some((fi, fj)) => {
                proof {
                    assert(only_city_zip_match(*w, fi as int, fj as int, city@, z));
                    let (ci, cj) = choose|ci: int, cj: int| only_city_zip_match(*w, ci, cj, city@, z);
                    assert(city_zip_match(*w, ci, cj, city@, z));
                }
                Some(&countries[fi])
            },
        }
    }
}

// ---------------------------------------------------------------------------
// City from country and postal code
// ---------------------------------------------------------------------------

/// City `j` of country `i` has an area with postal code `zip`, in the
/// country `country` where one is given.
pub open spec fn country_zip_match(w: World, i: int, j: int, country: Option<Seq<char>>, zip: Seq<char>) -> bool {
    &&& 0 <= i < w.countries_view().len()
    &&& 0 <= j < w.countries_view()[i].cities_view().len()
    &&& match country {
        Some(c) => w.countries_view()[i].code_view() == c,
        None => true,
    }
    &&& w.countries_view()[i].cities_view()[j].area_named(zip) is Some
}

pub open spec fn only_country_zip_match(w: World, i: int, j: int, country: Option<Seq<char>>, zip: Seq<char>) -> bool {
    &&& country_zip_match(w, i, j, country, zip)
    &&& forall|a: int, b: int| #[trigger] country_zip_match(w, a, b, country, zip) ==> a == i && b == j
}

/// The name of the one city with that postal code (in that country, where
/// given), if exactly one fits.
pub open spec fn city_for(w: World, country: Option<Seq<char>>, zip: Seq<char>) -> Option<Seq<char>> {
    if exists|i: int, j: int| only_country_zip_match(w, i, j, country, zip) {
        let (i, j) = choose|i: int, j: int| only_country_zip_match(w, i, j, country, zip);
        Some(w.countries_view()[i].cities_view()[j].name_view())
    } else {
        None
    }
}

/// The one city that has an area with postal code `zip`, within the
/// country `country` where given; `None` where no city or several fit.
pub fn get_city_from_country_zip<'a>(w: &'a World, country: Option<String>, zip: String) -> (r: Option<&'a City>)
    ensures
        match r {
            Some(c) => exists|i: int, j: int|
                only_country_zip_match(*w, i, j, opt_view(country), zip@) && *c == w.countries_view()[i].cities_view()[j],
            None => !exists|i: int, j: int| only_country_zip_match(*w, i, j, opt_view(country), zip@),
        },
        r is Some <==> city_for(*w, opt_view(country), zip@) is Some,
        r matches Some(c) ==> city_for(*w, opt_view(country), zip@) == Some(c.name_view()),
{
    let ghost cz = opt_view(country);
    let countries = w.countries();
    let mut found: Option<(usize, usize)> = None;
    let mut many = false;
    let ghost mut other: (int, int) = (0, 0);
    let mut i: usize = 0;
    while i < countries.len()
        invariant
            countries@ == w.countries_view(),
            cz == opt_view(country),
            i <= countries@.len(),
            !many && found is None ==> forall|a: int, b: int| #[trigger] country_zip_match(*w, a, b, cz, zip@) ==> !scanned(a, b, i as int, 0),
            !many && found is Some ==> {
                let (fi, fj) = found->Some_0;
                &&& country_zip_match(*w, fi as int, fj as int, cz, zip@)
                &&& scanned(fi as int, fj as int, i as int, 0)
                &&& forall|a: int, b: int| #[trigger] country_zip_match(*w, a, b, cz, zip@) && scanned(a, b, i as int, 0) ==> a == fi && b == fj
            },
            many ==> found is Some && {
                let (fi, fj) = found->Some_0;
                &&& country_zip_match(*w, fi as int, fj as int, cz, zip@)
                &&& country_zip_match(*w, other.0, other.1, cz, zip@)
                &&& (other.0 != fi || other.1 != fj)
            },
        decreases countries@.len() - i,
    {
        let in_country = match &country {
            Some(code) => compare_text(countries[i].code().as_str(), code.as_str()) == 0,
            None => true,
        };
        let cities = countries[i].cities();
        let mut j: usize = 0;
        while j < cities.len()
            invariant
                countries@ == w.countries_view(),
                cities@ == countries@[i as int].cities_view(),
                cz == opt_view(country),
                in_country == match cz {
                    Some(c) => w.countries_view()[i as int].code_view() == c,
                    None => true,
                },
                i < countries@.len(),
                j <= cities@.len(),
                !many && found is None ==> forall|a: int, b: int| #[trigger] country_zip_match(*w, a, b, cz, zip@) ==> !scanned(a, b, i as int, j as int),
                !many && found is Some ==> {
                    let (fi, fj) = found->Some_0;
                    &&& country_zip_match(*w, fi as int, fj as int, cz, zip@)
                    &&& scanned(fi as int, fj as int, i as int, j as int)
                    &&& forall|a: int, b: int| #[trigger] country_zip_match(*w, a, b, cz, zip@) && scanned(a, b, i as int, j as int) ==> a == fi && b == fj
                },
                many ==> found is Some && {
                    let (fi, fj) = found->Some_0;
                    &&& country_zip_match(*w, fi as int, fj as int, cz, zip@)
                    &&& country_zip_match(*w, other.0, other.1, cz, zip@)
                    &&& (other.0 != fi || other.1 != fj)
                },
            decreases cities@.len() - j,
        {
            let fits = in_country && cities[j].get_postal_area(zip.as_str()).is_some();
            proof {
                assert(fits == country_zip_match(*w, i as int, j as int, cz, zip@));
            }
            if fits {
                match found {
                    None => {
                        found = Some((i, j));
                    },
                    Some(_) => {
                        if !many {
                            proof {
                                other = (i as int, j as int);
                            }
                        }
                        many = true;
                    },
                }
            }
            j = j + 1;
        }
        i = i + 1;
    }
    proof {
        assert forall|a: int, b: int| #[trigger] country_zip_match(*w, a, b, cz, zip@) implies scanned(a, b, i as int, 0) by {}
    }
    if many {
        proof {
            let (fi, fj) = found->Some_0;
            assert forall|i2: int, j2: int| !only_country_zip_match(*w, i2, j2, cz, zip@) by {
                if only_country_zip_match(*w, i2, j2, cz, zip@) {
                    assert(country_zip_match(*w, fi as int, fj as int, cz, zip@));
                    assert(country_zip_match(*w, other.0, other.1, cz, zip@));
                }
            }
        }
        None
    } else {
        match found {
            None => None,
            Some((fi, fj)) => {
                proof {
                    assert(only_country_zip_match(*w, fi as int, fj as int, cz, zip@));
                    let (ci, cj) = choose|ci: int, cj: int| only_country_zip_match(*w, ci, cj, cz, zip@);
                    assert(country_zip_match(*w, ci, cj, cz, zip@));
                }
                Some(&countries[fi].cities()[fj])
            },
        }
    }
}


// ---------------------------------------------------------------------------
// Rescue
// ---------------------------------------------------------------------------

/// What becomes of an address.
pub enum Outcome {
    Fixed(Parts),
    Unfixable(Parts),
    Dropped,
}

/// How many of country and city are missing.
pub open spec fn missing_count(p: Parts) -> nat {
    (if p.country is None { 1nat } else { 0nat }) + (if p.city is None { 1nat } else { 0nat })
}

/// The rescue of one address: a complete address is kept; a missing
/// country is taken from the one city of that name (and postal code); a
/// missing city is taken from the one city with that postal code (in that
/// country); the filled-in address is looked at again. Where no single
/// country or city fits, the address is unfixable; anything else is dropped.
pub open spec fn resolve(w: World, p: Parts) -> Outcome
    decreases missing_count(p),
{
    if p.country is Some && p.city is Some && p.postcode is Some && p.street is Some && p.housenumber is Some {
        Outcome::Fixed(p)
    } else if p.country is None && p.city is Some {
        match country_for(w, p.city->Some_0, p.postcode) {
            None => Outcome::Unfixable(p),
            Some(c) => resolve(
                w,
                Parts { country: Some(c), city: p.city, postcode: p.postcode, street: p.street, housenumber: p.housenumber },
            ),
        }
    } else if p.city is None && p.postcode is Some {
        match city_for(w, p.country, p.postcode->Some_0) {
            None => Outcome::Unfixable(p),
            Some(ci) => resolve(
                w,
                Parts { country: p.country, city: Some(ci), postcode: p.postcode, street: p.street, housenumber: p.housenumber },
            ),
        }
    } else {
        Outcome::Dropped
    }
}

/// What becomes of one address, as values.
pub enum Fix {
    Fixed(Address),
    Unfixable(IncompleteAddress),
    Dropped,
}

impl Fix {
    pub open spec fn outcome(&self) -> Outcome {
        match self {
            Fix::Fixed(a) => Outcome::Fixed(a.parts()),
            Fix::Unfixable(a) => Outcome::Unfixable(a.parts()),
            Fix::Dropped => Outcome::Dropped,
        }
    }
}

fn clone_text(o: &Option<String>) -> (r: Option<String>)
    ensures
        opt_view(r) == opt_view(*o),
{
    match o {
        Some(s) => Some(s.clone()),
        None => None,
    }
}

/// Rescues one address, as `resolve` describes.
pub fn autofix_address(w: &World, a: IncompleteAddress) -> (r: Fix)
    ensures
        r.outcome() == resolve(*w, a.parts()),
    decreases missing_count(a.parts()),
{
    let ghost p = a.parts();
    match (a.country, a.city, a.postcode, a.street, a.housenumber) {
        (Some(country), Some(city), Some(postcode), Some(street), Some(housenumber)) => Fix::Fixed(
            Address { country, city, postcode, street, housenumber },
        ),
        (None, Some(city), postcode, street, housenumber) => {
            match get_country_from_city_zip(w, city.clone(), clone_text(&postcode)) {
                None => Fix::Unfixable(IncompleteAddress { country: None, city: Some(city), postcode, street, housenumber }),
                Some(found) => {
                    let next = IncompleteAddress {
                        country: Some(found.code().clone()),
                        city: Some(city),
                        postcode,
                        street,
                        housenumber,
                    };
                    proof {
                        assert(missing_count(next.parts()) < missing_count(p));
                    }
                    autofix_address(w, next)
                },
            }
        },
        (country, None, Some(postcode), street, housenumber) => {
            match get_city_from_country_zip(w, clone_text(&country), postcode.clone()) {
                None => Fix::Unfixable(IncompleteAddress { country, city: None, postcode: Some(postcode), street, housenumber }),
                Some(found) => {
                    let next = IncompleteAddress {
                        country,
                        city: Some(found.name().clone()),
                        postcode: Some(postcode),
                        street,
                        housenumber,
                    };
                    proof {
                        assert(missing_count(next.parts()) < missing_count(p));
                    }
                    autofix_address(w, next)
                },
            }
        },
        _ => Fix::Dropped,
    }
}

/// The rescued addresses, the last input first.
pub open spec fn fixed_of(w: World, s: Seq<Parts>) -> Seq<Parts>
    decreases s.len(),
{
    if s.len() == 0 {
        Seq::empty()
    } else {
        let head = match resolve(w, s.last()) {
            Outcome::Fixed(p) => seq![p],
            _ => Seq::empty(),
        };
        head + fixed_of(w, s.drop_last())
    }
}

/// The addresses that could not be rescued, the last input first.
pub open spec fn unfixable_of(w: World, s: Seq<Parts>) -> Seq<Parts>
    decreases s.len(),
{
    if s.len() == 0 {
        Seq::empty()
    } else {
        let head = match resolve(w, s.last()) {
            Outcome::Unfixable(p) => seq![p],
            _ => Seq::empty(),
        };
        head + unfixable_of(w, s.drop_last())
    }
}

/// Rescues every address, taking the last first: returns the rescued ones
/// and those that could not be rescued; the rest are dropped.
pub fn try_autofixing(w: &World, incomplete_addresses: Vec<IncompleteAddress>) -> (r: (Vec<Address>, Vec<IncompleteAddress>))
    ensures
        r.0@.map_values(|a: Address| a.parts()) == fixed_of(*w, incomplete_addresses@.map_values(|a: IncompleteAddress| a.parts())),
        r.1@.map_values(|a: IncompleteAddress| a.parts())
            == unfixable_of(*w, incomplete_addresses@.map_values(|a: IncompleteAddress| a.parts())),
{
    let ghost all = incomplete_addresses@.map_values(|a: IncompleteAddress| a.parts());
    let mut rest = incomplete_addresses;
    let mut fixed: Vec<Address> = Vec::new();
    let mut unfixable: Vec<IncompleteAddress> = Vec::new();
    proof {
        assert(rest@.map_values(|a: IncompleteAddress| a.parts()) =~= all);
        assert(fixed@.map_values(|a: Address| a.parts()) + fixed_of(*w, all) =~= fixed_of(*w, all));
        assert(unfixable@.map_values(|a: IncompleteAddress| a.parts()) + unfixable_of(*w, all) =~= unfixable_of(*w, all));
    }
    while rest.len() > 0
        invariant
            fixed@.map_values(|a: Address| a.parts()) + fixed_of(*w, rest@.map_values(|a: IncompleteAddress| a.parts()))
                == fixed_of(*w, all),
            unfixable@.map_values(|a: IncompleteAddress| a.parts())
                + unfixable_of(*w, rest@.map_values(|a: IncompleteAddress| a.parts())) == unfixable_of(*w, all),
        decreases rest@.len(),
    {
        let ghost before = rest@.map_values(|a: IncompleteAddress| a.parts());
        let ghost fixed_before = fixed@.map_values(|a: Address| a.parts());
        let ghost unfixable_before = unfixable@.map_values(|a: IncompleteAddress| a.parts());
        let a = rest.pop().unwrap();
        let ghost after = rest@.map_values(|a: IncompleteAddress| a.parts());
        proof {
            assert(after =~= before.drop_last());
            assert(before.last() == a.parts());
        }
        match autofix_address(w, a) {
            Fix::Fixed(done) => {
                fixed.push(done);
                proof {
                    assert(fixed@.map_values(|a: Address| a.parts()) =~= fixed_before.push(done.parts()));
                    assert(fixed_before.push(done.parts()) + fixed_of(*w, after) =~= fixed_before + (seq![done.parts()] + fixed_of(*w, after)));
                    assert(unfixable_before + unfixable_of(*w, after) =~= unfixable_before + (Seq::empty() + unfixable_of(*w, after)));
                }
            },
            Fix::Unfixable(left) => {
                unfixable.push(left);
                proof {
                    assert(unfixable@.map_values(|a: IncompleteAddress| a.parts()) =~= unfixable_before.push(left.parts()));
                    assert(unfixable_before.push(left.parts()) + unfixable_of(*w, after)
                        =~= unfixable_before + (seq![left.parts()] + unfixable_of(*w, after)));
                    assert(fixed_before + fixed_of(*w, after) =~= fixed_before + (Seq::empty() + fixed_of(*w, after)));
                }
            },
            Fix::Dropped => {
                proof {
                    assert(fixed_before + fixed_of(*w, after) =~= fixed_before + (Seq::empty() + fixed_of(*w, after)));
                    assert(unfixable_before + unfixable_of(*w, after) =~= unfixable_before + (Seq::empty() + unfixable_of(*w, after)));
                }
            },
        }
    }
    proof {
        assert(fixed_of(*w, rest@.map_values(|a: IncompleteAddress| a.parts())) =~= Seq::empty());
        assert(unfixable_of(*w, rest@.map_values(|a: IncompleteAddress| a.parts())) =~= Seq::empty());
        assert(fixed@.map_values(|a: Address| a.parts()) + Seq::empty() =~= fixed@.map_values(|a: Address| a.parts()));
        assert(unfixable@.map_values(|a: IncompleteAddress| a.parts()) + Seq::empty()
            =~= unfixable@.map_values(|a: IncompleteAddress| a.parts()));
    }
    (fixed, unfixable)
}

} // verus!
