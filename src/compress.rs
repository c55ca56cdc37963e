//! The address index: countries, cities, postal areas, streets and house
//! numbers, nested and each level keyed, with street names and the house
//! numbers that are not plain numbers interned in two root tables.
use vstd::prelude::*;
use crate::sorted_vec::{lemma_le_ne, lemma_lt_ne, strictly_ascending, views, SortedVec};
use crate::address::{entries_of, lemma_entries_push, Address};
use vstd::seq_lib::to_multiset_len;
use crate::reorder::{lemma_perm_all, lemma_perm_any, lemma_perm_distinct, ordered_by, sort_by_keys};
use crate::text::{
    clean_value, decimal, equals_folded, folded_prefix, is_clean, lemma_decimal_shape, lower_of, render_decimal,
    same_folded, starts_with_folded, text_le, text_lt, utf8,
};

verus! {

/// A house number: the number itself where its text is exactly the decimal
/// form of a 16-bit value, otherwise a position in the root table.
#[derive(PartialEq, Eq, Structural, Clone, Copy, Debug)]
pub enum Housenumber {
    CleanInt(u16),
    Index(u32),
}

impl Housenumber {
    /// The text that the house number stands for, given the root table.
    pub open spec fn text(self, numbers: Seq<Seq<char>>) -> Seq<char> {
        match self {
            Housenumber::CleanInt(n) => decimal(n as nat),
            Housenumber::Index(i) => numbers[i as int],
        }
    }

    pub open spec fn in_range(self, n_numbers: nat) -> bool {
        match self {
            Housenumber::CleanInt(_) => true,
            Housenumber::Index(i) => i < n_numbers,
        }
    }
}

pub struct Street {
    index: u32,
    housenumbers: Vec<Housenumber>,
}

pub struct PostalArea {
    code: String,
    streets: Vec<Street>,
}

pub struct City {
    name: String,
    areas: Vec<PostalArea>,
}

pub struct Country {
    code: String,
    cities: Vec<City>,
}

pub struct World {
    unique_streets: SortedVec,
    housenumbers: SortedVec,
    countries: Vec<Country>,
}

// ---------------------------------------------------------------------------
// Street
// ---------------------------------------------------------------------------

impl Street {
    /// The position of the street's name in the root street table.
    pub closed spec fn street_id(&self) -> u32 {
        self.index
    }

    pub closed spec fn numbers(&self) -> Seq<Housenumber> {
        self.housenumbers@
    }

    /// The street holds a house number whose text is `h`.
    pub open spec fn has_number(&self, h: Seq<char>, numbers: Seq<Seq<char>>) -> bool {
        exists|k: int| 0 <= k < self.numbers().len() && (#[trigger] self.numbers()[k]).text(numbers) == h
    }

    /// No house number twice.
    pub open spec fn wf(&self) -> bool {
        forall|a: int, b: int|
            0 <= a < b < self.numbers().len() ==> #[trigger] self.numbers()[a] != #[trigger] self.numbers()[b]
    }

    pub open spec fn bounded(&self, n_streets: nat, n_numbers: nat) -> bool {
        &&& self.street_id() < n_streets
        &&& forall|k: int| 0 <= k < self.numbers().len() ==> (#[trigger] self.numbers()[k]).in_range(n_numbers)
    }

    pub fn new(index: u32) -> (r: Street)
        ensures
            r.street_id() == index,
            r.numbers().len() == 0,
            r.wf(),
    {
        Street { index, housenumbers: Vec::new() }
    }

    pub fn index(&self) -> (r: u32)
        ensures
            r == self.street_id(),
    {
        self.index
    }

    pub fn housenumbers(&self) -> (r: &Vec<Housenumber>)
        ensures
            r@ == self.numbers(),
    {
        &self.housenumbers
    }

    /// Adds a house number unless the street holds it already.
    pub fn insert_housenumber(&mut self, hn: Housenumber)
        ensures
            final(self).street_id() == old(self).street_id(),
            final(self).numbers() == if old(self).numbers().contains(hn) {
                old(self).numbers()
            } else {
                old(self).numbers().push(hn)
            },
            old(self).wf() ==> final(self).wf(),
            final(self).numbers().len() > 0,
            forall|n_streets: nat, n_numbers: nat|
                old(self).bounded(n_streets, n_numbers) && hn.in_range(n_numbers)
                    ==> #[trigger] final(self).bounded(n_streets, n_numbers),
            forall|h: Seq<char>, numbers: Seq<Seq<char>>|
                #[trigger] final(self).has_number(h, numbers)
                    <==> old(self).has_number(h, numbers) || hn.text(numbers) == h,
    {
        let ghost before = self.housenumbers@;
        let mut k: usize = 0;
        while k < self.housenumbers.len()
            invariant
                self.housenumbers@ == before,
                before == old(self).numbers(),
                self.index == old(self).street_id(),
                k <= before.len(),
                forall|j: int| 0 <= j < k ==> before[j] != hn,
            decreases before.len() - k,
        {
            if self.housenumbers[k] == hn {
                proof {
                    assert(before.contains(hn));
                    assert forall|h: Seq<char>, numbers: Seq<Seq<char>>|
                        #[trigger] self.has_number(h, numbers) <==> self.has_number(h, numbers) || hn.text(numbers) == h by {
                        if hn.text(numbers) == h {
                            assert(self.numbers()[k as int].text(numbers) == h);
                        }
                    }
                }
                return;
            }
            k = k + 1;
        }
        self.housenumbers.push(hn);
        proof {
            let after = self.housenumbers@;
            assert(!before.contains(hn));
            assert(after == before.push(hn));
            assert(self.numbers() == after);
            assert(old(self).numbers() == before);
            assert forall|h: Seq<char>, numbers: Seq<Seq<char>>|
                #[trigger] self.has_number(h, numbers) <==> old(self).has_number(h, numbers) || hn.text(numbers) == h by {
                if self.has_number(h, numbers) {
                    let j = choose|j: int| 0 <= j < after.len() && (#[trigger] after[j]).text(numbers) == h;
                    if j < before.len() {
                        assert(before[j] == after[j]);
                    }
                }
                if old(self).has_number(h, numbers) {
                    let j = choose|j: int| 0 <= j < before.len() && (#[trigger] before[j]).text(numbers) == h;
                    assert(after[j] == before[j]);
                }
                if hn.text(numbers) == h {
                    assert(after[before.len() as int] == hn);
                }
            }
        }
    }
}

// ---------------------------------------------------------------------------
// PostalArea
// ---------------------------------------------------------------------------

impl PostalArea {
    pub closed spec fn code_view(&self) -> Seq<char> {
        self.code@
    }

    pub closed spec fn streets_view(&self) -> Seq<Street> {
        self.streets@
    }

    /// The area holds house number `h` on the street named `s`.
    pub open spec fn has(&self, s: Seq<char>, h: Seq<char>, streets: Seq<Seq<char>>, numbers: Seq<Seq<char>>) -> bool {
        exists|k: int|
            0 <= k < self.streets_view().len()
                && #[trigger] street_matches(self.streets_view()[k], s, h, streets, numbers)
    }

    /// No street twice, and each street well formed.
    pub open spec fn wf(&self) -> bool {
        &&& forall|k: int| 0 <= k < self.streets_view().len() ==> (#[trigger] self.streets_view()[k]).wf()
        &&& forall|a: int, b: int|
            0 <= a < b < self.streets_view().len()
                ==> (#[trigger] self.streets_view()[a]).street_id() != (#[trigger] self.streets_view()[b]).street_id()
    }

    /// Every street points into the root tables and holds a house number.
    pub open spec fn bounded(&self, n_streets: nat, n_numbers: nat) -> bool {
        forall|k: int|
            0 <= k < self.streets_view().len() ==> (#[trigger] self.streets_view()[k]).bounded(n_streets, n_numbers)
                && self.streets_view()[k].numbers().len() > 0
    }

    pub fn new(code: String) -> (r: PostalArea)
        ensures
            r.code_view() == code@,
            r.streets_view().len() == 0,
            r.wf(),
    {
        PostalArea { code, streets: Vec::new() }
    }

    pub fn code(&self) -> (r: &String)
        ensures
            r@ == self.code_view(),
    {
        &self.code
    }

    pub fn streets(&self) -> (r: &Vec<Street>)
        ensures
            r@ == self.streets_view(),
    {
        &self.streets
    }

    /// Files house number `hn` under the street with id `street_index`,
    /// adding the street where the area has none with that id.
    pub fn insert_address(&mut self, street_index: u32, hn: Housenumber)
        ensures
            final(self).code_view() == old(self).code_view(),
            old(self).wf() ==> final(self).wf(),
            final(self).streets_view().len() > 0,
            forall|n_streets: nat, n_numbers: nat|
                old(self).bounded(n_streets, n_numbers) && street_index < n_streets && hn.in_range(n_numbers)
                    ==> #[trigger] final(self).bounded(n_streets, n_numbers),
            forall|s: Seq<char>, h: Seq<char>, streets: Seq<Seq<char>>, numbers: Seq<Seq<char>>|
                #[trigger] final(self).has(s, h, streets, numbers) <==> old(self).has(s, h, streets, numbers)
                    || (street_index < streets.len() && streets[street_index as int] == s && hn.text(numbers) == h),
    {
        let ghost before = self.streets@;
        let mut k: usize = 0;
        while k < self.streets.len()
            invariant
                self.streets@ == before,
                before == old(self).streets_view(),
                self.code@ == old(self).code_view(),
                k <= before.len(),
                forall|j: int| 0 <= j < k ==> (#[trigger] before[j]).street_id() != street_index,
            decreases before.len() - k,
        {
            if self.streets[k].index == street_index {
                let ghost old_street = before[k as int];
                self.streets[k].insert_housenumber(hn);
                proof {
                    let after = self.streets@;
                    assert(after == before.update(k as int, after[k as int]));
                    assert(after[k as int].street_id() == old_street.street_id());
                    assert(self.streets_view() == after);
                    assert(old(self).streets_view() == before);
                    assert(old_street.street_id() == street_index);
                    assert(forall|h: Seq<char>, numbers: Seq<Seq<char>>|
                        #[trigger] after[k as int].has_number(h, numbers)
                            <==> old_street.has_number(h, numbers) || hn.text(numbers) == h);
                    assert forall|s: Seq<char>, h: Seq<char>, streets: Seq<Seq<char>>, numbers: Seq<Seq<char>>|
                        #[trigger] self.has(s, h, streets, numbers) <==> old(self).has(s, h, streets, numbers)
                            || (street_index < streets.len() && streets[street_index as int] == s
                                && hn.text(numbers) == h) by {
                        if self.has(s, h, streets, numbers) {
                            let j = choose|j: int|
                                0 <= j < after.len() && #[trigger] street_matches(after[j], s, h, streets, numbers);
                            if j != k {
                                assert(street_matches(before[j], s, h, streets, numbers));
                            } else if old_street.has_number(h, numbers) {
                                assert(street_matches(before[j], s, h, streets, numbers));
                            }
                        }
                        if old(self).has(s, h, streets, numbers) {
                            let j = choose|j: int|
                                0 <= j < before.len() && #[trigger] street_matches(before[j], s, h, streets, numbers);
                            assert(street_matches(after[j], s, h, streets, numbers));
                        }
                        if street_index < streets.len() && streets[street_index as int] == s && hn.text(numbers) == h {
                            assert(street_matches(after[k as int], s, h, streets, numbers));
                        }
                    }
                    if old(self).wf() {
                        assert forall|a: int, b: int|
                            0 <= a < b < after.len() implies (#[trigger] after[a]).street_id() != (#[trigger] after[b]).street_id() by {
                            assert(before[a].street_id() != before[b].street_id());
                        }
                    }
                    assert forall|n_streets: nat, n_numbers: nat|
                        old(self).bounded(n_streets, n_numbers) && street_index < n_streets && hn.in_range(n_numbers)
                            implies #[trigger] self.bounded(n_streets, n_numbers) by {
                        assert forall|j: int| 0 <= j < after.len() implies (#[trigger] after[j]).bounded(n_streets, n_numbers) by {
                            assert(before[j].bounded(n_streets, n_numbers));
                        }
                    }
                    if old(self).wf() {
                        assert forall|j: int| 0 <= j < after.len() implies (#[trigger] after[j]).wf() by {
                            assert(before[j].wf());
                        }
                    }
                }
                return;
            }
            k = k + 1;
        }
        let mut street = Street::new(street_index);
        street.insert_housenumber(hn);
        self.streets.push(street);
        proof {
            let after = self.streets@;
            assert(after == before.push(street));
            assert(self.streets_view() == after);
            assert(old(self).streets_view() == before);
            assert(street.street_id() == street_index);
            assert forall|s: Seq<char>, h: Seq<char>, streets: Seq<Seq<char>>, numbers: Seq<Seq<char>>|
                #[trigger] self.has(s, h, streets, numbers) <==> old(self).has(s, h, streets, numbers)
                    || (street_index < streets.len() && streets[street_index as int] == s && hn.text(numbers) == h) by {
                if self.has(s, h, streets, numbers) {
                    let j = choose|j: int|
                        0 <= j < after.len() && #[trigger] street_matches(after[j], s, h, streets, numbers);
                    if j < before.len() {
                        assert(street_matches(before[j], s, h, streets, numbers));
                    } else {
                        assert(street.has_number(h, numbers));
                        let q = choose|q: int|
                            0 <= q < street.numbers().len() && (#[trigger] street.numbers()[q]).text(numbers) == h;
                    }
                }
                if old(self).has(s, h, streets, numbers) {
                    let j = choose|j: int|
                        0 <= j < before.len() && #[trigger] street_matches(before[j], s, h, streets, numbers);
                    assert(street_matches(after[j], s, h, streets, numbers));
                }
                if street_index < streets.len() && streets[street_index as int] == s && hn.text(numbers) == h {
                    assert(street_matches(after[before.len() as int], s, h, streets, numbers));
                }
            }
            assert forall|n_streets: nat, n_numbers: nat|
                old(self).bounded(n_streets, n_numbers) && street_index < n_streets && hn.in_range(n_numbers)
                    implies #[trigger] self.bounded(n_streets, n_numbers) by {
                assert forall|j: int| 0 <= j < after.len() implies (#[trigger] after[j]).bounded(n_streets, n_numbers) by {
                    if j < before.len() {
                        assert(before[j].bounded(n_streets, n_numbers));
                    } else {
                        assert forall|q: int| 0 <= q < street.numbers().len() implies (#[trigger] street.numbers()[q]).in_range(n_numbers) by {
                            assert(street.numbers()[q] == hn);
                        }
                    }
                }
            }
            if old(self).wf() {
                assert forall|j: int| 0 <= j < after.len() implies (#[trigger] after[j]).wf() by {
                    if j < before.len() {
                        assert(before[j].wf());
                    }
                }
                assert forall|a: int, b: int|
                    0 <= a < b < after.len() implies (#[trigger] after[a]).street_id() != (#[trigger] after[b]).street_id() by {
                    if b < before.len() {
                        assert(before[a].street_id() != before[b].street_id());
                    } else {
                        assert(before[a].street_id() != street_index);
                    }
                }
            }
        }
    }
}

/// The street is named `s` in the root table and holds house number `h`.
pub open spec fn street_matches(st: Street, s: Seq<char>, h: Seq<char>, streets: Seq<Seq<char>>, numbers: Seq<Seq<char>>) -> bool {
    &&& st.street_id() < streets.len()
    &&& streets[st.street_id() as int] == s
    &&& st.has_number(h, numbers)
}


// ---------------------------------------------------------------------------
// City
// ---------------------------------------------------------------------------

/// The postal area has code `zip` and holds the entry below it.
pub open spec fn area_matches(x: PostalArea, zip: Seq<char>, s: Seq<char>, h: Seq<char>, streets: Seq<Seq<char>>, numbers: Seq<Seq<char>>) -> bool {
    x.code_view() == zip && x.has(s, h, streets, numbers)
}

impl City {
    pub closed spec fn name_view(&self) -> Seq<char> {
        self.name@
    }

    pub closed spec fn areas_view(&self) -> Seq<PostalArea> {
        self.areas@
    }

    pub open spec fn has(&self, zip: Seq<char>, s: Seq<char>, h: Seq<char>, streets: Seq<Seq<char>>, numbers: Seq<Seq<char>>) -> bool {
        exists|k: int|
            0 <= k < self.areas_view().len()
                && #[trigger] area_matches(self.areas_view()[k], zip, s, h, streets, numbers)
    }

    /// No two postal areas with one key, and each of them well formed.
    pub open spec fn wf(&self) -> bool {
        &&& forall|k: int| 0 <= k < self.areas_view().len() ==> (#[trigger] self.areas_view()[k]).wf()
        &&& forall|a: int, b: int|
            0 <= a < b < self.areas_view().len()
                ==> (#[trigger] self.areas_view()[a]).code_view() != (#[trigger] self.areas_view()[b]).code_view()
    }

    pub open spec fn bounded(&self, n_streets: nat, n_numbers: nat) -> bool {
        forall|k: int|
            0 <= k < self.areas_view().len() ==> (#[trigger] self.areas_view()[k]).bounded(n_streets, n_numbers)
                && self.areas_view()[k].streets_view().len() > 0
    }

    pub fn new(name: String) -> (r: City)
        ensures
            r.name_view() == name@,
            r.areas_view().len() == 0,
            r.wf(),
    {
        City { name, areas: Vec::new() }
    }

    pub fn name(&self) -> (r: &String)
        ensures
            r@ == self.name_view(),
    {
        &self.name
    }

    pub fn areas(&self) -> (r: &Vec<PostalArea>)
        ensures
            r@ == self.areas_view(),
    {
        &self.areas
    }

    /// Files the entry under the postal area keyed `postal_code`, adding that postal area
    /// where there is none with that key.
    pub fn insert_address(&mut self, postal_code: String, street_index: u32, hn: Housenumber)
        ensures
            final(self).name_view() == old(self).name_view(),
            old(self).wf() ==> final(self).wf(),
            final(self).areas_view().len() > 0,
            forall|n_streets: nat, n_numbers: nat|
                old(self).bounded(n_streets, n_numbers) && street_index < n_streets && hn.in_range(n_numbers)
                    ==> #[trigger] final(self).bounded(n_streets, n_numbers),
            forall|zip: Seq<char>, s: Seq<char>, h: Seq<char>, streets: Seq<Seq<char>>, numbers: Seq<Seq<char>>|
                #[trigger] final(self).has(zip, s, h, streets, numbers) <==> old(self).has(zip, s, h, streets, numbers)
                    || (zip == postal_code@ && street_index < streets.len() && streets[street_index as int] == s && hn.text(numbers) == h),
    {
        let ghost before = self.areas@;
        let mut k: usize = 0;
        while k < self.areas.len()
            invariant
                self.areas@ == before,
                before == old(self).areas_view(),
                self.name@ == old(self).name_view(),
                k <= before.len(),
                forall|j: int| 0 <= j < k ==> (#[trigger] before[j]).code_view() != postal_code@,
            decreases before.len() - k,
        {
            if self.areas[k].code == postal_code {
                let ghost old_child = before[k as int];
                self.areas[k].insert_address(street_index, hn);
                proof {
                    let after = self.areas@;
                    assert(after == before.update(k as int, after[k as int]));
                    assert(self.areas_view() == after);
                    assert(old(self).areas_view() == before);
                    assert(old_child.code_view() == postal_code@);
                    assert forall|zip: Seq<char>, s: Seq<char>, h: Seq<char>, streets: Seq<Seq<char>>, numbers: Seq<Seq<char>>|
                        #[trigger] self.has(zip, s, h, streets, numbers) <==> old(self).has(zip, s, h, streets, numbers)
                            || (zip == postal_code@ && street_index < streets.len() && streets[street_index as int] == s
                                && hn.text(numbers) == h) by {
                        if self.has(zip, s, h, streets, numbers) {
                            let j = choose|j: int|
                                0 <= j < after.len() && #[trigger] area_matches(after[j], zip, s, h, streets, numbers);
                            if j != k {
                                assert(area_matches(before[j], zip, s, h, streets, numbers));
                            } else if old_child.has(s, h, streets, numbers) {
                                assert(area_matches(before[j], zip, s, h, streets, numbers));
                            }
                        }
                        if old(self).has(zip, s, h, streets, numbers) {
                            let j = choose|j: int|
                                0 <= j < before.len() && #[trigger] area_matches(before[j], zip, s, h, streets, numbers);
                            assert(area_matches(after[j], zip, s, h, streets, numbers));
                        }
                        if zip == postal_code@ && street_index < streets.len() && streets[street_index as int] == s && hn.text(numbers) == h {
                            assert(area_matches(after[k as int], zip, s, h, streets, numbers));
                        }
                    }
                    if old(self).wf() {
                        assert forall|a: int, b: int|
                            0 <= a < b < after.len() implies (#[trigger] after[a]).code_view() != (#[trigger] after[b]).code_view() by {
                            assert(before[a].code_view() != before[b].code_view());
                        }
                        assert forall|j: int| 0 <= j < after.len() implies (#[trigger] after[j]).wf() by {
                            assert(before[j].wf());
                        }
                    }
                    assert forall|n_streets: nat, n_numbers: nat|
                        old(self).bounded(n_streets, n_numbers) && street_index < n_streets && hn.in_range(n_numbers)
                            implies #[trigger] self.bounded(n_streets, n_numbers) by {
                        assert forall|j: int| 0 <= j < after.len() implies (#[trigger] after[j]).bounded(n_streets, n_numbers) by {
                            assert(before[j].bounded(n_streets, n_numbers));
                        }
                    }
                }
                return;
            }
            k = k + 1;
        }
        let mut child = PostalArea::new(postal_code);
        child.insert_address(street_index, hn);
        self.areas.push(child);
        proof {
            let after = self.areas@;
            assert(after == before.push(child));
            assert(self.areas_view() == after);
            assert(old(self).areas_view() == before);
            assert forall|zip: Seq<char>, s: Seq<char>, h: Seq<char>, streets: Seq<Seq<char>>, numbers: Seq<Seq<char>>|
                #[trigger] self.has(zip, s, h, streets, numbers) <==> old(self).has(zip, s, h, streets, numbers)
                    || (zip == postal_code@ && street_index < streets.len() && streets[street_index as int] == s && hn.text(numbers) == h) by {
                if self.has(zip, s, h, streets, numbers) {
                    let j = choose|j: int|
                        0 <= j < after.len() && #[trigger] area_matches(after[j], zip, s, h, streets, numbers);
                    if j < before.len() {
                        assert(area_matches(before[j], zip, s, h, streets, numbers));
                    } else {
                        assert(child.has(s, h, streets, numbers));
                        let q = choose|q: int|
                            0 <= q < child.streets_view().len() && #[trigger] street_matches(child.streets_view()[q], s, h, streets, numbers);
                    }
                }
                if old(self).has(zip, s, h, streets, numbers) {
                    let j = choose|j: int|
                        0 <= j < before.len() && #[trigger] area_matches(before[j], zip, s, h, streets, numbers);
                    assert(area_matches(after[j], zip, s, h, streets, numbers));
                }
                if zip == postal_code@ && street_index < streets.len() && streets[street_index as int] == s && hn.text(numbers) == h {
                    assert(area_matches(after[before.len() as int], zip, s, h, streets, numbers));
                }
            }
            assert forall|n_streets: nat, n_numbers: nat|
                old(self).bounded(n_streets, n_numbers) && street_index < n_streets && hn.in_range(n_numbers)
                    implies #[trigger] self.bounded(n_streets, n_numbers) by {
                assert forall|j: int| 0 <= j < after.len() implies (#[trigger] after[j]).bounded(n_streets, n_numbers) by {
                    if j < before.len() {
                        assert(before[j].bounded(n_streets, n_numbers));
                    }
                }
            }
            if old(self).wf() {
                assert forall|j: int| 0 <= j < after.len() implies (#[trigger] after[j]).wf() by {
                    if j < before.len() {
                        assert(before[j].wf());
                    }
                }
                assert forall|a: int, b: int|
                    0 <= a < b < after.len() implies (#[trigger] after[a]).code_view() != (#[trigger] after[b]).code_view() by {
                    if b < before.len() {
                        assert(before[a].code_view() != before[b].code_view());
                    } else {
                        assert(before[a].code_view() != postal_code@);
                    }
                }
            }
        }
    }
}

// ---------------------------------------------------------------------------
// Country
// ---------------------------------------------------------------------------

/// The city has name `ci` and holds the entry below it.
pub open spec fn city_matches(x: City, ci: Seq<char>, zip: Seq<char>, s: Seq<char>, h: Seq<char>, streets: Seq<Seq<char>>, numbers: Seq<Seq<char>>) -> bool {
    x.name_view() == ci && x.has(zip, s, h, streets, numbers)
}

impl Country {
    pub closed spec fn code_view(&self) -> Seq<char> {
        self.code@
    }

    pub closed spec fn cities_view(&self) -> Seq<City> {
        self.cities@
    }

    pub open spec fn has(&self, ci: Seq<char>, zip: Seq<char>, s: Seq<char>, h: Seq<char>, streets: Seq<Seq<char>>, numbers: Seq<Seq<char>>) -> bool {
        exists|k: int|
            0 <= k < self.cities_view().len()
                && #[trigger] city_matches(self.cities_view()[k], ci, zip, s, h, streets, numbers)
    }

    /// No two cities with one key, and each of them well formed.
    pub open spec fn wf(&self) -> bool {
        &&& forall|k: int| 0 <= k < self.cities_view().len() ==> (#[trigger] self.cities_view()[k]).wf()
        &&& forall|a: int, b: int|
            0 <= a < b < self.cities_view().len()
                ==> (#[trigger] self.cities_view()[a]).name_view() != (#[trigger] self.cities_view()[b]).name_view()
    }

    pub open spec fn bounded(&self, n_streets: nat, n_numbers: nat) -> bool {
        forall|k: int|
            0 <= k < self.cities_view().len() ==> (#[trigger] self.cities_view()[k]).bounded(n_streets, n_numbers)
                && self.cities_view()[k].areas_view().len() > 0
    }

    pub fn new(code: String) -> (r: Country)
        ensures
            r.code_view() == code@,
            r.cities_view().len() == 0,
            r.wf(),
    {
        Country { code, cities: Vec::new() }
    }

    pub fn code(&self) -> (r: &String)
        ensures
            r@ == self.code_view(),
    {
        &self.code
    }

    pub fn cities(&self) -> (r: &Vec<City>)
        ensures
            r@ == self.cities_view(),
    {
        &self.cities
    }

    /// Files the entry under the city keyed `city`, adding that city
    /// where there is none with that key.
    pub fn insert_address(&mut self, city: String, postal_code: String, street_index: u32, hn: Housenumber)
        ensures
            final(self).code_view() == old(self).code_view(),
            old(self).wf() ==> final(self).wf(),
            final(self).cities_view().len() > 0,
            forall|n_streets: nat, n_numbers: nat|
                old(self).bounded(n_streets, n_numbers) && street_index < n_streets && hn.in_range(n_numbers)
                    ==> #[trigger] final(self).bounded(n_streets, n_numbers),
            forall|ci: Seq<char>, zip: Seq<char>, s: Seq<char>, h: Seq<char>, streets: Seq<Seq<char>>, numbers: Seq<Seq<char>>|
                #[trigger] final(self).has(ci, zip, s, h, streets, numbers) <==> old(self).has(ci, zip, s, h, streets, numbers)
                    || (ci == city@ && zip == postal_code@ && street_index < streets.len() && streets[street_index as int] == s && hn.text(numbers) == h),
    {
        let ghost before = self.cities@;
        let mut k: usize = 0;
        while k < self.cities.len()
            invariant
                self.cities@ == before,
                before == old(self).cities_view(),
                self.code@ == old(self).code_view(),
                k <= before.len(),
                forall|j: int| 0 <= j < k ==> (#[trigger] before[j]).name_view() != city@,
            decreases before.len() - k,
        {
            if self.cities[k].name == city {
                let ghost old_child = before[k as int];
                self.cities[k].insert_address(postal_code, street_index, hn);
                proof {
                    let after = self.cities@;
                    assert(after == before.update(k as int, after[k as int]));
                    assert(self.cities_view() == after);
                    assert(old(self).cities_view() == before);
                    assert(old_child.name_view() == city@);
                    assert forall|ci: Seq<char>, zip: Seq<char>, s: Seq<char>, h: Seq<char>, streets: Seq<Seq<char>>, numbers: Seq<Seq<char>>|
                        #[trigger] self.has(ci, zip, s, h, streets, numbers) <==> old(self).has(ci, zip, s, h, streets, numbers)
                            || (ci == city@ && zip == postal_code@ && street_index < streets.len() && streets[street_index as int] == s
                                && hn.text(numbers) == h) by {
                        if self.has(ci, zip, s, h, streets, numbers) {
                            let j = choose|j: int|
                                0 <= j < after.len() && #[trigger] city_matches(after[j], ci, zip, s, h, streets, numbers);
                            if j != k {
                                assert(city_matches(before[j], ci, zip, s, h, streets, numbers));
                            } else if old_child.has(zip, s, h, streets, numbers) {
                                assert(city_matches(before[j], ci, zip, s, h, streets, numbers));
                            }
                        }
                        if old(self).has(ci, zip, s, h, streets, numbers) {
                            let j = choose|j: int|
                                0 <= j < before.len() && #[trigger] city_matches(before[j], ci, zip, s, h, streets, numbers);
                            assert(city_matches(after[j], ci, zip, s, h, streets, numbers));
                        }
                        if ci == city@ && zip == postal_code@ && street_index < streets.len() && streets[street_index as int] == s && hn.text(numbers) == h {
                            assert(city_matches(after[k as int], ci, zip, s, h, streets, numbers));
                        }
                    }
                    if old(self).wf() {
                        assert forall|a: int, b: int|
                            0 <= a < b < after.len() implies (#[trigger] after[a]).name_view() != (#[trigger] after[b]).name_view() by {
                            assert(before[a].name_view() != before[b].name_view());
                        }
                        assert forall|j: int| 0 <= j < after.len() implies (#[trigger] after[j]).wf() by {
                            assert(before[j].wf());
                        }
                    }
                    assert forall|n_streets: nat, n_numbers: nat|
                        old(self).bounded(n_streets, n_numbers) && street_index < n_streets && hn.in_range(n_numbers)
                            implies #[trigger] self.bounded(n_streets, n_numbers) by {
                        assert forall|j: int| 0 <= j < after.len() implies (#[trigger] after[j]).bounded(n_streets, n_numbers) by {
                            assert(before[j].bounded(n_streets, n_numbers));
                        }
                    }
                }
                return;
            }
            k = k + 1;
        }
        let mut child = City::new(city);
        child.insert_address(postal_code, street_index, hn);
        self.cities.push(child);
        proof {
            let after = self.cities@;
            assert(after == before.push(child));
            assert(self.cities_view() == after);
            assert(old(self).cities_view() == before);
            assert forall|ci: Seq<char>, zip: Seq<char>, s: Seq<char>, h: Seq<char>, streets: Seq<Seq<char>>, numbers: Seq<Seq<char>>|
                #[trigger] self.has(ci, zip, s, h, streets, numbers) <==> old(self).has(ci, zip, s, h, streets, numbers)
                    || (ci == city@ && zip == postal_code@ && street_index < streets.len() && streets[street_index as int] == s && hn.text(numbers) == h) by {
                if self.has(ci, zip, s, h, streets, numbers) {
                    let j = choose|j: int|
                        0 <= j < after.len() && #[trigger] city_matches(after[j], ci, zip, s, h, streets, numbers);
                    if j < before.len() {
                        assert(city_matches(before[j], ci, zip, s, h, streets, numbers));
                    } else {
                        assert(child.has(zip, s, h, streets, numbers));
                        let q = choose|q: int|
                            0 <= q < child.areas_view().len() && #[trigger] area_matches(child.areas_view()[q], zip, s, h, streets, numbers);
                    }
                }
                if old(self).has(ci, zip, s, h, streets, numbers) {
                    let j = choose|j: int|
                        0 <= j < before.len() && #[trigger] city_matches(before[j], ci, zip, s, h, streets, numbers);
                    assert(city_matches(after[j], ci, zip, s, h, streets, numbers));
                }
                if ci == city@ && zip == postal_code@ && street_index < streets.len() && streets[street_index as int] == s && hn.text(numbers) == h {
                    assert(city_matches(after[before.len() as int], ci, zip, s, h, streets, numbers));
                }
            }
            assert forall|n_streets: nat, n_numbers: nat|
                old(self).bounded(n_streets, n_numbers) && street_index < n_streets && hn.in_range(n_numbers)
                    implies #[trigger] self.bounded(n_streets, n_numbers) by {
                assert forall|j: int| 0 <= j < after.len() implies (#[trigger] after[j]).bounded(n_streets, n_numbers) by {
                    if j < before.len() {
                        assert(before[j].bounded(n_streets, n_numbers));
                    }
                }
            }
            if old(self).wf() {
                assert forall|j: int| 0 <= j < after.len() implies (#[trigger] after[j]).wf() by {
                    if j < before.len() {
                        assert(before[j].wf());
                    }
                }
                assert forall|a: int, b: int|
                    0 <= a < b < after.len() implies (#[trigger] after[a]).name_view() != (#[trigger] after[b]).name_view() by {
                    if b < before.len() {
                        assert(before[a].name_view() != before[b].name_view());
                    } else {
                        assert(before[a].name_view() != city@);
                    }
                }
            }
        }
    }
}


impl Street {
    /// The house numbers ascend by their text.
    pub open spec fn is_sorted(&self, numbers: Seq<Seq<char>>) -> bool {
        ordered_by(self.numbers(), |hn: Housenumber| hn.text(numbers))
    }

    /// The same street id, and the same house numbers in any order.
    pub open spec fn same_content(&self, other: Street) -> bool {
        &&& self.street_id() == other.street_id()
        &&& self.numbers().len() == other.numbers().len()
        &&& other.wf() ==> self.wf()
        &&& forall|ns: nat, nh: nat| other.bounded(ns, nh) ==> #[trigger] self.bounded(ns, nh)
        &&& forall|h: Seq<char>, numbers: Seq<Seq<char>>|
            #[trigger] self.has_number(h, numbers) <==> other.has_number(h, numbers)
    }

    /// Orders the house numbers by their text, `numbers` being the root table.
    pub fn sort_with(&mut self, numbers: &SortedVec)
        requires
            forall|k: int| 0 <= k < old(self).numbers().len() ==> (#[trigger] old(self).numbers()[k]).in_range(numbers@.len()),
        ensures
            final(self).same_content(*old(self)),
            final(self).is_sorted(numbers@),
    {
        let ghost nums = numbers@;
        let mut keys: Vec<String> = Vec::new();
        let mut k: usize = 0;
        assert(self.housenumbers@ == old(self).numbers());
        assert(forall|i: int| 0 <= i < self.housenumbers@.len() ==> (#[trigger] self.housenumbers@[i]).in_range(nums.len()));
        while k < self.housenumbers.len()
            invariant
                self.housenumbers@ == old(self).numbers(),
                self.index == old(self).street_id(),
                nums == numbers@,
                k <= self.housenumbers@.len(),
                keys@.len() == k,
                forall|i: int| 0 <= i < self.housenumbers@.len() ==> (#[trigger] self.housenumbers@[i]).in_range(nums.len()),
                forall|i: int| 0 <= i < k ==> (#[trigger] keys@[i])@ == self.housenumbers@[i].text(nums),
            decreases self.housenumbers@.len() - k,
        {
            let text = match self.housenumbers[k] {
                Housenumber::CleanInt(n) => render_decimal(n),
                Housenumber::Index(i) => numbers.get(i as usize).clone(),
            };
            keys.push(text);
            k = k + 1;
        }
        let ghost before = self.housenumbers@;
        sort_by_keys(&mut self.housenumbers, &mut keys, Ghost(|hn: Housenumber| hn.text(nums)));
        proof {
            let after = self.housenumbers@;
            assert(self.numbers() == after);
            assert(old(self).numbers() == before);
            if old(self).wf() {
                lemma_perm_distinct(before, after, |hn: Housenumber| hn);
            }
            assert forall|ns: nat, nh: nat| old(self).bounded(ns, nh) implies #[trigger] self.bounded(ns, nh) by {
                lemma_perm_all(before, after, |hn: Housenumber| hn.in_range(nh));
            }
            to_multiset_len(before);
            to_multiset_len(after);
            assert forall|h: Seq<char>, numbers: Seq<Seq<char>>|
                #[trigger] self.has_number(h, numbers) <==> old(self).has_number(h, numbers) by {
                lemma_perm_any(before, after, |hn: Housenumber| hn.text(numbers) == h);
            }
        }
    }
}

impl PostalArea {
    /// The streets ascend by key, and each of them is sorted.
    pub open spec fn is_sorted(&self, streets: Seq<Seq<char>>, numbers: Seq<Seq<char>>) -> bool {
        &&& ordered_by(self.streets_view(), |x: Street| streets[x.street_id() as int])
        &&& forall|k: int| 0 <= k < self.streets_view().len() ==> (#[trigger] self.streets_view()[k]).is_sorted(numbers)
    }

    /// The same key, and the same entries below it.
    pub open spec fn same_content(&self, other: PostalArea) -> bool {
        &&& self.code_view() == other.code_view()
        &&& self.streets_view().len() == other.streets_view().len()
        &&& other.wf() ==> self.wf()
        &&& forall|ns: nat, nh: nat| other.bounded(ns, nh) ==> #[trigger] self.bounded(ns, nh)
        &&& forall|s: Seq<char>, h: Seq<char>, streets: Seq<Seq<char>>, numbers: Seq<Seq<char>>|
            #[trigger] self.has(s, h, streets, numbers) <==> other.has(s, h, streets, numbers)
    }

    /// Orders every level below by key, over the two root tables.
    pub fn sort_with(&mut self, streets: &SortedVec, numbers: &SortedVec)
        requires
            old(self).bounded(streets@.len(), numbers@.len()),
        ensures
            final(self).same_content(*old(self)),
            final(self).is_sorted(streets@, numbers@),
    {
        let ghost orig = self.streets@;
        let mut k: usize = 0;
        while k < self.streets.len()
            invariant
                self.code@ == old(self).code_view(),
                orig == old(self).streets_view(),
                self.streets@.len() == orig.len(),
                k <= orig.len(),
                old(self).bounded(streets@.len(), numbers@.len()),
                forall|j: int| 0 <= j < k ==> (#[trigger] self.streets@[j]).is_sorted(numbers@) && self.streets@[j].same_content(orig[j]),
                forall|j: int| k <= j < orig.len() ==> #[trigger] self.streets@[j] == orig[j],
            decreases orig.len() - k,
        {
            proof {
                assert(orig[k as int].bounded(streets@.len(), numbers@.len()));
            }
            self.streets[k].sort_with(numbers);
            k = k + 1;
        }
        let ghost mid = self.streets@;
        let mut keys: Vec<String> = Vec::new();
        let mut m: usize = 0;
        while m < self.streets.len()
            invariant
                self.streets@ == mid,
                orig == old(self).streets_view(),
                mid.len() == orig.len(),
                old(self).bounded(streets@.len(), numbers@.len()),
                forall|j: int| 0 <= j < mid.len() ==> (#[trigger] mid[j]).same_content(orig[j]),
                m <= mid.len(),
                keys@.len() == m,
                forall|i: int| 0 <= i < m ==> (#[trigger] keys@[i])@ == (|x: Street| streets@[x.street_id() as int])(mid[i]),
            decreases mid.len() - m,
        {
            proof {
                assert(orig[m as int].bounded(streets@.len(), numbers@.len()));
                assert(mid[m as int].same_content(orig[m as int]));
                assert(mid[m as int].bounded(streets@.len(), numbers@.len()));
            }
            let name = streets.get(self.streets[m].index as usize).clone();
            keys.push(name);
            m = m + 1;
        }
        sort_by_keys(&mut self.streets, &mut keys, Ghost(|x: Street| streets@[x.street_id() as int]));
        proof {
            let fin = self.streets@;
            assert(self.streets_view() == fin);
            assert(old(self).streets_view() == orig);
            lemma_perm_all(mid, fin, |x: Street| x.is_sorted(numbers@));
            if old(self).wf() {
                assert forall|j: int| 0 <= j < mid.len() implies (#[trigger] mid[j]).wf() by {
                    assert(orig[j].wf());
                    assert(mid[j].same_content(orig[j]));
                }
                lemma_perm_all(mid, fin, |x: Street| x.wf());
                assert forall|a: int, b: int| 0 <= a < b < mid.len() implies (#[trigger] mid[a]).street_id() != (#[trigger] mid[b]).street_id() by {
                    assert(mid[a].same_content(orig[a]));
                    assert(mid[b].same_content(orig[b]));
                    assert(orig[a].street_id() != orig[b].street_id());
                }
                lemma_perm_distinct(mid, fin, |x: Street| x.street_id());
            }
            assert forall|ns: nat, nh: nat| old(self).bounded(ns, nh) implies #[trigger] self.bounded(ns, nh) by {
                assert forall|j: int| 0 <= j < mid.len() implies (#[trigger] mid[j]).bounded(ns, nh) && mid[j].numbers().len() > 0 by {
                    assert(orig[j].bounded(ns, nh));
                    assert(mid[j].same_content(orig[j]));
                }
                lemma_perm_all(mid, fin, |x: Street| x.bounded(ns, nh) && x.numbers().len() > 0);
            }
            to_multiset_len(mid);
            to_multiset_len(fin);
            assert forall|s: Seq<char>, h: Seq<char>, streets: Seq<Seq<char>>, numbers: Seq<Seq<char>>|
                #[trigger] self.has(s, h, streets, numbers) <==> old(self).has(s, h, streets, numbers) by {
                lemma_perm_any(mid, fin, |x: Street| street_matches(x, s, h, streets, numbers));
                if exists|j: int| 0 <= j < mid.len() && #[trigger] street_matches(mid[j], s, h, streets, numbers) {
                    let j = choose|j: int| 0 <= j < mid.len() && #[trigger] street_matches(mid[j], s, h, streets, numbers);
                    assert(mid[j].same_content(orig[j]));
                    assert(street_matches(orig[j], s, h, streets, numbers));
                }
                if old(self).has(s, h, streets, numbers) {
                    let j = choose|j: int| 0 <= j < orig.len() && #[trigger] street_matches(orig[j], s, h, streets, numbers);
                    assert(mid[j].same_content(orig[j]));
                    assert(street_matches(mid[j], s, h, streets, numbers));
                }
            }
        }
    }
}

impl City {
    /// The postal areas ascend by key, and each of them is sorted.
    pub open spec fn is_sorted(&self, streets: Seq<Seq<char>>, numbers: Seq<Seq<char>>) -> bool {
        &&& ordered_by(self.areas_view(), |x: PostalArea| x.code_view())
        &&& forall|k: int| 0 <= k < self.areas_view().len() ==> (#[trigger] self.areas_view()[k]).is_sorted(streets, numbers)
    }

    /// The same key, and the same entries below it.
    pub open spec fn same_content(&self, other: City) -> bool {
        &&& self.name_view() == other.name_view()
        &&& self.areas_view().len() == other.areas_view().len()
        &&& other.wf() ==> self.wf()
        &&& forall|ns: nat, nh: nat| other.bounded(ns, nh) ==> #[trigger] self.bounded(ns, nh)
        &&& forall|zip: Seq<char>, s: Seq<char>, h: Seq<char>, streets: Seq<Seq<char>>, numbers: Seq<Seq<char>>|
            #[trigger] self.has(zip, s, h, streets, numbers) <==> other.has(zip, s, h, streets, numbers)
    }

    /// Orders every level below by key, over the two root tables.
    pub fn sort_with(&mut self, streets: &SortedVec, numbers: &SortedVec)
        requires
            old(self).bounded(streets@.len(), numbers@.len()),
        ensures
            final(self).same_content(*old(self)),
            final(self).is_sorted(streets@, numbers@),
    {
        let ghost orig = self.areas@;
        let mut k: usize = 0;
        while k < self.areas.len()
            invariant
                self.name@ == old(self).name_view(),
                orig == old(self).areas_view(),
                self.areas@.len() == orig.len(),
                k <= orig.len(),
                old(self).bounded(streets@.len(), numbers@.len()),
                forall|j: int| 0 <= j < k ==> (#[trigger] self.areas@[j]).is_sorted(streets@, numbers@) && self.areas@[j].same_content(orig[j]),
                forall|j: int| k <= j < orig.len() ==> #[trigger] self.areas@[j] == orig[j],
            decreases orig.len() - k,
        {
            proof {
                assert(orig[k as int].bounded(streets@.len(), numbers@.len()));
            }
            self.areas[k].sort_with(streets, numbers);
            k = k + 1;
        }
        let ghost mid = self.areas@;
        let mut keys: Vec<String> = Vec::new();
        let mut m: usize = 0;
        while m < self.areas.len()
            invariant
                self.areas@ == mid,
                orig == old(self).areas_view(),
                mid.len() == orig.len(),
                old(self).bounded(streets@.len(), numbers@.len()),
                forall|j: int| 0 <= j < mid.len() ==> (#[trigger] mid[j]).same_content(orig[j]),
                m <= mid.len(),
                keys@.len() == m,
                forall|i: int| 0 <= i < m ==> (#[trigger] keys@[i])@ == (|x: PostalArea| x.code_view())(mid[i]),
            decreases mid.len() - m,
        {
            keys.push(self.areas[m].code.clone());
            m = m + 1;
        }
        sort_by_keys(&mut self.areas, &mut keys, Ghost(|x: PostalArea| x.code_view()));
        proof {
            let fin = self.areas@;
            assert(self.areas_view() == fin);
            assert(old(self).areas_view() == orig);
            lemma_perm_all(mid, fin, |x: PostalArea| x.is_sorted(streets@, numbers@));
            if old(self).wf() {
                assert forall|j: int| 0 <= j < mid.len() implies (#[trigger] mid[j]).wf() by {
                    assert(orig[j].wf());
                    assert(mid[j].same_content(orig[j]));
                }
                lemma_perm_all(mid, fin, |x: PostalArea| x.wf());
                assert forall|a: int, b: int| 0 <= a < b < mid.len() implies (#[trigger] mid[a]).code_view() != (#[trigger] mid[b]).code_view() by {
                    assert(mid[a].same_content(orig[a]));
                    assert(mid[b].same_content(orig[b]));
                    assert(orig[a].code_view() != orig[b].code_view());
                }
                lemma_perm_distinct(mid, fin, |x: PostalArea| x.code_view());
            }
            assert forall|ns: nat, nh: nat| old(self).bounded(ns, nh) implies #[trigger] self.bounded(ns, nh) by {
                assert forall|j: int| 0 <= j < mid.len() implies (#[trigger] mid[j]).bounded(ns, nh) && mid[j].streets_view().len() > 0 by {
                    assert(orig[j].bounded(ns, nh));
                    assert(mid[j].same_content(orig[j]));
                }
                lemma_perm_all(mid, fin, |x: PostalArea| x.bounded(ns, nh) && x.streets_view().len() > 0);
            }
            to_multiset_len(mid);
            to_multiset_len(fin);
            assert forall|zip: Seq<char>, s: Seq<char>, h: Seq<char>, streets: Seq<Seq<char>>, numbers: Seq<Seq<char>>|
                #[trigger] self.has(zip, s, h, streets, numbers) <==> old(self).has(zip, s, h, streets, numbers) by {
                lemma_perm_any(mid, fin, |x: PostalArea| area_matches(x, zip, s, h, streets, numbers));
                if exists|j: int| 0 <= j < mid.len() && #[trigger] area_matches(mid[j], zip, s, h, streets, numbers) {
                    let j = choose|j: int| 0 <= j < mid.len() && #[trigger] area_matches(mid[j], zip, s, h, streets, numbers);
                    assert(mid[j].same_content(orig[j]));
                    assert(area_matches(orig[j], zip, s, h, streets, numbers));
                }
                if old(self).has(zip, s, h, streets, numbers) {
                    let j = choose|j: int| 0 <= j < orig.len() && #[trigger] area_matches(orig[j], zip, s, h, streets, numbers);
                    assert(mid[j].same_content(orig[j]));
                    assert(area_matches(mid[j], zip, s, h, streets, numbers));
                }
            }
        }
    }
}

impl Country {
    /// The cities ascend by key, and each of them is sorted.
    pub open spec fn is_sorted(&self, streets: Seq<Seq<char>>, numbers: Seq<Seq<char>>) -> bool {
        &&& ordered_by(self.cities_view(), |x: City| x.name_view())
        &&& forall|k: int| 0 <= k < self.cities_view().len() ==> (#[trigger] self.cities_view()[k]).is_sorted(streets, numbers)
    }

    /// The same key, and the same entries below it.
    pub open spec fn same_content(&self, other: Country) -> bool {
        &&& self.code_view() == other.code_view()
        &&& self.cities_view().len() == other.cities_view().len()
        &&& other.wf() ==> self.wf()
        &&& forall|ns: nat, nh: nat| other.bounded(ns, nh) ==> #[trigger] self.bounded(ns, nh)
        &&& forall|ci: Seq<char>, zip: Seq<char>, s: Seq<char>, h: Seq<char>, streets: Seq<Seq<char>>, numbers: Seq<Seq<char>>|
            #[trigger] self.has(ci, zip, s, h, streets, numbers) <==> other.has(ci, zip, s, h, streets, numbers)
    }

    /// Orders every level below by key, over the two root tables.
    pub fn sort_with(&mut self, streets: &SortedVec, numbers: &SortedVec)
        requires
            old(self).bounded(streets@.len(), numbers@.len()),
        ensures
            final(self).same_content(*old(self)),
            final(self).is_sorted(streets@, numbers@),
    {
        let ghost orig = self.cities@;
        let mut k: usize = 0;
        while k < self.cities.len()
            invariant
                self.code@ == old(self).code_view(),
                orig == old(self).cities_view(),
                self.cities@.len() == orig.len(),
                k <= orig.len(),
                old(self).bounded(streets@.len(), numbers@.len()),
                forall|j: int| 0 <= j < k ==> (#[trigger] self.cities@[j]).is_sorted(streets@, numbers@) && self.cities@[j].same_content(orig[j]),
                forall|j: int| k <= j < orig.len() ==> #[trigger] self.cities@[j] == orig[j],
            decreases orig.len() - k,
        {
            proof {
                assert(orig[k as int].bounded(streets@.len(), numbers@.len()));
            }
            self.cities[k].sort_with(streets, numbers);
            k = k + 1;
        }
        let ghost mid = self.cities@;
        let mut keys: Vec<String> = Vec::new();
        let mut m: usize = 0;
        while m < self.cities.len()
            invariant
                self.cities@ == mid,
                orig == old(self).cities_view(),
                mid.len() == orig.len(),
                old(self).bounded(streets@.len(), numbers@.len()),
                forall|j: int| 0 <= j < mid.len() ==> (#[trigger] mid[j]).same_content(orig[j]),
                m <= mid.len(),
                keys@.len() == m,
                forall|i: int| 0 <= i < m ==> (#[trigger] keys@[i])@ == (|x: City| x.name_view())(mid[i]),
            decreases mid.len() - m,
        {
            keys.push(self.cities[m].name.clone());
            m = m + 1;
        }
        sort_by_keys(&mut self.cities, &mut keys, Ghost(|x: City| x.name_view()));
        proof {
            let fin = self.cities@;
            assert(self.cities_view() == fin);
            assert(old(self).cities_view() == orig);
            lemma_perm_all(mid, fin, |x: City| x.is_sorted(streets@, numbers@));
            if old(self).wf() {
                assert forall|j: int| 0 <= j < mid.len() implies (#[trigger] mid[j]).wf() by {
                    assert(orig[j].wf());
                    assert(mid[j].same_content(orig[j]));
                }
                lemma_perm_all(mid, fin, |x: City| x.wf());
                assert forall|a: int, b: int| 0 <= a < b < mid.len() implies (#[trigger] mid[a]).name_view() != (#[trigger] mid[b]).name_view() by {
                    assert(mid[a].same_content(orig[a]));
                    assert(mid[b].same_content(orig[b]));
                    assert(orig[a].name_view() != orig[b].name_view());
                }
                lemma_perm_distinct(mid, fin, |x: City| x.name_view());
            }
            assert forall|ns: nat, nh: nat| old(self).bounded(ns, nh) implies #[trigger] self.bounded(ns, nh) by {
                assert forall|j: int| 0 <= j < mid.len() implies (#[trigger] mid[j]).bounded(ns, nh) && mid[j].areas_view().len() > 0 by {
                    assert(orig[j].bounded(ns, nh));
                    assert(mid[j].same_content(orig[j]));
                }
                lemma_perm_all(mid, fin, |x: City| x.bounded(ns, nh) && x.areas_view().len() > 0);
            }
            to_multiset_len(mid);
            to_multiset_len(fin);
            assert forall|ci: Seq<char>, zip: Seq<char>, s: Seq<char>, h: Seq<char>, streets: Seq<Seq<char>>, numbers: Seq<Seq<char>>|
                #[trigger] self.has(ci, zip, s, h, streets, numbers) <==> old(self).has(ci, zip, s, h, streets, numbers) by {
                lemma_perm_any(mid, fin, |x: City| city_matches(x, ci, zip, s, h, streets, numbers));
                if exists|j: int| 0 <= j < mid.len() && #[trigger] city_matches(mid[j], ci, zip, s, h, streets, numbers) {
                    let j = choose|j: int| 0 <= j < mid.len() && #[trigger] city_matches(mid[j], ci, zip, s, h, streets, numbers);
                    assert(mid[j].same_content(orig[j]));
                    assert(city_matches(orig[j], ci, zip, s, h, streets, numbers));
                }
                if old(self).has(ci, zip, s, h, streets, numbers) {
                    let j = choose|j: int| 0 <= j < orig.len() && #[trigger] city_matches(orig[j], ci, zip, s, h, streets, numbers);
                    assert(mid[j].same_content(orig[j]));
                    assert(city_matches(mid[j], ci, zip, s, h, streets, numbers));
                }
            }
        }
    }
}

// ---------------------------------------------------------------------------
// World
// ---------------------------------------------------------------------------

/// The country has code `c` and holds the entry below it.
pub open spec fn country_matches(x: Country, c: Seq<char>, ci: Seq<char>, zip: Seq<char>, s: Seq<char>, h: Seq<char>, streets: Seq<Seq<char>>, numbers: Seq<Seq<char>>) -> bool {
    x.code_view() == c && x.has(ci, zip, s, h, streets, numbers)
}

/// One address of the index: country, city, postal code, street and house number.
pub type Entry = (Seq<char>, Seq<char>, Seq<char>, Seq<char>, Seq<char>);

/// The largest table that positions of 32 bits can address.
pub const MAX_TABLE: usize = 4294967295;

impl World {
    /// The interned street names, in ascending order.
    pub closed spec fn streets_view(&self) -> Seq<Seq<char>> {
        self.unique_streets@
    }

    /// The interned house numbers that are not plain numbers, in ascending order.
    pub closed spec fn numbers_view(&self) -> Seq<Seq<char>> {
        self.housenumbers@
    }

    pub closed spec fn countries_view(&self) -> Seq<Country> {
        self.countries@
    }

    pub closed spec fn tables_wf(&self) -> bool {
        self.unique_streets.wf() && self.housenumbers.wf()
    }

    /// The index holds the address `(c, ci, zip, s, h)`.
    pub open spec fn has(&self, c: Seq<char>, ci: Seq<char>, zip: Seq<char>, s: Seq<char>, h: Seq<char>) -> bool {
        exists|k: int|
            0 <= k < self.countries_view().len()
                && #[trigger] country_matches(self.countries_view()[k], c, ci, zip, s, h, self.streets_view(), self.numbers_view())
    }

    /// Every address that the index holds.
    pub open spec fn entries(&self) -> Set<Entry> {
        Set::new(|e: Entry| self.has(e.0, e.1, e.2, e.3, e.4))
    }

    /// The root tables are ascending without repeats, the house number table
    /// holds no plain number, every position points into its table, and no
    /// level holds two children with one key.
    pub open spec fn wf(&self) -> bool {
        &&& self.tables_wf()
        &&& strictly_ascending(self.streets_view())
        &&& strictly_ascending(self.numbers_view())
        &&& self.streets_view().len() <= MAX_TABLE
        &&& self.numbers_view().len() <= MAX_TABLE
        &&& forall|i: int| 0 <= i < self.numbers_view().len() ==> !is_clean(#[trigger] self.numbers_view()[i])
        &&& forall|k: int| 0 <= k < self.countries_view().len() ==> (#[trigger] self.countries_view()[k]).wf()
        &&& forall|k: int|
            0 <= k < self.countries_view().len()
                ==> (#[trigger] self.countries_view()[k]).bounded(self.streets_view().len(), self.numbers_view().len())
                && self.countries_view()[k].cities_view().len() > 0
        &&& forall|a: int, b: int|
            0 <= a < b < self.countries_view().len()
                ==> (#[trigger] self.countries_view()[a]).code_view() != (#[trigger] self.countries_view()[b]).code_view()
    }

    /// An empty index over the two root tables.
    pub fn new(unique_streets: SortedVec, housenumbers: SortedVec) -> (r: World)
        requires
            unique_streets.wf(),
            housenumbers.wf(),
            unique_streets@.len() <= MAX_TABLE,
            housenumbers@.len() <= MAX_TABLE,
            forall|i: int| 0 <= i < housenumbers@.len() ==> !is_clean(#[trigger] housenumbers@[i]),
        ensures
            r.wf(),
            r.streets_view() == unique_streets@,
            r.numbers_view() == housenumbers@,
            r.countries_view().len() == 0,
            r.entries() == Set::<Entry>::empty(),
    {
        let r = World { unique_streets, housenumbers, countries: Vec::new() };
        assert(r.entries() =~= Set::<Entry>::empty());
        r
    }

    pub fn unique_streets(&self) -> (r: &SortedVec)
        ensures
            r@ == self.streets_view(),
            self.wf() ==> r.wf(),
    {
        &self.unique_streets
    }

    pub fn housenumbers(&self) -> (r: &SortedVec)
        ensures
            r@ == self.numbers_view(),
            self.wf() ==> r.wf(),
    {
        &self.housenumbers
    }

    pub fn countries(&self) -> (r: &Vec<Country>)
        ensures
            r@ == self.countries_view(),
    {
        &self.countries
    }

    /// The number of countries.
    pub fn count(&self) -> (r: usize)
        ensures
            r == self.countries_view().len(),
    {
        self.countries.len()
    }

    /// The house number as stored: its value where it is a plain number,
    /// else its position in the root table.
    pub fn classify_housenumber(&self, housenumber: &str) -> (r: Option<Housenumber>)
        requires
            self.wf(),
        ensures
            match r {
                Some(hn) => hn.in_range(self.numbers_view().len()) && hn.text(self.numbers_view()) == housenumber@
                    && (hn is CleanInt <==> is_clean(housenumber@)),
                None => !is_clean(housenumber@) && !self.numbers_view().contains(housenumber@),
            },
    {
        match clean_value(housenumber) {
            Some(n) => Some(Housenumber::CleanInt(n)),
            None => match self.housenumbers.index_of(housenumber) {
                Some(i) => Some(Housenumber::Index(i as u32)),
                None => None,
            },
        }
    }

    /// Files one address. The street name must be in the street table, and
    /// the house number must be a plain number or be in the house number table.
    pub fn insert_address(&mut self, country_code: String, city_name: String, zip: String, street: String, housenumber: String)
        requires
            old(self).wf(),
            old(self).streets_view().contains(street@),
            is_clean(housenumber@) || old(self).numbers_view().contains(housenumber@),
        ensures
            final(self).wf(),
            final(self).streets_view() == old(self).streets_view(),
            final(self).numbers_view() == old(self).numbers_view(),
            final(self).entries() == old(self).entries().insert((country_code@, city_name@, zip@, street@, housenumber@)),
    {
        let hn = match self.classify_housenumber(housenumber.as_str()) {
            Some(hn) => hn,
            None => {
                proof {
                    assert(false);
                }
                Housenumber::CleanInt(0)
            },
        };
        let street_index = match self.unique_streets.index_of(street.as_str()) {
            Some(i) => i as u32,
            None => {
                proof {
                    assert(false);
                }
                0
            },
        };
        let ghost ws = self.streets_view();
        let ghost nums = self.numbers_view();
        let ghost entry = (country_code@, city_name@, zip@, street@, housenumber@);
        assert(street_index < ws.len() && ws[street_index as int] == street@);
        assert(hn.text(nums) == housenumber@ && hn.in_range(nums.len()));
        let ghost before = self.countries@;
        let mut k: usize = 0;
        while k < self.countries.len()
            invariant
                self.countries@ == before,
                before == old(self).countries_view(),
                self.unique_streets == old(self).unique_streets,
                self.housenumbers == old(self).housenumbers,
                ws == self.streets_view(),
                nums == self.numbers_view(),
                street_index < ws.len() && ws[street_index as int] == entry.3,
                hn.text(nums) == entry.4 && hn.in_range(nums.len()),
                entry == (country_code@, city_name@, zip@, street@, housenumber@),
                old(self).wf(),
                k <= before.len(),
                forall|j: int| 0 <= j < k ==> (#[trigger] before[j]).code_view() != country_code@,
            decreases before.len() - k,
        {
            if self.countries[k].code == country_code {
                let ghost old_child = before[k as int];
                self.countries[k].insert_address(city_name, zip, street_index, hn);
                proof {
                    let after = self.countries@;
                    assert(after == before.update(k as int, after[k as int]));
                    assert(self.countries_view() == after);
                    assert(old(self).countries_view() == before);
                    assert(old_child.code_view() == country_code@);
                    assert(self.streets_view() == ws && self.numbers_view() == nums);
                    assert forall|c: Seq<char>, ci: Seq<char>, z: Seq<char>, s: Seq<char>, h: Seq<char>|
                        #[trigger] self.has(c, ci, z, s, h) <==> old(self).has(c, ci, z, s, h) || (c, ci, z, s, h) == entry by {
                        if self.has(c, ci, z, s, h) {
                            let j = choose|j: int|
                                0 <= j < after.len() && #[trigger] country_matches(after[j], c, ci, z, s, h, ws, nums);
                            if j != k {
                                assert(country_matches(before[j], c, ci, z, s, h, ws, nums));
                            } else if old_child.has(ci, z, s, h, ws, nums) {
                                assert(country_matches(before[j], c, ci, z, s, h, ws, nums));
                            }
                        }
                        if old(self).has(c, ci, z, s, h) {
                            let j = choose|j: int|
                                0 <= j < before.len() && #[trigger] country_matches(before[j], c, ci, z, s, h, ws, nums);
                            assert(country_matches(after[j], c, ci, z, s, h, ws, nums));
                        }
                        if (c, ci, z, s, h) == entry {
                            assert(after[k as int].has(ci, z, s, h, ws, nums));
                            assert(country_matches(after[k as int], c, ci, z, s, h, ws, nums));
                        }
                    }
                    assert forall|a: int, b: int|
                        0 <= a < b < after.len() implies (#[trigger] after[a]).code_view() != (#[trigger] after[b]).code_view() by {
                        assert(before[a].code_view() != before[b].code_view());
                    }
                    assert forall|j: int| 0 <= j < after.len() implies (#[trigger] after[j]).wf() && after[j].bounded(ws.len(), nums.len()) by {
                        assert(before[j].wf());
                        assert(before[j].bounded(ws.len(), nums.len()));
                    }
                    assert(self.entries() =~= old(self).entries().insert(entry));
                }
                return;
            }
            k = k + 1;
        }
        let mut child = Country::new(country_code);
        child.insert_address(city_name, zip, street_index, hn);
        self.countries.push(child);
        proof {
            let after = self.countries@;
            assert(after == before.push(child));
            assert(self.countries_view() == after);
            assert(old(self).countries_view() == before);
            assert(self.streets_view() == ws && self.numbers_view() == nums);
            assert(child.code_view() == entry.0);
            assert(child.has(entry.1, entry.2, entry.3, entry.4, ws, nums));
            assert forall|c: Seq<char>, ci: Seq<char>, z: Seq<char>, s: Seq<char>, h: Seq<char>|
                #[trigger] self.has(c, ci, z, s, h) <==> old(self).has(c, ci, z, s, h) || (c, ci, z, s, h) == entry by {
                if self.has(c, ci, z, s, h) {
                    let j = choose|j: int|
                        0 <= j < after.len() && #[trigger] country_matches(after[j], c, ci, z, s, h, ws, nums);
                    if j < before.len() {
                        assert(country_matches(before[j], c, ci, z, s, h, ws, nums));
                    } else {
                        assert(child.has(ci, z, s, h, ws, nums));
                        let q = choose|q: int|
                            0 <= q < child.cities_view().len() && #[trigger] city_matches(child.cities_view()[q], ci, z, s, h, ws, nums);
                    }
                }
                if old(self).has(c, ci, z, s, h) {
                    let j = choose|j: int|
                        0 <= j < before.len() && #[trigger] country_matches(before[j], c, ci, z, s, h, ws, nums);
                    assert(country_matches(after[j], c, ci, z, s, h, ws, nums));
                }
                if (c, ci, z, s, h) == entry {
                    assert(country_matches(after[before.len() as int], c, ci, z, s, h, ws, nums));
                }
            }
            assert forall|j: int| 0 <= j < after.len() implies (#[trigger] after[j]).wf() && after[j].bounded(ws.len(), nums.len()) by {
                if j < before.len() {
                    assert(before[j].wf());
                    assert(before[j].bounded(ws.len(), nums.len()));
                }
            }
            assert forall|a: int, b: int|
                0 <= a < b < after.len() implies (#[trigger] after[a]).code_view() != (#[trigger] after[b]).code_view() by {
                if b < before.len() {
                    assert(before[a].code_view() != before[b].code_view());
                } else {
                    assert(before[a].code_view() != country_code@);
                }
            }
            assert(self.entries() =~= old(self).entries().insert(entry));
        }
    }
}


impl World {
    /// Countries ascend by code, and every level below is sorted.
    pub open spec fn is_sorted(&self) -> bool {
        &&& ordered_by(self.countries_view(), |x: Country| x.code_view())
        &&& forall|k: int|
            0 <= k < self.countries_view().len()
                ==> (#[trigger] self.countries_view()[k]).is_sorted(self.streets_view(), self.numbers_view())
    }

    /// Puts every level in its order: countries by code, cities by name,
    /// postal areas by code, streets by name and house numbers by their
    /// text, compared byte for byte (so "10" comes before "2").
    pub fn sort(&mut self)
        requires
            old(self).wf(),
        ensures
            final(self).wf(),
            final(self).is_sorted(),
            final(self).streets_view() == old(self).streets_view(),
            final(self).numbers_view() == old(self).numbers_view(),
            final(self).entries() == old(self).entries(),
    {
        let ghost orig = self.countries@;
        let ghost ws = self.unique_streets@;
        let ghost nums = self.housenumbers@;
        let mut k: usize = 0;
        while k < self.countries.len()
            invariant
                self.unique_streets == old(self).unique_streets,
                self.housenumbers == old(self).housenumbers,
                ws == old(self).streets_view(),
                nums == old(self).numbers_view(),
                orig == old(self).countries_view(),
                old(self).wf(),
                self.countries@.len() == orig.len(),
                k <= orig.len(),
                forall|j: int| 0 <= j < k ==> (#[trigger] self.countries@[j]).is_sorted(ws, nums) && self.countries@[j].same_content(orig[j]),
                forall|j: int| k <= j < orig.len() ==> #[trigger] self.countries@[j] == orig[j],
            decreases orig.len() - k,
        {
            proof {
                assert(orig[k as int].bounded(ws.len(), nums.len()));
            }
            self.countries[k].sort_with(&self.unique_streets, &self.housenumbers);
            k = k + 1;
        }
        let ghost mid = self.countries@;
        let mut keys: Vec<String> = Vec::new();
        let mut m: usize = 0;
        while m < self.countries.len()
            invariant
                self.countries@ == mid,
                mid.len() == orig.len(),
                m <= mid.len(),
                keys@.len() == m,
                forall|i: int| 0 <= i < m ==> (#[trigger] keys@[i])@ == mid[i].code_view(),
            decreases mid.len() - m,
        {
            keys.push(self.countries[m].code.clone());
            m = m + 1;
        }
        sort_by_keys(&mut self.countries, &mut keys, Ghost(|x: Country| x.code_view()));
        proof {
            let fin = self.countries@;
            assert(self.countries_view() == fin);
            assert(old(self).countries_view() == orig);
            assert(self.streets_view() == ws && self.numbers_view() == nums);
            lemma_perm_all(mid, fin, |x: Country| x.is_sorted(ws, nums));
            assert forall|j: int| 0 <= j < mid.len() implies (#[trigger] mid[j]).wf() && mid[j].bounded(ws.len(), nums.len())
                && mid[j].cities_view().len() > 0 by {
                assert(orig[j].wf());
                assert(orig[j].bounded(ws.len(), nums.len()));
                assert(mid[j].same_content(orig[j]));
            }
            lemma_perm_all(mid, fin, |x: Country| x.wf());
            lemma_perm_all(mid, fin, |x: Country| x.bounded(ws.len(), nums.len()) && x.cities_view().len() > 0);
            assert forall|a: int, b: int| 0 <= a < b < mid.len() implies (#[trigger] mid[a]).code_view() != (#[trigger] mid[b]).code_view() by {
                assert(mid[a].same_content(orig[a]));
                assert(mid[b].same_content(orig[b]));
                assert(orig[a].code_view() != orig[b].code_view());
            }
            lemma_perm_distinct(mid, fin, |x: Country| x.code_view());
            assert forall|c: Seq<char>, ci: Seq<char>, zip: Seq<char>, s: Seq<char>, h: Seq<char>|
                #[trigger] self.has(c, ci, zip, s, h) <==> old(self).has(c, ci, zip, s, h) by {
                lemma_perm_any(mid, fin, |x: Country| country_matches(x, c, ci, zip, s, h, ws, nums));
                if exists|j: int| 0 <= j < mid.len() && #[trigger] country_matches(mid[j], c, ci, zip, s, h, ws, nums) {
                    let j = choose|j: int| 0 <= j < mid.len() && #[trigger] country_matches(mid[j], c, ci, zip, s, h, ws, nums);
                    assert(mid[j].same_content(orig[j]));
                    assert(country_matches(orig[j], c, ci, zip, s, h, ws, nums));
                }
                if old(self).has(c, ci, zip, s, h) {
                    let j = choose|j: int| 0 <= j < orig.len() && #[trigger] country_matches(orig[j], c, ci, zip, s, h, ws, nums);
                    assert(mid[j].same_content(orig[j]));
                    assert(country_matches(mid[j], c, ci, zip, s, h, ws, nums));
                }
            }
            assert(self.entries() =~= old(self).entries());
        }
    }
}


/// Those of `names` that start with `prefix`, both lowered, in order.
pub open spec fn prefixed(names: Seq<Seq<char>>, prefix: Seq<char>) -> Seq<Seq<char>> {
    names.filter(|n: Seq<char>| folded_prefix(prefix, n))
}

/// Whatever a prefix keeps is among the names; a prefix that lowers to
/// nothing keeps every name, in order.
pub proof fn lemma_prefixed_all(names: Seq<Seq<char>>, p: Seq<char>)
    ensures
        forall|x: Seq<char>| #[trigger] prefixed(names, p).contains(x) ==> names.contains(x),
        lower_of(p).len() == 0 ==> prefixed(names, p) == names,
    decreases names.len(),
{
    let pred = |n: Seq<char>| folded_prefix(p, n);
    assert forall|x: Seq<char>| #[trigger] prefixed(names, p).contains(x) implies names.contains(x) by {
        names.lemma_filter_contains_rev(pred, x);
    }
    if lower_of(p).len() == 0 {
        assert(lower_of(p) =~= Seq::<char>::empty());
        assert(utf8(lower_of(p)) =~= Seq::<u8>::empty());
        if names.len() == 0 {
            reveal(Seq::filter);
        } else {
            let init = names.drop_last();
            lemma_prefixed_all(init, p);
            assert(init.push(names.last()) =~= names);
            init.lemma_filter_push(names.last(), pred);
            assert(pred(names.last()));
        }
    }
}

// ---------------------------------------------------------------------------
// Lookups
// ---------------------------------------------------------------------------

/// `k` is the first position whose key equals `q` when both are lowered.
pub open spec fn first_folded(keys: Seq<Seq<char>>, q: Seq<char>, k: int) -> bool {
    &&& 0 <= k < keys.len()
    &&& same_folded(keys[k], q)
    &&& forall|j: int| 0 <= j < k ==> !same_folded(#[trigger] keys[j], q)
}

pub open spec fn first_folded_index(keys: Seq<Seq<char>>, q: Seq<char>) -> Option<int> {
    if exists|k: int| first_folded(keys, q, k) {
        Some(choose|k: int| first_folded(keys, q, k))
    } else {
        None
    }
}

pub proof fn lemma_first_folded_index(keys: Seq<Seq<char>>, q: Seq<char>, k: int)
    requires
        first_folded(keys, q, k),
    ensures
        first_folded_index(keys, q) == Some(k),
{
    let c = choose|c: int| first_folded(keys, q, c);
    if c < k {
        assert(!same_folded(keys[c], q));
    } else if k < c {
        assert(!same_folded(keys[k], q));
    }
}

pub proof fn lemma_no_folded_index(keys: Seq<Seq<char>>, q: Seq<char>)
    requires
        forall|j: int| 0 <= j < keys.len() ==> !same_folded(#[trigger] keys[j], q),
    ensures
        first_folded_index(keys, q).is_none(),
{
}

impl Street {
    /// The texts of the house numbers, in stored order.
    pub open spec fn number_texts(&self, numbers: Seq<Seq<char>>) -> Seq<Seq<char>> {
        self.numbers().map_values(|hn: Housenumber| hn.text(numbers))
    }

    /// The texts of the house numbers that start with `prefix`, both
    /// lowered, in stored order.
    pub fn iter_housenumbers_prefixed(&self, prefix: &str, world: &World) -> (r: Vec<String>)
        requires
            world.wf(),
            forall|k: int| 0 <= k < self.numbers().len() ==> (#[trigger] self.numbers()[k]).in_range(world.numbers_view().len()),
        ensures
            views(r@) == prefixed(self.number_texts(world.numbers_view()), prefix@),
            prefix@.len() == 0 ==> views(r@) == self.number_texts(world.numbers_view()),
    {
        let ghost names = self.number_texts(world.numbers_view());
        let ghost pred = |n: Seq<char>| folded_prefix(prefix@, n);
        let mut out: Vec<String> = Vec::new();
        let mut k: usize = 0;
        while k < self.housenumbers.len()
            invariant
                world.wf(),
                forall|j: int| 0 <= j < self.numbers().len() ==> (#[trigger] self.numbers()[j]).in_range(world.numbers_view().len()),
                names == self.number_texts(world.numbers_view()),
                names.len() == self.housenumbers@.len(),
                pred == (|n: Seq<char>| folded_prefix(prefix@, n)),
                k <= names.len(),
                views(out@) == names.subrange(0, k as int).filter(pred),
                k > 0 && prefix@.len() == 0 ==> lower_of(prefix@).len() == 0,
            decreases names.len() - k,
        {
            proof {
                assert(names.subrange(0, k + 1).drop_last() =~= names.subrange(0, k as int));
                assert(names.subrange(0, k + 1).last() == names[k as int]);
                assert(self.numbers()[k as int].in_range(world.numbers_view().len()));
            }
            let key = world.render_housenumber(self.housenumbers[k]);
            let matched = starts_with_folded(key.as_str(), prefix);
            proof {
                assert(key@ == names[k as int]);
                assert(names.subrange(0, k + 1) =~= names.subrange(0, k as int).push(names[k as int]));
                names.subrange(0, k as int).lemma_filter_push(names[k as int], pred);
                assert(pred(names[k as int]) == matched);
            }
            if matched {
                let ghost before = out@;
                out.push(key);
                proof {
                    assert(views(out@) =~= views(before).push(names[k as int]));
                }
            }
            k = k + 1;
        }
        proof {
            assert(names.subrange(0, names.len() as int) =~= names);
            lemma_prefixed_all(names, prefix@);
            if names.len() == 0 {
                assert(names.filter(pred) =~= names) by {
                    reveal(Seq::filter);
                }
            }
        }
        out
    }
}

impl World {
    /// The text of a house number.
    pub fn render_housenumber(&self, hn: Housenumber) -> (r: String)
        requires
            self.wf(),
            hn.in_range(self.numbers_view().len()),
        ensures
            r@ == hn.text(self.numbers_view()),
    {
        match hn {
            Housenumber::CleanInt(n) => render_decimal(n),
            Housenumber::Index(i) => self.housenumbers.get(i as usize).clone(),
        }
    }
}

impl PostalArea {
    /// The keys of the streets, in stored order.
    pub open spec fn street_names(&self, streets: Seq<Seq<char>>) -> Seq<Seq<char>> {
        self.streets_view().map_values(|st: Street| streets[st.street_id() as int])
    }

    /// The first of the streets whose key equals `q` when both are lowered.
    pub open spec fn street_named(&self, q: Seq<char>, streets: Seq<Seq<char>>) -> Option<Street> {
        match first_folded_index(self.street_names(streets), q) {
            Some(k) => Some(self.streets_view()[k]),
            None => None,
        }
    }

    /// The keys of the streets that start with `prefix`, both lowered, in
    /// stored order.
    pub fn iter_streets_prefixed(&self, prefix: &str, world: &World) -> (r: Vec<String>)
        requires
            world.wf(), self.bounded(world.streets_view().len(), world.numbers_view().len()),
        ensures
            views(r@) == prefixed(self.street_names(world.streets_view()), prefix@),
            prefix@.len() == 0 ==> views(r@) == self.street_names(world.streets_view()),
    {
        let ghost names = self.street_names(world.streets_view());
        let ghost pred = |n: Seq<char>| folded_prefix(prefix@, n);
        let mut out: Vec<String> = Vec::new();
        let mut k: usize = 0;
        while k < self.streets.len()
            invariant
                world.wf(),
                self.bounded(world.streets_view().len(), world.numbers_view().len()),
                names == self.street_names(world.streets_view()),
                names.len() == self.streets@.len(),
                pred == (|n: Seq<char>| folded_prefix(prefix@, n)),
                k <= names.len(),
                views(out@) == names.subrange(0, k as int).filter(pred),
                k > 0 && prefix@.len() == 0 ==> lower_of(prefix@).len() == 0,
            decreases names.len() - k,
        {
            proof {
                assert(names.subrange(0, k + 1).drop_last() =~= names.subrange(0, k as int));
                assert(names.subrange(0, k + 1).last() == names[k as int]);
                assert(self.streets_view()[k as int].bounded(world.streets_view().len(), world.numbers_view().len()));
            }
            let key = world.unique_streets.get(self.streets[k].index as usize);
            let matched = starts_with_folded(key.as_str(), prefix);
            proof {
                assert(key@ == names[k as int]);
                assert(names.subrange(0, k + 1) =~= names.subrange(0, k as int).push(names[k as int]));
                names.subrange(0, k as int).lemma_filter_push(names[k as int], pred);
                assert(pred(names[k as int]) == matched);
            }
            if matched {
                let ghost before = out@;
                out.push(key.clone());
                proof {
                    assert(views(out@) =~= views(before).push(names[k as int]));
                }
            }
            k = k + 1;
        }
        proof {
            assert(names.subrange(0, names.len() as int) =~= names);
            lemma_prefixed_all(names, prefix@);
            if names.len() == 0 {
                assert(names.filter(pred) =~= names) by {
                    reveal(Seq::filter);
                }
            }
        }
        out
    }

    /// The first of the streets whose key equals `street` when both are lowered.
    pub fn get_street(&self, street: &str, world: &World) -> (r: Option<&Street>)
        requires
            world.wf(), self.bounded(world.streets_view().len(), world.numbers_view().len()),
        ensures
            match r {
                Some(x) => self.street_named(street@, world.streets_view()) == Some(*x),
                None => self.street_named(street@, world.streets_view()).is_none(),
            },
    {
        let ghost names = self.street_names(world.streets_view());
        let mut k: usize = 0;
        while k < self.streets.len()
            invariant
                world.wf(),
                self.bounded(world.streets_view().len(), world.numbers_view().len()),
                names == self.street_names(world.streets_view()),
                names.len() == self.streets@.len(),
                k <= names.len(),
                forall|j: int| 0 <= j < k ==> !same_folded(#[trigger] names[j], street@),
            decreases names.len() - k,
        {
            proof {
                assert(self.streets_view()[k as int].bounded(world.streets_view().len(), world.numbers_view().len()));
            }
            let key = world.unique_streets.get(self.streets[k].index as usize);
            if equals_folded(key.as_str(), street) {
                proof {
                    assert(first_folded(names, street@, k as int));
                    lemma_first_folded_index(names, street@, k as int);
                }
                return Some(&self.streets[k]);
            }
            k = k + 1;
        }
        proof {
            lemma_no_folded_index(names, street@);
        }
        None
    }
}

impl City {
    /// The keys of the postal areas, in stored order.
    pub open spec fn zip_codes(&self) -> Seq<Seq<char>> {
        self.areas_view().map_values(|a: PostalArea| a.code_view())
    }

    /// The first of the postal areas whose key equals `q` when both are lowered.
    pub open spec fn area_named(&self, q: Seq<char>) -> Option<PostalArea> {
        match first_folded_index(self.zip_codes(), q) {
            Some(k) => Some(self.areas_view()[k]),
            None => None,
        }
    }

    /// The keys of the postal areas that start with `prefix`, both lowered, in
    /// stored order.
    pub fn iter_zips_prefixed(&self, prefix: &str) -> (r: Vec<String>)
        requires
            true,
        ensures
            views(r@) == prefixed(self.zip_codes(), prefix@),
            prefix@.len() == 0 ==> views(r@) == self.zip_codes(),
    {
        let ghost names = self.zip_codes();
        let ghost pred = |n: Seq<char>| folded_prefix(prefix@, n);
        let mut out: Vec<String> = Vec::new();
        let mut k: usize = 0;
        while k < self.areas.len()
            invariant
                
                names == self.zip_codes(),
                names.len() == self.areas@.len(),
                pred == (|n: Seq<char>| folded_prefix(prefix@, n)),
                k <= names.len(),
                views(out@) == names.subrange(0, k as int).filter(pred),
                k > 0 && prefix@.len() == 0 ==> lower_of(prefix@).len() == 0,
            decreases names.len() - k,
        {
            proof {
                assert(names.subrange(0, k + 1).drop_last() =~= names.subrange(0, k as int));
                assert(names.subrange(0, k + 1).last() == names[k as int]);
                
            }
            let key = &self.areas[k].code;
            let matched = starts_with_folded(key.as_str(), prefix);
            proof {
                assert(key@ == names[k as int]);
                assert(names.subrange(0, k + 1) =~= names.subrange(0, k as int).push(names[k as int]));
                names.subrange(0, k as int).lemma_filter_push(names[k as int], pred);
                assert(pred(names[k as int]) == matched);
            }
            if matched {
                let ghost before = out@;
                out.push(key.clone());
                proof {
                    assert(views(out@) =~= views(before).push(names[k as int]));
                }
            }
            k = k + 1;
        }
        proof {
            assert(names.subrange(0, names.len() as int) =~= names);
            lemma_prefixed_all(names, prefix@);
            if names.len() == 0 {
                assert(names.filter(pred) =~= names) by {
                    reveal(Seq::filter);
                }
            }
        }
        out
    }

    /// The first of the postal areas whose key equals `zip` when both are lowered.
    pub fn get_postal_area(&self, zip: &str) -> (r: Option<&PostalArea>)
        requires
            true,
        ensures
            match r {
                Some(x) => self.area_named(zip@) == Some(*x),
                None => self.area_named(zip@).is_none(),
            },
    {
        let ghost names = self.zip_codes();
        let mut k: usize = 0;
        while k < self.areas.len()
            invariant
                
                names == self.zip_codes(),
                names.len() == self.areas@.len(),
                k <= names.len(),
                forall|j: int| 0 <= j < k ==> !same_folded(#[trigger] names[j], zip@),
            decreases names.len() - k,
        {
            proof {
                
            }
            let key = &self.areas[k].code;
            if equals_folded(key.as_str(), zip) {
                proof {
                    assert(first_folded(names, zip@, k as int));
                    lemma_first_folded_index(names, zip@, k as int);
                }
                return Some(&self.areas[k]);
            }
            k = k + 1;
        }
        proof {
            lemma_no_folded_index(names, zip@);
        }
        None
    }
}

impl Country {
    /// The keys of the cities, in stored order.
    pub open spec fn city_names(&self) -> Seq<Seq<char>> {
        self.cities_view().map_values(|c: City| c.name_view())
    }

    /// The first of the cities whose key equals `q` when both are lowered.
    pub open spec fn city_named(&self, q: Seq<char>) -> Option<City> {
        match first_folded_index(self.city_names(), q) {
            Some(k) => Some(self.cities_view()[k]),
            None => None,
        }
    }

    /// The keys of the cities that start with `prefix`, both lowered, in
    /// stored order.
    pub fn iter_cities_prefixed(&self, prefix: &str) -> (r: Vec<String>)
        requires
            true,
        ensures
            views(r@) == prefixed(self.city_names(), prefix@),
            prefix@.len() == 0 ==> views(r@) == self.city_names(),
    {
        let ghost names = self.city_names();
        let ghost pred = |n: Seq<char>| folded_prefix(prefix@, n);
        let mut out: Vec<String> = Vec::new();
        let mut k: usize = 0;
        while k < self.cities.len()
            invariant
                
                names == self.city_names(),
                names.len() == self.cities@.len(),
                pred == (|n: Seq<char>| folded_prefix(prefix@, n)),
                k <= names.len(),
                views(out@) == names.subrange(0, k as int).filter(pred),
                k > 0 && prefix@.len() == 0 ==> lower_of(prefix@).len() == 0,
            decreases names.len() - k,
        {
            proof {
                assert(names.subrange(0, k + 1).drop_last() =~= names.subrange(0, k as int));
                assert(names.subrange(0, k + 1).last() == names[k as int]);
                
            }
            let key = &self.cities[k].name;
            let matched = starts_with_folded(key.as_str(), prefix);
            proof {
                assert(key@ == names[k as int]);
                assert(names.subrange(0, k + 1) =~= names.subrange(0, k as int).push(names[k as int]));
                names.subrange(0, k as int).lemma_filter_push(names[k as int], pred);
                assert(pred(names[k as int]) == matched);
            }
            if matched {
                let ghost before = out@;
                out.push(key.clone());
                proof {
                    assert(views(out@) =~= views(before).push(names[k as int]));
                }
            }
            k = k + 1;
        }
        proof {
            assert(names.subrange(0, names.len() as int) =~= names);
            lemma_prefixed_all(names, prefix@);
            if names.len() == 0 {
                assert(names.filter(pred) =~= names) by {
                    reveal(Seq::filter);
                }
            }
        }
        out
    }

    /// The first of the cities whose key equals `city_name` when both are lowered.
    pub fn get_city(&self, city_name: &str) -> (r: Option<&City>)
        requires
            true,
        ensures
            match r {
                Some(x) => self.city_named(city_name@) == Some(*x),
                None => self.city_named(city_name@).is_none(),
            },
    {
        let ghost names = self.city_names();
        let mut k: usize = 0;
        while k < self.cities.len()
            invariant
                
                names == self.city_names(),
                names.len() == self.cities@.len(),
                k <= names.len(),
                forall|j: int| 0 <= j < k ==> !same_folded(#[trigger] names[j], city_name@),
            decreases names.len() - k,
        {
            proof {
                
            }
            let key = &self.cities[k].name;
            if equals_folded(key.as_str(), city_name) {
                proof {
                    assert(first_folded(names, city_name@, k as int));
                    lemma_first_folded_index(names, city_name@, k as int);
                }
                return Some(&self.cities[k]);
            }
            k = k + 1;
        }
        proof {
            lemma_no_folded_index(names, city_name@);
        }
        None
    }
}

impl World {
    /// The keys of the countries, in stored order.
    pub open spec fn country_codes(&self) -> Seq<Seq<char>> {
        self.countries_view().map_values(|c: Country| c.code_view())
    }

    /// The first of the countries whose key equals `q` when both are lowered.
    pub open spec fn country_named(&self, q: Seq<char>) -> Option<Country> {
        match first_folded_index(self.country_codes(), q) {
            Some(k) => Some(self.countries_view()[k]),
            None => None,
        }
    }

    /// The keys of the countries that start with `prefix`, both lowered, in
    /// stored order.
    pub fn iter_countries_prefixed(&self, prefix: &str) -> (r: Vec<String>)
        requires
            true,
        ensures
            views(r@) == prefixed(self.country_codes(), prefix@),
            prefix@.len() == 0 ==> views(r@) == self.country_codes(),
    {
        let ghost names = self.country_codes();
        let ghost pred = |n: Seq<char>| folded_prefix(prefix@, n);
        let mut out: Vec<String> = Vec::new();
        let mut k: usize = 0;
        while k < self.countries.len()
            invariant
                
                names == self.country_codes(),
                names.len() == self.countries@.len(),
                pred == (|n: Seq<char>| folded_prefix(prefix@, n)),
                k <= names.len(),
                views(out@) == names.subrange(0, k as int).filter(pred),
                k > 0 && prefix@.len() == 0 ==> lower_of(prefix@).len() == 0,
            decreases names.len() - k,
        {
            proof {
                assert(names.subrange(0, k + 1).drop_last() =~= names.subrange(0, k as int));
                assert(names.subrange(0, k + 1).last() == names[k as int]);
                
            }
            let key = &self.countries[k].code;
            let matched = starts_with_folded(key.as_str(), prefix);
            proof {
                assert(key@ == names[k as int]);
                assert(names.subrange(0, k + 1) =~= names.subrange(0, k as int).push(names[k as int]));
                names.subrange(0, k as int).lemma_filter_push(names[k as int], pred);
                assert(pred(names[k as int]) == matched);
            }
            if matched {
                let ghost before = out@;
                out.push(key.clone());
                proof {
                    assert(views(out@) =~= views(before).push(names[k as int]));
                }
            }
            k = k + 1;
        }
        proof {
            assert(names.subrange(0, names.len() as int) =~= names);
            lemma_prefixed_all(names, prefix@);
            if names.len() == 0 {
                assert(names.filter(pred) =~= names) by {
                    reveal(Seq::filter);
                }
            }
        }
        out
    }

    /// The first of the countries whose key equals `country_code` when both are lowered.
    pub fn get_country(&self, country_code: String) -> (r: Option<&Country>)
        requires
            true,
        ensures
            match r {
                Some(x) => self.country_named(country_code@) == Some(*x),
                None => self.country_named(country_code@).is_none(),
            },
    {
        let ghost names = self.country_codes();
        let mut k: usize = 0;
        while k < self.countries.len()
            invariant
                
                names == self.country_codes(),
                names.len() == self.countries@.len(),
                k <= names.len(),
                forall|j: int| 0 <= j < k ==> !same_folded(#[trigger] names[j], country_code@),
            decreases names.len() - k,
        {
            proof {
                
            }
            let key = &self.countries[k].code;
            if equals_folded(key.as_str(), country_code.as_str()) {
                proof {
                    assert(first_folded(names, country_code@, k as int));
                    lemma_first_folded_index(names, country_code@, k as int);
                }
                return Some(&self.countries[k]);
            }
            k = k + 1;
        }
        proof {
            lemma_no_folded_index(names, country_code@);
        }
        None
    }
}


pub proof fn lemma_first_folded_some(keys: Seq<Seq<char>>, q: Seq<char>)
    ensures
        match first_folded_index(keys, q) {
            Some(k) => first_folded(keys, q, k),
            None => true,
        },
{
}

impl World {
    /// A postal area found by lookup points into the root tables.
    pub proof fn lemma_area_bounded(&self, cc: Seq<char>, ci: Seq<char>, zip: Seq<char>)
        requires
            self.wf(),
        ensures
            match self.country_named(cc) {
                Some(c) => match c.city_named(ci) {
                    Some(city) => match city.area_named(zip) {
                        Some(a) => a.bounded(self.streets_view().len(), self.numbers_view().len()),
                        None => true,
                    },
                    None => true,
                },
                None => true,
            },
    {
        lemma_first_folded_some(self.country_codes(), cc);
        if let Some(k) = first_folded_index(self.country_codes(), cc) {
            let c = self.countries_view()[k];
            assert(c.bounded(self.streets_view().len(), self.numbers_view().len()));
            lemma_first_folded_some(c.city_names(), ci);
            if let Some(j) = first_folded_index(c.city_names(), ci) {
                let city = c.cities_view()[j];
                assert(city.bounded(self.streets_view().len(), self.numbers_view().len()));
                lemma_first_folded_some(city.zip_codes(), zip);
                if let Some(i) = first_folded_index(city.zip_codes(), zip) {
                    assert(city.areas_view()[i].bounded(self.streets_view().len(), self.numbers_view().len()));
                }
            }
        }
    }

    /// A street found by lookup points into the house number table.
    pub proof fn lemma_street_bounded(&self, a: PostalArea, s: Seq<char>)
        requires
            a.bounded(self.streets_view().len(), self.numbers_view().len()),
        ensures
            match a.street_named(s, self.streets_view()) {
                Some(st) => forall|k: int|
                    0 <= k < st.numbers().len() ==> (#[trigger] st.numbers()[k]).in_range(self.numbers_view().len()),
                None => true,
            },
    {
        lemma_first_folded_some(a.street_names(self.streets_view()), s);
        if let Some(k) = first_folded_index(a.street_names(self.streets_view()), s) {
            assert(a.streets_view()[k].bounded(self.streets_view().len(), self.numbers_view().len()));
        }
    }
}


impl World {
    /// The index stores house number `hn` under some street.
    pub open spec fn stores(&self, hn: Housenumber) -> bool {
        exists|c: int, ci: int, a: int, st: int, q: int|
            0 <= c < self.countries_view().len()
                && 0 <= ci < self.countries_view()[c].cities_view().len()
                && 0 <= a < self.countries_view()[c].cities_view()[ci].areas_view().len()
                && 0 <= st < self.countries_view()[c].cities_view()[ci].areas_view()[a].streets_view().len()
                && 0 <= q < self.countries_view()[c].cities_view()[ci].areas_view()[a].streets_view()[st].numbers().len()
                && #[trigger] self.countries_view()[c].cities_view()[ci].areas_view()[a].streets_view()[st].numbers()[q] == hn
    }

    /// Both root tables ascend strictly.
    pub proof fn lemma_tables_ascending(&self)
        requires
            self.wf(),
        ensures
            strictly_ascending(self.streets_view()),
            strictly_ascending(self.numbers_view()),
    {
    }

    /// A stored plain number is never also interned as text.
    pub proof fn lemma_clean_not_interned(&self, n: u16)
        requires
            self.wf(),
            self.stores(Housenumber::CleanInt(n)),
        ensures
            !self.numbers_view().contains(decimal(n as nat)),
    {
        assert(is_clean(decimal(n as nat)));
        if self.numbers_view().contains(decimal(n as nat)) {
            let i = choose|i: int| 0 <= i < self.numbers_view().len() && self.numbers_view()[i] == decimal(n as nat);
            assert(!is_clean(self.numbers_view()[i]));
        }
    }

    /// A stored table position points into the table, at a text that is not
    /// a plain number.
    pub proof fn lemma_index_interned(&self, i: u32)
        requires
            self.wf(),
            self.stores(Housenumber::Index(i)),
        ensures
            i < self.numbers_view().len(),
            !is_clean(self.numbers_view()[i as int]),
    {
        let (c, ci, a, st, q) = choose|c: int, ci: int, a: int, st: int, q: int|
            0 <= c < self.countries_view().len()
                && 0 <= ci < self.countries_view()[c].cities_view().len()
                && 0 <= a < self.countries_view()[c].cities_view()[ci].areas_view().len()
                && 0 <= st < self.countries_view()[c].cities_view()[ci].areas_view()[a].streets_view().len()
                && 0 <= q < self.countries_view()[c].cities_view()[ci].areas_view()[a].streets_view()[st].numbers().len()
                && #[trigger] self.countries_view()[c].cities_view()[ci].areas_view()[a].streets_view()[st].numbers()[q] == Housenumber::Index(i);
        let country = self.countries_view()[c];
        let ns = self.streets_view().len();
        let nh = self.numbers_view().len();
        assert(country.bounded(ns, nh));
        assert(country.cities_view()[ci].bounded(ns, nh));
        assert(country.cities_view()[ci].areas_view()[a].bounded(ns, nh));
        assert(country.cities_view()[ci].areas_view()[a].streets_view()[st].bounded(ns, nh));
        assert(country.cities_view()[ci].areas_view()[a].streets_view()[st].numbers()[q].in_range(nh));
    }
}



// ---------------------------------------------------------------------------
// Listing every address
// ---------------------------------------------------------------------------

impl Street {
    /// Appends an address for every house number of the street, under the
    /// given country, city and postal code.
    pub fn collect(&self, country: &String, city: &String, zip: &String, world: &World, out: &mut Vec<Address>)
        requires
            world.wf(),
            self.bounded(world.streets_view().len(), world.numbers_view().len()),
        ensures
            forall|e: Entry| #[trigger] entries_of(final(out)@).contains(e) <==> entries_of(old(out)@).contains(e) || (
                e.0 == country@ && e.1 == city@ && e.2 == zip@ && e.3 == world.streets_view()[self.street_id() as int]
                    && self.has_number(e.4, world.numbers_view())),
    {
        let name = world.unique_streets.get(self.index as usize);
        let ghost nums = world.numbers_view();
        let mut q: usize = 0;
        while q < self.housenumbers.len()
            invariant
                world.wf(),
                self.bounded(world.streets_view().len(), world.numbers_view().len()),
                nums == world.numbers_view(),
                name@ == world.streets_view()[self.street_id() as int],
                q <= self.housenumbers@.len(),
                forall|e: Entry| #[trigger] entries_of(out@).contains(e) <==> entries_of(old(out)@).contains(e) || (
                    e.0 == country@ && e.1 == city@ && e.2 == zip@ && e.3 == name@
                        && exists|k: int| 0 <= k < q && (#[trigger] self.numbers()[k]).text(nums) == e.4),
            decreases self.housenumbers@.len() - q,
        {
            proof {
                assert(self.numbers()[q as int].in_range(nums.len()));
            }
            let text = world.render_housenumber(self.housenumbers[q]);
            let a = Address { country: country.clone(), city: city.clone(), postcode: zip.clone(), street: name.clone(), housenumber: text };
            let ghost before = out@;
            out.push(a);
            proof {
                assert forall|e: Entry| #[trigger] entries_of(out@).contains(e) <==> entries_of(old(out)@).contains(e) || (
                    e.0 == country@ && e.1 == city@ && e.2 == zip@ && e.3 == name@
                        && exists|k: int| 0 <= k < q + 1 && (#[trigger] self.numbers()[k]).text(nums) == e.4) by {
                    lemma_entries_push(before, a, e);
                    if e.0 == country@ && e.1 == city@ && e.2 == zip@ && e.3 == name@ && exists|k: int| 0 <= k < q + 1 && (#[trigger] self.numbers()[k]).text(nums) == e.4 {
                        let k = choose|k: int| 0 <= k < q + 1 && (#[trigger] self.numbers()[k]).text(nums) == e.4;
                        if k == q {
                            assert(a.entry() == e);
                        }
                    }
                }
            }
            q = q + 1;
        }
    }
}

impl PostalArea {
    /// Appends an address for every entry of the area.
    pub fn collect(&self, country: &String, city: &String, world: &World, out: &mut Vec<Address>)
        requires
            world.wf(),
            self.bounded(world.streets_view().len(), world.numbers_view().len()),
        ensures
            forall|e: Entry| #[trigger] entries_of(final(out)@).contains(e) <==> entries_of(old(out)@).contains(e) || (
                e.0 == country@ && e.1 == city@ && e.2 == self.code_view()
                    && self.has(e.3, e.4, world.streets_view(), world.numbers_view())),
    {
        let ghost ws = world.streets_view();
        let ghost nums = world.numbers_view();
        let mut i: usize = 0;
        while i < self.streets.len()
            invariant
                world.wf(),
                self.bounded(world.streets_view().len(), world.numbers_view().len()),
                ws == world.streets_view(),
                nums == world.numbers_view(),
                i <= self.streets@.len(),
                forall|e: Entry| #[trigger] entries_of(out@).contains(e) <==> entries_of(old(out)@).contains(e) || (
                    e.0 == country@ && e.1 == city@ && e.2 == self.code@
                        && exists|k: int| 0 <= k < i && #[trigger] street_matches(self.streets@[k], e.3, e.4, ws, nums)),
            decreases self.streets@.len() - i,
        {
            proof {
                assert(self.streets_view()[i as int].bounded(ws.len(), nums.len()));
            }
            let ghost before = out@;
            self.streets[i].collect(country, city, &self.code, world, out);
            proof {
                assert forall|e: Entry| #[trigger] entries_of(out@).contains(e) <==> entries_of(old(out)@).contains(e) || (
                    e.0 == country@ && e.1 == city@ && e.2 == self.code@
                        && exists|k: int| 0 <= k < i + 1 && #[trigger] street_matches(self.streets@[k], e.3, e.4, ws, nums)) by {
                    if entries_of(out@).contains(e) && !entries_of(before).contains(e) {
                        assert(street_matches(self.streets@[i as int], e.3, e.4, ws, nums));
                    }
                    if e.0 == country@ && e.1 == city@ && e.2 == self.code@ && exists|k: int| 0 <= k < i + 1 && #[trigger] street_matches(self.streets@[k], e.3, e.4, ws, nums) {
                        let k = choose|k: int| 0 <= k < i + 1 && #[trigger] street_matches(self.streets@[k], e.3, e.4, ws, nums);
                        if k == i {
                            assert(entries_of(out@).contains(e));
                        } else {
                            assert(entries_of(before).contains(e));
                        }
                    }
                }
            }
            i = i + 1;
        }
        proof {
            assert forall|e: Entry| #[trigger] entries_of(out@).contains(e) <==> entries_of(old(out)@).contains(e) || (
                e.0 == country@ && e.1 == city@ && e.2 == self.code_view()
                    && self.has(e.3, e.4, world.streets_view(), world.numbers_view())) by {
                if self.has(e.3, e.4, ws, nums) {
                    let k = choose|k: int| 0 <= k < self.streets_view().len() && #[trigger] street_matches(self.streets_view()[k], e.3, e.4, ws, nums);
                    assert(street_matches(self.streets@[k], e.3, e.4, ws, nums));
                }
            }
        }
    }
}

impl City {
    /// Appends an address for every entry of the city.
    pub fn collect(&self, country: &String, world: &World, out: &mut Vec<Address>)
        requires
            world.wf(),
            self.bounded(world.streets_view().len(), world.numbers_view().len()),
        ensures
            forall|e: Entry| #[trigger] entries_of(final(out)@).contains(e) <==> entries_of(old(out)@).contains(e) || (
                e.0 == country@ && e.1 == self.name_view()
                    && self.has(e.2, e.3, e.4, world.streets_view(), world.numbers_view())),
    {
        let ghost ws = world.streets_view();
        let ghost nums = world.numbers_view();
        let mut i: usize = 0;
        while i < self.areas.len()
            invariant
                world.wf(),
                self.bounded(world.streets_view().len(), world.numbers_view().len()),
                ws == world.streets_view(),
                nums == world.numbers_view(),
                i <= self.areas@.len(),
                forall|e: Entry| #[trigger] entries_of(out@).contains(e) <==> entries_of(old(out)@).contains(e) || (
                    e.0 == country@ && e.1 == self.name@
                        && exists|k: int| 0 <= k < i && #[trigger] area_matches(self.areas@[k], e.2, e.3, e.4, ws, nums)),
            decreases self.areas@.len() - i,
        {
            proof {
                assert(self.areas_view()[i as int].bounded(ws.len(), nums.len()));
            }
            let ghost before = out@;
            self.areas[i].collect(country, &self.name, world, out);
            proof {
                assert forall|e: Entry| #[trigger] entries_of(out@).contains(e) <==> entries_of(old(out)@).contains(e) || (
                    e.0 == country@ && e.1 == self.name@
                        && exists|k: int| 0 <= k < i + 1 && #[trigger] area_matches(self.areas@[k], e.2, e.3, e.4, ws, nums)) by {
                    if entries_of(out@).contains(e) && !entries_of(before).contains(e) {
                        assert(area_matches(self.areas@[i as int], e.2, e.3, e.4, ws, nums));
                    }
                    if e.0 == country@ && e.1 == self.name@ && exists|k: int| 0 <= k < i + 1 && #[trigger] area_matches(self.areas@[k], e.2, e.3, e.4, ws, nums) {
                        let k = choose|k: int| 0 <= k < i + 1 && #[trigger] area_matches(self.areas@[k], e.2, e.3, e.4, ws, nums);
                        if k == i {
                            assert(entries_of(out@).contains(e));
                        } else {
                            assert(entries_of(before).contains(e));
                        }
                    }
                }
            }
            i = i + 1;
        }
        proof {
            assert forall|e: Entry| #[trigger] entries_of(out@).contains(e) <==> entries_of(old(out)@).contains(e) || (
                e.0 == country@ && e.1 == self.name_view()
                    && self.has(e.2, e.3, e.4, world.streets_view(), world.numbers_view())) by {
                if self.has(e.2, e.3, e.4, ws, nums) {
                    let k = choose|k: int| 0 <= k < self.areas_view().len() && #[trigger] area_matches(self.areas_view()[k], e.2, e.3, e.4, ws, nums);
                    assert(area_matches(self.areas@[k], e.2, e.3, e.4, ws, nums));
                }
            }
        }
    }
}

impl Country {
    /// Appends an address for every entry of the country.
    pub fn collect(&self, world: &World, out: &mut Vec<Address>)
        requires
            world.wf(),
            self.bounded(world.streets_view().len(), world.numbers_view().len()),
        ensures
            forall|e: Entry| #[trigger] entries_of(final(out)@).contains(e) <==> entries_of(old(out)@).contains(e) || (
                e.0 == self.code_view()
                    && self.has(e.1, e.2, e.3, e.4, world.streets_view(), world.numbers_view())),
    {
        let ghost ws = world.streets_view();
        let ghost nums = world.numbers_view();
        let mut i: usize = 0;
        while i < self.cities.len()
            invariant
                world.wf(),
                self.bounded(world.streets_view().len(), world.numbers_view().len()),
                ws == world.streets_view(),
                nums == world.numbers_view(),
                i <= self.cities@.len(),
                forall|e: Entry| #[trigger] entries_of(out@).contains(e) <==> entries_of(old(out)@).contains(e) || (
                    e.0 == self.code@
                        && exists|k: int| 0 <= k < i && #[trigger] city_matches(self.cities@[k], e.1, e.2, e.3, e.4, ws, nums)),
            decreases self.cities@.len() - i,
        {
            proof {
                assert(self.cities_view()[i as int].bounded(ws.len(), nums.len()));
            }
            let ghost before = out@;
            self.cities[i].collect(&self.code, world, out);
            proof {
                assert forall|e: Entry| #[trigger] entries_of(out@).contains(e) <==> entries_of(old(out)@).contains(e) || (
                    e.0 == self.code@
                        && exists|k: int| 0 <= k < i + 1 && #[trigger] city_matches(self.cities@[k], e.1, e.2, e.3, e.4, ws, nums)) by {
                    if entries_of(out@).contains(e) && !entries_of(before).contains(e) {
                        assert(city_matches(self.cities@[i as int], e.1, e.2, e.3, e.4, ws, nums));
                    }
                    if e.0 == self.code@ && exists|k: int| 0 <= k < i + 1 && #[trigger] city_matches(self.cities@[k], e.1, e.2, e.3, e.4, ws, nums) {
                        let k = choose|k: int| 0 <= k < i + 1 && #[trigger] city_matches(self.cities@[k], e.1, e.2, e.3, e.4, ws, nums);
                        if k == i {
                            assert(entries_of(out@).contains(e));
                        } else {
                            assert(entries_of(before).contains(e));
                        }
                    }
                }
            }
            i = i + 1;
        }
        proof {
            assert forall|e: Entry| #[trigger] entries_of(out@).contains(e) <==> entries_of(old(out)@).contains(e) || (
                e.0 == self.code_view()
                    && self.has(e.1, e.2, e.3, e.4, world.streets_view(), world.numbers_view())) by {
                if self.has(e.1, e.2, e.3, e.4, ws, nums) {
                    let k = choose|k: int| 0 <= k < self.cities_view().len() && #[trigger] city_matches(self.cities_view()[k], e.1, e.2, e.3, e.4, ws, nums);
                    assert(city_matches(self.cities@[k], e.1, e.2, e.3, e.4, ws, nums));
                }
            }
        }
    }
}

impl World {
    /// Every address of the index, one per entry.
    pub fn addresses(&self) -> (r: Vec<Address>)
        requires
            self.wf(),
        ensures
            entries_of(r@) == self.entries(),
    {
        let ghost ws = self.streets_view();
        let ghost nums = self.numbers_view();
        let mut out: Vec<Address> = Vec::new();
        let mut i: usize = 0;
        while i < self.countries.len()
            invariant
                self.wf(),
                ws == self.streets_view(),
                nums == self.numbers_view(),
                i <= self.countries@.len(),
                forall|e: Entry| #[trigger] entries_of(out@).contains(e) <==> exists|k: int|
                    0 <= k < i && #[trigger] country_matches(self.countries@[k], e.0, e.1, e.2, e.3, e.4, ws, nums),
            decreases self.countries@.len() - i,
        {
            proof {
                assert(self.countries_view()[i as int].bounded(ws.len(), nums.len()));
            }
            let ghost before = out@;
            self.countries[i].collect(self, &mut out);
            proof {
                assert forall|e: Entry| #[trigger] entries_of(out@).contains(e) <==> exists|k: int|
                    0 <= k < i + 1 && #[trigger] country_matches(self.countries@[k], e.0, e.1, e.2, e.3, e.4, ws, nums) by {
                    if entries_of(out@).contains(e) && !entries_of(before).contains(e) {
                        assert(country_matches(self.countries@[i as int], e.0, e.1, e.2, e.3, e.4, ws, nums));
                    }
                    if exists|k: int| 0 <= k < i + 1 && #[trigger] country_matches(self.countries@[k], e.0, e.1, e.2, e.3, e.4, ws, nums) {
                        let k = choose|k: int| 0 <= k < i + 1 && #[trigger] country_matches(self.countries@[k], e.0, e.1, e.2, e.3, e.4, ws, nums);
                        if k == i {
                            assert(entries_of(out@).contains(e));
                        } else {
                            assert(entries_of(before).contains(e));
                        }
                    }
                }
            }
            i = i + 1;
        }
        proof {
            assert forall|e: Entry| #[trigger] entries_of(out@).contains(e) <==> self.entries().contains(e) by {
                assert(self.entries().contains(e) == self.has(e.0, e.1, e.2, e.3, e.4));
                if entries_of(out@).contains(e) {
                    let k = choose|k: int| 0 <= k < self.countries@.len() && #[trigger] country_matches(self.countries@[k], e.0, e.1, e.2, e.3, e.4, ws, nums);
                    assert(country_matches(self.countries_view()[k], e.0, e.1, e.2, e.3, e.4, self.streets_view(), self.numbers_view()));
                }
                if self.has(e.0, e.1, e.2, e.3, e.4) {
                    let k = choose|k: int| 0 <= k < self.countries_view().len() && #[trigger] country_matches(self.countries_view()[k], e.0, e.1, e.2, e.3, e.4, ws, nums);
                    assert(country_matches(self.countries@[k], e.0, e.1, e.2, e.3, e.4, ws, nums));
                }
            }
            assert(entries_of(out@) =~= self.entries());
        }
        out
    }
}


impl World {
    /// An entry of the index names a street of the street table, and its
    /// house number is a plain number or in the house number table.
    pub proof fn lemma_entry_parts(&self, e: Entry)
        requires
            self.wf(),
            self.has(e.0, e.1, e.2, e.3, e.4),
        ensures
            self.streets_view().contains(e.3),
            is_clean(e.4) || self.numbers_view().contains(e.4),
    {
        let ws = self.streets_view();
        let nums = self.numbers_view();
        let c = choose|c: int| 0 <= c < self.countries_view().len()
            && #[trigger] country_matches(self.countries_view()[c], e.0, e.1, e.2, e.3, e.4, ws, nums);
        let country = self.countries_view()[c];
        assert(country.bounded(ws.len(), nums.len()));
        let ci = choose|ci: int| 0 <= ci < country.cities_view().len()
            && #[trigger] city_matches(country.cities_view()[ci], e.1, e.2, e.3, e.4, ws, nums);
        let city = country.cities_view()[ci];
        assert(city.bounded(ws.len(), nums.len()));
        let a = choose|a: int| 0 <= a < city.areas_view().len()
            && #[trigger] area_matches(city.areas_view()[a], e.2, e.3, e.4, ws, nums);
        let area = city.areas_view()[a];
        assert(area.bounded(ws.len(), nums.len()));
        let st = choose|st: int| 0 <= st < area.streets_view().len()
            && #[trigger] street_matches(area.streets_view()[st], e.3, e.4, ws, nums);
        let street = area.streets_view()[st];
        assert(street.bounded(ws.len(), nums.len()));
        assert(ws[street.street_id() as int] == e.3);
        let q = choose|q: int| 0 <= q < street.numbers().len() && (#[trigger] street.numbers()[q]).text(nums) == e.4;
        assert(street.numbers()[q].in_range(nums.len()));
        match street.numbers()[q] {
            Housenumber::CleanInt(n) => {
                assert(is_clean(e.4));
            },
            Housenumber::Index(i) => {
                assert(nums[i as int] == e.4);
            },
        }
    }
}


/// No two keys are equal once lowered.
pub open spec fn folded_distinct(keys: Seq<Seq<char>>) -> bool {
    forall|a: int, b: int| 0 <= a < b < keys.len() ==> !same_folded(#[trigger] keys[a], #[trigger] keys[b])
}

/// Where keys stay distinct once lowered, looking up a key finds it.
pub proof fn lemma_lookup_finds(keys: Seq<Seq<char>>, k: int)
    requires
        folded_distinct(keys),
        0 <= k < keys.len(),
    ensures
        first_folded_index(keys, keys[k]) == Some(k),
{
    assert forall|j: int| 0 <= j < k implies !same_folded(#[trigger] keys[j], keys[k]) by {
        assert(!same_folded(keys[j], keys[k]));
    }
    lemma_first_folded_index(keys, keys[k], k);
}

impl World {
    /// At no level do two siblings have keys that are equal once lowered.
    pub open spec fn lookups_unambiguous(&self) -> bool {
        &&& folded_distinct(self.country_codes())
        &&& forall|c: int| 0 <= c < self.countries_view().len() ==> {
            let country = #[trigger] self.countries_view()[c];
            &&& folded_distinct(country.city_names())
            &&& forall|ci: int| 0 <= ci < country.cities_view().len() ==> {
                let city = #[trigger] country.cities_view()[ci];
                &&& folded_distinct(city.zip_codes())
                &&& forall|a: int| 0 <= a < city.areas_view().len()
                    ==> folded_distinct((#[trigger] city.areas_view()[a]).street_names(self.streets_view()))
            }
        }
    }

    /// Every entry is found by looking up its own country, city, postal
    /// code and street, where no lookup is ambiguous: the street found
    /// holds the entry's house number.
    pub proof fn lemma_entry_reachable(&self, e: Entry)
        requires
            self.wf(),
            self.lookups_unambiguous(),
            self.entries().contains(e),
        ensures
            match self.country_named(e.0) {
                Some(c) => match c.city_named(e.1) {
                    Some(ci) => match ci.area_named(e.2) {
                        Some(a) => match a.street_named(e.3, self.streets_view()) {
                            Some(st) => st.number_texts(self.numbers_view()).contains(e.4),
                            None => false,
                        },
                        None => false,
                    },
                    None => false,
                },
                None => false,
            },
    {
        let ws = self.streets_view();
        let nums = self.numbers_view();
        assert(self.has(e.0, e.1, e.2, e.3, e.4));
        let c = choose|c: int| 0 <= c < self.countries_view().len()
            && #[trigger] country_matches(self.countries_view()[c], e.0, e.1, e.2, e.3, e.4, ws, nums);
        let country = self.countries_view()[c];
        assert(self.country_codes()[c] == e.0);
        lemma_lookup_finds(self.country_codes(), c);
        let ci = choose|ci: int| 0 <= ci < country.cities_view().len()
            && #[trigger] city_matches(country.cities_view()[ci], e.1, e.2, e.3, e.4, ws, nums);
        let city = country.cities_view()[ci];
        assert(country.city_names()[ci] == e.1);
        lemma_lookup_finds(country.city_names(), ci);
        let a = choose|a: int| 0 <= a < city.areas_view().len()
            && #[trigger] area_matches(city.areas_view()[a], e.2, e.3, e.4, ws, nums);
        let area = city.areas_view()[a];
        assert(city.zip_codes()[a] == e.2);
        lemma_lookup_finds(city.zip_codes(), a);
        let st = choose|st: int| 0 <= st < area.streets_view().len()
            && #[trigger] street_matches(area.streets_view()[st], e.3, e.4, ws, nums);
        let street = area.streets_view()[st];
        assert(area.street_names(ws)[st] == e.3);
        lemma_lookup_finds(area.street_names(ws), st);
        let q = choose|q: int| 0 <= q < street.numbers().len() && (#[trigger] street.numbers()[q]).text(nums) == e.4;
        assert(street.number_texts(nums)[q] == e.4);
    }
}


impl World {
    /// What the lookup of a path holds is an entry of the index, under the
    /// stored keys, which equal the looked-up ones once both are lowered.
    pub proof fn lemma_lookup_sound(&self, c0: Seq<char>, c1: Seq<char>, c2: Seq<char>, c3: Seq<char>, h: Seq<char>)
        requires
            self.wf(),
        ensures
            match self.country_named(c0) {
                Some(c) => match c.city_named(c1) {
                    Some(ci) => match ci.area_named(c2) {
                        Some(a) => match a.street_named(c3, self.streets_view()) {
                            Some(st) => st.number_texts(self.numbers_view()).contains(h) ==> {
                                &&& self.entries().contains(
                                    (c.code_view(), ci.name_view(), a.code_view(), self.streets_view()[st.street_id() as int], h),
                                )
                                &&& same_folded(c.code_view(), c0)
                                &&& same_folded(ci.name_view(), c1)
                                &&& same_folded(a.code_view(), c2)
                                &&& same_folded(self.streets_view()[st.street_id() as int], c3)
                            },
                            None => true,
                        },
                        None => true,
                    },
                    None => true,
                },
                None => true,
            },
    {
        let ws = self.streets_view();
        let nums = self.numbers_view();
        lemma_first_folded_some(self.country_codes(), c0);
        if let Some(k) = first_folded_index(self.country_codes(), c0) {
            let c = self.countries_view()[k];
            assert(c.bounded(ws.len(), nums.len()));
            lemma_first_folded_some(c.city_names(), c1);
            if let Some(j) = first_folded_index(c.city_names(), c1) {
                let ci = c.cities_view()[j];
                assert(ci.bounded(ws.len(), nums.len()));
                lemma_first_folded_some(ci.zip_codes(), c2);
                if let Some(i) = first_folded_index(ci.zip_codes(), c2) {
                    let a = ci.areas_view()[i];
                    assert(a.bounded(ws.len(), nums.len()));
                    lemma_first_folded_some(a.street_names(ws), c3);
                    if let Some(m) = first_folded_index(a.street_names(ws), c3) {
                        let st = a.streets_view()[m];
                        assert(st.bounded(ws.len(), nums.len()));
                        if st.number_texts(nums).contains(h) {
                            let q = choose|q: int| 0 <= q < st.number_texts(nums).len() && st.number_texts(nums)[q] == h;
                            assert(st.numbers()[q].text(nums) == h);
                            assert(street_matches(st, ws[st.street_id() as int], h, ws, nums));
                            assert(area_matches(a, a.code_view(), ws[st.street_id() as int], h, ws, nums));
                            assert(city_matches(ci, ci.name_view(), a.code_view(), ws[st.street_id() as int], h, ws, nums));
                            assert(country_matches(c, c.code_view(), ci.name_view(), a.code_view(), ws[st.street_id() as int], h, ws, nums));
                            assert(self.has(c.code_view(), ci.name_view(), a.code_view(), ws[st.street_id() as int], h));
                        }
                    }
                }
            }
        }
    }
}


// ---------------------------------------------------------------------------
// Canonical form
// ---------------------------------------------------------------------------

/// Two strictly ascending sequences with the same elements are equal.
pub proof fn lemma_ascending_unique(a: Seq<Seq<char>>, b: Seq<Seq<char>>)
    requires
        strictly_ascending(a),
        strictly_ascending(b),
        forall|x: Seq<char>| a.contains(x) <==> b.contains(x),
    ensures
        a == b,
    decreases a.len(),
{
    if a.len() == 0 {
        if b.len() > 0 {
            assert(b.contains(b[0]));
        }
        assert(a =~= b);
    } else if b.len() == 0 {
        assert(a.contains(a[0]));
    } else {
        assert(a.contains(a[0]));
        assert(b.contains(b[0]));
        let j = choose|j: int| 0 <= j < b.len() && b[j] == a[0];
        let i = choose|i: int| 0 <= i < a.len() && a[i] == b[0];
        if a[0] != b[0] {
            assert(j > 0 && i > 0);
            assert(text_lt(b[0], b[j]));
            assert(text_lt(a[0], a[i]));
            lemma_lt_ne(b[0], a[0]);
        }
        let a1 = a.drop_first();
        let b1 = b.drop_first();
        assert forall|x: Seq<char>| a1.contains(x) <==> b1.contains(x) by {
            if a1.contains(x) {
                let p = choose|p: int| 0 <= p < a1.len() && a1[p] == x;
                assert(text_lt(a[0], a[p + 1]));
                lemma_lt_ne(a[0], x);
                assert(a.contains(x));
                let q = choose|q: int| 0 <= q < b.len() && b[q] == x;
                assert(q != 0);
                assert(b1[q - 1] == x);
            }
            if b1.contains(x) {
                let p = choose|p: int| 0 <= p < b1.len() && b1[p] == x;
                assert(text_lt(b[0], b[p + 1]));
                lemma_lt_ne(b[0], x);
                assert(b.contains(x));
                let q = choose|q: int| 0 <= q < a.len() && a[q] == x;
                assert(q != 0);
                assert(a1[q - 1] == x);
            }
        }
        assert forall|p: int, q: int| 0 <= p < q < a1.len() implies text_lt(#[trigger] a1[p], #[trigger] a1[q]) by {
            assert(text_lt(a[p + 1], a[q + 1]));
        }
        assert forall|p: int, q: int| 0 <= p < q < b1.len() implies text_lt(#[trigger] b1[p], #[trigger] b1[q]) by {
            assert(text_lt(b[p + 1], b[q + 1]));
        }
        lemma_ascending_unique(a1, b1);
        assert(a =~= seq![a[0]] + a1);
        assert(b =~= seq![b[0]] + b1);
    }
}

/// Sorted keys that are pairwise distinct ascend strictly.
pub proof fn lemma_ordered_distinct<T>(s: Seq<T>, key: spec_fn(T) -> Seq<char>)
    requires
        ordered_by(s, key),
        forall|a: int, b: int| 0 <= a < b < s.len() ==> key(#[trigger] s[a]) != key(#[trigger] s[b]),
    ensures
        strictly_ascending(s.map_values(key)),
{
    let m = s.map_values(key);
    assert forall|a: int, b: int| 0 <= a < b < m.len() implies text_lt(#[trigger] m[a], #[trigger] m[b]) by {
        assert(text_le(key(s[a]), key(s[b])));
        assert(key(s[a]) != key(s[b]));
        lemma_le_ne(key(s[a]), key(s[b]));
    }
}

/// Distinct house numbers have distinct texts, over a table of strictly
/// ascending texts that are not plain numbers.
pub proof fn lemma_text_injective(x: Housenumber, y: Housenumber, numbers: Seq<Seq<char>>)
    requires
        x != y,
        x.in_range(numbers.len()),
        y.in_range(numbers.len()),
        strictly_ascending(numbers),
        forall|i: int| 0 <= i < numbers.len() ==> !is_clean(#[trigger] numbers[i]),
    ensures
        x.text(numbers) != y.text(numbers),
{
    match (x, y) {
        (Housenumber::CleanInt(a), Housenumber::CleanInt(b)) => {
            lemma_decimal_shape(a as nat);
            lemma_decimal_shape(b as nat);
        },
        (Housenumber::CleanInt(a), Housenumber::Index(j)) => {
            assert(is_clean(decimal(a as nat)));
            assert(!is_clean(numbers[j as int]));
        },
        (Housenumber::Index(i), Housenumber::CleanInt(b)) => {
            assert(is_clean(decimal(b as nat)));
            assert(!is_clean(numbers[i as int]));
        },
        (Housenumber::Index(i), Housenumber::Index(j)) => {
            if i < j {
                lemma_lt_ne(numbers[i as int], numbers[j as int]);
            } else {
                lemma_lt_ne(numbers[j as int], numbers[i as int]);
            }
        },
    }
}

impl Street {
    /// Two sorted streets with the same house numbers list the same texts.
    pub proof fn lemma_same_texts(&self, other: Street, numbers: Seq<Seq<char>>)
        requires
            self.wf(),
            other.wf(),
            self.is_sorted(numbers),
            other.is_sorted(numbers),
            forall|k: int| 0 <= k < self.numbers().len() ==> (#[trigger] self.numbers()[k]).in_range(numbers.len()),
            forall|k: int| 0 <= k < other.numbers().len() ==> (#[trigger] other.numbers()[k]).in_range(numbers.len()),
            strictly_ascending(numbers),
            forall|i: int| 0 <= i < numbers.len() ==> !is_clean(#[trigger] numbers[i]),
            forall|h: Seq<char>| #[trigger] self.has_number(h, numbers) <==> other.has_number(h, numbers),
        ensures
            self.number_texts(numbers) == other.number_texts(numbers),
    {
        let key = |hn: Housenumber| hn.text(numbers);
        assert forall|a: int, b: int| 0 <= a < b < self.numbers().len() implies key(#[trigger] self.numbers()[a]) != key(#[trigger] self.numbers()[b]) by {
            lemma_text_injective(self.numbers()[a], self.numbers()[b], numbers);
        }
        assert forall|a: int, b: int| 0 <= a < b < other.numbers().len() implies key(#[trigger] other.numbers()[a]) != key(#[trigger] other.numbers()[b]) by {
            lemma_text_injective(other.numbers()[a], other.numbers()[b], numbers);
        }
        lemma_ordered_distinct(self.numbers(), key);
        lemma_ordered_distinct(other.numbers(), key);
        let t1 = self.number_texts(numbers);
        let t2 = other.number_texts(numbers);
        assert forall|x: Seq<char>| t1.contains(x) <==> t2.contains(x) by {
            if t1.contains(x) {
                let p = choose|p: int| 0 <= p < t1.len() && t1[p] == x;
                assert(self.numbers()[p].text(numbers) == x);
                assert(self.has_number(x, numbers));
                let q = choose|q: int| 0 <= q < other.numbers().len() && (#[trigger] other.numbers()[q]).text(numbers) == x;
                assert(t2[q] == x);
            }
            if t2.contains(x) {
                let p = choose|p: int| 0 <= p < t2.len() && t2[p] == x;
                assert(other.numbers()[p].text(numbers) == x);
                assert(other.has_number(x, numbers));
                assert(self.has_number(x, numbers));
                let q = choose|q: int| 0 <= q < self.numbers().len() && (#[trigger] self.numbers()[q]).text(numbers) == x;
                assert(t1[q] == x);
            }
        }
        lemma_ascending_unique(t1, t2);
    }
}


impl PostalArea {
    /// Two sorted areas with the same entries list the same street names,
    /// and the streets at each position hold the same house numbers.
    pub proof fn lemma_same_streets(&self, other: PostalArea, streets: Seq<Seq<char>>, numbers: Seq<Seq<char>>)
        requires
            self.wf(),
            other.wf(),
            self.is_sorted(streets, numbers),
            other.is_sorted(streets, numbers),
            self.bounded(streets.len(), numbers.len()),
            other.bounded(streets.len(), numbers.len()),
            strictly_ascending(streets),
            forall|s: Seq<char>, h: Seq<char>| #[trigger] self.has(s, h, streets, numbers) <==> other.has(s, h, streets, numbers),
        ensures
            self.street_names(streets) == other.street_names(streets),
            forall|k: int, h: Seq<char>|
                #![trigger self.streets_view()[k].has_number(h, numbers)]
                #![trigger other.streets_view()[k].has_number(h, numbers)]
                0 <= k < self.streets_view().len() ==> (self.streets_view()[k].has_number(h, numbers)
                    <==> other.streets_view()[k].has_number(h, numbers)),
    {
        let key = |x: Street| streets[x.street_id() as int];
        let n1 = self.street_names(streets);
        let n2 = other.street_names(streets);
        assert(n1 =~= self.streets_view().map_values(key));
        assert(n2 =~= other.streets_view().map_values(key));
        assert forall|a: int, b: int| 0 <= a < b < self.streets_view().len() implies key(#[trigger] self.streets_view()[a]) != key(#[trigger] self.streets_view()[b]) by {
            let (x, y) = (self.streets_view()[a].street_id() as int, self.streets_view()[b].street_id() as int);
            assert(self.streets_view()[a].bounded(streets.len(), numbers.len()));
            assert(self.streets_view()[b].bounded(streets.len(), numbers.len()));
            if x < y {
                lemma_lt_ne(streets[x], streets[y]);
            } else if y < x {
                lemma_lt_ne(streets[y], streets[x]);
            }
        }
        assert forall|a: int, b: int| 0 <= a < b < other.streets_view().len() implies key(#[trigger] other.streets_view()[a]) != key(#[trigger] other.streets_view()[b]) by {
            let (x, y) = (other.streets_view()[a].street_id() as int, other.streets_view()[b].street_id() as int);
            assert(other.streets_view()[a].bounded(streets.len(), numbers.len()));
            assert(other.streets_view()[b].bounded(streets.len(), numbers.len()));
            if x < y {
                lemma_lt_ne(streets[x], streets[y]);
            } else if y < x {
                lemma_lt_ne(streets[y], streets[x]);
            }
        }
        lemma_ordered_distinct(self.streets_view(), key);
        lemma_ordered_distinct(other.streets_view(), key);
        assert forall|x: Seq<char>| n1.contains(x) <==> n2.contains(x) by {
            if n1.contains(x) {
                let p = choose|p: int| 0 <= p < n1.len() && n1[p] == x;
                let st = self.streets_view()[p];
                assert(st.bounded(streets.len(), numbers.len()) && st.numbers().len() > 0);
                let h = st.numbers()[0].text(numbers);
                assert(street_matches(st, x, h, streets, numbers));
                assert(self.has(x, h, streets, numbers));
                assert(other.has(x, h, streets, numbers));
                let q = choose|q: int| 0 <= q < other.streets_view().len() && #[trigger] street_matches(other.streets_view()[q], x, h, streets, numbers);
                assert(n2[q] == x);
            }
            if n2.contains(x) {
                let p = choose|p: int| 0 <= p < n2.len() && n2[p] == x;
                let st = other.streets_view()[p];
                assert(st.bounded(streets.len(), numbers.len()) && st.numbers().len() > 0);
                let h = st.numbers()[0].text(numbers);
                assert(street_matches(st, x, h, streets, numbers));
                assert(other.has(x, h, streets, numbers));
                assert(self.has(x, h, streets, numbers));
                let q = choose|q: int| 0 <= q < self.streets_view().len() && #[trigger] street_matches(self.streets_view()[q], x, h, streets, numbers);
                assert(n1[q] == x);
            }
        }
        lemma_ascending_unique(n1, n2);
        assert forall|k: int, h: Seq<char>|
            0 <= k < self.streets_view().len() implies (self.streets_view()[k].has_number(h, numbers)
                <==> other.streets_view()[k].has_number(h, numbers)) by {
            let name = n1[k];
            assert(self.streets_view()[k].bounded(streets.len(), numbers.len()));
            assert(n2[k] == name);
            assert(other.streets_view()[k].bounded(streets.len(), numbers.len()));
            if self.streets_view()[k].has_number(h, numbers) {
                assert(street_matches(self.streets_view()[k], name, h, streets, numbers));
                assert(self.has(name, h, streets, numbers));
                assert(other.has(name, h, streets, numbers));
                let q = choose|q: int| 0 <= q < other.streets_view().len() && #[trigger] street_matches(other.streets_view()[q], name, h, streets, numbers);
                assert(n2[q] == name);
                if q < k {
                    lemma_lt_ne(n2[q], n2[k]);
                } else if k < q {
                    lemma_lt_ne(n2[k], n2[q]);
                }
            }
            if other.streets_view()[k].has_number(h, numbers) {
                assert(street_matches(other.streets_view()[k], name, h, streets, numbers));
                assert(other.has(name, h, streets, numbers));
                assert(self.has(name, h, streets, numbers));
                let q = choose|q: int| 0 <= q < self.streets_view().len() && #[trigger] street_matches(self.streets_view()[q], name, h, streets, numbers);
                assert(n1[q] == name);
                if q < k {
                    lemma_lt_ne(n1[q], n1[k]);
                } else if k < q {
                    lemma_lt_ne(n1[k], n1[q]);
                }
            }
        }
    }
}


impl PostalArea {
    /// An area with a street holds some entry.
    pub proof fn lemma_some_entry(&self, streets: Seq<Seq<char>>, numbers: Seq<Seq<char>>)
        requires
            self.bounded(streets.len(), numbers.len()),
            self.streets_view().len() > 0,
        ensures
            exists|s: Seq<char>, h: Seq<char>| #[trigger] self.has(s, h, streets, numbers),
    {
        let st = self.streets_view()[0];
        assert(st.bounded(streets.len(), numbers.len()) && st.numbers().len() > 0);
        let s = streets[st.street_id() as int];
        let h = st.numbers()[0].text(numbers);
        assert(street_matches(st, s, h, streets, numbers));
        assert(self.has(s, h, streets, numbers));
    }
}

impl City {
    /// A city with a child holds some entry.
    pub proof fn lemma_some_entry(&self, streets: Seq<Seq<char>>, numbers: Seq<Seq<char>>)
        requires
            self.bounded(streets.len(), numbers.len()),
            self.areas_view().len() > 0,
        ensures
            exists|zip: Seq<char>, s: Seq<char>, h: Seq<char>| #[trigger] self.has(zip, s, h, streets, numbers),
    {
        let x = self.areas_view()[0];
        assert(x.bounded(streets.len(), numbers.len()));
        x.lemma_some_entry(streets, numbers);
        let (s, h) = choose|s: Seq<char>, h: Seq<char>| #[trigger] x.has(s, h, streets, numbers);
        assert(area_matches(x, x.code_view(), s, h, streets, numbers));
        assert(self.has(x.code_view(), s, h, streets, numbers));
    }

    /// Two sorted cities with the same entries list the same keys below, and
    /// the children at each position hold the same entries.
    pub proof fn lemma_same_areas(&self, other: City, streets: Seq<Seq<char>>, numbers: Seq<Seq<char>>)
        requires
            self.wf(),
            other.wf(),
            self.is_sorted(streets, numbers),
            other.is_sorted(streets, numbers),
            self.bounded(streets.len(), numbers.len()),
            other.bounded(streets.len(), numbers.len()),
            forall|zip: Seq<char>, s: Seq<char>, h: Seq<char>| #[trigger] self.has(zip, s, h, streets, numbers) <==> other.has(zip, s, h, streets, numbers),
        ensures
            self.zip_codes() == other.zip_codes(),
            forall|k: int, s: Seq<char>, h: Seq<char>|
                #![trigger self.areas_view()[k].has(s, h, streets, numbers)]
                #![trigger other.areas_view()[k].has(s, h, streets, numbers)]
                0 <= k < self.areas_view().len() ==> (self.areas_view()[k].has(s, h, streets, numbers)
                    <==> other.areas_view()[k].has(s, h, streets, numbers)),
    {
        let key = |x: PostalArea| x.code_view();
        let n1 = self.zip_codes();
        let n2 = other.zip_codes();
        assert(n1 =~= self.areas_view().map_values(key));
        assert(n2 =~= other.areas_view().map_values(key));
        lemma_ordered_distinct(self.areas_view(), key);
        lemma_ordered_distinct(other.areas_view(), key);
        assert forall|x: Seq<char>| n1.contains(x) <==> n2.contains(x) by {
            if n1.contains(x) {
                let p = choose|p: int| 0 <= p < n1.len() && n1[p] == x;
                let c = self.areas_view()[p];
                assert(c.bounded(streets.len(), numbers.len()));
                c.lemma_some_entry(streets, numbers);
                let (s, h) = choose|s: Seq<char>, h: Seq<char>| #[trigger] c.has(s, h, streets, numbers);
                assert(area_matches(c, x, s, h, streets, numbers));
                assert(self.has(x, s, h, streets, numbers));
                assert(other.has(x, s, h, streets, numbers));
                let q = choose|q: int| 0 <= q < other.areas_view().len() && #[trigger] area_matches(other.areas_view()[q], x, s, h, streets, numbers);
                assert(n2[q] == x);
            }
            if n2.contains(x) {
                let p = choose|p: int| 0 <= p < n2.len() && n2[p] == x;
                let c = other.areas_view()[p];
                assert(c.bounded(streets.len(), numbers.len()));
                c.lemma_some_entry(streets, numbers);
                let (s, h) = choose|s: Seq<char>, h: Seq<char>| #[trigger] c.has(s, h, streets, numbers);
                assert(area_matches(c, x, s, h, streets, numbers));
                assert(other.has(x, s, h, streets, numbers));
                assert(self.has(x, s, h, streets, numbers));
                let q = choose|q: int| 0 <= q < self.areas_view().len() && #[trigger] area_matches(self.areas_view()[q], x, s, h, streets, numbers);
                assert(n1[q] == x);
            }
        }
        lemma_ascending_unique(n1, n2);
        assert forall|k: int, s: Seq<char>, h: Seq<char>|
            0 <= k < self.areas_view().len() implies (self.areas_view()[k].has(s, h, streets, numbers)
                <==> other.areas_view()[k].has(s, h, streets, numbers)) by {
            let name = n1[k];
            assert(n2[k] == name);
            if self.areas_view()[k].has(s, h, streets, numbers) {
                assert(area_matches(self.areas_view()[k], name, s, h, streets, numbers));
                assert(self.has(name, s, h, streets, numbers));
                assert(other.has(name, s, h, streets, numbers));
                let q = choose|q: int| 0 <= q < other.areas_view().len() && #[trigger] area_matches(other.areas_view()[q], name, s, h, streets, numbers);
                assert(n2[q] == name);
                if q < k {
                    lemma_lt_ne(n2[q], n2[k]);
                } else if k < q {
                    lemma_lt_ne(n2[k], n2[q]);
                }
            }
            if other.areas_view()[k].has(s, h, streets, numbers) {
                assert(area_matches(other.areas_view()[k], name, s, h, streets, numbers));
                assert(other.has(name, s, h, streets, numbers));
                assert(self.has(name, s, h, streets, numbers));
                let q = choose|q: int| 0 <= q < self.areas_view().len() && #[trigger] area_matches(self.areas_view()[q], name, s, h, streets, numbers);
                assert(n1[q] == name);
                if q < k {
                    lemma_lt_ne(n1[q], n1[k]);
                } else if k < q {
                    lemma_lt_ne(n1[k], n1[q]);
                }
            }
        }
    }
}

impl Country {
    /// A country with a child holds some entry.
    pub proof fn lemma_some_entry(&self, streets: Seq<Seq<char>>, numbers: Seq<Seq<char>>)
        requires
            self.bounded(streets.len(), numbers.len()),
            self.cities_view().len() > 0,
        ensures
            exists|ci: Seq<char>, zip: Seq<char>, s: Seq<char>, h: Seq<char>| #[trigger] self.has(ci, zip, s, h, streets, numbers),
    {
        let x = self.cities_view()[0];
        assert(x.bounded(streets.len(), numbers.len()));
        x.lemma_some_entry(streets, numbers);
        let (zip, s, h) = choose|zip: Seq<char>, s: Seq<char>, h: Seq<char>| #[trigger] x.has(zip, s, h, streets, numbers);
        assert(city_matches(x, x.name_view(), zip, s, h, streets, numbers));
        assert(self.has(x.name_view(), zip, s, h, streets, numbers));
    }

    /// Two sorted countries with the same entries list the same keys below, and
    /// the children at each position hold the same entries.
    pub proof fn lemma_same_cities(&self, other: Country, streets: Seq<Seq<char>>, numbers: Seq<Seq<char>>)
        requires
            self.wf(),
            other.wf(),
            self.is_sorted(streets, numbers),
            other.is_sorted(streets, numbers),
            self.bounded(streets.len(), numbers.len()),
            other.bounded(streets.len(), numbers.len()),
            forall|ci: Seq<char>, zip: Seq<char>, s: Seq<char>, h: Seq<char>| #[trigger] self.has(ci, zip, s, h, streets, numbers) <==> other.has(ci, zip, s, h, streets, numbers),
        ensures
            self.city_names() == other.city_names(),
            forall|k: int, zip: Seq<char>, s: Seq<char>, h: Seq<char>|
                #![trigger self.cities_view()[k].has(zip, s, h, streets, numbers)]
                #![trigger other.cities_view()[k].has(zip, s, h, streets, numbers)]
                0 <= k < self.cities_view().len() ==> (self.cities_view()[k].has(zip, s, h, streets, numbers)
                    <==> other.cities_view()[k].has(zip, s, h, streets, numbers)),
    {
        let key = |x: City| x.name_view();
        let n1 = self.city_names();
        let n2 = other.city_names();
        assert(n1 =~= self.cities_view().map_values(key));
        assert(n2 =~= other.cities_view().map_values(key));
        lemma_ordered_distinct(self.cities_view(), key);
        lemma_ordered_distinct(other.cities_view(), key);
        assert forall|x: Seq<char>| n1.contains(x) <==> n2.contains(x) by {
            if n1.contains(x) {
                let p = choose|p: int| 0 <= p < n1.len() && n1[p] == x;
                let c = self.cities_view()[p];
                assert(c.bounded(streets.len(), numbers.len()));
                c.lemma_some_entry(streets, numbers);
                let (zip, s, h) = choose|zip: Seq<char>, s: Seq<char>, h: Seq<char>| #[trigger] c.has(zip, s, h, streets, numbers);
                assert(city_matches(c, x, zip, s, h, streets, numbers));
                assert(self.has(x, zip, s, h, streets, numbers));
                assert(other.has(x, zip, s, h, streets, numbers));
                let q = choose|q: int| 0 <= q < other.cities_view().len() && #[trigger] city_matches(other.cities_view()[q], x, zip, s, h, streets, numbers);
                assert(n2[q] == x);
            }
            if n2.contains(x) {
                let p = choose|p: int| 0 <= p < n2.len() && n2[p] == x;
                let c = other.cities_view()[p];
                assert(c.bounded(streets.len(), numbers.len()));
                c.lemma_some_entry(streets, numbers);
                let (zip, s, h) = choose|zip: Seq<char>, s: Seq<char>, h: Seq<char>| #[trigger] c.has(zip, s, h, streets, numbers);
                assert(city_matches(c, x, zip, s, h, streets, numbers));
                assert(other.has(x, zip, s, h, streets, numbers));
                assert(self.has(x, zip, s, h, streets, numbers));
                let q = choose|q: int| 0 <= q < self.cities_view().len() && #[trigger] city_matches(self.cities_view()[q], x, zip, s, h, streets, numbers);
                assert(n1[q] == x);
            }
        }
        lemma_ascending_unique(n1, n2);
        assert forall|k: int, zip: Seq<char>, s: Seq<char>, h: Seq<char>|
            0 <= k < self.cities_view().len() implies (self.cities_view()[k].has(zip, s, h, streets, numbers)
                <==> other.cities_view()[k].has(zip, s, h, streets, numbers)) by {
            let name = n1[k];
            assert(n2[k] == name);
            if self.cities_view()[k].has(zip, s, h, streets, numbers) {
                assert(city_matches(self.cities_view()[k], name, zip, s, h, streets, numbers));
                assert(self.has(name, zip, s, h, streets, numbers));
                assert(other.has(name, zip, s, h, streets, numbers));
                let q = choose|q: int| 0 <= q < other.cities_view().len() && #[trigger] city_matches(other.cities_view()[q], name, zip, s, h, streets, numbers);
                assert(n2[q] == name);
                if q < k {
                    lemma_lt_ne(n2[q], n2[k]);
                } else if k < q {
                    lemma_lt_ne(n2[k], n2[q]);
                }
            }
            if other.cities_view()[k].has(zip, s, h, streets, numbers) {
                assert(city_matches(other.cities_view()[k], name, zip, s, h, streets, numbers));
                assert(other.has(name, zip, s, h, streets, numbers));
                assert(self.has(name, zip, s, h, streets, numbers));
                let q = choose|q: int| 0 <= q < self.cities_view().len() && #[trigger] city_matches(self.cities_view()[q], name, zip, s, h, streets, numbers);
                assert(n1[q] == name);
                if q < k {
                    lemma_lt_ne(n1[q], n1[k]);
                } else if k < q {
                    lemma_lt_ne(n1[k], n1[q]);
                }
            }
        }
    }
}


impl World {
    /// Two sorted indexes with the same tables and entries list the same
    /// countries, and the countries at each position hold the same entries.
    pub proof fn lemma_same_countries(&self, other: World)
        requires
            self.wf(),
            other.wf(),
            self.is_sorted(),
            other.is_sorted(),
            self.streets_view() == other.streets_view(),
            self.numbers_view() == other.numbers_view(),
            self.entries() == other.entries(),
        ensures
            self.country_codes() == other.country_codes(),
            forall|k: int, ci: Seq<char>, zip: Seq<char>, s: Seq<char>, h: Seq<char>|
                #![trigger self.countries_view()[k].has(ci, zip, s, h, self.streets_view(), self.numbers_view())]
                #![trigger other.countries_view()[k].has(ci, zip, s, h, self.streets_view(), self.numbers_view())]
                0 <= k < self.countries_view().len() ==> (self.countries_view()[k].has(ci, zip, s, h, self.streets_view(), self.numbers_view())
                    <==> other.countries_view()[k].has(ci, zip, s, h, self.streets_view(), self.numbers_view())),
    {
        let ws = self.streets_view();
        let nums = self.numbers_view();
        assert forall|c: Seq<char>, ci: Seq<char>, zip: Seq<char>, s: Seq<char>, h: Seq<char>|
            #[trigger] self.has(c, ci, zip, s, h) <==> other.has(c, ci, zip, s, h) by {
            assert(self.entries().contains((c, ci, zip, s, h)) == self.has(c, ci, zip, s, h));
            assert(other.entries().contains((c, ci, zip, s, h)) == other.has(c, ci, zip, s, h));
        }
        let key = |x: Country| x.code_view();
        let n1 = self.country_codes();
        let n2 = other.country_codes();
        assert(n1 =~= self.countries_view().map_values(key));
        assert(n2 =~= other.countries_view().map_values(key));
        lemma_ordered_distinct(self.countries_view(), key);
        lemma_ordered_distinct(other.countries_view(), key);
        assert forall|x: Seq<char>| n1.contains(x) <==> n2.contains(x) by {
            if n1.contains(x) {
                let p = choose|p: int| 0 <= p < n1.len() && n1[p] == x;
                let c = self.countries_view()[p];
                assert(c.bounded(ws.len(), nums.len()) && c.cities_view().len() > 0);
                c.lemma_some_entry(ws, nums);
                let (ci, zip, s, h) = choose|ci: Seq<char>, zip: Seq<char>, s: Seq<char>, h: Seq<char>| #[trigger] c.has(ci, zip, s, h, ws, nums);
                assert(country_matches(c, x, ci, zip, s, h, ws, nums));
                assert(self.has(x, ci, zip, s, h));
                assert(other.has(x, ci, zip, s, h));
                let q = choose|q: int| 0 <= q < other.countries_view().len() && #[trigger] country_matches(other.countries_view()[q], x, ci, zip, s, h, ws, nums);
                assert(n2[q] == x);
            }
            if n2.contains(x) {
                let p = choose|p: int| 0 <= p < n2.len() && n2[p] == x;
                let c = other.countries_view()[p];
                assert(c.bounded(ws.len(), nums.len()) && c.cities_view().len() > 0);
                c.lemma_some_entry(ws, nums);
                let (ci, zip, s, h) = choose|ci: Seq<char>, zip: Seq<char>, s: Seq<char>, h: Seq<char>| #[trigger] c.has(ci, zip, s, h, ws, nums);
                assert(country_matches(c, x, ci, zip, s, h, ws, nums));
                assert(other.has(x, ci, zip, s, h));
                assert(self.has(x, ci, zip, s, h));
                let q = choose|q: int| 0 <= q < self.countries_view().len() && #[trigger] country_matches(self.countries_view()[q], x, ci, zip, s, h, ws, nums);
                assert(n1[q] == x);
            }
        }
        lemma_ascending_unique(n1, n2);
        assert forall|k: int, ci: Seq<char>, zip: Seq<char>, s: Seq<char>, h: Seq<char>|
            0 <= k < self.countries_view().len() implies (self.countries_view()[k].has(ci, zip, s, h, ws, nums)
                <==> other.countries_view()[k].has(ci, zip, s, h, ws, nums)) by {
            let name = n1[k];
            assert(n2[k] == name);
            if self.countries_view()[k].has(ci, zip, s, h, ws, nums) {
                assert(country_matches(self.countries_view()[k], name, ci, zip, s, h, ws, nums));
                assert(self.has(name, ci, zip, s, h));
                assert(other.has(name, ci, zip, s, h));
                let q = choose|q: int| 0 <= q < other.countries_view().len() && #[trigger] country_matches(other.countries_view()[q], name, ci, zip, s, h, ws, nums);
                assert(n2[q] == name);
                if q < k {
                    lemma_lt_ne(n2[q], n2[k]);
                } else if k < q {
                    lemma_lt_ne(n2[k], n2[q]);
                }
            }
            if other.countries_view()[k].has(ci, zip, s, h, ws, nums) {
                assert(country_matches(other.countries_view()[k], name, ci, zip, s, h, ws, nums));
                assert(other.has(name, ci, zip, s, h));
                assert(self.has(name, ci, zip, s, h));
                let q = choose|q: int| 0 <= q < self.countries_view().len() && #[trigger] country_matches(self.countries_view()[q], name, ci, zip, s, h, ws, nums);
                assert(n1[q] == name);
                if q < k {
                    lemma_lt_ne(n1[q], n1[k]);
                } else if k < q {
                    lemma_lt_ne(n1[k], n1[q]);
                }
            }
        }
    }

    /// Two sorted indexes with the same tables and the same entries answer
    /// every lookup alike: the same keys at every level along the path, the
    /// same misses, and the same house numbers at its end.
    pub proof fn lemma_same_answers(&self, other: World, cc: Seq<char>, ci: Seq<char>, zip: Seq<char>, s: Seq<char>)
        requires
            self.wf(),
            other.wf(),
            self.is_sorted(),
            other.is_sorted(),
            self.streets_view() == other.streets_view(),
            self.numbers_view() == other.numbers_view(),
            self.entries() == other.entries(),
        ensures
            self.country_codes() == other.country_codes(),
            match (self.country_named(cc), other.country_named(cc)) {
                (None, None) => true,
                (Some(c1), Some(c2)) => c1.city_names() == c2.city_names() && match (c1.city_named(ci), c2.city_named(ci)) {
                    (None, None) => true,
                    (Some(x1), Some(x2)) => x1.zip_codes() == x2.zip_codes() && match (x1.area_named(zip), x2.area_named(zip)) {
                        (None, None) => true,
                        (Some(a1), Some(a2)) => a1.street_names(self.streets_view()) == a2.street_names(self.streets_view())
                            && match (a1.street_named(s, self.streets_view()), a2.street_named(s, self.streets_view())) {
                            (None, None) => true,
                            (Some(t1), Some(t2)) => t1.number_texts(self.numbers_view()) == t2.number_texts(self.numbers_view()),
                            _ => false,
                        },
                        _ => false,
                    },
                    _ => false,
                },
                _ => false,
            },
    {
        let ws = self.streets_view();
        let nums = self.numbers_view();
        self.lemma_same_countries(other);
        if let Some(k) = first_folded_index(self.country_codes(), cc) {
            lemma_first_folded_some(self.country_codes(), cc);
            let c1 = self.countries_view()[k];
            let c2 = other.countries_view()[k];
            assert(c1.bounded(ws.len(), nums.len()) && c2.bounded(ws.len(), nums.len()));
            assert(c1.wf() && c2.wf());
            assert(c1.is_sorted(ws, nums) && c2.is_sorted(ws, nums));
            assert forall|ci2: Seq<char>, zip2: Seq<char>, s2: Seq<char>, h2: Seq<char>|
                #[trigger] c1.has(ci2, zip2, s2, h2, ws, nums) <==> c2.has(ci2, zip2, s2, h2, ws, nums) by {
                assert(c1.has(ci2, zip2, s2, h2, ws, nums) <==> c2.has(ci2, zip2, s2, h2, ws, nums));
            }
            c1.lemma_same_cities(c2, ws, nums);
            if let Some(j) = first_folded_index(c1.city_names(), ci) {
                lemma_first_folded_some(c1.city_names(), ci);
                let x1 = c1.cities_view()[j];
                let x2 = c2.cities_view()[j];
                assert(x1.bounded(ws.len(), nums.len()) && x2.bounded(ws.len(), nums.len()));
                assert(x1.wf() && x2.wf());
                assert(x1.is_sorted(ws, nums) && x2.is_sorted(ws, nums));
                assert forall|zip2: Seq<char>, s2: Seq<char>, h2: Seq<char>|
                    #[trigger] x1.has(zip2, s2, h2, ws, nums) <==> x2.has(zip2, s2, h2, ws, nums) by {
                    assert(c1.cities_view()[j].has(zip2, s2, h2, ws, nums) <==> c2.cities_view()[j].has(zip2, s2, h2, ws, nums));
                }
                x1.lemma_same_areas(x2, ws, nums);
                if let Some(i) = first_folded_index(x1.zip_codes(), zip) {
                    lemma_first_folded_some(x1.zip_codes(), zip);
                    let a1 = x1.areas_view()[i];
                    let a2 = x2.areas_view()[i];
                    assert(a1.bounded(ws.len(), nums.len()) && a2.bounded(ws.len(), nums.len()));
                    assert(a1.wf() && a2.wf());
                    assert(a1.is_sorted(ws, nums) && a2.is_sorted(ws, nums));
                    assert forall|s2: Seq<char>, h2: Seq<char>| #[trigger] a1.has(s2, h2, ws, nums) <==> a2.has(s2, h2, ws, nums) by {
                        assert(x1.areas_view()[i].has(s2, h2, ws, nums) <==> x2.areas_view()[i].has(s2, h2, ws, nums));
                    }
                    a1.lemma_same_streets(a2, ws, nums);
                    if let Some(m) = first_folded_index(a1.street_names(ws), s) {
                        lemma_first_folded_some(a1.street_names(ws), s);
                        let t1 = a1.streets_view()[m];
                        let t2 = a2.streets_view()[m];
                        assert(t1.bounded(ws.len(), nums.len()) && t2.bounded(ws.len(), nums.len()));
                        assert(t1.wf() && t2.wf());
                        assert(t1.is_sorted(nums) && t2.is_sorted(nums));
                        assert forall|h2: Seq<char>| #[trigger] t1.has_number(h2, nums) <==> t2.has_number(h2, nums) by {
                            assert(a1.streets_view()[m].has_number(h2, nums) <==> a2.streets_view()[m].has_number(h2, nums));
                        }
                        t1.lemma_same_texts(t2, nums);
                    }
                }
            }
        }
    }
}

} // verus!
