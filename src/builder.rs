//! Building the index from a list of addresses: intern the street names and
//! the house numbers that are not plain numbers, file every address, then
//! put every level in order.
use vstd::prelude::*;
use crate::address::{entries_of, lemma_entries_push, Address};
use crate::compress::{World, MAX_TABLE};
use crate::sorted_vec::{strictly_ascending, views, SortedVec};
use crate::compress::Entry;
use crate::country::{corrected_country, normalize_address};
use crate::query::{cities_answer, housenumbers_answer, lemma_same_query_answers, streets_answer, zips_answer};
use crate::text::{is_clean, num_compressable};

verus! {

/// Builds the index of `addresses`. The index holds exactly their entries,
/// repeats merged, with every level sorted.
pub fn build_world(addresses: Vec<Address>) -> (w: World)
    requires
        addresses@.len() <= MAX_TABLE,
    ensures
        w.wf(),
        w.is_sorted(),
        w.entries() == entries_of(addresses@),
{
    let ghost orig = addresses@;
    let n = addresses.len();
    let mut streets: Vec<String> = Vec::new();
    let mut numbers: Vec<String> = Vec::new();
    let mut i: usize = 0;
    while i < n
        invariant
            n == orig.len(),
            addresses@ == orig,
            i <= n,
            streets@.len() == i,
            numbers@.len() <= i,
            forall|j: int| 0 <= j < i ==> (#[trigger] streets@[j])@ == orig[j].street@,
            forall|j: int| 0 <= j < numbers@.len() ==> !is_clean((#[trigger] numbers@[j])@),
            forall|j: int|
                0 <= j < i && !is_clean(orig[j].housenumber@) ==> #[trigger] views(numbers@).contains(orig[j].housenumber@),
        decreases n - i,
    {
        streets.push(addresses[i].street.clone());
        if !num_compressable(addresses[i].housenumber.as_str()) {
            let ghost before = numbers@;
            numbers.push(addresses[i].housenumber.clone());
            proof {
                assert(views(numbers@) =~= views(before).push(orig[i as int].housenumber@));
                assert forall|j: int|
                    0 <= j < i + 1 && !is_clean(orig[j].housenumber@) implies #[trigger] views(numbers@).contains(orig[j].housenumber@) by {
                    if j < i {
                        assert(views(before).contains(orig[j].housenumber@));
                        let q = choose|q: int| 0 <= q < views(before).len() && views(before)[q] == orig[j].housenumber@;
                        assert(views(numbers@)[q] == orig[j].housenumber@);
                    } else {
                        assert(views(numbers@)[before.len() as int] == orig[j].housenumber@);
                    }
                }
            }
        } else {
            proof {
                assert forall|j: int|
                    0 <= j < i + 1 && !is_clean(orig[j].housenumber@) implies #[trigger] views(numbers@).contains(orig[j].housenumber@) by {
                    if j == i {
                        assert(is_clean(orig[j].housenumber@));
                    }
                }
            }
        }
        i = i + 1;
    }
    let ghost sv = views(streets@);
    let ghost nv = views(numbers@);
    let street_table = SortedVec::from_vec(streets);
    let number_table = SortedVec::from_vec(numbers);
    proof {
        assert forall|j: int| 0 <= j < number_table@.len() implies !is_clean(#[trigger] number_table@[j]) by {
            assert(number_table@.contains(number_table@[j]));
            assert(nv.contains(number_table@[j]));
            let q = choose|q: int| 0 <= q < nv.len() && nv[q] == number_table@[j];
        }
    }
    let mut w = World::new(street_table, number_table);
    let mut rest = addresses;
    let mut k: usize = n;
    while k > 0
        invariant
            n == orig.len(),
            k <= n,
            rest@ == orig.subrange(0, k as int),
            w.wf(),
            forall|x: Seq<char>| w.streets_view().contains(x) <==> sv.contains(x),
            forall|x: Seq<char>| w.numbers_view().contains(x) <==> nv.contains(x),
            sv.len() == n,
            forall|j: int| 0 <= j < n ==> (#[trigger] sv[j]) == orig[j].street@,
            forall|j: int| 0 <= j < n && !is_clean(orig[j].housenumber@) ==> #[trigger] nv.contains(orig[j].housenumber@),
            w.entries() == entries_of(orig.subrange(k as int, n as int)),
        decreases k,
    {
        let a = rest.pop().unwrap();
        proof {
            assert(a == orig[k - 1]);
            assert(sv[k - 1] == a.street@);
            assert(sv.contains(a.street@));
            if !is_clean(a.housenumber@) {
                assert(nv.contains(orig[k - 1].housenumber@));
            }
        }
        let ghost e = a.entry();
        let ghost before = w.entries();
        w.insert_address(a.country, a.city, a.postcode, a.street, a.housenumber);
        proof {
            assert(rest@ =~= orig.subrange(0, k - 1));
            let s0 = orig.subrange(k as int, n as int);
            let s1 = orig.subrange(k - 1, n as int);
            assert forall|x| entries_of(s1).contains(x) <==> #[trigger] before.insert(e).contains(x) by {
                if entries_of(s1).contains(x) {
                    let q = choose|q: int| 0 <= q < s1.len() && (#[trigger] s1[q]).entry() == x;
                    if q > 0 {
                        assert(s0[q - 1] == s1[q]);
                        assert(entries_of(s0).contains(x));
                    }
                }
                if before.contains(x) {
                    let q = choose|q: int| 0 <= q < s0.len() && (#[trigger] s0[q]).entry() == x;
                    assert(s1[q + 1] == s0[q]);
                }
                if x == e {
                    assert(s1[0] == orig[k - 1]);
                }
            }
            assert(entries_of(s1) =~= before.insert(e));
        }
        k = k - 1;
    }
    proof {
        assert(orig.subrange(0, n as int) =~= orig);
    }
    w.sort();
    w
}


/// Why a snapshot could not be loaded.
#[derive(PartialEq, Eq, Structural, Clone, Copy, Debug)]
pub enum SnapshotError {
    /// The street table does not ascend strictly, or is too long.
    StreetTable,
    /// The house number table does not ascend strictly, is too long, or
    /// holds a plain number.
    NumberTable,
    /// An address names a street that the street table lacks.
    UnknownStreet,
    /// An address has a house number that is neither a plain number nor in
    /// the house number table.
    UnknownHousenumber,
}

pub open spec fn valid_street_table(streets: Seq<Seq<char>>) -> bool {
    strictly_ascending(streets) && streets.len() <= MAX_TABLE
}

pub open spec fn valid_number_table(numbers: Seq<Seq<char>>) -> bool {
    &&& strictly_ascending(numbers)
    &&& numbers.len() <= MAX_TABLE
    &&& forall|i: int| 0 <= i < numbers.len() ==> !is_clean(#[trigger] numbers[i])
}

/// Every address can be filed over the two tables.
pub open spec fn addresses_fit(streets: Seq<Seq<char>>, numbers: Seq<Seq<char>>, addresses: Seq<Address>) -> bool {
    forall|i: int|
        0 <= i < addresses.len() ==> streets.contains((#[trigger] addresses[i]).street@) && (is_clean(addresses[i].housenumber@)
            || numbers.contains(addresses[i].housenumber@))
}

pub open spec fn valid_snapshot(streets: Seq<Seq<char>>, numbers: Seq<Seq<char>>, addresses: Seq<Address>) -> bool {
    valid_street_table(streets) && valid_number_table(numbers) && addresses_fit(streets, numbers, addresses)
}

/// Rebuilds an index from its two tables and its addresses, where they fit
/// together; otherwise says what is wrong with them.
pub fn load_world(streets: Vec<String>, numbers: Vec<String>, addresses: Vec<Address>) -> (r: Result<World, SnapshotError>)
    ensures
        r is Ok <==> valid_snapshot(views(streets@), views(numbers@), addresses@),
        !valid_street_table(views(streets@)) ==> r == Err::<World, SnapshotError>(SnapshotError::StreetTable),
        valid_street_table(views(streets@)) && !valid_number_table(views(numbers@))
            ==> r == Err::<World, SnapshotError>(SnapshotError::NumberTable),
        match r {
            Ok(w) => w.wf() && w.is_sorted() && w.streets_view() == views(streets@) && w.numbers_view() == views(numbers@)
                && w.entries() == entries_of(addresses@),
            Err(_) => true,
        },
{
    let ghost sv = views(streets@);
    let ghost nv = views(numbers@);
    if streets.len() > MAX_TABLE {
        return Err(SnapshotError::StreetTable);
    }
    let street_table = match SortedVec::from_sorted(streets) {
        Some(t) => t,
        None => {
            return Err(SnapshotError::StreetTable);
        },
    };
    if numbers.len() > MAX_TABLE {
        return Err(SnapshotError::NumberTable);
    }
    let mut k: usize = 0;
    while k < numbers.len()
        invariant
            nv == views(numbers@),
            sv == views(streets@),
            valid_street_table(sv),
            k <= nv.len(),
            forall|j: int| 0 <= j < k ==> !is_clean(#[trigger] nv[j]),
        decreases nv.len() - k,
    {
        if num_compressable(numbers[k].as_str()) {
            proof {
                assert(is_clean(nv[k as int]));
            }
            return Err(SnapshotError::NumberTable);
        }
        k = k + 1;
    }
    let number_table = match SortedVec::from_sorted(numbers) {
        Some(t) => t,
        None => {
            return Err(SnapshotError::NumberTable);
        },
    };
    let mut w = World::new(street_table, number_table);
    let ghost orig = addresses@;
    let n = addresses.len();
    let mut i: usize = 0;
    while i < n
        invariant
            n == orig.len(),
            addresses@ == orig,
            i <= n,
            w.wf(),
            w.streets_view() == sv,
            w.numbers_view() == nv,
            sv == views(streets@),
            nv == views(numbers@),
            valid_street_table(sv),
            valid_number_table(nv),
            addresses_fit(sv, nv, orig.subrange(0, i as int)),
            w.entries() == entries_of(orig.subrange(0, i as int)),
        decreases n - i,
    {
        let a = &addresses[i];
        if w.unique_streets().index_of(a.street.as_str()).is_none() {
            proof {
                assert(!sv.contains(orig[i as int].street@));
                assert(!addresses_fit(sv, nv, orig));
            }
            return Err(SnapshotError::UnknownStreet);
        }
        if !num_compressable(a.housenumber.as_str()) && w.housenumbers().index_of(a.housenumber.as_str()).is_none() {
            return Err(SnapshotError::UnknownHousenumber);
        }
        let ghost before = w.entries();
        w.insert_address(a.country.clone(), a.city.clone(), a.postcode.clone(), a.street.clone(), a.housenumber.clone());
        proof {
            let s0 = orig.subrange(0, i as int);
            let s1 = orig.subrange(0, i + 1);
            assert(s1 =~= s0.push(orig[i as int]));
            assert forall|e| #[trigger] entries_of(s1).contains(e) <==> before.insert(orig[i as int].entry()).contains(e) by {
                lemma_entries_push(s0, orig[i as int], e);
            }
            assert(entries_of(s1) =~= before.insert(orig[i as int].entry()));
            assert forall|j: int| 0 <= j < s1.len() implies sv.contains((#[trigger] s1[j]).street@) && (is_clean(s1[j].housenumber@)
                || nv.contains(s1[j].housenumber@)) by {
                if j < i {
                    assert(s1[j] == s0[j]);
                }
            }
        }
        i = i + 1;
    }
    proof {
        assert(orig.subrange(0, n as int) =~= orig);
    }
    w.sort();
    Ok(w)
}

/// The tables of a well-formed index and a list of its entries always make
/// a valid snapshot, so loading them gives back an index with the same
/// tables and the same entries, sorted.
pub proof fn lemma_snapshot_valid(w: World, addresses: Seq<Address>)
    requires
        w.wf(),
        entries_of(addresses) == w.entries(),
    ensures
        valid_snapshot(w.streets_view(), w.numbers_view(), addresses),
{
    let ws = w.streets_view();
    let nums = w.numbers_view();
    assert forall|i: int| 0 <= i < addresses.len() implies ws.contains((#[trigger] addresses[i]).street@) && (is_clean(
        addresses[i].housenumber@,
    ) || nums.contains(addresses[i].housenumber@)) by {
        let e = addresses[i].entry();
        assert(entries_of(addresses).contains(e));
        assert(w.entries().contains(e));
        w.lemma_entry_parts(e);
    }
}


/// The entry that an address gives once its country is normalised.
pub open spec fn normalized_entry(a: Address) -> Entry {
    (corrected_country(a.country@), a.city@, a.postcode@, a.street@, a.housenumber@)
}

/// Normalises the country of every address, then builds the index. The
/// index holds exactly the normalised entries, repeats merged.
pub fn compress(addresses: Vec<Address>) -> (w: World)
    requires
        addresses@.len() <= MAX_TABLE,
    ensures
        w.wf(),
        w.is_sorted(),
        w.entries() == Set::new(|e: Entry| exists|i: int| 0 <= i < addresses@.len() && normalized_entry(#[trigger] addresses@[i]) == e),
{
    let ghost orig = addresses@;
    let n = addresses.len();
    let mut rest = addresses;
    let mut normalized: Vec<Address> = Vec::new();
    while rest.len() > 0
        invariant
            rest@.len() + normalized@.len() == n,
            n == orig.len(),
            rest@ == orig.subrange(0, rest@.len() as int),
            forall|j: int| 0 <= j < normalized@.len() ==> (#[trigger] normalized@[j]).entry() == normalized_entry(orig[n - 1 - j]),
        decreases rest@.len(),
    {
        let k = rest.len();
        let a = rest.pop().unwrap();
        proof {
            assert(a == orig[k - 1]);
        }
        normalized.push(normalize_address(a));
        proof {
            assert(rest@ =~= orig.subrange(0, k - 1));
        }
    }
    let w = build_world(normalized);
    proof {
        let target = Set::new(|e: Entry| exists|i: int| 0 <= i < orig.len() && normalized_entry(#[trigger] orig[i]) == e);
        assert forall|e: Entry| #[trigger] w.entries().contains(e) <==> target.contains(e) by {
            if w.entries().contains(e) {
                let j = choose|j: int| 0 <= j < normalized@.len() && (#[trigger] normalized@[j]).entry() == e;
                assert(normalized_entry(orig[n - 1 - j]) == e);
            }
            if target.contains(e) {
                let i = choose|i: int| 0 <= i < orig.len() && normalized_entry(#[trigger] orig[i]) == e;
                let j = n - 1 - i;
                assert(normalized@[j].entry() == e);
            }
        }
        assert(w.entries() =~= target);
    }
    w
}


/// A round trip through a snapshot answers every query as before. The
/// tables of a sorted, well-formed index and a listing of its entries make a
/// valid snapshot, so `load_world` accepts them; and an index with what
/// `load_world` promises (the same tables, the listed entries, sorted)
/// answers every query exactly as the index that was listed.
pub proof fn lemma_round_trip(
    w: World,
    addresses: Seq<Address>,
    back: World,
    cc: Seq<char>,
    ci: Seq<char>,
    zip: Seq<char>,
    street: Seq<char>,
    prefix: Seq<char>,
    max_items: usize,
)
    requires
        w.wf(),
        w.is_sorted(),
        entries_of(addresses) == w.entries(),
        back.wf(),
        back.is_sorted(),
        back.streets_view() == w.streets_view(),
        back.numbers_view() == w.numbers_view(),
        back.entries() == entries_of(addresses),
    ensures
        valid_snapshot(w.streets_view(), w.numbers_view(), addresses),
        cities_answer(back, cc, prefix, max_items) == cities_answer(w, cc, prefix, max_items),
        zips_answer(back, cc, ci, prefix, max_items) == zips_answer(w, cc, ci, prefix, max_items),
        streets_answer(back, cc, ci, zip, prefix, max_items) == streets_answer(w, cc, ci, zip, prefix, max_items),
        housenumbers_answer(back, cc, ci, zip, street, prefix, max_items) == housenumbers_answer(
            w,
            cc,
            ci,
            zip,
            street,
            prefix,
            max_items,
        ),
{
    lemma_snapshot_valid(w, addresses);
    lemma_same_query_answers(back, w, cc, ci, zip, street, prefix, max_items);
}

} // verus!
