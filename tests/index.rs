use macs::address::{Address, IncompleteAddress};
use macs::autofix::{get_city_from_country_zip, get_country_from_city_zip, is_unfixable, try_autofixing};
use macs::builder::{build_world, compress};
use macs::compress::{Housenumber, World};
use macs::country::{autocorrect_country_code, normalize_address};
use macs::query::{get_cities, get_housenumbers, get_streets, get_zips, max_items_from_header, Missing};
use macs::sorted_vec::SortedVec;
use macs::text::{num_compressable, render_decimal, starts_with_folded};

fn addr(country: &str, city: &str, postcode: &str, street: &str, housenumber: &str) -> Address {
    Address {
        country: country.to_string(),
        city: city.to_string(),
        postcode: postcode.to_string(),
        street: street.to_string(),
        housenumber: housenumber.to_string(),
    }
}

fn incomplete(
    country: Option<&str>,
    city: Option<&str>,
    postcode: Option<&str>,
    street: Option<&str>,
    housenumber: Option<&str>,
) -> IncompleteAddress {
    IncompleteAddress {
        country: country.map(|s| s.to_string()),
        city: city.map(|s| s.to_string()),
        postcode: postcode.map(|s| s.to_string()),
        street: street.map(|s| s.to_string()),
        housenumber: housenumber.map(|s| s.to_string()),
    }
}

fn strings(v: &[&str]) -> Vec<String> {
    v.iter().map(|s| s.to_string()).collect()
}

#[test]
fn auto_correct_cc() {
    assert_eq!(autocorrect_country_code("India".to_string()), "IN".to_string());
    assert_eq!(autocorrect_country_code("Germany".to_string()), "DE".to_string());
    assert_eq!(autocorrect_country_code("GB".to_string()), "GB".to_string());
    assert_eq!(autocorrect_country_code("CA".to_string()), "CA".to_string());
}

#[test]
fn unknown_country_name_is_kept() {
    assert_eq!(autocorrect_country_code("Atlantis".to_string()), "Atlantis".to_string());
    let a = normalize_address(addr("Germany", "Berlin", "10115", "Invalidenstr.", "117"));
    assert_eq!(a.country, "DE");
    assert_eq!(a.city, "Berlin");
}

#[test]
fn clean_house_numbers() {
    assert!(!num_compressable("01"));
    assert!(num_compressable("0"));
    assert!(num_compressable("65535"));
    assert!(!num_compressable("65536"));
    assert!(!num_compressable("12a"));
    assert!(!num_compressable(""));
    assert!(!num_compressable("+1"));
    assert!(num_compressable("117"));
}

#[test]
fn decimal_rendering() {
    assert_eq!(render_decimal(0), "0");
    assert_eq!(render_decimal(117), "117");
    assert_eq!(render_decimal(65535), "65535");
}

#[test]
fn sorted_vec_dedups_and_finds() {
    let v = SortedVec::from_vec(strings(&["b", "a", "c", "a"]));
    assert_eq!(v.len(), 3);
    assert_eq!(v.as_vec(), &strings(&["a", "b", "c"]));
    assert_eq!(v.index_of("a"), Some(0));
    assert_eq!(v.index_of("c"), Some(2));
    assert_eq!(v.index_of("d"), None);
    assert_eq!(v.index_of(""), None);
}

#[test]
fn build_minimal() {
    let w = build_world(vec![
        addr("DE", "Berlin", "10115", "Invalidenstr.", "117"),
        addr("DE", "Berlin", "10115", "Invalidenstr.", "118"),
        addr("DE", "Berlin", "10115", "Invalidenstr.", "117a"),
    ]);
    assert_eq!(w.count(), 1);
    let country = &w.countries()[0];
    assert_eq!(country.code(), "DE");
    assert_eq!(country.cities().len(), 1);
    let city = &country.cities()[0];
    assert_eq!(city.areas().len(), 1);
    let area = &city.areas()[0];
    assert_eq!(area.streets().len(), 1);
    let street = &area.streets()[0];
    let numbers = street.housenumbers();
    assert_eq!(numbers.len(), 3);
    assert!(numbers.contains(&Housenumber::CleanInt(117)));
    assert!(numbers.contains(&Housenumber::CleanInt(118)));
    let i = w.housenumbers().index_of("117a").unwrap();
    assert_eq!(w.housenumbers().get(i), "117a");
    assert!(numbers.contains(&Housenumber::Index(i as u32)));
    assert_eq!(w.housenumbers().len(), 1);
}

#[test]
fn duplicates_are_merged() {
    let w = build_world(vec![
        addr("DE", "Berlin", "10115", "Invalidenstr.", "117"),
        addr("DE", "Berlin", "10115", "Invalidenstr.", "117"),
    ]);
    let r = get_housenumbers(&w, "DE", "Berlin", "10115", "Invalidenstr.", "", usize::MAX).unwrap();
    assert_eq!(r, strings(&["117"]));
}

#[test]
fn house_numbers_sort_by_text() {
    let w = build_world(vec![
        addr("DE", "Berlin", "10115", "A", "2"),
        addr("DE", "Berlin", "10115", "A", "10"),
        addr("DE", "Berlin", "10115", "A", "1"),
        addr("DE", "Berlin", "10115", "A", "1b"),
    ]);
    let r = get_housenumbers(&w, "DE", "Berlin", "10115", "A", "", usize::MAX).unwrap();
    assert_eq!(r, strings(&["1", "10", "1b", "2"]));
}

fn sample_world() -> World {
    build_world(vec![
        addr("DE", "Berlin", "10115", "Invalidenstr.", "117"),
        addr("DE", "Berlin", "10117", "Unter den Linden", "1"),
        addr("DE", "Bonn", "53111", "Markt", "5"),
        addr("DE", "Bremen", "28195", "Markt", "1"),
        addr("SE", "Uppsala", "75105", "Storgatan", "3"),
        addr("DE", "Berlin", "10115", "Chausseestr.", "8"),
    ])
}

#[test]
fn empty_prefix_returns_all() {
    let w = sample_world();
    assert_eq!(get_cities(&w, "DE", "", usize::MAX).unwrap(), strings(&["Berlin", "Bonn", "Bremen"]));
    assert_eq!(get_cities(&w, "DE", "", 2).unwrap(), strings(&["Berlin", "Bonn"]));
    assert_eq!(get_zips(&w, "DE", "Berlin", "", usize::MAX).unwrap(), strings(&["10115", "10117"]));
    assert_eq!(
        get_streets(&w, "DE", "Berlin", "10115", "", usize::MAX).unwrap(),
        strings(&["Chausseestr.", "Invalidenstr."])
    );
}

#[test]
fn prefix_filters_cities() {
    let w = sample_world();
    assert_eq!(get_cities(&w, "DE", "b", usize::MAX).unwrap(), strings(&["Berlin", "Bonn", "Bremen"]));
    assert_eq!(get_cities(&w, "DE", "Br", usize::MAX).unwrap(), strings(&["Bremen"]));
    assert_eq!(get_cities(&w, "DE", "x", usize::MAX).unwrap(), Vec::<String>::new());
}

#[test]
fn prefix_results_are_among_all() {
    let w = sample_world();
    let all = get_cities(&w, "DE", "", usize::MAX).unwrap();
    for p in ["b", "bo", "BR", "z", "berlin"] {
        for c in get_cities(&w, "DE", p, usize::MAX).unwrap() {
            assert!(all.contains(&c));
        }
    }
}

#[test]
fn max_items_zero_gives_empty() {
    let w = sample_world();
    assert_eq!(get_cities(&w, "DE", "", 0), Ok(Vec::new()));
    assert_eq!(get_housenumbers(&w, "DE", "Berlin", "10115", "Invalidenstr.", "", 0), Ok(Vec::new()));
}

#[test]
fn country_code_case_is_ignored() {
    let w = sample_world();
    assert_eq!(get_cities(&w, "DE", "", usize::MAX), get_cities(&w, "de", "", usize::MAX));
    assert_eq!(get_zips(&w, "de", "BERLIN", "", usize::MAX).unwrap(), strings(&["10115", "10117"]));
}

#[test]
fn query_not_found() {
    let w = sample_world();
    assert_eq!(get_streets(&w, "XX", "Nowhere", "00000", "", usize::MAX), Err(Missing::Country));
    assert_eq!(get_streets(&w, "DE", "Nowhere", "00000", "", usize::MAX), Err(Missing::City));
    assert_eq!(get_streets(&w, "DE", "Berlin", "00000", "", usize::MAX), Err(Missing::Zip));
    assert_eq!(get_housenumbers(&w, "DE", "Berlin", "10115", "Nowhere", "", usize::MAX), Err(Missing::Street));
    assert_eq!(get_cities(&w, "XX", "", usize::MAX), Err(Missing::Country));
}

#[test]
fn prefix_case() {
    let w = build_world(vec![addr("DE", "Berlin", "10115", "Königstraße", "1")]);
    assert_eq!(get_streets(&w, "DE", "Berlin", "10115", "kÖN", usize::MAX).unwrap(), strings(&["Königstraße"]));
    assert!(starts_with_folded("Königstraße", "KÖNIG"));
    assert!(!starts_with_folded("Königstraße", "Kx"));
}

#[test]
fn insert_then_sort() {
    let streets = SortedVec::from_vec(strings(&["B", "A"]));
    let numbers = SortedVec::from_vec(strings(&["3a"]));
    let mut w = World::new(streets, numbers);
    w.insert_address("SE".into(), "Uppsala".into(), "75105".into(), "B".into(), "3a".into());
    w.insert_address("DE".into(), "Berlin".into(), "10115".into(), "A".into(), "7".into());
    w.insert_address("SE".into(), "Uppsala".into(), "75105".into(), "A".into(), "9".into());
    assert_eq!(w.count(), 2);
    w.sort();
    assert_eq!(w.countries()[0].code(), "DE");
    assert_eq!(w.countries()[1].code(), "SE");
    assert_eq!(get_streets(&w, "SE", "Uppsala", "75105", "", 10).unwrap(), strings(&["A", "B"]));
    assert_eq!(get_housenumbers(&w, "SE", "Uppsala", "75105", "B", "", 10).unwrap(), strings(&["3a"]));
}

fn catalog() -> World {
    build_world(vec![
        addr("SE", "Uppsala", "75105", "Storgatan", "3"),
        addr("US", "Springfield", "62701", "Main St", "2"),
        addr("GB", "Springfield", "CM1", "High St", "4"),
        addr("DE", "Berlin", "10115", "Invalidenstr.", "117"),
    ])
}

#[test]
fn autofix_country() {
    let w = catalog();
    let (fixed, left) = try_autofixing(
        &w,
        vec![incomplete(None, Some("Uppsala"), Some("75105"), Some("Storgatan"), Some("1"))],
    );
    assert_eq!(left.len(), 0);
    assert_eq!(fixed.len(), 1);
    assert_eq!(fixed[0].country, "SE");
    assert_eq!(fixed[0].city, "Uppsala");
    assert_eq!(fixed[0].housenumber, "1");
}

#[test]
fn autofix_ambiguous() {
    let w = catalog();
    let (fixed, left) = try_autofixing(&w, vec![incomplete(None, Some("Springfield"), None, Some("Main St"), Some("1"))]);
    assert_eq!(fixed.len(), 0);
    assert_eq!(left.len(), 1);
    assert_eq!(left[0].city.as_deref(), Some("Springfield"));
    assert!(get_country_from_city_zip(&w, "Springfield".to_string(), None).is_none());
    assert_eq!(
        get_country_from_city_zip(&w, "Springfield".to_string(), Some("62701".to_string())).map(|c| c.code().clone()),
        Some("US".to_string())
    );
}

#[test]
fn autofix_city_then_country() {
    let w = catalog();
    let (fixed, left) = try_autofixing(&w, vec![incomplete(None, None, Some("10115"), Some("Chausseestr."), Some("8"))]);
    assert_eq!(left.len(), 0);
    assert_eq!(fixed.len(), 1);
    assert_eq!(fixed[0].country, "DE");
    assert_eq!(fixed[0].city, "Berlin");
    assert_eq!(
        get_city_from_country_zip(&w, Some("DE".to_string()), "10115".to_string()).map(|c| c.name().clone()),
        Some("Berlin".to_string())
    );
    assert!(get_city_from_country_zip(&w, Some("SE".to_string()), "10115".to_string()).is_none());
}

#[test]
fn autofix_keeps_order_and_drops() {
    let w = catalog();
    let (fixed, left) = try_autofixing(
        &w,
        vec![
            incomplete(Some("DE"), Some("Berlin"), Some("10115"), Some("A"), Some("1")),
            incomplete(Some("DE"), Some("Berlin"), None, Some("A"), Some("2")),
            incomplete(None, Some("Nowhere"), None, Some("A"), Some("3")),
            incomplete(Some("SE"), Some("Uppsala"), Some("75105"), Some("B"), Some("4")),
        ],
    );
    assert_eq!(fixed.len(), 2);
    assert_eq!(fixed[0].housenumber, "4");
    assert_eq!(fixed[1].housenumber, "1");
    assert_eq!(left.len(), 1);
    assert_eq!(left[0].housenumber.as_deref(), Some("3"));
}

#[test]
fn unfixable_addresses() {
    assert!(!is_unfixable(&incomplete(Some("DE"), Some("Berlin"), Some("1"), Some("A"), Some("1"))));
    assert!(is_unfixable(&incomplete(Some("DE"), Some("Berlin"), Some("1"), None, Some("1"))));
    assert!(is_unfixable(&incomplete(Some("DE"), Some("Berlin"), Some("1"), Some("A"), None)));
    assert!(!is_unfixable(&incomplete(None, Some("Berlin"), Some("1"), Some("A"), Some("1"))));
    assert!(is_unfixable(&incomplete(None, None, Some("1"), Some("A"), Some("1"))));
}

#[test]
fn incomplete_into_complete() {
    let a = incomplete(Some("DE"), Some("Berlin"), Some("1"), Some("A"), Some("1"));
    assert!(a.is_complete());
    assert_eq!(a.into_complete().unwrap().street, "A");
    let b = incomplete(Some("DE"), None, Some("1"), Some("A"), Some("1"));
    assert!(!b.is_complete());
    assert!(b.into_complete().is_none());
}

#[test]
fn compress_normalizes_countries() {
    let w = compress(vec![
        addr("Germany", "Berlin", "10115", "Invalidenstr.", "117"),
        addr("DE", "Berlin", "10115", "Invalidenstr.", "118"),
        addr("Atlantis", "Poseidonia", "1", "Main", "1"),
    ]);
    assert_eq!(w.count(), 2);
    assert_eq!(
        get_housenumbers(&w, "DE", "Berlin", "10115", "Invalidenstr.", "", usize::MAX).unwrap(),
        strings(&["117", "118"])
    );
    assert_eq!(get_cities(&w, "Atlantis", "", usize::MAX).unwrap(), strings(&["Poseidonia"]));
}

#[test]
fn max_items_header() {
    assert_eq!(max_items_from_header("10"), 10);
    assert_eq!(max_items_from_header("0"), 0);
    assert_eq!(max_items_from_header("+5"), 5);
    assert_eq!(max_items_from_header("007"), 7);
    assert_eq!(max_items_from_header(""), usize::MAX);
    assert_eq!(max_items_from_header("+"), usize::MAX);
    assert_eq!(max_items_from_header("abc"), usize::MAX);
    assert_eq!(max_items_from_header("-1"), usize::MAX);
    assert_eq!(max_items_from_header("1 "), usize::MAX);
    assert_eq!(max_items_from_header("ä1"), usize::MAX);
    assert_eq!(max_items_from_header("18446744073709551615"), usize::MAX);
    assert_eq!(max_items_from_header("18446744073709551616"), usize::MAX);
    assert_eq!(max_items_from_header("18446744073709551614"), 18446744073709551614);
}
