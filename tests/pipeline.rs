use macs::address::Address;
use macs::builder::{build_world, load_world, SnapshotError};
use macs::compress::World;
use macs::extract::{is_address, locate, CountingReader, IncompleteAddress, IncompleteAddressCoord, REPORT_EVERY};
use macs::geometry::{avg_coords, relation_to_coordinates, way_to_coordinates, Entity, GeometryError, MemberId};
use macs::query::{get_cities, get_housenumbers, get_streets, get_zips};
use macs::sorted_vec::SortedVec;

fn addr(country: &str, city: &str, postcode: &str, street: &str, housenumber: &str) -> Address {
    Address {
        country: country.to_string(),
        city: city.to_string(),
        postcode: postcode.to_string(),
        street: street.to_string(),
        housenumber: housenumber.to_string(),
    }
}

fn strings(v: &[&str]) -> Vec<String> {
    v.iter().map(|s| s.to_string()).collect()
}

fn fixture() -> Vec<Address> {
    let countries = ["DE", "SE", "FR", "GB"];
    let mut out = Vec::new();
    for i in 0..1000usize {
        let country = countries[i % 4];
        let city = format!("City{}", i % 7);
        let zip = format!("{:05}", i % 13);
        let street = format!("Street {}", i % 17);
        let number = if i % 5 == 0 { format!("{}a", i % 50) } else { format!("{}", i % 50) };
        out.push(addr(country, &city, &zip, &street, &number));
    }
    out
}

fn reload(w: &World) -> World {
    let streets = w.unique_streets().as_vec().clone();
    let numbers = w.housenumbers().as_vec().clone();
    load_world(streets, numbers, w.addresses()).unwrap()
}

#[test]
fn round_trip() {
    let w = build_world(fixture());
    let back = reload(&w);
    assert_eq!(w.count(), back.count());
    assert_eq!(w.unique_streets().as_vec(), back.unique_streets().as_vec());
    assert_eq!(w.housenumbers().as_vec(), back.housenumbers().as_vec());
    for (c, city, zip, street) in [
        ("DE", "City0", "00000", "Street 0"),
        ("SE", "City1", "00001", "Street 1"),
        ("FR", "City2", "00002", "Street 2"),
        ("GB", "City3", "00003", "Street 3"),
        ("DE", "City4", "00004", "Street 4"),
    ] {
        assert_eq!(get_cities(&w, c, "", usize::MAX), get_cities(&back, c, "", usize::MAX));
        assert_eq!(get_zips(&w, c, city, "", usize::MAX), get_zips(&back, c, city, "", usize::MAX));
        assert_eq!(get_streets(&w, c, city, zip, "", usize::MAX), get_streets(&back, c, city, zip, "", usize::MAX));
        assert_eq!(
            get_housenumbers(&w, c, city, zip, street, "", usize::MAX),
            get_housenumbers(&back, c, city, zip, street, "", usize::MAX)
        );
        assert_eq!(get_cities(&w, c, "city1", 3), get_cities(&back, c, "city1", 3));
    }
}

#[test]
fn listing_holds_every_address() {
    let w = build_world(vec![addr("DE", "Berlin", "10115", "A", "1"), addr("DE", "Berlin", "10115", "A", "1a")]);
    let mut listed: Vec<String> = w.addresses().into_iter().map(|a| a.housenumber).collect();
    listed.sort();
    assert_eq!(listed, strings(&["1", "1a"]));
}

#[test]
fn load_rejects_bad_snapshots() {
    let ok = load_world(strings(&["A", "B"]), strings(&["1a"]), vec![addr("DE", "X", "1", "A", "1a")]);
    assert!(ok.is_ok());
    assert!(matches!(load_world(strings(&["B", "A"]), vec![], vec![]), Err(SnapshotError::StreetTable)));
    assert!(matches!(load_world(strings(&["A", "A"]), vec![], vec![]), Err(SnapshotError::StreetTable)));
    assert!(matches!(load_world(strings(&["A"]), strings(&["12"]), vec![]), Err(SnapshotError::NumberTable)));
    assert!(matches!(load_world(strings(&["A"]), strings(&["b", "a"]), vec![]), Err(SnapshotError::NumberTable)));
    assert!(matches!(
        load_world(strings(&["A"]), vec![], vec![addr("DE", "X", "1", "B", "1")]),
        Err(SnapshotError::UnknownStreet)
    ));
    assert!(matches!(
        load_world(strings(&["A"]), vec![], vec![addr("DE", "X", "1", "A", "1b")]),
        Err(SnapshotError::UnknownHousenumber)
    ));
}

#[test]
fn from_sorted_checks_order() {
    assert!(SortedVec::from_sorted(strings(&["a", "b", "c"])).is_some());
    assert!(SortedVec::from_sorted(strings(&["a", "c", "b"])).is_none());
    assert!(SortedVec::from_sorted(Vec::new()).is_some());
}

#[test]
fn mean_truncates_toward_zero() {
    assert_eq!(avg_coords(&vec![(1, 2), (2, 3)]), (1, 2));
    assert_eq!(avg_coords(&vec![(-1, -2), (-2, -3)]), (-1, -2));
    assert_eq!(avg_coords(&vec![(i32::MAX, i32::MIN), (i32::MAX, i32::MIN)]), (i32::MAX, i32::MIN));
    assert_eq!(avg_coords(&vec![(7, -7)]), (7, -7));
}

fn deps() -> Vec<Entity> {
    vec![
        Entity::Node { id: 1, lon: 10, lat: 20 },
        Entity::Node { id: 2, lon: 20, lat: 40 },
        Entity::Node { id: 3, lon: -30, lat: 0 },
        Entity::Way { id: 10, nodes: vec![1, 2] },
        Entity::Relation { id: 20, members: vec![MemberId::Way(10), MemberId::Node(3)] },
        Entity::Relation { id: 30, members: vec![MemberId::Relation(31)] },
        Entity::Relation { id: 31, members: vec![MemberId::Relation(30)] },
    ]
}

#[test]
fn way_position_is_mean_of_nodes() {
    assert_eq!(way_to_coordinates(10, &vec![1, 2], &deps()), Ok((15, 30)));
    assert_eq!(way_to_coordinates(11, &vec![1, 99], &deps()), Err(GeometryError::WayMissingNode(11)));
    assert_eq!(way_to_coordinates(12, &vec![], &deps()), Err(GeometryError::WayWithoutNodes(12)));
}

#[test]
fn relation_position_resolves_members() {
    let d = deps();
    assert_eq!(relation_to_coordinates(20, &vec![MemberId::Way(10), MemberId::Node(3)], &d, d.len()), Ok((-7, 15)));
    assert_eq!(
        relation_to_coordinates(21, &vec![MemberId::Node(42)], &d, d.len()),
        Err(GeometryError::RelationMissingMember(21))
    );
    assert_eq!(relation_to_coordinates(22, &vec![], &d, d.len()), Err(GeometryError::RelationWithoutMembers(22)));
    assert!(matches!(
        relation_to_coordinates(30, &vec![MemberId::Relation(31)], &d, d.len()),
        Err(GeometryError::RelationCycle(_))
    ));
}

#[test]
fn addresses_from_tags() {
    assert!(is_address(&Some("A".to_string()), &Some("1".to_string())));
    assert!(!is_address(&None, &Some("1".to_string())));
    assert!(IncompleteAddress::from_tags(None, None, None, Some("A".into()), None).is_none());
    let inc = IncompleteAddress::from_tags(Some("DE".into()), None, None, Some("A".into()), Some("1".into())).unwrap();
    let placed = locate(inc, &Entity::Way { id: 10, nodes: vec![1, 2] }, &deps()).unwrap();
    assert_eq!((placed.long, placed.lat), (15, 30));
    assert_eq!(placed.country.as_deref(), Some("DE"));
    let inc = IncompleteAddress::from_tags(None, None, None, Some("A".into()), Some("1".into())).unwrap();
    let p: IncompleteAddressCoord = IncompleteAddressCoord::from_incomplete_address_and_coords(inc, 5, 6);
    assert_eq!((p.long, p.lat, p.street.as_str()), (5, 6, "A"));
}

#[test]
fn counter_reports_periodically() {
    let mut c = CountingReader::new();
    let mut reports = Vec::new();
    for _ in 0..(2 * REPORT_EVERY) {
        if let Some(total) = c.increase(3) {
            reports.push(total);
        }
    }
    assert_eq!(reports, vec![3 * REPORT_EVERY, 6 * REPORT_EVERY]);
    assert_eq!(c.bytes_read(), 6 * REPORT_EVERY);
}

#[test]
fn address_with_coordinates_from_tags() {
    let a = IncompleteAddressCoord::from_tags_and_coords(None, Some("Berlin".into()), None, Some("A".into()), Some("1".into()), -3, 4)
        .unwrap();
    assert_eq!((a.long, a.lat), (-3, 4));
    assert_eq!(a.city.as_deref(), Some("Berlin"));
    assert!(IncompleteAddressCoord::from_tags_and_coords(None, None, None, None, Some("1".into()), 0, 0).is_none());
}
