//! Address records taken from map entities, and the byte counter that
//! reports how far the reader has come.
use vstd::prelude::*;
use crate::autofix::opt_view;
use crate::geometry::{
    distinct_ids, pos_view, relation_position, relation_to_coordinates, way_position, way_to_coordinates, Entity,
    GeometryError,
};

verus! {

/// An entity carries an address where it has both a street and a house number.
pub fn is_address(street: &Option<String>, housenumber: &Option<String>) -> (r: bool)
    ensures
        r == (street is Some && housenumber is Some),
{
    street.is_some() && housenumber.is_some()
}

/// An address as tagged on a map entity: street and house number present,
/// the rest optional.
pub struct IncompleteAddress {
    pub country: Option<String>,
    pub city: Option<String>,
    pub zip: Option<String>,
    pub street: String,
    pub housenumber: String,
}

impl IncompleteAddress {
    /// The address from the values of the `addr:country`, `addr:city`,
    /// `addr:postcode`, `addr:street` and `addr:housenumber` tags; `None`
    /// without a street or a house number.
    pub fn from_tags(
        country: Option<String>,
        city: Option<String>,
        zip: Option<String>,
        street: Option<String>,
        housenumber: Option<String>,
    ) -> (r: Option<IncompleteAddress>)
        ensures
            match r {
                Some(a) => street is Some && housenumber is Some && a.street@ == street->Some_0@
                    && a.housenumber@ == housenumber->Some_0@ && opt_view(a.country) == opt_view(country)
                    && opt_view(a.city) == opt_view(city) && opt_view(a.zip) == opt_view(zip),
                None => street is None || housenumber is None,
            },
    {
        match (street, housenumber) {
            (Some(street), Some(housenumber)) => Some(IncompleteAddress { country, city, zip, street, housenumber }),
            _ => None,
        }
    }
}

/// An address with the position of the entity that carries it.
pub struct IncompleteAddressCoord {
    pub country: Option<String>,
    pub city: Option<String>,
    pub zip: Option<String>,
    pub street: String,
    pub housenumber: String,
    pub long: i32,
    pub lat: i32,
}

impl IncompleteAddressCoord {
    pub fn from_incomplete_address_and_coords(inc: IncompleteAddress, long: i32, lat: i32) -> (r: IncompleteAddressCoord)
        ensures
            opt_view(r.country) == opt_view(inc.country),
            opt_view(r.city) == opt_view(inc.city),
            opt_view(r.zip) == opt_view(inc.zip),
            r.street@ == inc.street@,
            r.housenumber@ == inc.housenumber@,
            r.long == long,
            r.lat == lat,
    {
        IncompleteAddressCoord {
            country: inc.country,
            city: inc.city,
            zip: inc.zip,
            street: inc.street,
            housenumber: inc.housenumber,
            long,
            lat,
        }
    }

    /// The address from the values of its tags, placed at `long`, `lat`;
    /// `None` without a street or a house number.
    pub fn from_tags_and_coords(
        country: Option<String>,
        city: Option<String>,
        zip: Option<String>,
        street: Option<String>,
        housenumber: Option<String>,
        long: i32,
        lat: i32,
    ) -> (r: Option<IncompleteAddressCoord>)
        ensures
            match r {
                Some(a) => street is Some && housenumber is Some && a.street@ == street->Some_0@
                    && a.housenumber@ == housenumber->Some_0@ && opt_view(a.country) == opt_view(country)
                    && opt_view(a.city) == opt_view(city) && opt_view(a.zip) == opt_view(zip) && a.long == long
                    && a.lat == lat,
                None => street is None || housenumber is None,
            },
    {
        match IncompleteAddress::from_tags(country, city, zip, street, housenumber) {
            Some(inc) => Some(IncompleteAddressCoord::from_incomplete_address_and_coords(inc, long, lat)),
            None => None,
        }
    }
}

/// The position of an entity: a node's own, a way's or a relation's mean.
pub open spec fn entity_position(e: Entity, deps: Seq<Entity>, depth: nat) -> Result<(int, int), GeometryError> {
    match e {
        Entity::Node { lon, lat, .. } => Ok((lon as int, lat as int)),
        Entity::Way { id, nodes } => way_position(id, nodes@, deps),
        Entity::Relation { id, members } => relation_position(id, members@, deps, depth),
    }
}

/// The address placed at the position of the entity that carries it.
pub fn locate(inc: IncompleteAddress, entity: &Entity, deps: &Vec<Entity>) -> (r: Result<IncompleteAddressCoord, GeometryError>)
    requires
        distinct_ids(deps@),
    ensures
        match (r, entity_position(*entity, deps@, deps@.len() as nat)) {
            (Ok(a), Ok(p)) => a.long == p.0 && a.lat == p.1 && a.street@ == inc.street@ && a.housenumber@ == inc.housenumber@
                && opt_view(a.country) == opt_view(inc.country) && opt_view(a.city) == opt_view(inc.city)
                && opt_view(a.zip) == opt_view(inc.zip),
            (Err(e), Err(f)) => e == f,
            _ => false,
        },
{
    let position = match entity {
        Entity::Node { lon, lat, .. } => Ok((*lon, *lat)),
        Entity::Way { id, nodes } => way_to_coordinates(*id, nodes, deps),
        Entity::Relation { id, members } => relation_to_coordinates(*id, members, deps, deps.len()),
    };
    proof {
        assert(pos_view(position) == entity_position(*entity, deps@, deps@.len() as nat));
    }
    match position {
        Ok((long, lat)) => Ok(IncompleteAddressCoord::from_incomplete_address_and_coords(inc, long, lat)),
        Err(e) => Err(e),
    }
}

/// How many reads pass between two reports of the byte count.
pub const REPORT_EVERY: usize = 250;

/// Counts the bytes read; every `REPORT_EVERY` reads the count is due to be
/// reported.
pub struct CountingReader {
    count_fast: usize,
    count_count: usize,
}

impl CountingReader {
    pub closed spec fn bytes(&self) -> nat {
        self.count_fast as nat
    }

    pub closed spec fn reads(&self) -> nat {
        self.count_count as nat
    }

    pub open spec fn wf(&self) -> bool {
        self.reads() < REPORT_EVERY
    }

    pub fn new() -> (r: CountingReader)
        ensures
            r.bytes() == 0,
            r.reads() == 0,
            r.wf(),
    {
        CountingReader { count_fast: 0, count_count: 0 }
    }

    pub fn bytes_read(&self) -> (r: usize)
        ensures
            r == self.bytes(),
    {
        self.count_fast
    }

    /// Adds a read of `increase` bytes; returns the byte count where it is
    /// due to be reported.
    pub fn increase(&mut self, increase: usize) -> (r: Option<usize>)
        requires
            old(self).wf(),
            old(self).bytes() + increase <= usize::MAX,
        ensures
            final(self).wf(),
            final(self).bytes() == old(self).bytes() + increase,
            old(self).reads() + 1 == REPORT_EVERY ==> final(self).reads() == 0 && r == Some(final(self).bytes() as usize),
            old(self).reads() + 1 < REPORT_EVERY ==> final(self).reads() == old(self).reads() + 1 && r is None,
    {
        self.count_fast = self.count_fast + increase;
        self.count_count = self.count_count + 1;
        if self.count_count == REPORT_EVERY {
            self.count_count = 0;
            Some(self.count_fast)
        } else {
            None
        }
    }
}

} // verus!
