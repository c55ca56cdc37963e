//! Positions of map entities: a node has its own; a way sits at the mean of
//! its nodes; a relation at the mean of its members, resolved in turn.
//! Coordinates are in units of 1e-7 degree; means truncate toward zero.
use vstd::prelude::*;

verus! {

/// The id of a map entity, by kind.
#[derive(PartialEq, Eq, Structural, Clone, Copy, Debug)]
pub enum MemberId {
    Node(i64),
    Way(i64),
    Relation(i64),
}

/// A map entity, as far as its position is concerned.
pub enum Entity {
    Node { id: i64, lon: i32, lat: i32 },
    Way { id: i64, nodes: Vec<i64> },
    Relation { id: i64, members: Vec<MemberId> },
}

/// Why a position could not be found.
#[derive(PartialEq, Eq, Structural, Clone, Copy, Debug)]
pub enum GeometryError {
    /// The way refers to a node that is not at hand.
    WayMissingNode(i64),
    /// The way has no nodes.
    WayWithoutNodes(i64),
    /// The relation refers to a member that is not at hand.
    RelationMissingMember(i64),
    /// The relation has no members.
    RelationWithoutMembers(i64),
    /// The relation contains itself, directly or through other relations.
    RelationCycle(i64),
}

impl Entity {
    pub open spec fn member_id(&self) -> MemberId {
        match self {
            Entity::Node { id, .. } => MemberId::Node(*id),
            Entity::Way { id, .. } => MemberId::Way(*id),
            Entity::Relation { id, .. } => MemberId::Relation(*id),
        }
    }

    pub fn id(&self) -> (r: MemberId)
        ensures
            r == self.member_id(),
    {
        match self {
            Entity::Node { id, .. } => MemberId::Node(*id),
            Entity::Way { id, .. } => MemberId::Way(*id),
            Entity::Relation { id, .. } => MemberId::Relation(*id),
        }
    }
}

/// No two entities share an id.
pub open spec fn distinct_ids(deps: Seq<Entity>) -> bool {
    forall|a: int, b: int| 0 <= a < b < deps.len() ==> (#[trigger] deps[a]).member_id() != (#[trigger] deps[b]).member_id()
}

/// The entity with id `id`, if at hand.
pub open spec fn lookup(deps: Seq<Entity>, id: MemberId) -> Option<Entity> {
    if exists|k: int| 0 <= k < deps.len() && (#[trigger] deps[k]).member_id() == id {
        Some(deps[choose|k: int| 0 <= k < deps.len() && (#[trigger] deps[k]).member_id() == id])
    } else {
        None
    }
}

pub open spec fn sum_lon(s: Seq<(i32, i32)>) -> int
    decreases s.len(),
{
    if s.len() == 0 {
        0
    } else {
        sum_lon(s.drop_last()) + s.last().0
    }
}

pub open spec fn sum_lat(s: Seq<(i32, i32)>) -> int
    decreases s.len(),
{
    if s.len() == 0 {
        0
    } else {
        sum_lat(s.drop_last()) + s.last().1
    }
}

/// Division that truncates toward zero, as integer division does.
pub open spec fn div_trunc(a: int, n: int) -> int {
    if a >= 0 {
        a / n
    } else {
        -((-a) / n)
    }
}

/// The mean of the coordinates, each dimension on its own.
pub open spec fn mean(s: Seq<(i32, i32)>) -> (int, int) {
    (div_trunc(sum_lon(s), s.len() as int), div_trunc(sum_lat(s), s.len() as int))
}

proof fn lemma_sum_bounds(s: Seq<(i32, i32)>)
    ensures
        -2147483648 * s.len() <= sum_lon(s) <= 2147483647 * s.len(),
        -2147483648 * s.len() <= sum_lat(s) <= 2147483647 * s.len(),
    decreases s.len(),
{
    if s.len() > 0 {
        lemma_sum_bounds(s.drop_last());
    }
}

proof fn lemma_div_trunc_bounds(a: int, n: int)
    requires
        n > 0,
        -2147483648 * n <= a <= 2147483647 * n,
    ensures
        -2147483648 <= div_trunc(a, n) <= 2147483647,
{
    if a >= 0 {
        assert(a / n <= 2147483647) by (nonlinear_arith)
            requires a <= 2147483647 * n, n > 0, a >= 0;
        assert(a / n >= 0) by (nonlinear_arith)
            requires n > 0, a >= 0;
    } else {
        assert((-a) / n <= 2147483648) by (nonlinear_arith)
            requires -a <= 2147483648 * n, n > 0, -a > 0;
        assert((-a) / n >= 0) by (nonlinear_arith)
            requires n > 0, -a > 0;
    }
}

fn div_trunc_exec(a: i128, n: i128) -> (r: i32)
    requires
        0 < n <= 18446744073709551615,
        -2147483648 * n <= a <= 2147483647 * n,
    ensures
        r as int == div_trunc(a as int, n as int),
{
    proof {
        lemma_div_trunc_bounds(a as int, n as int);
    }
    if a >= 0 {
        (a / n) as i32
    } else {
        assert(-a <= 2147483648 * n) by (nonlinear_arith)
            requires -2147483648 * n <= a;
        assert(2147483648 * n <= 2147483648 * 18446744073709551615) by (nonlinear_arith)
            requires 0 < n <= 18446744073709551615;
        let m = -a;
        -((m / n) as i128) as i32
    }
}

/// The mean of a non-empty list of coordinates, truncated toward zero.
pub fn avg_coords(coords: &Vec<(i32, i32)>) -> (r: (i32, i32))
    requires
        coords@.len() > 0,
    ensures
        (r.0 as int, r.1 as int) == mean(coords@),
{
    let n = coords.len();
    let mut lon: i128 = 0;
    let mut lat: i128 = 0;
    let mut i: usize = 0;
    while i < n
        invariant
            n == coords@.len(),
            i <= n,
            lon as int == sum_lon(coords@.subrange(0, i as int)),
            lat as int == sum_lat(coords@.subrange(0, i as int)),
            -2147483648 * i <= lon <= 2147483647 * i,
            -2147483648 * i <= lat <= 2147483647 * i,
        decreases n - i,
    {
        proof {
            assert(coords@.subrange(0, i + 1).drop_last() =~= coords@.subrange(0, i as int));
            assert(i < 18446744073709551616);
        }
        lon = lon + coords[i].0 as i128;
        lat = lat + coords[i].1 as i128;
        i = i + 1;
    }
    proof {
        assert(coords@.subrange(0, n as int) =~= coords@);
    }
    (div_trunc_exec(lon, n as i128), div_trunc_exec(lat, n as i128))
}

/// The coordinates of the nodes, where all of them are at hand.
pub open spec fn node_coords(nodes: Seq<i64>, deps: Seq<Entity>) -> Option<Seq<(i32, i32)>>
    decreases nodes.len(),
{
    if nodes.len() == 0 {
        Some(Seq::empty())
    } else {
        match node_coords(nodes.drop_last(), deps) {
            None => None,
            Some(cs) => match lookup(deps, MemberId::Node(nodes.last())) {
                Some(Entity::Node { lon, lat, .. }) => Some(cs.push((lon, lat))),
                _ => None,
            },
        }
    }
}

/// The position of a way: the mean of its nodes.
pub open spec fn way_position(way: i64, nodes: Seq<i64>, deps: Seq<Entity>) -> Result<(int, int), GeometryError> {
    match node_coords(nodes, deps) {
        None => Err(GeometryError::WayMissingNode(way)),
        Some(cs) => if cs.len() == 0 {
            Err(GeometryError::WayWithoutNodes(way))
        } else {
            Ok(mean(cs))
        },
    }
}

pub open spec fn pos_view(r: Result<(i32, i32), GeometryError>) -> Result<(int, int), GeometryError> {
    match r {
        Ok(p) => Ok((p.0 as int, p.1 as int)),
        Err(e) => Err(e),
    }
}

/// The entity with that id among `deps`.
pub fn find_entity<'a>(deps: &'a Vec<Entity>, id: MemberId) -> (r: Option<&'a Entity>)
    requires
        distinct_ids(deps@),
    ensures
        match r {
            Some(e) => lookup(deps@, id) == Some(*e),
            None => lookup(deps@, id).is_none(),
        },
{
    let mut k: usize = 0;
    while k < deps.len()
        invariant
            distinct_ids(deps@),
            k <= deps@.len(),
            forall|j: int| 0 <= j < k ==> (#[trigger] deps@[j]).member_id() != id,
        decreases deps@.len() - k,
    {
        if deps[k].id() == id {
            proof {
                let c = choose|c: int| 0 <= c < deps@.len() && (#[trigger] deps@[c]).member_id() == id;
                if c != k {
                    if c < k {
                        assert(deps@[c].member_id() != deps@[k as int].member_id());
                    } else {
                        assert(deps@[k as int].member_id() != deps@[c].member_id());
                    }
                }
            }
            return Some(&deps[k]);
        }
        k = k + 1;
    }
    None
}

/// The position of way `way` with the nodes `nodes`, looked up in `deps`.
pub fn way_to_coordinates(way: i64, nodes: &Vec<i64>, deps: &Vec<Entity>) -> (r: Result<(i32, i32), GeometryError>)
    requires
        distinct_ids(deps@),
    ensures
        pos_view(r) == way_position(way, nodes@, deps@),
{
    let mut coords: Vec<(i32, i32)> = Vec::new();
    let mut i: usize = 0;
    while i < nodes.len()
        invariant
            distinct_ids(deps@),
            i <= nodes@.len(),
            node_coords(nodes@.subrange(0, i as int), deps@) == Some(coords@),
        decreases nodes@.len() - i,
    {
        proof {
            assert(nodes@.subrange(0, i + 1).drop_last() =~= nodes@.subrange(0, i as int));
        }
        match find_entity(deps, MemberId::Node(nodes[i])) {
            Some(Entity::Node { lon, lat, .. }) => {
                coords.push((*lon, *lat));
            },
            _ => {
                proof {
                    lemma_node_coords_none(nodes@, deps@, i as int + 1);
                }
                return Err(GeometryError::WayMissingNode(way));
            },
        }
        i = i + 1;
    }
    proof {
        assert(nodes@.subrange(0, nodes@.len() as int) =~= nodes@);
    }
    if coords.len() == 0 {
        return Err(GeometryError::WayWithoutNodes(way));
    }
    Ok(avg_coords(&coords))
}

/// Once a prefix of the nodes lacks one, the whole list does.
proof fn lemma_node_coords_none(nodes: Seq<i64>, deps: Seq<Entity>, i: int)
    requires
        0 <= i <= nodes.len(),
        node_coords(nodes.subrange(0, i), deps) is None,
    ensures
        node_coords(nodes, deps) is None,
    decreases nodes.len() - i,
{
    if i < nodes.len() {
        assert(nodes.subrange(0, i + 1).drop_last() =~= nodes.subrange(0, i));
        lemma_node_coords_none(nodes, deps, i + 1);
    } else {
        assert(nodes.subrange(0, i) =~= nodes);
    }
}

/// The positions of the members of relation `rel`, in order; the first
/// failure where one has none. `depth` bounds how deep relations nest.
pub open spec fn member_positions(rel: i64, members: Seq<MemberId>, deps: Seq<Entity>, depth: nat) -> Result<Seq<(i32, i32)>, GeometryError>
    decreases depth, members.len(), 1nat,
{
    if members.len() == 0 {
        Ok(Seq::empty())
    } else {
        match member_positions(rel, members.drop_last(), deps, depth) {
            Err(e) => Err(e),
            Ok(ps) => match member_position(rel, members.last(), deps, depth) {
                Err(e) => Err(e),
                Ok(p) => Ok(ps.push((p.0 as i32, p.1 as i32))),
            },
        }
    }
}

/// The position of one member of relation `rel`.
pub open spec fn member_position(rel: i64, m: MemberId, deps: Seq<Entity>, depth: nat) -> Result<(int, int), GeometryError>
    decreases depth, 0nat, 0nat,
{
    match lookup(deps, m) {
        None => Err(GeometryError::RelationMissingMember(rel)),
        Some(Entity::Node { lon, lat, .. }) => Ok((lon as int, lat as int)),
        Some(Entity::Way { id, nodes }) => way_position(id, nodes@, deps),
        Some(Entity::Relation { id, members }) => if depth == 0 {
            Err(GeometryError::RelationCycle(id))
        } else {
            relation_position(id, members@, deps, (depth - 1) as nat)
        },
    }
}

/// The position of a relation: the mean of the positions of its members.
pub open spec fn relation_position(rel: i64, members: Seq<MemberId>, deps: Seq<Entity>, depth: nat) -> Result<(int, int), GeometryError>
    decreases depth, members.len(), 2nat,
{
    match member_positions(rel, members, deps, depth) {
        Err(e) => Err(e),
        Ok(ps) => if ps.len() == 0 {
            Err(GeometryError::RelationWithoutMembers(rel))
        } else {
            Ok(mean(ps))
        },
    }
}

/// The position of relation `rel` with the members `members`, looked up in
/// `deps`; a relation nested more than `depth` deep counts as a cycle.
pub fn relation_to_coordinates(rel: i64, members: &Vec<MemberId>, deps: &Vec<Entity>, depth: usize) -> (r: Result<(i32, i32), GeometryError>)
    requires
        distinct_ids(deps@),
    ensures
        pos_view(r) == relation_position(rel, members@, deps@, depth as nat),
    decreases depth, members@.len(), 2nat,
{
    let mut coords: Vec<(i32, i32)> = Vec::new();
    let mut i: usize = 0;
    while i < members.len()
        invariant
            distinct_ids(deps@),
            i <= members@.len(),
            member_positions(rel, members@.subrange(0, i as int), deps@, depth as nat) == Ok::<Seq<(i32, i32)>, GeometryError>(coords@),
        decreases members@.len() - i,
    {
        proof {
            assert(members@.subrange(0, i + 1).drop_last() =~= members@.subrange(0, i as int));
            assert(members@.subrange(0, i + 1).last() == members@[i as int]);
        }
        let position = match find_entity(deps, members[i]) {
            None => Err(GeometryError::RelationMissingMember(rel)),
            Some(Entity::Node { lon, lat, .. }) => Ok((*lon, *lat)),
            Some(Entity::Way { id, nodes }) => way_to_coordinates(*id, nodes, deps),
            Some(Entity::Relation { id, members: inner }) => {
                if depth == 0 {
                    Err(GeometryError::RelationCycle(*id))
                } else {
                    relation_to_coordinates(*id, inner, deps, depth - 1)
                }
            },
        };
        proof {
            assert(pos_view(position) == member_position(rel, members@[i as int], deps@, depth as nat));
        }
        match position {
            Ok(p) => {
                coords.push(p);
            },
            Err(e) => {
                proof {
                    lemma_member_positions_err(rel, members@, deps@, depth as nat, i as int + 1);
                }
                return Err(e);
            },
        }
        i = i + 1;
    }
    proof {
        assert(members@.subrange(0, members@.len() as int) =~= members@);
    }
    if coords.len() == 0 {
        return Err(GeometryError::RelationWithoutMembers(rel));
    }
    Ok(avg_coords(&coords))
}

/// Once a prefix of the members fails, the whole list fails the same way.
proof fn lemma_member_positions_err(rel: i64, members: Seq<MemberId>, deps: Seq<Entity>, depth: nat, i: int)
    requires
        0 <= i <= members.len(),
        member_positions(rel, members.subrange(0, i), deps, depth) is Err,
    ensures
        member_positions(rel, members, deps, depth) == member_positions(rel, members.subrange(0, i), deps, depth),
    decreases members.len() - i,
{
    if i < members.len() {
        assert(members.subrange(0, i + 1).drop_last() =~= members.subrange(0, i));
        lemma_member_positions_err(rel, members, deps, depth, i + 1);
    } else {
        assert(members.subrange(0, i) =~= members);
    }
}

} // verus!
