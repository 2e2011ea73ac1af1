use vstd::prelude::*;
use vstd::set_lib::{set_int_range, lemma_int_range};
use crate::chunk::DataSegment;
use crate::point::{Point3D, GlobalLocation, packed};
use crate::volume::Volume;
use crate::seq_lemmas::{lemma_remove_contains, lemma_push_contains};

verus! {

/// Cost of a location that no source reaches.
pub const UNREACHABLE: u32 = 0xffff_ffff;

/// Catalog entry of a voxel material.
pub struct VoxelType {
    pub id: u32,
    pub name: String,
    pub solid: bool,
}

/// One voxel: a material id and optional auxiliary data.
#[derive(Clone, Copy, Debug, Default)]
pub struct Voxel {
    pub id: u32,
    pub extra_data: Option<DataSegment>,
}

/// Whether the catalog knows a material id.
pub open spec fn known_id(id: u32) -> bool {
    id <= 3
}

/// Whether a known material is solid: "unknown" (0) and "stone" (3) are;
/// "air" (1) and "water" (2) are not.
pub open spec fn solid_id(id: u32) -> bool {
    id == 0 || id == 3
}

impl Voxel {
    /// The catalog entry of this voxel's material.
    pub fn get_type(&self) -> (r: VoxelType)
        requires
            known_id(self.id),
        ensures
            r.id == self.id,
            r.solid == solid_id(self.id),
            self.id == 0 ==> r.name@ == "unknown"@,
            self.id == 1 ==> r.name@ == "air"@,
            self.id == 2 ==> r.name@ == "water"@,
            self.id == 3 ==> r.name@ == "stone"@,
    {
        match self.id {
            0 => VoxelType { id: 0, name: "unknown".to_owned(), solid: true },
            1 => VoxelType { id: 1, name: "air".to_owned(), solid: false },
            2 => VoxelType { id: 2, name: "water".to_owned(), solid: false },
            _ => VoxelType { id: 3, name: "stone".to_owned(), solid: true },
        }
    }
}

/// Every voxel of the map has a material that the catalog knows.
pub open spec fn known_voxels(map: &Volume<Voxel>) -> bool {
    forall|l: GlobalLocation| #[trigger] map.in_bounds(l) ==> known_id(map.at(l).id)
}

/// The location directly underneath `l` (meaningful where `l.z > 0`).
pub open spec fn below(l: GlobalLocation) -> GlobalLocation {
    Point3D { x: l.x, y: l.y, z: (l.z - 1) as u32 }
}

/// An agent can stand at `l`: it and the location underneath are in the map,
/// `l` is open and the location underneath is solid.
pub open spec fn traversable(map: &Volume<Voxel>, l: GlobalLocation) -> bool {
    &&& l.z > 0
    &&& map.in_bounds(l)
    &&& map.in_bounds(below(l))
    &&& !solid_id(map.at(l).id)
    &&& solid_id(map.at(below(l)).id)
}

/// Whether the current location can be travelled by a walking agent.
pub fn is_traversable(map: &Volume<Voxel>, location: GlobalLocation) -> (r: bool)
    requires
        map.wf(),
        known_voxels(map),
    ensures
        r == traversable(map, location),
{
    if location.z == 0 {
        return false;
    }
    let location_underneath = GlobalLocation::new(location.x, location.y, location.z - 1);
    map.within_bounds(location) && map.within_bounds(location_underneath)
        && !map.get(location).get_type().solid && map.get(location_underneath).get_type().solid
}

/// A candidate of the search: a location and the cost of reaching it.
#[derive(Clone, Copy, Debug, Default, Hash, PartialEq, Eq, Structural)]
pub struct Node {
    pub location: GlobalLocation,
    pub cost: u32,
}

impl Node {
    /// The deterministic secondary ordering key: the packed location, which
    /// orders locations lexicographically by x, y, z.
    pub fn calculate_hash(&self) -> (r: u128)
        ensures
            r as int == packed(self.location),
    {
        self.location.packed_key()
    }
}

/// `a` is taken from the frontier no later than `b`: lower cost first, ties
/// broken by the packed location.
pub open spec fn precedes(a: Node, b: Node) -> bool {
    a.cost < b.cost || (a.cost == b.cost && packed(a.location) <= packed(b.location))
}

/// Position of the first node of the frontier in `precedes` order.
fn select_min(frontier: &Vec<Node>) -> (k: usize)
    requires
        frontier@.len() > 0,
    ensures
        k < frontier@.len(),
        forall|j: int| 0 <= j < frontier@.len() ==> precedes(frontier@[k as int], #[trigger] frontier@[j]),
{
    let mut best: usize = 0;
    let mut best_key = frontier[0].calculate_hash();
    let mut i: usize = 1;
    while i < frontier.len()
        invariant
            0 < i <= frontier@.len(),
            best < frontier@.len(),
            best_key as int == packed(frontier@[best as int].location),
            forall|j: int| 0 <= j < i ==> precedes(frontier@[best as int], #[trigger] frontier@[j]),
        decreases frontier@.len() - i,
    {
        let key = frontier[i].calculate_hash();
        if frontier[i].cost < frontier[best].cost || (frontier[i].cost == frontier[best].cost
            && key < best_key) {
            best = i;
            best_key = key;
        }
        i = i + 1;
    }
    best
}


/// `a` and `b` are next to each other along one axis.
pub open spec fn adjacent(a: GlobalLocation, b: GlobalLocation) -> bool {
    ||| a.y == b.y && a.z == b.z && (a.x + 1 == b.x || b.x + 1 == a.x)
    ||| a.x == b.x && a.z == b.z && (a.y + 1 == b.y || b.y + 1 == a.y)
    ||| a.x == b.x && a.y == b.y && (a.z + 1 == b.z || b.z + 1 == a.z)
}

/// `(l, c)` is one of the sources.
pub open spec fn is_seed(weights: Seq<(GlobalLocation, u32)>, l: GlobalLocation, c: u32) -> bool {
    exists|i: int| 0 <= i < weights.len() && #[trigger] weights[i] == (l, c)
}

/// Some neighbour of `l` has a finite cost one below `c`.
pub open spec fn has_cheaper_neighbor(field: &Volume<u32>, l: GlobalLocation, c: int) -> bool {
    exists|m: GlobalLocation|
        #[trigger] adjacent(m, l) && field.in_bounds(m) && field.at(m) != UNREACHABLE && field.at(m)
            + 1 == c
}

/// No source lies in the map with a finite cost.
pub open spec fn no_usable_seed(map: &Volume<Voxel>, weights: Seq<(GlobalLocation, u32)>) -> bool {
    forall|i: int|
        0 <= i < weights.len() ==> !map.in_bounds(#[trigger] weights[i].0) || weights[i].1
            == UNREACHABLE
}

/// `field` covers the same cuboid as `map`.
pub open spec fn same_shape(map: &Volume<Voxel>, field: &Volume<u32>) -> bool {
    &&& field.wf()
    &&& field.start() == map.start()
    &&& field.end() == map.end()
}

/// Every finite cost is a source's own cost, or one more than the cost of a
/// neighbour of a traversable location.
pub open spec fn costs_justified(
    map: &Volume<Voxel>,
    weights: Seq<(GlobalLocation, u32)>,
    field: &Volume<u32>,
) -> bool {
    forall|l: GlobalLocation|
        #[trigger] field.in_bounds(l) && field.at(l) != UNREACHABLE ==> is_seed(weights, l, field.at(l))
            || (traversable(map, l) && has_cheaper_neighbor(field, l, field.at(l) as int))
}

/// No source in the map costs more than its given cost.
pub open spec fn seeds_respected(weights: Seq<(GlobalLocation, u32)>, field: &Volume<u32>) -> bool {
    forall|i: int|
        0 <= i < weights.len() && field.in_bounds(#[trigger] weights[i].0) ==> field.at(weights[i].0)
            <= weights[i].1
}

/// A step from a reached location to a traversable neighbour costs at most one.
pub open spec fn steps_bounded(map: &Volume<Voxel>, field: &Volume<u32>) -> bool {
    forall|m: GlobalLocation, n: GlobalLocation|
        #[trigger] adjacent(m, n) && field.in_bounds(m) && field.at(m) != UNREACHABLE && traversable(
            map,
            n,
        ) ==> field.at(n) <= field.at(m) + 1
}

/// `field` is the potential field of `map` for the sources `weights`: each cost
/// is the least, over the sources in the map, of the source's cost plus the
/// number of steps between 6-connected locations to reach it, every step
/// ending on a traversable location; `UNREACHABLE` where there is none (or where
/// that least value is not below `UNREACHABLE`). These clauses fix the field
/// (see `lemma_potential_field_unique`).
pub open spec fn is_potential_field(
    map: &Volume<Voxel>,
    weights: Seq<(GlobalLocation, u32)>,
    field: &Volume<u32>,
) -> bool {
    &&& same_shape(map, field)
    &&& costs_justified(map, weights, field)
    &&& seeds_respected(weights, field)
    &&& steps_bounded(map, field)
}

/// Every candidate of the frontier lies in the map with a finite cost, and is a
/// source or a traversable neighbour of a reached location one cheaper.
spec fn frontier_ok(
    map: &Volume<Voxel>,
    weights: Seq<(GlobalLocation, u32)>,
    out: &Volume<u32>,
    frontier: Seq<Node>,
) -> bool {
    forall|x: Node|
        #[trigger] frontier.contains(x) ==> map.in_bounds(x.location) && x.cost != UNREACHABLE && (
        is_seed(weights, x.location, x.cost) || (traversable(map, x.location) && has_cheaper_neighbor(
            out,
            x.location,
            x.cost as int,
        )))
}

/// No reached cost exceeds a candidate's cost.
spec fn settled_below(out: &Volume<u32>, frontier: Seq<Node>) -> bool {
    forall|l: GlobalLocation, x: Node|
        #![trigger out.at(l), frontier.contains(x)]
        out.in_bounds(l) && out.at(l) != UNREACHABLE && frontier.contains(x) ==> out.at(l) <= x.cost
}

/// Every usable source is reached within its cost or still waits as a candidate.
spec fn seeds_pending(
    weights: Seq<(GlobalLocation, u32)>,
    out: &Volume<u32>,
    frontier: Seq<Node>,
) -> bool {
    forall|i: int|
        0 <= i < weights.len() && out.in_bounds(#[trigger] weights[i].0) && weights[i].1
            != UNREACHABLE ==> out.at(weights[i].0) <= weights[i].1 || frontier.contains(
            Node { location: weights[i].0, cost: weights[i].1 },
        )
}

/// Every step from a reached location other than `skip` is within one, or its
/// end waits as a candidate at one more.
spec fn steps_pending(
    map: &Volume<Voxel>,
    out: &Volume<u32>,
    frontier: Seq<Node>,
    skip: Option<GlobalLocation>,
) -> bool {
    forall|m: GlobalLocation, n: GlobalLocation|
        #[trigger] adjacent(m, n) && out.in_bounds(m) && out.at(m) != UNREACHABLE && traversable(map, n)
            && skip != Some(m) ==> out.at(n) <= out.at(m) + 1 || frontier.contains(
            Node { location: n, cost: (out.at(m) + 1) as u32 },
        )
}

spec fn search_core(
    map: &Volume<Voxel>,
    weights: Seq<(GlobalLocation, u32)>,
    out: &Volume<u32>,
    frontier: Seq<Node>,
) -> bool {
    &&& map.wf()
    &&& known_voxels(map)
    &&& same_shape(map, out)
    &&& frontier_ok(map, weights, out, frontier)
    &&& settled_below(out, frontier)
    &&& costs_justified(map, weights, out)
    &&& seeds_pending(weights, out, frontier)
}

/// Dropping a candidate whose location is already reached keeps the invariant.
proof fn lemma_skip(
    map: &Volume<Voxel>,
    weights: Seq<(GlobalLocation, u32)>,
    out: &Volume<u32>,
    frontier: Seq<Node>,
    k: int,
)
    requires
        search_core(map, weights, out, frontier),
        steps_pending(map, out, frontier, None),
        0 <= k < frontier.len(),
        out.at(frontier[k].location) != UNREACHABLE,
    ensures
        search_core(map, weights, out, frontier.remove(k)),
        steps_pending(map, out, frontier.remove(k), None),
{
    let cur = frontier[k];
    let rest = frontier.remove(k);
    assert(frontier.contains(cur));
    assert forall|x: Node| #[trigger] rest.contains(x) implies frontier.contains(x) by {
        lemma_remove_contains(frontier, k, x);
    }
    assert forall|x: Node| frontier.contains(x) && x != cur implies #[trigger] rest.contains(x) by {
        lemma_remove_contains(frontier, k, x);
    }
    assert forall|l: GlobalLocation, x: Node|
        #![trigger out.at(l), rest.contains(x)]
        out.in_bounds(l) && out.at(l) != UNREACHABLE && rest.contains(x) implies out.at(l)
        <= x.cost by {
        assert(frontier.contains(x));
    }
    assert forall|i: int|
        0 <= i < weights.len() && out.in_bounds(#[trigger] weights[i].0) && weights[i].1
            != UNREACHABLE implies out.at(weights[i].0) <= weights[i].1 || rest.contains(
        Node { location: weights[i].0, cost: weights[i].1 },
    ) by {
        let x = Node { location: weights[i].0, cost: weights[i].1 };
        if out.at(weights[i].0) > weights[i].1 {
            assert(frontier.contains(x));
            if x == cur {
                assert(out.at(cur.location) <= cur.cost);
            }
        }
    }
    assert forall|m: GlobalLocation, n: GlobalLocation|
        #[trigger] adjacent(m, n) && out.in_bounds(m) && out.at(m) != UNREACHABLE && traversable(map, n)
            && None::<GlobalLocation> != Some(m) implies out.at(n) <= out.at(m) + 1 || rest.contains(
        Node { location: n, cost: (out.at(m) + 1) as u32 },
    ) by {
        let x = Node { location: n, cost: (out.at(m) + 1) as u32 };
        if out.at(n) > out.at(m) + 1 {
            assert(frontier.contains(x));
            if x == cur {
                assert(out.at(cur.location) <= cur.cost);
            }
        }
    }
}


/// Reaching the cheapest candidate at its cost keeps the invariant, but for the
/// steps out of the newly reached location.
proof fn lemma_settle(
    map: &Volume<Voxel>,
    weights: Seq<(GlobalLocation, u32)>,
    out: &Volume<u32>,
    new_out: &Volume<u32>,
    frontier: Seq<Node>,
    k: int,
)
    requires
        search_core(map, weights, out, frontier),
        steps_pending(map, out, frontier, None),
        0 <= k < frontier.len(),
        forall|j: int| 0 <= j < frontier.len() ==> frontier[k].cost <= #[trigger] frontier[j].cost,
        out.at(frontier[k].location) == UNREACHABLE,
        same_shape(map, new_out),
        new_out.at(frontier[k].location) == frontier[k].cost,
        forall|l: GlobalLocation|
            #[trigger] new_out.in_bounds(l) && l != frontier[k].location ==> new_out.at(l) == out.at(l),
    ensures
        search_core(map, weights, new_out, frontier.remove(k)),
        steps_pending(map, new_out, frontier.remove(k), Some(frontier[k].location)),
        forall|l: GlobalLocation|
            #[trigger] new_out.in_bounds(l) && new_out.at(l) != UNREACHABLE ==> new_out.at(l)
                <= frontier[k].cost,
{
    let cur = frontier[k];
    let p = cur.location;
    let rest = frontier.remove(k);
    assert(frontier.contains(cur));
    assert forall|x: Node| #[trigger] frontier.contains(x) implies cur.cost <= x.cost by {
        let j = choose|j: int| 0 <= j < frontier.len() && frontier[j] == x;
        assert(frontier[k].cost <= frontier[j].cost);
    }
    assert forall|x: Node| #[trigger] rest.contains(x) implies frontier.contains(x) by {
        lemma_remove_contains(frontier, k, x);
    }
    assert forall|x: Node| frontier.contains(x) && x != cur implies #[trigger] rest.contains(x) by {
        lemma_remove_contains(frontier, k, x);
    }
    // a neighbour reached before keeps its cost
    assert forall|l: GlobalLocation, c: int| has_cheaper_neighbor(out, l, c) implies has_cheaper_neighbor(
        new_out,
        l,
        c,
    ) by {
        let m = choose|m: GlobalLocation|
            #[trigger] adjacent(m, l) && out.in_bounds(m) && out.at(m) != UNREACHABLE && out.at(m) + 1 == c;
        assert(m != p);
        assert(adjacent(m, l) && new_out.in_bounds(m) && new_out.at(m) != UNREACHABLE && new_out.at(m) + 1 == c);
    }
    assert forall|x: Node| #[trigger] rest.contains(x) implies map.in_bounds(x.location) && x.cost
        != UNREACHABLE && (is_seed(weights, x.location, x.cost) || (traversable(map, x.location)
        && has_cheaper_neighbor(new_out, x.location, x.cost as int))) by {
        assert(frontier.contains(x));
    }
    assert forall|l: GlobalLocation| #[trigger]
        new_out.in_bounds(l) && new_out.at(l) != UNREACHABLE implies new_out.at(l) <= cur.cost by {
        if l != p {
            assert(out.at(l) <= cur.cost);
        }
    }
    assert forall|l: GlobalLocation, x: Node|
        #![trigger new_out.at(l), rest.contains(x)]
        new_out.in_bounds(l) && new_out.at(l) != UNREACHABLE && rest.contains(x) implies new_out.at(l)
        <= x.cost by {
        assert(frontier.contains(x));
        if l != p {
            assert(out.at(l) <= x.cost);
        }
    }
    assert forall|l: GlobalLocation|
        #[trigger] new_out.in_bounds(l) && new_out.at(l) != UNREACHABLE implies is_seed(
        weights,
        l,
        new_out.at(l),
    ) || (traversable(map, l) && has_cheaper_neighbor(new_out, l, new_out.at(l) as int)) by {
        if l != p {
            assert(out.in_bounds(l) && out.at(l) != UNREACHABLE);
        }
    }
    assert forall|i: int|
        0 <= i < weights.len() && new_out.in_bounds(#[trigger] weights[i].0) && weights[i].1
            != UNREACHABLE implies new_out.at(weights[i].0) <= weights[i].1 || rest.contains(
        Node { location: weights[i].0, cost: weights[i].1 },
    ) by {
        let x = Node { location: weights[i].0, cost: weights[i].1 };
        if weights[i].0 != p {
            assert(out.in_bounds(weights[i].0));
        } else {
            assert(out.in_bounds(weights[i].0));
            assert(frontier.contains(x));
        }
    }
    assert forall|m: GlobalLocation, n: GlobalLocation|
        #[trigger] adjacent(m, n) && new_out.in_bounds(m) && new_out.at(m) != UNREACHABLE && traversable(
            map,
            n,
        ) && Some(p) != Some(m) implies new_out.at(n) <= new_out.at(m) + 1 || rest.contains(
        Node { location: n, cost: (new_out.at(m) + 1) as u32 },
    ) by {
        assert(m != p);
        assert(out.in_bounds(m) && out.at(m) != UNREACHABLE);
        let x = Node { location: n, cost: (out.at(m) + 1) as u32 };
        assert(out.at(n) <= out.at(m) + 1 || frontier.contains(x));
        if n == p {
            if frontier.contains(x) {
                assert(cur.cost <= x.cost);
            }
        } else {
            assert(new_out.in_bounds(n));
            assert(new_out.at(n) == out.at(n));
        }
    }
}


/// Offers the candidate next to the newly reached `from` to the frontier at one
/// more than `from`'s cost, unless it is not traversable, already reached, or
/// would cost `UNREACHABLE`.
fn relax(
    map: &Volume<Voxel>,
    Ghost(weights): Ghost<Seq<(GlobalLocation, u32)>>,
    out: &Volume<u32>,
    frontier: &mut Vec<Node>,
    from: GlobalLocation,
    cost: u32,
    candidate: Option<GlobalLocation>,
)
    requires
        search_core(map, weights, out, old(frontier)@),
        steps_pending(map, out, old(frontier)@, Some(from)),
        out.in_bounds(from),
        out.at(from) == cost,
        cost != UNREACHABLE,
        forall|l: GlobalLocation|
            #[trigger] out.in_bounds(l) && out.at(l) != UNREACHABLE ==> out.at(l) <= cost,
        candidate is Some ==> adjacent(from, candidate->0),
    ensures
        search_core(map, weights, out, final(frontier)@),
        steps_pending(map, out, final(frontier)@, Some(from)),
        forall|x: Node| old(frontier)@.contains(x) ==> #[trigger] final(frontier)@.contains(x),
        final(frontier)@.len() <= old(frontier)@.len() + 1,
        candidate is Some && traversable(map, candidate->0) ==> out.at(candidate->0) <= cost + 1
            || final(frontier)@.contains(Node { location: candidate->0, cost: (cost + 1) as u32 }),
{
    if let Some(n) = candidate {
        proof {
            if traversable(map, n) {
                assert(out.in_bounds(n));
            }
        }
        if cost < UNREACHABLE - 1 && is_traversable(map, n) && out.get(n) == UNREACHABLE {
            let ghost before = frontier@;
            let v = Node { location: n, cost: cost + 1 };
            frontier.push(v);
            proof {
                assert forall|x: Node| #[trigger] frontier@.contains(x) <==> before.contains(x) || x == v by {
                    lemma_push_contains(before, v, x);
                }
                assert(adjacent(from, n) && out.in_bounds(from) && out.at(from) != UNREACHABLE
                    && out.at(from) + 1 == v.cost);
                assert(has_cheaper_neighbor(out, n, v.cost as int));
                assert(frontier@.contains(v));
                assert forall|l: GlobalLocation, x: Node|
                    #![trigger out.at(l), frontier@.contains(x)]
                    out.in_bounds(l) && out.at(l) != UNREACHABLE && frontier@.contains(x) implies out.at(l)
                    <= x.cost by {
                    if x != v {
                        assert(before.contains(x));
                    }
                }
            }
        }
    }
}

/// The multi-source potential field of `map`: for every location, the least
/// cost of reaching it from one of the `weights` sources by unit steps between
/// 6-connected traversable locations, `UNREACHABLE` where none reaches it.
/// Sources outside the map are ignored.
pub fn get_djikstra_map(map: &Volume<Voxel>, weights: Vec<(GlobalLocation, u32)>) -> (r: Volume<u32>)
    requires
        map.wf(),
        known_voxels(map),
    ensures
        is_potential_field(map, weights@, &r),
        no_usable_seed(map, weights@) ==> forall|l: GlobalLocation|
            #[trigger] r.in_bounds(l) ==> r.at(l) == UNREACHABLE,
{
    let n_cells = map.len();
    let mut out: Volume<u32> = Volume::new(map.start_location(), map.end_location(), UNREACHABLE);
    let mut frontier: Vec<Node> = Vec::new();
    let mut i: usize = 0;
    while i < weights.len()
        invariant
            i <= weights@.len(),
            map.wf(),
            known_voxels(map),
            same_shape(map, &out),
            forall|l: GlobalLocation| #[trigger] out.in_bounds(l) ==> out.at(l) == UNREACHABLE,
            forall|x: Node|
                #[trigger] frontier@.contains(x) ==> map.in_bounds(x.location) && x.cost != UNREACHABLE
                    && is_seed(weights@, x.location, x.cost),
            forall|j: int|
                0 <= j < i && map.in_bounds(#[trigger] weights@[j].0) && weights@[j].1 != UNREACHABLE
                    ==> frontier@.contains(Node { location: weights@[j].0, cost: weights@[j].1 }),
            (forall|j: int|
                0 <= j < i ==> !map.in_bounds(#[trigger] weights@[j].0) || weights@[j].1 == UNREACHABLE)
                ==> frontier@.len() == 0,
        decreases weights@.len() - i,
    {
        let (location, cost) = weights[i];
        if cost != UNREACHABLE && map.within_bounds(location) {
            let ghost before = frontier@;
            let v = Node { location, cost };
            frontier.push(v);
            proof {
                assert forall|x: Node| #[trigger] frontier@.contains(x) <==> before.contains(x) || x == v by {
                    lemma_push_contains(before, v, x);
                }
                assert(weights@[i as int] == (location, cost));
                assert(is_seed(weights@, location, cost));
            }
        } else {
            proof {
                assert(weights@[i as int] == (location, cost));
            }
        }
        i = i + 1;
    }
    let ghost total = out.cells().len();
    let ghost mut settled: Set<int> = Set::empty();
    proof {
        lemma_int_range(0, total as int);
        assert forall|j: int| 0 <= j < total implies !(#[trigger] settled.contains(j)) && out.cells()[j]
            == UNREACHABLE by {
            out.lemma_index_location_round_trip(j);
            assert(out.in_bounds(out.location_of(j)));
        }
        assert forall|i: int|
            0 <= i < weights@.len() && out.in_bounds(#[trigger] weights@[i].0) && weights@[i].1
                != UNREACHABLE implies out.at(weights@[i].0) <= weights@[i].1 || frontier@.contains(
            Node { location: weights@[i].0, cost: weights@[i].1 },
        ) by {
            assert(map.in_bounds(weights@[i].0));
        }
    }
    while frontier.len() > 0
        invariant
            search_core(map, weights@, &out, frontier@),
            steps_pending(map, &out, frontier@, None),
            out.cells().len() == total,
            settled.finite(),
            settled.subset_of(set_int_range(0, total as int)),
            set_int_range(0, total as int).len() == total,
            set_int_range(0, total as int).finite(),
            forall|j: int|
                0 <= j < total ==> (#[trigger] settled.contains(j) <==> out.cells()[j] != UNREACHABLE),
            no_usable_seed(map, weights@) ==> frontier@.len() == 0 && forall|l: GlobalLocation|
                #[trigger] out.in_bounds(l) ==> out.at(l) == UNREACHABLE,
        decreases 7 * (total - settled.len()) + frontier@.len(),
    {
        proof {
            vstd::set_lib::lemma_len_subset(settled, set_int_range(0, total as int));
        }
        let k = select_min(&frontier);
        let ghost before = frontier@;
        let cur = frontier.remove(k);
        proof {
            assert(before.contains(before[k as int]));
            assert(before[k as int] == cur);
        }
        if out.get(cur.location) == UNREACHABLE {
            let ghost old_out = out;
            out.set(cur.location, cur.cost);
            proof {
                assert forall|j: int| 0 <= j < before.len() implies before[k as int].cost
                    <= #[trigger] before[j].cost by {
                    assert(precedes(before[k as int], before[j]));
                }
                lemma_settle(map, weights@, &old_out, &out, before, k as int);
                old_out.lemma_index_in_range(cur.location);
                let idx = old_out.index_of(cur.location);
                assert(!settled.contains(idx));
                assert(settled.insert(idx).len() == settled.len() + 1);
                assert(settled.insert(idx).subset_of(set_int_range(0, total as int)));
                vstd::set_lib::lemma_len_subset(settled.insert(idx), set_int_range(0, total as int));
                settled = settled.insert(idx);
                assert(out.cells() == old_out.cells().update(idx, cur.cost));
            }
            let p = cur.location;
            let c = cur.cost;
            let c0 = p.checked_sub(Point3D::new(1, 0, 0));
            let c1 = p.checked_add(Point3D::new(1, 0, 0));
            let c2 = p.checked_sub(Point3D::new(0, 1, 0));
            let c3 = p.checked_add(Point3D::new(0, 1, 0));
            let c4 = p.checked_sub(Point3D::new(0, 0, 1));
            let c5 = p.checked_add(Point3D::new(0, 0, 1));
            let ghost f0 = frontier@;
            relax(map, Ghost(weights@), &out, &mut frontier, p, c, c0);
            let ghost f1 = frontier@;
            relax(map, Ghost(weights@), &out, &mut frontier, p, c, c1);
            let ghost f2 = frontier@;
            relax(map, Ghost(weights@), &out, &mut frontier, p, c, c2);
            let ghost f3 = frontier@;
            relax(map, Ghost(weights@), &out, &mut frontier, p, c, c3);
            let ghost f4 = frontier@;
            relax(map, Ghost(weights@), &out, &mut frontier, p, c, c4);
            let ghost f5 = frontier@;
            relax(map, Ghost(weights@), &out, &mut frontier, p, c, c5);
            proof {
                assert(frontier@.len() <= before.len() + 5);
                assert forall|x: Node| #[trigger] f1.contains(x) implies frontier@.contains(x) by {
                    assert(f2.contains(x));
                    assert(f3.contains(x));
                    assert(f4.contains(x));
                    assert(f5.contains(x));
                }
                assert forall|m: GlobalLocation, n: GlobalLocation|
                    #[trigger] adjacent(m, n) && out.in_bounds(m) && out.at(m) != UNREACHABLE
                        && traversable(map, n) && None::<GlobalLocation> != Some(m) implies out.at(n)
                    <= out.at(m) + 1 || frontier@.contains(
                    Node { location: n, cost: (out.at(m) + 1) as u32 },
                ) by {
                    if m == p {
                        let x = Node { location: n, cost: (c + 1) as u32 };
                        if n.x + 1 == p.x {
                            assert(c0 == Some(n));
                        } else if p.x + 1 == n.x {
                            assert(c1 == Some(n));
                            assert(f2.contains(x) ==> frontier@.contains(x)) by {
                                if f2.contains(x) {
                                    assert(f3.contains(x));
                                    assert(f4.contains(x));
                                    assert(f5.contains(x));
                                }
                            }
                        } else if n.y + 1 == p.y {
                            assert(c2 == Some(n));
                            assert(f3.contains(x) ==> frontier@.contains(x)) by {
                                if f3.contains(x) {
                                    assert(f4.contains(x));
                                    assert(f5.contains(x));
                                }
                            }
                        } else if p.y + 1 == n.y {
                            assert(c3 == Some(n));
                            assert(f4.contains(x) ==> frontier@.contains(x)) by {
                                if f4.contains(x) {
                                    assert(f5.contains(x));
                                }
                            }
                        } else if n.z + 1 == p.z {
                            assert(c4 == Some(n));
                        } else {
                            assert(c5 == Some(n));
                        }
                    }
                }
            }
        } else {
            proof {
                lemma_skip(map, weights@, &out, before, k as int);
            }
        }
    }
    proof {
        assert forall|i: int|
            0 <= i < weights@.len() && out.in_bounds(#[trigger] weights@[i].0) implies out.at(weights@[i].0)
            <= weights@[i].1 by {
            if weights@[i].1 != UNREACHABLE {
                assert(!frontier@.contains(Node { location: weights@[i].0, cost: weights@[i].1 }));
            }
        }
        assert forall|m: GlobalLocation, n: GlobalLocation|
            #[trigger] adjacent(m, n) && out.in_bounds(m) && out.at(m) != UNREACHABLE && traversable(map, n)
            implies out.at(n) <= out.at(m) + 1 by {
            assert(!frontier@.contains(Node { location: n, cost: (out.at(m) + 1) as u32 }));
        }
    }
    out
}


/// Any potential field for given map and sources costs no more than any other
/// at each location.
proof fn lemma_field_at_most(
    map: &Volume<Voxel>,
    weights: Seq<(GlobalLocation, u32)>,
    a: &Volume<u32>,
    b: &Volume<u32>,
    l: GlobalLocation,
)
    requires
        is_potential_field(map, weights, a),
        is_potential_field(map, weights, b),
        b.in_bounds(l),
    ensures
        a.at(l) <= b.at(l),
    decreases b.at(l),
{
    if b.at(l) != UNREACHABLE {
        if is_seed(weights, l, b.at(l)) {
            let i = choose|i: int| 0 <= i < weights.len() && #[trigger] weights[i] == (l, b.at(l));
            assert(a.in_bounds(weights[i].0));
        } else {
            let m = choose|m: GlobalLocation|
                #[trigger] adjacent(m, l) && b.in_bounds(m) && b.at(m) != UNREACHABLE && b.at(m) + 1
                    == b.at(l);
            lemma_field_at_most(map, weights, a, b, m);
            assert(adjacent(m, l) && a.in_bounds(m) && a.at(m) != UNREACHABLE);
        }
    }
}

/// The potential field of a map for given sources is unique: two fields that
/// both meet `is_potential_field` hold the same costs, so the solver gives the
/// same output on the same input, whatever order it settles ties in.
pub proof fn lemma_potential_field_unique(
    map: &Volume<Voxel>,
    weights: Seq<(GlobalLocation, u32)>,
    a: &Volume<u32>,
    b: &Volume<u32>,
)
    requires
        is_potential_field(map, weights, a),
        is_potential_field(map, weights, b),
    ensures
        a.start() == b.start(),
        a.end() == b.end(),
        a.cells() == b.cells(),
{
    assert forall|i: int| 0 <= i < a.cells().len() implies a.cells()[i] == b.cells()[i] by {
        a.lemma_index_location_round_trip(i);
        let l = a.location_of(i);
        lemma_field_at_most(map, weights, a, b, l);
        lemma_field_at_most(map, weights, b, a, l);
    }
    assert(a.cells() =~= b.cells());
}

} // verus!
