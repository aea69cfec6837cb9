use vstd::prelude::*;
use crate::cost::{
    SlopeFactor, COST_CAP, BASE_COST_CAP, HEIGHT_CAP_MM, spec_factor_num, spec_factor_den,
    spec_scaled_cost, spec_slope, slope_factor_of, scaled_cost, slope_from_heights,
};
use crate::position::{Position, spec_dist2, dist2};
use crate::storemap::{KeyedVec, MapKey, pairs_to_map};

verus! {

/// Stable external identifier of a node (an intersection).
#[derive(Clone, Copy, PartialEq, Eq, Hash, Structural, Debug)]
pub struct NodeId(pub i64);

/// Stable external identifier of the way an edge came from.
#[derive(Clone, Copy, PartialEq, Eq, Hash, Structural, Debug)]
pub struct WayId(pub i64);

/// An ordered pair of node identifiers; the key under which one edge is
/// stored.  Bidirectional traversal is represented by the two cost
/// fields of that one edge, not by two edges.
#[derive(Clone, Copy, PartialEq, Eq, Hash, Structural, Debug)]
pub struct EdgeKey {
    pub from: NodeId,
    pub to: NodeId,
}

impl MapKey for NodeId {
    fn key_eq(&self, other: &Self) -> (r: bool)
        ensures
            r <==> *self == *other,
    {
        self.0 == other.0
    }
}

impl MapKey for EdgeKey {
    fn key_eq(&self, other: &Self) -> (r: bool)
        ensures
            r <==> *self == *other,
    {
        self.from.0 == other.from.0 && self.to.0 == other.to.0
    }
}

impl MapKey for Position {
    fn key_eq(&self, other: &Self) -> (r: bool)
        ensures
            r <==> *self == *other,
    {
        self.lon == other.lon && self.lat == other.lat
    }
}

/// Traffic-stress classification: an ordinal from 0 (not allowed) to 4
/// (most stressful).
#[derive(Clone, Copy, PartialEq, Eq, Structural, Debug)]
pub enum Lts {
    NotAllowed,
    Lts1,
    Lts2,
    Lts3,
    Lts4,
}

impl Lts {
    pub open spec fn as_index(self) -> int {
        match self {
            Lts::NotAllowed => 0,
            Lts::Lts1 => 1,
            Lts::Lts2 => 2,
            Lts::Lts3 => 3,
            Lts::Lts4 => 4,
        }
    }

    pub fn to_index(self) -> (r: usize)
        ensures
            r == self.as_index(),
            r < 5,
    {
        match self {
            Lts::NotAllowed => 0,
            Lts::Lts1 => 1,
            Lts::Lts2 => 2,
            Lts::Lts3 => 3,
            Lts::Lts4 => 4,
        }
    }

    pub fn from_index(i: u8) -> (r: Option<Lts>)
        ensures
            match r {
                Some(l) => l.as_index() == i as int,
                None => i > 4,
            },
    {
        match i {
            0 => Some(Lts::NotAllowed),
            1 => Some(Lts::Lts1),
            2 => Some(Lts::Lts2),
            3 => Some(Lts::Lts3),
            4 => Some(Lts::Lts4),
            _ => None,
        }
    }
}

/// One raw classification tag, held as two byte strings.
pub struct Tag {
    pub key: Vec<u8>,
    pub value: Vec<u8>,
}

pub open spec fn cost_capped(c: Option<u64>) -> bool {
    match c {
        Some(x) => x <= COST_CAP,
        None => true,
    }
}

/// A directed edge record.  `forward_cost`/`backward_cost` of `None`
/// mean the direction is impassable (for example a one-way), and
/// propagate to the routing index as "no arc", never as a zero cost.
pub struct Edge {
    pub way_id: WayId,
    pub tags: Vec<Tag>,
    pub geometry: Vec<Position>,
    /// Slope as a fixed-point percentage (units of 10^-4 percent).
    pub slope: Option<i64>,
    /// Slope-derived cost multipliers for the forward and backward
    /// traversal of this edge.
    pub slope_factor: Option<(SlopeFactor, SlopeFactor)>,
    /// Physical length in millimeters.
    pub length_mm: u64,
    pub lts: Lts,
    pub forward_cost: Option<u64>,
    pub backward_cost: Option<u64>,
    pub nearby_amenities: u64,
}

impl Edge {
    pub open spec fn wf(&self) -> bool {
        cost_capped(self.forward_cost) && cost_capped(self.backward_cost)
    }

    /// The slope factor for traversing an edge of the given length (in
    /// millimeters) at the given slope (in 10^-4 percent).
    pub fn calculate_slope_factor(slope: i64, length_mm: u64) -> (r: SlopeFactor)
        ensures
            r.num == spec_factor_num(slope as int, length_mm as int),
            r.den == spec_factor_den(slope as int, length_mm as int),
            r.wf(),
    {
        slope_factor_of(slope, length_mm)
    }

    /// The slope of this edge given the sampled heights (millimeters)
    /// of its first and last geometry vertex; intermediate vertices are
    /// deliberately ignored.
    pub fn get_slope(&self, start_height_mm: i64, end_height_mm: i64) -> (r: i64)
        requires
            0 < self.length_mm,
            -HEIGHT_CAP_MM <= start_height_mm <= HEIGHT_CAP_MM,
            -HEIGHT_CAP_MM <= end_height_mm <= HEIGHT_CAP_MM,
        ensures
            r == spec_slope(end_height_mm - start_height_mm, self.length_mm as int),
            -2_000_000_000_000_000 <= r <= 2_000_000_000_000_000,
    {
        slope_from_heights(start_height_mm, end_height_mm, self.length_mm)
    }

    /// The slope and the pair of directional slope factors for this
    /// edge, from the sampled end heights.  The backward factor uses
    /// the negated slope, which generally differs from the forward one.
    pub fn apply_elevation(&self, start_height_mm: i64, end_height_mm: i64)
        -> (r: (i64, (SlopeFactor, SlopeFactor)))
        requires
            0 < self.length_mm,
            -HEIGHT_CAP_MM <= start_height_mm <= HEIGHT_CAP_MM,
            -HEIGHT_CAP_MM <= end_height_mm <= HEIGHT_CAP_MM,
        ensures
            r.0 == spec_slope(end_height_mm - start_height_mm, self.length_mm as int),
            r.1.0.num == spec_factor_num(r.0 as int, self.length_mm as int),
            r.1.0.den == spec_factor_den(r.0 as int, self.length_mm as int),
            r.1.1.num == spec_factor_num(-r.0 as int, self.length_mm as int),
            r.1.1.den == spec_factor_den(-r.0 as int, self.length_mm as int),
    {
        let slope = self.get_slope(start_height_mm, end_height_mm);
        let forward = slope_factor_of(slope, self.length_mm);
        let backward = slope_factor_of(-slope, self.length_mm);
        (slope, (forward, backward))
    }
}

pub open spec fn base_capped(c: Option<u64>) -> bool {
    match c {
        Some(x) => x <= BASE_COST_CAP,
        None => true,
    }
}

/// One edge of the raw map graph, as delivered by the external map
/// parser: endpoints, physical attributes, classification, the
/// externally computed base costs, and the sampled slope if elevation
/// data covered the edge.
pub struct RawEdge {
    pub node1: NodeId,
    pub node2: NodeId,
    pub way_id: WayId,
    pub tags: Vec<Tag>,
    pub geometry: Vec<Position>,
    pub length_mm: u64,
    pub lts: Lts,
    pub forward_base: Option<u64>,
    pub backward_base: Option<u64>,
    pub slope: Option<i64>,
    pub nearby_amenities: u64,
}

impl RawEdge {
    pub open spec fn wf(&self) -> bool {
        base_capped(self.forward_base) && base_capped(self.backward_base)
            && match self.slope {
                Some(s) => -2_000_000_000_000_000 <= s <= 2_000_000_000_000_000,
                None => true,
            }
    }

    pub open spec fn spec_key(&self) -> EdgeKey {
        EdgeKey { from: self.node1, to: self.node2 }
    }
}

/// The directional cost of an edge: the base cost scaled by the slope
/// factor when a slope is known, the bare base cost when no elevation
/// sample was available, and `None` (impassable) when there is no base.
pub open spec fn spec_cost_of(base: Option<u64>, slope: Option<i64>, length_mm: int)
    -> Option<u64> {
    match base {
        None => None,
        Some(b) => match slope {
            None => Some(b),
            Some(s) => Some(
                spec_scaled_cost(
                    b as int,
                    spec_factor_num(s as int, length_mm),
                    spec_factor_den(s as int, length_mm),
                ) as u64,
            ),
        },
    }
}

pub open spec fn spec_factor_pair(s: i64, length_mm: u64) -> (SlopeFactor, SlopeFactor) {
    (
        SlopeFactor {
            num: spec_factor_num(s as int, length_mm as int) as u64,
            den: spec_factor_den(s as int, length_mm as int) as u64,
        },
        SlopeFactor {
            num: spec_factor_num(-(s as int), length_mm as int) as u64,
            den: spec_factor_den(-(s as int), length_mm as int) as u64,
        },
    )
}

/// The edge record built from one raw edge: attributes carried over,
/// costs computed by the cost model.
pub open spec fn spec_edge_from_raw(r: RawEdge) -> Edge {
    Edge {
        way_id: r.way_id,
        tags: r.tags,
        geometry: r.geometry,
        slope: r.slope,
        slope_factor: match r.slope {
            None => None,
            Some(s) => Some(spec_factor_pair(s, r.length_mm)),
        },
        length_mm: r.length_mm,
        lts: r.lts,
        forward_cost: spec_cost_of(r.forward_base, r.slope, r.length_mm as int),
        backward_cost: match (r.backward_base, r.slope) {
            (None, _) => None,
            (Some(b), None) => Some(b),
            (Some(b), Some(s)) => Some(
                spec_scaled_cost(
                    b as int,
                    spec_factor_num(-(s as int), r.length_mm as int),
                    spec_factor_den(-(s as int), r.length_mm as int),
                ) as u64,
            ),
        },
        nearby_amenities: r.nearby_amenities,
    }
}

pub fn edge_from_raw(r: RawEdge) -> (e: Edge)
    requires
        r.wf(),
    ensures
        e == spec_edge_from_raw(r),
        e.wf(),
{
    let (slope_factor, forward_cost, backward_cost) = match r.slope {
        Some(s) => {
            let f = slope_factor_of(s, r.length_mm);
            let b = slope_factor_of(-s, r.length_mm);
            let fc = match r.forward_base {
                Some(x) => Some(scaled_cost(x, f)),
                None => None,
            };
            let bc = match r.backward_base {
                Some(x) => Some(scaled_cost(x, b)),
                None => None,
            };
            (Some((f, b)), fc, bc)
        },
        None => (None, r.forward_base, r.backward_base),
    };
    Edge {
        way_id: r.way_id,
        tags: r.tags,
        geometry: r.geometry,
        slope: r.slope,
        slope_factor,
        length_mm: r.length_mm,
        lts: r.lts,
        forward_cost,
        backward_cost,
        nearby_amenities: r.nearby_amenities,
    }
}

/// The edge map described by a sequence of raw edges: one edge per
/// ordered node pair, later raw edges silently replacing earlier ones
/// (the documented single-edge-per-node-pair simplification).
pub open spec fn spec_build_edges(s: Seq<RawEdge>) -> Map<EdgeKey, Edge>
    decreases s.len(),
{
    if s.len() == 0 {
        Map::empty()
    } else {
        spec_build_edges(s.drop_last()).insert(
            s.last().spec_key(),
            spec_edge_from_raw(s.last()),
        )
    }
}

/// Whether `id` is a node of the map whose position is within
/// `radius2` of `p` and no node of the map is nearer to `p`.
pub open spec fn is_nearest(m: Map<NodeId, Position>, p: Position, id: NodeId, radius2: int)
    -> bool {
    m.contains_key(id) && spec_dist2(p, m[id]) <= radius2
        && forall|o: NodeId|
            #[trigger] m.contains_key(o) ==> spec_dist2(p, m[id]) <= spec_dist2(p, m[o])
}

/// The weighted directed graph: one edge per ordered node pair, and a
/// position for every intersection.  Immutable for the rest of a run
/// once built or loaded.
pub struct Network {
    pub edges: KeyedVec<EdgeKey, Edge>,
    pub intersections: KeyedVec<NodeId, Position>,
}

impl Network {
    pub open spec fn wf(&self) -> bool {
        self.edges.wf() && self.intersections.wf()
            && forall|k: EdgeKey| #[trigger] self.edges@.contains_key(k) ==> self.edges@[k].wf()
    }

    /// Construct a network from the raw map graph: record every node's
    /// position, and build every edge with its directional costs from
    /// the cost model.  Parallel edges between the same ordered node
    /// pair collapse to the last one seen.
    pub fn build(nodes: Vec<(NodeId, Position)>, raw_edges: Vec<RawEdge>) -> (r: Network)
        requires
            forall|i: int| 0 <= i < raw_edges@.len() ==> (#[trigger] raw_edges@[i]).wf(),
        ensures
            r.wf(),
            r.intersections@ == pairs_to_map(nodes@),
            r.edges@ == spec_build_edges(raw_edges@),
    {
        let mut intersections: KeyedVec<NodeId, Position> = KeyedVec::new();
        let n = nodes.len();
        for i in 0..n
            invariant
                n == nodes@.len(),
                intersections.wf(),
                intersections@ == pairs_to_map(nodes@.take(i as int)),
        {
            let (id, p) = nodes[i];
            proof {
                assert(nodes@.take(i + 1).drop_last() =~= nodes@.take(i as int));
                assert(nodes@.take(i + 1).last() == (id, p));
            }
            intersections.set(id, p);
        }
        proof {
            assert(nodes@.take(n as int) =~= nodes@);
        }

        let mut edges: KeyedVec<EdgeKey, Edge> = KeyedVec::new();
        let mut rest = raw_edges;
        let ghost all = rest@;
        let total: usize = rest.len();
        proof {
            assert(all.len() == total);
        }
        let mut i: usize = 0;
        while rest.len() > 0
            invariant
                i <= all.len(),
                all.len() <= usize::MAX,
                rest@ =~= all.skip(i as int),
                forall|j: int| 0 <= j < all.len() ==> (#[trigger] all[j]).wf(),
                edges.wf(),
                edges@ == spec_build_edges(all.take(i as int)),
                forall|k: EdgeKey| #[trigger] edges@.contains_key(k) ==> edges@[k].wf(),
            decreases rest@.len(),
        {
            let r = rest.remove(0);
            proof {
                assert(all.skip(i as int)[0] == all[i as int]);
                assert(rest@ =~= all.skip(i + 1));
            }
            let k = EdgeKey { from: r.node1, to: r.node2 };
            let ghost raw_ghost = r;
            let e = edge_from_raw(r);
            edges.set(k, e);
            proof {
                assert(all.take(i + 1).drop_last() =~= all.take(i as int));
                assert(all.take(i + 1).last() == raw_ghost);
            }
            i = i + 1;
        }
        proof {
            assert(all.take(i as int) =~= all);
        }
        Network { edges, intersections }
    }

    /// Resolve a geographic point to the nearest node of the network,
    /// or `None` when no node lies within the given squared radius (in
    /// squared decimicrodegrees).
    pub fn nearest_node(&self, p: Position, radius2: u128) -> (r: Option<NodeId>)
        requires
            self.wf(),
        ensures
            match r {
                Some(id) => is_nearest(self.intersections@, p, id, radius2 as int),
                None => forall|o: NodeId|
                    #[trigger] self.intersections@.contains_key(o)
                        ==> spec_dist2(p, self.intersections@[o]) > radius2 as int,
            },
    {
        proof {
            self.intersections.lemma_entries();
        }
        let entries = self.intersections.entries();
        let ghost eseq = self.intersections.entry_seq();
        let n = entries.len();
        let mut best: Option<(NodeId, u128)> = None;
        for i in 0..n
            invariant
                n == eseq.len(),
                entries@ == eseq,
                self.wf(),
                self.intersections@ == pairs_to_map(eseq),
                forall|j: int|
                    0 <= j < eseq.len()
                        ==> self.intersections@.contains_key((#[trigger] eseq[j]).0)
                            && self.intersections@[eseq[j].0] == eseq[j].1,
                match best {
                    Some((id, d)) => self.intersections@.contains_key(id)
                        && d == spec_dist2(p, self.intersections@[id])
                        && forall|j: int| 0 <= j < i ==> d <= spec_dist2(p, (#[trigger] eseq[j]).1),
                    None => i == 0,
                },
        {
            let (id, pos) = entries[i];
            let d = dist2(p, pos);
            let replace = match &best {
                None => true,
                Some((_, bd)) => d < *bd,
            };
            if replace {
                best = Some((id, d));
            }
        }
        match best {
            None => None,
            Some((id, d)) => {
                proof {
                    assert forall|o: NodeId| #[trigger] self.intersections@.contains_key(o)
                        implies spec_dist2(p, self.intersections@[id])
                            <= spec_dist2(p, self.intersections@[o]) by {
                        self.intersections.lemma_entries();
                        let j = choose|j: int|
                            0 <= j < eseq.len() && (#[trigger] eseq[j]).0 == o;
                        assert(self.intersections@[o] == eseq[j].1);
                    }
                }
                if d <= radius2 {
                    Some(id)
                } else {
                    None
                }
            },
        }
    }
}

} // verus!
