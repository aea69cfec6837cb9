use vstd::prelude::*;
use crate::cost::COST_CAP;
use crate::counts::{
    Counts, CountsView, empty_counts, counts_wf_view, combine_views,
    lemma_counts_combine_unit,
};
use crate::network::{Network, NodeId, EdgeKey, Lts};
use crate::position::Position;
use crate::network::is_nearest;
use crate::storemap::{bump, or_zero, spec_sat_add, sat_add_u64, lemma_sat_add_assoc};
use crate::codec::{enc_u64, enc_i64, put_u64, get_u64, get_i64};

verus! {

/// One directed arc of the routing graph: target node (as an index
/// into the node table), traversal cost, and the underlying edge's
/// key, physical length and stress class for accounting.
#[derive(Clone, Copy, PartialEq, Eq, Structural, Debug)]
pub struct Hop {
    pub to: usize,
    pub cost: u64,
    pub key: EdgeKey,
    pub length_mm: u64,
    pub lts: Lts,
}

/// Mathematical content of a routing index: the node table and, per
/// node, its outgoing arcs.
pub struct IndexView {
    pub nodes: Seq<NodeId>,
    pub arcs: Seq<Seq<Hop>>,
}

pub open spec fn index_wf(iv: IndexView) -> bool {
    &&& iv.arcs.len() == iv.nodes.len()
    &&& iv.nodes.len() <= 0x8000_0000
    &&& forall|i: int, j: int|
        0 <= i < iv.arcs.len() && 0 <= j < iv.arcs[i].len()
            ==> (#[trigger] iv.arcs[i][j]).to < iv.nodes.len()
                && iv.arcs[i][j].cost <= COST_CAP
    &&& forall|i: int, j: int|
        0 <= i < j < iv.nodes.len() ==> #[trigger] iv.nodes[i] != #[trigger] iv.nodes[j]
}

/// `steps` is a chain of arcs leading from node index `from` to node
/// index `to`.
pub open spec fn valid_route(iv: IndexView, from: int, steps: Seq<Hop>, to: int) -> bool
    decreases steps.len(),
{
    if steps.len() == 0 {
        from == to && 0 <= from < iv.nodes.len()
    } else {
        0 <= from < iv.arcs.len() && iv.arcs[from].contains(steps[0])
            && valid_route(iv, steps[0].to as int, steps.skip(1), to)
    }
}

/// Total cost of a chain of arcs.
pub open spec fn route_cost(steps: Seq<Hop>) -> int
    decreases steps.len(),
{
    if steps.len() == 0 {
        0
    } else {
        steps[0].cost + route_cost(steps.skip(1))
    }
}

/// Some chain of arcs joins a node labelled `from` to one labelled `to`.
pub open spec fn connected(iv: IndexView, from: NodeId, to: NodeId) -> bool {
    exists|i: int, j: int, steps: Seq<Hop>|
        0 <= i < iv.nodes.len() && 0 <= j < iv.nodes.len()
            && iv.nodes[i] == from && iv.nodes[j] == to && valid_route(iv, i, steps, j)
}

proof fn lemma_route_extend(iv: IndexView, from: int, steps: Seq<Hop>, u: int, h: Hop)
    requires
        index_wf(iv),
        valid_route(iv, from, steps, u),
        0 <= u < iv.arcs.len(),
        iv.arcs[u].contains(h),
    ensures
        valid_route(iv, from, steps.push(h), h.to as int),
    decreases steps.len(),
{
    let t = choose|t: int| 0 <= t < iv.arcs[u].len() && iv.arcs[u][t] == h;
    assert((h.to as int) < iv.nodes.len());
    if steps.len() == 0 {
        assert(steps.push(h)[0] == h);
        assert(steps.push(h).skip(1) =~= Seq::<Hop>::empty());
        assert(valid_route(iv, h.to as int, Seq::<Hop>::empty(), h.to as int));
    } else {
        assert(steps.push(h).skip(1) =~= steps.skip(1).push(h));
        lemma_route_extend(iv, steps[0].to as int, steps.skip(1), u, h);
        assert(steps.push(h)[0] == steps[0]);
    }
}

proof fn lemma_route_cost_push(steps: Seq<Hop>, h: Hop)
    ensures
        route_cost(steps.push(h)) == route_cost(steps) + h.cost,
    decreases steps.len(),
{
    if steps.len() == 0 {
        assert(steps.push(h)[0] == h);
        assert(steps.push(h).skip(1) =~= Seq::<Hop>::empty());
        assert(route_cost(Seq::<Hop>::empty()) == 0);
    } else {
        assert(steps.push(h).skip(1) =~= steps.skip(1).push(h));
        lemma_route_cost_push(steps.skip(1), h);
        assert(steps.push(h)[0] == steps[0]);
    }
}

proof fn lemma_route_cost_bound(iv: IndexView, from: int, steps: Seq<Hop>, to: int)
    requires
        index_wf(iv),
        valid_route(iv, from, steps, to),
    ensures
        0 <= route_cost(steps) <= steps.len() * (COST_CAP as int),
    decreases steps.len(),
{
    if steps.len() == 0 {
    } else {
        let t = choose|t: int| 0 <= t < iv.arcs[from].len() && iv.arcs[from][t] == steps[0];
        lemma_route_cost_bound(iv, steps[0].to as int, steps.skip(1), to);
        assert(steps.len() * (COST_CAP as int)
            == (steps.len() - 1) * (COST_CAP as int) + COST_CAP) by (nonlinear_arith);
    }
}

proof fn lemma_closed_unreached(
    iv: IndexView, reached: Seq<bool>, from: int, steps: Seq<Hop>, to: int,
)
    requires
        index_wf(iv),
        reached.len() == iv.nodes.len(),
        0 <= from < reached.len(),
        reached[from],
        valid_route(iv, from, steps, to),
        forall|u: int, t: int|
            0 <= u < iv.arcs.len() && reached[u] && 0 <= t < iv.arcs[u].len()
                ==> reached[(#[trigger] iv.arcs[u][t]).to as int],
    ensures
        0 <= to < reached.len() && reached[to],
    decreases steps.len(),
{
    if steps.len() == 0 {
    } else {
        let h = steps[0];
        let t = choose|t: int| 0 <= t < iv.arcs[from].len() && iv.arcs[from][t] == h;
        assert(reached[h.to as int]);
        lemma_closed_unreached(iv, reached, h.to as int, steps.skip(1), to);
    }
}

pub open spec fn count_true(s: Seq<bool>) -> int
    decreases s.len(),
{
    if s.len() == 0 {
        0
    } else {
        count_true(s.drop_last()) + if s.last() { 1int } else { 0int }
    }
}

proof fn lemma_count_true_le(s: Seq<bool>)
    ensures
        0 <= count_true(s) <= s.len(),
    decreases s.len(),
{
    if s.len() > 0 {
        lemma_count_true_le(s.drop_last());
    }
}

proof fn lemma_count_true_update(s: Seq<bool>, i: int)
    requires
        0 <= i < s.len(),
        !s[i],
    ensures
        count_true(s.update(i, true)) == count_true(s) + 1,
    decreases s.len(),
{
    let t = s.update(i, true);
    if i == s.len() - 1 {
        assert(t.drop_last() =~= s.drop_last());
    } else {
        assert(t.drop_last() =~= s.drop_last().update(i, true));
        lemma_count_true_update(s.drop_last(), i);
        assert(t.last() == s.last());
    }
}

fn index_of(v: &Vec<NodeId>, id: NodeId) -> (r: Option<usize>)
    ensures
        match r {
            Some(i) => i < v@.len() && v@[i as int] == id,
            None => forall|j: int| 0 <= j < v@.len() ==> #[trigger] v@[j] != id,
        },
{
    let n = v.len();
    for i in 0..n
        invariant
            n == v@.len(),
            forall|j: int| 0 <= j < i ==> #[trigger] v@[j] != id,
    {
        if v[i].0 == id.0 {
            return Some(i);
        }
    }
    None
}

fn clone_route(v: &Vec<Hop>) -> (r: Vec<Hop>)
    ensures
        r@ == v@,
{
    let n = v.len();
    let mut r: Vec<Hop> = Vec::new();
    for i in 0..n
        invariant
            n == v@.len(),
            r@ =~= v@.take(i as int),
    {
        r.push(v[i]);
    }
    proof {
        assert(v@.take(n as int) =~= v@);
    }
    r
}

/// The preprocessed shortest-path structure: a node table and an
/// adjacency table derived deterministically from the network's
/// directional costs.  Impassable directions contribute no arc.
pub struct RoutingIndex {
    nodes: Vec<NodeId>,
    arcs: Vec<Vec<Hop>>,
}

impl View for RoutingIndex {
    type V = IndexView;

    closed spec fn view(&self) -> IndexView {
        IndexView {
            nodes: self.nodes@,
            arcs: Seq::new(self.arcs@.len(), |i: int| self.arcs@[i]@),
        }
    }
}

/// An arc is faithful to the network it was built from: it carries the
/// key of a stored edge, that edge's length and class, and its cost is
/// the stored directional cost in the direction the arc points.
pub open spec fn hop_sound(
    edges: Map<EdgeKey, crate::network::Edge>, nodes: Seq<NodeId>, i: int, h: Hop,
) -> bool {
    edges.contains_key(h.key) && 0 <= i < nodes.len() && (h.to as int) < nodes.len() && {
        let e = edges[h.key];
        h.length_mm == e.length_mm && h.lts == e.lts
            && ((h.key.from == nodes[i] && h.key.to == nodes[h.to as int]
                    && e.forward_cost == Some(h.cost))
                || (h.key.to == nodes[i] && h.key.from == nodes[h.to as int]
                    && e.backward_cost == Some(h.cost)))
    }
}

impl RoutingIndex {
    /// Build the routing index from a network's directional costs.
    /// The node table lists the network's intersections in store
    /// order; every arc mirrors a stored directional cost.
    pub fn build(net: &Network) -> (r: RoutingIndex)
        requires
            net.wf(),
            net.intersections.entry_seq().len() <= 0x8000_0000,
        ensures
            index_wf(r@),
            r@.nodes.len() == net.intersections.entry_seq().len(),
            forall|i: int|
                0 <= i < r@.nodes.len()
                    ==> r@.nodes[i] == (#[trigger] net.intersections.entry_seq()[i]).0,
            forall|i: int, j: int|
                0 <= i < r@.arcs.len() && 0 <= j < r@.arcs[i].len()
                    ==> hop_sound(net.edges@, r@.nodes, i, #[trigger] r@.arcs[i][j]),
    {
        proof {
            net.intersections.lemma_entries();
            net.edges.lemma_entries();
        }
        let ientries = net.intersections.entries();
        let n = ientries.len();
        let mut nodes: Vec<NodeId> = Vec::new();
        for i in 0..n
            invariant
                n == ientries@.len(),
                ientries@ == net.intersections.entry_seq(),
                nodes@.len() == i,
                forall|j: int| 0 <= j < i ==> #[trigger] nodes@[j] == ientries@[j].0,
        {
            nodes.push(ientries[i].0);
        }
        proof {
            assert forall|i: int, j: int| 0 <= i < j < nodes@.len()
                implies #[trigger] nodes@[i] != #[trigger] nodes@[j] by {
                assert(ientries@[i].0 != ientries@[j].0);
            }
        }

        let eentries = net.edges.entries();
        let m = eentries.len();
        let mut arcs: Vec<Vec<Hop>> = Vec::new();
        for i in 0..n
            invariant
                n == nodes@.len(),
                n <= 0x8000_0000,
                m == eentries@.len(),
                eentries@ == net.edges.entry_seq(),
                net.wf(),
                forall|t: int|
                    0 <= t < m
                        ==> net.edges@.contains_key((#[trigger] eentries@[t]).0)
                            && net.edges@[eentries@[t].0] == eentries@[t].1,
                arcs@.len() == i,
                forall|v: int, j: int|
                    0 <= v < i && 0 <= j < arcs@[v]@.len()
                        ==> hop_sound(net.edges@, nodes@, v, #[trigger] arcs@[v]@[j])
                            && arcs@[v]@[j].cost <= COST_CAP,
        {
            let me = nodes[i];
            let mut row: Vec<Hop> = Vec::new();
            for t in 0..m
                invariant
                    n == nodes@.len(),
                    i < n,
                    m == eentries@.len(),
                    eentries@ == net.edges.entry_seq(),
                    net.wf(),
                    me == nodes@[i as int],
                    forall|tt: int|
                        0 <= tt < m
                            ==> net.edges@.contains_key((#[trigger] eentries@[tt]).0)
                                && net.edges@[eentries@[tt].0] == eentries@[tt].1,
                    forall|j: int|
                        0 <= j < row@.len()
                            ==> hop_sound(net.edges@, nodes@, i as int, #[trigger] row@[j])
                                && row@[j].cost <= COST_CAP,
            {
                let k = eentries[t].0;
                let e = &eentries[t].1;
                if k.from.0 == me.0 {
                    if let Some(c) = e.forward_cost {
                        match index_of(&nodes, k.to) {
                            Some(j) => {
                                row.push(Hop {
                                    to: j,
                                    cost: c,
                                    key: k,
                                    length_mm: e.length_mm,
                                    lts: e.lts,
                                });
                            },
                            None => {},
                        }
                    }
                }
                if k.to.0 == me.0 {
                    if let Some(c) = e.backward_cost {
                        match index_of(&nodes, k.from) {
                            Some(j) => {
                                row.push(Hop {
                                    to: j,
                                    cost: c,
                                    key: k,
                                    length_mm: e.length_mm,
                                    lts: e.lts,
                                });
                            },
                            None => {},
                        }
                    }
                }
            }
            arcs.push(row);
        }
        let r = RoutingIndex { nodes, arcs };
        proof {
            assert(r@.arcs.len() == r@.nodes.len());
            assert forall|i: int, j: int|
                0 <= i < r@.arcs.len() && 0 <= j < r@.arcs[i].len()
                implies (#[trigger] r@.arcs[i][j]).to < r@.nodes.len()
                    && r@.arcs[i][j].cost <= COST_CAP by {
                assert(hop_sound(net.edges@, r@.nodes, i, r@.arcs[i][j]));
            }
        }
        r
    }

    /// Shortest-path query between two node identifiers.  `Some`
    /// carries a total cost and the chain of arcs of an actual route
    /// between the two nodes whose costs sum to that total; `None`
    /// means the index joins the two nodes by no route at all
    /// (unknown identifier, disconnected graph, or every path blocked
    /// by impassable directions).
    pub fn query(&self, from: NodeId, to: NodeId) -> (r: Option<(u64, Vec<Hop>)>)
        requires
            index_wf(self@),
        ensures
            match r {
                Some(p) => exists|i: int, j: int|
                    0 <= i < self@.nodes.len() && 0 <= j < self@.nodes.len()
                        && self@.nodes[i] == from && self@.nodes[j] == to
                        && valid_route(self@, i, p.1@, j) && p.0 == route_cost(p.1@),
                None => !connected(self@, from, to),
            },
    {
        let ghost iv = self@;
        let si = match index_of(&self.nodes, from) {
            Some(i) => i,
            None => {
                proof {
                    if connected(iv, from, to) {
                        let (i, j, steps) = choose|i: int, j: int, steps: Seq<Hop>|
                            0 <= i < iv.nodes.len() && 0 <= j < iv.nodes.len()
                                && iv.nodes[i] == from && iv.nodes[j] == to
                                && valid_route(iv, i, steps, j);
                        assert(false);
                    }
                }
                return None;
            },
        };
        let ti = match index_of(&self.nodes, to) {
            Some(i) => i,
            None => {
                proof {
                    if connected(iv, from, to) {
                        let (i, j, steps) = choose|i: int, j: int, steps: Seq<Hop>|
                            0 <= i < iv.nodes.len() && 0 <= j < iv.nodes.len()
                                && iv.nodes[i] == from && iv.nodes[j] == to
                                && valid_route(iv, i, steps, j);
                        assert(false);
                    }
                }
                return None;
            },
        };
        let n = self.nodes.len();
        let mut dist: Vec<Option<(u64, Vec<Hop>)>> = Vec::new();
        for i in 0..n
            invariant
                dist@.len() == i,
                forall|v: int| 0 <= v < i ==> (#[trigger] dist@[v]) is None,
        {
            dist.push(None);
        }
        let empty_route: Vec<Hop> = Vec::new();
        dist[si] = Some((0u64, empty_route));
        let mut settled: Vec<bool> = Vec::new();
        for i in 0..n
            invariant
                settled@.len() == i,
                forall|v: int| 0 <= v < i ==> !(#[trigger] settled@[v]),
        {
            settled.push(false);
        }
        proof {
            lemma_count_true_le(settled@);
        }
        loop
            invariant
                iv == self@,
                index_wf(iv),
                n == iv.nodes.len(),
                si < n,
                ti < n,
                iv.nodes[si as int] == from,
                iv.nodes[ti as int] == to,
                dist@.len() == n,
                settled@.len() == n,
                0 <= count_true(settled@) <= n,
                dist@[si as int] is Some,
                forall|v: int|
                    0 <= v < n ==> match #[trigger] dist@[v] {
                        Some(pr) => valid_route(iv, si as int, pr.1@, v)
                            && pr.0 == route_cost(pr.1@)
                            && pr.1@.len() <= count_true(settled@),
                        None => true,
                    },
                forall|u: int| 0 <= u < n && settled@[u] ==> (#[trigger] dist@[u]) is Some,
                forall|u: int, t: int|
                    0 <= u < n && settled@[u] && 0 <= t < iv.arcs[u].len()
                        ==> dist@[(#[trigger] iv.arcs[u][t]).to as int] is Some,
            ensures
                dist@.len() == n,
                settled@.len() == n,
                forall|v: int|
                    0 <= v < n ==> match #[trigger] dist@[v] {
                        Some(pr) => valid_route(iv, si as int, pr.1@, v)
                            && pr.0 == route_cost(pr.1@),
                        None => true,
                    },
                forall|u: int| 0 <= u < n && (#[trigger] dist@[u]) is Some ==> settled@[u],
                forall|u: int, t: int|
                    0 <= u < n && settled@[u] && 0 <= t < iv.arcs[u].len()
                        ==> dist@[(#[trigger] iv.arcs[u][t]).to as int] is Some,
            decreases n - count_true(settled@),
        {
            let mut best: Option<usize> = None;
            let mut bestcost: u64 = 0;
            for v in 0..n
                invariant
                    n == dist@.len(),
                    n == settled@.len(),
                    match best {
                        Some(b) => b < n && !settled@[b as int] && dist@[b as int] is Some,
                        None => forall|w: int|
                            0 <= w < v ==> (settled@[w] || (#[trigger] dist@[w]) is None),
                    },
            {
                if !settled[v] {
                    match &dist[v] {
                        Some(pr) => {
                            let c = pr.0;
                            if best.is_none() || c < bestcost {
                                best = Some(v);
                                bestcost = c;
                            }
                        },
                        None => {},
                    }
                }
            }
            match best {
                None => {
                    break;
                },
                Some(u) => {
                    let ghost settled_before = settled@;
                    settled[u] = true;
                    proof {
                        lemma_count_true_update(settled_before, u as int);
                        lemma_count_true_le(settled@);
                    }
                    let (du, route_u) = match &dist[u] {
                        Some(pr) => (pr.0, clone_route(&pr.1)),
                        None => unreached(),
                    };
                    let row_len = {
                        let row = &self.arcs[u];
                        row.len()
                    };
                    proof {
                        assert(iv.arcs[u as int] == self.arcs@[u as int]@);
                        lemma_route_cost_bound(iv, si as int, route_u@, u as int);
                        lemma_count_true_le(settled@);
                    }
                    for t in 0..row_len
                        invariant
                            iv == self@,
                            index_wf(iv),
                            n == iv.nodes.len(),
                            si < n,
                            u < n,
                            row_len == iv.arcs[u as int].len(),
                            dist@.len() == n,
                            settled@.len() == n,
                            settled@[u as int],
                            0 <= count_true(settled@) <= n,
                            valid_route(iv, si as int, route_u@, u as int),
                            du == route_cost(route_u@),
                            route_u@.len() + 1 <= count_true(settled@),
                            dist@[si as int] is Some,
                            forall|v: int|
                                0 <= v < n ==> match #[trigger] dist@[v] {
                                    Some(pr) => valid_route(iv, si as int, pr.1@, v)
                                        && pr.0 == route_cost(pr.1@)
                                        && pr.1@.len() <= count_true(settled@),
                                    None => true,
                                },
                            forall|w: int|
                                0 <= w < n && settled@[w] ==> (#[trigger] dist@[w]) is Some,
                            forall|w: int, s: int|
                                0 <= w < n && settled@[w] && w != u as int
                                    && 0 <= s < iv.arcs[w].len()
                                    ==> dist@[(#[trigger] iv.arcs[w][s]).to as int] is Some,
                            forall|s: int|
                                0 <= s < t
                                    ==> dist@[(#[trigger] iv.arcs[u as int][s]).to as int]
                                        is Some,
                    {
                        let h = {
                            let row = &self.arcs[u];
                            row[t]
                        };
                        proof {
                            assert(h == iv.arcs[u as int][t as int]);
                            assert(iv.arcs[u as int].contains(h));
                            lemma_route_cost_bound(iv, si as int, route_u@, u as int);
                            assert(route_u@.len() * (COST_CAP as int)
                                <= 0x8000_0000 * (COST_CAP as int)) by (nonlinear_arith)
                                requires route_u@.len() <= 0x8000_0000;
                        }
                        let alt = du + h.cost;
                        let do_update = match &dist[h.to] {
                            None => true,
                            Some(pr) => !settled[h.to] && alt < pr.0,
                        };
                        if do_update {
                            let mut nr = clone_route(&route_u);
                            nr.push(h);
                            proof {
                                lemma_route_extend(iv, si as int, route_u@, u as int, h);
                                lemma_route_cost_push(route_u@, h);
                            }
                            dist[h.to] = Some((alt, nr));
                        }
                    }
                },
            }
        }
        let ghost dist_final = dist@;
        let found = dist.swap_remove(ti);
        match found {
            Some(pr) => {
                proof {
                    assert(valid_route(iv, si as int, pr.1@, ti as int));
                }
                Some(pr)
            },
            None => {
                proof {
                    if connected(iv, from, to) {
                        let (i, j, steps) = choose|i: int, j: int, steps: Seq<Hop>|
                            0 <= i < iv.nodes.len() && 0 <= j < iv.nodes.len()
                                && iv.nodes[i] == from && iv.nodes[j] == to
                                && valid_route(iv, i, steps, j);
                        assert(i == si as int);
                        assert(j == ti as int);
                        let reached = Seq::new(n as nat, |v: int| dist_final[v] is Some);
                        assert forall|w: int, s: int|
                            0 <= w < iv.arcs.len() && reached[w] && 0 <= s < iv.arcs[w].len()
                            implies reached[(#[trigger] iv.arcs[w][s]).to as int] by {
                            assert(dist_final[w] is Some);
                            assert(settled@[w]);
                        }
                        lemma_closed_unreached(iv, reached, si as int, steps, ti as int);
                        assert(false);
                    }
                }
                None
            },
        }
    }
}

/// One travel demand: an origin point, a destination point, and an
/// uptake weight in millionths (so 1_000_000 is a weight of one).
#[derive(Clone, Copy, PartialEq, Eq, Structural, Debug)]
pub struct Demand {
    pub origin: Position,
    pub destination: Position,
    pub weight: u32,
}

/// The largest demand weight: a weight of exactly one.
pub const WEIGHT_SCALE: u32 = 1_000_000;

/// Counts update for traversing one arc: its edge's counter gains the
/// demand's weight, and its stress-class bucket gains its length.
pub open spec fn apply_hop(c: CountsView, w: u64, h: Hop) -> CountsView {
    CountsView {
        count_per_edge: bump(c.count_per_edge, h.key, w),
        total_distance_by_lts: if h.lts.as_index() < c.total_distance_by_lts.len() {
            c.total_distance_by_lts.update(
                h.lts.as_index(),
                spec_sat_add(c.total_distance_by_lts[h.lts.as_index()] as int, h.length_mm as int)
                    as u64,
            )
        } else {
            c.total_distance_by_lts
        },
        ..c
    }
}

pub open spec fn apply_steps(c: CountsView, w: u64, steps: Seq<Hop>) -> CountsView
    decreases steps.len(),
{
    if steps.len() == 0 {
        c
    } else {
        apply_hop(apply_steps(c, w, steps.drop_last()), w, steps.last())
    }
}

/// Counts update for one processed demand: a failure bumps the error
/// counter and nothing else; a success adds the weight along every
/// arc of the route and once to each endpoint counter.
pub open spec fn apply_outcome(c: CountsView, d: Demand, out: Option<Seq<Hop>>) -> CountsView {
    match out {
        None => CountsView { errors: spec_sat_add(c.errors as int, 1) as u64, ..c },
        Some(steps) => {
            let c1 = apply_steps(c, d.weight as u64, steps);
            CountsView {
                count_per_origin: bump(c1.count_per_origin, d.origin, d.weight as u64),
                count_per_destination: bump(
                    c1.count_per_destination, d.destination, d.weight as u64),
                ..c1
            }
        },
    }
}

/// The accumulator after processing a batch of demands with the given
/// per-demand outcomes, in order.
pub open spec fn aggregate_outcomes(
    c: CountsView, demands: Seq<Demand>, outs: Seq<Option<Seq<Hop>>>,
) -> CountsView
    decreases demands.len(),
{
    if demands.len() == 0 {
        c
    } else {
        apply_outcome(
            aggregate_outcomes(c, demands.drop_last(), outs.drop_last()),
            demands.last(),
            outs.last(),
        )
    }
}

/// Some node resolves the point within the radius.
pub open spec fn resolvable(m: Map<NodeId, Position>, p: Position, radius2: int) -> bool {
    exists|id: NodeId| is_nearest(m, p, id, radius2)
}

/// What the engine may report for one demand.  A success carries a
/// route of the index between nearest-node resolutions of the two
/// endpoints; a failure happens exactly when an endpoint resolves to
/// no node within the radius or the resolved pair is unconnected.
pub open spec fn outcome_ok(
    iv: IndexView, m: Map<NodeId, Position>, d: Demand, radius2: int, out: Option<Seq<Hop>>,
) -> bool {
    match out {
        Some(steps) => exists|i: int, j: int|
            0 <= i < iv.nodes.len() && 0 <= j < iv.nodes.len()
                && is_nearest(m, d.origin, #[trigger] iv.nodes[i], radius2)
                && is_nearest(m, d.destination, #[trigger] iv.nodes[j], radius2)
                && valid_route(iv, i, steps, j),
        None => !resolvable(m, d.origin, radius2) || !resolvable(m, d.destination, radius2)
            || exists|oid: NodeId, did: NodeId|
                is_nearest(m, d.origin, oid, radius2)
                    && is_nearest(m, d.destination, did, radius2) && !connected(iv, oid, did),
    }
}

fn add_success(counts: &mut Counts, d: Demand, steps: &Vec<Hop>)
    requires
        old(counts).wf(),
    ensures
        final(counts).wf(),
        final(counts)@ == apply_outcome(old(counts)@, d, Some(steps@)),
{
    let ghost c0 = counts@;
    let w = d.weight as u64;
    let n = steps.len();
    for t in 0..n
        invariant
            n == steps@.len(),
            counts.wf(),
            counts@ == apply_steps(c0, w, steps@.take(t as int)),
    {
        let h = steps[t];
        let ghost before = counts@;
        counts.count_per_edge.add_weight(h.key, w);
        let idx = h.lts.to_index();
        let cur = counts.total_distance_by_lts[idx];
        let nv = sat_add_u64(cur, h.length_mm);
        counts.total_distance_by_lts[idx] = nv;
        proof {
            assert(counts@ =~= apply_hop(before, w, h));
            assert(steps@.take(t + 1).drop_last() =~= steps@.take(t as int));
            assert(steps@.take(t + 1).last() == h);
        }
    }
    proof {
        assert(steps@.take(n as int) =~= steps@);
    }
    counts.count_per_origin.add_weight(d.origin, w);
    counts.count_per_destination.add_weight(d.destination, w);
    proof {
        assert(counts@ =~= apply_outcome(c0, d, Some(steps@)));
    }
}

/// Drive a whole demand batch through the routing index, producing a
/// Counts accumulator.  Each demand is resolved to nearest nodes and
/// routed independently; a failed demand only bumps the error counter
/// and never aborts the batch.  The result is exactly the aggregation
/// of one outcome per demand, each outcome faithful to the index and
/// the network (`outcome_ok`).
pub fn route_all(
    index: &RoutingIndex, network: &Network, demands: &Vec<Demand>, radius2: u128,
) -> (r: Counts)
    requires
        index_wf(index@),
        network.wf(),
    ensures
        r.wf(),
        counts_wf_view(r@),
        exists|outs: Seq<Option<Seq<Hop>>>|
            outs.len() == demands@.len()
                && (forall|i: int|
                    0 <= i < outs.len()
                        ==> outcome_ok(
                            index@, network.intersections@, demands@[i], radius2 as int,
                            #[trigger] outs[i]))
                && r@ == aggregate_outcomes(empty_counts(), demands@, outs),
{
    let mut counts = Counts::new();
    let ghost mut outs: Seq<Option<Seq<Hop>>> = Seq::empty();
    let n = demands.len();
    for i in 0..n
        invariant
            n == demands@.len(),
            index_wf(index@),
            network.wf(),
            counts.wf(),
            outs.len() == i,
            forall|j: int|
                0 <= j < i
                    ==> outcome_ok(
                        index@, network.intersections@, demands@[j], radius2 as int,
                        #[trigger] outs[j]),
            counts@ == aggregate_outcomes(empty_counts(), demands@.take(i as int), outs),
    {
        let d = demands[i];
        let ghost prev = counts@;
        let ghost prev_outs = outs;
        let mut failed = true;
        match network.nearest_node(d.origin, radius2) {
            Some(oid) => match network.nearest_node(d.destination, radius2) {
                Some(did) => match index.query(oid, did) {
                    Some(pr) => {
                        add_success(&mut counts, d, &pr.1);
                        proof {
                            outs = outs.push(Some(pr.1@));
                        }
                        failed = false;
                    },
                    None => {},
                },
                None => {},
            },
            None => {},
        }
        if failed {
            counts.errors = sat_add_u64(counts.errors, 1);
            proof {
                outs = outs.push(None);
                assert(counts@ =~= apply_outcome(prev, d, None));
            }
        }
        proof {
            assert(demands@.take(i + 1).drop_last() =~= demands@.take(i as int));
            assert(demands@.take(i + 1).last() == d);
            assert(outs.drop_last() =~= prev_outs);
            assert(counts@ == aggregate_outcomes(empty_counts(), demands@.take(i + 1), outs));
        }
    }
    proof {
        assert(demands@.take(n as int) =~= demands@);
    }
    counts
}

proof fn lemma_apply_hop_shift(a: CountsView, b: CountsView, w: u64, h: Hop)
    requires
        counts_wf_view(a),
        counts_wf_view(b),
    ensures
        apply_hop(combine_views(a, b), w, h) == combine_views(a, apply_hop(b, w, h)),
        counts_wf_view(apply_hop(b, w, h)),
{
    let k = h.key;
    lemma_sat_add_assoc(
        or_zero(a.count_per_edge, k), or_zero(b.count_per_edge, k), w as int);
    assert(apply_hop(combine_views(a, b), w, h).count_per_edge
        =~= combine_views(a, apply_hop(b, w, h)).count_per_edge);
    let idx = h.lts.as_index();
    assert forall|i: int| 0 <= i < 5
        implies apply_hop(combine_views(a, b), w, h).total_distance_by_lts[i]
            == combine_views(a, apply_hop(b, w, h)).total_distance_by_lts[i] by {
        if i == idx {
            lemma_sat_add_assoc(
                a.total_distance_by_lts[i] as int,
                b.total_distance_by_lts[i] as int,
                h.length_mm as int,
            );
        }
    }
    assert(apply_hop(combine_views(a, b), w, h).total_distance_by_lts
        =~= combine_views(a, apply_hop(b, w, h)).total_distance_by_lts);
    assert(apply_hop(combine_views(a, b), w, h) =~= combine_views(a, apply_hop(b, w, h)));
}

proof fn lemma_apply_steps_shift(a: CountsView, b: CountsView, w: u64, steps: Seq<Hop>)
    requires
        counts_wf_view(a),
        counts_wf_view(b),
    ensures
        apply_steps(combine_views(a, b), w, steps) == combine_views(a, apply_steps(b, w, steps)),
        counts_wf_view(apply_steps(b, w, steps)),
    decreases steps.len(),
{
    if steps.len() == 0 {
    } else {
        lemma_apply_steps_shift(a, b, w, steps.drop_last());
        lemma_apply_hop_shift(a, apply_steps(b, w, steps.drop_last()), w, steps.last());
    }
}

proof fn lemma_apply_outcome_shift(a: CountsView, b: CountsView, d: Demand, out: Option<Seq<Hop>>)
    requires
        counts_wf_view(a),
        counts_wf_view(b),
    ensures
        apply_outcome(combine_views(a, b), d, out) == combine_views(a, apply_outcome(b, d, out)),
        counts_wf_view(apply_outcome(b, d, out)),
{
    match out {
        None => {
            lemma_sat_add_assoc(a.errors as int, b.errors as int, 1);
            assert(apply_outcome(combine_views(a, b), d, out)
                =~= combine_views(a, apply_outcome(b, d, out)));
        },
        Some(steps) => {
            let w = d.weight as u64;
            lemma_apply_steps_shift(a, b, w, steps);
            let c1 = apply_steps(b, w, steps);
            lemma_sat_add_assoc(
                or_zero(a.count_per_origin, d.origin),
                or_zero(c1.count_per_origin, d.origin),
                w as int,
            );
            lemma_sat_add_assoc(
                or_zero(a.count_per_destination, d.destination),
                or_zero(c1.count_per_destination, d.destination),
                w as int,
            );
            assert(apply_outcome(combine_views(a, b), d, out).count_per_origin
                =~= combine_views(a, apply_outcome(b, d, out)).count_per_origin);
            assert(apply_outcome(combine_views(a, b), d, out).count_per_destination
                =~= combine_views(a, apply_outcome(b, d, out)).count_per_destination);
            assert(apply_outcome(combine_views(a, b), d, out)
                =~= combine_views(a, apply_outcome(b, d, out)));
        },
    }
}

proof fn lemma_aggregate_wf(c: CountsView, demands: Seq<Demand>, outs: Seq<Option<Seq<Hop>>>)
    requires
        counts_wf_view(c),
    ensures
        counts_wf_view(aggregate_outcomes(c, demands, outs)),
    decreases demands.len(),
{
    if demands.len() > 0 {
        lemma_aggregate_wf(c, demands.drop_last(), outs.drop_last());
        lemma_apply_outcome_shift(
            empty_counts(),
            aggregate_outcomes(c, demands.drop_last(), outs.drop_last()),
            demands.last(),
            outs.last(),
        );
    }
}

proof fn lemma_aggregate_shift(
    a: CountsView, b: CountsView, demands: Seq<Demand>, outs: Seq<Option<Seq<Hop>>>,
)
    requires
        counts_wf_view(a),
        counts_wf_view(b),
    ensures
        aggregate_outcomes(combine_views(a, b), demands, outs)
            == combine_views(a, aggregate_outcomes(b, demands, outs)),
    decreases demands.len(),
{
    if demands.len() > 0 {
        lemma_aggregate_shift(a, b, demands.drop_last(), outs.drop_last());
        lemma_aggregate_wf(b, demands.drop_last(), outs.drop_last());
        lemma_apply_outcome_shift(
            a,
            aggregate_outcomes(b, demands.drop_last(), outs.drop_last()),
            demands.last(),
            outs.last(),
        );
    }
}

proof fn lemma_aggregate_append(
    c: CountsView,
    d1: Seq<Demand>, o1: Seq<Option<Seq<Hop>>>,
    d2: Seq<Demand>, o2: Seq<Option<Seq<Hop>>>,
)
    requires
        o1.len() == d1.len(),
        o2.len() == d2.len(),
    ensures
        aggregate_outcomes(c, d1 + d2, o1 + o2)
            == aggregate_outcomes(aggregate_outcomes(c, d1, o1), d2, o2),
    decreases d2.len(),
{
    if d2.len() == 0 {
        assert(d1 + d2 =~= d1);
        assert(o1 + o2 =~= o1);
    } else {
        lemma_aggregate_append(c, d1, o1, d2.drop_last(), o2.drop_last());
        assert((d1 + d2).drop_last() =~= d1 + d2.drop_last());
        assert((o1 + o2).drop_last() =~= o1 + o2.drop_last());
        assert((d1 + d2).last() == d2.last());
        assert((o1 + o2).last() == o2.last());
    }
}

/// Aggregation correctness under partitioning: routing a batch
/// sequentially and splitting it at any point, routing the two parts
/// with their own empty accumulators, and combining the partial
/// results, give exactly the same Counts.  Applied repeatedly this
/// covers any number of workers and any merge tree.
pub proof fn lemma_partitioned_routing(
    demands: Seq<Demand>, outs: Seq<Option<Seq<Hop>>>, k: int,
)
    requires
        outs.len() == demands.len(),
        0 <= k <= demands.len(),
    ensures
        aggregate_outcomes(empty_counts(), demands, outs) == combine_views(
            aggregate_outcomes(empty_counts(), demands.take(k), outs.take(k)),
            aggregate_outcomes(empty_counts(), demands.skip(k), outs.skip(k)),
        ),
{
    let a = aggregate_outcomes(empty_counts(), demands.take(k), outs.take(k));
    assert(demands.take(k) + demands.skip(k) =~= demands);
    assert(outs.take(k) + outs.skip(k) =~= outs);
    lemma_aggregate_append(
        empty_counts(), demands.take(k), outs.take(k), demands.skip(k), outs.skip(k));
    lemma_aggregate_wf(empty_counts(), demands.take(k), outs.take(k));
    lemma_counts_combine_unit(a);
    lemma_aggregate_shift(a, empty_counts(), demands.skip(k), outs.skip(k));
}


/// One record of the detailed alternate mode: the demand's endpoints
/// and, when routing succeeded, the full route and its total cost.
pub struct RouteDetail {
    pub origin: Position,
    pub destination: Position,
    pub found: bool,
    pub cost: u64,
    pub steps: Vec<Hop>,
}

/// The outcome that one detailed record reports: the route when the
/// demand was served, nothing when it failed.
pub open spec fn detail_outcome(d: RouteDetail) -> Option<Seq<Hop>> {
    if d.found {
        Some(d.steps@)
    } else {
        None
    }
}

/// The detailed alternate mode: route only the first `limit` demands
/// and emit one full route record per demand, preserving the input
/// order (record `i` describes demand `i`), instead of merging into
/// Counts.  Exclusive with the aggregate mode for a given run.  Each
/// record's outcome is faithful to the index and the network
/// (`outcome_ok`): `found` holds exactly when both endpoints resolve
/// within the radius and the resolved pair is joined by a route, and
/// the record then carries such a route and its exact total cost.
pub fn detailed_routes(
    index: &RoutingIndex, network: &Network, demands: &Vec<Demand>, radius2: u128, limit: usize,
) -> (r: Vec<RouteDetail>)
    requires
        index_wf(index@),
        network.wf(),
    ensures
        r@.len() == if limit <= demands@.len() { limit as int } else { demands@.len() as int },
        forall|i: int|
            0 <= i < r@.len() ==> {
                let d = #[trigger] r@[i];
                d.origin == demands@[i].origin && d.destination == demands@[i].destination
                    && outcome_ok(
                        index@, network.intersections@, demands@[i], radius2 as int,
                        detail_outcome(d))
                    && (d.found ==> d.cost == route_cost(d.steps@))
            },
{
    let n = if limit <= demands.len() {
        limit
    } else {
        demands.len()
    };
    let mut out: Vec<RouteDetail> = Vec::new();
    for i in 0..n
        invariant
            n <= demands@.len(),
            index_wf(index@),
            network.wf(),
            out@.len() == i,
            forall|j: int|
                0 <= j < i ==> {
                    let d = #[trigger] out@[j];
                    d.origin == demands@[j].origin
                        && d.destination == demands@[j].destination
                        && outcome_ok(
                            index@, network.intersections@, demands@[j], radius2 as int,
                            detail_outcome(d))
                        && (d.found ==> d.cost == route_cost(d.steps@))
                },
    {
        let d = demands[i];
        let mut detail = RouteDetail {
            origin: d.origin,
            destination: d.destination,
            found: false,
            cost: 0,
            steps: Vec::new(),
        };
        match network.nearest_node(d.origin, radius2) {
            Some(oid) => match network.nearest_node(d.destination, radius2) {
                Some(did) => match index.query(oid, did) {
                    Some(pr) => {
                        let ghost steps_g = pr.1@;
                        proof {
                            assert(outcome_ok(
                                index@, network.intersections@, d, radius2 as int,
                                Some(steps_g)));
                        }
                        detail.found = true;
                        detail.cost = pr.0;
                        detail.steps = pr.1;
                    },
                    None => {},
                },
                None => {},
            },
            None => {},
        }
        proof {
            assert(outcome_ok(
                index@, network.intersections@, d, radius2 as int, detail_outcome(detail)));
        }
        let ghost detail_g = detail;
        let ghost out_before = out@;
        out.push(detail);
        proof {
            assert forall|j: int| 0 <= j < i + 1 implies {
                let dd = #[trigger] out@[j];
                dd.origin == demands@[j].origin && dd.destination == demands@[j].destination
                    && outcome_ok(
                        index@, network.intersections@, demands@[j], radius2 as int,
                        detail_outcome(dd))
                    && (dd.found ==> dd.cost == route_cost(dd.steps@))
            } by {
                if j < i {
                    assert(out@[j] == out_before[j]);
                } else {
                    assert(out@[j] == detail_g);
                }
            }
        }
    }
    out
}


/// Leading marker of the routing-index cache format.
pub const INDEX_MAGIC: u64 = 0x6f64_326e_6574_0002;

pub open spec fn enc_hop(h: Hop) -> Seq<u8> {
    enc_u64(h.to as u64) + enc_u64(h.cost) + enc_i64(h.key.from.0) + enc_i64(h.key.to.0)
        + enc_u64(h.length_mm) + seq![h.lts.as_index() as u8]
}

pub open spec fn enc_hops(s: Seq<Hop>) -> Seq<u8>
    decreases s.len(),
{
    if s.len() == 0 {
        Seq::empty()
    } else {
        enc_hops(s.drop_last()) + enc_hop(s.last())
    }
}

pub open spec fn enc_row(s: Seq<Hop>) -> Seq<u8> {
    enc_u64(s.len() as u64) + enc_hops(s)
}

pub open spec fn enc_rows(s: Seq<Seq<Hop>>) -> Seq<u8>
    decreases s.len(),
{
    if s.len() == 0 {
        Seq::empty()
    } else {
        enc_rows(s.drop_last()) + enc_row(s.last())
    }
}

pub open spec fn enc_ids(s: Seq<NodeId>) -> Seq<u8>
    decreases s.len(),
{
    if s.len() == 0 {
        Seq::empty()
    } else {
        enc_ids(s.drop_last()) + enc_i64(s.last().0)
    }
}

/// The whole cache image of a routing index.
pub open spec fn enc_index(iv: IndexView) -> Seq<u8> {
    enc_u64(INDEX_MAGIC) + enc_u64(iv.nodes.len() as u64) + enc_ids(iv.nodes)
        + enc_rows(iv.arcs)
}


/// Some well-formed routing index encodes to exactly these bytes.
pub open spec fn valid_index_image(b: Seq<u8>) -> bool {
    exists|iv: IndexView| index_wf(iv) && b == enc_index(iv)
}

proof fn lemma_enc_hop_len(h: Hop)
    ensures
        enc_hop(h).len() == 41,
{
    crate::codec::lemma_enc_u64_len(h.to as u64);
    crate::codec::lemma_enc_u64_len(h.cost);
    crate::codec::lemma_enc_u64_len(h.key.from.0 as u64);
    crate::codec::lemma_enc_u64_len(h.key.to.0 as u64);
    crate::codec::lemma_enc_u64_len(h.length_mm);
}

proof fn lemma_enc_hops_len(s: Seq<Hop>)
    ensures
        enc_hops(s).len() == 41 * s.len(),
    decreases s.len(),
{
    if s.len() > 0 {
        lemma_enc_hops_len(s.drop_last());
        lemma_enc_hop_len(s.last());
    }
}

proof fn lemma_enc_ids_first(s: Seq<NodeId>)
    requires
        s.len() > 0,
    ensures
        enc_ids(s) == enc_i64(s[0].0) + enc_ids(s.skip(1)),
    decreases s.len(),
{
    if s.len() == 1 {
        assert(s.drop_last() =~= Seq::<NodeId>::empty());
        assert(s.skip(1) =~= Seq::<NodeId>::empty());
        assert(enc_ids(s) =~= enc_i64(s[0].0) + enc_ids(s.skip(1)));
    } else {
        lemma_enc_ids_first(s.drop_last());
        assert(s.skip(1).drop_last() =~= s.drop_last().skip(1));
        assert(s.skip(1).last() == s.last());
        assert(s.drop_last()[0] == s[0]);
        assert(enc_ids(s.skip(1))
            == enc_ids(s.drop_last().skip(1)) + enc_i64(s.last().0));
        assert(enc_ids(s) =~= enc_i64(s[0].0) + enc_ids(s.skip(1)));
    }
}

proof fn lemma_enc_hops_first(s: Seq<Hop>)
    requires
        s.len() > 0,
    ensures
        enc_hops(s) == enc_hop(s[0]) + enc_hops(s.skip(1)),
    decreases s.len(),
{
    if s.len() == 1 {
        assert(s.drop_last() =~= Seq::<Hop>::empty());
        assert(s.skip(1) =~= Seq::<Hop>::empty());
        assert(enc_hops(s) =~= enc_hop(s[0]) + enc_hops(s.skip(1)));
    } else {
        lemma_enc_hops_first(s.drop_last());
        assert(s.skip(1).drop_last() =~= s.drop_last().skip(1));
        assert(s.skip(1).last() == s.last());
        assert(s.drop_last()[0] == s[0]);
        assert(enc_hops(s.skip(1))
            == enc_hops(s.drop_last().skip(1)) + enc_hop(s.last()));
        assert(enc_hops(s) =~= enc_hop(s[0]) + enc_hops(s.skip(1)));
    }
}

proof fn lemma_enc_rows_first(s: Seq<Seq<Hop>>)
    requires
        s.len() > 0,
    ensures
        enc_rows(s) == enc_row(s[0]) + enc_rows(s.skip(1)),
    decreases s.len(),
{
    if s.len() == 1 {
        assert(s.drop_last() =~= Seq::<Seq<Hop>>::empty());
        assert(s.skip(1) =~= Seq::<Seq<Hop>>::empty());
        assert(enc_rows(s) =~= enc_row(s[0]) + enc_rows(s.skip(1)));
    } else {
        lemma_enc_rows_first(s.drop_last());
        assert(s.skip(1).drop_last() =~= s.drop_last().skip(1));
        assert(s.skip(1).last() == s.last());
        assert(s.drop_last()[0] == s[0]);
        assert(enc_rows(s.skip(1))
            == enc_rows(s.drop_last().skip(1)) + enc_row(s.last()));
        assert(enc_rows(s) =~= enc_row(s[0]) + enc_rows(s.skip(1)));
    }
}

proof fn lemma_lts_index_inj(a: Lts, b: Lts)
    requires
        a.as_index() == b.as_index(),
    ensures
        a == b,
{
}

#[verifier::rlimit(100)]
fn get_hop(buf: &Vec<u8>, pos: usize, n: usize, Ghost(hexp): Ghost<Hop>) -> (r: Option<(Hop, usize)>)
    ensures
        match r {
            Some(p) => pos <= p.1 <= buf@.len()
                && buf@.subrange(pos as int, p.1 as int) == enc_hop(p.0)
                && (p.0.to as int) < n && p.0.cost <= COST_CAP,
            None => true,
        },
        (pos + 41 <= buf@.len()
            && buf@.subrange(pos as int, pos + 41) == enc_hop(hexp)
            && (hexp.to as int) < n
            && hexp.cost <= COST_CAP) ==> match r {
            Some(p) => p.0 == hexp && p.1 == pos + 41,
            None => false,
        },
{
    let ghost pgood = pos + 41 <= buf@.len()
        && buf@.subrange(pos as int, pos + 41) == enc_hop(hexp)
        && (hexp.to as int) < n
        && hexp.cost <= COST_CAP;
    proof {
        if pgood {
            lemma_enc_hop_len(hexp);
            crate::codec::lemma_enc_u64_len(hexp.to as u64);
            crate::codec::lemma_enc_u64_len(hexp.cost);
            crate::codec::lemma_enc_u64_len(hexp.key.from.0 as u64);
            crate::codec::lemma_enc_u64_len(hexp.key.to.0 as u64);
            crate::codec::lemma_enc_u64_len(hexp.length_mm);
            let e1 = enc_u64(hexp.to as u64);
            let e2 = enc_u64(hexp.cost);
            let e3 = enc_i64(hexp.key.from.0);
            let e4 = enc_i64(hexp.key.to.0);
            let e5 = enc_u64(hexp.length_mm);
            let f = seq![hexp.lts.as_index() as u8];
            let nest = ((((e1 + e2) + e3) + e4) + e5) + f;
            assert(enc_hop(hexp) == nest);
            assert(nest.subrange(0, 8) =~= e1);
            assert(nest.subrange(8, 16) =~= e2);
            assert(nest.subrange(16, 24) =~= e3);
            assert(nest.subrange(24, 32) =~= e4);
            assert(nest.subrange(32, 40) =~= e5);
            assert(buf@.subrange(pos as int, pos + 41).subrange(0, 8)
                =~= buf@.subrange(pos as int, pos + 8));
            assert(buf@.subrange(pos as int, pos + 41).subrange(8, 16)
                =~= buf@.subrange(pos + 8, pos + 16));
            assert(buf@.subrange(pos as int, pos + 41).subrange(16, 24)
                =~= buf@.subrange(pos + 16, pos + 24));
            assert(buf@.subrange(pos as int, pos + 41).subrange(24, 32)
                =~= buf@.subrange(pos + 24, pos + 32));
            assert(buf@.subrange(pos as int, pos + 41).subrange(32, 40)
                =~= buf@.subrange(pos + 32, pos + 40));
            assert(buf@.subrange(pos as int, pos + 8) == enc_u64(hexp.to as u64));
            assert(buf@.subrange(pos + 8, pos + 16) == enc_u64(hexp.cost));
            assert(buf@.subrange(pos + 16, pos + 24) == enc_i64(hexp.key.from.0));
            assert(buf@.subrange(pos + 24, pos + 32) == enc_i64(hexp.key.to.0));
            assert(buf@.subrange(pos + 32, pos + 40) == enc_u64(hexp.length_mm));
            assert(buf@.subrange(pos as int, pos + 41)[40] == nest[40]);
            assert(buf@[pos + 40] == hexp.lts.as_index() as u8);
        }
    }
    let (to_raw, p1) = match get_u64(buf, pos) {
        Some(v) => v,
        None => return None,
    };
    proof {
        if pgood {
            crate::codec::lemma_enc_u64_inj(to_raw, hexp.to as u64);
        }
    }
    if to_raw >= n as u64 {
        return None;
    }
    let (cost, p2) = match get_u64(buf, p1) {
        Some(v) => v,
        None => return None,
    };
    proof {
        if pgood {
            crate::codec::lemma_enc_u64_inj(cost, hexp.cost);
        }
    }
    if cost > COST_CAP {
        return None;
    }
    let (kf, p3) = match get_i64(buf, p2) {
        Some(v) => v,
        None => return None,
    };
    let (kt, p4) = match get_i64(buf, p3) {
        Some(v) => v,
        None => return None,
    };
    let (length_mm, p5) = match get_u64(buf, p4) {
        Some(v) => v,
        None => return None,
    };
    if p5 >= buf.len() {
        return None;
    }
    let lts = match Lts::from_index(buf[p5]) {
        Some(l) => l,
        None => return None,
    };
    let p6 = p5 + 1;
    let h = Hop {
        to: to_raw as usize,
        cost,
        key: EdgeKey { from: NodeId(kf), to: NodeId(kt) },
        length_mm,
        lts,
    };
    proof {
        if pgood {
            crate::codec::lemma_enc_i64_inj(kf, hexp.key.from.0);
            crate::codec::lemma_enc_i64_inj(kt, hexp.key.to.0);
            crate::codec::lemma_enc_u64_inj(length_mm, hexp.length_mm);
            lemma_lts_index_inj(lts, hexp.lts);
            assert(h == hexp);
        }
        assert(buf@.subrange(p5 as int, p6 as int) =~= seq![h.lts.as_index() as u8]);
        assert(buf@.subrange(pos as int, p2 as int)
            =~= buf@.subrange(pos as int, p1 as int) + buf@.subrange(p1 as int, p2 as int));
        assert(buf@.subrange(pos as int, p3 as int)
            =~= buf@.subrange(pos as int, p2 as int) + buf@.subrange(p2 as int, p3 as int));
        assert(buf@.subrange(pos as int, p4 as int)
            =~= buf@.subrange(pos as int, p3 as int) + buf@.subrange(p3 as int, p4 as int));
        assert(buf@.subrange(pos as int, p5 as int)
            =~= buf@.subrange(pos as int, p4 as int) + buf@.subrange(p4 as int, p5 as int));
        assert(buf@.subrange(pos as int, p6 as int)
            =~= buf@.subrange(pos as int, p5 as int) + buf@.subrange(p5 as int, p6 as int));
    }
    Some((h, p6))
}

impl RoutingIndex {
    /// Serialize this index to its binary cache image.
    pub fn to_cache_bytes(&self) -> (r: Vec<u8>)
        ensures
            r@ == enc_index(self@),
    {
        let mut out: Vec<u8> = Vec::new();
        put_u64(&mut out, INDEX_MAGIC);
        let n = self.nodes.len();
        put_u64(&mut out, n as u64);
        let ghost imid = out@;
        for i in 0..n
            invariant
                n == self.nodes@.len(),
                out@ == imid + enc_ids(self.nodes@.take(i as int)),
        {
            put_u64(&mut out, self.nodes[i].0 as u64);
            proof {
                assert(self.nodes@.take(i + 1).drop_last() =~= self.nodes@.take(i as int));
                assert(out@ =~= imid + enc_ids(self.nodes@.take(i + 1)));
            }
        }
        proof {
            assert(self.nodes@.take(n as int) =~= self.nodes@);
        }
        let m = self.arcs.len();
        let ghost rmid = out@;
        for v in 0..m
            invariant
                m == self.arcs@.len(),
                self@.arcs.len() == m,
                forall|i: int| 0 <= i < m ==> self@.arcs[i] == self.arcs@[i]@,
                out@ == rmid + enc_rows(self@.arcs.take(v as int)),
        {
            let row = &self.arcs[v];
            let rl = row.len();
            put_u64(&mut out, rl as u64);
            let ghost hmid = out@;
            for t in 0..rl
                invariant
                    rl == row@.len(),
                    out@ == hmid + enc_hops(row@.take(t as int)),
            {
                let h = row[t];
                put_u64(&mut out, h.to as u64);
                put_u64(&mut out, h.cost);
                put_u64(&mut out, h.key.from.0 as u64);
                put_u64(&mut out, h.key.to.0 as u64);
                put_u64(&mut out, h.length_mm);
                out.push(h.lts.to_index() as u8);
                proof {
                    assert(row@.take(t + 1).drop_last() =~= row@.take(t as int));
                    assert(out@ =~= hmid + enc_hops(row@.take(t + 1)));
                }
            }
            proof {
                assert(row@.take(rl as int) =~= row@);
                assert(self@.arcs.take(v + 1).drop_last() =~= self@.arcs.take(v as int));
                assert(self@.arcs.take(v + 1).last() == row@);
                assert(out@ =~= rmid + enc_rows(self@.arcs.take(v + 1)));
            }
        }
        proof {
            assert(self@.arcs.take(m as int) =~= self@.arcs);
            assert(out@ =~= enc_index(self@));
        }
        out
    }

    /// Deserialize a cached routing index.  `None` comes exactly when
    /// the bytes are not the cache image of any well-formed index, so
    /// a previously saved image is always accepted.
    #[verifier::rlimit(100)]
    pub fn from_cache_bytes(bytes: &Vec<u8>) -> (r: Option<RoutingIndex>)
        ensures
            match r {
                Some(ix) => index_wf(ix@) && bytes@ == enc_index(ix@),
                None => !valid_index_image(bytes@),
            },
    {
        let ghost good = valid_index_image(bytes@);
        let ghost giv: IndexView = if good {
            choose|iv: IndexView| index_wf(iv) && bytes@ == enc_index(iv)
        } else {
            arbitrary()
        };
        proof {
            if good {
                assert(index_wf(giv) && bytes@ == enc_index(giv));
                crate::codec::lemma_enc_u64_len(INDEX_MAGIC);
                crate::codec::lemma_enc_u64_len(giv.nodes.len() as u64);
                assert(bytes@.subrange(0, 8) =~= enc_u64(INDEX_MAGIC));
                assert(bytes@.subrange(8, 16) =~= enc_u64(giv.nodes.len() as u64));
                assert(bytes@.subrange(16, bytes@.len() as int)
                    =~= enc_ids(giv.nodes) + enc_rows(giv.arcs));
            }
        }
        let (magic, p0) = match get_u64(bytes, 0) {
            Some(v) => v,
            None => return None,
        };
        if magic != INDEX_MAGIC {
            proof {
                if good {
                    crate::codec::lemma_enc_u64_inj(magic, INDEX_MAGIC);
                }
            }
            return None;
        }
        let (cnt, p1) = match get_u64(bytes, p0) {
            Some(v) => v,
            None => return None,
        };
        proof {
            if good {
                crate::codec::lemma_enc_u64_inj(cnt, giv.nodes.len() as u64);
            }
        }
        if cnt > 0x8000_0000 {
            return None;
        }
        let n = cnt as usize;
        proof {
            if good {
                assert(giv.nodes.skip(0) =~= giv.nodes);
            }
        }
        let mut nodes: Vec<NodeId> = Vec::new();
        let mut pos = p1;
        let mut done: u64 = 0;
        while done < cnt
            invariant
                done <= cnt,
                p1 == 16,
                p1 <= pos <= bytes@.len(),
                nodes@.len() == done,
                bytes@.subrange(p1 as int, pos as int) == enc_ids(nodes@),
                forall|i: int, j: int|
                    0 <= i < j < nodes@.len()
                        ==> #[trigger] nodes@[i] != #[trigger] nodes@[j],
                good == valid_index_image(bytes@),
                good ==> index_wf(giv) && bytes@ == enc_index(giv)
                    && cnt == giv.nodes.len()
                    && pos == 16 + 8 * done
                    && (forall|k: int| 0 <= k < done ==> nodes@[k] == giv.nodes[k])
                    && bytes@.subrange(pos as int, bytes@.len() as int)
                        == enc_ids(giv.nodes.skip(done as int)) + enc_rows(giv.arcs),
            decreases cnt - done,
        {
            proof {
                if good {
                    lemma_enc_ids_first(giv.nodes.skip(done as int));
                    crate::codec::lemma_enc_u64_len(giv.nodes[done as int].0 as u64);
                    assert(giv.nodes.skip(done as int)[0] == giv.nodes[done as int]);
                    assert(giv.nodes.skip(done as int).skip(1)
                        =~= giv.nodes.skip(done + 1));
                    let a = enc_i64(giv.nodes[done as int].0);
                    let b = enc_ids(giv.nodes.skip(done + 1));
                    let rest = enc_rows(giv.arcs);
                    assert(enc_ids(giv.nodes.skip(done as int)) == a + b);
                    assert(bytes@.subrange(pos as int, bytes@.len() as int)
                        == (a + b) + rest);
                    assert(bytes@.subrange(pos as int, pos + 8)
                        =~= bytes@.subrange(pos as int, bytes@.len() as int).take(8));
                    assert(((a + b) + rest).take(8) =~= a);
                    assert(bytes@.subrange(pos as int, pos + 8)
                        == enc_i64(giv.nodes[done as int].0));
                }
            }
            let (idv, q1) = match get_i64(bytes, pos) {
                Some(v) => v,
                None => return None,
            };
            let id = NodeId(idv);
            proof {
                if good {
                    crate::codec::lemma_enc_i64_inj(idv, giv.nodes[done as int].0);
                    assert(id == giv.nodes[done as int]);
                }
            }
            match index_of(&nodes, id) {
                Some(dup) => {
                    proof {
                        if good {
                            assert(giv.nodes[dup as int] == giv.nodes[done as int]);
                            assert(false);
                        }
                    }
                    return None;
                },
                None => {},
            }
            let ghost nodes0 = nodes@;
            nodes.push(id);
            proof {
                assert(nodes@.drop_last() =~= nodes0);
                assert(bytes@.subrange(p1 as int, q1 as int)
                    =~= bytes@.subrange(p1 as int, pos as int)
                        + bytes@.subrange(pos as int, q1 as int));
                if good {
                    let a = enc_i64(giv.nodes[done as int].0);
                    let b = enc_ids(giv.nodes.skip(done + 1));
                    let rest = enc_rows(giv.arcs);
                    crate::codec::lemma_enc_u64_len(giv.nodes[done as int].0 as u64);
                    assert(bytes@.subrange(pos as int, bytes@.len() as int)
                        == (a + b) + rest);
                    assert(bytes@.subrange(q1 as int, bytes@.len() as int)
                        =~= bytes@.subrange(pos as int, bytes@.len() as int).skip(8));
                    assert(((a + b) + rest).skip(8) =~= b + rest);
                    assert(bytes@.subrange(q1 as int, bytes@.len() as int)
                        == enc_ids(giv.nodes.skip(done + 1)) + enc_rows(giv.arcs));
                }
            }
            pos = q1;
            done = done + 1;
        }
        let ghost rbase = pos;
        proof {
            assert(enc_rows(Seq::<Seq<Hop>>::empty()) =~= Seq::<u8>::empty());
            if good {
                assert(giv.nodes.skip(cnt as int) =~= Seq::<NodeId>::empty());
                assert(enc_ids(Seq::<NodeId>::empty()) =~= Seq::<u8>::empty());
                assert((enc_ids(giv.nodes.skip(cnt as int)) + enc_rows(giv.arcs))
                    =~= enc_rows(giv.arcs));
                assert(bytes@.subrange(pos as int, bytes@.len() as int)
                    == enc_rows(giv.arcs));
                assert(giv.arcs.skip(0) =~= giv.arcs);
            }
        }
        let blen = bytes.len();
        let mut arcs: Vec<Vec<Hop>> = Vec::new();
        let ghost mut rviews: Seq<Seq<Hop>> = Seq::empty();
        let mut v: usize = 0;
        while v < n
            invariant
                v <= n,
                n == nodes@.len(),
                blen == bytes@.len(),
                rbase <= pos <= bytes@.len(),
                arcs@.len() == v,
                rviews.len() == v,
                forall|i: int| 0 <= i < v ==> rviews[i] == (#[trigger] arcs@[i])@,
                bytes@.subrange(rbase as int, pos as int) == enc_rows(rviews),
                forall|i: int, j: int|
                    0 <= i < v && 0 <= j < arcs@[i]@.len()
                        ==> ((#[trigger] arcs@[i]@[j]).to as int) < n
                            && arcs@[i]@[j].cost <= COST_CAP,
                good == valid_index_image(bytes@),
                good ==> index_wf(giv) && bytes@ == enc_index(giv)
                    && n == giv.nodes.len() && giv.arcs.len() == n
                    && bytes@.subrange(pos as int, bytes@.len() as int)
                        == enc_rows(giv.arcs.skip(v as int)),
            decreases n - v,
        {
            proof {
                if good {
                    lemma_enc_rows_first(giv.arcs.skip(v as int));
                    crate::codec::lemma_enc_u64_len(giv.arcs[v as int].len() as u64);
                    assert(giv.arcs.skip(v as int)[0] == giv.arcs[v as int]);
                    assert(giv.arcs.skip(v as int).skip(1) =~= giv.arcs.skip(v + 1));
                    let a = enc_u64(giv.arcs[v as int].len() as u64);
                    let hs = enc_hops(giv.arcs[v as int]);
                    let rest = enc_rows(giv.arcs.skip(v + 1));
                    assert(enc_rows(giv.arcs.skip(v as int)) == (a + hs) + rest);
                    assert(bytes@.subrange(pos as int, bytes@.len() as int)
                        == (a + hs) + rest);
                    assert(bytes@.subrange(pos as int, pos + 8)
                        =~= bytes@.subrange(pos as int, bytes@.len() as int).take(8));
                    assert(((a + hs) + rest).take(8) =~= a);
                    assert(bytes@.subrange(pos as int, pos + 8)
                        == enc_u64(giv.arcs[v as int].len() as u64));
                }
            }
            let (rc, q1) = match get_u64(bytes, pos) {
                Some(vv) => vv,
                None => return None,
            };
            proof {
                if good {
                    crate::codec::lemma_enc_u64_inj(rc, giv.arcs[v as int].len() as u64);
                    let a = enc_u64(giv.arcs[v as int].len() as u64);
                    let hs = enc_hops(giv.arcs[v as int]);
                    let rest = enc_rows(giv.arcs.skip(v + 1));
                    crate::codec::lemma_enc_u64_len(giv.arcs[v as int].len() as u64);
                    assert(bytes@.subrange(pos as int, bytes@.len() as int)
                        == (a + hs) + rest);
                    assert(bytes@.subrange(q1 as int, bytes@.len() as int)
                        =~= bytes@.subrange(pos as int, bytes@.len() as int).skip(8));
                    assert(((a + hs) + rest).skip(8) =~= hs + rest);
                    assert(bytes@.subrange(q1 as int, bytes@.len() as int) == hs + rest);
                    lemma_enc_hops_len(giv.arcs[v as int]);
                    assert(hs.len() <= (hs + rest).len());
                    assert(enc_hops(giv.arcs[v as int]).len() <= bytes@.len());
                    assert(giv.arcs[v as int].len() < 0x1_0000_0000_0000_0000);
                    assert(rc == giv.arcs[v as int].len());
                    assert(giv.arcs[v as int].skip(0) =~= giv.arcs[v as int]);
                }
            }
            let mut row: Vec<Hop> = Vec::new();
            let mut hpos = q1;
            let mut hdone: u64 = 0;
            while hdone < rc
                invariant
                    hdone <= rc,
                    v < n,
                    n == nodes@.len(),
                    q1 <= hpos <= bytes@.len(),
                    row@.len() == hdone,
                    bytes@.subrange(q1 as int, hpos as int) == enc_hops(row@),
                    forall|j: int|
                        0 <= j < row@.len()
                            ==> ((#[trigger] row@[j]).to as int) < n
                                && row@[j].cost <= COST_CAP,
                    good == valid_index_image(bytes@),
                    good ==> index_wf(giv) && v < giv.arcs.len()
                        && rc == giv.arcs[v as int].len()
                        && n == giv.nodes.len()
                        && bytes@.subrange(hpos as int, bytes@.len() as int)
                            == enc_hops(giv.arcs[v as int].skip(hdone as int))
                                + enc_rows(giv.arcs.skip(v + 1)),
                decreases rc - hdone,
            {
                let ghost hexp: Hop = if good {
                    giv.arcs[v as int][hdone as int]
                } else {
                    arbitrary()
                };
                proof {
                    if good {
                        lemma_enc_hops_first(giv.arcs[v as int].skip(hdone as int));
                        lemma_enc_hop_len(hexp);
                        assert(giv.arcs[v as int].skip(hdone as int)[0] == hexp);
                        assert(giv.arcs[v as int].skip(hdone as int).skip(1)
                            =~= giv.arcs[v as int].skip(hdone + 1));
                        let b = enc_hop(hexp);
                        let hs2 = enc_hops(giv.arcs[v as int].skip(hdone + 1));
                        let rest = enc_rows(giv.arcs.skip(v + 1));
                        assert(enc_hops(giv.arcs[v as int].skip(hdone as int)) == b + hs2);
                        assert(bytes@.subrange(hpos as int, bytes@.len() as int)
                            == (b + hs2) + rest);
                        assert(bytes@.subrange(hpos as int, hpos + 41)
                            =~= bytes@.subrange(hpos as int, bytes@.len() as int).take(41));
                        assert(((b + hs2) + rest).take(41) =~= b);
                        assert(bytes@.subrange(hpos as int, hpos + 41) == enc_hop(hexp));
                        assert((hexp.to as int) < giv.nodes.len());
                    }
                }
                let (h, q2) = match get_hop(bytes, hpos, n, Ghost(hexp)) {
                    Some(vv) => vv,
                    None => return None,
                };
                let ghost row0 = row@;
                row.push(h);
                proof {
                    assert(row@.drop_last() =~= row0);
                    assert(bytes@.subrange(q1 as int, q2 as int)
                        =~= bytes@.subrange(q1 as int, hpos as int)
                            + bytes@.subrange(hpos as int, q2 as int));
                    if good {
                        assert(h == hexp);
                        lemma_enc_hop_len(hexp);
                        let b = enc_hop(hexp);
                        let hs2 = enc_hops(giv.arcs[v as int].skip(hdone + 1));
                        let rest = enc_rows(giv.arcs.skip(v + 1));
                        assert(bytes@.subrange(hpos as int, bytes@.len() as int)
                            == (b + hs2) + rest);
                        assert(bytes@.subrange(q2 as int, bytes@.len() as int)
                            =~= bytes@.subrange(hpos as int, bytes@.len() as int).skip(41));
                        assert(((b + hs2) + rest).skip(41) =~= hs2 + rest);
                        assert(bytes@.subrange(q2 as int, bytes@.len() as int)
                            == enc_hops(giv.arcs[v as int].skip(hdone + 1))
                                + enc_rows(giv.arcs.skip(v + 1)));
                    }
                }
                hpos = q2;
                hdone = hdone + 1;
            }
            proof {
                assert(bytes@.subrange(pos as int, hpos as int)
                    =~= bytes@.subrange(pos as int, q1 as int)
                        + bytes@.subrange(q1 as int, hpos as int));
                assert(bytes@.subrange(pos as int, hpos as int) == enc_row(row@));
                assert(bytes@.subrange(rbase as int, hpos as int)
                    =~= bytes@.subrange(rbase as int, pos as int)
                        + bytes@.subrange(pos as int, hpos as int));
                assert(rviews.push(row@).drop_last() =~= rviews);
                if good {
                    assert(giv.arcs[v as int].skip(rc as int) =~= Seq::<Hop>::empty());
                    assert(enc_hops(Seq::<Hop>::empty()) =~= Seq::<u8>::empty());
                    assert((enc_hops(giv.arcs[v as int].skip(rc as int))
                            + enc_rows(giv.arcs.skip(v + 1)))
                        =~= enc_rows(giv.arcs.skip(v + 1)));
                    assert(bytes@.subrange(hpos as int, bytes@.len() as int)
                        == enc_rows(giv.arcs.skip(v + 1)));
                }
            }
            let ghost row_view = row@;
            arcs.push(row);
            proof {
                rviews = rviews.push(row_view);
            }
            pos = hpos;
            v = v + 1;
        }
        if pos != bytes.len() {
            proof {
                if good {
                    assert(giv.arcs.skip(n as int) =~= Seq::<Seq<Hop>>::empty());
                    assert(enc_rows(Seq::<Seq<Hop>>::empty()) =~= Seq::<u8>::empty());
                }
            }
            return None;
        }
        let ix = RoutingIndex { nodes, arcs };
        proof {
            assert(ix@.arcs =~= rviews);
            assert(bytes@.subrange(0, p1 as int)
                =~= bytes@.subrange(0, p0 as int) + bytes@.subrange(p0 as int, p1 as int));
            assert(bytes@.subrange(0, rbase as int)
                =~= bytes@.subrange(0, p1 as int) + bytes@.subrange(p1 as int, rbase as int));
            assert(bytes@.subrange(0, pos as int)
                =~= bytes@.subrange(0, rbase as int)
                    + bytes@.subrange(rbase as int, pos as int));
            assert(bytes@.subrange(0, bytes@.len() as int) =~= bytes@);
            assert(bytes@ == enc_index(ix@));
        }
        Some(ix)
    }

    /// Amortize the expensive preprocessing step: reuse a cached index
    /// when the bytes decode, otherwise build one from the network's
    /// current costs and hand back the fresh cache image for the
    /// caller to persist.  No content hash ties the cached index to
    /// the network it was built from: if the network changed without
    /// the cache being deleted, the stale index is silently served --
    /// a documented limitation of this design.
    pub fn load_or_build(cache: Option<&Vec<u8>>, net: &Network)
        -> (r: (RoutingIndex, Option<Vec<u8>>))
        requires
            net.wf(),
            net.intersections.entry_seq().len() <= 0x8000_0000,
        ensures
            index_wf(r.0@),
            match cache {
                Some(b) => valid_index_image(b@) ==> r.1 is None,
                None => true,
            },
            match r.1 {
                None => match cache {
                    Some(b) => b@ == enc_index(r.0@),
                    None => false,
                },
                Some(bytes) => bytes@ == enc_index(r.0@)
                    && r.0@.nodes.len() == net.intersections.entry_seq().len()
                    && (forall|i: int|
                        0 <= i < r.0@.nodes.len()
                            ==> r.0@.nodes[i]
                                == (#[trigger] net.intersections.entry_seq()[i]).0)
                    && (forall|i: int, j: int|
                        0 <= i < r.0@.arcs.len() && 0 <= j < r.0@.arcs[i].len()
                            ==> hop_sound(net.edges@, r.0@.nodes, i,
                                #[trigger] r.0@.arcs[i][j])),
            },
    {
        match cache {
            Some(b) => match Self::from_cache_bytes(b) {
                Some(ix) => {
                    return (ix, None);
                },
                None => {},
            },
            None => {},
        }
        let ix = Self::build(net);
        let bytes = ix.to_cache_bytes();
        (ix, Some(bytes))
    }
}

} // verus!


