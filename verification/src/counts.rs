use vstd::prelude::*;
use crate::network::EdgeKey;
use crate::position::Position;
use crate::storemap::{
    KeyedVec, combined, spec_sat_add, sat_add_u64, lemma_combined_commutative,
    lemma_combined_associative, lemma_combined_unit, lemma_sat_add_assoc,
};

verus! {

/// The mathematical content of a `Counts` accumulator: three counter
/// maps, the five distance buckets, and the failure counter.
#[verifier::ext_equal]
pub struct CountsView {
    pub count_per_edge: Map<EdgeKey, u64>,
    pub count_per_origin: Map<Position, u64>,
    pub count_per_destination: Map<Position, u64>,
    pub total_distance_by_lts: Seq<u64>,
    pub errors: u64,
}

pub open spec fn empty_counts() -> CountsView {
    CountsView {
        count_per_edge: Map::empty(),
        count_per_origin: Map::empty(),
        count_per_destination: Map::empty(),
        total_distance_by_lts: Seq::new(5, |i: int| 0u64),
        errors: 0,
    }
}

pub open spec fn counts_wf_view(c: CountsView) -> bool {
    c.total_distance_by_lts.len() == 5
}

/// Pointwise saturating sum of two bucket arrays.
pub open spec fn seq_sat_sum(a: Seq<u64>, b: Seq<u64>) -> Seq<u64> {
    Seq::new(a.len(), |i: int| spec_sat_add(a[i] as int, b[i] as int) as u64)
}

/// The combine operation on accumulator contents: pointwise saturating
/// sums of every component, with absent map keys read as zero.
pub open spec fn combine_views(a: CountsView, b: CountsView) -> CountsView {
    CountsView {
        count_per_edge: combined(a.count_per_edge, b.count_per_edge),
        count_per_origin: combined(a.count_per_origin, b.count_per_origin),
        count_per_destination: combined(a.count_per_destination, b.count_per_destination),
        total_distance_by_lts: seq_sat_sum(a.total_distance_by_lts, b.total_distance_by_lts),
        errors: spec_sat_add(a.errors as int, b.errors as int) as u64,
    }
}

/// Accumulated weighted usage of a routed batch.  Values are summed
/// uptake weights in millionths; distances are millimeters bucketed by
/// traffic-stress class; `errors` counts demands that failed to route.
/// All sums saturate at the 64-bit ceiling rather than wrapping, which
/// keeps combining total, associative and commutative.
pub struct Counts {
    pub count_per_edge: KeyedVec<EdgeKey, u64>,
    pub errors: u64,
    pub count_per_origin: KeyedVec<Position, u64>,
    pub count_per_destination: KeyedVec<Position, u64>,
    pub total_distance_by_lts: Vec<u64>,
}

impl View for Counts {
    type V = CountsView;

    open spec fn view(&self) -> CountsView {
        CountsView {
            count_per_edge: self.count_per_edge@,
            count_per_origin: self.count_per_origin@,
            count_per_destination: self.count_per_destination@,
            total_distance_by_lts: self.total_distance_by_lts@,
            errors: self.errors,
        }
    }
}

impl Counts {
    pub open spec fn wf(&self) -> bool {
        self.count_per_edge.wf() && self.count_per_origin.wf()
            && self.count_per_destination.wf() && self.total_distance_by_lts@.len() == 5
    }

    pub fn new() -> (r: Counts)
        ensures
            r.wf(),
            r@ == empty_counts(),
    {
        let mut dist: Vec<u64> = Vec::new();
        dist.push(0);
        dist.push(0);
        dist.push(0);
        dist.push(0);
        dist.push(0);
        let r = Counts {
            count_per_edge: KeyedVec::new(),
            errors: 0,
            count_per_origin: KeyedVec::new(),
            count_per_destination: KeyedVec::new(),
            total_distance_by_lts: dist,
        };
        proof {
            assert(r@.total_distance_by_lts =~= empty_counts().total_distance_by_lts);
            assert(r@ =~= empty_counts());
        }
        r
    }

    /// Adds other to this one, component by component.
    pub fn combine(&mut self, other: Counts)
        requires
            old(self).wf(),
            other.wf(),
        ensures
            final(self).wf(),
            final(self)@ == combine_views(old(self)@, other@),
    {
        let ghost a = self@;
        self.errors = sat_add_u64(self.errors, other.errors);
        self.count_per_edge.add_all(&other.count_per_edge);
        self.count_per_origin.add_all(&other.count_per_origin);
        self.count_per_destination.add_all(&other.count_per_destination);
        let mut dist: Vec<u64> = Vec::new();
        for i in 0..5usize
            invariant
                self.total_distance_by_lts@.len() == 5,
                other.total_distance_by_lts@.len() == 5,
                dist@.len() == i,
                forall|j: int|
                    0 <= j < i ==> dist@[j] == spec_sat_add(
                        self.total_distance_by_lts@[j] as int,
                        other.total_distance_by_lts@[j] as int,
                    ) as u64,
        {
            dist.push(sat_add_u64(self.total_distance_by_lts[i], other.total_distance_by_lts[i]));
        }
        self.total_distance_by_lts = dist;
        proof {
            assert(self@.total_distance_by_lts
                =~= seq_sat_sum(a.total_distance_by_lts, other@.total_distance_by_lts));
            assert(self@ =~= combine_views(a, other@));
        }
    }
}

/// Monoid law, unit: combining with an empty Counts changes nothing,
/// on either side.
pub proof fn lemma_counts_combine_unit(a: CountsView)
    requires
        counts_wf_view(a),
    ensures
        combine_views(a, empty_counts()) == a,
        combine_views(empty_counts(), a) == a,
{
    lemma_combined_unit(a.count_per_edge);
    lemma_combined_unit(a.count_per_origin);
    lemma_combined_unit(a.count_per_destination);
    assert(combine_views(a, empty_counts()).total_distance_by_lts =~= a.total_distance_by_lts);
    assert(combine_views(empty_counts(), a).total_distance_by_lts =~= a.total_distance_by_lts);
    assert(combine_views(a, empty_counts()) =~= a);
    assert(combine_views(empty_counts(), a) =~= a);
}

/// Monoid law, commutativity: partial results may be merged in either
/// order.  Sums here are exact integers, so equality is exact.
pub proof fn lemma_counts_combine_commutative(a: CountsView, b: CountsView)
    requires
        counts_wf_view(a),
        counts_wf_view(b),
    ensures
        combine_views(a, b) == combine_views(b, a),
{
    lemma_combined_commutative(a.count_per_edge, b.count_per_edge);
    lemma_combined_commutative(a.count_per_origin, b.count_per_origin);
    lemma_combined_commutative(a.count_per_destination, b.count_per_destination);
    assert(combine_views(a, b).total_distance_by_lts
        =~= combine_views(b, a).total_distance_by_lts);
    assert(combine_views(a, b) =~= combine_views(b, a));
}

/// Monoid law, associativity: partial results may be merged in any
/// tree shape without changing the final result.
pub proof fn lemma_counts_combine_associative(a: CountsView, b: CountsView, c: CountsView)
    requires
        counts_wf_view(a),
        counts_wf_view(b),
        counts_wf_view(c),
    ensures
        combine_views(combine_views(a, b), c) == combine_views(a, combine_views(b, c)),
{
    lemma_combined_associative(a.count_per_edge, b.count_per_edge, c.count_per_edge);
    lemma_combined_associative(a.count_per_origin, b.count_per_origin, c.count_per_origin);
    lemma_combined_associative(
        a.count_per_destination, b.count_per_destination, c.count_per_destination);
    assert forall|i: int| 0 <= i < 5
        implies combine_views(combine_views(a, b), c).total_distance_by_lts[i]
            == combine_views(a, combine_views(b, c)).total_distance_by_lts[i] by {
        lemma_sat_add_assoc(
            a.total_distance_by_lts[i] as int,
            b.total_distance_by_lts[i] as int,
            c.total_distance_by_lts[i] as int,
        );
    }
    lemma_sat_add_assoc(a.errors as int, b.errors as int, c.errors as int);
    assert(combine_views(combine_views(a, b), c).total_distance_by_lts
        =~= combine_views(a, combine_views(b, c)).total_distance_by_lts);
    assert(combine_views(combine_views(a, b), c) =~= combine_views(a, combine_views(b, c)));
}

} // verus!
