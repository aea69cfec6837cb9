use vstd::prelude::*;

verus! {

/// Keys that can be compared exactly in executable code; equality of
/// the comparison agrees with mathematical equality of the values.
pub trait MapKey: Sized + Copy {
    fn key_eq(&self, other: &Self) -> (r: bool)
        ensures
            r <==> *self == *other,
    ;
}

/// The mapping described by a sequence of key-value pairs, later pairs
/// overriding earlier ones.
pub open spec fn pairs_to_map<K, V>(s: Seq<(K, V)>) -> Map<K, V>
    decreases s.len(),
{
    if s.len() == 0 {
        Map::empty()
    } else {
        pairs_to_map(s.drop_last()).insert(s.last().0, s.last().1)
    }
}

/// No two pairs of the sequence share a key.
pub open spec fn unique_keys<K, V>(s: Seq<(K, V)>) -> bool {
    forall|i: int, j: int|
        0 <= i < j < s.len() ==> (#[trigger] s[i]).0 != (#[trigger] s[j]).0
}

/// Saturating addition: sums are clamped at the 64-bit ceiling instead
/// of wrapping, which keeps the operation total, associative and
/// commutative.
pub open spec fn spec_sat_add(a: int, b: int) -> int {
    if a + b > 0xffff_ffff_ffff_ffffu64 {
        0xffff_ffff_ffff_ffffu64 as int
    } else {
        a + b
    }
}

pub fn sat_add_u64(a: u64, b: u64) -> (r: u64)
    ensures
        r == spec_sat_add(a as int, b as int),
{
    if u64::MAX - a < b {
        u64::MAX
    } else {
        a + b
    }
}

/// The value of a counter map at a key, with absent keys reading zero.
pub open spec fn or_zero<K>(m: Map<K, u64>, k: K) -> int {
    if m.contains_key(k) {
        m[k] as int
    } else {
        0
    }
}

/// One counter bumped by a saturating amount.
pub open spec fn bump<K>(m: Map<K, u64>, k: K, v: u64) -> Map<K, u64> {
    m.insert(k, spec_sat_add(or_zero(m, k), v as int) as u64)
}

/// The pointwise saturating sum of two counter maps, defined on the
/// union of their domains with absent keys read as zero.
pub open spec fn combined<K>(m1: Map<K, u64>, m2: Map<K, u64>) -> Map<K, u64> {
    Map::new(
        |k: K| m1.contains_key(k) || m2.contains_key(k),
        |k: K| spec_sat_add(or_zero(m1, k), or_zero(m2, k)) as u64,
    )
}

proof fn lemma_ptm_not_contains<K, V>(s: Seq<(K, V)>, k: K)
    requires
        forall|i: int| 0 <= i < s.len() ==> (#[trigger] s[i]).0 != k,
    ensures
        !pairs_to_map(s).contains_key(k),
    decreases s.len(),
{
    if s.len() > 0 {
        assert(forall|i: int|
            0 <= i < s.drop_last().len() ==> (#[trigger] s.drop_last()[i]).0 != k);
        lemma_ptm_not_contains(s.drop_last(), k);
    }
}

proof fn lemma_ptm_index<K, V>(s: Seq<(K, V)>, i: int)
    requires
        unique_keys(s),
        0 <= i < s.len(),
    ensures
        pairs_to_map(s).contains_key(s[i].0),
        pairs_to_map(s)[s[i].0] == s[i].1,
    decreases s.len(),
{
    if i < s.len() - 1 {
        assert(unique_keys(s.drop_last()));
        lemma_ptm_index(s.drop_last(), i);
        assert(s.last().0 != s[i].0);
    }
}

proof fn lemma_ptm_contains<K, V>(s: Seq<(K, V)>, k: K)
    requires
        pairs_to_map(s).contains_key(k),
    ensures
        exists|i: int| 0 <= i < s.len() && (#[trigger] s[i]).0 == k,
    decreases s.len(),
{
    if s.len() > 0 {
        if s.last().0 == k {
            assert(s[s.len() - 1].0 == k);
        } else {
            lemma_ptm_contains(s.drop_last(), k);
            let i = choose|i: int|
                0 <= i < s.drop_last().len() && (#[trigger] s.drop_last()[i]).0 == k;
            assert(s[i].0 == k);
        }
    }
}

proof fn lemma_ptm_update<K, V>(s: Seq<(K, V)>, i: int, p: (K, V))
    requires
        unique_keys(s),
        0 <= i < s.len(),
        p.0 == s[i].0,
    ensures
        pairs_to_map(s.update(i, p)) == pairs_to_map(s).insert(p.0, p.1),
        unique_keys(s.update(i, p)),
    decreases s.len(),
{
    let t = s.update(i, p);
    assert(unique_keys(t));
    if i == s.len() - 1 {
        assert(t.drop_last() =~= s.drop_last());
        assert(t.last() == p);
        assert(pairs_to_map(s.drop_last()).insert(p.0, p.1)
            =~= pairs_to_map(s.drop_last()).insert(s.last().0, s.last().1).insert(p.0, p.1));
    } else {
        assert(unique_keys(s.drop_last()));
        lemma_ptm_update(s.drop_last(), i, p);
        assert(t.drop_last() =~= s.drop_last().update(i, p));
        assert(t.last() == s.last());
        assert(s.last().0 != p.0);
        assert(pairs_to_map(s.drop_last()).insert(p.0, p.1).insert(s.last().0, s.last().1)
            =~= pairs_to_map(s.drop_last()).insert(s.last().0, s.last().1).insert(p.0, p.1));
    }
}

/// A small association map stored as a vector of key-value pairs with
/// pairwise-distinct keys.  Its mathematical content is the `Map` view;
/// the entry sequence is also exposed so that serialization can speak
/// about a concrete order.
pub struct KeyedVec<K, V> {
    pairs: Vec<(K, V)>,
}

impl<K, V> View for KeyedVec<K, V> {
    type V = Map<K, V>;

    closed spec fn view(&self) -> Map<K, V> {
        pairs_to_map(self.pairs@)
    }
}

impl<K, V> KeyedVec<K, V> {
    pub closed spec fn entry_seq(self) -> Seq<(K, V)> {
        self.pairs@
    }

    pub closed spec fn wf(self) -> bool {
        unique_keys(self.pairs@)
    }

    /// The view is exactly the mapping of the entry sequence, and under
    /// well-formedness the entries enumerate the view without repetition.
    pub proof fn lemma_entries(self)
        requires
            self.wf(),
        ensures
            self@ == pairs_to_map(self.entry_seq()),
            unique_keys(self.entry_seq()),
            forall|i: int|
                0 <= i < self.entry_seq().len()
                    ==> self@.contains_key((#[trigger] self.entry_seq()[i]).0)
                        && self@[self.entry_seq()[i].0] == self.entry_seq()[i].1,
            forall|k: K|
                self@.contains_key(k)
                    ==> exists|i: int|
                        0 <= i < self.entry_seq().len() && (#[trigger] self.entry_seq()[i]).0 == k,
    {
        assert forall|i: int| 0 <= i < self.entry_seq().len()
            implies self@.contains_key((#[trigger] self.entry_seq()[i]).0)
                && self@[self.entry_seq()[i].0] == self.entry_seq()[i].1 by {
            lemma_ptm_index(self.pairs@, i);
        }
        assert forall|k: K| self@.contains_key(k)
            implies exists|i: int|
                0 <= i < self.entry_seq().len() && (#[trigger] self.entry_seq()[i]).0 == k by {
            lemma_ptm_contains(self.pairs@, k);
            let i = choose|i: int|
                0 <= i < self.pairs@.len() && (#[trigger] self.pairs@[i]).0 == k;
            assert(0 <= i < self.entry_seq().len() && self.entry_seq()[i].0 == k);
        }
    }
}

impl<K: MapKey, V> KeyedVec<K, V> {
    pub fn new() -> (r: Self)
        ensures
            r@ == Map::<K, V>::empty(),
            r.wf(),
            r.entry_seq() == Seq::<(K, V)>::empty(),
    {
        let r = KeyedVec { pairs: Vec::new() };
        proof {
            assert(r.pairs@ =~= Seq::<(K, V)>::empty());
        }
        r
    }

    fn find(&self, k: &K) -> (r: Option<usize>)
        ensures
            match r {
                Some(i) => i < self.pairs@.len() && self.pairs@[i as int].0 == *k,
                None => forall|i: int|
                    0 <= i < self.pairs@.len() ==> (#[trigger] self.pairs@[i]).0 != *k,
            },
    {
        let n = self.pairs.len();
        for i in 0..n
            invariant
                n == self.pairs@.len(),
                forall|j: int| 0 <= j < i ==> (#[trigger] self.pairs@[j]).0 != *k,
        {
            if self.pairs[i].0.key_eq(k) {
                return Some(i);
            }
        }
        None
    }

    pub fn get(&self, k: &K) -> (r: Option<&V>)
        requires
            self.wf(),
        ensures
            match r {
                Some(v) => self@.contains_key(*k) && *v == self@[*k],
                None => !self@.contains_key(*k),
            },
    {
        match self.find(k) {
            Some(i) => {
                proof {
                    lemma_ptm_index(self.pairs@, i as int);
                }
                Some(&self.pairs[i].1)
            },
            None => {
                proof {
                    lemma_ptm_not_contains(self.pairs@, *k);
                }
                None
            },
        }
    }

    /// Insert or replace: a later binding for an existing key silently
    /// replaces the earlier one.
    pub fn set(&mut self, k: K, v: V)
        requires
            old(self).wf(),
        ensures
            final(self)@ == old(self)@.insert(k, v),
            final(self).wf(),
    {
        let ghost s0 = self.pairs@;
        match self.find(&k) {
            Some(i) => {
                self.pairs[i] = (k, v);
                proof {
                    lemma_ptm_update(s0, i as int, (k, v));
                }
            },
            None => {
                self.pairs.push((k, v));
                proof {
                    assert(self.pairs@.drop_last() =~= s0);
                    assert(unique_keys(self.pairs@));
                }
            },
        }
    }

    /// Append a binding for a key known to be absent; the entry order
    /// is pinned, which the cache codec relies on.
    pub fn push_absent(&mut self, k: K, v: V)
        requires
            old(self).wf(),
            !old(self)@.contains_key(k),
        ensures
            final(self)@ == old(self)@.insert(k, v),
            final(self).wf(),
            final(self).entry_seq() == old(self).entry_seq().push((k, v)),
    {
        let ghost s0 = self.pairs@;
        self.pairs.push((k, v));
        proof {
            assert(self.pairs@.drop_last() =~= s0);
            assert forall|i: int, j: int| 0 <= i < j < self.pairs@.len()
                implies (#[trigger] self.pairs@[i]).0 != (#[trigger] self.pairs@[j]).0 by {
                if j == self.pairs@.len() - 1 {
                    lemma_ptm_index(s0, i);
                }
            }
        }
    }

    pub fn entries(&self) -> (r: &Vec<(K, V)>)
        ensures
            r@ == self.entry_seq(),
    {
        &self.pairs
    }

    pub fn len(&self) -> (r: usize)
        ensures
            r == self.entry_seq().len(),
    {
        self.pairs.len()
    }
}

proof fn lemma_combined_step<K>(m0: Map<K, u64>, part: Map<K, u64>, k: K, v: u64)
    requires
        !part.contains_key(k),
    ensures
        combined(m0, part.insert(k, v))
            == bump(combined(m0, part), k, v),
{
    assert(combined(m0, part.insert(k, v)) =~= bump(combined(m0, part), k, v));
}

impl<K: MapKey> KeyedVec<K, u64> {
    /// Add a weighted contribution to one counter, saturating at the
    /// 64-bit ceiling.
    pub fn add_weight(&mut self, k: K, v: u64)
        requires
            old(self).wf(),
        ensures
            final(self).wf(),
            final(self)@ == bump(old(self)@, k, v),
    {
        let cur: u64 = match self.get(&k) {
            Some(c) => *c,
            None => 0,
        };
        let nv = sat_add_u64(cur, v);
        self.set(k, nv);
    }

    /// Pointwise saturating merge of another counter map into this one.
    pub fn add_all(&mut self, other: &KeyedVec<K, u64>)
        requires
            old(self).wf(),
            other.wf(),
        ensures
            final(self).wf(),
            final(self)@ == combined(old(self)@, other@),
    {
        proof {
            other.lemma_entries();
        }
        let ghost m0 = self@;
        let ghost oseq = other.entry_seq();
        let src = other.entries();
        let n = src.len();
        for i in 0..n
            invariant
                n == oseq.len(),
                src@ == oseq,
                unique_keys(oseq),
                self.wf(),
                self@ == combined(m0, pairs_to_map(oseq.take(i as int))),
        {
            let (k, v) = src[i];
            proof {
                assert(oseq.take(i + 1).drop_last() =~= oseq.take(i as int));
                assert(oseq.take(i + 1).last() == (k, v));
                lemma_ptm_not_contains::<K, u64>(oseq.take(i as int), k);
                lemma_combined_step(m0, pairs_to_map(oseq.take(i as int)), k, v);
            }
            self.add_weight(k, v);
        }
        proof {
            assert(oseq.take(n as int) =~= oseq);
            other.lemma_entries();
            assert(combined(m0, pairs_to_map(oseq)) =~= combined(m0, other@));
        }
    }
}

/// Saturating addition is associative.
pub proof fn lemma_sat_add_assoc(a: int, b: int, c: int)
    requires
        0 <= a,
        0 <= b,
        0 <= c,
    ensures
        spec_sat_add(spec_sat_add(a, b), c) == spec_sat_add(a, spec_sat_add(b, c)),
{
}

/// Merging counter maps is commutative.
pub proof fn lemma_combined_commutative<K>(m1: Map<K, u64>, m2: Map<K, u64>)
    ensures
        combined(m1, m2) == combined(m2, m1),
{
    assert(combined(m1, m2) =~= combined(m2, m1));
}

/// Merging counter maps is associative.
pub proof fn lemma_combined_associative<K>(m1: Map<K, u64>, m2: Map<K, u64>, m3: Map<K, u64>)
    ensures
        combined(combined(m1, m2), m3) == combined(m1, combined(m2, m3)),
{
    assert forall|k: K|
        combined(combined(m1, m2), m3).contains_key(k)
            implies #[trigger] combined(combined(m1, m2), m3)[k]
                == combined(m1, combined(m2, m3))[k] by {
        lemma_sat_add_assoc(or_zero(m1, k), or_zero(m2, k), or_zero(m3, k));
    }
    assert(combined(combined(m1, m2), m3) =~= combined(m1, combined(m2, m3)));
}

/// The empty counter map is a unit for merging.
pub proof fn lemma_combined_unit<K>(m: Map<K, u64>)
    ensures
        combined(m, Map::<K, u64>::empty()) == m,
        combined(Map::<K, u64>::empty(), m) == m,
{
    assert(combined(m, Map::<K, u64>::empty()) =~= m);
    assert(combined(Map::<K, u64>::empty(), m) =~= m);
}

} // verus!
