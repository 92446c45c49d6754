//! Small association maps with mathematical `Map` views.
//!
//! The geometry structure keys its metrics by `Edge` and its adjacency by
//! vertex index. Both are kept as vectors of key/value pairs with pairwise
//! distinct keys, so that every lookup and update is stated exactly against a
//! `Map` view and iteration over the entries is deterministic.

use vstd::prelude::*;
use crate::primitives::Edge;

verus! {

/// The map described by a sequence of key/value pairs; a later pair wins,
/// though the well-formed containers below never hold a key twice.
pub open spec fn assoc_map<K, V>(s: Seq<(K, V)>) -> Map<K, V>
    decreases s.len(),
{
    if s.len() == 0 {
        Map::empty()
    } else {
        assoc_map(s.drop_last()).insert(s.last().0, s.last().1)
    }
}

/// No key occurs twice in the pair sequence.
pub open spec fn keys_unique<K, V>(s: Seq<(K, V)>) -> bool {
    forall|i: int, j: int| 0 <= i < j < s.len() ==> (#[trigger] s[i]).0 != (#[trigger] s[j]).0
}

/// A key is in the map exactly when some pair carries it.
pub proof fn lemma_assoc_map_contains<K, V>(s: Seq<(K, V)>, k: K)
    ensures
        assoc_map(s).contains_key(k) <==> exists|i: int|
            0 <= i < s.len() && (#[trigger] s[i]).0 == k,
    decreases s.len(),
{
    if s.len() > 0 {
        let t = s.drop_last();
        lemma_assoc_map_contains(t, k);
        assert(forall|i: int| 0 <= i < t.len() ==> t[i] == s[i]);
        if assoc_map(s).contains_key(k) && k != s.last().0 {
            let i = choose|i: int| 0 <= i < t.len() && (#[trigger] t[i]).0 == k;
            assert(s[i].0 == k);
        }
        if exists|i: int| 0 <= i < s.len() && (#[trigger] s[i]).0 == k {
            let i = choose|i: int| 0 <= i < s.len() && (#[trigger] s[i]).0 == k;
            if i < s.len() - 1 {
                assert(t[i].0 == k);
            } else {
                assert(s.last().0 == k);
            }
        }
    }
}

/// With distinct keys, the pair at position `i` gives the map's value there.
pub proof fn lemma_assoc_map_at<K, V>(s: Seq<(K, V)>, i: int)
    requires
        keys_unique(s),
        0 <= i < s.len(),
    ensures
        assoc_map(s).contains_key(s[i].0),
        assoc_map(s)[s[i].0] == s[i].1,
    decreases s.len(),
{
    let t = s.drop_last();
    if i < s.len() - 1 {
        assert(keys_unique(t));
        lemma_assoc_map_at(t, i);
        assert(s.last().0 != s[i].0);
        assert(t[i] == s[i]);
    }
}

/// Appending a pair inserts its key.
pub proof fn lemma_assoc_map_push<K, V>(s: Seq<(K, V)>, k: K, v: V)
    ensures
        assoc_map(s.push((k, v))) == assoc_map(s).insert(k, v),
{
    assert(s.push((k, v)).drop_last() =~= s);
    assert(s.push((k, v)).last() == (k, v));
}

/// Replacing the pair at position `i` (keeping its key) updates the map at
/// that key and keeps the keys distinct.
pub proof fn lemma_assoc_map_update<K, V>(s: Seq<(K, V)>, i: int, v: V)
    requires
        keys_unique(s),
        0 <= i < s.len(),
    ensures
        assoc_map(s.update(i, (s[i].0, v))) == assoc_map(s).insert(s[i].0, v),
        keys_unique(s.update(i, (s[i].0, v))),
    decreases s.len(),
{
    let k = s[i].0;
    let s2 = s.update(i, (k, v));
    assert(keys_unique(s2));
    if i == s.len() - 1 {
        assert(s2.drop_last() =~= s.drop_last());
        assert(s2.last() == (k, v));
        assert(assoc_map(s.drop_last()).insert(k, s[i].1).insert(k, v) =~= assoc_map(
            s.drop_last(),
        ).insert(k, v));
    } else {
        let t = s.drop_last();
        assert(keys_unique(t));
        assert(t[i] == s[i]);
        lemma_assoc_map_update(t, i, v);
        assert(s2.drop_last() =~= t.update(i, (k, v)));
        assert(s2.last() == s.last());
        assert(s.last().0 != k);
        assert(assoc_map(t).insert(k, v).insert(s.last().0, s.last().1) =~= assoc_map(t).insert(
            s.last().0,
            s.last().1,
        ).insert(k, v));
    }
}

/// The sequence stored in `m` under `k`, or the empty sequence.
pub open spec fn seq_at<K, V>(m: Map<K, Seq<V>>, k: K) -> Seq<V> {
    if m.contains_key(k) {
        m[k]
    } else {
        Seq::empty()
    }
}

/// The set stored in `m` under `k`, or the empty set.
pub open spec fn set_at<K, V>(m: Map<K, Set<V>>, k: K) -> Set<V> {
    if m.contains_key(k) {
        m[k]
    } else {
        Set::empty()
    }
}

/// Edge lengths: a map from canonical edge to its length code.
#[derive(Debug, Clone, PartialEq)]
pub struct EdgeLengths {
    pub pairs: Vec<(Edge, u64)>,
}

impl EdgeLengths {
    pub open spec fn wf(&self) -> bool {
        keys_unique(self.pairs@)
    }

    pub open spec fn view(&self) -> Map<Edge, u64> {
        assoc_map(self.pairs@)
    }

    pub fn new() -> (r: EdgeLengths)
        ensures
            r.wf(),
            r@ == Map::<Edge, u64>::empty(),
    {
        EdgeLengths { pairs: Vec::new() }
    }

    fn find(&self, e: Edge) -> (r: Option<usize>)
        ensures
            match r {
                Some(i) => i < self.pairs@.len() && self.pairs@[i as int].0 == e,
                None => forall|j: int| 0 <= j < self.pairs@.len() ==> (#[trigger] self.pairs@[j]).0 != e,
            },
    {
        let n = self.pairs.len();
        let mut i: usize = 0;
        while i < n
            invariant
                i <= n,
                n == self.pairs@.len(),
                forall|j: int| 0 <= j < i ==> (#[trigger] self.pairs@[j]).0 != e,
            decreases n - i,
        {
            if self.pairs[i].0 == e {
                return Some(i);
            }
            i += 1;
        }
        None
    }

    /// Looks the edge up; `None` exactly when the edge has no recorded length.
    pub fn get(&self, e: Edge) -> (r: Option<u64>)
        requires
            self.wf(),
        ensures
            match r {
                Some(v) => self@.contains_key(e) && self@[e] == v,
                None => !self@.contains_key(e),
            },
    {
        proof {
            lemma_assoc_map_contains(self.pairs@, e);
        }
        match self.find(e) {
            Some(i) => {
                proof {
                    lemma_assoc_map_at(self.pairs@, i as int);
                }
                Some(self.pairs[i].1)
            },
            None => None,
        }
    }

    /// Records the length of an edge, replacing any earlier record.
    pub fn insert(&mut self, e: Edge, v: u64)
        requires
            old(self).wf(),
        ensures
            final(self).wf(),
            final(self)@ == old(self)@.insert(e, v),
    {
        proof {
            lemma_assoc_map_contains(self.pairs@, e);
        }
        match self.find(e) {
            Some(i) => {
                proof {
                    lemma_assoc_map_update(self.pairs@, i as int, v);
                }
                let ghost s = self.pairs@;
                self.pairs.remove(i);
                self.pairs.insert(i, (e, v));
                proof {
                    assert(self.pairs@ =~= s.update(i as int, (s[i as int].0, v)));
                }
            },
            None => {
                proof {
                    lemma_assoc_map_push(self.pairs@, e, v);
                }
                self.pairs.push((e, v));
            },
        }
    }
}

/// Edge incidence: a map from canonical edge to the triangle indices that
/// contain it, in the order the triangles were folded in.
#[derive(Debug, Clone, PartialEq)]
pub struct EdgeTriangles {
    pub pairs: Vec<(Edge, Vec<usize>)>,
}

/// The entries of the incidence container, with the inner vectors abstracted
/// to sequences.
pub open spec fn et_entries(s: Seq<(Edge, Vec<usize>)>) -> Seq<(Edge, Seq<usize>)> {
    s.map_values(|p: (Edge, Vec<usize>)| (p.0, p.1@))
}

impl EdgeTriangles {
    pub open spec fn wf(&self) -> bool {
        keys_unique(et_entries(self.pairs@))
    }

    pub open spec fn view(&self) -> Map<Edge, Seq<usize>> {
        assoc_map(et_entries(self.pairs@))
    }

    pub fn new() -> (r: EdgeTriangles)
        ensures
            r.wf(),
            r@ == Map::<Edge, Seq<usize>>::empty(),
    {
        EdgeTriangles { pairs: Vec::new() }
    }

    fn find(&self, e: Edge) -> (r: Option<usize>)
        ensures
            match r {
                Some(i) => i < self.pairs@.len() && self.pairs@[i as int].0 == e,
                None => forall|j: int| 0 <= j < self.pairs@.len() ==> (#[trigger] self.pairs@[j]).0 != e,
            },
    {
        let n = self.pairs.len();
        let mut i: usize = 0;
        while i < n
            invariant
                i <= n,
                n == self.pairs@.len(),
                forall|j: int| 0 <= j < i ==> (#[trigger] self.pairs@[j]).0 != e,
            decreases n - i,
        {
            if self.pairs[i].0 == e {
                return Some(i);
            }
            i += 1;
        }
        None
    }

    /// Looks the edge up; `None` exactly when no triangle contains the edge.
    pub fn get(&self, e: Edge) -> (r: Option<&Vec<usize>>)
        requires
            self.wf(),
        ensures
            match r {
                Some(v) => self@.contains_key(e) && self@[e] == v@,
                None => !self@.contains_key(e),
            },
    {
        proof {
            assert(forall|j: int|
                0 <= j < self.pairs@.len() ==> (#[trigger] et_entries(self.pairs@)[j]).0
                    == self.pairs@[j].0);
            lemma_assoc_map_contains(et_entries(self.pairs@), e);
        }
        match self.find(e) {
            Some(i) => {
                proof {
                    lemma_assoc_map_at(et_entries(self.pairs@), i as int);
                }
                Some(&self.pairs[i].1)
            },
            None => None,
        }
    }

    /// Appends a triangle index to the edge's incidence list, creating the
    /// list when the edge is new.
    pub fn push_for(&mut self, e: Edge, tri: usize)
        requires
            old(self).wf(),
        ensures
            final(self).wf(),
            final(self)@ == old(self)@.insert(e, seq_at(old(self)@, e).push(tri)),
    {
        proof {
            assert(forall|j: int|
                0 <= j < self.pairs@.len() ==> (#[trigger] et_entries(self.pairs@)[j]).0
                    == self.pairs@[j].0);
            lemma_assoc_map_contains(et_entries(self.pairs@), e);
        }
        match self.find(e) {
            Some(i) => {
                proof {
                    lemma_assoc_map_at(et_entries(self.pairs@), i as int);
                }
                let ghost s = self.pairs@;
                let mut row = self.pairs.remove(i);
                row.1.push(tri);
                let ghost rowv = row.1@;
                self.pairs.insert(i, row);
                proof {
                    assert(self.pairs@ =~= s.update(i as int, (e, self.pairs@[i as int].1)));
                    assert(et_entries(self.pairs@) =~= et_entries(s).update(
                        i as int,
                        (e, rowv),
                    ));
                    assert(rowv == seq_at(assoc_map(et_entries(s)), e).push(tri));
                    lemma_assoc_map_update(et_entries(s), i as int, rowv);
                }
            },
            None => {
                let ghost s = self.pairs@;
                let mut row: Vec<usize> = Vec::new();
                row.push(tri);
                self.pairs.push((e, row));
                proof {
                    assert(et_entries(self.pairs@) =~= et_entries(s).push((e, seq![tri])));
                    lemma_assoc_map_push(et_entries(s), e, seq![tri]);
                    assert(seq_at(assoc_map(et_entries(s)), e) =~= Seq::<usize>::empty());
                    assert(seq_at(assoc_map(et_entries(s)), e).push(tri) =~= seq![tri]);
                    assert(forall|j: int|
                        0 <= j < s.len() ==> (#[trigger] et_entries(s)[j]) == et_entries(
                            self.pairs@,
                        )[j]);
                }
            },
        }
    }
}

/// Vertex adjacency: a map from vertex index to the set of adjacent vertex
/// indices, each set kept as a duplicate-free vector.
#[derive(Debug, Clone, PartialEq)]
pub struct VertexConnections {
    pub rows: Vec<(usize, Vec<usize>)>,
}

/// The entries of the adjacency container, with the inner vectors abstracted
/// to sets.
pub open spec fn vc_entries(s: Seq<(usize, Vec<usize>)>) -> Seq<(usize, Set<usize>)> {
    s.map_values(|p: (usize, Vec<usize>)| (p.0, p.1@.to_set()))
}

/// Adding `b` to the neighbour set of `a`.
pub open spec fn vc_add(m: Map<usize, Set<usize>>, a: usize, b: usize) -> Map<usize, Set<usize>> {
    m.insert(a, set_at(m, a).insert(b))
}

impl VertexConnections {
    pub open spec fn wf(&self) -> bool {
        &&& keys_unique(vc_entries(self.rows@))
        &&& forall|i: int|
            0 <= i < self.rows@.len() ==> (#[trigger] self.rows@[i]).1@.no_duplicates()
    }

    pub open spec fn view(&self) -> Map<usize, Set<usize>> {
        assoc_map(vc_entries(self.rows@))
    }

    pub fn new() -> (r: VertexConnections)
        ensures
            r.wf(),
            r@ == Map::<usize, Set<usize>>::empty(),
    {
        VertexConnections { rows: Vec::new() }
    }

    fn find(&self, a: usize) -> (r: Option<usize>)
        ensures
            match r {
                Some(i) => i < self.rows@.len() && self.rows@[i as int].0 == a,
                None => forall|j: int| 0 <= j < self.rows@.len() ==> (#[trigger] self.rows@[j]).0 != a,
            },
    {
        let n = self.rows.len();
        let mut i: usize = 0;
        while i < n
            invariant
                i <= n,
                n == self.rows@.len(),
                forall|j: int| 0 <= j < i ==> (#[trigger] self.rows@[j]).0 != a,
            decreases n - i,
        {
            if self.rows[i].0 == a {
                return Some(i);
            }
            i += 1;
        }
        None
    }

    /// Looks a vertex up; `None` exactly when the vertex has no neighbours.
    pub fn get(&self, a: usize) -> (r: Option<&Vec<usize>>)
        requires
            self.wf(),
        ensures
            match r {
                Some(v) => self@.contains_key(a) && self@[a] == v@.to_set()
                    && v@.no_duplicates(),
                None => !self@.contains_key(a),
            },
    {
        proof {
            assert(forall|j: int|
                0 <= j < self.rows@.len() ==> (#[trigger] vc_entries(self.rows@)[j]).0
                    == self.rows@[j].0);
            lemma_assoc_map_contains(vc_entries(self.rows@), a);
        }
        match self.find(a) {
            Some(i) => {
                proof {
                    lemma_assoc_map_at(vc_entries(self.rows@), i as int);
                }
                Some(&self.rows[i].1)
            },
            None => None,
        }
    }

    /// Records `b` as a neighbour of `a` (one direction only).
    pub fn connect(&mut self, a: usize, b: usize)
        requires
            old(self).wf(),
        ensures
            final(self).wf(),
            final(self)@ == vc_add(old(self)@, a, b),
    {
        proof {
            assert(forall|j: int|
                0 <= j < self.rows@.len() ==> (#[trigger] vc_entries(self.rows@)[j]).0
                    == self.rows@[j].0);
            lemma_assoc_map_contains(vc_entries(self.rows@), a);
        }
        match self.find(a) {
            Some(i) => {
                proof {
                    lemma_assoc_map_at(vc_entries(self.rows@), i as int);
                }
                let ghost s = self.rows@;
                let mut row = self.rows.remove(i);
                let present = contains_vertex(&row.1, b);
                if present {
                    self.rows.insert(i, row);
                    proof {
                        assert(self.rows@ =~= s);
                        assert(set_at(assoc_map(vc_entries(s)), a).insert(b) =~= assoc_map(
                            vc_entries(s),
                        )[a]);
                        assert(vc_add(assoc_map(vc_entries(s)), a, b) =~= assoc_map(
                            vc_entries(s),
                        ));
                    }
                } else {
                    row.1.push(b);
                    let ghost rowv = row.1@;
                    self.rows.insert(i, row);
                    proof {
                        assert(self.rows@ =~= s.update(i as int, (a, self.rows@[i as int].1)));
                        assert(vc_entries(self.rows@) =~= vc_entries(s).update(
                            i as int,
                            (a, rowv.to_set()),
                        ));
                        assert(rowv =~= s[i as int].1@.push(b));
                        s[i as int].1@.lemma_push_to_set_commute(b);
                        assert(rowv.to_set() =~= s[i as int].1@.to_set().insert(b));
                        lemma_assoc_map_update(vc_entries(s), i as int, rowv.to_set());
                        assert(rowv.no_duplicates());
                    }
                }
            },
            None => {
                let ghost s = self.rows@;
                let mut row: Vec<usize> = Vec::new();
                row.push(b);
                let ghost rowv = row@;
                self.rows.push((a, row));
                proof {
                    assert(vc_entries(self.rows@) =~= vc_entries(s).push((a, rowv.to_set())));
                    lemma_assoc_map_push(vc_entries(s), a, rowv.to_set());
                    Seq::<usize>::empty().lemma_push_to_set_commute(b);
                    assert(rowv =~= Seq::<usize>::empty().push(b));
                    assert(Seq::<usize>::empty().to_set() =~= Set::<usize>::empty());
                    assert(rowv.to_set() =~= Set::<usize>::empty().insert(b));
                    assert(set_at(assoc_map(vc_entries(s)), a) =~= Set::<usize>::empty());
                    assert(forall|j: int|
                        0 <= j < s.len() ==> (#[trigger] vc_entries(s)[j]) == vc_entries(
                            self.rows@,
                        )[j]);
                }
            },
        }
    }
}

/// Whether the duplicate-free vector holds the vertex.
pub fn contains_vertex(v: &Vec<usize>, x: usize) -> (r: bool)
    ensures
        r <==> v@.to_set().contains(x),
{
    let n = v.len();
    let mut i: usize = 0;
    while i < n
        invariant
            i <= n,
            n == v@.len(),
            forall|j: int| 0 <= j < i ==> v@[j] != x,
        decreases n - i,
    {
        if v[i] == x {
            assert(v@.contains(x));
            return true;
        }
        i += 1;
    }
    assert(!v@.contains(x));
    false
}

/// An association map has finitely many keys: no more than its pair count.
pub proof fn lemma_assoc_map_dom_finite<K, V>(s: Seq<(K, V)>)
    ensures
        assoc_map(s).dom().finite(),
        assoc_map(s).dom().len() <= s.len(),
    decreases s.len(),
{
    broadcast use vstd::set::group_set_axioms;

    if s.len() > 0 {
        lemma_assoc_map_dom_finite(s.drop_last());
        assert(assoc_map(s).dom() == assoc_map(s.drop_last()).dom().insert(s.last().0));
    }
}

} // verus!
