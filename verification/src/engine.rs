//! The engine: point intake, triangulation, geometry building under a mode
//! and an execution strategy, and the density-based cluster traversal.

use vstd::prelude::*;
use crate::adapter::delaunay_triangles;
use crate::adapter::par_triangle_records;
use crate::adapter::triangulate_points;
use crate::geometry::GeometryData;
use crate::geometry::Mode;
use crate::geometry::GeomModel;
use crate::geometry::build_model;
use crate::geometry::empty_model;
use crate::geometry::lemma_build_symmetric;
use crate::geometry::raws;
use crate::geometry::triangle_count;
use crate::geometry::vc_symmetric;
use crate::maps::lemma_assoc_map_at;
use crate::maps::lemma_assoc_map_dom_finite;
use crate::maps::lemma_assoc_map_contains;
use crate::maps::set_at;
use crate::maps::vc_entries;
use crate::maps::contains_vertex;
use crate::primitives::Edge;
use crate::primitives::Point2D;
use crate::primitives::canon_edge;

verus! {

/// Whether the edge between vertices `a` and `b` has a recorded length within
/// the closeness threshold.
pub open spec fn edge_close(g: GeomModel, a: usize, b: usize, max_close: u64) -> bool {
    &&& g.edge_lengths.contains_key(canon_edge(a, b))
    &&& g.edge_lengths[canon_edge(a, b)] <= max_close
}

/// The core-point condition: the vertex has at least `min_pts` neighbours and
/// every edge to a neighbour is within the closeness threshold.
pub open spec fn is_core(g: GeomModel, v: usize, min_pts: usize, max_close: u64) -> bool {
    &&& g.vertex_connections.contains_key(v)
    &&& g.vertex_connections[v].len() >= min_pts
    &&& forall|n: usize| #[trigger]
        g.vertex_connections[v].contains(n) ==> edge_close(g, v, n, max_close)
}

/// Lowering the closeness threshold never creates a core point: a core point
/// at a threshold is a core point at every larger threshold.
pub proof fn lemma_core_monotone(
    g: GeomModel,
    v: usize,
    min_pts: usize,
    mc1: u64,
    mc2: u64,
)
    requires
        mc1 <= mc2,
        is_core(g, v, min_pts, mc1),
    ensures
        is_core(g, v, min_pts, mc2),
{
}

/// A walk along the adjacency graph whose every step is an edge within the
/// closeness threshold.
pub open spec fn is_close_path(g: GeomModel, p: Seq<usize>, max_close: u64) -> bool {
    forall|i: int|
        0 <= i < p.len() - 1 ==> (set_at(g.vertex_connections, #[trigger] p[i]).contains(p[i + 1])
            && edge_close(g, p[i], p[i + 1], max_close))
}

/// Vertex `b` can be reached from `a` over edges within the threshold.
pub open spec fn reaches(g: GeomModel, a: usize, b: usize, max_close: u64) -> bool {
    exists|p: Seq<usize>|
        {
            &&& p.len() >= 1
            &&& p[0] == a
            &&& p.last() == b
            &&& #[trigger] is_close_path(g, p, max_close)
        }
}

/// Every vertex reaches itself.
pub proof fn lemma_reaches_self(g: GeomModel, a: usize, max_close: u64)
    ensures
        reaches(g, a, a, max_close),
{
    let p = seq![a];
    assert(is_close_path(g, p, max_close));
    assert(p.len() >= 1 && p[0] == a && p.last() == a);
}

/// Reachability extends over one more close edge.
pub proof fn lemma_reaches_step(g: GeomModel, a: usize, b: usize, c: usize, max_close: u64)
    requires
        reaches(g, a, b, max_close),
        set_at(g.vertex_connections, b).contains(c),
        edge_close(g, b, c, max_close),
    ensures
        reaches(g, a, c, max_close),
{
    let p = choose|p: Seq<usize>|
        p.len() >= 1 && p[0] == a && p.last() == b && #[trigger] is_close_path(g, p, max_close);
    let p2 = p.push(c);
    assert(p2.last() == c);
    assert(p2[0] == a);
    assert forall|i: int| 0 <= i < p2.len() - 1 implies (set_at(
        g.vertex_connections,
        #[trigger] p2[i],
    ).contains(p2[i + 1]) && edge_close(g, p2[i], p2[i + 1], max_close)) by {
        if i < p.len() - 1 {
            assert(p2[i] == p[i] && p2[i + 1] == p[i + 1]);
        } else {
            assert(p2[i] == p.last() && p2[i + 1] == c);
        }
    }
    assert(is_close_path(g, p2, max_close));
}

/// Raising the closeness threshold keeps every close walk close.
pub proof fn lemma_reaches_monotone(g: GeomModel, a: usize, b: usize, mc1: u64, mc2: u64)
    requires
        mc1 <= mc2,
        reaches(g, a, b, mc1),
    ensures
        reaches(g, a, b, mc2),
{
    let p = choose|p: Seq<usize>|
        p.len() >= 1 && p[0] == a && p.last() == b && #[trigger] is_close_path(g, p, mc1);
    assert(is_close_path(g, p, mc2));
}

/// Over a symmetric adjacency, reachability is symmetric: every close walk
/// can be walked backwards.
pub proof fn lemma_reaches_symmetric(g: GeomModel, a: usize, b: usize, max_close: u64)
    requires
        vc_symmetric(g.vertex_connections),
        reaches(g, a, b, max_close),
    ensures
        reaches(g, b, a, max_close),
{
    let p = choose|p: Seq<usize>|
        p.len() >= 1 && p[0] == a && p.last() == b && #[trigger] is_close_path(g, p, max_close);
    let len = p.len() as int;
    let q = Seq::new(p.len(), |i: int| p[len - 1 - i]);
    assert(q[0] == b);
    assert(q.last() == a);
    assert forall|i: int| 0 <= i < q.len() - 1 implies (set_at(
        g.vertex_connections,
        #[trigger] q[i],
    ).contains(q[i + 1]) && edge_close(g, q[i], q[i + 1], max_close)) by {
        let j = len - 2 - i;
        assert(q[i] == p[j + 1] && q[i + 1] == p[j]);
        assert(set_at(g.vertex_connections, p[j]).contains(p[j + 1]));
        assert(set_at(g.vertex_connections, p[j + 1]).contains(p[j]));
        assert(canon_edge(p[j], p[j + 1]) == canon_edge(p[j + 1], p[j]));
    }
    assert(is_close_path(g, q, max_close));
}

/// A member set closed under close edges absorbs every vertex of a close
/// walk that starts at a member.
proof fn lemma_path_absorbed(
    g: GeomModel,
    members: Set<usize>,
    max_close: u64,
    p: Seq<usize>,
    i: int,
)
    requires
        closed_under_close_edges(g, members, max_close),
        is_close_path(g, p, max_close),
        p.len() >= 1,
        members.contains(p[0]),
        0 <= i < p.len(),
    ensures
        members.contains(p[i]),
    decreases i,
{
    if i > 0 {
        lemma_path_absorbed(g, members, max_close, p, i - 1);
        assert(set_at(g.vertex_connections, p[i - 1]).contains(p[i]));
    }
}

/// A member set closed under close edges absorbs everything reachable from a
/// member.
pub proof fn lemma_closed_absorbs(
    g: GeomModel,
    members: Set<usize>,
    max_close: u64,
    a: usize,
    b: usize,
)
    requires
        closed_under_close_edges(g, members, max_close),
        members.contains(a),
        reaches(g, a, b, max_close),
    ensures
        members.contains(b),
{
    let p = choose|p: Seq<usize>|
        p.len() >= 1 && p[0] == a && p.last() == b && #[trigger] is_close_path(g, p, max_close);
    lemma_path_absorbed(g, members, max_close, p, p.len() - 1);
}

/// Raising the closeness threshold never turns a clustered vertex into
/// noise: every member of a cluster found at the tighter threshold belongs
/// to some cluster of any partition produced at a looser threshold.
pub proof fn lemma_members_survive_looser_threshold(
    g: GeomModel,
    min_pts: usize,
    mc1: u64,
    mc2: u64,
    c: Seq<usize>,
    members2: Set<usize>,
)
    requires
        mc1 <= mc2,
        cluster_seeded(g, c, min_pts, mc1),
        forall|v: usize| is_core(g, v, min_pts, mc2) ==> #[trigger] members2.contains(v),
        closed_under_close_edges(g, members2, mc2),
    ensures
        forall|w: usize| #[trigger] c.contains(w) ==> members2.contains(w),
{
    let s = choose|s: usize|
        {
            &&& #[trigger] c.contains(s)
            &&& is_core(g, s, min_pts, mc1)
            &&& forall|w: usize| #[trigger] c.contains(w) ==> reaches(g, s, w, mc1)
        };
    lemma_core_monotone(g, s, min_pts, mc1, mc2);
    assert(members2.contains(s));
    assert forall|w: usize| #[trigger] c.contains(w) implies members2.contains(w) by {
        assert(reaches(g, s, w, mc1));
        lemma_reaches_monotone(g, s, w, mc1, mc2);
        lemma_closed_absorbs(g, members2, mc2, s, w);
    }
}

/// Raising the closeness threshold never splits a cluster: a cluster found
/// at the tighter threshold lies wholly inside any cluster of the looser
/// partition that shares a vertex with it.
pub proof fn lemma_looser_threshold_never_splits(
    g: GeomModel,
    min_pts: usize,
    mc1: u64,
    mc2: u64,
    c1: Seq<usize>,
    c2: Seq<usize>,
    x: usize,
)
    requires
        vc_symmetric(g.vertex_connections),
        mc1 <= mc2,
        cluster_seeded(g, c1, min_pts, mc1),
        closed_under_close_edges(g, c2.to_set(), mc2),
        c1.contains(x),
        c2.contains(x),
    ensures
        forall|w: usize| #[trigger] c1.contains(w) ==> c2.contains(w),
{
    let s = choose|s: usize|
        {
            &&& #[trigger] c1.contains(s)
            &&& is_core(g, s, min_pts, mc1)
            &&& forall|w: usize| #[trigger] c1.contains(w) ==> reaches(g, s, w, mc1)
        };
    assert(reaches(g, s, x, mc1));
    lemma_reaches_monotone(g, s, x, mc1, mc2);
    lemma_reaches_symmetric(g, s, x, mc2);
    assert(c2.to_set().contains(x));
    lemma_closed_absorbs(g, c2.to_set(), mc2, x, s);
    assert forall|w: usize| #[trigger] c1.contains(w) implies c2.contains(w) by {
        assert(reaches(g, s, w, mc1));
        lemma_reaches_monotone(g, s, w, mc1, mc2);
        lemma_closed_absorbs(g, c2.to_set(), mc2, s, w);
    }
}

/// Raising the closeness threshold only merges or grows clusters: a cluster
/// produced at a tighter threshold lies wholly inside one single cluster of
/// any cluster list with the engine's properties at a looser threshold.
pub proof fn lemma_threshold_monotone_no_split(
    g: GeomModel,
    min_pts: usize,
    mc1: u64,
    mc2: u64,
    c1: Seq<usize>,
    cs2: Seq<Vec<usize>>,
)
    requires
        vc_symmetric(g.vertex_connections),
        mc1 <= mc2,
        cluster_seeded(g, c1, min_pts, mc1),
        forall|v: usize|
            is_core(g, v, min_pts, mc2) ==> exists|i: int|
                0 <= i < cs2.len() && #[trigger] cs2[i]@.contains(v),
        forall|i: int|
            0 <= i < cs2.len() ==> closed_under_close_edges(
                g,
                (#[trigger] cs2[i])@.to_set(),
                mc2,
            ),
    ensures
        exists|j: int|
            #![trigger cs2[j]]
            0 <= j < cs2.len() && forall|w: usize| #[trigger]
                c1.contains(w) ==> cs2[j]@.contains(w),
{
    let s = choose|s: usize|
        {
            &&& #[trigger] c1.contains(s)
            &&& is_core(g, s, min_pts, mc1)
            &&& forall|w: usize| #[trigger] c1.contains(w) ==> reaches(g, s, w, mc1)
        };
    lemma_core_monotone(g, s, min_pts, mc1, mc2);
    let j = choose|j: int| 0 <= j < cs2.len() && #[trigger] cs2[j]@.contains(s);
    lemma_looser_threshold_never_splits(g, min_pts, mc1, mc2, c1, cs2[j]@, s);
    assert(forall|w: usize| #[trigger] c1.contains(w) ==> cs2[j]@.contains(w));
}

/// An element other than the last one survives dropping the last.
proof fn lemma_drop_last_keeps(s: Seq<usize>, n: usize)
    requires
        s.len() > 0,
        s.contains(n),
        n != s.last(),
    ensures
        s.drop_last().contains(n),
{
    let idx = choose|idx: int| 0 <= idx < s.len() && s[idx] == n;
    assert(idx != s.len() - 1);
    assert(s.drop_last()[idx] == n);
}

/// The set of vertices held by some cluster is closed under close edges:
/// whenever a clustered vertex has a neighbour within the threshold, that
/// neighbour is clustered too.
pub open spec fn closed_under_close_edges(
    g: GeomModel,
    members: Set<usize>,
    max_close: u64,
) -> bool {
    forall|w: usize, n: usize|
        #![trigger members.contains(w), set_at(g.vertex_connections, w).contains(n)]
        members.contains(w) && set_at(g.vertex_connections, w).contains(n) && edge_close(
            g,
            w,
            n,
            max_close,
        ) ==> members.contains(n)
}

/// The set of vertices that some cluster of the list holds.
pub open spec fn cluster_members(cs: Seq<Vec<usize>>) -> Set<usize> {
    Set::new(|v: usize| exists|i: int| 0 <= i < cs.len() && (#[trigger] cs[i])@.contains(v))
}

/// The cluster `c` grew from a core seed: some core member of `c` reaches
/// every member of `c` over edges within the threshold.
pub open spec fn cluster_seeded(
    g: GeomModel,
    c: Seq<usize>,
    min_pts: usize,
    max_close: u64,
) -> bool {
    exists|s: usize|
        {
            &&& #[trigger] c.contains(s)
            &&& is_core(g, s, min_pts, max_close)
            &&& forall|w: usize| #[trigger] c.contains(w) ==> reaches(g, s, w, max_close)
        }
}

/// The engine: the input points, the last-computed triangle list, and the
/// last-built geometry structure.
#[allow(non_camel_case_types)]
#[derive(Debug, Clone)]
pub struct dtscan {
    pub geometry_data: GeometryData,
    pub points: Vec<Point2D>,
    pub triangulation: Vec<usize>,
}

impl dtscan {
    /// Validity of the engine state: the geometry maps are well formed, the
    /// built adjacency is symmetric, and every stored triangle index is an
    /// index of a stored point.
    pub open spec fn wf(&self) -> bool {
        &&& self.geometry_data.wf()
        &&& vc_symmetric(self.geometry_data@.vertex_connections)
        &&& forall|i: int|
            0 <= i < self.triangulation@.len() ==> (#[trigger] self.triangulation@[i])
                < self.points@.len()
    }

    /// A fresh engine: no points, no triangulation, empty geometry.
    pub fn new() -> (r: dtscan)
        ensures
            r.wf(),
            r.points@.len() == 0,
            r.triangulation@.len() == 0,
            r.geometry_data@ == empty_model(),
    {
        let r = dtscan {
            geometry_data: GeometryData::new(),
            points: Vec::new(),
            triangulation: Vec::new(),
        };
        proof {
            lemma_build_symmetric(Seq::empty(), Seq::empty(), 0, Mode::Full);
        }
        r
    }

    /// Replaces the point sequence; all downstream state (the triangulation
    /// and the geometry structure) is cleared with it.
    pub fn set_points(&mut self, points: Vec<Point2D>)
        ensures
            final(self).wf(),
            final(self).points == points,
            final(self).triangulation@.len() == 0,
            final(self).geometry_data@ == empty_model(),
    {
        self.points = points;
        self.triangulation = Vec::new();
        self.geometry_data = GeometryData::new();
        proof {
            lemma_build_symmetric(Seq::empty(), Seq::empty(), 0, Mode::Full);
        }
    }

    /// Triangulates the current point sequence and stores the flat triangle
    /// index list; fewer than three points yield an empty list.
    pub fn delaunay(&mut self)
        requires
            old(self).wf(),
        ensures
            final(self).wf(),
            final(self).points == old(self).points,
            final(self).geometry_data == old(self).geometry_data,
            final(self).triangulation@ == delaunay_triangles(raws(old(self).points@)),
            final(self).triangulation@.len() % 3 == 0,
            old(self).points@.len() < 3 ==> final(self).triangulation@.len() == 0,
    {
        self.triangulation = triangulate_points(&self.points);
    }

    /// Builds the geometry structure from the current triangle list under the
    /// given mode, replacing the stored structure. The result is the fold of
    /// the triangles in index order, determined by the points, the triangle
    /// list and the mode alone — in particular it does not depend on the
    /// execution strategy: the concurrent path computes the per-triangle
    /// records on parallel workers and folds them in the same order. A
    /// triangle list that is not a whole number of triples holds no triangles.
    #[verifier::loop_isolation(false)]
    pub fn preprocess(&mut self, mode: Mode, parallel: bool)
        requires
            old(self).wf(),
        ensures
            final(self).wf(),
            final(self).points == old(self).points,
            final(self).triangulation == old(self).triangulation,
            final(self).geometry_data@ == build_model(
                raws(old(self).points@),
                old(self).triangulation@,
                triangle_count(old(self).triangulation@.len() as int),
                mode,
            ),
    {
        let len = self.triangulation.len();
        let count = if len % 3 == 0 {
            len / 3
        } else {
            0
        };
        proof {
            assert(count as int == triangle_count(self.triangulation@.len() as int));
            assert(3 * count <= len);
        }
        let mut g = GeometryData::new();
        if parallel {
            let records = par_triangle_records(&self.points, &self.triangulation, count);
            let mut i: usize = 0;
            while i < count
                invariant
                    i <= count,
                    g.wf(),
                    g@ == build_model(raws(self.points@), self.triangulation@, i as int, mode),
                decreases count - i,
            {
                let r = records[i];
                g.fold_record(i, &r, mode);
                i += 1;
            }
        } else {
            let mut i: usize = 0;
            while i < count
                invariant
                    i <= count,
                    g.wf(),
                    g@ == build_model(raws(self.points@), self.triangulation@, i as int, mode),
                decreases count - i,
            {
                let a = self.triangulation[3 * i];
                let b = self.triangulation[3 * i + 1];
                let c = self.triangulation[3 * i + 2];
                g.add_triangle(i, &self.points, a, b, c, mode);
                i += 1;
            }
        }
        self.geometry_data = g;
        proof {
            lemma_build_symmetric(raws(self.points@), self.triangulation@, count as int, mode);
        }
    }

    /// Partitions the vertices of the adjacency graph into clusters: every
    /// unvisited core point seeds a cluster, which then absorbs every vertex
    /// reachable over edges within the closeness threshold. The clusters are
    /// pairwise disjoint, non-empty, duplicate-free, hold only vertices of
    /// the adjacency graph, and every core point lands in exactly one of
    /// them. A structure without adjacency yields no clusters.
    #[verifier::loop_isolation(false)]
    pub fn dtscan(&self, min_pts: usize, max_closeness: u64) -> (clusters: Vec<Vec<usize>>)
        requires
            self.wf(),
            min_pts >= 1,
        ensures
            forall|i: int| 0 <= i < clusters@.len() ==> (#[trigger] clusters@[i])@.len() > 0,
            forall|i: int|
                0 <= i < clusters@.len() ==> (#[trigger] clusters@[i])@.no_duplicates(),
            forall|i: int, v: usize|
                0 <= i < clusters@.len() && (#[trigger] clusters@[i]@.contains(v))
                    ==> self.geometry_data@.vertex_connections.contains_key(v),
            forall|i: int, j: int, v: usize|
                #![trigger clusters@[i]@.contains(v), clusters@[j]@.contains(v)]
                0 <= i < clusters@.len() && 0 <= j < clusters@.len() && i != j && clusters@[i]@.contains(v)
                    ==> !clusters@[j]@.contains(v),
            forall|v: usize|
                is_core(self.geometry_data@, v, min_pts, max_closeness) ==> exists|i: int|
                    0 <= i < clusters@.len() && #[trigger] clusters@[i]@.contains(v),
            forall|i: int|
                0 <= i < clusters@.len() ==> cluster_seeded(
                    self.geometry_data@,
                    (#[trigger] clusters@[i])@,
                    min_pts,
                    max_closeness,
                ),
            closed_under_close_edges(
                self.geometry_data@,
                cluster_members(clusters@),
                max_closeness,
            ),
            forall|i: int|
                0 <= i < clusters@.len() ==> closed_under_close_edges(
                    self.geometry_data@,
                    (#[trigger] clusters@[i])@.to_set(),
                    max_closeness,
                ),
    {
        broadcast use vstd::seq_lib::group_seq_properties;

        let ghost g = self.geometry_data@;
        let ghost vc = g.vertex_connections;
        let mut clusters: Vec<Vec<usize>> = Vec::new();
        let mut visited: Vec<usize> = Vec::new();
        let n_rows = self.geometry_data.vertex_connections.rows.len();
        let mut idx: usize = 0;
        while idx < n_rows
            invariant
                idx <= n_rows,
                visited@.no_duplicates(),
                visited@.len() <= n_rows,
                forall|w: usize| #[trigger] visited@.contains(w) ==> vc.contains_key(w),
                forall|w: usize| #[trigger]
                    visited@.contains(w) <==> exists|i: int|
                        0 <= i < clusters@.len() && clusters@[i]@.contains(w),
                forall|i: int| 0 <= i < clusters@.len() ==> (#[trigger] clusters@[i])@.len() > 0,
                forall|i: int|
                    0 <= i < clusters@.len() ==> (#[trigger] clusters@[i])@.no_duplicates(),
                forall|i: int, j: int, v: usize|
                    #![trigger clusters@[i]@.contains(v), clusters@[j]@.contains(v)]
                    0 <= i < clusters@.len() && 0 <= j < clusters@.len() && i != j
                        && clusters@[i]@.contains(v) ==> !clusters@[j]@.contains(v),
                forall|i: int|
                    0 <= i < clusters@.len() ==> cluster_seeded(
                        g,
                        (#[trigger] clusters@[i])@,
                        min_pts,
                        max_closeness,
                    ),
                closed_under_close_edges(g, visited@.to_set(), max_closeness),
                forall|i: int|
                    0 <= i < clusters@.len() ==> closed_under_close_edges(
                        g,
                        (#[trigger] clusters@[i])@.to_set(),
                        max_closeness,
                    ),
                forall|j: int|
                    0 <= j < idx ==> (is_core(
                        g,
                        (#[trigger] self.geometry_data.vertex_connections.rows@[j]).0,
                        min_pts,
                        max_closeness,
                    ) ==> visited@.contains(self.geometry_data.vertex_connections.rows@[j].0)),
            decreases n_rows - idx,
        {
            let v = self.geometry_data.vertex_connections.rows[idx].0;
            proof {
                assert(vc_entries(self.geometry_data.vertex_connections.rows@)[idx as int].0
                    == v);
                lemma_assoc_map_at(vc_entries(self.geometry_data.vertex_connections.rows@),
                    idx as int);
            }
            let already = contains_vertex(&visited, v);
            if !already {
                let core = self.check_core(idx, min_pts, max_closeness);
                if core {
                    let mut cluster: Vec<usize> = Vec::new();
                    let mut to_expand: Vec<usize> = Vec::new();
                    to_expand.push(v);
                    proof {
                        assert(to_expand@[0] == v);
                        lemma_reaches_self(g, v, max_closeness);
                    }
                    let ghost pre_visited = visited@;
                    proof {
                        assert forall|w: usize, n: usize|
                            visited@.contains(w) && set_at(vc, w).contains(n) && edge_close(
                                g,
                                w,
                                n,
                                max_closeness,
                            ) implies visited@.contains(n) || to_expand@.contains(n) by {
                            assert(visited@.to_set().contains(w));
                            assert(visited@.to_set().contains(n));
                        }
                    }
                    while to_expand.len() > 0
                        invariant
                            visited@.no_duplicates(),
                            visited@.len() <= n_rows,
                            cluster@.no_duplicates(),
                            forall|w: usize| #[trigger] visited@.contains(w) ==> vc.contains_key(w),
                            forall|t: int|
                                0 <= t < to_expand@.len() ==> vc.contains_key(
                                    #[trigger] to_expand@[t],
                                ),
                            forall|w: usize| #[trigger]
                                visited@.contains(w) <==> (exists|i: int|
                                    0 <= i < clusters@.len() && clusters@[i]@.contains(w))
                                    || cluster@.contains(w),
                            forall|w: usize| #[trigger]
                                pre_visited.contains(w) ==> visited@.contains(w),
                            forall|w: usize| #[trigger]
                                cluster@.contains(w) ==> !pre_visited.contains(w),
                            visited@.contains(v) || (to_expand@.len() > 0 && to_expand@[0] == v),
                            cluster@.len() == 0 ==> (to_expand@ =~= seq![v]
                                && !visited@.contains(v)),
                            forall|t: int|
                                0 <= t < to_expand@.len() ==> reaches(
                                    g,
                                    v,
                                    #[trigger] to_expand@[t],
                                    max_closeness,
                                ),
                            forall|w: usize| #[trigger]
                                cluster@.contains(w) ==> reaches(g, v, w, max_closeness),
                            forall|w: usize, n: usize|
                                #![trigger visited@.contains(w), set_at(vc, w).contains(n)]
                                visited@.contains(w) && set_at(vc, w).contains(n) && edge_close(
                                    g,
                                    w,
                                    n,
                                    max_closeness,
                                ) ==> visited@.contains(n) || to_expand@.contains(n),
                        decreases n_rows - visited@.len(), to_expand@.len(),
                    {
                        let ghost pre_expand = to_expand@;
                        let curr = to_expand.pop().unwrap();
                        proof {
                            assert(pre_expand[pre_expand.len() - 1] == curr);
                            assert(vc.contains_key(curr));
                            assert(reaches(g, v, curr, max_closeness));
                        }
                        let already_curr = contains_vertex(&visited, curr);
                        if !already_curr {
                            proof {
                                broadcast use vstd::set::group_set_axioms;

                                lemma_assoc_map_dom_finite(
                                    vc_entries(self.geometry_data.vertex_connections.rows@),
                                );
                                visited@.unique_seq_to_set();
                                let ts = visited@.to_set().insert(curr);
                                assert forall|w: usize| #[trigger] ts.contains(w) implies vc.dom().contains(w) by {
                                    if w != curr {
                                        assert(visited@.contains(w));
                                    }
                                }
                                vstd::set_lib::lemma_len_subset(ts, vc.dom());
                                assert(!visited@.to_set().contains(curr));
                                assert(ts.len() == visited@.to_set().len() + 1);
                                assert(visited@.len() < n_rows);
                            }
                            let ghost vis_top = visited@;
                            visited.push(curr);
                            cluster.push(curr);
                            proof {
                                assert forall|w: usize, n: usize|
                                    visited@.contains(w) && w != curr && set_at(vc, w).contains(n)
                                        && edge_close(g, w, n, max_closeness) implies visited@.contains(
                                    n,
                                ) || to_expand@.contains(n) by {
                                    assert(vis_top.contains(w));
                                    if !vis_top.contains(n) {
                                        assert(pre_expand.contains(n));
                                        if n == curr {
                                            assert(visited@.contains(curr));
                                        } else {
                                            lemma_drop_last_keeps(pre_expand, n);
                                        }
                                    }
                                }
                            }
                            match self.geometry_data.vertex_connections.get(curr) {
                                Some(neigh) => {
                                    let ghost neighv = neigh@;
                                    let m = neigh.len();
                                    let mut t: usize = 0;
                                    while t < m
                                        invariant
                                            t <= m,
                                            forall|s: int|
                                                0 <= s < to_expand@.len() ==> vc.contains_key(
                                                    #[trigger] to_expand@[s],
                                                ),
                                            visited@.contains(v) || (to_expand@.len() > 0
                                                && to_expand@[0] == v),
                                            forall|s: int|
                                                0 <= s < to_expand@.len() ==> reaches(
                                                    g,
                                                    v,
                                                    #[trigger] to_expand@[s],
                                                    max_closeness,
                                                ),
                                            forall|s: int|
                                                0 <= s < t ==> (edge_close(
                                                    g,
                                                    curr,
                                                    #[trigger] neighv[s],
                                                    max_closeness,
                                                ) ==> to_expand@.contains(neighv[s])),
                                            forall|w: usize, n: usize|
                                                #![trigger visited@.contains(w), set_at(vc, w).contains(n)]
                                                visited@.contains(w) && w != curr && set_at(
                                                    vc,
                                                    w,
                                                ).contains(n) && edge_close(g, w, n, max_closeness)
                                                    ==> visited@.contains(n)
                                                    || to_expand@.contains(n),
                                        decreases m - t,
                                    {
                                        let n = neigh[t];
                                        let e = Edge::new(curr, n);
                                        let close = match self.geometry_data.edge_lengths.get(e) {
                                            Some(l) => l <= max_closeness,
                                            None => false,
                                        };
                                        if close {
                                            proof {
                                                assert(neigh@.contains(neigh@[t as int]));
                                                assert(set_at(vc, curr).contains(n));
                                                assert(vc.contains_key(n));
                                                assert(edge_close(g, curr, n, max_closeness));
                                                lemma_reaches_step(g, v, curr, n, max_closeness);
                                            }
                                            to_expand.push(n);
                                            proof {
                                                assert(to_expand@.contains(n));
                                            }
                                        } else {
                                            proof {
                                                assert(!edge_close(g, curr, n, max_closeness));
                                            }
                                        }
                                        t += 1;
                                    }
                                    proof {
                                        assert(vc[curr] == neighv.to_set());
                                        assert forall|w: usize, n: usize|
                                            visited@.contains(w) && set_at(vc, w).contains(n)
                                                && edge_close(g, w, n, max_closeness) implies visited@.contains(
                                            n,
                                        ) || to_expand@.contains(n) by {
                                            if w == curr {
                                                assert(neighv.to_set().contains(n));
                                                let s = choose|s: int|
                                                    0 <= s < neighv.len() && neighv[s] == n;
                                                assert(edge_close(
                                                    g,
                                                    curr,
                                                    neighv[s],
                                                    max_closeness,
                                                ));
                                                assert(to_expand@.contains(neighv[s]));
                                            }
                                        }
                                    }
                                },
                                None => {
                                    proof {
                                        // the worklist holds only keys of the
                                        // adjacency map, so the lookup cannot miss
                                        assert(false);
                                    }
                                },
                            }
                        }
                    }
                    proof {
                        assert(cluster@.len() > 0);
                    }
                    if cluster.len() > 0 {
                        let ghost pre_clusters = clusters@;
                        let ghost clv = cluster@;
                        proof {
                            assert(visited@.contains(v));
                            assert(!pre_visited.contains(v));
                            assert(clv.contains(v));
                        }
                        proof {
                            assert forall|w: usize, n: usize|
                                #![trigger clv.to_set().contains(w), set_at(vc, w).contains(n)]
                                clv.to_set().contains(w) && set_at(vc, w).contains(n)
                                    && edge_close(g, w, n, max_closeness) implies clv.to_set().contains(
                                n,
                            ) by {
                                assert(clv.contains(w));
                                assert(visited@.contains(w));
                                assert(visited@.contains(n) || to_expand@.contains(n));
                                assert(visited@.contains(n));
                                if !clv.contains(n) {
                                    let j = choose|j: int|
                                        0 <= j < pre_clusters.len() && (
                                        #[trigger] pre_clusters[j])@.contains(n);
                                    assert(set_at(vc, n).contains(w));
                                    assert(canon_edge(w, n) == canon_edge(n, w));
                                    assert(edge_close(g, n, w, max_closeness));
                                    assert(closed_under_close_edges(
                                        g,
                                        pre_clusters[j]@.to_set(),
                                        max_closeness,
                                    ));
                                    assert(pre_clusters[j]@.to_set().contains(n));
                                    assert(pre_clusters[j]@.to_set().contains(w));
                                    assert(pre_visited.contains(w));
                                    assert(false);
                                }
                            }
                            assert(closed_under_close_edges(g, clv.to_set(), max_closeness));
                        }
                        clusters.push(cluster);
                        proof {
                            assert(clv.contains(v));
                            assert(is_core(g, v, min_pts, max_closeness));
                            assert(cluster_seeded(g, clv, min_pts, max_closeness));
                            assert forall|i: int| 0 <= i < clusters@.len() implies cluster_seeded(
                                g,
                                (#[trigger] clusters@[i])@,
                                min_pts,
                                max_closeness,
                            ) by {
                                if i < pre_clusters.len() {
                                    assert(clusters@[i] == pre_clusters[i]);
                                } else {
                                    assert(clusters@[i]@ == clv);
                                }
                            }
                            assert forall|i: int|
                                0 <= i < clusters@.len() implies closed_under_close_edges(
                                g,
                                (#[trigger] clusters@[i])@.to_set(),
                                max_closeness,
                            ) by {
                                if i < pre_clusters.len() {
                                    assert(clusters@[i] == pre_clusters[i]);
                                } else {
                                    assert(clusters@[i]@ == clv);
                                }
                            }
                            assert forall|w: usize| #[trigger]
                                visited@.contains(w) implies exists|i: int|
                                0 <= i < clusters@.len() && clusters@[i]@.contains(w) by {
                                if clv.contains(w) {
                                    assert(clusters@[clusters@.len() - 1]@.contains(w));
                                } else {
                                    let i = choose|i: int|
                                        0 <= i < pre_clusters.len()
                                            && pre_clusters[i]@.contains(w);
                                    assert(clusters@[i]@.contains(w));
                                }
                            }
                            assert forall|w: usize| (exists|i: int|
                                0 <= i < clusters@.len() && #[trigger] clusters@[i]@.contains(
                                    w,
                                )) implies visited@.contains(w) by {
                                let i = choose|i: int|
                                    0 <= i < clusters@.len() && clusters@[i]@.contains(w);
                                if i < pre_clusters.len() {
                                    assert(pre_clusters[i]@.contains(w));
                                }
                            }
                            assert forall|i: int, j: int, v2: usize|
                                0 <= i < clusters@.len() && 0 <= j < clusters@.len() && i != j
                                    && #[trigger] clusters@[i]@.contains(v2) implies !(
                            #[trigger] clusters@[j]@.contains(v2)) by {
                                if j == clusters@.len() - 1 {
                                    assert(pre_clusters[i]@.contains(v2));
                                    assert(pre_visited.contains(v2));
                                } else if i == clusters@.len() - 1 {
                                    if clusters@[j]@.contains(v2) {
                                        assert(pre_clusters[j]@.contains(v2));
                                        assert(pre_visited.contains(v2));
                                        assert(clv.contains(v2));
                                        assert(false);
                                    }
                                } else {
                                    assert(pre_clusters[i]@.contains(v2));
                                }
                            }
                        }
                    }
                }
            }
            idx += 1;
        }
        proof {
            assert forall|w: usize| #[trigger]
                cluster_members(clusters@).contains(w) implies visited@.to_set().contains(w) by {
                assert(visited@.contains(w));
            }
            assert forall|w: usize| #[trigger]
                visited@.to_set().contains(w) implies cluster_members(clusters@).contains(w) by {
                assert(visited@.contains(w));
                assert(exists|i: int|
                    0 <= i < clusters@.len() && (#[trigger] clusters@[i])@.contains(w));
            }
            assert(cluster_members(clusters@) =~= visited@.to_set());
            assert(closed_under_close_edges(g, cluster_members(clusters@), max_closeness));
            assert forall|i: int, v: usize|
                0 <= i < clusters@.len() && #[trigger] clusters@[i]@.contains(v) implies vc.contains_key(v) by {
                assert(exists|i2: int| 0 <= i2 < clusters@.len() && #[trigger] clusters@[i2]@.contains(v));
                assert(visited@.contains(v));
            }
            assert forall|v: usize|
                is_core(g, v, min_pts, max_closeness) implies exists|i: int|
                0 <= i < clusters@.len() && #[trigger] clusters@[i]@.contains(v) by {
                lemma_assoc_map_contains(
                    vc_entries(self.geometry_data.vertex_connections.rows@),
                    v,
                );
                let j = choose|j: int|
                    0 <= j < vc_entries(self.geometry_data.vertex_connections.rows@).len() && (
                    #[trigger] vc_entries(self.geometry_data.vertex_connections.rows@)[j]).0 == v;
                assert(self.geometry_data.vertex_connections.rows@[j].0 == v);
                assert(visited@.contains(v));
            }
        }
        clusters
    }

    /// Evaluates the core-point condition for the vertex stored in row `idx`
    /// of the adjacency container.
    #[verifier::loop_isolation(false)]
    fn check_core(&self, idx: usize, min_pts: usize, max_closeness: u64) -> (core: bool)
        requires
            self.wf(),
            idx < self.geometry_data.vertex_connections.rows@.len(),
        ensures
            core == is_core(
                self.geometry_data@,
                self.geometry_data.vertex_connections.rows@[idx as int].0,
                min_pts,
                max_closeness,
            ),
    {
        let ghost g = self.geometry_data@;
        let ghost vc = g.vertex_connections;
        let v = self.geometry_data.vertex_connections.rows[idx].0;
        let neighbors = &self.geometry_data.vertex_connections.rows[idx].1;
        proof {
            assert(vc_entries(self.geometry_data.vertex_connections.rows@)[idx as int]
                == (v, neighbors@.to_set()));
            lemma_assoc_map_at(vc_entries(self.geometry_data.vertex_connections.rows@),
                idx as int);
            assert(vc.contains_key(v) && vc[v] == neighbors@.to_set());
            neighbors@.unique_seq_to_set();
        }
        if neighbors.len() < min_pts {
            return false;
        }
        let m = neighbors.len();
        let mut t: usize = 0;
        while t < m
            invariant
                t <= m,
                forall|s: int|
                    0 <= s < t ==> edge_close(g, v, #[trigger] neighbors@[s], max_closeness),
            decreases m - t,
        {
            let n = neighbors[t];
            let e = Edge::new(v, n);
            let close = match self.geometry_data.edge_lengths.get(e) {
                Some(l) => l <= max_closeness,
                None => false,
            };
            if !close {
                proof {
                    assert(neighbors@.contains(neighbors@[t as int]));
                    assert(vc[v].contains(n));
                    assert(!edge_close(g, v, n, max_closeness));
                }
                return false;
            }
            t += 1;
        }
        proof {
            assert forall|n: usize| #[trigger] vc[v].contains(n) implies edge_close(
                g,
                v,
                n,
                max_closeness,
            ) by {
                assert(neighbors@.to_set().contains(n));
                let s = choose|s: int| 0 <= s < neighbors@.len() && neighbors@[s] == n;
                assert(edge_close(g, v, neighbors@[s], max_closeness));
            }
        }
        true
    }
}

} // verus!
