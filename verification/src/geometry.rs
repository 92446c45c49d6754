//! The geometry structure derived from a triangle list: per-triangle metadata,
//! per-edge length codes, edge-to-triangle incidence and vertex adjacency.
//!
//! Every artifact is specified by one mathematical model, `GeomModel`, built
//! by folding the triangles in index order; the executable builder is proved
//! to produce exactly that model, whichever execution strategy fills it.

use vstd::prelude::*;
use crate::maps::EdgeLengths;
use crate::maps::EdgeTriangles;
use crate::maps::VertexConnections;
use crate::maps::seq_at;
use crate::maps::set_at;
use crate::maps::vc_add;
use crate::primitives::Edge;
use crate::primitives::Point2D;
use crate::primitives::canon_edge;
use crate::primitives::distance_code;
use crate::primitives::area_code;
use crate::primitives::triangle_area;

verus! {

/// Which artifacts a build retains: `Full` keeps adjacency and per-triangle
/// metrics, `GraphOnly` keeps only adjacency, `MetricsOnly` only the
/// per-triangle metrics. Edge lengths and incidence are kept in every mode.
#[derive(Debug, Clone, Copy, PartialEq, Eq, Structural)]
pub enum Mode {
    Full,
    GraphOnly,
    MetricsOnly,
}

/// Whether the mode populates vertex adjacency.
pub open spec fn mode_adjacency(m: Mode) -> bool {
    m == Mode::Full || m == Mode::GraphOnly
}

/// Whether the mode populates per-triangle area and terminal edge.
pub open spec fn mode_metrics(m: Mode) -> bool {
    m == Mode::Full || m == Mode::MetricsOnly
}

/// The mathematical content of one triangle's metadata.
#[verifier::ext_equal]
pub ghost struct TriModel {
    pub index: usize,
    pub area: Option<u64>,
    pub terminal_edge: Option<Edge>,
    pub vertices: Seq<usize>,
}

/// The placeholder left for a triangle whose metadata was not requested.
pub open spec fn default_tri() -> TriModel {
    TriModel { index: 0, area: None, terminal_edge: None, vertices: Seq::empty() }
}

/// Per-triangle metadata: the triangle's own index, its area code and longest
/// ("terminal") edge when the mode computed them, and its three vertex
/// indices sorted ascending.
#[derive(Debug, Clone, PartialEq)]
pub struct TriangleData {
    pub index: usize,
    pub area: Option<u64>,
    pub terminal_edge: Option<Edge>,
    pub vertices: Vec<usize>,
}

impl View for TriangleData {
    type V = TriModel;

    open spec fn view(&self) -> TriModel {
        TriModel {
            index: self.index,
            area: self.area,
            terminal_edge: self.terminal_edge,
            vertices: self.vertices@,
        }
    }
}

impl Default for TriangleData {
    /// The empty placeholder.
    fn default() -> (r: TriangleData)
        ensures
            r@ == default_tri(),
    {
        TriangleData { index: 0, area: None, terminal_edge: None, vertices: Vec::new() }
    }
}

impl TriangleData {
    /// The canonical edges between consecutive vertices, wrapping around;
    /// empty when fewer than three vertices are stored.
    pub fn get_edges(&self) -> (r: Vec<Edge>)
        ensures
            self.vertices@.len() < 3 ==> r@.len() == 0,
            self.vertices@.len() >= 3 ==> {
                &&& r@.len() == self.vertices@.len()
                &&& forall|i: int|
                    0 <= i < r@.len() ==> r@[i] == canon_edge(
                        self.vertices@[i],
                        self.vertices@[if i + 1 < r@.len() { i + 1 } else { 0int }],
                    )
            },
    {
        let mut edges: Vec<Edge> = Vec::new();
        let n = self.vertices.len();
        if n >= 3 {
            let mut i: usize = 0;
            while i < n
                invariant
                    i <= n,
                    n == self.vertices@.len(),
                    n >= 3,
                    edges@.len() == i,
                    forall|j: int|
                        0 <= j < i ==> edges@[j] == canon_edge(
                            self.vertices@[j],
                            self.vertices@[if j + 1 < n { j + 1 } else { 0int }],
                        ),
                decreases n - i,
            {
                let v1 = self.vertices[i];
                let v2 = if i + 1 < n {
                    self.vertices[i + 1]
                } else {
                    self.vertices[0]
                };
                edges.push(Edge::new(v1, v2));
                i += 1;
            }
        }
        edges
    }
}

/// The aggregate result of a build: the mathematical model.
#[verifier::ext_equal]
pub ghost struct GeomModel {
    pub triangles: Seq<TriModel>,
    pub edge_to_triangles: Map<Edge, Seq<usize>>,
    pub edge_lengths: Map<Edge, u64>,
    pub vertex_connections: Map<usize, Set<usize>>,
}

/// The model of the empty structure.
pub open spec fn empty_model() -> GeomModel {
    GeomModel {
        triangles: Seq::empty(),
        edge_to_triangles: Map::empty(),
        edge_lengths: Map::empty(),
        vertex_connections: Map::empty(),
    }
}

/// The length code of the edge between vertices `a` and `b`, evaluated on the
/// canonically ordered endpoint pair.
pub open spec fn edge_len(points: Seq<delaunator::Point>, a: usize, b: usize) -> u64 {
    if a <= b {
        distance_code(points[a as int], points[b as int])
    } else {
        distance_code(points[b as int], points[a as int])
    }
}

/// The coordinate pairs carried by a point sequence.
pub open spec fn raws(s: Seq<Point2D>) -> Seq<delaunator::Point> {
    s.map_values(|p: Point2D| p.raw)
}

/// Everything one triangle contributes to the structure: its three canonical
/// edges with their length codes, its terminal (longest) edge, its area code,
/// and its vertex indices sorted ascending.
#[derive(Debug, Clone, Copy, PartialEq, Eq, Structural)]
pub struct TriRecord {
    pub e0: Edge,
    pub e1: Edge,
    pub e2: Edge,
    pub l0: u64,
    pub l1: u64,
    pub l2: u64,
    pub terminal: Edge,
    pub area: u64,
    pub v0: usize,
    pub v1: usize,
    pub v2: usize,
}

/// The triple `(a, b, c)` sorted ascending.
pub open spec fn sort3(a: usize, b: usize, c: usize) -> (usize, usize, usize) {
    if a <= b {
        if b <= c {
            (a, b, c)
        } else if a <= c {
            (a, c, b)
        } else {
            (c, a, b)
        }
    } else {
        if a <= c {
            (b, a, c)
        } else if b <= c {
            (b, c, a)
        } else {
            (c, b, a)
        }
    }
}

/// The record of the triangle with vertices `(a, b, c)`. The terminal edge is
/// the first edge of the descending stable ordering of the three edges by
/// length code: the earliest edge of maximal length.
pub open spec fn record_model(
    points: Seq<delaunator::Point>,
    a: usize,
    b: usize,
    c: usize,
) -> TriRecord {
    let l0 = edge_len(points, a, b);
    let l1 = edge_len(points, b, c);
    let l2 = edge_len(points, c, a);
    let e0 = canon_edge(a, b);
    let e1 = canon_edge(b, c);
    let e2 = canon_edge(c, a);
    let sorted = sort3(a, b, c);
    TriRecord {
        e0,
        e1,
        e2,
        l0,
        l1,
        l2,
        terminal: if l0 >= l1 && l0 >= l2 {
            e0
        } else if l1 >= l2 {
            e1
        } else {
            e2
        },
        area: area_code(points[a as int], points[b as int], points[c as int]),
        v0: sorted.0,
        v1: sorted.1,
        v2: sorted.2,
    }
}

/// One edge's contribution: its length, its incidence entry for the triangle,
/// and (in adjacency modes) both directions of the vertex adjacency.
pub open spec fn edge_fold(m: GeomModel, e: Edge, l: u64, index: usize, adj: bool) -> GeomModel {
    GeomModel {
        triangles: m.triangles,
        edge_to_triangles: m.edge_to_triangles.insert(
            e,
            seq_at(m.edge_to_triangles, e).push(index),
        ),
        edge_lengths: m.edge_lengths.insert(e, l),
        vertex_connections: if adj {
            vc_add(vc_add(m.vertex_connections, e.0, e.1), e.1, e.0)
        } else {
            m.vertex_connections
        },
    }
}

/// `s` padded with placeholders up to length `n` (unchanged when long enough).
pub open spec fn pad_to(s: Seq<TriModel>, n: int) -> Seq<TriModel> {
    if s.len() >= n {
        s
    } else {
        s + Seq::new((n - s.len()) as nat, |i: int| default_tri())
    }
}

/// Folding one triangle's record into the model: all three edges contribute
/// their metrics, the triangle list is padded to reach the triangle's index,
/// and in metric modes the triangle's own metadata is written there.
pub open spec fn fold_model(m: GeomModel, index: usize, r: TriRecord, mode: Mode) -> GeomModel {
    let adj = mode_adjacency(mode);
    let m1 = edge_fold(m, r.e0, r.l0, index, adj);
    let m2 = edge_fold(m1, r.e1, r.l1, index, adj);
    let m3 = edge_fold(m2, r.e2, r.l2, index, adj);
    let padded = pad_to(m3.triangles, index + 1);
    GeomModel {
        triangles: if mode_metrics(mode) {
            padded.update(
                index as int,
                TriModel {
                    index,
                    area: Some(r.area),
                    terminal_edge: Some(r.terminal),
                    vertices: seq![r.v0, r.v1, r.v2],
                },
            )
        } else {
            padded
        },
        ..m3
    }
}

/// The model after folding the first `n` triangles of the flat index list.
pub open spec fn build_model(
    points: Seq<delaunator::Point>,
    tris: Seq<usize>,
    n: int,
    mode: Mode,
) -> GeomModel
    decreases n,
{
    if n <= 0 {
        empty_model()
    } else {
        fold_model(
            build_model(points, tris, n - 1, mode),
            (n - 1) as usize,
            record_model(points, tris[3 * (n - 1)], tris[3 * (n - 1) + 1], tris[3 * (n - 1) + 2]),
            mode,
        )
    }
}

/// How many whole triangles a flat index list of length `len` describes: its
/// triple count, or none at all when the list is not a whole number of triples.
pub open spec fn triangle_count(len: int) -> int {
    if len % 3 == 0 {
        len / 3
    } else {
        0
    }
}

/// The aggregate result of building: triangle metadata, edge metrics,
/// incidence and adjacency.
#[derive(Debug, Clone, PartialEq)]
pub struct GeometryData {
    pub triangles: Vec<TriangleData>,
    pub edge_to_triangles: EdgeTriangles,
    pub edge_lengths: EdgeLengths,
    pub vertex_connections: VertexConnections,
}

impl View for GeometryData {
    type V = GeomModel;

    open spec fn view(&self) -> GeomModel {
        GeomModel {
            triangles: self.triangles@.map_values(|t: TriangleData| t@),
            edge_to_triangles: self.edge_to_triangles@,
            edge_lengths: self.edge_lengths@,
            vertex_connections: self.vertex_connections@,
        }
    }
}

impl GeometryData {
    pub open spec fn wf(&self) -> bool {
        &&& self.edge_to_triangles.wf()
        &&& self.edge_lengths.wf()
        &&& self.vertex_connections.wf()
    }

    /// The empty structure.
    pub fn new() -> (r: GeometryData)
        ensures
            r.wf(),
            r@ == empty_model(),
    {
        let r = GeometryData {
            triangles: Vec::new(),
            edge_to_triangles: EdgeTriangles::new(),
            edge_lengths: EdgeLengths::new(),
            vertex_connections: VertexConnections::new(),
        };
        proof {
            assert(r.triangles@.map_values(|t: TriangleData| t@) =~= Seq::<TriModel>::empty());
            assert(r@ =~= empty_model());
        }
        r
    }

    /// Folds one precomputed triangle record into the structure.
    pub fn fold_record(&mut self, index: usize, r: &TriRecord, mode: Mode)
        requires
            old(self).wf(),
        ensures
            final(self).wf(),
            final(self)@ == fold_model(old(self)@, index, *r, mode),
    {
        let adj = match mode {
            Mode::Full => true,
            Mode::GraphOnly => true,
            Mode::MetricsOnly => false,
        };
        self.edge_lengths.insert(r.e0, r.l0);
        self.edge_to_triangles.push_for(r.e0, index);
        if adj {
            self.vertex_connections.connect(r.e0.0, r.e0.1);
            self.vertex_connections.connect(r.e0.1, r.e0.0);
        }
        self.edge_lengths.insert(r.e1, r.l1);
        self.edge_to_triangles.push_for(r.e1, index);
        if adj {
            self.vertex_connections.connect(r.e1.0, r.e1.1);
            self.vertex_connections.connect(r.e1.1, r.e1.0);
        }
        self.edge_lengths.insert(r.e2, r.l2);
        self.edge_to_triangles.push_for(r.e2, index);
        if adj {
            self.vertex_connections.connect(r.e2.0, r.e2.1);
            self.vertex_connections.connect(r.e2.1, r.e2.0);
        }
        let ghost m3_snapshot = edge_fold(
            edge_fold(
                edge_fold(old(self)@, r.e0, r.l0, index, adj),
                r.e1,
                r.l1,
                index,
                adj,
            ),
            r.e2,
            r.l2,
            index,
            adj,
        );
        proof {
            assert(self.edge_lengths@ == m3_snapshot.edge_lengths);
            assert(self.edge_to_triangles@ == m3_snapshot.edge_to_triangles);
            assert(self.vertex_connections@ == m3_snapshot.vertex_connections);
        }
        let ghost orig = self.triangles@.map_values(|t: TriangleData| t@);
        while self.triangles.len() <= index
            invariant
                self.edge_lengths@ == m3_snapshot.edge_lengths,
                self.edge_to_triangles@ == m3_snapshot.edge_to_triangles,
                self.vertex_connections@ == m3_snapshot.vertex_connections,
                self.edge_lengths.wf(),
                self.edge_to_triangles.wf(),
                self.vertex_connections.wf(),
                self.triangles@.map_values(|t: TriangleData| t@) =~~= pad_to(
                    orig,
                    self.triangles@.len() as int,
                ),
                self.triangles@.len() >= orig.len(),
                self.triangles@.len() <= index + 1 || self.triangles@.len() == orig.len(),
            decreases index + 1 - self.triangles@.len(),
        {
            let ghost before = self.triangles@;
            let d = TriangleData::default();
            self.triangles.push(d);
            proof {
                let after = self.triangles@;
                let l = after.len() as int;
                assert forall|i: int| 0 <= i < l implies after.map_values(|t: TriangleData| t@)[i]
                    =~~= pad_to(orig, l)[i] by {
                    if i < before.len() {
                        assert(after[i] == before[i]);
                        assert(after.map_values(|t: TriangleData| t@)[i] == before.map_values(
                            |t: TriangleData| t@,
                        )[i]);
                        assert(before.map_values(|t: TriangleData| t@)[i] =~~= pad_to(
                            orig,
                            before.len() as int,
                        )[i]);
                    } else {
                        assert(after[i] == d);
                        assert(pad_to(orig, l)[i] == default_tri());
                    }
                }
                assert(after.map_values(|t: TriangleData| t@) =~~= pad_to(orig, l));
            }
        }
        proof {
            assert(self.triangles@.map_values(|t: TriangleData| t@) =~~= pad_to(
                orig,
                index + 1,
            ));
        }
        let metrics = match mode {
            Mode::Full => true,
            Mode::GraphOnly => false,
            Mode::MetricsOnly => true,
        };
        if metrics {
            let mut vertices: Vec<usize> = Vec::new();
            vertices.push(r.v0);
            vertices.push(r.v1);
            vertices.push(r.v2);
            proof {
                assert(vertices@ =~= seq![r.v0, r.v1, r.v2]);
            }
            let td = TriangleData {
                index,
                area: Some(r.area),
                terminal_edge: Some(r.terminal),
                vertices,
            };
            let ghost tdv = td@;
            let ghost padded = self.triangles@;
            self.triangles.remove(index);
            self.triangles.insert(index, td);
            proof {
                assert(self.triangles@ =~= padded.update(index as int, self.triangles@[index as int]));
                assert(self.triangles@.map_values(|t: TriangleData| t@) =~~= padded.map_values(
                    |t: TriangleData| t@,
                ).update(index as int, tdv));
            }
        }
        proof {
            let target = fold_model(old(self)@, index, *r, mode);
            assert(self.edge_lengths@ == target.edge_lengths);
            assert(self.edge_to_triangles@ == target.edge_to_triangles);
            assert(self.vertex_connections@ == target.vertex_connections);
            assert(self.triangles@.map_values(|t: TriangleData| t@) =~~= target.triangles);
            assert(self@ =~~= target);
        }
    }

    /// Computes one triangle's record and folds it in: the whole per-triangle
    /// update of the structure.
    pub fn add_triangle(
        &mut self,
        index: usize,
        points: &Vec<Point2D>,
        a: usize,
        b: usize,
        c: usize,
        mode: Mode,
    )
        requires
            old(self).wf(),
            a < points@.len(),
            b < points@.len(),
            c < points@.len(),
        ensures
            final(self).wf(),
            final(self)@ == fold_model(
                old(self)@,
                index,
                record_model(raws(points@), a, b, c),
                mode,
            ),
    {
        let r = triangle_record(points, a, b, c);
        self.fold_record(index, &r, mode);
    }
}

/// The length code between the points at indices `a` and `b`, evaluated on
/// the canonically ordered pair.
pub fn dist_at(points: &Vec<Point2D>, a: usize, b: usize) -> (r: u64)
    requires
        a < points@.len(),
        b < points@.len(),
    ensures
        r == edge_len(raws(points@), a, b),
{
    if a <= b {
        points[a].distance(&points[b])
    } else {
        points[b].distance(&points[a])
    }
}

/// Computes the record of the triangle with vertices `(a, b, c)`.
pub fn triangle_record(points: &Vec<Point2D>, a: usize, b: usize, c: usize) -> (r: TriRecord)
    requires
        a < points@.len(),
        b < points@.len(),
        c < points@.len(),
    ensures
        r == record_model(raws(points@), a, b, c),
{
    let l0 = dist_at(points, a, b);
    let l1 = dist_at(points, b, c);
    let l2 = dist_at(points, c, a);
    let e0 = Edge::new(a, b);
    let e1 = Edge::new(b, c);
    let e2 = Edge::new(c, a);
    let terminal = if l0 >= l1 && l0 >= l2 {
        e0
    } else if l1 >= l2 {
        e1
    } else {
        e2
    };
    let area = triangle_area(&points[a], &points[b], &points[c]);
    let (v0, v1, v2) = if a <= b {
        if b <= c {
            (a, b, c)
        } else if a <= c {
            (a, c, b)
        } else {
            (c, a, b)
        }
    } else {
        if a <= c {
            (b, a, c)
        } else if b <= c {
            (b, c, a)
        } else {
            (c, b, a)
        }
    };
    TriRecord { e0, e1, e2, l0, l1, l2, terminal, area, v0, v1, v2 }
}

/// Symmetry of an adjacency map: whenever `b` is recorded as a neighbour of
/// `a`, `a` is recorded as a neighbour of `b` (and `b` is itself a key).
pub open spec fn vc_symmetric(m: Map<usize, Set<usize>>) -> bool {
    forall|a: usize, b: usize| #[trigger]
        set_at(m, a).contains(b) ==> m.contains_key(b) && set_at(m, b).contains(a)
}

/// Adding both directions of one edge preserves the symmetry of adjacency.
proof fn lemma_vc_add_pair_symmetric(m: Map<usize, Set<usize>>, x: usize, y: usize)
    requires
        vc_symmetric(m),
    ensures
        vc_symmetric(vc_add(vc_add(m, x, y), y, x)),
{
    let m1 = vc_add(m, x, y);
    let m2 = vc_add(m1, y, x);
    assert forall|a: usize, b: usize| #[trigger] set_at(m2, a).contains(b) implies m2.contains_key(
        b,
    ) && set_at(m2, b).contains(a) by {
        if a == y {
            assert(set_at(m2, y) == set_at(m1, y).insert(x));
            if b == x {
                assert(m2.contains_key(x));
            } else {
                assert(set_at(m1, y).contains(b));
                if y == x {
                    assert(set_at(m, x).contains(b) || b == y);
                } else {
                    assert(set_at(m, y).contains(b) || (y == x && b == y));
                }
            }
        } else if a == x {
            assert(set_at(m2, x) == set_at(m, x).insert(y));
            if b == y {
                assert(m2.contains_key(y));
            } else {
                assert(set_at(m, x).contains(b));
            }
        } else {
            assert(set_at(m2, a) == set_at(m, a));
            assert(set_at(m, a).contains(b));
            assert(m.contains_key(b) && set_at(m, b).contains(a));
        }
    }
}

/// Symmetry of adjacency: in every built model, whenever `b` is a neighbour
/// of `a`, `a` is a neighbour of `b`.
pub proof fn lemma_build_symmetric(
    points: Seq<delaunator::Point>,
    tris: Seq<usize>,
    n: int,
    mode: Mode,
)
    ensures
        vc_symmetric(build_model(points, tris, n, mode).vertex_connections),
    decreases n,
{
    if n <= 0 {
        assert forall|a: usize, b: usize| #[trigger]
            set_at(empty_model().vertex_connections, a).contains(b) implies empty_model(
        ).vertex_connections.contains_key(b) && set_at(
            empty_model().vertex_connections,
            b,
        ).contains(a) by {
            assert(!set_at(empty_model().vertex_connections, a).contains(b));
        }
    } else {
        lemma_build_symmetric(points, tris, n - 1, mode);
        let prev = build_model(points, tris, n - 1, mode);
        let r = record_model(
            points,
            tris[3 * (n - 1)],
            tris[3 * (n - 1) + 1],
            tris[3 * (n - 1) + 2],
        );
        if mode_adjacency(mode) {
            let v0 = prev.vertex_connections;
            let v1 = vc_add(vc_add(v0, r.e0.0, r.e0.1), r.e0.1, r.e0.0);
            let v2 = vc_add(vc_add(v1, r.e1.0, r.e1.1), r.e1.1, r.e1.0);
            lemma_vc_add_pair_symmetric(v0, r.e0.0, r.e0.1);
            lemma_vc_add_pair_symmetric(v1, r.e1.0, r.e1.1);
            lemma_vc_add_pair_symmetric(v2, r.e2.0, r.e2.1);
            assert(build_model(points, tris, n, mode).vertex_connections == vc_add(
                vc_add(v2, r.e2.0, r.e2.1),
                r.e2.1,
                r.e2.0,
            ));
        } else {
            assert(build_model(points, tris, n, mode).vertex_connections
                == prev.vertex_connections);
        }
    }
}

/// Mode independence of the edge metrics: every mode records the same edge
/// lengths and the same edge-to-triangle incidence for the same triangle list.
pub proof fn lemma_metrics_mode_independent(
    points: Seq<delaunator::Point>,
    tris: Seq<usize>,
    n: int,
    m1: Mode,
    m2: Mode,
)
    ensures
        build_model(points, tris, n, m1).edge_lengths == build_model(
            points,
            tris,
            n,
            m2,
        ).edge_lengths,
        build_model(points, tris, n, m1).edge_to_triangles == build_model(
            points,
            tris,
            n,
            m2,
        ).edge_to_triangles,
    decreases n,
{
    if n > 0 {
        lemma_metrics_mode_independent(points, tris, n - 1, m1, m2);
    }
}

} // verus!
