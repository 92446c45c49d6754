use ::dtscan::engine::dtscan;
use ::dtscan::geometry::Mode;
use ::dtscan::primitives::Edge;
use ::dtscan::primitives::Point2D;

fn pt(x: f64, y: f64) -> Point2D {
    Point2D::new(delaunator::Point { x, y })
}

fn engine_with(points: Vec<(f64, f64)>) -> dtscan {
    let mut eng = dtscan::new();
    eng.set_points(points.into_iter().map(|(x, y)| pt(x, y)).collect());
    eng
}

fn sorted(mut v: Vec<usize>) -> Vec<usize> {
    v.sort_unstable();
    v
}

fn assert_disjoint(clusters: &Vec<Vec<usize>>) {
    for i in 0..clusters.len() {
        assert!(!clusters[i].is_empty());
        for j in 0..clusters.len() {
            if i != j {
                for v in &clusters[i] {
                    assert!(!clusters[j].contains(v));
                }
            }
        }
    }
}

#[test]
fn edge_canonicalization() {
    assert_eq!(Edge::new(2, 5), Edge::new(5, 2));
    assert_eq!(Edge::new(0, 0), Edge::new(0, 0));
    assert_eq!(Edge::new(7, 1), Edge(1, 7));
}

#[test]
fn distance_is_euclidean() {
    let a = pt(0.0, 0.0);
    let b = pt(3.0, 4.0);
    assert_eq!(a.distance(&b), (5.0f64).to_bits());
    assert_eq!(b.distance(&a), (5.0f64).to_bits());
}

#[test]
fn single_triangle_metrics() {
    let mut eng = engine_with(vec![(0.0, 0.0), (1.0, 0.0), (0.0, 1.0)]);
    eng.delaunay();
    assert_eq!(eng.triangulation.len(), 3);
    eng.preprocess(Mode::Full, false);
    let tris = &eng.geometry_data.triangles;
    assert_eq!(tris.len(), 1);
    assert_eq!(tris[0].vertices, vec![0, 1, 2]);
    // half the unit square: the shoelace area is exactly representable
    assert_eq!(tris[0].area, Some((0.5f64).to_bits()));
    // the hypotenuse between vertices 1 and 2 is the longest edge
    assert_eq!(tris[0].terminal_edge, Some(Edge(1, 2)));
    // each of the three edges belongs to the one triangle
    for (_, ts) in &eng.geometry_data.edge_to_triangles.pairs {
        assert_eq!(ts, &vec![0]);
    }
    assert_eq!(eng.geometry_data.edge_lengths.pairs.len(), 3);
    assert_eq!(
        eng.geometry_data.edge_lengths.get(Edge(0, 1)),
        Some((1.0f64).to_bits())
    );
}

#[test]
fn graph_only_leaves_placeholder_metadata() {
    let mut eng = engine_with(vec![(0.0, 0.0), (1.0, 0.0), (0.0, 1.0)]);
    eng.delaunay();
    eng.preprocess(Mode::GraphOnly, false);
    let tris = &eng.geometry_data.triangles;
    assert_eq!(tris.len(), 1);
    assert_eq!(tris[0].area, None);
    assert_eq!(tris[0].terminal_edge, None);
    assert!(tris[0].vertices.is_empty());
    assert!(!eng.geometry_data.vertex_connections.rows.is_empty());
}

#[test]
fn metrics_only_has_no_adjacency() {
    let mut eng = engine_with(vec![(0.0, 0.0), (1.0, 0.0), (0.0, 1.0)]);
    eng.delaunay();
    eng.preprocess(Mode::MetricsOnly, false);
    assert!(eng.geometry_data.vertex_connections.rows.is_empty());
    assert_eq!(eng.geometry_data.triangles[0].area, Some((0.5f64).to_bits()));
    // without adjacency the cluster query finds nothing
    let clusters = eng.dtscan(1, (100.0f64).to_bits());
    assert!(clusters.is_empty());
}

#[test]
fn adjacency_is_symmetric() {
    let mut eng = engine_with(vec![
        (0.0, 0.0),
        (1.0, 0.0),
        (1.0, 1.0),
        (0.0, 1.0),
        (10.0, 10.0),
    ]);
    eng.delaunay();
    eng.preprocess(Mode::Full, false);
    let vc = &eng.geometry_data.vertex_connections;
    for (a, neighbors) in &vc.rows {
        for b in neighbors {
            let back = vc.get(*b).expect("neighbour must be a key");
            assert!(back.contains(a));
        }
    }
}

#[test]
fn metrics_do_not_depend_on_mode() {
    let points = vec![(0.0, 0.0), (1.0, 0.0), (1.0, 1.0), (0.0, 1.0), (10.0, 10.0)];
    let mut full = engine_with(points.clone());
    full.delaunay();
    full.preprocess(Mode::Full, false);
    let mut graph = engine_with(points.clone());
    graph.delaunay();
    graph.preprocess(Mode::GraphOnly, false);
    let mut metrics = engine_with(points);
    metrics.delaunay();
    metrics.preprocess(Mode::MetricsOnly, false);
    assert_eq!(full.geometry_data.edge_lengths, graph.geometry_data.edge_lengths);
    assert_eq!(full.geometry_data.edge_lengths, metrics.geometry_data.edge_lengths);
    assert_eq!(
        full.geometry_data.edge_to_triangles,
        graph.geometry_data.edge_to_triangles
    );
    assert_eq!(
        full.geometry_data.edge_to_triangles,
        metrics.geometry_data.edge_to_triangles
    );
}

#[test]
fn sequential_and_concurrent_builds_agree() {
    let points = vec![
        (0.0, 0.0),
        (1.0, 0.0),
        (1.0, 1.0),
        (0.0, 1.0),
        (10.0, 10.0),
        (5.0, -3.0),
        (2.5, 7.0),
        (-4.0, 2.0),
    ];
    for mode in [Mode::Full, Mode::GraphOnly, Mode::MetricsOnly] {
        let mut seq = engine_with(points.clone());
        seq.delaunay();
        seq.preprocess(mode, false);
        let mut par = engine_with(points.clone());
        par.delaunay();
        par.preprocess(mode, true);
        assert_eq!(seq.geometry_data, par.geometry_data);
    }
}

#[test]
fn square_with_outlier_yields_one_cluster() {
    let mut eng = engine_with(vec![
        (0.0, 0.0),
        (1.0, 0.0),
        (1.0, 1.0),
        (0.0, 1.0),
        (10.0, 10.0),
    ]);
    eng.delaunay();
    eng.preprocess(Mode::Full, false);
    let clusters = eng.dtscan(2, (1.5f64).to_bits());
    assert_eq!(clusters.len(), 1);
    assert_eq!(sorted(clusters[0].clone()), vec![0, 1, 2, 3]);
    assert_disjoint(&clusters);
}

#[test]
fn collinear_points_yield_nothing() {
    let mut eng = engine_with(vec![(0.0, 0.0), (1.0, 1.0), (2.0, 2.0)]);
    eng.delaunay();
    assert!(eng.triangulation.is_empty());
    eng.preprocess(Mode::Full, false);
    assert!(eng.geometry_data.triangles.is_empty());
    assert!(eng.geometry_data.edge_lengths.pairs.is_empty());
    assert!(eng.geometry_data.edge_to_triangles.pairs.is_empty());
    assert!(eng.geometry_data.vertex_connections.rows.is_empty());
    let clusters = eng.dtscan(1, (123.0f64).to_bits());
    assert!(clusters.is_empty());
}

#[test]
fn two_far_groups_yield_two_clusters() {
    let mut eng = engine_with(vec![
        (0.0, 0.0),
        (0.1, 0.0),
        (0.0, 0.1),
        (0.1, 0.1),
        (100.0, 0.0),
        (100.1, 0.0),
        (100.0, 0.1),
        (100.1, 0.1),
    ]);
    eng.delaunay();
    eng.preprocess(Mode::Full, false);
    let clusters = eng.dtscan(2, (0.5f64).to_bits());
    assert_eq!(clusters.len(), 2);
    assert_disjoint(&clusters);
    let mut groups: Vec<Vec<usize>> = clusters.iter().map(|c| sorted(c.clone())).collect();
    groups.sort();
    assert_eq!(groups[0], vec![0, 1, 2, 3]);
    assert_eq!(groups[1], vec![4, 5, 6, 7]);
}

#[test]
fn raising_closeness_never_splits_clusters() {
    // two small triangles, far enough apart to be separate at the tight
    // threshold and bridged at the loose one
    let points = vec![
        (0.0, 0.0),
        (1.0, 0.0),
        (0.5, 0.8),
        (3.0, 0.0),
        (4.0, 0.0),
        (3.5, 0.8),
    ];
    let mut eng = engine_with(points);
    eng.delaunay();
    eng.preprocess(Mode::Full, false);
    let tight = eng.dtscan(2, (1.2f64).to_bits());
    let loose = eng.dtscan(2, (3.0f64).to_bits());
    assert_disjoint(&tight);
    assert_disjoint(&loose);
    assert!(!tight.is_empty());
    for c in &tight {
        // every tight cluster survives whole inside some loose cluster
        let host = loose
            .iter()
            .find(|l| c.iter().all(|v| l.contains(v)))
            .expect("a tight cluster must not be split by a looser threshold");
        assert!(host.len() >= c.len());
    }
}

#[test]
fn core_points_are_always_clustered() {
    let mut eng = engine_with(vec![
        (0.0, 0.0),
        (1.0, 0.0),
        (1.0, 1.0),
        (0.0, 1.0),
        (10.0, 10.0),
    ]);
    eng.delaunay();
    eng.preprocess(Mode::Full, false);
    let min_pts = 2;
    let max_close = (1.5f64).to_bits();
    let clusters = eng.dtscan(min_pts, max_close);
    // recompute the core condition directly from the public structure and
    // check that each core vertex appears in exactly one cluster
    for (v, neighbors) in &eng.geometry_data.vertex_connections.rows {
        let close = |n: &usize| {
            eng.geometry_data
                .edge_lengths
                .get(Edge::new(*v, *n))
                .map_or(false, |l| l <= max_close)
        };
        let is_core = neighbors.len() >= min_pts && neighbors.iter().all(close);
        if is_core {
            let homes = clusters.iter().filter(|c| c.contains(v)).count();
            assert_eq!(homes, 1);
        }
    }
}

#[test]
fn set_points_clears_downstream_state() {
    let mut eng = engine_with(vec![(0.0, 0.0), (1.0, 0.0), (0.0, 1.0)]);
    eng.delaunay();
    eng.preprocess(Mode::Full, false);
    assert!(!eng.geometry_data.triangles.is_empty());
    eng.set_points(vec![pt(5.0, 5.0)]);
    assert!(eng.triangulation.is_empty());
    assert!(eng.geometry_data.triangles.is_empty());
    assert!(eng.geometry_data.edge_lengths.pairs.is_empty());
}

#[test]
fn get_edges_walks_the_vertex_cycle() {
    let mut eng = engine_with(vec![(0.0, 0.0), (1.0, 0.0), (0.0, 1.0)]);
    eng.delaunay();
    eng.preprocess(Mode::Full, false);
    let td = &eng.geometry_data.triangles[0];
    let edges = td.get_edges();
    assert_eq!(edges, vec![Edge(0, 1), Edge(1, 2), Edge(0, 2)]);
}

#[test]
fn rebuilding_replaces_the_structure() {
    let mut eng = engine_with(vec![(0.0, 0.0), (1.0, 0.0), (1.0, 1.0), (0.0, 1.0)]);
    eng.delaunay();
    eng.preprocess(Mode::Full, false);
    let first = eng.geometry_data.clone();
    // rebuilding with the same inputs reproduces the same structure
    eng.preprocess(Mode::Full, false);
    assert_eq!(eng.geometry_data, first);
    // rebuilding under another mode replaces it wholesale
    eng.preprocess(Mode::MetricsOnly, true);
    assert!(eng.geometry_data.vertex_connections.rows.is_empty());
    assert_eq!(eng.geometry_data.edge_lengths, first.edge_lengths);
}
