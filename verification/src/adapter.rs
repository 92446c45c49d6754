//! Adapters around the outside primitives: the Delaunay triangulation and the
//! concurrent computation of per-triangle records.

use vstd::prelude::*;
use rayon::iter::IntoParallelIterator;
use rayon::iter::ParallelIterator;
use crate::geometry::TriRecord;
use crate::geometry::record_model;
use crate::geometry::triangle_record;
use crate::geometry::raws;
use crate::primitives::Point2D;

verus! {

/// The flat triangle list of the Delaunay triangulation of a point sequence:
/// one vertex-index triple per triangle, a function of the coordinate
/// sequence alone.
pub uninterp spec fn delaunay_triangles(pts: Seq<delaunator::Point>) -> Seq<usize>;

/// Relies on delaunator's `triangulate`: its `triangles` field is a flat list
/// of indices into the input slice, grouped in threes (one triple per
/// triangle), and degenerate inputs (fewer than three points, or all points
/// collinear) give an empty triangle list.
#[verifier::external_body]
pub(crate) fn triangulate_points(points: &Vec<Point2D>) -> (r: Vec<usize>)
    ensures
        r@ == delaunay_triangles(raws(points@)),
        r@.len() % 3 == 0,
        forall|i: int| 0 <= i < r@.len() ==> (#[trigger] r@[i]) < points@.len(),
        points@.len() < 3 ==> r@.len() == 0,
{
    let raw: Vec<delaunator::Point> = points.iter().map(|p| p.raw.clone()).collect();
    delaunator::triangulate(&raw).triangles
}

/// The record of triangle `i` of the flat index list.
pub(crate) fn record_at(points: &Vec<Point2D>, tris: &Vec<usize>, i: usize) -> (r: TriRecord)
    requires
        3 * i + 3 <= tris@.len(),
        forall|j: int| 0 <= j < tris@.len() ==> (#[trigger] tris@[j]) < points@.len(),
    ensures
        r == record_model(
            raws(points@),
            tris@[3 * i as int],
            tris@[3 * i as int + 1],
            tris@[3 * i as int + 2],
        ),
{
    let _len: usize = tris.len();
    let a = tris[3 * i];
    let b = tris[3 * i + 1];
    let c = tris[3 * i + 2];
    triangle_record(points, a, b, c)
}

/// Relies on rayon's parallel iterator over an index range: `map` applies its
/// closure — a call of the verified `record_at` — to every index, and
/// `collect` of an indexed parallel iterator into a `Vec` keeps index order.
/// The workers therefore hand back exactly the per-triangle records, in
/// triangle order.
#[verifier::external_body]
pub(crate) fn par_triangle_records(points: &Vec<Point2D>, tris: &Vec<usize>, count: usize) -> (r: Vec<
    TriRecord,
>)
    requires
        3 * count <= tris@.len(),
        forall|j: int| 0 <= j < tris@.len() ==> (#[trigger] tris@[j]) < points@.len(),
    ensures
        r@.len() == count,
        forall|k: int|
            0 <= k < count ==> (#[trigger] r@[k]) == record_model(
                raws(points@),
                tris@[3 * k],
                tris@[3 * k + 1],
                tris@[3 * k + 2],
            ),
{
    (0..count).into_par_iter().map(|i| record_at(points, tris, i)).collect()
}

} // verus!
