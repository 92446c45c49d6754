//! Geometric primitives: 2-D points and unordered vertex-index pairs.
//!
//! Coordinates live inside the triangulation primitive's point type, which is
//! opaque here; every metric derived from them (an edge length, a triangle
//! area) is carried as the IEEE-754 bit pattern of the non-negative result.
//! For non-negative doubles the unsigned order of bit patterns agrees with the
//! numeric order, so such codes are compared as plain integers.

use vstd::prelude::*;
use geo::Area;
use geo::Vector2DOps;

verus! {

/// An unordered pair of vertex indices, stored with the smaller index first,
/// so that the pair can serve as a canonical map key.
#[derive(Debug, Clone, Copy, Hash, PartialEq, Eq, Structural)]
pub struct Edge(pub usize, pub usize);

/// The canonical form of the vertex pair `(a, b)`: smaller index first.
pub open spec fn canon_edge(a: usize, b: usize) -> Edge {
    if a <= b {
        Edge(a, b)
    } else {
        Edge(b, a)
    }
}

impl Edge {
    /// Builds the canonical edge between vertices `a` and `b`.
    pub fn new(a: usize, b: usize) -> (e: Edge)
        ensures
            e == canon_edge(a, b),
    {
        if a <= b {
            Edge(a, b)
        } else {
            Edge(b, a)
        }
    }
}

/// Canonicalization makes edge construction order-insensitive: the pair
/// `(a, b)` and the pair `(b, a)` name the same edge.
pub proof fn lemma_edge_canonical(a: usize, b: usize)
    ensures
        canon_edge(a, b) == canon_edge(b, a),
{
}

/// The coordinate pair of the triangulation primitive, used opaquely as the
/// carrier of a point's position.
#[verifier::external_type_specification]
#[verifier::external_body]
pub struct ExDelaunatorPoint(delaunator::Point);

/// Relies on the derived `Clone` of delaunator's point: a plain field-wise
/// copy, so the clone is the same coordinate pair.
pub assume_specification[ <delaunator::Point as core::clone::Clone>::clone ](
    p: &delaunator::Point,
) -> (r: delaunator::Point)
    ensures
        r == *p,
;

/// A 2-D input point: a thin carrier of the triangulation primitive's
/// coordinate pair.
#[derive(Debug, Clone)]
pub struct Point2D {
    pub raw: delaunator::Point,
}

/// The length code of the segment between the positions `a` and `b`: the bit
/// pattern of their Euclidean distance, a function of the two coordinate
/// pairs alone.
pub uninterp spec fn distance_code(a: delaunator::Point, b: delaunator::Point) -> u64;

/// The area code of the triangle with corners `a`, `b` and `c`: the bit
/// pattern of half the absolute shoelace determinant, a function of the three
/// coordinate pairs alone.
pub uninterp spec fn area_code(
    a: delaunator::Point,
    b: delaunator::Point,
    c: delaunator::Point,
) -> u64;

impl Point2D {
    /// Wraps a raw coordinate pair.
    pub fn new(raw: delaunator::Point) -> (p: Point2D)
        ensures
            p.raw == raw,
    {
        Point2D { raw }
    }

    /// Relies on geo's coordinate subtraction and
    /// `Vector2DOps::magnitude_squared` (component-wise difference, then the
    /// sum of squares), finished by `f64::sqrt`. Every one of those steps is
    /// an IEEE-754 operation with an exactly specified, correctly rounded
    /// result, so the distance depends on the two coordinate pairs alone and
    /// is non-negative; it is handed back as its bit pattern, whose unsigned
    /// order is the numeric order of the distances.
    #[verifier::external_body]
    pub fn distance(&self, other: &Point2D) -> (r: u64)
        ensures
            r == distance_code(self.raw, other.raw),
    {
        let a = geo::Coord { x: self.raw.x, y: self.raw.y };
        let b = geo::Coord { x: other.raw.x, y: other.raw.y };
        (a - b).magnitude_squared().sqrt().to_bits()
    }
}

/// Relies on `geo::Area` for `geo::Triangle`: half the absolute shoelace
/// determinant of the three corners, which depends on the coordinates alone
/// and is non-negative; the result is handed back as its bit pattern.
#[verifier::external_body]
pub(crate) fn triangle_area(a: &Point2D, b: &Point2D, c: &Point2D) -> (r: u64)
    ensures
        r == area_code(a.raw, b.raw, c.raw),
{
    let t = geo::Triangle::new(
        geo::Coord { x: a.raw.x, y: a.raw.y },
        geo::Coord { x: b.raw.x, y: b.raw.y },
        geo::Coord { x: c.raw.x, y: c.raw.y },
    );
    t.unsigned_area().to_bits()
}

} // verus!
