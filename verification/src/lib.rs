//! Combinatorial core of a sphere-based mesh morphing pipeline.
//!
//! Two closed genus-0 meshes are parametrized onto the unit sphere, their
//! triangulations are overlaid into one common refinement of both, and the
//! overlay faces are triangulated again; the resulting supermesh drives a
//! per-vertex interpolation between the two originals.
//!
//! The numeric steps of that pipeline (radial projection and relaxation,
//! great-circle arc intersection, angular sorting around a vertex, planar
//! projection of a face, barycentric relocation) are floating-point work
//! and are supplied by the caller.  This crate holds, and verifies, the
//! combinatorial steps they feed: canonical segment sets of a triangle
//! mesh, refinement of segments by recorded interior points, the half-edge
//! (DCEL) structure with its twin/next links and face discovery, and the
//! mapping of per-face Delaunay triangulations back to global vertex
//! indices.

use vstd::prelude::*;

pub mod segments;
pub mod refine;
pub mod dcel;
pub mod triangulate;

verus! {

/// A triangle as a triple of vertex indices.
pub type Triangle = (usize, usize, usize);

/// An unordered pair of distinct vertex indices, canonicalized so that
/// `lo < hi`.  Segments are the edge-merging key of the overlay builder.
#[derive(Clone, Copy, Debug, PartialEq, Eq, Structural)]
pub struct Segment {
    pub lo: usize,
    pub hi: usize,
}

/// The recoverable failures of morph construction.  All of them surface as
/// values; no verified function of this crate panics.
#[derive(Clone, Copy, Debug, PartialEq, Eq, Structural)]
pub enum MorphError {
    /// A zero-area or collinear input reached a barycentric or normal
    /// computation.
    DegenerateGeometry,
    /// A vertex with fewer than two outgoing half-edges, an angular order
    /// inconsistent with the segment set, or a `next`-cycle that failed to
    /// close.
    OverlayConstructionFailure,
    /// A face whose boundary cannot be triangulated.
    TriangulationFailure,
    /// No enclosing triangle was found for an overlay vertex.
    RelocationFailure,
}

/// Which object the caller is currently looking at.
#[derive(Debug, Clone, PartialEq, Eq, Structural)]
pub enum ViewMode {
    Source,
    Target,
    Morph,
}

impl Segment {
    /// `lo < hi`: the pair is in its canonical, sorted form.
    pub open spec fn is_canonical(self) -> bool {
        self.lo < self.hi
    }

    /// The segment joins vertices `i` and `j`, in either order.
    pub open spec fn connects(self, i: int, j: int) -> bool {
        (self.lo == i && self.hi == j) || (self.lo == j && self.hi == i)
    }

    /// Both endpoints are valid indices into a vertex list of length `n`.
    pub open spec fn in_range(self, n: int) -> bool {
        self.lo < n && self.hi < n
    }

    /// The canonical form of the unordered pair `{i, j}`.
    pub open spec fn canon(i: usize, j: usize) -> Segment {
        if i < j {
            Segment { lo: i, hi: j }
        } else {
            Segment { lo: j, hi: i }
        }
    }

    /// The canonical segment joining two distinct vertices.
    pub fn new(i: usize, j: usize) -> (s: Segment)
        requires
            i != j,
        ensures
            s == Segment::canon(i, j),
            s.is_canonical(),
            s.connects(i as int, j as int),
    {
        if i < j {
            Segment { lo: i, hi: j }
        } else {
            Segment { lo: j, hi: i }
        }
    }
}

} // verus!
