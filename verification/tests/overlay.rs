use morphing::dcel::DCEL;
use morphing::refine::{refine_segments, split_segment, SegmentSplit};
use morphing::segments::{collect_neighbors, get_mesh_segments, remap_segments};
use morphing::{MorphError, Segment, ViewMode};

fn seg(a: usize, b: usize) -> Segment {
    Segment::new(a, b)
}

fn has(v: &Vec<Segment>, a: usize, b: usize) -> bool {
    v.iter().any(|s| *s == seg(a, b))
}

/// The four faces of a tetrahedron yield its six unique edges, each in
/// canonical (sorted) form, listed once.
#[test]
fn tetrahedron_segments() {
    let tris = vec![(0, 1, 2), (0, 1, 3), (0, 2, 3), (1, 2, 3)];
    let segs = get_mesh_segments(&tris);
    assert_eq!(segs.len(), 6);
    for (a, b) in [(0, 1), (0, 2), (0, 3), (1, 2), (1, 3), (2, 3)] {
        assert!(has(&segs, a, b));
    }
    for s in &segs {
        assert!(s.lo < s.hi);
    }
}

/// Edge extraction canonicalizes regardless of the winding order given.
#[test]
fn segments_are_canonical() {
    let tris = vec![(5, 3, 1)];
    let segs = get_mesh_segments(&tris);
    assert_eq!(segs.len(), 3);
    assert!(has(&segs, 3, 5));
    assert!(has(&segs, 1, 3));
    assert!(has(&segs, 1, 5));
}

/// In a tetrahedron every vertex is adjacent to the other three.
#[test]
fn tetrahedron_neighbors() {
    let tris = vec![(0, 1, 2), (0, 1, 3), (0, 2, 3), (1, 2, 3)];
    let nbrs = collect_neighbors(&tris, 4);
    assert_eq!(nbrs.len(), 4);
    for v in 0..4 {
        assert_eq!(nbrs[v].len(), 3);
        for u in 0..4 {
            assert_eq!(nbrs[v].contains(&u), u != v);
        }
    }
}

/// Remapping through a unification map re-canonicalizes, merges
/// duplicates and drops segments whose endpoints collapsed.
#[test]
fn remap_drops_collapsed_segments() {
    let segs = vec![seg(0, 1), seg(1, 2), seg(2, 3), seg(0, 3)];
    // vertices 1 and 2 were merged into unified vertex 1
    let mapping = vec![0, 1, 1, 2];
    let out = remap_segments(&segs, &mapping);
    assert_eq!(out.len(), 3);
    assert!(has(&out, 0, 1));
    assert!(has(&out, 1, 2));
    assert!(has(&out, 0, 2));
}

/// Splitting a segment along its recorded interior points yields the
/// consecutive sub-segments in canonical form.
#[test]
fn split_emits_sub_segments() {
    let pieces = split_segment(seg(0, 3), &vec![4, 5]);
    assert_eq!(pieces.len(), 3);
    assert_eq!(pieces[0], seg(0, 4));
    assert_eq!(pieces[1], seg(4, 5));
    assert_eq!(pieces[2], seg(3, 5));
}

/// An interior point that coincides with an endpoint is dropped rather
/// than producing a degenerate sub-segment.
#[test]
fn split_skips_degenerate_pieces() {
    let pieces = split_segment(seg(0, 3), &vec![0, 4]);
    assert_eq!(pieces.len(), 2);
    assert_eq!(pieces[0], seg(0, 4));
    assert_eq!(pieces[1], seg(3, 4));
}

/// Two disjoint triangulations whose arcs never cross refine to the
/// plain union of their edge sets: no segment invented, none lost.
#[test]
fn disjoint_overlay_is_union() {
    let upper = get_mesh_segments(&vec![(0, 1, 2)]);
    let lower = get_mesh_segments(&vec![(3, 4, 5)]);
    let mut splits = Vec::new();
    for s in upper.iter().chain(lower.iter()) {
        splits.push(SegmentSplit { seg: *s, interior: Vec::new() });
    }
    let out = refine_segments(&splits);
    assert_eq!(out.len(), 6);
    for s in upper.iter().chain(lower.iter()) {
        assert!(out.contains(s));
    }
}

/// Overlaying a mesh with itself reproduces its own segment set.
#[test]
fn self_overlay_reproduces_segments() {
    let own = get_mesh_segments(&vec![(0, 1, 2), (0, 1, 3), (0, 2, 3), (1, 2, 3)]);
    let mut splits = Vec::new();
    // both meshes contribute the same canonical segments
    for s in own.iter().chain(own.iter()) {
        splits.push(SegmentSplit { seg: *s, interior: Vec::new() });
    }
    let out = refine_segments(&splits);
    assert_eq!(out.len(), own.len());
    for s in &own {
        assert!(out.contains(s));
    }
}

fn tetrahedron_input() -> (usize, Vec<Segment>, Vec<Vec<usize>>) {
    let segs = get_mesh_segments(&vec![(0, 1, 2), (0, 1, 3), (0, 2, 3), (1, 2, 3)]);
    let orders = vec![vec![1, 2, 3], vec![0, 3, 2], vec![0, 1, 3], vec![0, 2, 1]];
    (4, segs, orders)
}

/// A tetrahedron's rotation system links into twelve half-edges and
/// four triangular faces.
#[test]
fn tetrahedron_dcel() {
    let (n, segs, orders) = tetrahedron_input();
    let d = DCEL::new(n, &segs, &orders).unwrap();
    assert_eq!(d.num_vertices, 4);
    assert_eq!(d.half_edges.len(), 12);
    assert_eq!(d.faces.len(), 4);

    let mut seen = [0usize; 4];
    for f in 0..d.faces.len() {
        let verts = d.get_face_vertices(f);
        assert_eq!(verts.len(), 3);
        assert!(verts[0] != verts[1] && verts[1] != verts[2] && verts[0] != verts[2]);
        for v in &verts {
            seen[*v] += 1;
        }
    }
    // each vertex lies on exactly three of the four faces
    assert_eq!(seen, [3, 3, 3, 3]);

    for (k, s) in segs.iter().enumerate() {
        let he = &d.half_edges[2 * k];
        let tw = &d.half_edges[2 * k + 1];
        assert_eq!(he.origin, s.lo);
        assert_eq!(tw.origin, s.hi);
        assert_eq!(he.twin, 2 * k + 1);
        assert_eq!(tw.twin, 2 * k);
        assert!(he.face.is_some() && he.next.is_some());
    }
}

/// A vertex with fewer than two outgoing half-edges is rejected as an
/// overlay-construction failure.
#[test]
fn dcel_rejects_low_degree() {
    let segs = vec![seg(0, 1)];
    let orders = vec![vec![1], vec![0]];
    let r = DCEL::new(2, &segs, &orders);
    assert_eq!(r.unwrap_err(), MorphError::OverlayConstructionFailure);
}

/// An angular order naming a vertex that is no neighbor is rejected.
#[test]
fn dcel_rejects_inconsistent_orders() {
    let (n, segs, mut orders) = tetrahedron_input();
    orders[0] = vec![1, 2, 0];
    let r = DCEL::new(n, &segs, &orders);
    assert_eq!(r.unwrap_err(), MorphError::OverlayConstructionFailure);
}

/// A duplicated segment is rejected.
#[test]
fn dcel_rejects_duplicate_segments() {
    let (n, mut segs, orders) = tetrahedron_input();
    segs.push(seg(0, 1));
    let r = DCEL::new(n, &segs, &orders);
    assert_eq!(r.unwrap_err(), MorphError::OverlayConstructionFailure);
}

/// An out-of-range segment endpoint is rejected.
#[test]
fn dcel_rejects_out_of_range() {
    let segs = vec![seg(0, 1), seg(1, 7), seg(0, 7)];
    let orders = vec![vec![1, 7], vec![0, 7], vec![0, 1]];
    let r = DCEL::new(3, &segs, &orders);
    assert_eq!(r.unwrap_err(), MorphError::OverlayConstructionFailure);
}

/// Segment construction sorts its endpoints.
#[test]
fn segments_sort_their_endpoints() {
    assert_eq!(seg(7, 2), seg(2, 7));
    assert_eq!(seg(2, 7).lo, 2);
    assert_eq!(seg(2, 7).hi, 7);
}

/// An empty refinement yields an empty overlay edge set.
#[test]
fn empty_overlay_refines_to_nothing() {
    let out = refine_segments(&Vec::new());
    assert!(out.is_empty());
}

/// The empty overlay builds an empty half-edge structure.
#[test]
fn empty_dcel() {
    let d = DCEL::new(0, &Vec::new(), &Vec::new()).unwrap();
    assert_eq!(d.num_vertices, 0);
    assert_eq!(d.half_edges.len(), 0);
    assert_eq!(d.faces.len(), 0);
}

/// The view-mode selector distinguishes its three states.
#[test]
fn view_modes_are_distinct() {
    assert_eq!(ViewMode::Source, ViewMode::Source.clone());
    assert_ne!(ViewMode::Source, ViewMode::Target);
    assert_ne!(ViewMode::Target, ViewMode::Morph);
}
