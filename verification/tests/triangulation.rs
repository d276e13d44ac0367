use delaunator::Point;
use morphing::dcel::DCEL;
use morphing::segments::get_mesh_segments;
use morphing::triangulate::{map_local_triangles, triangulate_dcel, triangulate_face};
use morphing::MorphError;

fn pt(x: f64, y: f64) -> Point {
    Point { x, y }
}

/// A unit square splits into two triangles over its four corners; the
/// local Delaunay indices come back mapped to the global vertex ids.
#[test]
fn square_face_triangulates() {
    let points = vec![pt(0.0, 0.0), pt(1.0, 0.0), pt(1.0, 1.0), pt(0.0, 1.0)];
    let global = vec![10, 11, 12, 13];
    let ts = triangulate_face(&points, &global).unwrap();
    // delaunator documents the local output [0, 2, 1, 0, 3, 2] for this square
    assert_eq!(ts, vec![(10, 12, 11), (10, 13, 12)]);
    for (a, b, c) in &ts {
        assert!(*a != *b && *b != *c && *a != *c);
        for v in [a, b, c] {
            assert!((10..=13).contains(v));
        }
    }
    // both diagonal-sharing triangles together use all four corners
    let mut used = [false; 4];
    for (a, b, c) in &ts {
        for v in [a, b, c] {
            used[*v - 10] = true;
        }
    }
    assert_eq!(used, [true; 4]);
}

/// A face of fewer than three vertices cannot be triangulated.
#[test]
fn tiny_face_is_rejected() {
    let points = vec![pt(0.0, 0.0), pt(1.0, 0.0)];
    let global = vec![0, 1];
    let r = triangulate_face(&points, &global);
    assert_eq!(r.unwrap_err(), MorphError::TriangulationFailure);
}

/// Collinear projected points yield an empty triangulation, not an
/// error: the Delaunay step simply emits no triangles for them.
#[test]
fn collinear_face_yields_no_triangles() {
    let points = vec![pt(0.0, 0.0), pt(1.0, 0.0), pt(2.0, 0.0)];
    let global = vec![4, 5, 6];
    let ts = triangulate_face(&points, &global).unwrap();
    assert_eq!(ts.len(), 0);
}

/// Local triangle corners are rewritten triple by triple.
#[test]
fn local_indices_map_to_global() {
    let local = vec![0, 2, 1, 0, 3, 2];
    let global = vec![7, 8, 9, 5];
    let ts = map_local_triangles(&local, &global).unwrap();
    assert_eq!(ts, vec![(7, 9, 8), (7, 5, 9)]);
}

/// A flat list that is not made of triples is rejected.
#[test]
fn ragged_local_list_is_rejected() {
    let local = vec![0, 1];
    let global = vec![7, 8];
    let r = map_local_triangles(&local, &global);
    assert_eq!(r.unwrap_err(), MorphError::TriangulationFailure);
}

/// A local index past the vertex list is rejected.
#[test]
fn stray_local_index_is_rejected() {
    let local = vec![0, 1, 5];
    let global = vec![7, 8, 9];
    let r = map_local_triangles(&local, &global);
    assert_eq!(r.unwrap_err(), MorphError::TriangulationFailure);
}

fn tetrahedron_dcel() -> DCEL {
    let segs = get_mesh_segments(&vec![(0, 1, 2), (0, 1, 3), (0, 2, 3), (1, 2, 3)]);
    let orders = vec![vec![1, 2, 3], vec![0, 3, 2], vec![0, 1, 3], vec![0, 2, 1]];
    DCEL::new(4, &segs, &orders).unwrap()
}

/// Triangulating a tetrahedron overlay reproduces one triangle per
/// face, each built from that face's own vertices.
#[test]
fn tetrahedron_overlay_triangulates() {
    let d = tetrahedron_dcel();
    let mut projections = Vec::new();
    for f in 0..d.faces.len() {
        let verts = d.get_face_vertices(f);
        assert_eq!(verts.len(), 3);
        projections.push(vec![pt(0.0, 0.0), pt(1.0, 0.0), pt(0.3, 0.9)]);
    }
    let ts = triangulate_dcel(&d, &projections).unwrap();
    assert_eq!(ts.len(), 4);
    for (f, (a, b, c)) in ts.iter().enumerate() {
        let mut face: Vec<usize> = d.get_face_vertices(f);
        let mut tri = vec![*a, *b, *c];
        face.sort_unstable();
        tri.sort_unstable();
        assert_eq!(face, tri);
    }
}

/// A cube graph overlays into six quadrilateral faces; each splits into
/// two triangles over its own four corners.
#[test]
fn cube_quad_faces_triangulate() {
    let segs: Vec<morphing::Segment> =
        [(0, 1), (1, 2), (2, 3), (0, 3), (4, 5), (5, 6), (6, 7), (4, 7), (0, 4), (1, 5), (2, 6), (3, 7)]
            .iter()
            .map(|&(a, b)| morphing::Segment::new(a, b))
            .collect();
    let orders = vec![
        vec![1, 4, 3],
        vec![0, 2, 5],
        vec![1, 3, 6],
        vec![0, 7, 2],
        vec![0, 5, 7],
        vec![4, 1, 6],
        vec![5, 2, 7],
        vec![3, 4, 6],
    ];
    let d = DCEL::new(8, &segs, &orders).unwrap();
    assert_eq!(d.half_edges.len(), 24);
    assert_eq!(d.faces.len(), 6);

    let mut projections = Vec::new();
    for f in 0..d.faces.len() {
        assert_eq!(d.get_face_vertices(f).len(), 4);
        projections.push(vec![pt(0.0, 0.0), pt(1.0, 0.0), pt(1.0, 1.0), pt(0.0, 1.0)]);
    }
    let ts = triangulate_dcel(&d, &projections).unwrap();
    assert_eq!(ts.len(), 12);
    for (f, pair) in ts.chunks(2).enumerate() {
        let face = d.get_face_vertices(f);
        for (a, b, c) in pair {
            for v in [a, b, c] {
                assert!(face.contains(v));
            }
        }
    }
}

/// A projection that misses a face vertex is rejected.
#[test]
fn mismatched_projection_is_rejected() {
    let d = tetrahedron_dcel();
    let mut projections = Vec::new();
    for _ in 0..d.faces.len() {
        projections.push(vec![pt(0.0, 0.0), pt(1.0, 0.0)]);
    }
    let r = triangulate_dcel(&d, &projections);
    assert_eq!(r.unwrap_err(), MorphError::TriangulationFailure);
}
