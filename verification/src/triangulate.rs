//! Triangulation of overlay faces.
//!
//! An overlay face is a closed loop of three or more vertices on the
//! sphere.  The caller derives a face normal, builds a planar basis and
//! projects the face's vertices to 2D (numeric steps); a Delaunay
//! triangulation of the projected points then splits the face, and its
//! local indices are mapped back to the overlay's global vertex indices.

use vstd::prelude::*;

use crate::dcel::{face_cycle_len, face_vertices_of, DCEL};
use crate::{MorphError, Triangle};

verus! {

/// A 2D point handed to the Delaunay triangulation; its coordinates are
/// produced and consumed by the caller's projection step.
#[verifier::external_type_specification]
#[verifier::external_body]
pub struct ExPoint(delaunator::Point);

/// The flat corner-index list that the Delaunay triangulation returns
/// for a point list; a function of the coordinates alone.
pub uninterp spec fn delaunay_of(points: Seq<delaunator::Point>) -> Seq<usize>;

/// Relies on delaunator::triangulate: the `triangles` of the returned
/// triangulation list point indices in triples — every entry indexes
/// the given slice, one triple per emitted triangle, and the list is
/// empty when the input is collinear or too small.
#[verifier::external_body]
fn delaunay_triangles(points: &Vec<delaunator::Point>) -> (r: Vec<usize>)
    ensures
        r@ == delaunay_of(points@),
        r@.len() % 3 == 0,
        forall|i: int| 0 <= i < r@.len() ==> #[trigger] r@[i] < points@.len(),
{
    delaunator::triangulate(points.as_slice()).triangles
}

/// The triangle that local indices `3j..3j+2` of a flat index list
/// select from the global vertex list.
pub open spec fn mapped_triangle(local: Seq<usize>, global: Seq<usize>, j: int) -> Triangle {
    (global[local[3 * j] as int], global[local[3 * j + 1] as int], global[local[3 * j + 2] as int])
}

/// The whole flat index list rewritten into global triangles.
pub open spec fn mapped_list(local: Seq<usize>, global: Seq<usize>) -> Seq<Triangle> {
    Seq::new(local.len() / 3, |j: int| mapped_triangle(local, global, j))
}

/// The triangles one face contributes: its projection's Delaunay output
/// mapped over the face's own vertex list.
pub open spec fn face_mapped(d: DCEL, proj: Seq<delaunator::Point>, f: int) -> Seq<Triangle> {
    mapped_list(delaunay_of(proj), face_vertices_of(d, f))
}

/// The supermesh: the concatenation, in face order, of what the first
/// `f` faces contribute.
pub open spec fn concat_face_triangles(
    d: DCEL,
    projs: Seq<Vec<delaunator::Point>>,
    f: int,
) -> Seq<Triangle>
    decreases f,
{
    if f <= 0 {
        Seq::empty()
    } else {
        concat_face_triangles(d, projs, f - 1) + face_mapped(d, projs[f - 1]@, f - 1)
    }
}

/// Rewrites a flat list of local triangle corners into global triangles.
/// Fails exactly when the list is not made of triples or some local
/// index misses the global vertex list.
pub fn map_local_triangles(local: &Vec<usize>, global: &Vec<usize>) -> (r: Result<
    Vec<Triangle>,
    MorphError,
>)
    ensures
        match r {
            Ok(ts) => {
                &&& local@.len() % 3 == 0
                &&& forall|i: int| 0 <= i < local@.len() ==> #[trigger] local@[i] < global@.len()
                &&& ts@.len() * 3 == local@.len()
                &&& forall|j: int|
                    0 <= j < ts@.len() ==> #[trigger] ts@[j] == mapped_triangle(
                        local@,
                        global@,
                        j,
                    )
            },
            Err(e) => {
                &&& e == MorphError::TriangulationFailure
                &&& (local@.len() % 3 != 0 || exists|i: int|
                    0 <= i < local@.len() && #[trigger] local@[i] >= global@.len())
            },
        },
{
    if local.len() % 3 != 0 {
        return Err(MorphError::TriangulationFailure);
    }
    let mut i: usize = 0;
    while i < local.len()
        invariant
            i <= local@.len(),
            forall|t: int| 0 <= t < i ==> #[trigger] local@[t] < global@.len(),
        decreases local@.len() - i,
    {
        if local[i] >= global.len() {
            return Err(MorphError::TriangulationFailure);
        }
        i = i + 1;
    }
    let count = local.len() / 3;
    proof {
        assert(3 * (count as int) == local@.len());
    }
    let mut ts: Vec<Triangle> = Vec::new();
    let mut j: usize = 0;
    while j < count
        invariant
            count == local@.len() / 3,
            local@.len() % 3 == 0,
            3 * (count as int) == local@.len(),
            local@.len() <= usize::MAX,
            forall|t: int| 0 <= t < local@.len() ==> #[trigger] local@[t] < global@.len(),
            j <= count,
            ts@.len() == j,
            forall|t: int| 0 <= t < j ==> #[trigger] ts@[t] == mapped_triangle(local@, global@, t),
        decreases count - j,
    {
        let a = local[3 * j];
        let b = local[3 * j + 1];
        let c = local[3 * j + 2];
        ts.push((global[a], global[b], global[c]));
        j = j + 1;
    }
    Ok(ts)
}

/// Triangulates one projected overlay face.  The caller projects the
/// face's vertices to the plane in boundary order; `global` gives, in
/// the same order, the overlay index of each projected point.  Succeeds
/// exactly on faces of at least three vertices; the result is exactly
/// the Delaunay output of the projected points rewritten to global
/// indices, so every emitted corner is one of the face's own vertices.
pub fn triangulate_face(points: &Vec<delaunator::Point>, global: &Vec<usize>) -> (r: Result<
    Vec<Triangle>,
    MorphError,
>)
    requires
        points@.len() == global@.len(),
    ensures
        match r {
            Ok(ts) => {
                &&& points@.len() >= 3
                &&& ts@ == mapped_list(delaunay_of(points@), global@)
                &&& forall|j: int|
                    0 <= j < ts@.len() ==> global@.contains((#[trigger] ts@[j]).0)
                        && global@.contains(ts@[j].1) && global@.contains(ts@[j].2)
            },
            Err(e) => e == MorphError::TriangulationFailure && points@.len() < 3,
        },
{
    if points.len() < 3 {
        return Err(MorphError::TriangulationFailure);
    }
    let local = delaunay_triangles(points);
    match map_local_triangles(&local, global) {
        Ok(ts) => {
            proof {
                assert(ts@ =~= mapped_list(delaunay_of(points@), global@));
                assert forall|j: int|
                    0 <= j < ts@.len() implies global@.contains((#[trigger] ts@[j]).0)
                    && global@.contains(ts@[j].1) && global@.contains(ts@[j].2) by {
                    assert(ts@[j] == mapped_triangle(local@, global@, j));
                    assert(0 <= 3 * j && 3 * j + 2 < local@.len());
                    assert(global@[local@[3 * j] as int] == ts@[j].0);
                    assert(global@[local@[3 * j + 1] as int] == ts@[j].1);
                    assert(global@[local@[3 * j + 2] as int] == ts@[j].2);
                }
            }
            Ok(ts)
        },
        Err(_) => {
            proof {
                assert(false);
            }
            Err(MorphError::TriangulationFailure)
        },
    }
}

/// All three corners of `t` are vertices of face `g`.
pub open spec fn triangle_in_face(d: DCEL, t: Triangle, g: int) -> bool {
    face_vertices_of(d, g).contains(t.0) && face_vertices_of(d, g).contains(t.1)
        && face_vertices_of(d, g).contains(t.2)
}

/// `t` stays inside a single overlay face.
pub open spec fn triangle_in_some_face(d: DCEL, t: Triangle) -> bool {
    exists|g: int| 0 <= g < d.faces@.len() && #[trigger] triangle_in_face(d, t, g)
}

/// The accumulated supermesh triangles are valid: every corner is an
/// overlay vertex index, and each triangle stays inside one face.
#[verifier::opaque]
pub open spec fn triangles_ok(d: DCEL, ts: Seq<Triangle>) -> bool {
    &&& forall|j: int|
        0 <= j < ts.len() ==> crate::segments::triangle_in_range(
            #[trigger] ts[j],
            d.num_vertices as int,
        )
    &&& forall|j: int|
        0 <= j < ts.len() ==> triangle_in_some_face(d, #[trigger] ts[j])
}

/// An empty triangle list is valid.
proof fn lemma_triangles_ok_empty(d: DCEL)
    ensures
        triangles_ok(d, Seq::empty()),
{
    reveal(triangles_ok);
}

/// Appending the triangles cut from one face keeps the list valid.
proof fn lemma_append_triangles(
    d: DCEL,
    verts: Seq<usize>,
    before: Seq<Triangle>,
    tsf: Seq<Triangle>,
    ts: Seq<Triangle>,
    f: int,
)
    requires
        triangles_ok(d, before),
        ts == before + tsf,
        0 <= f < d.faces@.len(),
        verts == face_vertices_of(d, f),
        forall|i: int| 0 <= i < verts.len() ==> (#[trigger] verts[i]) < d.num_vertices,
        forall|j: int|
            0 <= j < tsf.len() ==> verts.contains((#[trigger] tsf[j]).0) && verts.contains(
                tsf[j].1,
            ) && verts.contains(tsf[j].2),
    ensures
        triangles_ok(d, ts),
{
    reveal(triangles_ok);
    assert forall|j: int|
        0 <= j < ts.len() implies crate::segments::triangle_in_range(
        #[trigger] ts[j],
        d.num_vertices as int,
    ) && triangle_in_some_face(d, ts[j]) by {
        if j < before.len() {
            assert(ts[j] == before[j]);
            assert(triangle_in_some_face(d, before[j]));
        } else {
            let jj = j - before.len();
            assert(ts[j] == tsf[jj]);
            assert(verts.contains(tsf[jj].0) && verts.contains(tsf[jj].1) && verts.contains(
                tsf[jj].2,
            ));
            let i0 = choose|i: int| 0 <= i < verts.len() && verts[i] == tsf[jj].0;
            let i1 = choose|i: int| 0 <= i < verts.len() && verts[i] == tsf[jj].1;
            let i2 = choose|i: int| 0 <= i < verts.len() && verts[i] == tsf[jj].2;
            assert(verts[i0] < d.num_vertices);
            assert(verts[i1] < d.num_vertices);
            assert(verts[i2] < d.num_vertices);
            assert(triangle_in_face(d, ts[j], f));
        }
    }
}

/// Unfolds `triangles_ok` for the final contract.
proof fn lemma_triangles_ok_unpack(d: DCEL, ts: Seq<Triangle>)
    requires
        triangles_ok(d, ts),
    ensures
        forall|j: int|
            0 <= j < ts.len() ==> crate::segments::triangle_in_range(
                #[trigger] ts[j],
                d.num_vertices as int,
            ),
        forall|j: int|
            0 <= j < ts.len() ==> triangle_in_some_face(d, #[trigger] ts[j]),
{
    reveal(triangles_ok);
}

/// Triangulates a single overlay face from its projection and appends
/// exactly that face's mapped Delaunay triangles.  Succeeds exactly
/// when the face has at least three vertices and the projection
/// matches them one-for-one.
fn triangulate_one_face(
    dcel: &DCEL,
    proj: &Vec<delaunator::Point>,
    f: usize,
    ts: &mut Vec<Triangle>,
) -> (r: Result<(), MorphError>)
    requires
        dcel.wf(),
        f < dcel.faces@.len(),
        triangles_ok(*dcel, old(ts)@),
    ensures
        match r {
            Ok(u) => {
                &&& triangles_ok(*dcel, final(ts)@)
                &&& final(ts)@ == old(ts)@ + face_mapped(*dcel, proj@, f as int)
                &&& proj@.len() == face_cycle_len(*dcel, f as int)
                &&& face_cycle_len(*dcel, f as int) >= 3
            },
            Err(e) => e == MorphError::TriangulationFailure && final(ts)@ == old(ts)@ && (
            proj@.len() != face_cycle_len(*dcel, f as int) || face_cycle_len(*dcel, f as int) < 3),
        },
{
    let verts = dcel.get_face_vertices(f);
    if verts.len() < 3 {
        return Err(MorphError::TriangulationFailure);
    }
    if proj.len() != verts.len() {
        return Err(MorphError::TriangulationFailure);
    }
    match triangulate_face(proj, &verts) {
        Ok(mut tsf) => {
            let ghost before = ts@;
            let ghost cut = tsf@;
            ts.append(&mut tsf);
            proof {
                lemma_append_triangles(*dcel, verts@, before, cut, ts@, f as int);
                assert(cut == face_mapped(*dcel, proj@, f as int)) by {
                    assert(verts@ == face_vertices_of(*dcel, f as int));
                }
            }
            Ok(())
        },
        Err(_) => {
            proof {
                assert(false);
            }
            Err(MorphError::TriangulationFailure)
        },
    }
}

/// Triangulates every face of the overlay.  `projections[f]` holds the
/// planar projection of face `f`'s vertices in boundary order, as
/// returned by `get_face_vertices`.  Succeeds exactly when every face
/// has at least three vertices and its projection matches them
/// one-for-one; the result is exactly the concatenation, in face
/// order, of each face's mapped Delaunay triangles, its corners are
/// valid overlay vertex indices, and every triangle stays inside one
/// face.
pub fn triangulate_dcel(dcel: &DCEL, projections: &Vec<Vec<delaunator::Point>>) -> (r: Result<
    Vec<Triangle>,
    MorphError,
>)
    requires
        dcel.wf(),
        projections@.len() == dcel.faces@.len(),
    ensures
        match r {
            Ok(ts) => {
                &&& ts@ == concat_face_triangles(*dcel, projections@, dcel.faces@.len() as int)
                &&& forall|f: int|
                    0 <= f < dcel.faces@.len() ==> (#[trigger] projections@[f])@.len()
                        == face_cycle_len(*dcel, f) && face_cycle_len(*dcel, f) >= 3
                &&& forall|j: int|
                    0 <= j < ts@.len() ==> crate::segments::triangle_in_range(
                        #[trigger] ts@[j],
                        dcel.num_vertices as int,
                    )
                &&& forall|j: int|
                    0 <= j < ts@.len() ==> triangle_in_some_face(*dcel, #[trigger] ts@[j])
            },
            Err(e) => {
                &&& e == MorphError::TriangulationFailure
                &&& exists|f: int|
                    0 <= f < dcel.faces@.len() && ((#[trigger] projections@[f])@.len()
                        != face_cycle_len(*dcel, f) || face_cycle_len(*dcel, f) < 3)
            },
        },
{
    let mut ts: Vec<Triangle> = Vec::new();
    proof {
        lemma_triangles_ok_empty(*dcel);
        assert(ts@ =~= Seq::<Triangle>::empty());
        assert(ts@ =~= concat_face_triangles(*dcel, projections@, 0));
    }
    let nfaces = dcel.faces.len();
    let mut f: usize = 0;
    while f < nfaces
        invariant
            dcel.wf(),
            projections@.len() == dcel.faces@.len(),
            nfaces == dcel.faces@.len(),
            f <= nfaces,
            forall|g: int|
                0 <= g < f ==> (#[trigger] projections@[g])@.len() == face_cycle_len(*dcel, g)
                    && face_cycle_len(*dcel, g) >= 3,
            triangles_ok(*dcel, ts@),
            ts@ == concat_face_triangles(*dcel, projections@, f as int),
        decreases nfaces - f,
    {
        let ghost before = ts@;
        match triangulate_one_face(dcel, &projections[f], f, &mut ts) {
            Ok(_) => {},
            Err(e) => {
                return Err(e);
            },
        }
        proof {
            assert(ts@ == before + face_mapped(*dcel, projections@[f as int]@, f as int));
            assert(concat_face_triangles(*dcel, projections@, f as int + 1)
                == concat_face_triangles(*dcel, projections@, f as int) + face_mapped(
                *dcel,
                projections@[f as int]@,
                f as int,
            ));
        }
        f = f + 1;
    }
    proof {
        lemma_triangles_ok_unpack(*dcel, ts@);
    }
    Ok(ts)
}

} // verus!
