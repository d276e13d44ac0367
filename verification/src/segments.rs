//! Canonical segment sets of a triangle mesh.
//!
//! The overlay builder works on the edge set of each input triangulation,
//! with every edge keyed by its canonical (sorted) vertex pair.  This
//! module extracts that set, remaps it through a vertex unification map,
//! and collects the 1-ring neighborhoods that the caller's relaxation
//! step consumes.

use vstd::prelude::*;

use crate::{Segment, Triangle};

verus! {

broadcast use vstd::seq_lib::lemma_seq_contains_after_push;

/// The three corners are pairwise distinct.
pub open spec fn triangle_nondegenerate(t: Triangle) -> bool {
    t.0 != t.1 && t.1 != t.2 && t.2 != t.0
}

/// All three corners index into a vertex list of length `n`.
pub open spec fn triangle_in_range(t: Triangle, n: int) -> bool {
    t.0 < n && t.1 < n && t.2 < n
}

/// `s` joins two corners of the triangle `t`.
pub open spec fn edge_of_triangle(t: Triangle, s: Segment) -> bool {
    s.connects(t.0 as int, t.1 as int)
        || s.connects(t.1 as int, t.2 as int)
        || s.connects(t.2 as int, t.0 as int)
}

/// `s` joins two corners of some triangle of the mesh.
pub open spec fn edge_of_mesh(triangles: Seq<Triangle>, s: Segment) -> bool {
    exists|k: int| 0 <= k < triangles.len() && edge_of_triangle(triangles[k], s)
}

/// `u` and `v` are distinct corners of a common triangle.
pub open spec fn are_neighbors(triangles: Seq<Triangle>, v: int, u: int) -> bool {
    exists|k: int|
        0 <= k < triangles.len() && triangle_has_vertex(triangles[k], v) && triangle_has_vertex(
            triangles[k],
            u,
        ) && v != u
}

/// `v` is a corner of `t`.
pub open spec fn triangle_has_vertex(t: Triangle, v: int) -> bool {
    t.0 == v || t.1 == v || t.2 == v
}

/// Membership test by linear scan.
pub fn contains_segment(v: &Vec<Segment>, s: Segment) -> (b: bool)
    ensures
        b == v@.contains(s),
{
    let mut i: usize = 0;
    while i < v.len()
        invariant
            i <= v@.len(),
            forall|j: int| 0 <= j < i ==> v@[j] != s,
        decreases v@.len() - i,
    {
        if v[i] == s {
            return true;
        }
        i = i + 1;
    }
    false
}

/// Appends `s` unless it is already present, keeping the list duplicate-free.
fn push_unique(out: &mut Vec<Segment>, s: Segment)
    requires
        old(out)@.no_duplicates(),
    ensures
        final(out)@.no_duplicates(),
        forall|x: Segment| final(out)@.contains(x) <==> (old(out)@.contains(x) || x == s),
{
    if !contains_segment(out, s) {
        out.push(s);
    }
}

/// The canonical edge set of a triangle list: every edge of every triangle,
/// as a sorted vertex pair, listed exactly once.
pub fn get_mesh_segments(triangles: &Vec<Triangle>) -> (out: Vec<Segment>)
    requires
        forall|k: int| 0 <= k < triangles@.len() ==> triangle_nondegenerate(#[trigger] triangles@[k]),
    ensures
        out@.no_duplicates(),
        forall|s: Segment| #[trigger]
            out@.contains(s) <==> (s.is_canonical() && edge_of_mesh(triangles@, s)),
{
    let mut out: Vec<Segment> = Vec::new();
    let mut k: usize = 0;
    while k < triangles.len()
        invariant
            k <= triangles@.len(),
            forall|j: int| 0 <= j < triangles@.len() ==> triangle_nondegenerate(
                #[trigger] triangles@[j],
            ),
            out@.no_duplicates(),
            forall|s: Segment| #[trigger]
                out@.contains(s) <==> (s.is_canonical() && edge_of_mesh(
                    triangles@.take(k as int),
                    s,
                )),
        decreases triangles@.len() - k,
    {
        let t = triangles[k];
        let s1 = Segment::new(t.0, t.1);
        let s2 = Segment::new(t.1, t.2);
        let s3 = Segment::new(t.2, t.0);
        push_unique(&mut out, s1);
        push_unique(&mut out, s2);
        push_unique(&mut out, s3);
        proof {
            let prefix = triangles@.take(k as int);
            let ext = triangles@.take(k as int + 1);
            assert(ext.drop_last() =~= prefix);
            assert(ext.last() == triangles@[k as int]);
            assert forall|s: Segment| #[trigger]
                out@.contains(s) implies (s.is_canonical() && edge_of_mesh(ext, s)) by {
                if s == s1 || s == s2 || s == s3 {
                    assert(edge_of_triangle(ext[k as int], s));
                } else {
                    let j = choose|j: int| 0 <= j < prefix.len() && edge_of_triangle(prefix[j], s);
                    assert(edge_of_triangle(ext[j], s));
                }
            }
            assert forall|s: Segment| s.is_canonical() && edge_of_mesh(ext, s) implies #[trigger]
                out@.contains(s) by {
                let j = choose|j: int| 0 <= j < ext.len() && edge_of_triangle(ext[j], s);
                if j < k as int {
                    assert(edge_of_triangle(prefix[j], s));
                    assert(edge_of_mesh(prefix, s));
                } else {
                    assert(edge_of_triangle(triangles@[k as int], s));
                    assert(s == s1 || s == s2 || s == s3);
                }
            }
        }
        k = k + 1;
    }
    proof {
        assert(triangles@.take(triangles@.len() as int) =~= triangles@);
    }
    out
}

/// The 1-ring neighborhoods of a mesh: for every vertex, the distinct
/// vertices that share a triangle with it.  The caller's Laplacian
/// relaxation averages over exactly these lists.
pub fn collect_neighbors(triangles: &Vec<Triangle>, num_vertices: usize) -> (out: Vec<Vec<usize>>)
    requires
        forall|k: int| 0 <= k < triangles@.len() ==> triangle_in_range(
            #[trigger] triangles@[k],
            num_vertices as int,
        ),
    ensures
        out@.len() == num_vertices,
        forall|v: int| 0 <= v < num_vertices ==> (#[trigger] out@[v])@.no_duplicates(),
        forall|v: int, u: usize|
            0 <= v < num_vertices ==> (#[trigger] out@[v]@.contains(u) <==> are_neighbors(
                triangles@,
                v,
                u as int,
            )),
{
    let mut out: Vec<Vec<usize>> = Vec::new();
    let mut v: usize = 0;
    while v < num_vertices
        invariant
            v <= num_vertices,
            out@.len() == v,
            forall|k: int| 0 <= k < triangles@.len() ==> triangle_in_range(
                #[trigger] triangles@[k],
                num_vertices as int,
            ),
            forall|w: int| 0 <= w < v ==> (#[trigger] out@[w])@.no_duplicates(),
            forall|w: int, u: usize|
                0 <= w < v ==> (#[trigger] out@[w]@.contains(u) <==> are_neighbors(
                    triangles@,
                    w,
                    u as int,
                )),
        decreases num_vertices - v,
    {
        let row = neighbors_of(triangles, v);
        out.push(row);
        v = v + 1;
    }
    out
}

/// The distinct neighbors of a single vertex.
fn neighbors_of(triangles: &Vec<Triangle>, v: usize) -> (row: Vec<usize>)
    ensures
        row@.no_duplicates(),
        forall|u: usize| row@.contains(u) <==> are_neighbors(triangles@, v as int, u as int),
{
    let mut row: Vec<usize> = Vec::new();
    let mut k: usize = 0;
    while k < triangles.len()
        invariant
            k <= triangles@.len(),
            row@.no_duplicates(),
            forall|u: usize|
                row@.contains(u) <==> are_neighbors(triangles@.take(k as int), v as int, u as int),
        decreases triangles@.len() - k,
    {
        let t = triangles[k];
        let here = t.0 == v || t.1 == v || t.2 == v;
        if here {
            if t.0 != v {
                push_unique_usize(&mut row, t.0);
            }
            if t.1 != v {
                push_unique_usize(&mut row, t.1);
            }
            if t.2 != v {
                push_unique_usize(&mut row, t.2);
            }
        }
        proof {
            let prefix = triangles@.take(k as int);
            let ext = triangles@.take(k as int + 1);
            assert(ext.drop_last() =~= prefix);
            assert(ext.last() == triangles@[k as int]);
            assert forall|u: usize| #[trigger]
                row@.contains(u) implies are_neighbors(ext, v as int, u as int) by {
                if are_neighbors(prefix, v as int, u as int) {
                    let j = choose|j: int|
                        0 <= j < prefix.len() && triangle_has_vertex(prefix[j], v as int)
                            && triangle_has_vertex(prefix[j], u as int) && v != u;
                    assert(triangle_has_vertex(ext[j], v as int));
                } else {
                    assert(triangle_has_vertex(ext[k as int], v as int));
                }
            }
            assert forall|u: usize| are_neighbors(ext, v as int, u as int) implies #[trigger]
                row@.contains(u) by {
                let j = choose|j: int|
                    0 <= j < ext.len() && triangle_has_vertex(ext[j], v as int)
                        && triangle_has_vertex(ext[j], u as int) && v != u;
                if j < k as int {
                    assert(triangle_has_vertex(prefix[j], v as int));
                    assert(are_neighbors(prefix, v as int, u as int));
                }
            }
        }
        k = k + 1;
    }
    proof {
        assert(triangles@.take(triangles@.len() as int) =~= triangles@);
    }
    row
}

/// Appends `u` unless it is already present.
fn push_unique_usize(row: &mut Vec<usize>, u: usize)
    requires
        old(row)@.no_duplicates(),
    ensures
        final(row)@.no_duplicates(),
        forall|x: usize| final(row)@.contains(x) <==> (old(row)@.contains(x) || x == u),
{
    let mut i: usize = 0;
    while i < row.len()
        invariant
            row@ == old(row)@,
            old(row)@.no_duplicates(),
            i <= row@.len(),
            forall|j: int| 0 <= j < i ==> row@[j] != u,
        decreases row@.len() - i,
    {
        if row[i] == u {
            return ;
        }
        i = i + 1;
    }
    row.push(u);
}

/// The image of `s` under a vertex unification map is the pair
/// `(mapping[s.lo], mapping[s.hi])`; `r` is its canonical form.
pub open spec fn remaps_to(s: Segment, mapping: Seq<usize>, r: Segment) -> bool {
    r.connects(mapping[s.lo as int] as int, mapping[s.hi as int] as int)
}

/// Rewrites a canonical segment set through a vertex unification map.
/// Segments whose endpoints were merged into one vertex vanish; the rest
/// are re-canonicalized and listed exactly once.
pub fn remap_segments(segs: &Vec<Segment>, mapping: &Vec<usize>) -> (out: Vec<Segment>)
    requires
        forall|k: int| 0 <= k < segs@.len() ==> (#[trigger] segs@[k]).in_range(mapping@.len() as int),
    ensures
        out@.no_duplicates(),
        forall|r: Segment| #[trigger]
            out@.contains(r) <==> (r.is_canonical() && exists|k: int|
                0 <= k < segs@.len() && remaps_to(#[trigger] segs@[k], mapping@, r)),
{
    let mut out: Vec<Segment> = Vec::new();
    let mut k: usize = 0;
    while k < segs.len()
        invariant
            k <= segs@.len(),
            forall|j: int| 0 <= j < segs@.len() ==> (#[trigger] segs@[j]).in_range(
                mapping@.len() as int,
            ),
            out@.no_duplicates(),
            forall|r: Segment| #[trigger]
                out@.contains(r) <==> (r.is_canonical() && exists|j: int|
                    0 <= j < k && remaps_to(#[trigger] segs@[j], mapping@, r)),
        decreases segs@.len() - k,
    {
        let s = segs[k];
        let a = mapping[s.lo];
        let b = mapping[s.hi];
        if a != b {
            let r = Segment::new(a, b);
            push_unique(&mut out, r);
            proof {
                assert(remaps_to(segs@[k as int], mapping@, r));
            }
        }
        proof {
            assert forall|r: Segment| #[trigger]
                out@.contains(r) implies (r.is_canonical() && exists|j: int|
                0 <= j < k as int + 1 && remaps_to(#[trigger] segs@[j], mapping@, r)) by {
                if exists|j: int| 0 <= j < k as int && remaps_to(#[trigger] segs@[j], mapping@, r) {
                    let j = choose|j: int|
                        0 <= j < k as int && remaps_to(#[trigger] segs@[j], mapping@, r);
                    assert(remaps_to(segs@[j], mapping@, r));
                }
            }
        }
        k = k + 1;
    }
    out
}

} // verus!
