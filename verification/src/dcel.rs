//! The half-edge (DCEL) structure of the overlay.
//!
//! Every overlay segment becomes a twin pair of half-edges.  The caller
//! supplies, for every vertex, its neighbors sorted by angle in the
//! vertex's tangent plane (a numeric step); linking then follows the
//! standard rotation rule: the half-edge arriving at a vertex just
//! before a departing half-edge, in that angular order, continues into
//! it.  Because that rule makes `next` a bijection on the half-edges,
//! every `next`-walk closes, and the faces discovered by walking
//! partition the half-edges.

use vstd::prelude::*;

use crate::{MorphError, Segment};

verus! {

broadcast use vstd::seq_lib::lemma_seq_contains_after_push;

/// One directed half of an overlay segment.
#[derive(Clone, Copy, Debug, PartialEq, Eq, Structural)]
pub struct HalfEdge {
    /// The vertex this half-edge leaves.
    pub origin: usize,
    /// The oppositely directed half of the same segment.
    pub twin: usize,
    /// The face this half-edge borders, once discovered.
    pub face: Option<usize>,
    /// The half-edge that continues this one around its face, once linked.
    pub next: Option<usize>,
}

/// A face, represented by one of the half-edges on its boundary.
#[derive(Clone, Copy, Debug, PartialEq, Eq, Structural)]
pub struct Face {
    pub edge: usize,
}

/// A doubly connected edge list over `num_vertices` unified overlay
/// vertices.  Vertex positions stay with the caller; the structure holds
/// the combinatorial links only.
#[derive(Clone, Debug)]
pub struct DCEL {
    pub num_vertices: usize,
    pub half_edges: Vec<HalfEdge>,
    pub faces: Vec<Face>,
}

/// The successor of `e` around its face.
pub open spec fn next_of(hs: Seq<HalfEdge>, e: int) -> int {
    hs[e].next.unwrap() as int
}

/// Every half-edge is linked: `next` is present, in range, and no two
/// half-edges continue into the same one.
pub open spec fn next_structure(hs: Seq<HalfEdge>) -> bool {
    &&& forall|e: int| 0 <= e < hs.len() ==> (#[trigger] hs[e]).next is Some
    &&& forall|e: int| 0 <= e < hs.len() ==> 0 <= #[trigger] next_of(hs, e) < hs.len()
    &&& forall|e1: int, e2: int|
        0 <= e1 < hs.len() && 0 <= e2 < hs.len() && #[trigger] next_of(hs, e1) == #[trigger] next_of(
            hs,
            e2,
        ) ==> e1 == e2
}

/// The `k`-th half-edge of the `next`-walk starting at `s`.
pub open spec fn iter_next(hs: Seq<HalfEdge>, s: int, k: nat) -> int
    decreases k,
{
    if k == 0 {
        s
    } else {
        next_of(hs, iter_next(hs, s, (k - 1) as nat))
    }
}

/// A `next`-walk never leaves the half-edge range.
pub proof fn lemma_iter_in_range(hs: Seq<HalfEdge>, s: int, k: nat)
    requires
        next_structure(hs),
        0 <= s < hs.len(),
    ensures
        0 <= iter_next(hs, s, k) < hs.len(),
    decreases k,
{
    if k > 0 {
        lemma_iter_in_range(hs, s, (k - 1) as nat);
    }
}

/// Injectivity walks backwards: two equal walk positions pull the
/// starting point onto the walk again.
pub proof fn lemma_iter_backstep(hs: Seq<HalfEdge>, s: int, i: nat, j: nat)
    requires
        next_structure(hs),
        0 <= s < hs.len(),
        i < j,
        iter_next(hs, s, i) == iter_next(hs, s, j),
    ensures
        s == iter_next(hs, s, (j - i) as nat),
    decreases i,
{
    if i == 0 {
    } else {
        lemma_iter_in_range(hs, s, (i - 1) as nat);
        lemma_iter_in_range(hs, s, (j - 1) as nat);
        assert(next_of(hs, iter_next(hs, s, (i - 1) as nat)) == next_of(
            hs,
            iter_next(hs, s, (j - 1) as nat),
        ));
        lemma_iter_backstep(hs, s, (i - 1) as nat, (j - 1) as nat);
    }
}

/// Pigeonhole: some prefix of the walk repeats, so the walk returns to
/// its start within `hs.len()` steps.
pub proof fn lemma_walk_closes(hs: Seq<HalfEdge>, s: int)
    requires
        next_structure(hs),
        0 <= s < hs.len(),
    ensures
        exists|k: nat| 1 <= k <= hs.len() && iter_next(hs, s, k) == s,
{
    let n = hs.len() as int;
    let w = Seq::<int>::new((n + 1) as nat, |i: int| iter_next(hs, s, i as nat));
    assert forall|i: int| 0 <= i < w.len() implies 0 <= #[trigger] w[i] < n by {
        lemma_iter_in_range(hs, s, i as nat);
    }
    if w.no_duplicates() {
        w.unique_seq_to_set();
        vstd::set_lib::lemma_int_range(0, n);
        assert(w.to_set().subset_of(vstd::set_lib::set_int_range(0, n))) by {
            assert forall|x: int| w.to_set().contains(x) implies vstd::set_lib::set_int_range(
                0,
                n,
            ).contains(x) by {
                let i = choose|i: int| 0 <= i < w.len() && w[i] == x;
            }
        }
        vstd::set_lib::lemma_len_subset(w.to_set(), vstd::set_lib::set_int_range(0, n));
        assert(false);
    } else {
        let (i, j) = choose|i: int, j: int|
            0 <= i < w.len() && 0 <= j < w.len() && i != j && w[i] == w[j];
        if i < j {
            lemma_iter_backstep(hs, s, i as nat, j as nat);
            assert(iter_next(hs, s, (j - i) as nat) == s);
            assert(1 <= j - i <= n);
        } else {
            lemma_iter_backstep(hs, s, j as nat, i as nat);
            assert(iter_next(hs, s, (i - j) as nat) == s);
            assert(1 <= i - j <= n);
        }
    }
}

/// There is a shortest return time: the length of the cycle through `s`.
pub proof fn lemma_min_period(hs: Seq<HalfEdge>, s: int) -> (k0: nat)
    requires
        next_structure(hs),
        0 <= s < hs.len(),
    ensures
        1 <= k0 <= hs.len(),
        iter_next(hs, s, k0) == s,
        forall|t: nat| 1 <= t < k0 ==> iter_next(hs, s, t) != s,
{
    lemma_walk_closes(hs, s);
    let k = choose|k: nat| 1 <= k <= hs.len() && iter_next(hs, s, k) == s;
    lemma_min_period_below(hs, s, k)
}

/// Walks agree on sequences that share their `next` fields.
pub proof fn lemma_iter_frame(hs1: Seq<HalfEdge>, hs2: Seq<HalfEdge>, s: int, k: nat)
    requires
        next_structure(hs1),
        hs1.len() == hs2.len(),
        forall|x: int| 0 <= x < hs1.len() ==> (#[trigger] hs1[x]).next == hs2[x].next,
        0 <= s < hs1.len(),
    ensures
        iter_next(hs1, s, k) == iter_next(hs2, s, k),
    decreases k,
{
    if k > 0 {
        lemma_iter_frame(hs1, hs2, s, (k - 1) as nat);
        lemma_iter_in_range(hs1, s, (k - 1) as nat);
        let y = iter_next(hs1, s, (k - 1) as nat);
        assert(hs1[y].next == hs2[y].next);
    }
}

/// `e` lies on the `next`-cycle of its own face's representative edge:
/// some number of `next` steps from that edge reaches `e`.
pub open spec fn on_face_cycle(hs: Seq<HalfEdge>, faces: Seq<Face>, e: int) -> bool {
    exists|k: nat| iter_next(hs, faces[hs[e].face.unwrap() as int].edge as int, k) == e
}

/// `on_face_cycle`, with the walk taken over `base` while the face
/// field is read from `hs`: the shape carried through face discovery,
/// where only face fields change.
spec fn assigned_on_cycle(base: Seq<HalfEdge>, faces: Seq<Face>, hs: Seq<HalfEdge>, x: int) -> bool {
    exists|k: nat| iter_next(base, faces[hs[x].face.unwrap() as int].edge as int, k) == x
}

/// The vertex a half-edge points at: the origin of its twin.
pub open spec fn head_of(hs: Seq<HalfEdge>, e: int) -> usize {
    hs[hs[e].twin as int].origin
}

/// The position of `u` in a duplicate-free sequence.
pub open spec fn pos_in(ord: Seq<usize>, u: usize) -> int {
    choose|i: int| 0 <= i < ord.len() && ord[i] == u
}

/// The index of a segment in a duplicate-free segment list.
pub open spec fn seg_index(segs: Seq<Segment>, s: Segment) -> int {
    choose|k: int| 0 <= k < segs.len() && segs[k] == s
}

/// The half-edge leaving `v` along the segment `{v, u}`: the even twin
/// when `v` is the segment's low endpoint, the odd one otherwise.
pub open spec fn out_edge(segs: Seq<Segment>, v: usize, u: usize) -> int {
    let k = seg_index(segs, Segment::canon(v, u));
    if v < u {
        2 * k
    } else {
        2 * k + 1
    }
}

/// What the overlay builder needs of its input: a canonical,
/// duplicate-free segment set over `n` vertices, and for every vertex an
/// angular order that lists exactly its neighbors in the segment set,
/// at least two of them.
pub open spec fn valid_overlay_input(n: int, segs: Seq<Segment>, orders: Seq<Seq<usize>>) -> bool {
    &&& 2 * segs.len() <= usize::MAX
    &&& segs.no_duplicates()
    &&& forall|k: int|
        0 <= k < segs.len() ==> (#[trigger] segs[k]).is_canonical() && segs[k].in_range(n)
    &&& orders.len() == n
    &&& forall|v: int| 0 <= v < n ==> (#[trigger] orders[v]).no_duplicates() && orders[v].len() >= 2
    &&& forall|v: int, i: int|
        0 <= v < n && 0 <= i < orders[v].len() ==> segs.contains(
            Segment::canon(v as usize, #[trigger] orders[v][i]),
        )
    &&& forall|k: int|
        0 <= k < segs.len() ==> orders[(#[trigger] segs[k]).lo as int].contains(segs[k].hi)
            && orders[segs[k].hi as int].contains(segs[k].lo)
}

/// The half-edges come in twin pairs aligned with the segment list.
pub open spec fn twin_pairing(hs: Seq<HalfEdge>, segs: Seq<Segment>) -> bool {
    &&& hs.len() == 2 * segs.len()
    &&& forall|k: int|
        0 <= k < segs.len() ==> {
            &&& hs[2 * k].origin == (#[trigger] segs[k]).lo
            &&& hs[2 * k].twin == 2 * k + 1
            &&& hs[2 * k + 1].origin == segs[k].hi
            &&& hs[2 * k + 1].twin == 2 * k
        }
}

/// Each half-edge is the out-edge of its own origin towards its head:
/// the pairing leaves no ambiguity about which half-edge joins a given
/// ordered vertex pair.
pub proof fn lemma_edge_identity(hs: Seq<HalfEdge>, segs: Seq<Segment>, e: int)
    requires
        twin_pairing(hs, segs),
        segs.no_duplicates(),
        forall|k: int| 0 <= k < segs.len() ==> (#[trigger] segs[k]).is_canonical(),
        0 <= e < hs.len(),
    ensures
        hs[e].origin != head_of(hs, e),
        segs.contains(Segment::canon(hs[e].origin, head_of(hs, e))),
        e == out_edge(segs, hs[e].origin, head_of(hs, e)),
        seg_index(segs, Segment::canon(hs[e].origin, head_of(hs, e))) == e / 2,
{
    let k = e / 2;
    assert(0 <= k < segs.len());
    let u = hs[e].origin;
    let v = head_of(hs, e);
    if e == 2 * k {
        assert(u == segs[k].lo && v == segs[k].hi);
        assert(Segment::canon(u, v) == segs[k]);
    } else {
        assert(e == 2 * k + 1);
        assert(u == segs[k].hi && v == segs[k].lo);
        assert(Segment::canon(u, v) == segs[k]);
    }
    assert(segs[k] == Segment::canon(u, v));
    assert(segs.contains(Segment::canon(u, v)));
    let k2 = seg_index(segs, Segment::canon(u, v));
    assert(0 <= k2 < segs.len() && segs[k2] == Segment::canon(u, v));
    assert(k2 == k);
}

/// The out-edge of a neighbor pair exists, leaves `v`, arrives at `u`,
/// and its twin is the out-edge of the reversed pair.
pub proof fn lemma_out_edge_props(hs: Seq<HalfEdge>, segs: Seq<Segment>, v: usize, u: usize)
    requires
        twin_pairing(hs, segs),
        segs.no_duplicates(),
        forall|k: int| 0 <= k < segs.len() ==> (#[trigger] segs[k]).is_canonical(),
        v != u,
        segs.contains(Segment::canon(v, u)),
    ensures
        0 <= out_edge(segs, v, u) < hs.len(),
        hs[out_edge(segs, v, u)].origin == v,
        head_of(hs, out_edge(segs, v, u)) == u,
        hs[out_edge(segs, v, u)].twin == out_edge(segs, u, v),
{
    let s = Segment::canon(v, u);
    let k = seg_index(segs, s);
    assert(0 <= k < segs.len() && segs[k] == s);
    assert(Segment::canon(u, v) == s);
}

/// The rotation rule: a half-edge arriving at `v` continues into the
/// departing half-edge that follows its own reversal in `v`'s angular
/// order.
pub open spec fn rotation_next(segs: Seq<Segment>, orders: Seq<Seq<usize>>, hs: Seq<HalfEdge>, e: int) -> int {
    let u = hs[e].origin;
    let v = head_of(hs, e);
    let ord = orders[v as int];
    let j = pos_in(ord, u);
    let jn = if j + 1 == ord.len() as int {
        0
    } else {
        j + 1
    };
    let w = ord[jn];
    out_edge(segs, v, w)
}

/// On valid input the rotation rule is total, stays in range, departs
/// from the arrival vertex, and is injective: it is a permutation of
/// the half-edges.
pub proof fn lemma_rotation_next_props(
    n: int,
    segs: Seq<Segment>,
    orders: Seq<Seq<usize>>,
    hs: Seq<HalfEdge>,
    e: int,
)
    requires
        valid_overlay_input(n, segs, orders),
        twin_pairing(hs, segs),
        0 <= e < hs.len(),
    ensures
        0 <= rotation_next(segs, orders, hs, e) < hs.len(),
        hs[rotation_next(segs, orders, hs, e)].origin == head_of(hs, e),
{
    let u = hs[e].origin;
    let v = head_of(hs, e);
    lemma_edge_identity(hs, segs, e);
    let k = e / 2;
    assert(v < n) by {
        assert(segs[k].is_canonical() && segs[k].in_range(n));
    }
    let ord = orders[v as int];
    assert(ord.contains(u)) by {
        assert(orders[segs[k].lo as int].contains(segs[k].hi));
        assert(orders[segs[k].hi as int].contains(segs[k].lo));
    }
    let j = pos_in(ord, u);
    assert(0 <= j < ord.len() && ord[j] == u);
    let jw = if j + 1 == ord.len() as int {
        0int
    } else {
        j + 1
    };
    assert(0 <= jw < ord.len());
    let w = ord[jw];
    assert(segs.contains(Segment::canon(v as usize, w)));
    assert(w != v) by {
        if w == v {
            let s = Segment::canon(v, w);
            let kk = seg_index(segs, s);
            assert(0 <= kk < segs.len() && segs[kk] == s);
            assert(!s.is_canonical());
        }
    }
    lemma_out_edge_props(hs, segs, v, w);
}

/// Injectivity of the rotation rule.
pub proof fn lemma_rotation_next_injective(
    n: int,
    segs: Seq<Segment>,
    orders: Seq<Seq<usize>>,
    hs: Seq<HalfEdge>,
    e1: int,
    e2: int,
)
    requires
        valid_overlay_input(n, segs, orders),
        twin_pairing(hs, segs),
        0 <= e1 < hs.len(),
        0 <= e2 < hs.len(),
        rotation_next(segs, orders, hs, e1) == rotation_next(segs, orders, hs, e2),
    ensures
        e1 == e2,
{
    let u1 = hs[e1].origin;
    let v1 = head_of(hs, e1);
    let u2 = hs[e2].origin;
    let v2 = head_of(hs, e2);
    lemma_edge_identity(hs, segs, e1);
    lemma_edge_identity(hs, segs, e2);
    assert(v1 < n && v2 < n) by {
        assert(segs[e1 / 2].is_canonical() && segs[e1 / 2].in_range(n));
        assert(segs[e2 / 2].is_canonical() && segs[e2 / 2].in_range(n));
    }
    let ord1 = orders[v1 as int];
    let ord2 = orders[v2 as int];
    assert(ord1.contains(u1)) by {
        assert(orders[segs[e1 / 2].lo as int].contains(segs[e1 / 2].hi));
        assert(orders[segs[e1 / 2].hi as int].contains(segs[e1 / 2].lo));
    }
    assert(ord2.contains(u2)) by {
        assert(orders[segs[e2 / 2].lo as int].contains(segs[e2 / 2].hi));
        assert(orders[segs[e2 / 2].hi as int].contains(segs[e2 / 2].lo));
    }
    let j1 = pos_in(ord1, u1);
    let j2 = pos_in(ord2, u2);
    assert(0 <= j1 < ord1.len() && ord1[j1] == u1);
    assert(0 <= j2 < ord2.len() && ord2[j2] == u2);
    let jw1 = if j1 + 1 == ord1.len() as int {
        0int
    } else {
        j1 + 1
    };
    let jw2 = if j2 + 1 == ord2.len() as int {
        0int
    } else {
        j2 + 1
    };
    let w1 = ord1[jw1];
    let w2 = ord2[jw2];
    assert(w1 != v1 && segs.contains(Segment::canon(v1, w1))) by {
        assert(segs.contains(Segment::canon(v1 as usize, w1)));
        if w1 == v1 {
            let s = Segment::canon(v1, w1);
            let kk = seg_index(segs, s);
            assert(0 <= kk < segs.len() && segs[kk] == s);
            assert(!s.is_canonical());
        }
    }
    assert(w2 != v2 && segs.contains(Segment::canon(v2, w2))) by {
        assert(segs.contains(Segment::canon(v2 as usize, w2)));
        if w2 == v2 {
            let s = Segment::canon(v2, w2);
            let kk = seg_index(segs, s);
            assert(0 <= kk < segs.len() && segs[kk] == s);
            assert(!s.is_canonical());
        }
    }
    lemma_out_edge_props(hs, segs, v1, w1);
    lemma_out_edge_props(hs, segs, v2, w2);
    let o = rotation_next(segs, orders, hs, e1);
    assert(hs[o].origin == v1 && head_of(hs, o) == w1);
    assert(hs[o].origin == v2 && head_of(hs, o) == w2);
    assert(v1 == v2 && w1 == w2);
    assert(ord1[jw1] == ord1[jw2] && ord1.no_duplicates());
    assert(jw1 == jw2);
    assert(j1 == j2);
    assert(u1 == u2);
    assert(e1 == out_edge(segs, u1, v1) && e2 == out_edge(segs, u2, v2));
}

/// Any return time bounds a minimal one below it.
proof fn lemma_min_period_below(hs: Seq<HalfEdge>, s: int, k: nat) -> (k0: nat)
    requires
        next_structure(hs),
        0 <= s < hs.len(),
        1 <= k <= hs.len(),
        iter_next(hs, s, k) == s,
    ensures
        1 <= k0 <= k,
        iter_next(hs, s, k0) == s,
        forall|t: nat| 1 <= t < k0 ==> iter_next(hs, s, t) != s,
    decreases k,
{
    if exists|t: nat| 1 <= t < k && iter_next(hs, s, t) == s {
        let t = choose|t: nat| 1 <= t < k && iter_next(hs, s, t) == s;
        lemma_min_period_below(hs, s, t)
    } else {
        k
    }
}

/// `k` is the length of the `next`-cycle through `s`.
pub open spec fn is_cycle_length(hs: Seq<HalfEdge>, s: int, k: nat) -> bool {
    &&& 1 <= k <= hs.len()
    &&& iter_next(hs, s, k) == s
    &&& forall|t: nat| 1 <= t < k ==> iter_next(hs, s, t) != s
}

/// Two cycle lengths through the same start agree.
pub proof fn lemma_cycle_len_unique(hs: Seq<HalfEdge>, s: int, k1: nat, k2: nat)
    requires
        is_cycle_length(hs, s, k1),
        is_cycle_length(hs, s, k2),
    ensures
        k1 == k2,
{
    if k1 < k2 {
        assert(iter_next(hs, s, k1) == s);
    } else if k2 < k1 {
        assert(iter_next(hs, s, k2) == s);
    }
}

/// The number of half-edges (and vertices) around a face: the length of
/// the `next`-cycle through its representative edge.
pub open spec fn face_cycle_len(d: DCEL, f: int) -> nat {
    choose|k: nat| is_cycle_length(d.half_edges@, d.faces@[f].edge as int, k)
}

/// The vertices around a face, in walk order.
pub open spec fn face_vertices_of(d: DCEL, f: int) -> Seq<usize> {
    Seq::new(
        face_cycle_len(d, f),
        |i: int|
            d.half_edges@[iter_next(d.half_edges@, d.faces@[f].edge as int, i as nat)].origin,
    )
}

/// The spec views of a list of per-vertex angular orders.
pub open spec fn order_views(orders: Seq<Vec<usize>>) -> Seq<Seq<usize>> {
    Seq::new(orders.len(), |i: int| orders[i]@)
}

/// Membership test by linear scan.
fn contains_usize(row: &Vec<usize>, u: usize) -> (b: bool)
    ensures
        b == row@.contains(u),
{
    let mut i: usize = 0;
    while i < row.len()
        invariant
            i <= row@.len(),
            forall|j: int| 0 <= j < i ==> row@[j] != u,
        decreases row@.len() - i,
    {
        if row[i] == u {
            return true;
        }
        i = i + 1;
    }
    false
}

/// Position of `u` in a duplicate-free list that contains it.
fn find_pos(row: &Vec<usize>, u: usize) -> (j: usize)
    requires
        row@.no_duplicates(),
        row@.contains(u),
    ensures
        j as int == pos_in(row@, u),
        j < row@.len(),
        row@[j as int] == u,
{
    let n = row.len();
    let mut i: usize = 0;
    loop
        invariant
            row@.no_duplicates(),
            row@.contains(u),
            n == row@.len(),
            i < n,
            forall|j: int| 0 <= j < i ==> row@[j] != u,
        decreases row@.len() - i,
    {
        if row[i] == u {
            proof {
                let p = pos_in(row@, u);
                assert(0 <= p < row@.len() && row@[p] == u);
            }
            return i;
        }
        i = i + 1;
        proof {
            if i >= row@.len() {
                let p = choose|p: int| 0 <= p < row@.len() && row@[p] == u;
                assert(false);
            }
        }
    }
}

/// Index of a segment in a duplicate-free list that contains it.
fn find_seg(segs: &Vec<Segment>, s: Segment) -> (k: usize)
    requires
        segs@.no_duplicates(),
        segs@.contains(s),
    ensures
        k as int == seg_index(segs@, s),
        k < segs@.len(),
        segs@[k as int] == s,
{
    let n = segs.len();
    let mut i: usize = 0;
    loop
        invariant
            segs@.no_duplicates(),
            segs@.contains(s),
            n == segs@.len(),
            i < n,
            forall|j: int| 0 <= j < i ==> segs@[j] != s,
        decreases segs@.len() - i,
    {
        if segs[i] == s {
            proof {
                let p = seg_index(segs@, s);
                assert(0 <= p < segs@.len() && segs@[p] == s);
            }
            return i;
        }
        i = i + 1;
        proof {
            if i >= segs@.len() {
                let p = choose|p: int| 0 <= p < segs@.len() && segs@[p] == s;
                assert(false);
            }
        }
    }
}

/// Changing only `face` fields changes neither heads nor the rotation
/// rule.
proof fn lemma_rotation_frame(
    segs: Seq<Segment>,
    ov: Seq<Seq<usize>>,
    hs1: Seq<HalfEdge>,
    hs2: Seq<HalfEdge>,
    e: int,
)
    requires
        hs1.len() == hs2.len(),
        forall|x: int|
            0 <= x < hs1.len() ==> (#[trigger] hs1[x]).origin == hs2[x].origin && hs1[x].twin
                == hs2[x].twin,
        0 <= e < hs1.len(),
        0 <= hs1[e].twin < hs1.len(),
    ensures
        head_of(hs1, e) == head_of(hs2, e),
        rotation_next(segs, ov, hs1, e) == rotation_next(segs, ov, hs2, e),
{
    assert(hs1[hs1[e].twin as int].origin == hs2[hs2[e].twin as int].origin);
}

/// Decides duplicate-freedom of a segment list.
fn segs_no_dup(segs: &Vec<Segment>) -> (b: bool)
    ensures
        b == segs@.no_duplicates(),
{
    let mut i: usize = 0;
    while i < segs.len()
        invariant
            i <= segs@.len(),
            forall|a: int, c: int| 0 <= a < c < i ==> segs@[a] != segs@[c],
        decreases segs@.len() - i,
    {
        let mut j: usize = 0;
        while j < i
            invariant
                j <= i < segs@.len(),
                forall|a: int| 0 <= a < j ==> segs@[a] != segs@[i as int],
            decreases i - j,
        {
            if segs[j] == segs[i] {
                return false;
            }
            j = j + 1;
        }
        i = i + 1;
    }
    true
}

/// Decides duplicate-freedom of an index list.
fn row_no_dup(row: &Vec<usize>) -> (b: bool)
    ensures
        b == row@.no_duplicates(),
{
    let mut i: usize = 0;
    while i < row.len()
        invariant
            i <= row@.len(),
            forall|a: int, c: int| 0 <= a < c < i ==> row@[a] != row@[c],
        decreases row@.len() - i,
    {
        let mut j: usize = 0;
        while j < i
            invariant
                j <= i < row@.len(),
                forall|a: int| 0 <= a < j ==> row@[a] != row@[i as int],
            decreases i - j,
        {
            if row[j] == row[i] {
                return false;
            }
            j = j + 1;
        }
        i = i + 1;
    }
    true
}

/// Decides `valid_overlay_input` for the given input.
fn check_overlay_input(num_vertices: usize, segments: &Vec<Segment>, orders: &Vec<Vec<usize>>) -> (b:
    bool)
    ensures
        b == valid_overlay_input(num_vertices as int, segments@, order_views(orders@)),
{
    let ghost ov = order_views(orders@);
    if segments.len() > usize::MAX / 2 {
        return false;
    }
    if !segs_no_dup(segments) {
        return false;
    }
    let mut k: usize = 0;
    while k < segments.len()
        invariant
            k <= segments@.len(),
            forall|j: int|
                0 <= j < k ==> (#[trigger] segments@[j]).is_canonical() && segments@[j].in_range(
                    num_vertices as int,
                ),
        decreases segments@.len() - k,
    {
        let s = segments[k];
        if !(s.lo < s.hi && s.lo < num_vertices && s.hi < num_vertices) {
            return false;
        }
        k = k + 1;
    }
    if orders.len() != num_vertices {
        return false;
    }
    proof {
        assert(ov.len() == num_vertices);
    }
    let mut v: usize = 0;
    while v < num_vertices
        invariant
            v <= num_vertices,
            orders@.len() == num_vertices,
            ov == order_views(orders@),
            forall|w: int| 0 <= w < v ==> (#[trigger] ov[w]).no_duplicates() && ov[w].len() >= 2,
            forall|w: int, i: int|
                0 <= w < v && 0 <= i < ov[w].len() ==> segments@.contains(
                    Segment::canon(w as usize, #[trigger] ov[w][i]),
                ),
        decreases num_vertices - v,
    {
        let row = &orders[v];
        proof {
            assert(ov[v as int] == row@);
        }
        if row.len() < 2 {
            return false;
        }
        if !row_no_dup(row) {
            return false;
        }
        let mut i: usize = 0;
        while i < row.len()
            invariant
                v < num_vertices,
                orders@.len() == num_vertices,
                ov == order_views(orders@),
                row@ == ov[v as int],
                i <= row@.len(),
                forall|j: int|
                    0 <= j < i ==> segments@.contains(
                        Segment::canon(v, #[trigger] row@[j]),
                    ),
            decreases row@.len() - i,
        {
            let u = row[i];
            let s = if v < u {
                Segment { lo: v, hi: u }
            } else {
                Segment { lo: u, hi: v }
            };
            proof {
                assert(s == Segment::canon(v, u));
            }
            if !crate::segments::contains_segment(segments, s) {
                return false;
            }
            i = i + 1;
        }
        v = v + 1;
    }
    let mut k2: usize = 0;
    while k2 < segments.len()
        invariant
            k2 <= segments@.len(),
            orders@.len() == num_vertices,
            ov == order_views(orders@),
            forall|j: int|
                0 <= j < segments@.len() ==> (#[trigger] segments@[j]).is_canonical()
                    && segments@[j].in_range(num_vertices as int),
            forall|j: int|
                0 <= j < k2 ==> ov[(#[trigger] segments@[j]).lo as int].contains(segments@[j].hi)
                    && ov[segments@[j].hi as int].contains(segments@[j].lo),
        decreases segments@.len() - k2,
    {
        let s = segments[k2];
        proof {
            assert(ov[s.lo as int] == orders@[s.lo as int]@);
            assert(ov[s.hi as int] == orders@[s.hi as int]@);
        }
        if !contains_usize(&orders[s.lo], s.hi) {
            return false;
        }
        if !contains_usize(&orders[s.hi], s.lo) {
            return false;
        }
        k2 = k2 + 1;
    }
    true
}

/// One twin pair of half-edges per segment, unlinked and faceless.
fn make_twin_pairs(segments: &Vec<Segment>) -> (hs: Vec<HalfEdge>)
    requires
        2 * segments@.len() <= usize::MAX,
    ensures
        twin_pairing(hs@, segments@),
        forall|e: int|
            0 <= e < hs@.len() ==> (#[trigger] hs@[e]).face is None && hs@[e].next is None,
{
    let mut hs: Vec<HalfEdge> = Vec::new();
    let mut k: usize = 0;
    while k < segments.len()
        invariant
            k <= segments@.len(),
            2 * segments@.len() <= usize::MAX,
            hs@.len() == 2 * k,
            forall|j: int|
                0 <= j < k ==> {
                    &&& hs@[2 * j].origin == (#[trigger] segments@[j]).lo
                    &&& hs@[2 * j].twin == 2 * j + 1
                    &&& hs@[2 * j + 1].origin == segments@[j].hi
                    &&& hs@[2 * j + 1].twin == 2 * j
                },
            forall|e: int|
                0 <= e < hs@.len() ==> (#[trigger] hs@[e]).face is None && hs@[e].next is None,
        decreases segments@.len() - k,
    {
        let s = segments[k];
        let idx = hs.len();
        hs.push(HalfEdge { origin: s.lo, twin: idx + 1, face: None, next: None });
        hs.push(HalfEdge { origin: s.hi, twin: idx, face: None, next: None });
        k = k + 1;
    }
    hs
}

/// Links every half-edge to its successor by the rotation rule.
#[verifier::rlimit(100)]
fn link_next(
    hs: &mut Vec<HalfEdge>,
    num_vertices: usize,
    segments: &Vec<Segment>,
    orders: &Vec<Vec<usize>>,
)
    requires
        valid_overlay_input(num_vertices as int, segments@, order_views(orders@)),
        twin_pairing(old(hs)@, segments@),
        forall|e: int|
            0 <= e < old(hs)@.len() ==> (#[trigger] old(hs)@[e]).face is None && old(hs)@[e].next is None,
    ensures
        final(hs)@.len() == old(hs)@.len(),
        twin_pairing(final(hs)@, segments@),
        forall|e: int| 0 <= e < final(hs)@.len() ==> (#[trigger] final(hs)@[e]).face is None,
        forall|e: int|
            0 <= e < final(hs)@.len() ==> (#[trigger] final(hs)@[e]).next == Some(
                rotation_next(segments@, order_views(orders@), final(hs)@, e) as usize,
            ),
{
    let ghost segs = segments@;
    let ghost ov = order_views(orders@);
    let ghost n0 = old(hs)@.len();
    let ghost base = old(hs)@;
    let m = hs.len();
    let mut e: usize = 0;
    while e < m
        invariant
            m == n0,
            hs@.len() == n0,
            valid_overlay_input(num_vertices as int, segs, ov),
            segs == segments@,
            ov == order_views(orders@),
            base.len() == n0,
            twin_pairing(base, segs),
            forall|x: int|
                0 <= x < n0 ==> (#[trigger] hs@[x]).origin == base[x].origin && hs@[x].twin
                    == base[x].twin,
            forall|x: int| 0 <= x < n0 ==> (#[trigger] hs@[x]).face is None,
            forall|x: int| e <= x < n0 ==> (#[trigger] hs@[x]).next is None,
            forall|x: int|
                0 <= x < e ==> (#[trigger] hs@[x]).next == Some(
                    rotation_next(segs, ov, base, x) as usize,
                ),
        decreases n0 - e,
    {
        proof {
            assert(twin_pairing(hs@, segs)) by {
                assert forall|k: int|
                    0 <= k < segs.len() implies {
                    &&& hs@[2 * k].origin == (#[trigger] segs[k]).lo
                    &&& hs@[2 * k].twin == 2 * k + 1
                    &&& hs@[2 * k + 1].origin == segs[k].hi
                    &&& hs@[2 * k + 1].twin == 2 * k
                } by {
                    assert(0 <= 2 * k < n0 && 0 <= 2 * k + 1 < n0);
                    assert(hs@[2 * k].origin == base[2 * k].origin);
                    assert(hs@[2 * k].twin == base[2 * k].twin);
                    assert(hs@[2 * k + 1].origin == base[2 * k + 1].origin);
                    assert(hs@[2 * k + 1].twin == base[2 * k + 1].twin);
                }
            }
        }
        let he = hs[e];
        let u = he.origin;
        let t = he.twin;
        proof {
            lemma_edge_identity(hs@, segs, e as int);
            assert(t < n0) by {
                let k = e as int / 2;
                assert(segs[k].is_canonical());
            }
        }
        let v = hs[t].origin;
        proof {
            assert(v == head_of(hs@, e as int));
            let k = e as int / 2;
            assert(v < num_vertices) by {
                assert(segs[k].is_canonical() && segs[k].in_range(num_vertices as int));
            }
            assert(ov[v as int] == orders@[v as int]@);
            assert(ov[v as int].contains(u)) by {
                assert(ov[(segs[k]).lo as int].contains(segs[k].hi));
                assert(ov[(segs[k]).hi as int].contains(segs[k].lo));
            }
            assert(ov[v as int].no_duplicates());
        }
        let row = &orders[v];
        let rl = row.len();
        let j = find_pos(row, u);
        let jn = if j + 1 == rl {
            0
        } else {
            j + 1
        };
        let w = row[jn];
        proof {
            assert(segs.contains(Segment::canon(v, w))) by {
                assert(segs.contains(Segment::canon(v as usize, ov[v as int][jn as int])));
            }
            assert(w != v) by {
                if w == v {
                    let s = Segment::canon(v, w);
                    let kk = seg_index(segs, s);
                    assert(0 <= kk < segs.len() && segs[kk] == s);
                    assert(!s.is_canonical());
                }
            }
        }
        let sgm = if v < w {
            Segment { lo: v, hi: w }
        } else {
            Segment { lo: w, hi: v }
        };
        proof {
            assert(sgm == Segment::canon(v, w));
        }
        let k2 = find_seg(segments, sgm);
        let nxt = if v < w {
            2 * k2
        } else {
            2 * k2 + 1
        };
        proof {
            assert(nxt as int == out_edge(segs, v, w));
            assert(nxt as int == rotation_next(segs, ov, hs@, e as int));
            assert(hs@[e as int].twin < n0);
            lemma_rotation_frame(segs, ov, hs@, base, e as int);
            assert(nxt as int == rotation_next(segs, ov, base, e as int));
        }
        let mut he2 = hs[e];
        he2.next = Some(nxt);
        hs.set(e, he2);
        e = e + 1;
    }
    proof {
        assert(twin_pairing(hs@, segs)) by {
            assert forall|k: int|
                0 <= k < segs.len() implies {
                &&& hs@[2 * k].origin == (#[trigger] segs[k]).lo
                &&& hs@[2 * k].twin == 2 * k + 1
                &&& hs@[2 * k + 1].origin == segs[k].hi
                &&& hs@[2 * k + 1].twin == 2 * k
            } by {
                assert(0 <= 2 * k < n0 && 0 <= 2 * k + 1 < n0);
                assert(hs@[2 * k].origin == base[2 * k].origin);
                assert(hs@[2 * k].twin == base[2 * k].twin);
                assert(hs@[2 * k + 1].origin == base[2 * k + 1].origin);
                assert(hs@[2 * k + 1].twin == base[2 * k + 1].twin);
            }
        }
        assert forall|x: int| 0 <= x < n0 implies (#[trigger] hs@[x]).next == Some(
            rotation_next(segs, ov, hs@, x) as usize,
        ) by {
            lemma_edge_identity(hs@, segs, x);
            assert(hs@[x].twin < n0) by {
                let k = x / 2;
                assert(segs[k].is_canonical());
            }
            lemma_rotation_frame(segs, ov, hs@, base, x);
        }
    }
}

/// Walks the `next`-cycle through `start` and returns its half-edges in
/// order, starting at `start`.
fn collect_cycle(hs: &Vec<HalfEdge>, start: usize) -> (cycle: Vec<usize>)
    requires
        next_structure(hs@),
        start < hs@.len(),
    ensures
        1 <= cycle@.len() <= hs@.len(),
        cycle@[0] == start,
        forall|i: int| 0 <= i < cycle@.len() ==> #[trigger] cycle@[i] < hs@.len(),
        forall|i: int|
            0 <= i < cycle@.len() ==> #[trigger] cycle@[i] as int == iter_next(
                hs@,
                start as int,
                i as nat,
            ),
        iter_next(hs@, start as int, cycle@.len() as nat) == start,
        forall|t: nat| 1 <= t < cycle@.len() ==> iter_next(hs@, start as int, t) != start,
        cycle@.no_duplicates(),
{
    proof {
        let kmin = lemma_min_period(hs@, start as int);
        assert(is_cycle_length(hs@, start as int, kmin));
    }
    let ghost k0 = choose|k: nat| is_cycle_length(hs@, start as int, k);
    let mut cycle: Vec<usize> = Vec::new();
    cycle.push(start);
    let mut cur: usize = hs[start].next.unwrap();
    proof {
        assert(iter_next(hs@, start as int, 0nat) == start);
        assert(cur as int == iter_next(hs@, start as int, 1nat));
        lemma_iter_in_range(hs@, start as int, 1nat);
    }
    while cur != start
        invariant
            next_structure(hs@),
            start < hs@.len(),
            is_cycle_length(hs@, start as int, k0),
            1 <= cycle@.len() <= k0,
            cur < hs@.len(),
            cur as int == iter_next(hs@, start as int, cycle@.len() as nat),
            cycle@[0] == start,
            forall|i: int| 0 <= i < cycle@.len() ==> #[trigger] cycle@[i] < hs@.len(),
            forall|i: int|
                0 <= i < cycle@.len() ==> #[trigger] cycle@[i] as int == iter_next(
                    hs@,
                    start as int,
                    i as nat,
                ),
            forall|t: nat| 1 <= t < cycle@.len() ==> iter_next(hs@, start as int, t) != start,
        decreases k0 - cycle@.len(),
    {
        proof {
            assert(cycle@.len() != k0);
        }
        cycle.push(cur);
        let nxt = hs[cur].next.unwrap();
        proof {
            let steps = cycle@.len() as nat;
            assert(cur as int == iter_next(hs@, start as int, (steps - 1) as nat));
            assert(nxt as int == next_of(hs@, iter_next(hs@, start as int, (steps - 1) as nat)));
            assert(nxt as int == iter_next(hs@, start as int, steps));
            lemma_iter_in_range(hs@, start as int, steps);
        }
        cur = nxt;
    }
    proof {
        assert(iter_next(hs@, start as int, cycle@.len() as nat) == start);
        assert(cycle@.len() == k0) by {
            if cycle@.len() < k0 {
                assert(1 <= cycle@.len() < k0);
                assert(iter_next(hs@, start as int, cycle@.len() as nat) != start);
            }
        }
        assert forall|i: int, j: int|
            0 <= i < cycle@.len() && 0 <= j < cycle@.len() && i != j implies cycle@[i] != cycle@[j]
        by {
            if cycle@[i] == cycle@[j] {
                if i < j {
                    lemma_iter_backstep(hs@, start as int, i as nat, j as nat);
                    assert(iter_next(hs@, start as int, (j - i) as nat) == start);
                } else {
                    lemma_iter_backstep(hs@, start as int, j as nat, i as nat);
                    assert(iter_next(hs@, start as int, (i - j) as nat) == start);
                }
            }
        }
    }
    cycle
}

/// If one half-edge of a closed `next`-chain has a face, following the
/// chain forward carries the assignment around to its first member.
proof fn lemma_chain_assigned(hs: Seq<HalfEdge>, base: Seq<HalfEdge>, cycle: Seq<usize>, i: int)
    requires
        hs.len() == base.len(),
        forall|x: int|
            0 <= x < hs.len() && hs[x].face is Some ==> 0 <= #[trigger] next_of(base, x)
                < hs.len() && hs[next_of(base, x)].face == hs[x].face,
        forall|t: int| 0 <= t < cycle.len() ==> (#[trigger] cycle[t]) < hs.len(),
        forall|t: int|
            0 <= t < cycle.len() - 1 ==> next_of(base, #[trigger] cycle[t] as int) == cycle[t + 1],
        cycle.len() >= 1,
        next_of(base, cycle[cycle.len() - 1] as int) == cycle[0],
        0 <= i < cycle.len(),
        hs[cycle[i] as int].face is Some,
    ensures
        hs[cycle[0] as int].face is Some,
    decreases cycle.len() - i,
{
    if i == cycle.len() - 1 {
        assert(hs[next_of(base, cycle[i] as int)].face == hs[cycle[i] as int].face);
    } else {
        assert(hs[next_of(base, cycle[i] as int)].face == hs[cycle[i] as int].face);
        lemma_chain_assigned(hs, base, cycle, i + 1);
    }
}

/// `next_structure` only reads `next` fields, so it survives face
/// assignment.
proof fn lemma_next_structure_frame(base: Seq<HalfEdge>, hs: Seq<HalfEdge>)
    requires
        next_structure(base),
        hs.len() == base.len(),
        forall|x: int| 0 <= x < hs.len() ==> (#[trigger] hs[x]).next == base[x].next,
    ensures
        next_structure(hs),
{
    assert forall|x: int|
        0 <= x < hs.len() implies (#[trigger] hs[x]).next is Some && 0 <= next_of(hs, x)
        < hs.len() by {
        assert(hs[x].next == base[x].next);
        assert(base[x].next is Some);
        assert(0 <= next_of(base, x) < base.len());
        assert(next_of(hs, x) == next_of(base, x));
    }
    assert forall|e1: int, e2: int|
        0 <= e1 < hs.len() && 0 <= e2 < hs.len() && #[trigger] next_of(hs, e1) == #[trigger] next_of(
            hs,
            e2,
        ) implies e1 == e2 by {
        assert(next_of(hs, e1) == next_of(base, e1));
        assert(next_of(hs, e2) == next_of(base, e2));
    }
}

/// Facts about a freshly collected orbit: it follows `next`, wraps
/// around, and is entirely unassigned.
proof fn lemma_orbit_setup(hs: Seq<HalfEdge>, base: Seq<HalfEdge>, cyc: Seq<usize>, e: int)
    requires
        hs.len() == base.len(),
        next_structure(base),
        forall|x: int| 0 <= x < hs.len() ==> (#[trigger] hs[x]).next == base[x].next,
        forall|x: int|
            0 <= x < hs.len() && hs[x].face is Some ==> hs[#[trigger] next_of(base, x)].face
                == hs[x].face,
        0 <= e < hs.len(),
        hs[e].face is None,
        1 <= cyc.len() <= hs.len(),
        forall|i: int| 0 <= i < cyc.len() ==> #[trigger] cyc[i] < hs.len(),
        forall|i: int|
            0 <= i < cyc.len() ==> #[trigger] cyc[i] as int == iter_next(hs, e, i as nat),
        iter_next(hs, e, cyc.len() as nat) == e,
    ensures
        cyc[0] == e,
        forall|t: int| 0 <= t < cyc.len() - 1 ==> next_of(base, #[trigger] cyc[t] as int) == cyc[t + 1],
        next_of(base, cyc[cyc.len() - 1] as int) == cyc[0],
        forall|t: int| 0 <= t < cyc.len() ==> hs[#[trigger] cyc[t] as int].face is None,
{
    assert(cyc[0] as int == iter_next(hs, e, 0nat));
    assert forall|t: int|
        0 <= t < cyc.len() - 1 implies next_of(base, #[trigger] cyc[t] as int) == cyc[t + 1] by {
        assert(cyc[t + 1] as int == iter_next(hs, e, (t + 1) as nat));
        assert(iter_next(hs, e, (t + 1) as nat) == next_of(hs, iter_next(hs, e, t as nat)));
        assert(next_of(hs, cyc[t] as int) == next_of(base, cyc[t] as int));
    }
    assert(next_of(base, cyc[cyc.len() - 1] as int) == cyc[0]) by {
        assert(iter_next(hs, e, cyc.len() as nat) == next_of(
            hs,
            iter_next(hs, e, (cyc.len() - 1) as nat),
        ));
        assert(next_of(hs, cyc[cyc.len() - 1] as int) == next_of(base, cyc[cyc.len() - 1] as int));
    }
    assert forall|t: int| 0 <= t < cyc.len() implies hs[#[trigger] cyc[t] as int].face is None by {
        if hs[cyc[t] as int].face is Some {
            assert forall|x: int|
                0 <= x < hs.len() && hs[x].face is Some implies 0 <= #[trigger] next_of(base, x)
                < hs.len() && hs[next_of(base, x)].face == hs[x].face by {
                assert(next_of(base, x) == next_of(hs, x));
            }
            lemma_chain_assigned(hs, base, cyc, t);
        }
    }
}

/// Shared shape of an orbit-assignment step: `snap` is the state before
/// the orbit `cyc` was assigned face `f`, `hs` the state after.
spec fn orbit_step(
    base: Seq<HalfEdge>,
    snap: Seq<HalfEdge>,
    hs: Seq<HalfEdge>,
    cyc: Seq<usize>,
    f: usize,
    e: int,
) -> bool {
    &&& base.len() == snap.len()
    &&& snap.len() == hs.len()
    &&& hs.len() <= usize::MAX
    &&& 0 <= e < snap.len()
    &&& 1 <= cyc.len()
    &&& cyc.no_duplicates()
    &&& cyc[0] == e
    &&& forall|t: int| 0 <= t < cyc.len() ==> #[trigger] cyc[t] < snap.len()
    &&& forall|t: int|
        0 <= t < cyc.len() - 1 ==> next_of(base, #[trigger] cyc[t] as int) == cyc[t + 1]
    &&& next_of(base, cyc[cyc.len() - 1] as int) == cyc[0]
    &&& forall|t: int| 0 <= t < cyc.len() ==> snap[#[trigger] cyc[t] as int].face is None
    &&& forall|y: int| 0 <= y < hs.len() && !cyc.contains(y as usize) ==> hs[y] == snap[y]
    &&& forall|t: int|
        0 <= t < cyc.len() ==> (#[trigger] hs[cyc[t] as int]).origin == snap[cyc[t] as int].origin
            && hs[cyc[t] as int].twin == snap[cyc[t] as int].twin && hs[cyc[t] as int].next
            == snap[cyc[t] as int].next && hs[cyc[t] as int].face == Some(f)
}

/// Fields other than `face` survive an orbit assignment.
proof fn lemma_orbit_commit_frame(
    base: Seq<HalfEdge>,
    snap: Seq<HalfEdge>,
    hs: Seq<HalfEdge>,
    cyc: Seq<usize>,
    f: usize,
    e: int,
)
    requires
        orbit_step(base, snap, hs, cyc, f, e),
        forall|x: int|
            0 <= x < snap.len() ==> (#[trigger] snap[x]).origin == base[x].origin && snap[x].twin
                == base[x].twin && snap[x].next == base[x].next,
    ensures
        forall|x: int|
            0 <= x < hs.len() ==> (#[trigger] hs[x]).origin == base[x].origin && hs[x].twin
                == base[x].twin && hs[x].next == base[x].next,
        forall|x: int| 0 <= x < e + 1 && (#[trigger] snap[x]).face is Some ==> hs[x].face is Some,
        forall|x: int| 0 <= x < e + 1 ==> (#[trigger] hs[x]).face is Some || snap[x].face is None,
{
    assert forall|x: int|
        0 <= x < hs.len() implies (#[trigger] hs[x]).origin == base[x].origin && hs[x].twin
        == base[x].twin && hs[x].next == base[x].next by {
        if cyc.contains(x as usize) {
            let t = choose|t: int| 0 <= t < cyc.len() && cyc[t] == x as usize;
            assert(cyc[t] as int == x);
            assert(hs[x].origin == snap[x].origin && hs[x].twin == snap[x].twin && hs[x].next
                == snap[x].next);
        } else {
            assert(hs[x] == snap[x]);
        }
        assert(snap[x].origin == base[x].origin && snap[x].twin == base[x].twin && snap[x].next
            == base[x].next);
    }
    assert forall|x: int|
        0 <= x < e + 1 && (#[trigger] snap[x]).face is Some implies hs[x].face is Some by {
        if cyc.contains(x as usize) {
            let t = choose|t: int| 0 <= t < cyc.len() && cyc[t] == x as usize;
            assert(cyc[t] as int == x);
            assert(hs[x].face == Some(f));
        } else {
            assert(hs[x] == snap[x]);
        }
    }
}

/// Every face value after an orbit assignment is a known face.
proof fn lemma_orbit_commit_bound(
    base: Seq<HalfEdge>,
    snap: Seq<HalfEdge>,
    hs: Seq<HalfEdge>,
    cyc: Seq<usize>,
    faces_snap: Seq<Face>,
    f: usize,
    e: int,
)
    requires
        orbit_step(base, snap, hs, cyc, f, e),
        f as int == faces_snap.len(),
        forall|x: int|
            0 <= x < snap.len() && (#[trigger] snap[x]).face is Some ==> snap[x].face.unwrap()
                < faces_snap.len(),
    ensures
        forall|x: int|
            0 <= x < hs.len() && (#[trigger] hs[x]).face is Some ==> hs[x].face.unwrap() < f as int
                + 1,
{
    assert forall|x: int|
        0 <= x < hs.len() && (#[trigger] hs[x]).face is Some implies hs[x].face.unwrap() < f as int
        + 1 by {
        if cyc.contains(x as usize) {
            let t = choose|t: int| 0 <= t < cyc.len() && cyc[t] == x as usize;
            assert(cyc[t] as int == x);
            assert(hs[x].face == Some(f));
        } else {
            assert(hs[x] == snap[x]);
            assert(snap[x].face.unwrap() < faces_snap.len());
        }
    }
}

/// Face assignments stay closed under `next` after an orbit assignment.
#[verifier::rlimit(100)]
proof fn lemma_orbit_commit_closure(
    base: Seq<HalfEdge>,
    snap: Seq<HalfEdge>,
    hs: Seq<HalfEdge>,
    cyc: Seq<usize>,
    f: usize,
    e: int,
)
    requires
        orbit_step(base, snap, hs, cyc, f, e),
        next_structure(base),
        forall|x: int|
            0 <= x < snap.len() && snap[x].face is Some ==> snap[#[trigger] next_of(
                base,
                x,
            )].face == snap[x].face,
    ensures
        forall|x: int|
            0 <= x < hs.len() && hs[x].face is Some ==> hs[#[trigger] next_of(base, x)].face
                == hs[x].face,
{
    assert forall|x: int|
        0 <= x < hs.len() && hs[x].face is Some implies hs[#[trigger] next_of(base, x)].face
        == hs[x].face by {
        if cyc.contains(x as usize) {
            let t = choose|t: int| 0 <= t < cyc.len() && cyc[t] == x as usize;
            assert(cyc[t] as int == x);
            assert(hs[x].face == Some(f));
            if t < cyc.len() - 1 {
                assert(next_of(base, x) == cyc[t + 1]);
                assert(hs[cyc[t + 1] as int].face == Some(f));
            } else {
                assert(next_of(base, x) == cyc[0]);
                assert(hs[cyc[0] as int].face == Some(f));
            }
        } else {
            assert(hs[x] == snap[x]);
            assert(snap[x].face is Some);
            assert(snap[next_of(base, x)].face == snap[x].face);
            assert(!cyc.contains(next_of(base, x) as usize)) by {
                if cyc.contains(next_of(base, x) as usize) {
                    let t = choose|t: int|
                        0 <= t < cyc.len() && cyc[t] == next_of(base, x) as usize;
                    assert(snap[cyc[t] as int].face is None);
                }
            }
            assert(hs[next_of(base, x)] == snap[next_of(base, x)]);
        }
    }
}

/// Every face keeps a representative edge carrying its own index.
proof fn lemma_orbit_commit_reps(
    base: Seq<HalfEdge>,
    snap: Seq<HalfEdge>,
    hs: Seq<HalfEdge>,
    cyc: Seq<usize>,
    faces_snap: Seq<Face>,
    faces: Seq<Face>,
    f: usize,
    e: int,
)
    requires
        orbit_step(base, snap, hs, cyc, f, e),
        f as int == faces_snap.len(),
        faces == faces_snap.push(Face { edge: e as usize }),
        forall|g: int|
            0 <= g < faces_snap.len() ==> (#[trigger] faces_snap[g]).edge < snap.len()
                && snap[faces_snap[g].edge as int].face == Some(g as usize),
    ensures
        forall|g: int|
            0 <= g < faces.len() ==> (#[trigger] faces[g]).edge < hs.len()
                && hs[faces[g].edge as int].face == Some(g as usize),
{
    assert forall|g: int|
        0 <= g < faces.len() implies (#[trigger] faces[g]).edge < hs.len()
        && hs[faces[g].edge as int].face == Some(g as usize) by {
        if g < f as int {
            assert(faces[g] == faces_snap[g]);
            assert(snap[faces[g].edge as int].face == Some(g as usize));
            assert(!cyc.contains(faces[g].edge)) by {
                if cyc.contains(faces[g].edge) {
                    let t = choose|t: int| 0 <= t < cyc.len() && cyc[t] == faces[g].edge;
                    assert(snap[cyc[t] as int].face is None);
                }
            }
            assert(hs[faces[g].edge as int] == snap[faces[g].edge as int]);
        } else {
            assert(faces[g].edge == e);
            assert(cyc[0] == e);
            assert(hs[cyc[0] as int].face == Some(f));
        }
    }
}

/// Assigns every half-edge of one orbit to the face `f`, touching
/// nothing else.
fn assign_orbit(hs: &mut Vec<HalfEdge>, cycle: &Vec<usize>, f: usize)
    requires
        cycle@.len() >= 1,
        cycle@.no_duplicates(),
        forall|t: int| 0 <= t < cycle@.len() ==> (#[trigger] cycle@[t]) < old(hs)@.len(),
    ensures
        final(hs)@.len() == old(hs)@.len(),
        forall|y: int|
            0 <= y < old(hs)@.len() && !cycle@.contains(y as usize) ==> final(hs)@[y] == old(hs)@[y],
        forall|t: int|
            0 <= t < cycle@.len() ==> (#[trigger] final(hs)@[cycle@[t] as int]).origin == old(hs)@[cycle@[t] as int].origin && final(hs)@[cycle@[t] as int].twin == old(hs)@[cycle@[t] as int].twin && final(hs)@[cycle@[t] as int].next == old(hs)@[cycle@[t] as int].next && final(hs)@[cycle@[t] as int].face == Some(f),
{
    let ghost snap = old(hs)@;
    let ghost cyc = cycle@;
    let ghost n0 = old(hs)@.len();
    let mut idx: usize = 0;
    while idx < cycle.len()
        invariant
            hs@.len() == n0,
            snap.len() == n0,
            cycle@ == cyc,
            cyc.len() >= 1,
            cyc.no_duplicates(),
            idx <= cyc.len(),
            forall|t: int| 0 <= t < cyc.len() ==> (#[trigger] cyc[t]) < n0,
            forall|y: int| 0 <= y < n0 && !cyc.contains(y as usize) ==> hs@[y] == snap[y],
            forall|t: int|
                0 <= t < idx ==> (#[trigger] hs@[cyc[t] as int]).origin == snap[cyc[t] as int].origin
                    && hs@[cyc[t] as int].twin == snap[cyc[t] as int].twin
                    && hs@[cyc[t] as int].next == snap[cyc[t] as int].next
                    && hs@[cyc[t] as int].face == Some(f),
            forall|t: int|
                idx <= t < cyc.len() ==> hs@[#[trigger] cyc[t] as int] == snap[cyc[t] as int],
        decreases cyc.len() - idx,
    {
        let x = cycle[idx];
        let mut hx = hs[x];
        hx.face = Some(f);
        hs.set(x, hx);
        idx = idx + 1;
    }
}

/// Discovers the face through `e`: walks its `next`-cycle and assigns
/// every half-edge on it to a fresh face.
#[verifier::rlimit(100)]
fn discover_face(
    hs: &mut Vec<HalfEdge>,
    faces: &mut Vec<Face>,
    e: usize,
    Ghost(base): Ghost<Seq<HalfEdge>>,
)
    requires
        old(hs)@.len() == base.len(),
        next_structure(base),
        forall|x: int|
            0 <= x < base.len() ==> (#[trigger] old(hs)@[x]).origin == base[x].origin && old(hs)@[x].twin == base[x].twin && old(hs)@[x].next == base[x].next,
        forall|x: int|
            0 <= x < base.len() && (#[trigger] old(hs)@[x]).face is Some ==> old(hs)@[x].face.unwrap() < old(faces)@.len(),
        forall|x: int|
            0 <= x < base.len() && old(hs)@[x].face is Some ==> old(hs)@[#[trigger] next_of(
                base,
                x,
            )].face == old(hs)@[x].face,
        forall|f: int|
            0 <= f < old(faces)@.len() ==> (#[trigger] old(faces)@[f]).edge < base.len() && old(hs)@[old(faces)@[f].edge as int].face == Some(f as usize),
        forall|x: int|
            0 <= x < base.len() && (#[trigger] old(hs)@[x]).face is Some ==> assigned_on_cycle(
                base,
                old(faces)@,
                old(hs)@,
                x,
            ),
        e < base.len(),
        old(hs)@[e as int].face is None,
    ensures
        final(hs)@.len() == base.len(),
        final(faces)@.len() >= 1,
        forall|x: int|
            0 <= x < base.len() ==> (#[trigger] final(hs)@[x]).origin == base[x].origin && final(hs)@[x].twin == base[x].twin && final(hs)@[x].next == base[x].next,
        forall|x: int|
            0 <= x < base.len() && (#[trigger] final(hs)@[x]).face is Some ==> final(hs)@[x].face.unwrap() < final(faces)@.len(),
        forall|x: int|
            0 <= x < base.len() && final(hs)@[x].face is Some ==> final(hs)@[#[trigger] next_of(
                base,
                x,
            )].face == final(hs)@[x].face,
        forall|f: int|
            0 <= f < final(faces)@.len() ==> (#[trigger] final(faces)@[f]).edge < base.len()
                && final(hs)@[final(faces)@[f].edge as int].face == Some(f as usize),
        forall|x: int|
            0 <= x < base.len() && (#[trigger] old(hs)@[x]).face is Some ==> final(hs)@[x].face
                is Some,
        forall|x: int|
            0 <= x < base.len() && (#[trigger] final(hs)@[x]).face is Some ==> assigned_on_cycle(
                base,
                final(faces)@,
                final(hs)@,
                x,
            ),
        final(hs)@[e as int].face is Some,
{
    let ghost n0 = base.len();
    let _n_edges = hs.len();
    proof {
        assert(_n_edges == n0 && hs@.len() <= usize::MAX);
        lemma_next_structure_frame(base, hs@);
    }
    let cycle = collect_cycle(hs, e);
    let ghost cyc = cycle@;
    proof {
        lemma_orbit_setup(hs@, base, cyc, e as int);
    }
    let f = faces.len();
    faces.push(Face { edge: e });
    let ghost snap = hs@;
    let ghost faces_snap = faces@.drop_last();
    proof {
        assert(faces_snap =~= faces@.drop_last());
        assert(faces_snap =~= old(faces)@);
        assert(faces@ =~= faces_snap.push(Face { edge: e }));
    }
    assign_orbit(hs, &cycle, f);
    proof {
        assert(orbit_step(base, snap, hs@, cyc, f, e as int));
        lemma_orbit_commit_frame(base, snap, hs@, cyc, f, e as int);
        lemma_orbit_commit_bound(base, snap, hs@, cyc, faces_snap, f, e as int);
        lemma_orbit_commit_closure(base, snap, hs@, cyc, f, e as int);
        lemma_orbit_commit_reps(base, snap, hs@, cyc, faces_snap, faces@, f, e as int);
        assert(hs@[e as int].face is Some) by {
            assert(cyc[0] == e);
            assert(hs@[cyc[0] as int].face == Some(f));
        }
        assert forall|x: int|
            0 <= x < n0 && (#[trigger] snap[x]).face is Some implies hs@[x].face is Some by {
            if cyc.contains(x as usize) {
                let t = choose|t: int| 0 <= t < cyc.len() && cyc[t] == x as usize;
                assert(snap[cyc[t] as int].face is None);
            }
            assert(hs@[x] == snap[x]);
        }
        assert forall|x: int|
            0 <= x < n0 && (#[trigger] hs@[x]).face is Some implies assigned_on_cycle(
            base,
            faces@,
            hs@,
            x,
        ) by {
            if cyc.contains(x as usize) {
                let t = choose|t: int| 0 <= t < cyc.len() && cyc[t] == x as usize;
                assert(cyc[t] as int == x);
                assert(hs@[x].face == Some(f));
                assert(faces@[f as int].edge == e);
                assert(cyc[t] as int == iter_next(snap, e as int, t as nat));
                lemma_next_structure_frame(base, snap);
                lemma_iter_frame(snap, base, e as int, t as nat);
                assert(iter_next(base, e as int, t as nat) == x);
            } else {
                assert(hs@[x] == snap[x] && snap[x] == old(hs)@[x]);
                assert(assigned_on_cycle(base, faces_snap, old(hs)@, x));
                let fx = old(hs)@[x].face.unwrap() as int;
                let k = choose|k: nat|
                    iter_next(base, faces_snap[fx].edge as int, k) == x;
                assert(old(hs)@[x].face.unwrap() < faces_snap.len());
                assert(faces@[fx] == faces_snap[fx]);
                assert(iter_next(base, faces@[hs@[x].face.unwrap() as int].edge as int, k) == x);
            }
        }
    }
}

/// Discovers the faces: repeatedly picks an unassigned half-edge, walks
/// its `next`-cycle, and assigns all of it to a fresh face.
fn assign_faces(hs: &mut Vec<HalfEdge>) -> (faces: Vec<Face>)
    requires
        next_structure(old(hs)@),
        forall|x: int| 0 <= x < old(hs)@.len() ==> (#[trigger] old(hs)@[x]).face is None,
    ensures
        final(hs)@.len() == old(hs)@.len(),
        faces@.len() >= 1 || old(hs)@.len() == 0,
        forall|x: int|
            0 <= x < final(hs)@.len() ==> (#[trigger] final(hs)@[x]).origin == old(hs)@[x].origin
                && final(hs)@[x].twin == old(hs)@[x].twin
                && final(hs)@[x].next == old(hs)@[x].next,
        forall|x: int|
            0 <= x < final(hs)@.len() ==> (#[trigger] final(hs)@[x]).face is Some
                && final(hs)@[x].face.unwrap() < faces@.len(),
        forall|x: int|
            0 <= x < final(hs)@.len() ==> final(hs)@[#[trigger] next_of(old(hs)@, x)].face
                == final(hs)@[x].face,
        forall|f: int|
            0 <= f < faces@.len() ==> (#[trigger] faces@[f]).edge < final(hs)@.len()
                && final(hs)@[faces@[f].edge as int].face == Some(f as usize),
        forall|x: int|
            0 <= x < final(hs)@.len() ==> #[trigger] assigned_on_cycle(
                old(hs)@,
                faces@,
                final(hs)@,
                x,
            ),
{
    let ghost base = old(hs)@;
    let n0 = hs.len();
    let mut faces: Vec<Face> = Vec::new();
    let mut e: usize = 0;
    while e < n0
        invariant
            hs@.len() == n0,
            base.len() == n0,
            next_structure(base),
            forall|x: int|
                0 <= x < n0 ==> (#[trigger] hs@[x]).origin == base[x].origin && hs@[x].twin
                    == base[x].twin && hs@[x].next == base[x].next,
            forall|x: int|
                0 <= x < n0 && (#[trigger] hs@[x]).face is Some ==> hs@[x].face.unwrap()
                    < faces@.len(),
            forall|x: int|
                0 <= x < n0 && hs@[x].face is Some ==> hs@[#[trigger] next_of(base, x)].face
                    == hs@[x].face,
            forall|f: int|
                0 <= f < faces@.len() ==> (#[trigger] faces@[f]).edge < n0 && hs@[faces@[f].edge as int].face
                    == Some(f as usize),
            forall|x: int| 0 <= x < e ==> (#[trigger] hs@[x]).face is Some,
            forall|x: int|
                0 <= x < n0 && (#[trigger] hs@[x]).face is Some ==> assigned_on_cycle(
                    base,
                    faces@,
                    hs@,
                    x,
                ),
            faces@.len() >= 1 || e == 0,
        decreases n0 - e,
    {
        if hs[e].face.is_none() {
            let ghost pre = hs@;
            discover_face(hs, &mut faces, e, Ghost(base));
            proof {
                assert forall|x: int| 0 <= x < e + 1 implies (#[trigger] hs@[x]).face is Some by {
                    if x < e as int {
                        assert(pre[x].face is Some);
                    }
                }
            }
        } else {
            proof {
                assert(hs@[e as int].face.unwrap() < faces@.len());
            }
        }
        e = e + 1;
    }
    faces
}

impl DCEL {
    /// Structural well-formedness: twins pair up, every half-edge is
    /// linked into a face cycle, `next` is a bijection, each half-edge
    /// continues from the vertex it arrives at, faces partition the
    /// half-edges, and every face's representative edge carries the
    /// face's own index.
    pub open spec fn wf(self) -> bool {
        let hs = self.half_edges@;
        &&& next_structure(hs)
        &&& forall|e: int| 0 <= e < hs.len() ==> (#[trigger] hs[e]).origin < self.num_vertices
        &&& forall|e: int|
            0 <= e < hs.len() ==> (#[trigger] hs[e]).twin < hs.len() && hs[hs[e].twin as int].twin
                == e && hs[e].twin != e
        &&& forall|e: int| 0 <= e < hs.len() ==> (#[trigger] hs[e]).origin != head_of(hs, e)
        &&& forall|e: int|
            0 <= e < hs.len() ==> hs[#[trigger] next_of(hs, e)].origin == head_of(hs, e)
        &&& forall|e: int| 0 <= e < hs.len() ==> #[trigger] on_face_cycle(hs, self.faces@, e)
        &&& forall|e: int|
            0 <= e < hs.len() ==> (#[trigger] hs[e]).face is Some && hs[e].face.unwrap()
                < self.faces@.len()
        &&& forall|e: int| 0 <= e < hs.len() ==> hs[#[trigger] next_of(hs, e)].face == hs[e].face
        &&& forall|f: int|
            0 <= f < self.faces@.len() ==> (#[trigger] self.faces@[f]).edge < hs.len()
                && hs[self.faces@[f].edge as int].face == Some(f as usize)
    }

    /// Builds the overlay's half-edge structure from the refined segment
    /// set and the caller's per-vertex angular orders.  Succeeds exactly
    /// on valid input: canonical duplicate-free segments over the vertex
    /// range, and an angular order per vertex that lists exactly its
    /// neighbors, at least two of them.  On success the structure is
    /// well-formed and linked by the rotation rule; every failure is the
    /// overlay-construction error.
    #[verifier::rlimit(100)]
    pub fn new(num_vertices: usize, segments: &Vec<Segment>, orders: &Vec<Vec<usize>>) -> (r:
        Result<DCEL, MorphError>)
        ensures
            r is Ok <==> valid_overlay_input(
                num_vertices as int,
                segments@,
                order_views(orders@),
            ),
            match r {
                Ok(d) => {
                    &&& d.wf()
                    &&& d.num_vertices == num_vertices
                    &&& d.faces@.len() >= 1 || segments@.len() == 0
                    &&& twin_pairing(d.half_edges@, segments@)
                    &&& forall|e: int|
                        0 <= e < d.half_edges@.len() ==> #[trigger] next_of(d.half_edges@, e)
                            == rotation_next(
                            segments@,
                            order_views(orders@),
                            d.half_edges@,
                            e,
                        )
                },
                Err(er) => er == MorphError::OverlayConstructionFailure,
            },
    {
        let ghost segs = segments@;
        let ghost ov = order_views(orders@);
        if !check_overlay_input(num_vertices, segments, orders) {
            return Err(MorphError::OverlayConstructionFailure);
        }
        let mut hs = make_twin_pairs(segments);
        link_next(&mut hs, num_vertices, segments, orders);
        proof {
            assert forall|e: int| 0 <= e < hs@.len() implies #[trigger] next_of(hs@, e)
                == rotation_next(segs, ov, hs@, e) && 0 <= next_of(hs@, e) < hs@.len() by {
                lemma_rotation_next_props(num_vertices as int, segs, ov, hs@, e);
            }
            assert(next_structure(hs@)) by {
                assert forall|e1: int, e2: int|
                    0 <= e1 < hs@.len() && 0 <= e2 < hs@.len() && #[trigger] next_of(hs@, e1)
                        == #[trigger] next_of(hs@, e2) implies e1 == e2 by {
                    lemma_rotation_next_injective(num_vertices as int, segs, ov, hs@, e1, e2);
                }
            }
        }
        let ghost linked = hs@;
        let faces = assign_faces(&mut hs);
        proof {
            assert(twin_pairing(hs@, segs)) by {
                assert forall|k: int|
                    0 <= k < segs.len() implies {
                    &&& hs@[2 * k].origin == (#[trigger] segs[k]).lo
                    &&& hs@[2 * k].twin == 2 * k + 1
                    &&& hs@[2 * k + 1].origin == segs[k].hi
                    &&& hs@[2 * k + 1].twin == 2 * k
                } by {
                    assert(0 <= 2 * k < hs@.len() && 0 <= 2 * k + 1 < hs@.len());
                    assert(hs@[2 * k].origin == linked[2 * k].origin);
                    assert(hs@[2 * k].twin == linked[2 * k].twin);
                    assert(hs@[2 * k + 1].origin == linked[2 * k + 1].origin);
                    assert(hs@[2 * k + 1].twin == linked[2 * k + 1].twin);
                }
            }
            lemma_next_structure_frame(linked, hs@);
            assert forall|e: int| 0 <= e < hs@.len() implies #[trigger] next_of(hs@, e)
                == rotation_next(segs, ov, hs@, e) by {
                assert(hs@[e].next == linked[e].next);
                assert(next_of(hs@, e) == next_of(linked, e));
                lemma_edge_identity(hs@, segs, e);
                assert(hs@[e].twin < hs@.len()) by {
                    let k = e / 2;
                    assert(segs[k].is_canonical());
                }
                lemma_rotation_frame(segs, ov, hs@, linked, e);
            }
            assert forall|e: int|
                0 <= e < hs@.len() implies (#[trigger] hs@[e]).origin < num_vertices && hs@[e].twin
                < hs@.len() && hs@[hs@[e].twin as int].twin == e && hs@[e].twin != e
                && hs@[e].origin != head_of(hs@, e) by {
                lemma_edge_identity(hs@, segs, e);
                let k = e / 2;
                assert(segs[k].is_canonical() && segs[k].in_range(num_vertices as int));
            }
            assert forall|e: int| 0 <= e < hs@.len() implies #[trigger] on_face_cycle(
                hs@,
                faces@,
                e,
            ) by {
                assert(assigned_on_cycle(linked, faces@, hs@, e));
                let fx = hs@[e].face.unwrap() as int;
                let k = choose|k: nat| iter_next(linked, faces@[fx].edge as int, k) == e;
                assert(faces@[fx].edge < hs@.len());
                lemma_iter_frame(linked, hs@, faces@[fx].edge as int, k);
                assert(iter_next(hs@, faces@[fx].edge as int, k) == e);
            }
            assert forall|e: int| 0 <= e < hs@.len() implies hs@[#[trigger] next_of(
                hs@,
                e,
            )].origin == head_of(hs@, e) by {
                lemma_rotation_next_props(num_vertices as int, segs, ov, hs@, e);
            }
            assert forall|e: int| 0 <= e < hs@.len() implies hs@[#[trigger] next_of(
                hs@,
                e,
            )].face == hs@[e].face by {
                assert(next_of(hs@, e) == next_of(linked, e));
            }
        }
        let d = DCEL { num_vertices, half_edges: hs, faces };
        proof {
            assert(d.wf());
            if d.half_edges@.len() > 0 {
                assert(d.half_edges@[0].face is Some);
            }
        }
        Ok(d)
    }

    /// The vertices around a face, in boundary order: the origins of the
    /// face's `next`-cycle, starting from its representative edge.
    pub fn get_face_vertices(&self, face_idx: usize) -> (out: Vec<usize>)
        requires
            self.wf(),
            face_idx < self.faces@.len(),
        ensures
            2 <= out@.len() <= self.half_edges@.len(),
            forall|i: int| 0 <= i < out@.len() ==> (#[trigger] out@[i]) < self.num_vertices,
            out@ == face_vertices_of(*self, face_idx as int),
            out@.len() == face_cycle_len(*self, face_idx as int),
    {
        let start = self.faces[face_idx].edge;
        let cycle = collect_cycle(&self.half_edges, start);
        let ghost klen = cycle@.len() as nat;
        proof {
            assert(is_cycle_length(self.half_edges@, start as int, klen));
            let kc = face_cycle_len(*self, face_idx as int);
            assert(is_cycle_length(self.half_edges@, start as int, kc));
            lemma_cycle_len_unique(self.half_edges@, start as int, klen, kc);
            assert(klen >= 2) by {
                if klen == 1 {
                    let hs = self.half_edges@;
                    assert(iter_next(hs, start as int, 0nat) == start as int);
                    assert(iter_next(hs, start as int, 1nat) == start as int);
                    assert(next_of(hs, start as int) == start as int);
                    assert(hs[next_of(hs, start as int)].origin == head_of(hs, start as int));
                    assert(hs[start as int].origin != head_of(hs, start as int));
                }
            }
        }
        let mut out: Vec<usize> = Vec::new();
        let mut i: usize = 0;
        while i < cycle.len()
            invariant
                self.wf(),
                start < self.half_edges@.len(),
                i <= cycle@.len(),
                out@.len() == i,
                forall|t: int| 0 <= t < cycle@.len() ==> #[trigger] cycle@[t] < self.half_edges@.len(),
                forall|t: int|
                    0 <= t < cycle@.len() ==> #[trigger] cycle@[t] as int == iter_next(
                        self.half_edges@,
                        start as int,
                        t as nat,
                    ),
                forall|t: int|
                    0 <= t < i ==> #[trigger] out@[t] == self.half_edges@[cycle@[t] as int].origin,
            decreases cycle@.len() - i,
        {
            out.push(self.half_edges[cycle[i]].origin);
            i = i + 1;
        }
        proof {
            assert forall|t: int| 0 <= t < out@.len() implies (#[trigger] out@[t])
                < self.num_vertices by {
                assert(out@[t] == self.half_edges@[cycle@[t] as int].origin);
            }
            assert(out@ =~= face_vertices_of(*self, face_idx as int));
        }
        out
    }
}

} // verus!
