//! Refinement of overlay segments by their recorded interior points.
//!
//! Coincidence detection and pairwise arc intersection (numeric work done
//! by the caller) leave every original segment with a set of interior
//! vertices.  Splitting walks the chain `start, interior..., end` (the
//! interior already sorted along the arc by distance from `start`) and
//! emits the consecutive sub-segments, dropping degenerate ones; the
//! union over all segments, deduplicated, is the overlay's edge set.

use vstd::prelude::*;

use crate::Segment;

verus! {

broadcast use vstd::seq_lib::lemma_seq_contains_after_push;

/// One overlay segment together with the interior vertices recorded on
/// it, sorted along the arc from `seg.lo` towards `seg.hi`.
#[derive(Clone, Debug)]
pub struct SegmentSplit {
    pub seg: Segment,
    pub interior: Vec<usize>,
}

/// The vertex chain a split walks: start, interior points, end.
pub open spec fn chain_of(seg: Segment, interior: Seq<usize>) -> Seq<usize> {
    seq![seg.lo] + interior + seq![seg.hi]
}

/// The consecutive sub-segments of a vertex chain, in canonical form,
/// with degenerate (equal-endpoint) pairs skipped.
pub open spec fn sub_segments(chain: Seq<usize>) -> Seq<Segment>
    decreases chain.len(),
{
    if chain.len() < 2 {
        seq![]
    } else if chain[0] == chain[1] {
        sub_segments(chain.drop_first())
    } else {
        seq![Segment::canon(chain[0], chain[1])] + sub_segments(chain.drop_first())
    }
}

/// Every sub-segment of a chain is canonical.
pub proof fn lemma_sub_segments_canonical(chain: Seq<usize>)
    ensures
        forall|i: int|
            0 <= i < sub_segments(chain).len() ==> (#[trigger] sub_segments(chain)[i]).is_canonical(),
    decreases chain.len(),
{
    if chain.len() >= 2 {
        lemma_sub_segments_canonical(chain.drop_first());
        let rest = sub_segments(chain.drop_first());
        if chain[0] == chain[1] {
            assert(sub_segments(chain) == rest);
        } else {
            assert(sub_segments(chain) == seq![Segment::canon(chain[0], chain[1])] + rest);
            assert forall|i: int|
                0 <= i < sub_segments(chain).len() implies (#[trigger] sub_segments(
                chain,
            )[i]).is_canonical() by {
                if i == 0 {
                    assert(sub_segments(chain)[0] == Segment::canon(chain[0], chain[1]));
                } else {
                    assert(sub_segments(chain)[i] == rest[i - 1]);
                }
            }
        }
    }
}

/// A chain without interior points yields exactly its own segment.
pub proof fn lemma_split_no_interior(seg: Segment)
    requires
        seg.is_canonical(),
    ensures
        sub_segments(chain_of(seg, Seq::empty())) =~= seq![seg],
{
    let chain = chain_of(seg, Seq::empty());
    assert(chain =~= seq![seg.lo, seg.hi]);
    assert(chain[0] == seg.lo && chain[1] == seg.hi);
    assert(chain.drop_first().len() == 1);
    assert(sub_segments(chain.drop_first()) =~= Seq::empty());
    assert(Segment::canon(seg.lo, seg.hi) == seg);
    assert(sub_segments(chain) =~= seq![Segment::canon(chain[0], chain[1])] + Seq::empty());
}

/// Splits one segment along its interior points.
pub fn split_segment(seg: Segment, interior: &Vec<usize>) -> (out: Vec<Segment>)
    ensures
        out@ == sub_segments(chain_of(seg, interior@)),
{
    let mut chain: Vec<usize> = Vec::new();
    chain.push(seg.lo);
    let mut i: usize = 0;
    while i < interior.len()
        invariant
            i <= interior@.len(),
            chain@ == seq![seg.lo] + interior@.take(i as int),
        decreases interior@.len() - i,
    {
        chain.push(interior[i]);
        proof {
            assert(seq![seg.lo] + interior@.take(i as int + 1) =~= (seq![seg.lo] + interior@.take(
                i as int,
            )).push(interior@[i as int]));
        }
        i = i + 1;
    }
    chain.push(seg.hi);
    proof {
        assert(interior@.take(interior@.len() as int) =~= interior@);
        assert(chain@ =~= chain_of(seg, interior@));
    }

    let ghost full = chain@;
    proof {
        assert(full.skip(0) =~= full);
        assert(Seq::<Segment>::empty() + sub_segments(full) =~= sub_segments(full));
    }
    let mut out: Vec<Segment> = Vec::new();
    let mut j: usize = 0;
    while j + 1 < chain.len()
        invariant
            chain@ == full,
            full.len() >= 2,
            j + 1 <= full.len(),
            sub_segments(full) == out@ + sub_segments(full.skip(j as int)),
        decreases full.len() - j,
    {
        proof {
            assert(full.skip(j as int).drop_first() =~= full.skip(j as int + 1));
        }
        if chain[j] != chain[j + 1] {
            out.push(Segment::new(chain[j], chain[j + 1]));
            proof {
                assert(sub_segments(full.skip(j as int)) == seq![
                    Segment::canon(full[j as int], full[j as int + 1]),
                ] + sub_segments(full.skip(j as int + 1)));
                assert(out@ + sub_segments(full.skip(j as int + 1)) =~= sub_segments(full));
            }
        } else {
            proof {
                assert(sub_segments(full.skip(j as int)) == sub_segments(full.skip(j as int + 1)));
            }
        }
        j = j + 1;
    }
    proof {
        assert(full.skip(j as int).len() < 2);
        assert(out@ + sub_segments(full.skip(j as int)) =~= out@);
    }
    out
}

/// `s` is one of the sub-segments contributed by the split `sp`.
pub open spec fn split_yields(sp: SegmentSplit, s: Segment) -> bool {
    sub_segments(chain_of(sp.seg, sp.interior@)).contains(s)
}

/// The overlay's edge set: the union of all splits' sub-segments, with
/// every segment listed exactly once.
pub fn refine_segments(splits: &Vec<SegmentSplit>) -> (out: Vec<Segment>)
    ensures
        out@.no_duplicates(),
        forall|s: Segment| #[trigger]
            out@.contains(s) <==> exists|k: int|
                0 <= k < splits@.len() && split_yields(#[trigger] splits@[k], s),
{
    let mut out: Vec<Segment> = Vec::new();
    let mut k: usize = 0;
    while k < splits.len()
        invariant
            k <= splits@.len(),
            out@.no_duplicates(),
            forall|s: Segment| #[trigger]
                out@.contains(s) <==> exists|j: int|
                    0 <= j < k && split_yields(#[trigger] splits@[j], s),
        decreases splits@.len() - k,
    {
        let pieces = split_segment(splits[k].seg, &splits[k].interior);
        let ghost prev = out@;
        let mut p: usize = 0;
        while p < pieces.len()
            invariant
                p <= pieces@.len(),
                pieces@ == sub_segments(
                    chain_of(splits@[k as int].seg, splits@[k as int].interior@),
                ),
                k < splits@.len(),
                out@.no_duplicates(),
                forall|s: Segment| #[trigger]
                    out@.contains(s) <==> (prev.contains(s) || pieces@.take(p as int).contains(s)),
                forall|s: Segment| #[trigger]
                    prev.contains(s) <==> exists|j: int|
                        0 <= j < k && split_yields(#[trigger] splits@[j], s),
            decreases pieces@.len() - p,
        {
            push_unique_refined(&mut out, pieces[p]);
            proof {
                assert(pieces@.take(p as int + 1) =~= pieces@.take(p as int).push(
                    pieces@[p as int],
                ));
            }
            p = p + 1;
        }
        proof {
            assert(pieces@.take(pieces@.len() as int) =~= pieces@);
            assert forall|s: Segment| #[trigger]
                out@.contains(s) implies exists|j: int|
                0 <= j < k as int + 1 && split_yields(#[trigger] splits@[j], s) by {
                if prev.contains(s) {
                    let j = choose|j: int| 0 <= j < k && split_yields(#[trigger] splits@[j], s);
                    assert(split_yields(splits@[j], s));
                } else {
                    assert(split_yields(splits@[k as int], s));
                }
            }
            assert forall|s: Segment|
                exists|j: int|
                    0 <= j < k as int + 1 && split_yields(
                        #[trigger] splits@[j],
                        s,
                    ) implies #[trigger] out@.contains(s) by {
                let j = choose|j: int|
                    0 <= j < k as int + 1 && split_yields(#[trigger] splits@[j], s);
                if j < k as int {
                    assert(prev.contains(s));
                }
            }
        }
        k = k + 1;
    }
    out
}

/// Appends `s` unless it is already present.
fn push_unique_refined(out: &mut Vec<Segment>, s: Segment)
    requires
        old(out)@.no_duplicates(),
    ensures
        final(out)@.no_duplicates(),
        forall|x: Segment| final(out)@.contains(x) <==> (old(out)@.contains(x) || x == s),
{
    let mut i: usize = 0;
    while i < out.len()
        invariant
            out@ == old(out)@,
            old(out)@.no_duplicates(),
            i <= out@.len(),
            forall|j: int| 0 <= j < i ==> out@[j] != s,
        decreases out@.len() - i,
    {
        if out[i] == s {
            return ;
        }
        i = i + 1;
    }
    out.push(s);
}

/// Splits that record no interior points refine to the plain union of
/// their own segments: the overlay of meshes whose arcs never cross and
/// whose vertices sit on no foreign edge is the union of the two
/// triangulations' edge sets, with no segment invented and none lost.
pub proof fn lemma_trivial_refinement(splits: Seq<SegmentSplit>, s: Segment)
    requires
        forall|k: int|
            0 <= k < splits.len() ==> (#[trigger] splits[k]).interior@.len() == 0
                && splits[k].seg.is_canonical(),
    ensures
        (exists|k: int| 0 <= k < splits.len() && split_yields(#[trigger] splits[k], s)) <==> (exists|
            k: int,
        |
            0 <= k < splits.len() && (#[trigger] splits[k]).seg == s),
{
    if exists|k: int| 0 <= k < splits.len() && split_yields(#[trigger] splits[k], s) {
        let k = choose|k: int| 0 <= k < splits.len() && split_yields(#[trigger] splits[k], s);
        assert(splits[k].interior@ =~= Seq::empty());
        lemma_split_no_interior(splits[k].seg);
        assert(sub_segments(chain_of(splits[k].seg, splits[k].interior@)) =~= seq![splits[k].seg]);
        assert(seq![splits[k].seg][0] == splits[k].seg);
        assert(splits[k].seg == s);
    }
    if exists|k: int| 0 <= k < splits.len() && (#[trigger] splits[k]).seg == s {
        let k = choose|k: int| 0 <= k < splits.len() && (#[trigger] splits[k]).seg == s;
        assert(splits[k].interior@ =~= Seq::empty());
        lemma_split_no_interior(splits[k].seg);
        assert(sub_segments(chain_of(splits[k].seg, splits[k].interior@))[0] == s);
        assert(split_yields(splits[k], s));
    }
}

/// Overlaying a triangulation with itself reproduces its own segment
/// set.  When both meshes contribute the same canonical segments and no
/// interior points are recorded, the refined overlay contains a segment
/// exactly when the original segment set does.
pub proof fn lemma_self_overlay(splits: Seq<SegmentSplit>, own: Seq<Segment>, s: Segment)
    requires
        forall|k: int|
            0 <= k < splits.len() ==> (#[trigger] splits[k]).interior@.len() == 0
                && splits[k].seg.is_canonical(),
        forall|k: int| 0 <= k < splits.len() ==> own.contains((#[trigger] splits[k]).seg),
        forall|j: int|
            0 <= j < own.len() ==> exists|k: int|
                0 <= k < splits.len() && (#[trigger] splits[k]).seg == #[trigger] own[j],
    ensures
        (exists|k: int| 0 <= k < splits.len() && split_yields(#[trigger] splits[k], s))
            <==> own.contains(s),
{
    lemma_trivial_refinement(splits, s);
    if own.contains(s) {
        let j = choose|j: int| 0 <= j < own.len() && own[j] == s;
        assert(exists|k: int| 0 <= k < splits.len() && (#[trigger] splits[k]).seg == own[j]);
    }
}

} // verus!
