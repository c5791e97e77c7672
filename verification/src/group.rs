//! The segment grouper: stitching an unordered collection of directed
//! segments into polylines by matching coincident endpoints.
//!
//! A chain is started from the most recently added remaining segment,
//! extended forward while some remaining segment's start point exactly equals
//! the chain's tail (first positional match wins), then reversed and extended
//! the other way while some remaining segment's end point equals the chain's
//! head.  Matching is always by exact equality; the removal order is pinned,
//! so the output is a function of the input sequence alone.

use vstd::prelude::*;

verus! {

use crate::point::Point;
use crate::intersect::Segment;

/// The first index whose segment starts at `p`, or -1.
pub open spec fn find_start(segs: Seq<Segment>, p: Point) -> int
    decreases segs.len(),
{
    if segs.len() == 0 {
        -1
    } else if segs[0].0 == p {
        0
    } else {
        let r = find_start(segs.drop_first(), p);
        if r == -1 {
            -1
        } else {
            r + 1
        }
    }
}

/// The first index whose segment ends at `p`, or -1.
pub open spec fn find_end(segs: Seq<Segment>, p: Point) -> int
    decreases segs.len(),
{
    if segs.len() == 0 {
        -1
    } else if segs[0].1 == p {
        0
    } else {
        let r = find_end(segs.drop_first(), p);
        if r == -1 {
            -1
        } else {
            r + 1
        }
    }
}

/// `find_start` returns the first match: if index `i` matches and no earlier
/// index does, `find_start` is `i`.
pub proof fn lemma_find_start_at(segs: Seq<Segment>, p: Point, i: int)
    requires
        0 <= i < segs.len(),
        segs[i].0 == p,
        forall|j: int| 0 <= j < i ==> segs[j].0 != p,
    ensures
        find_start(segs, p) == i,
    decreases segs.len(),
{
    if i > 0 {
        lemma_find_start_at(segs.drop_first(), p, i - 1);
    }
}

/// If no segment starts at `p`, `find_start` is -1.
pub proof fn lemma_find_start_none(segs: Seq<Segment>, p: Point)
    requires
        forall|j: int| 0 <= j < segs.len() ==> segs[j].0 != p,
    ensures
        find_start(segs, p) == -1,
    decreases segs.len(),
{
    if segs.len() > 0 {
        lemma_find_start_none(segs.drop_first(), p);
    }
}

/// `find_end` returns the first match.
pub proof fn lemma_find_end_at(segs: Seq<Segment>, p: Point, i: int)
    requires
        0 <= i < segs.len(),
        segs[i].1 == p,
        forall|j: int| 0 <= j < i ==> segs[j].1 != p,
    ensures
        find_end(segs, p) == i,
    decreases segs.len(),
{
    if i > 0 {
        lemma_find_end_at(segs.drop_first(), p, i - 1);
    }
}

/// If no segment ends at `p`, `find_end` is -1.
pub proof fn lemma_find_end_none(segs: Seq<Segment>, p: Point)
    requires
        forall|j: int| 0 <= j < segs.len() ==> segs[j].1 != p,
    ensures
        find_end(segs, p) == -1,
    decreases segs.len(),
{
    if segs.len() > 0 {
        lemma_find_end_none(segs.drop_first(), p);
    }
}

/// Forward extension: while some remaining segment starts at the chain's
/// tail, remove the first such segment and append its end point.
pub open spec fn extend_fwd(segs: Seq<Segment>, chain: Seq<Point>) -> (Seq<Point>, Seq<Segment>)
    decreases segs.len(),
{
    let i = find_start(segs, chain.last());
    if 0 <= i < segs.len() {
        extend_fwd(segs.remove(i), chain.push(segs[i].1))
    } else {
        (chain, segs)
    }
}

/// Backward extension: while some remaining segment ends at the (reversed)
/// chain's tail, remove the first such segment and append its start point.
pub open spec fn extend_bwd(segs: Seq<Segment>, chain: Seq<Point>) -> (Seq<Point>, Seq<Segment>)
    decreases segs.len(),
{
    let i = find_end(segs, chain.last());
    if 0 <= i < segs.len() {
        extend_bwd(segs.remove(i), chain.push(segs[i].0))
    } else {
        (chain, segs)
    }
}

/// Extension never adds segments back.
pub proof fn lemma_extend_fwd_len(segs: Seq<Segment>, chain: Seq<Point>)
    ensures
        extend_fwd(segs, chain).1.len() <= segs.len(),
    decreases segs.len(),
{
    let i = find_start(segs, chain.last());
    if 0 <= i < segs.len() {
        lemma_extend_fwd_len(segs.remove(i), chain.push(segs[i].1));
    }
}

/// Extension never adds segments back.
pub proof fn lemma_extend_bwd_len(segs: Seq<Segment>, chain: Seq<Point>)
    ensures
        extend_bwd(segs, chain).1.len() <= segs.len(),
    decreases segs.len(),
{
    let i = find_end(segs, chain.last());
    if 0 <= i < segs.len() {
        lemma_extend_bwd_len(segs.remove(i), chain.push(segs[i].0));
    }
}

/// Forward extension keeps the chain's first point.
pub proof fn lemma_extend_fwd_first(segs: Seq<Segment>, chain: Seq<Point>)
    requires
        chain.len() >= 1,
    ensures
        extend_fwd(segs, chain).0.len() >= chain.len(),
        extend_fwd(segs, chain).0[0] == chain[0],
    decreases segs.len(),
{
    let i = find_start(segs, chain.last());
    if 0 <= i < segs.len() {
        lemma_extend_fwd_first(segs.remove(i), chain.push(segs[i].1));
    }
}

/// The views of a collection of polylines.
pub open spec fn views_of(cycles: Seq<Vec<Point>>) -> Seq<Seq<Point>> {
    cycles.map_values(|c: Vec<Point>| c@)
}

/// The chain grown from the most recently added segment of `segs`, and the
/// segments left over.
pub open spec fn spec_chain(segs: Seq<Segment>) -> (Seq<Point>, Seq<Segment>) {
    let seg = segs.last();
    let rest = segs.drop_last();
    let fwd = extend_fwd(rest, seq![seg.0, seg.1]);
    extend_bwd(fwd.1, fwd.0.reverse())
}

/// The polylines stitched out of `segs`: chains are pulled off one at a
/// time, each starting from the most recently added remaining segment.
pub open spec fn spec_group(segs: Seq<Segment>) -> Seq<Seq<Point>>
    decreases segs.len(),
    via spec_group_decreases
{
    if segs.len() == 0 {
        Seq::empty()
    } else {
        seq![spec_chain(segs).0] + spec_group(spec_chain(segs).1)
    }
}

#[via_fn]
proof fn spec_group_decreases(segs: Seq<Segment>) {
    if segs.len() > 0 {
        let seg = segs.last();
        let rest = segs.drop_last();
        let fwd = extend_fwd(rest, seq![seg.0, seg.1]);
        lemma_extend_fwd_len(rest, seq![seg.0, seg.1]);
        lemma_extend_bwd_len(fwd.1, fwd.0.reverse());
    }
}

/// The first position whose segment starts at `p`, if any.
fn position_start(segments: &Vec<Segment>, p: Point) -> (r: Option<usize>)
    ensures
        match r {
            Some(i) => i < segments@.len() && segments@[i as int].0 == p && find_start(
                segments@, p) == i,
            None => find_start(segments@, p) == -1,
        },
{
    let mut i: usize = 0;
    while i < segments.len()
        invariant
            i <= segments@.len(),
            forall|j: int| 0 <= j < i ==> segments@[j].0 != p,
        decreases segments@.len() - i,
    {
        if segments[i].0 == p {
            proof {
                lemma_find_start_at(segments@, p, i as int);
            }
            return Some(i);
        }
        i = i + 1;
    }
    proof {
        lemma_find_start_none(segments@, p);
    }
    None
}

/// The first position whose segment ends at `p`, if any.
fn position_end(segments: &Vec<Segment>, p: Point) -> (r: Option<usize>)
    ensures
        match r {
            Some(i) => i < segments@.len() && segments@[i as int].1 == p && find_end(
                segments@, p) == i,
            None => find_end(segments@, p) == -1,
        },
{
    let mut i: usize = 0;
    while i < segments.len()
        invariant
            i <= segments@.len(),
            forall|j: int| 0 <= j < i ==> segments@[j].1 != p,
        decreases segments@.len() - i,
    {
        if segments[i].1 == p {
            proof {
                lemma_find_end_at(segments@, p, i as int);
            }
            return Some(i);
        }
        i = i + 1;
    }
    proof {
        lemma_find_end_none(segments@, p);
    }
    None
}

/// `v` in reverse order.
fn reversed(v: &Vec<Point>) -> (r: Vec<Point>)
    ensures
        r@ == v@.reverse(),
{
    let mut r: Vec<Point> = Vec::new();
    let mut i: usize = v.len();
    while i > 0
        invariant
            i <= v@.len(),
            r@.len() == v@.len() - i,
            forall|j: int| 0 <= j < r@.len() ==> r@[j] == v@[v@.len() - 1 - j],
        decreases i,
    {
        i = i - 1;
        r.push(v[i]);
    }
    proof {
        assert(r@ =~= v@.reverse());
    }
    r
}

/// Stitch the segments of one level into polylines.  The result is exactly
/// the chains of [`spec_group`], in order: the removal order is pinned (most
/// recently added segment first, first positional match wins), so repeated
/// calls on equal input produce equal output.
pub fn group_segments(segments: Vec<Segment>) -> (cycles: Vec<Vec<Point>>)
    ensures
        views_of(cycles@) == spec_group(segments@),
{
    let ghost orig = segments@;
    let mut segments = segments;
    let mut cycles: Vec<Vec<Point>> = Vec::new();
    while segments.len() > 0
        invariant
            views_of(cycles@) + spec_group(segments@) == spec_group(orig),
        decreases segments@.len(),
    {
        let ghost pre = segments@;
        let segment = segments.pop().unwrap();
        let mut cycle: Vec<Point> = Vec::new();
        cycle.push(segment.0);
        cycle.push(segment.1);
        let mut p2 = segment.1;
        proof {
            assert(segment == pre.last());
            assert(segments@ == pre.drop_last());
            assert(cycle@ =~= seq![segment.0, segment.1]);
        }
        let ghost fwd_segs = segments@;
        let ghost fwd_chain = cycle@;
        loop
            invariant
                cycle@.len() >= 1,
                p2 == cycle@.last(),
                extend_fwd(segments@, cycle@) == extend_fwd(fwd_segs, fwd_chain),
                segments@.len() <= fwd_segs.len(),
            ensures
                cycle@.len() >= 1,
                (cycle@, segments@) == extend_fwd(fwd_segs, fwd_chain),
            decreases segments@.len(),
        {
            match position_start(&segments, p2) {
                Some(pos) => {
                    let seg = segments.remove(pos);
                    p2 = seg.1;
                    cycle.push(p2);
                }
                None => {
                    break;
                }
            }
        }
        let cycle_rev = reversed(&cycle);
        let mut cycle = cycle_rev;
        let mut p1 = segment.0;
        proof {
            lemma_extend_fwd_first(fwd_segs, fwd_chain);
            assert(cycle@.last() == p1);
        }
        let ghost bwd_segs = segments@;
        let ghost bwd_chain = cycle@;
        loop
            invariant
                cycle@.len() >= 1,
                p1 == cycle@.last(),
                extend_bwd(segments@, cycle@) == extend_bwd(bwd_segs, bwd_chain),
                segments@.len() <= bwd_segs.len(),
            ensures
                (cycle@, segments@) == extend_bwd(bwd_segs, bwd_chain),
            decreases segments@.len(),
        {
            match position_end(&segments, p1) {
                Some(pos) => {
                    let seg = segments.remove(pos);
                    p1 = seg.0;
                    cycle.push(p1);
                }
                None => {
                    break;
                }
            }
        }
        proof {
            assert(spec_chain(pre) == (cycle@, segments@));
            assert(spec_group(pre) == seq![cycle@] + spec_group(segments@));
            lemma_extend_fwd_len(fwd_segs, fwd_chain);
            lemma_extend_bwd_len(bwd_segs, bwd_chain);
        }
        let ghost cycles_pre = cycles@;
        cycles.push(cycle);
        proof {
            assert(views_of(cycles@) =~= views_of(cycles_pre).push(cycle@));
            assert(views_of(cycles_pre).push(cycle@) + spec_group(segments@) =~= views_of(
                cycles_pre) + spec_group(pre));
        }
    }
    proof {
        assert(views_of(cycles@) + spec_group(segments@) =~= views_of(cycles@));
    }
    cycles
}

} // verus!
