use vstd::prelude::*;
use rayon::slice::ParallelSliceMut;
use crate::score::{better, rank_cmp, Order, Score};

verus! {

/// Below this many entries a ranking uses a stable sequential sort; from it on,
/// an unstable parallel one.
pub const PARALLEL_SORT_MIN: usize = 1000;

/// Each score paired with its position.
pub open spec fn tagged(s: Seq<Score>) -> Seq<(usize, Score)> {
    Seq::new(s.len(), |k: int| (k as usize, s[k]))
}

/// `r` holds each entry of the tagged sequence `v` exactly once.
pub open spec fn reorders(r: Seq<(usize, Score)>, v: Seq<(usize, Score)>) -> bool {
    &&& r.len() == v.len()
    &&& forall|k: int| 0 <= k < r.len() ==> (r[k].0 as int) < v.len() && r[k] == v[r[k].0 as int]
    &&& forall|i: int, j: int| 0 <= i < r.len() && 0 <= j < r.len() && i != j ==> r[i].0 != r[j].0
    &&& forall|p: int| 0 <= p < v.len() ==> exists|k: int| 0 <= k < r.len() && r[k] == #[trigger] v[p]
}

/// No entry is strictly better than one before it.
pub open spec fn ranked(o: Order, r: Seq<(usize, Score)>) -> bool {
    forall|i: int, j: int| 0 <= i < j < r.len() ==> !better(o, r[j].1, r[i].1)
}

/// Entries that score alike keep the order of their positions.
pub open spec fn ties_in_order(o: Order, r: Seq<(usize, Score)>) -> bool {
    forall|i: int, j: int|
        0 <= i < j < r.len() && !better(o, r[i].1, r[j].1) ==> r[i].0 < r[j].0
}

pub open spec fn is_tagged(v: Seq<(usize, Score)>) -> bool {
    forall|k: int| 0 <= k < v.len() ==> v[k].0 == k && v[k].1.wf()
}

/// Relies on `slice::sort_by`: a stable sort, which reorders the entries so
/// that the comparator, a total order here, never finds a later entry less than
/// an earlier one, and keeps entries it finds equal in their previous order.
#[verifier::external_body]
fn sort_stable(v: &mut Vec<(usize, Score)>, o: Order)
    requires
        is_tagged(old(v)@),
    ensures
        reorders(final(v)@, old(v)@),
        ranked(o, final(v)@),
        ties_in_order(o, final(v)@),
{
    v.sort_by(|a, b| rank_cmp(o, a.1, b.1))
}

/// Relies on rayon's `par_sort_unstable_by`: an in-place parallel sort, which
/// reorders the entries so that the comparator, a total order here, never finds
/// a later entry less than an earlier one; equal entries may come in any order.
#[verifier::external_body]
fn sort_parallel(v: &mut Vec<(usize, Score)>, o: Order)
    requires
        is_tagged(old(v)@),
    ensures
        reorders(final(v)@, old(v)@),
        ranked(o, final(v)@),
{
    v.par_sort_unstable_by(|a, b| rank_cmp(o, a.1, b.1))
}

/// Positions of `scores` from best to worst under `o`. Small inputs are sorted
/// stably, so that ties keep their positions' order; large ones in parallel.
pub fn rank(scores: &Vec<Score>, o: Order) -> (r: Vec<(usize, Score)>)
    requires
        forall|k: int| 0 <= k < scores.len() ==> scores[k].wf(),
    ensures
        reorders(r@, tagged(scores@)),
        ranked(o, r@),
        scores.len() < PARALLEL_SORT_MIN ==> ties_in_order(o, r@),
{
    let mut v: Vec<(usize, Score)> = Vec::new();
    let mut k: usize = 0;
    while k < scores.len()
        invariant
            k <= scores.len(),
            v@ == tagged(scores@).take(k as int),
            forall|x: int| 0 <= x < scores.len() ==> scores[x].wf(),
        decreases scores.len() - k,
    {
        v.push((k, scores[k]));
        k += 1;
        assert(v@ =~= tagged(scores@).take(k as int));
    }
    assert(v@ =~= tagged(scores@));
    if scores.len() < PARALLEL_SORT_MIN {
        sort_stable(&mut v, o);
    } else {
        sort_parallel(&mut v, o);
    }
    v
}

} // verus!
