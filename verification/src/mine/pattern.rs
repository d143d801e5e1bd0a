//! A repeated piece of work, what it costs, and the order of patterns by cost.
use crate::order::{rank, ranked, ranked_is_a_stable_sort, reordered};
use crate::text::{clone_all, texts};
use vstd::prelude::*;

verus! {

/// Something that was done by hand several times. The score is the estimated
/// time spent on it over the whole history, in quarters of a millisecond; it
/// stops growing at the greatest number it can hold.
#[derive(Debug)]
pub struct Pattern {
    pub templates: Vec<String>,
    pub count: usize,
    pub score: u128,
}

/// What a [`Pattern`] holds.
pub struct PatternView {
    pub templates: Seq<Seq<char>>,
    pub count: nat,
    pub score: u128,
}

impl View for Pattern {
    type V = PatternView;

    open spec fn view(&self) -> PatternView {
        PatternView {
            templates: texts(self.templates@),
            count: self.count as nat,
            score: self.score,
        }
    }
}

/// What a sequence of patterns holds.
pub open spec fn patterns_view(v: Seq<Pattern>) -> Seq<PatternView> {
    Seq::new(v.len(), |i: int| v[i]@)
}

/// The scores of patterns.
pub open spec fn scores(p: Seq<PatternView>) -> Seq<u128> {
    Seq::new(p.len(), |i: int| p[i].score)
}

/// The patterns with the costliest first; equal scores keep their order.
pub open spec fn by_score(p: Seq<PatternView>) -> Seq<PatternView> {
    reordered(p, ranked(scores(p)))
}

/// The score of `count` runs that take `per_run` milliseconds each, where
/// `weight` says how many quarters of that time are charged.
pub open spec fn weighed(weight: nat, count: nat, per_run: nat) -> u128 {
    let n = weight * count * per_run;
    if n > u128::MAX {
        u128::MAX
    } else {
        n as u128
    }
}

/// Computes [`weighed`].
pub fn weigh(weight: u128, count: usize, per_run: u128) -> (r: u128)
    requires
        weight <= 0xffff_ffff_ffff_ffff,
    ensures
        r == weighed(weight as nat, count as nat, per_run as nat),
{
    let n: u128 = count as u128;
    assert(weight * n <= 0xffff_ffff_ffff_ffff * 0xffff_ffff_ffff_ffff) by (nonlinear_arith)
        requires
            weight <= 0xffff_ffff_ffff_ffff,
            n <= 0xffff_ffff_ffff_ffff,
    ;
    let w: u128 = weight * n;
    match w.checked_mul(per_run) {
        Some(x) => x,
        None => u128::MAX,
    }
}

/// A copy of a pattern.
pub fn copy_pattern(p: &Pattern) -> (r: Pattern)
    ensures
        r@ == p@,
{
    Pattern { templates: clone_all(&p.templates), count: p.count, score: p.score }
}

/// Sorts patterns, the costliest first.
pub fn sort_by_score(p: &Vec<Pattern>) -> (r: Vec<Pattern>)
    ensures
        patterns_view(r@) == by_score(patterns_view(p@)),
{
    let mut keys: Vec<u128> = Vec::new();
    let mut i: usize = 0;
    while i < p.len()
        invariant
            i <= p@.len(),
            keys@.len() == i,
            forall|k: int| 0 <= k < i ==> #[trigger] keys@[k] == p@[k].score,
        decreases p@.len() - i,
    {
        keys.push(p[i].score);
        i += 1;
    }
    assert(keys@ =~= scores(patterns_view(p@)));
    let order = rank(&keys);
    proof {
        crate::order::ranked_is_a_stable_sort(keys@);
    }
    let mut out: Vec<Pattern> = Vec::new();
    let mut j: usize = 0;
    while j < order.len()
        invariant
            j <= order@.len() == p@.len(),
            order@ == ranked(keys@),
            forall|k: int| 0 <= k < order@.len() ==> (#[trigger] order@[k]) < p@.len(),
            out@.len() == j,
            forall|k: int| 0 <= k < j ==> (#[trigger] out@[k])@ == p@[order@[k] as int]@,
        decreases order@.len() - j,
    {
        out.push(copy_pattern(&p[order[j]]));
        j += 1;
    }
    assert(patterns_view(out@) =~= by_score(patterns_view(p@)));
    out
}

/// Sorting adds no pattern and puts the costliest first; it keeps every pattern of
/// a list that fits into memory.
pub proof fn costliest_come_first(p: Seq<PatternView>)
    ensures
        by_score(p).len() == p.len(),
        forall|i: int, j: int|
            0 <= i < j < p.len() ==> (#[trigger] by_score(p)[i]).score >= (#[trigger] by_score(
                p,
            )[j]).score,
        forall|x: PatternView| #[trigger] by_score(p).contains(x) ==> p.contains(x),
        p.len() <= usize::MAX ==> forall|x: PatternView| #[trigger]
            p.contains(x) ==> by_score(p).contains(x),
{
    let keys = scores(p);
    let order = ranked(keys);
    crate::order::ranked_puts_greater_keys_first(keys);
    assert forall|i: int, j: int| 0 <= i < j < p.len() implies (#[trigger] by_score(p)[i]).score
        >= (#[trigger] by_score(p)[j]).score by {
        let (a, b) = (order[i], order[j]);
        assert(a < p.len() && b < p.len());
        assert(keys[a as int] == p[a as int].score);
        assert(keys[b as int] == p[b as int].score);
    }
    assert forall|x: PatternView| #[trigger] by_score(p).contains(x) implies p.contains(x) by {
        let k = choose|k: int| 0 <= k < by_score(p).len() && by_score(p)[k] == x;
        assert(order[k] < p.len());
        assert(p[order[k] as int] == x);
    }
    if p.len() <= usize::MAX {
        crate::order::ranked_is_a_stable_sort(keys);
        assert forall|x: PatternView| #[trigger] p.contains(x) implies by_score(p).contains(x) by {
            let i = choose|i: int| 0 <= i < p.len() && p[i] == x;
            assert(order.contains(i as usize));
            let k = choose|k: int| 0 <= k < order.len() && order[k] == i as usize;
            assert(by_score(p)[k] == x);
        }
    }
}

/// A score is the product of weight, runs and time of a run, as far as it can be
/// held.
pub proof fn scores_are_products(weight: nat, count: nat, per_run: nat)
    ensures
        weight * count * per_run <= u128::MAX ==> weighed(weight, count, per_run) == weight * count
            * per_run,
        weight * count * per_run > u128::MAX ==> weighed(weight, count, per_run) == u128::MAX,
{
}

/// Patterns with one score keep the order that they had.
pub proof fn equal_scores_keep_their_order(p: Seq<PatternView>, a: int, b: int) -> (r: (int, int))
    requires
        p.len() <= usize::MAX,
        0 <= a < b < p.len(),
        by_score(p)[a].score == by_score(p)[b].score,
    ensures
        0 <= r.0 < r.1 < p.len(),
        by_score(p)[a] == p[r.0],
        by_score(p)[b] == p[r.1],
{
    let keys = scores(p);
    ranked_is_a_stable_sort(keys);
    let (i, j) = (ranked(keys)[a], ranked(keys)[b]);
    assert(keys[i as int] == by_score(p)[a].score);
    assert(keys[j as int] == by_score(p)[b].score);
    (i as int, j as int)
}

} // verus!
