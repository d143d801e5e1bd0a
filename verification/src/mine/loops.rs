//! Fix loops: one command run again and again within a session because it keeps
//! failing.
use crate::count::{how_many, lemma_either_way, lemma_same_positions, lemma_some_position};
use crate::group::{
    distinct, group, lemma_distinct, lemma_places, lemma_places_counted, places,
};
use crate::mine::pattern::{
    patterns_view, scores_are_products, weigh, weighed, Pattern, PatternView,
};
use crate::mine::sequences::{is_noise, noise};
use crate::mine::timing::{step_ms, template_seconds, timing_view, TimingRow, TimingView};
use crate::order::{
    alphabetical, alphabetical_is_a_sort, alphabetize, rank, ranked, ranked_is_a_stable_sort,
    reordered, text_le,
};
use crate::text::{opt_text, texts};
use vstd::prelude::*;

verus! {

/// How often a command has to run within one session.
pub const MIN_RUNS: usize = 3;

/// How often it has to fail there.
pub const MIN_FAILS: usize = 2;

/// One run of a command. The bucket is its session or, for commands without
/// one, the day.
pub struct RunRow {
    pub source: String,
    pub bucket: Option<String>,
    pub template: String,
    pub failed: bool,
}

/// What a [`RunRow`] holds.
pub struct RunView {
    pub source: Seq<char>,
    pub bucket: Option<Seq<char>>,
    pub template: Seq<char>,
    pub failed: bool,
}

impl View for RunRow {
    type V = RunView;

    open spec fn view(&self) -> RunView {
        RunView {
            source: self.source@,
            bucket: opt_text(self.bucket),
            template: self.template@,
            failed: self.failed,
        }
    }
}

/// What a sequence of runs holds.
pub open spec fn runs_view(v: Seq<RunRow>) -> Seq<RunView> {
    Seq::new(v.len(), |i: int| v[i]@)
}

/// The template of each run.
pub open spec fn run_templates(rows: Seq<RunView>) -> Seq<Seq<char>> {
    Seq::new(rows.len(), |i: int| rows[i].template)
}

/// The runs of one template, in order.
pub open spec fn runs_of(rows: Seq<RunView>, t: Seq<char>) -> Seq<RunView> {
    let at = places(run_templates(rows), rows.len(), t);
    Seq::new(at.len(), |j: int| rows[at[j] as int])
}

/// Whether two runs belong to one session.
pub open spec fn same_bucket(a: RunView, b: RunView) -> bool {
    a.source == b.source && a.bucket == b.bucket
}

/// How many of `runs` belong to the session of `a`.
pub open spec fn runs_with(runs: Seq<RunView>, a: RunView) -> nat
    decreases runs.len(),
{
    if runs.len() == 0 {
        0
    } else {
        runs_with(runs.drop_last(), a) + if same_bucket(runs.last(), a) {
            1nat
        } else {
            0
        }
    }
}

/// How many of `runs` belong to the session of `a` and failed.
pub open spec fn fails_with(runs: Seq<RunView>, a: RunView) -> nat
    decreases runs.len(),
{
    if runs.len() == 0 {
        0
    } else {
        fails_with(runs.drop_last(), a) + if same_bucket(runs.last(), a) && runs.last().failed {
            1nat
        } else {
            0
        }
    }
}

/// Whether a run of this session stands among the first `n`.
pub open spec fn known_bucket(runs: Seq<RunView>, n: int, a: RunView) -> bool {
    exists|i: int| 0 <= i < n && same_bucket(#[trigger] runs[i], a)
}

/// Whether the `i`-th run is the first of its session and that session is a fix
/// loop.
pub open spec fn opens_loop(runs: Seq<RunView>, i: int) -> bool {
    &&& !known_bucket(runs, i, runs[i])
    &&& runs_with(runs, runs[i]) >= MIN_RUNS
    &&& fails_with(runs, runs[i]) >= MIN_FAILS
}

/// How many sessions are fix loops, of those that begin within the first `n`
/// runs.
pub open spec fn loop_sessions(runs: Seq<RunView>, n: nat) -> nat
    decreases n,
{
    if n == 0 {
        0
    } else {
        loop_sessions(runs, (n - 1) as nat) + if opens_loop(runs, n - 1) {
            1nat
        } else {
            0
        }
    }
}

/// How many runs the fix loops have that begin within the first `n` runs.
pub open spec fn loop_runs(runs: Seq<RunView>, n: nat) -> nat
    decreases n,
{
    if n == 0 {
        0
    } else {
        loop_runs(runs, (n - 1) as nat) + if opens_loop(runs, n - 1) {
            runs_with(runs, runs[n - 1])
        } else {
            0
        }
    }
}

/// How many sessions are fix loops on `t`.
pub open spec fn sessions_on(rows: Seq<RunView>, t: Seq<char>) -> nat {
    loop_sessions(runs_of(rows, t), runs_of(rows, t).len())
}

/// How many runs the fix loops on `t` have.
pub open spec fn total_runs(rows: Seq<RunView>, t: Seq<char>) -> nat {
    loop_runs(runs_of(rows, t), runs_of(rows, t).len())
}

/// The templates, those with most runs in fix loops first; equal ones by name.
pub open spec fn busiest_first(rows: Seq<RunView>) -> Seq<Seq<char>> {
    let names = distinct(run_templates(rows), rows.len());
    let sorted = reordered(names, alphabetical(names));
    reordered(sorted, ranked(Seq::new(sorted.len(), |i: int| total_runs(rows, sorted[i]) as u128)))
}

/// The pattern of the fix loops on `t`: a failing loop costs more than its bare
/// run time, the more so the more sessions it plagued.
pub open spec fn loop_pattern(
    rows: Seq<RunView>,
    times: Seq<TimingView>,
    t: Seq<char>,
) -> PatternView {
    PatternView {
        templates: seq![t],
        count: total_runs(rows, t),
        score: weighed(
            4 + sessions_on(rows, t),
            total_runs(rows, t),
            step_ms(times, t) as nat,
        ),
    }
}

/// The fix loops on the given templates that are not noise.
pub open spec fn loops_on(
    rows: Seq<RunView>,
    times: Seq<TimingView>,
    names: Seq<Seq<char>>,
) -> Seq<PatternView>
    decreases names.len(),
{
    if names.len() == 0 {
        Seq::empty()
    } else {
        let before = loops_on(rows, times, names.drop_last());
        let t = names.last();
        if sessions_on(rows, t) > 0 && !noise(t) {
            before.push(loop_pattern(rows, times, t))
        } else {
            before
        }
    }
}

/// The fix loops of a history.
pub open spec fn looped(rows: Seq<RunView>, times: Seq<TimingView>) -> Seq<PatternView> {
    loops_on(rows, times, busiest_first(rows))
}

// ---------------------------------------------------------------------------
// Computing them
// ---------------------------------------------------------------------------

/// Whether two runs belong to one session.
fn in_same_bucket(a: &RunRow, b: &RunRow) -> (r: bool)
    ensures
        r == same_bucket(a@, b@),
{
    let buckets = match (&a.bucket, &b.bucket) {
        (Some(x), Some(y)) => *x == *y,
        (None, None) => true,
        _ => false,
    };
    buckets && a.source == b.source
}

/// The runs and failures of one session, and where it begins among the runs of
/// its template.
struct Tally {
    first: usize,
    runs: usize,
    fails: usize,
}

/// Whether the tallies are those of the first `n` runs.
spec fn tallied(t: Seq<Tally>, runs: Seq<RunView>, n: int) -> bool {
    &&& forall|k: int|
        0 <= k < t.len() ==> {
            let x = #[trigger] t[k];
            &&& x.first < n
            &&& !known_bucket(runs, x.first as int, runs[x.first as int])
            &&& x.runs == runs_with(runs.take(n), runs[x.first as int])
            &&& x.fails == fails_with(runs.take(n), runs[x.first as int])
            &&& x.fails <= x.runs <= n
        }
    &&& forall|j: int, k: int|
        0 <= j < k < t.len() ==> (#[trigger] t[j]).first < (#[trigger] t[k]).first
    &&& forall|i: int|
        0 <= i < n && !known_bucket(runs, i, runs[i]) ==> exists|k: int|
            0 <= k < t.len() && (#[trigger] t[k]).first == i
}

/// Belonging to one session is symmetric and carries over.
proof fn lemma_counts_agree(runs: Seq<RunView>, a: RunView, b: RunView)
    requires
        same_bucket(a, b),
    ensures
        runs_with(runs, a) == runs_with(runs, b),
        fails_with(runs, a) == fails_with(runs, b),
    decreases runs.len(),
{
    if runs.len() > 0 {
        lemma_counts_agree(runs.drop_last(), a, b);
    }
}

/// A session that has not begun has no runs.
proof fn lemma_unknown_bucket(runs: Seq<RunView>, n: int, a: RunView)
    requires
        0 <= n <= runs.len(),
        !known_bucket(runs, n, a),
    ensures
        runs_with(runs.take(n), a) == 0,
        fails_with(runs.take(n), a) == 0,
    decreases n,
{
    if n > 0 {
        let s = runs.take(n);
        assert(s.drop_last() =~= runs.take(n - 1));
        assert(s.last() == runs[n - 1]);
        assert(!same_bucket(runs[n - 1], a));
        assert(!known_bucket(runs, n - 1, a));
        lemma_unknown_bucket(runs, n - 1, a);
    }
}

/// The first run of a known session.
proof fn lemma_first_of(runs: Seq<RunView>, n: int, a: RunView) -> (i: int)
    requires
        0 <= n <= runs.len(),
        known_bucket(runs, n, a),
    ensures
        0 <= i < n,
        same_bucket(runs[i], a),
        !known_bucket(runs, i, runs[i]),
    decreases n,
{
    if known_bucket(runs, n - 1, a) {
        lemma_first_of(runs, n - 1, a)
    } else {
        let i = n - 1;
        let w = choose|w: int| 0 <= w < n && same_bucket(#[trigger] runs[w], a);
        assert(w == i);
        if known_bucket(runs, i, runs[i]) {
            let v = choose|v: int| 0 <= v < i && same_bucket(#[trigger] runs[v], runs[i]);
            assert(same_bucket(runs[v], a));
        }
        i
    }
}

/// Tallies the sessions of one template.
#[verifier::rlimit(40)]
fn tally_sessions(rows: &Vec<RunRow>, at: &Vec<usize>, runs: Ghost<Seq<RunView>>) -> (r: Vec<Tally>)
    requires
        forall|k: int| 0 <= k < at@.len() ==> (#[trigger] at@[k]) < rows@.len(),
        runs@ == Seq::new(at@.len(), |j: int| rows@[at@[j] as int]@),
    ensures
        tallied(r@, runs@, at@.len() as int),
{
    let mut out: Vec<Tally> = Vec::new();
    let mut n: usize = 0;
    while n < at.len()
        invariant
            n <= at@.len(),
            forall|k: int| 0 <= k < at@.len() ==> (#[trigger] at@[k]) < rows@.len(),
            runs@ == Seq::new(at@.len(), |j: int| rows@[at@[j] as int]@),
            tallied(out@, runs@, n as int),
        decreases at@.len() - n,
    {
        let ghost was = out@;
        let ghost here = runs@[n as int];
        assert(at@[n as int] < rows@.len());
        let row = &rows[at[n]];
        assert(row@ == here);
        let mut k: usize = 0;
        while k < out.len() && !in_same_bucket(&rows[at[out[k].first]], row)
            invariant
                k <= out@.len(),
                n < at@.len(),
                out@ == was,
                here == row@,
                forall|j: int| 0 <= j < at@.len() ==> (#[trigger] at@[j]) < rows@.len(),
                runs@ == Seq::new(at@.len(), |j: int| rows@[at@[j] as int]@),
                forall|j: int| 0 <= j < was.len() ==> (#[trigger] was[j]).first < n,
                forall|j: int|
                    0 <= j < k ==> !same_bucket(runs@[(#[trigger] was[j]).first as int], here),
            decreases out@.len() - k,
        {
            assert(was[k as int].first < n);
            k += 1;
        }
        proof {
            assert(runs@.take(n + 1).drop_last() =~= runs@.take(n as int));
            assert(runs@.take(n + 1).last() == here);
            if k < out@.len() {
                assert(was[k as int].first < n);
                assert(same_bucket(runs@[was[k as int].first as int], here));
            }
        }
        if k < out.len() {
            let old_tally = &out[k];
            let fails: usize = if row.failed {
                old_tally.fails + 1
            } else {
                old_tally.fails
            };
            let t = Tally { first: old_tally.first, runs: old_tally.runs + 1, fails };
            out.set(k, t);
            proof {
                let f = was[k as int].first as int;
                assert(known_bucket(runs@, n as int, here));
                assert forall|j: int| 0 <= j < out@.len() implies {
                    let x = #[trigger] out@[j];
                    &&& x.first < n + 1
                    &&& !known_bucket(runs@, x.first as int, runs@[x.first as int])
                    &&& x.runs == runs_with(runs@.take(n + 1), runs@[x.first as int])
                    &&& x.fails == fails_with(runs@.take(n + 1), runs@[x.first as int])
                    &&& x.fails <= x.runs <= n + 1
                } by {
                    assert(was[j].first < n);
                    if j != k {
                        let g = was[j].first as int;
                        if same_bucket(runs@[g], here) {
                            assert(same_bucket(runs@[g], runs@[f]));
                            assert(same_bucket(runs@[f], runs@[g]));
                            if g < f {
                                assert(known_bucket(runs@, f, runs@[f]));
                            } else if f < g {
                                assert(known_bucket(runs@, g, runs@[g]));
                            } else {
                                if j < k {
                                    assert(was[j].first < was[k as int].first);
                                } else {
                                    assert(was[k as int].first < was[j].first);
                                }
                            }
                        }
                        assert(!same_bucket(here, runs@[g]));
                    }
                }
                assert forall|a: int, b: int| 0 <= a < b < out@.len() implies (#[trigger] out@[a]).first
                    < (#[trigger] out@[b]).first by {
                    assert(was[a].first < was[b].first);
                }
                assert forall|i: int| 0 <= i < n + 1 && !known_bucket(runs@, i, runs@[i]) implies exists|
                    j: int,
                |
                    0 <= j < out@.len() && (#[trigger] out@[j]).first == i by {
                    assert(i != n);
                    let j = choose|j: int| 0 <= j < was.len() && (#[trigger] was[j]).first == i;
                    assert(out@[j].first == i);
                }
            }
        } else {
            proof {
                if known_bucket(runs@, n as int, here) {
                    let f = lemma_first_of(runs@, n as int, here);
                    let j = choose|j: int| 0 <= j < was.len() && (#[trigger] was[j]).first == f;
                    assert(!same_bucket(runs@[was[j].first as int], here));
                }
                lemma_unknown_bucket(runs@, n as int, here);
            }
            let fails: usize = if row.failed {
                1
            } else {
                0
            };
            out.push(Tally { first: n, runs: 1, fails });
            proof {
                assert forall|j: int| 0 <= j < out@.len() implies {
                    let x = #[trigger] out@[j];
                    &&& x.first < n + 1
                    &&& !known_bucket(runs@, x.first as int, runs@[x.first as int])
                    &&& x.runs == runs_with(runs@.take(n + 1), runs@[x.first as int])
                    &&& x.fails == fails_with(runs@.take(n + 1), runs@[x.first as int])
                    &&& x.fails <= x.runs <= n + 1
                } by {
                    if j < was.len() {
                        assert(was[j].first < n);
                        assert(!same_bucket(runs@[was[j].first as int], here));
                    }
                }
                assert forall|a: int, b: int| 0 <= a < b < out@.len() implies (#[trigger] out@[a]).first
                    < (#[trigger] out@[b]).first by {
                    if b < was.len() {
                        assert(was[a].first < was[b].first);
                    } else {
                        assert(was[a].first < n);
                    }
                }
                assert forall|i: int| 0 <= i < n + 1 && !known_bucket(runs@, i, runs@[i]) implies exists|
                    j: int,
                |
                    0 <= j < out@.len() && (#[trigger] out@[j]).first == i by {
                    if i < n {
                        let j = choose|j: int| 0 <= j < was.len() && (#[trigger] was[j]).first == i;
                        assert(out@[j].first == i);
                    } else {
                        assert(out@[was.len() as int].first == n);
                    }
                }
            }
        }
        n += 1;
    }
    out
}

/// Counting up to the next session that a list of first runs names.
proof fn lemma_skip_to(runs: Seq<RunView>, from: nat, to: nat)
    requires
        from <= to,
        forall|i: int| from <= i < to ==> !#[trigger] opens_loop(runs, i),
    ensures
        loop_sessions(runs, to) == loop_sessions(runs, from),
        loop_runs(runs, to) == loop_runs(runs, from),
    decreases to,
{
    if from < to {
        lemma_skip_to(runs, from, (to - 1) as nat);
        assert(!opens_loop(runs, to - 1));
    }
}

/// The sum of the runs of all sessions is bounded by the number of runs.
proof fn lemma_loop_bounds(runs: Seq<RunView>, n: nat)
    requires
        n <= runs.len(),
    ensures
        loop_sessions(runs, n) <= n,
        loop_runs(runs, n) <= fresh_runs(runs, n, runs.len()),
    decreases n,
{
    if n > 0 {
        lemma_loop_bounds(runs, (n - 1) as nat);
        assert(runs.take(runs.len() as int) =~= runs);
    }
}

/// Every fix loop has three runs or more.
proof fn lemma_sessions_bound(runs: Seq<RunView>, n: nat)
    ensures
        3 * loop_sessions(runs, n) <= loop_runs(runs, n),
    decreases n,
{
    if n > 0 {
        lemma_sessions_bound(runs, (n - 1) as nat);
    }
}

/// How many of the first `m` runs belong to sessions that begin within the first
/// `n`.
spec fn fresh_runs(runs: Seq<RunView>, n: nat, m: nat) -> nat
    decreases n,
{
    if n == 0 {
        0
    } else {
        fresh_runs(runs, (n - 1) as nat, m) + if !known_bucket(runs, n - 1, runs[n - 1]) {
            runs_with(runs.take(m as int), runs[n - 1])
        } else {
            0
        }
    }
}

/// Each run belongs to at most one session.
proof fn lemma_fresh_runs(runs: Seq<RunView>, n: nat, m: nat)
    requires
        n <= runs.len(),
        m <= runs.len(),
    ensures
        fresh_runs(runs, n, m) <= m,
    decreases m,
{
    if m == 0 {
        lemma_no_fresh_runs(runs, n);
    } else {
        lemma_fresh_runs(runs, n, (m - 1) as nat);
        lemma_fresh_step(runs, n, m);
    }
}

/// Without runs no session has any.
proof fn lemma_no_fresh_runs(runs: Seq<RunView>, n: nat)
    ensures
        fresh_runs(runs, n, 0) == 0,
    decreases n,
{
    if n > 0 {
        lemma_no_fresh_runs(runs, (n - 1) as nat);
        assert(runs.take(0).len() == 0);
    }
}

/// One more run adds at most one, and adds nothing while its session has not
/// begun.
proof fn lemma_fresh_step(runs: Seq<RunView>, n: nat, m: nat)
    requires
        n <= runs.len(),
        0 < m <= runs.len(),
    ensures
        fresh_runs(runs, n, m) == fresh_runs(runs, n, (m - 1) as nat) + if known_bucket(
            runs,
            n as int,
            runs[m - 1],
        ) {
            1nat
        } else {
            0
        },
    decreases n,
{
    let s = runs.take(m as int);
    let last = runs[m - 1];
    assert(s.drop_last() =~= runs.take(m - 1));
    assert(s.last() == last);
    if n > 0 {
        let p = (n - 1) as nat;
        lemma_fresh_step(runs, p, m);
        let x = runs[p as int];
        if known_bucket(runs, p as int, last) {
            let w = choose|w: int| 0 <= w < p && same_bucket(#[trigger] runs[w], last);
            assert(known_bucket(runs, n as int, last));
            if same_bucket(last, x) {
                assert(same_bucket(runs[w], x));
                assert(known_bucket(runs, p as int, x));
            }
        } else if same_bucket(last, x) {
            assert(same_bucket(x, last));
            assert(known_bucket(runs, n as int, last));
            if known_bucket(runs, p as int, x) {
                let w = choose|w: int| 0 <= w < p && same_bucket(#[trigger] runs[w], x);
                assert(same_bucket(runs[w], last));
            }
        } else if known_bucket(runs, n as int, last) {
            let w = choose|w: int| 0 <= w < n && same_bucket(#[trigger] runs[w], last);
            assert(w == p);
        }
    }
}

/// No fix loop begins between two sessions that are tallied next to each other,
/// before the first or after the last.
proof fn lemma_gap(t: Seq<Tally>, runs: Seq<RunView>, k: int)
    requires
        tallied(t, runs, runs.len() as int),
        0 <= k <= t.len(),
    ensures
        forall|i: int|
            (if k > 0 {
                t[k - 1].first + 1
            } else {
                0
            }) <= i < (if k < t.len() {
                t[k].first as int
            } else {
                runs.len() as int
            }) ==> !#[trigger] opens_loop(runs, i),
{
    assert forall|i: int|
        (if k > 0 {
            t[k - 1].first + 1
        } else {
            0
        }) <= i < (if k < t.len() {
            t[k].first as int
        } else {
            runs.len() as int
        }) implies !#[trigger] opens_loop(runs, i) by {
        if k < t.len() {
            assert(t[k].first < runs.len());
        }
        if opens_loop(runs, i) {
            let j = choose|j: int| 0 <= j < t.len() && (#[trigger] t[j]).first == i;
            if j < k - 1 {
                assert(t[j].first < t[k - 1].first);
            } else if k < j {
                assert(t[k].first < t[j].first);
            }
        }
    }
}

/// Sums up the fix loops of one template.
fn sum_loops(t: &Vec<Tally>, runs: Ghost<Seq<RunView>>) -> (r: (usize, usize))
    requires
        tallied(t@, runs@, runs@.len() as int),
        runs@.len() <= usize::MAX,
    ensures
        r.0 == loop_runs(runs@, runs@.len()),
        r.1 == loop_sessions(runs@, runs@.len()),
{
    let mut total: usize = 0;
    let mut sessions: usize = 0;
    let ghost mut done: nat = 0;
    let mut k: usize = 0;
    assert(runs@.take(runs@.len() as int) =~= runs@);
    while k < t.len()
        invariant
            k <= t@.len(),
            tallied(t@, runs@, runs@.len() as int),
            runs@.take(runs@.len() as int) == runs@,
            runs@.len() <= usize::MAX,
            done <= runs@.len(),
            k > 0 ==> done == t@[k - 1].first + 1,
            k == 0 ==> done == 0,
            total == loop_runs(runs@, done),
            sessions == loop_sessions(runs@, done),
        decreases t@.len() - k,
    {
        let x = &t[k];
        proof {
            assert(t@[k as int].first < runs@.len());
            assert(k > 0 ==> t@[k - 1].first < t@[k as int].first);
            let f = x.first as nat;
            lemma_gap(t@, runs@, k as int);
            lemma_skip_to(runs@, done, f);
            lemma_loop_bounds(runs@, (f + 1) as nat);
            lemma_fresh_runs(runs@, (f + 1) as nat, runs@.len());
            done = (f + 1) as nat;
        }
        assert(opens_loop(runs@, x.first as int) == (x.runs >= MIN_RUNS && x.fails >= MIN_FAILS));
        if x.runs >= MIN_RUNS && x.fails >= MIN_FAILS {
            total += x.runs;
            sessions += 1;
        }
        k += 1;
    }
    proof {
        lemma_gap(t@, runs@, k as int);
        lemma_skip_to(runs@, done, runs@.len());
    }
    (total, sessions)
}

/// The fix loops on one template.
struct Loops {
    template: String,
    runs: usize,
    sessions: usize,
}

spec fn loops_hold(v: Seq<Loops>, rows: Seq<RunView>, names: Seq<Seq<char>>) -> bool {
    &&& v.len() == names.len()
    &&& forall|i: int|
        0 <= i < v.len() ==> {
            &&& (#[trigger] v[i]).template@ == names[i]
            &&& v[i].runs == total_runs(rows, names[i])
            &&& v[i].sessions == sessions_on(rows, names[i])
        }
}

/// The elements of a list of loops at the given positions.
fn reorder(
    v: &Vec<Loops>,
    order: &Vec<usize>,
    rows: Ghost<Seq<RunView>>,
    names: Ghost<Seq<Seq<char>>>,
) -> (r: Vec<Loops>)
    requires
        loops_hold(v@, rows@, names@),
        forall|k: int| 0 <= k < order@.len() ==> (#[trigger] order@[k]) < v@.len(),
    ensures
        loops_hold(r@, rows@, reordered(names@, order@)),
{
    let mut out: Vec<Loops> = Vec::new();
    let mut j: usize = 0;
    while j < order.len()
        invariant
            j <= order@.len(),
            loops_hold(v@, rows@, names@),
            forall|k: int| 0 <= k < order@.len() ==> (#[trigger] order@[k]) < v@.len(),
            out@.len() == j,
            forall|k: int|
                0 <= k < j ==> {
                    &&& (#[trigger] out@[k]).template@ == names@[order@[k] as int]
                    &&& out@[k].runs == total_runs(rows@, names@[order@[k] as int])
                    &&& out@[k].sessions == sessions_on(rows@, names@[order@[k] as int])
                },
        decreases order@.len() - j,
    {
        assert(order@[j as int] < v@.len());
        let x = &v[order[j]];
        out.push(Loops { template: x.template.clone(), runs: x.runs, sessions: x.sessions });
        j += 1;
    }
    out
}

/// Sums up every template and puts the busiest first.
fn sort_loops(rows: &Vec<RunRow>) -> (r: Vec<Loops>)
    ensures
        loops_hold(r@, runs_view(rows@), busiest_first(runs_view(rows@))),
{
    let ghost all = runs_view(rows@);
    let n: usize = rows.len();
    let mut keys: Vec<String> = Vec::new();
    let mut i: usize = 0;
    while i < n
        invariant
            i <= n == rows@.len(),
            keys@.len() == i,
            forall|k: int| 0 <= k < i ==> (#[trigger] keys@[k])@ == rows@[k].template@,
        decreases n - i,
    {
        keys.push(rows[i].template.clone());
        i += 1;
    }
    assert(texts(keys@) =~= run_templates(all));
    let groups = group(&keys);
    let ghost names = texts(groups.names@);
    let mut found: Vec<Loops> = Vec::new();
    let mut g: usize = 0;
    while g < groups.names.len()
        invariant
            g <= groups.names@.len(),
            n == rows@.len(),
            all == runs_view(rows@),
            texts(keys@) == run_templates(all),
            keys@.len() == rows@.len(),
            groups.of(texts(keys@)),
            names == texts(groups.names@),
            found@.len() == g,
            forall|k: int|
                0 <= k < g ==> {
                    &&& (#[trigger] found@[k]).template@ == names[k]
                    &&& found@[k].runs == total_runs(all, names[k])
                    &&& found@[k].sessions == sessions_on(all, names[k])
                },
        decreases groups.names@.len() - g,
    {
        let at = &groups.members[g];
        let ghost runs = runs_of(all, names[g as int]);
        proof {
            assert(groups.members@[g as int]@ == places(
                run_templates(all),
                run_templates(all).len(),
                groups.names@[g as int]@,
            ));
            lemma_places(run_templates(all), all.len(), names[g as int]);
            assert(runs =~= Seq::new(at@.len(), |j: int| rows@[at@[j] as int]@));
        }
        let tallies = tally_sessions(rows, at, Ghost(runs));
        let (total, sessions) = sum_loops(&tallies, Ghost(runs));
        found.push(Loops { template: groups.names[g].clone(), runs: total, sessions });
        g += 1;
    }
    let order = alphabetize(&groups.names);
    proof {
        alphabetical_is_a_sort(names);
    }
    let sorted = reorder(&found, &order, Ghost(all), Ghost(names));
    let ghost by_name = reordered(names, alphabetical(names));
    let mut totals: Vec<u128> = Vec::new();
    let mut k: usize = 0;
    while k < sorted.len()
        invariant
            k <= sorted@.len(),
            loops_hold(sorted@, all, by_name),
            totals@.len() == k,
            forall|j: int|
                0 <= j < k ==> #[trigger] totals@[j] == total_runs(all, by_name[j]) as u128,
        decreases sorted@.len() - k,
    {
        assert(sorted@[k as int].runs == total_runs(all, by_name[k as int]));
        totals.push(sorted[k].runs as u128);
        k += 1;
    }
    assert(totals@ =~= Seq::new(by_name.len(), |i: int| total_runs(all, by_name[i]) as u128));
    let by_runs = rank(&totals);
    proof {
        ranked_is_a_stable_sort(totals@);
    }
    reorder(&sorted, &by_runs, Ghost(all), Ghost(by_name))
}

/// Finds the commands that were retried after failures, those with most runs
/// first.
pub fn fix_loops(rows: &Vec<RunRow>, times: &Vec<TimingRow>) -> (r: Vec<Pattern>)
    ensures
        patterns_view(r@) == looped(runs_view(rows@), timing_view(times@)),
{
    let ghost all = runs_view(rows@);
    let ghost t = timing_view(times@);
    let ghost names = busiest_first(all);
    let loops = sort_loops(rows);
    let timings = template_seconds(times);
    let mut out: Vec<Pattern> = Vec::new();
    let mut i: usize = 0;
    assert(patterns_view(out@) =~= loops_on(all, t, names.take(0)));
    while i < loops.len()
        invariant
            i <= loops@.len(),
            loops_hold(loops@, all, names),
            timings.wf(),
            timings.of(t),
            patterns_view(out@) == loops_on(all, t, names.take(i as int)),
        decreases loops@.len() - i,
    {
        let ghost before = patterns_view(out@);
        let x = &loops[i];
        proof {
            assert(names.take(i + 1).drop_last() =~= names.take(i as int));
            assert(names.take(i + 1).last() == names[i as int]);
            assert(x.sessions == sessions_on(all, names[i as int]));
            let runs = runs_of(all, names[i as int]);
            lemma_sessions_bound(runs, runs.len());
        }
        if x.sessions > 0 && !is_noise(x.template.as_str()) {
            let per_run = timings.step(x.template.as_str());
            let weight: u128 = 4 + x.sessions as u128;
            let score = weigh(weight, x.runs, per_run as u128);
            let p = Pattern { templates: vec![x.template.clone()], count: x.runs, score };
            let ghost pv = p@;
            assert(pv.templates =~= seq![names[i as int]]);
            out.push(p);
            assert(patterns_view(out@) =~= before.push(pv));
        }
        i += 1;
    }
    assert(names.take(i as int) =~= names);
    out
}

// ---------------------------------------------------------------------------
// What is reported
// ---------------------------------------------------------------------------

/// A count above zero names a session.
proof fn lemma_session_exists(runs: Seq<RunView>, n: nat) -> (i: int)
    requires
        loop_sessions(runs, n) > 0,
    ensures
        0 <= i < n,
        opens_loop(runs, i),
    decreases n,
{
    if opens_loop(runs, n - 1) {
        n - 1
    } else {
        lemma_session_exists(runs, (n - 1) as nat)
    }
}

/// A session that is a fix loop is counted.
proof fn lemma_session_counted(runs: Seq<RunView>, n: nat, i: int)
    requires
        0 <= i < n,
        opens_loop(runs, i),
    ensures
        loop_sessions(runs, n) > 0,
    decreases n,
{
    if i < n - 1 {
        lemma_session_counted(runs, (n - 1) as nat, i);
    }
}

/// A session with runs is known.
proof fn lemma_runs_known(runs: Seq<RunView>, a: RunView)
    requires
        runs_with(runs, a) > 0,
    ensures
        known_bucket(runs, runs.len() as int, a),
    decreases runs.len(),
{
    let front = runs.drop_last();
    if same_bucket(runs.last(), a) {
        assert(same_bucket(runs[runs.len() - 1], a));
    } else {
        lemma_runs_known(front, a);
        let i = choose|i: int| 0 <= i < front.len() && same_bucket(#[trigger] front[i], a);
        assert(same_bucket(runs[i], a));
    }
}

/// Which templates the patterns stand for.
proof fn lemma_loops_on(
    rows: Seq<RunView>,
    times: Seq<TimingView>,
    names: Seq<Seq<char>>,
    t: Seq<char>,
)
    ensures
        names.contains(t) && sessions_on(rows, t) > 0 && !noise(t) ==> loops_on(
            rows,
            times,
            names,
        ).contains(loop_pattern(rows, times, t)),
        forall|k: int|
            0 <= k < loops_on(rows, times, names).len() && (#[trigger] loops_on(
                rows,
                times,
                names,
            )[k]).templates == seq![t] ==> sessions_on(rows, t) > 0 && !noise(t),
    decreases names.len(),
{
    if names.len() > 0 {
        let front = names.drop_last();
        let before = loops_on(rows, times, front);
        let all = loops_on(rows, times, names);
        lemma_loops_on(rows, times, front, t);
        if names.contains(t) && sessions_on(rows, t) > 0 && !noise(t) {
            let i = choose|i: int| 0 <= i < names.len() && names[i] == t;
            if i < front.len() {
                assert(front[i] == t);
                let k = choose|k: int|
                    0 <= k < before.len() && before[k] == loop_pattern(rows, times, t);
                assert(all[k] == loop_pattern(rows, times, t));
            } else {
                assert(all[before.len() as int] == loop_pattern(rows, times, t));
            }
        }
        assert forall|k: int|
            0 <= k < all.len() && (#[trigger] all[k]).templates == seq![t] implies sessions_on(
            rows,
            t,
        ) > 0 && !noise(t) by {
            if k < before.len() {
                assert(before[k].templates == seq![t]);
            } else {
                assert(seq![names.last()][0] == seq![t][0]);
            }
        }
    } else {
        assert(!names.contains(t));
    }
}

/// A command is reported as a fix loop exactly when it is not noise and some
/// session ran it three times or more with two failures or more.
pub proof fn fix_loops_are_reported_exactly(
    rows: Seq<RunView>,
    times: Seq<TimingView>,
    t: Seq<char>,
)
    requires
        rows.len() <= usize::MAX,
    ensures
        (exists|k: int|
            0 <= k < looped(rows, times).len() && (#[trigger] looped(rows, times)[k]).templates
                == seq![t]) <==> !noise(t) && exists|a: RunView|
            #![trigger runs_with(runs_of(rows, t), a)]
            runs_with(runs_of(rows, t), a) >= MIN_RUNS && fails_with(runs_of(rows, t), a)
                >= MIN_FAILS,
{
    let keys = run_templates(rows);
    let runs = runs_of(rows, t);
    let found = looped(rows, times);
    lemma_loops_on(rows, times, busiest_first(rows), t);
    if exists|k: int| 0 <= k < found.len() && (#[trigger] found[k]).templates == seq![t] {
        let i = lemma_session_exists(runs, runs.len());
        assert(runs_with(runs, runs[i]) >= MIN_RUNS);
    }
    if !noise(t) && exists|a: RunView|
        #![trigger runs_with(runs, a)]
        runs_with(runs, a) >= MIN_RUNS && fails_with(runs, a) >= MIN_FAILS {
        let a = choose|a: RunView|
            #![trigger runs_with(runs, a)]
            runs_with(runs, a) >= MIN_RUNS && fails_with(runs, a) >= MIN_FAILS;
        lemma_runs_known(runs, a);
        let i = lemma_first_of(runs, runs.len() as int, a);
        lemma_counts_agree(runs, runs[i], a);
        lemma_session_counted(runs, runs.len(), i);
        lemma_places(keys, rows.len(), t);
        let at = places(keys, rows.len(), t)[i] as int;
        assert(keys[at] == t);
        lemma_busiest_first(rows, at);
        let p = loop_pattern(rows, times, t);
        let k = choose|k: int| 0 <= k < found.len() && found[k] == p;
        assert(found[k].templates == seq![t]);
    }
}

/// Every template is ranked.
proof fn lemma_busiest_first(rows: Seq<RunView>, at: int)
    requires
        rows.len() <= usize::MAX,
        0 <= at < rows.len(),
    ensures
        busiest_first(rows).contains(rows[at].template),
{
    let t = rows[at].template;
    let keys = run_templates(rows);
    let names = distinct(keys, rows.len());
    let sorted = reordered(names, alphabetical(names));
    let totals = Seq::new(sorted.len(), |i: int| total_runs(rows, sorted[i]) as u128);
    let order = ranked(totals);
    lemma_distinct(keys, rows.len());
    alphabetical_is_a_sort(names);
    ranked_is_a_stable_sort(totals);
    assert(keys[at] == t);
    assert(names.contains(t));
    let n = choose|n: int| 0 <= n < names.len() && names[n] == t;
    assert(alphabetical(names).contains(n as usize));
    let m = choose|m: int|
        0 <= m < alphabetical(names).len() && alphabetical(names)[m] == n as usize;
    assert(sorted[m] == t);
    assert(order.contains(m as usize));
    let a = choose|a: int| 0 <= a < order.len() && order[a] == m as usize;
    assert(busiest_first(rows)[a] == t);
}

/// The fix loops on one template have no more runs than there are.
proof fn lemma_total_bound(rows: Seq<RunView>, t: Seq<char>)
    ensures
        total_runs(rows, t) <= rows.len(),
{
    let runs = runs_of(rows, t);
    lemma_loop_bounds(runs, runs.len());
    lemma_fresh_runs(runs, runs.len(), runs.len());
    lemma_places_len(run_templates(rows), rows.len(), t);
}

/// A text has no more places than there are.
proof fn lemma_places_len(keys: Seq<Seq<char>>, n: nat, t: Seq<char>)
    ensures
        places(keys, n, t).len() <= n,
    decreases n,
{
    if n > 0 {
        lemma_places_len(keys, (n - 1) as nat, t);
    }
}

/// The templates come by descending runs in fix loops, equal ones by name, and
/// each once.
proof fn lemma_busiest_order(rows: Seq<RunView>)
    requires
        rows.len() <= usize::MAX,
    ensures
        busiest_first(rows).no_duplicates(),
        forall|a: int, b: int|
            0 <= a < b < busiest_first(rows).len() ==> {
                let (x, y) = (#[trigger] busiest_first(rows)[a], #[trigger] busiest_first(rows)[b]);
                total_runs(rows, x) > total_runs(rows, y) || (total_runs(rows, x) == total_runs(
                    rows,
                    y,
                ) && text_le(x, y))
            },
{
    let keys = run_templates(rows);
    let names = distinct(keys, rows.len());
    let by_name = alphabetical(names);
    let sorted = reordered(names, by_name);
    let totals = Seq::new(sorted.len(), |i: int| total_runs(rows, sorted[i]) as u128);
    let order = ranked(totals);
    let all = busiest_first(rows);
    lemma_distinct(keys, rows.len());
    alphabetical_is_a_sort(names);
    ranked_is_a_stable_sort(totals);
    assert forall|a: int, b: int| 0 <= a < b < all.len() implies {
        let (x, y) = (#[trigger] all[a], #[trigger] all[b]);
        total_runs(rows, x) > total_runs(rows, y) || (total_runs(rows, x) == total_runs(rows, y)
            && text_le(x, y))
    } by {
        let (i, j) = (order[a] as int, order[b] as int);
        lemma_total_bound(rows, sorted[i]);
        lemma_total_bound(rows, sorted[j]);
        assert(all[a] == sorted[i] && all[b] == sorted[j]);
        assert(totals[i] == total_runs(rows, sorted[i]) && totals[j] == total_runs(rows, sorted[j]));
        if totals[i] == totals[j] {
            assert(i < j);
            assert(text_le(names[by_name[i] as int], names[by_name[j] as int]));
        }
    }
    assert forall|a: int, b: int| 0 <= a < all.len() && 0 <= b < all.len() && a != b implies all[a]
        != all[b] by {
        let (i, j) = (order[a] as int, order[b] as int);
        assert(i != j);
        assert(by_name[i] != by_name[j]);
        assert(names[by_name[i] as int] != names[by_name[j] as int]);
    }
}

/// Where a pattern comes from.
proof fn lemma_loop_of(
    rows: Seq<RunView>,
    times: Seq<TimingView>,
    names: Seq<Seq<char>>,
    k: int,
) -> (i: int)
    requires
        0 <= k < loops_on(rows, times, names).len(),
    ensures
        0 <= i < names.len(),
        loops_on(rows, times, names)[k] == loop_pattern(rows, times, names[i]),
        sessions_on(rows, names[i]) > 0,
        !noise(names[i]),
    decreases names.len(),
{
    let front = names.drop_last();
    if k < loops_on(rows, times, front).len() {
        lemma_loop_of(rows, times, front, k)
    } else {
        names.len() - 1
    }
}

/// Patterns come in the order of their templates.
proof fn lemma_loops_in_order(
    rows: Seq<RunView>,
    times: Seq<TimingView>,
    names: Seq<Seq<char>>,
    j: int,
    k: int,
) -> (r: (int, int))
    requires
        0 <= j < k < loops_on(rows, times, names).len(),
    ensures
        0 <= r.0 < r.1 < names.len(),
        loops_on(rows, times, names)[j] == loop_pattern(rows, times, names[r.0]),
        loops_on(rows, times, names)[k] == loop_pattern(rows, times, names[r.1]),
    decreases names.len(),
{
    let front = names.drop_last();
    let before = loops_on(rows, times, front);
    if k < before.len() {
        lemma_loops_in_order(rows, times, front, j, k)
    } else {
        let i = lemma_loop_of(rows, times, front, j);
        assert(front[i] == names[i]);
        (i, names.len() - 1)
    }
}

/// Every fix loop is one command, with the runs of the sessions that are fix loops
/// on it as its count.
pub proof fn a_fix_loop_counts_the_runs_of_its_sessions(
    rows: Seq<RunView>,
    times: Seq<TimingView>,
    k: int,
)
    requires
        0 <= k < looped(rows, times).len(),
    ensures
        looped(rows, times)[k].templates.len() == 1,
        looped(rows, times)[k] == loop_pattern(rows, times, looped(rows, times)[k].templates[0]),
        looped(rows, times)[k].count == total_runs(rows, looped(rows, times)[k].templates[0]),
        looped(rows, times)[k].count >= MIN_RUNS,
{
    let names = busiest_first(rows);
    let i = lemma_loop_of(rows, times, names, k);
    let runs = runs_of(rows, names[i]);
    assert(looped(rows, times)[k].templates[0] == names[i]);
    lemma_sessions_bound(runs, runs.len());
}

/// Every command is reported once, and those with most runs in fix loops come
/// first; equal ones come by name.
pub proof fn fix_loops_come_once_and_busiest_first(
    rows: Seq<RunView>,
    times: Seq<TimingView>,
    j: int,
    k: int,
)
    requires
        rows.len() <= usize::MAX,
        0 <= j < k < looped(rows, times).len(),
    ensures
        looped(rows, times)[j].templates != looped(rows, times)[k].templates,
        looped(rows, times)[j].count >= looped(rows, times)[k].count,
        looped(rows, times)[j].count == looped(rows, times)[k].count ==> text_le(
            looped(rows, times)[j].templates[0],
            looped(rows, times)[k].templates[0],
        ),
{
    let names = busiest_first(rows);
    lemma_busiest_order(rows);
    let (a, b) = lemma_loops_in_order(rows, times, names, j, k);
    assert(names[a] != names[b]);
    assert(looped(rows, times)[j].templates[0] == names[a]);
    assert(looped(rows, times)[k].templates[0] == names[b]);
}

// ---------------------------------------------------------------------------
// What a fix loop is, row by row
// ---------------------------------------------------------------------------

/// How often a template was run in the session of a run.
pub open spec fn runs_in_session(rows: Seq<RunView>, t: Seq<char>, a: RunView) -> nat {
    how_many(
        rows.len(),
        |i: int|
            rows[i].template == t && rows[i].source == a.source && rows[i].bucket == a.bucket,
    )
}

/// How often a template failed in the session of a run.
pub open spec fn failures_in_session(rows: Seq<RunView>, t: Seq<char>, a: RunView) -> nat {
    how_many(
        rows.len(),
        |i: int|
            rows[i].template == t && rows[i].source == a.source && rows[i].bucket == a.bucket
                && rows[i].failed,
    )
}

/// Whether a run of a template is one of three or more in its session, of which two
/// or more failed.
pub open spec fn in_fix_loop(rows: Seq<RunView>, t: Seq<char>, i: int) -> bool {
    &&& rows[i].template == t
    &&& runs_in_session(rows, t, rows[i]) >= 3
    &&& failures_in_session(rows, t, rows[i]) >= 2
}

/// Whether a run of a template is the first of its session.
pub open spec fn begins_session(rows: Seq<RunView>, t: Seq<char>, i: int) -> bool {
    forall|j: int|
        0 <= j < i ==> !((#[trigger] rows[j]).template == t && rows[j].source == rows[i].source
            && rows[j].bucket == rows[i].bucket)
}

/// Runs and failures are counted one by one.
proof fn lemma_session_counts(runs: Seq<RunView>, a: RunView)
    ensures
        runs_with(runs, a) == how_many(
            runs.len(),
            |j: int| runs[j].source == a.source && runs[j].bucket == a.bucket,
        ),
        fails_with(runs, a) == how_many(
            runs.len(),
            |j: int| runs[j].source == a.source && runs[j].bucket == a.bucket && runs[j].failed,
        ),
    decreases runs.len(),
{
    if runs.len() > 0 {
        let front = runs.drop_last();
        lemma_session_counts(front, a);
        lemma_same_positions(
            front.len(),
            |j: int| front[j].source == a.source && front[j].bucket == a.bucket,
            |j: int| runs[j].source == a.source && runs[j].bucket == a.bucket,
        );
        lemma_same_positions(
            front.len(),
            |j: int| front[j].source == a.source && front[j].bucket == a.bucket && front[j].failed,
            |j: int| runs[j].source == a.source && runs[j].bucket == a.bucket && runs[j].failed,
        );
    }
}

/// What is counted of the runs of a template is counted of the rows that hold it.
proof fn lemma_runs_are_rows(rows: Seq<RunView>, t: Seq<char>, f: spec_fn(RunView) -> bool)
    requires
        rows.len() <= usize::MAX,
    ensures
        how_many(runs_of(rows, t).len(), |j: int| f(runs_of(rows, t)[j])) == how_many(
            rows.len(),
            |i: int| rows[i].template == t && f(rows[i]),
        ),
{
    let keys = run_templates(rows);
    let at = places(keys, rows.len(), t);
    let runs = runs_of(rows, t);
    let g = |i: int| f(rows[i]);
    lemma_places_counted(keys, rows.len(), t, g);
    lemma_same_positions(at.len(), |j: int| f(runs[j]), |j: int| g(at[j] as int));
    lemma_same_positions(
        rows.len(),
        |i: int| keys[i] == t && g(i),
        |i: int| rows[i].template == t && f(rows[i]),
    );
}

/// The runs and failures of a session are the rows of the session that hold the
/// template.
pub proof fn a_session_counts_its_rows(rows: Seq<RunView>, t: Seq<char>, a: RunView)
    requires
        rows.len() <= usize::MAX,
    ensures
        runs_with(runs_of(rows, t), a) == runs_in_session(rows, t, a),
        fails_with(runs_of(rows, t), a) == failures_in_session(rows, t, a),
{
    let runs = runs_of(rows, t);
    lemma_session_counts(runs, a);
    let f = |r: RunView| r.source == a.source && r.bucket == a.bucket;
    let g = |r: RunView| r.source == a.source && r.bucket == a.bucket && r.failed;
    lemma_runs_are_rows(rows, t, f);
    lemma_runs_are_rows(rows, t, g);
    lemma_same_positions(
        runs.len(),
        |j: int| f(runs[j]),
        |j: int| runs[j].source == a.source && runs[j].bucket == a.bucket,
    );
    lemma_same_positions(
        runs.len(),
        |j: int| g(runs[j]),
        |j: int| runs[j].source == a.source && runs[j].bucket == a.bucket && runs[j].failed,
    );
    lemma_same_positions(
        rows.len(),
        |i: int| rows[i].template == t && f(rows[i]),
        |i: int|
            rows[i].template == t && rows[i].source == a.source && rows[i].bucket == a.bucket,
    );
    lemma_same_positions(
        rows.len(),
        |i: int| rows[i].template == t && g(rows[i]),
        |i: int|
            rows[i].template == t && rows[i].source == a.source && rows[i].bucket == a.bucket
                && rows[i].failed,
    );
}

/// A command is reported exactly when it does more than look around and was run three
/// times or more in some session, failing there twice or more.
pub proof fn a_fix_loop_is_three_runs_with_two_failures(
    rows: Seq<RunView>,
    times: Seq<TimingView>,
    t: Seq<char>,
)
    requires
        rows.len() <= usize::MAX,
    ensures
        (exists|k: int|
            0 <= k < looped(rows, times).len() && (#[trigger] looped(rows, times)[k]).templates
                == seq![t]) <==> !noise(t) && exists|i: int|
            0 <= i < rows.len() && #[trigger] in_fix_loop(rows, t, i),
{
    fix_loops_are_reported_exactly(rows, times, t);
    let runs = runs_of(rows, t);
    let at = places(run_templates(rows), rows.len(), t);
    lemma_places(run_templates(rows), rows.len(), t);
    if exists|a: RunView|
        #![trigger runs_with(runs, a)]
        runs_with(runs, a) >= MIN_RUNS && fails_with(runs, a) >= MIN_FAILS {
        let a = choose|a: RunView|
            #![trigger runs_with(runs, a)]
            runs_with(runs, a) >= MIN_RUNS && fails_with(runs, a) >= MIN_FAILS;
        lemma_runs_known(runs, a);
        let j = choose|j: int| 0 <= j < runs.len() && same_bucket(#[trigger] runs[j], a);
        let i = at[j] as int;
        assert(run_templates(rows)[i] == t);
        lemma_counts_agree(runs, rows[i], a);
        a_session_counts_its_rows(rows, t, rows[i]);
        assert(in_fix_loop(rows, t, i));
    }
    if exists|i: int| 0 <= i < rows.len() && #[trigger] in_fix_loop(rows, t, i) {
        let i = choose|i: int| 0 <= i < rows.len() && #[trigger] in_fix_loop(rows, t, i);
        a_session_counts_its_rows(rows, t, rows[i]);
        assert(runs_with(runs, rows[i]) >= MIN_RUNS);
    }
}

/// Whether a session has enough runs and failures.
spec fn qualifies(runs: Seq<RunView>, a: RunView) -> bool {
    runs_with(runs, a) >= MIN_RUNS && fails_with(runs, a) >= MIN_FAILS
}

/// The runs in fix loops are those whose session qualifies.
proof fn lemma_loop_runs(runs: Seq<RunView>, n: nat)
    requires
        n <= runs.len(),
    ensures
        loop_runs(runs, n) == how_many(
            runs.len(),
            |j: int| qualifies(runs, runs[j]) && known_bucket(runs, n as int, runs[j]),
        ),
        loop_sessions(runs, n) == how_many(n, |j: int| opens_loop(runs, j)),
    decreases n,
{
    let now = |j: int| qualifies(runs, runs[j]) && known_bucket(runs, n as int, runs[j]);
    if n == 0 {
        lemma_some_position(runs.len(), now);
    } else {
        let m = (n - 1) as nat;
        let x = runs[m as int];
        let old = |j: int| qualifies(runs, runs[j]) && known_bucket(runs, m as int, runs[j]);
        lemma_loop_runs(runs, m);
        assert forall|j: int| 0 <= j < runs.len() implies #[trigger] known_bucket(
            runs,
            n as int,
            runs[j],
        ) == (known_bucket(runs, m as int, runs[j]) || same_bucket(x, runs[j])) by {
            if same_bucket(x, runs[j]) {
                assert(same_bucket(runs[m as int], runs[j]));
            }
        }
        if opens_loop(runs, m as int) {
            let new = |j: int| runs[j].source == x.source && runs[j].bucket == x.bucket;
            assert forall|j: int| 0 <= j < runs.len() implies #[trigger] now(j) == (old(j) || new(
                j,
            )) by {
                if new(j) {
                    lemma_counts_agree(runs, runs[j], x);
                }
            }
            assert forall|j: int| 0 <= j < runs.len() implies !(#[trigger] old(j) && new(j)) by {
                if old(j) && new(j) {
                    let i = choose|i: int|
                        0 <= i < m && same_bucket(#[trigger] runs[i], runs[j]);
                    assert(same_bucket(runs[i], x));
                }
            }
            lemma_either_way(runs.len(), old, new, now);
            lemma_session_counts(runs, x);
        } else {
            assert forall|j: int| 0 <= j < runs.len() implies #[trigger] now(j) == old(j) by {
                if now(j) && !old(j) {
                    assert(same_bucket(x, runs[j]));
                    lemma_counts_agree(runs, runs[j], x);
                    let i = choose|i: int| 0 <= i < m && same_bucket(#[trigger] runs[i], x);
                    assert(same_bucket(runs[i], runs[j]));
                }
            }
            lemma_same_positions(runs.len(), now, old);
        }
    }
}

/// The runs of a fix loop are the runs in it, and its sessions are those that such
/// runs begin.
pub proof fn a_fix_loop_counts_its_runs_and_sessions(rows: Seq<RunView>, t: Seq<char>)
    requires
        rows.len() <= usize::MAX,
    ensures
        total_runs(rows, t) == how_many(rows.len(), |i: int| in_fix_loop(rows, t, i)),
        sessions_on(rows, t) == how_many(
            rows.len(),
            |i: int| in_fix_loop(rows, t, i) && begins_session(rows, t, i),
        ),
{
    let keys = run_templates(rows);
    let runs = runs_of(rows, t);
    let at = places(keys, rows.len(), t);
    lemma_places(keys, rows.len(), t);
    lemma_loop_runs(runs, runs.len());
    let q = |r: RunView| qualifies(runs, r);
    let all = |j: int| qualifies(runs, runs[j]) && known_bucket(runs, runs.len() as int, runs[j]);
    assert forall|j: int| 0 <= j < runs.len() implies #[trigger] all(j) == (|j: int| q(runs[j]))(
        j,
    ) by {
        assert(same_bucket(runs[j], runs[j]));
    }
    lemma_same_positions(runs.len(), all, |j: int| q(runs[j]));
    lemma_runs_are_rows(rows, t, q);
    let held = |i: int| rows[i].template == t && q(rows[i]);
    let inside = |i: int| in_fix_loop(rows, t, i);
    assert forall|i: int| 0 <= i < rows.len() implies #[trigger] held(i) == inside(i) by {
        a_session_counts_its_rows(rows, t, rows[i]);
    }
    lemma_same_positions(rows.len(), held, inside);
    let opens = |i: int| in_fix_loop(rows, t, i) && begins_session(rows, t, i);
    lemma_places_counted(keys, rows.len(), t, opens);
    let first = |j: int| opens_loop(runs, j);
    let moved = |j: int| opens(at[j] as int);
    assert forall|j: int| 0 <= j < runs.len() implies #[trigger] first(j) == moved(j) by {
        let i = at[j] as int;
        assert(runs[j] == rows[i]);
        assert(keys[i] == t);
        a_session_counts_its_rows(rows, t, rows[i]);
        if known_bucket(runs, j, runs[j]) {
            let a = choose|a: int| 0 <= a < j && same_bucket(#[trigger] runs[a], runs[j]);
            assert(at[a] < at[j]);
            assert(keys[at[a] as int] == t);
            assert(!begins_session(rows, t, i)) by {
                assert(rows[at[a] as int].template == t);
            }
        }
        if !begins_session(rows, t, i) {
            let b = choose|b: int|
                0 <= b < i && (#[trigger] rows[b]).template == t && rows[b].source
                    == rows[i].source && rows[b].bucket == rows[i].bucket;
            assert(keys[b] == t);
            assert(at.contains(b as usize));
            let a = choose|a: int| 0 <= a < at.len() && at[a] == b as usize;
            if a > j {
                assert(at[j] < at[a]);
            }
            assert(same_bucket(runs[a], runs[j]));
        }
    }
    lemma_same_positions(runs.len(), first, moved);
    lemma_same_positions(rows.len(), |i: int| keys[i] == t && opens(i), opens);
}

/// A fix loop scores the time that its command takes, times its runs, times a weight
/// of four and one more for each session.
pub proof fn a_fix_loop_scores_its_step_time(
    rows: Seq<RunView>,
    times: Seq<TimingView>,
    k: int,
)
    requires
        rows.len() <= usize::MAX,
        0 <= k < looped(rows, times).len(),
    ensures
        looped(rows, times)[k].templates.len() == 1,
        ({
            let p = looped(rows, times)[k];
            let t = p.templates[0];
            let sessions = how_many(
                rows.len(),
                |i: int| in_fix_loop(rows, t, i) && begins_session(rows, t, i),
            );
            let full = (4 + sessions) * p.count * step_ms(times, t);
            &&& p.count == how_many(rows.len(), |i: int| in_fix_loop(rows, t, i))
            &&& p.score == if full <= u128::MAX {
                full
            } else {
                u128::MAX as int
            }
        }),
{
    a_fix_loop_counts_the_runs_of_its_sessions(rows, times, k);
    let p = looped(rows, times)[k];
    let t = p.templates[0];
    a_fix_loop_counts_its_runs_and_sessions(rows, t);
    scores_are_products(4 + sessions_on(rows, t), total_runs(rows, t), step_ms(times, t) as nat);
}

/// Of two fix loops with as many runs in as many sessions, the one whose command takes
/// longer scores more, as far as a score can tell.
pub proof fn slower_commands_make_costlier_loops(
    rows: Seq<RunView>,
    times: Seq<TimingView>,
    j: int,
    k: int,
)
    requires
        rows.len() <= usize::MAX,
        0 <= j < looped(rows, times).len(),
        0 <= k < looped(rows, times).len(),
        looped(rows, times)[j].count == looped(rows, times)[k].count,
        sessions_on(rows, looped(rows, times)[j].templates[0]) == sessions_on(
            rows,
            looped(rows, times)[k].templates[0],
        ),
        step_ms(times, looped(rows, times)[j].templates[0]) < step_ms(
            times,
            looped(rows, times)[k].templates[0],
        ),
    ensures
        looped(rows, times)[j].score < looped(rows, times)[k].score || looped(rows, times)[j].score
            == u128::MAX,
{
    a_fix_loop_counts_the_runs_of_its_sessions(rows, times, j);
    a_fix_loop_counts_the_runs_of_its_sessions(rows, times, k);
    let (t, u) = (looped(rows, times)[j].templates[0], looped(rows, times)[k].templates[0]);
    let (w, c) = (4 + sessions_on(rows, t), total_runs(rows, t));
    let (m, n) = (step_ms(times, t) as nat, step_ms(times, u) as nat);
    scores_are_products(w, c, m);
    scores_are_products(w, c, n);
    assert(w * c * m < w * c * n) by (nonlinear_arith)
        requires
            w >= 4,
            c >= 3,
            m < n,
    ;
}

} // verus!
