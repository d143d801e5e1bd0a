//! How long a step takes: per-template medians of recorded durations and of
//! the gaps between neighbouring actions, in milliseconds.
use crate::count::{how_many, lemma_same_positions, lemma_some_position};
use crate::intern::Interner;
use crate::order::{median, median_of, the_median_splits_in_half};
use crate::text::texts;
use vstd::prelude::*;

verus! {

/// The longest time that a step is charged with, in milliseconds.
pub const LONGEST_STEP: u64 = 300_000;

/// What a step is charged with when nothing was ever timed, in milliseconds.
pub const DEFAULT_STEP: u64 = 12_000;

/// A templated command with its times, in the order source, session, number.
pub struct TimingRow {
    pub session: String,
    pub template: String,
    pub ts: Option<i64>,
    pub duration_ms: Option<i64>,
}

/// What a [`TimingRow`] holds.
pub struct TimingView {
    pub session: Seq<char>,
    pub template: Seq<char>,
    pub ts: Option<i64>,
    pub duration_ms: Option<i64>,
}

impl View for TimingRow {
    type V = TimingView;

    open spec fn view(&self) -> TimingView {
        TimingView {
            session: self.session@,
            template: self.template@,
            ts: self.ts,
            duration_ms: self.duration_ms,
        }
    }
}

/// What a sequence of rows holds.
pub open spec fn timing_view(v: Seq<TimingRow>) -> Seq<TimingView> {
    Seq::new(v.len(), |i: int| v[i]@)
}

/// A time in milliseconds, kept between nothing and [`LONGEST_STEP`].
pub open spec fn clamp_ms(ms: int) -> u64 {
    if ms < 0 {
        0
    } else if ms > LONGEST_STEP {
        LONGEST_STEP
    } else {
        ms as u64
    }
}

/// The time of row `i`: its recorded duration, or else the gap to the next row
/// of the same session.
pub open spec fn sample(rows: Seq<TimingView>, i: int) -> Option<u64> {
    match (rows[i].duration_ms, rows[i].ts) {
        (Some(ms), _) => Some(clamp_ms(ms as int)),
        (None, Some(t0)) => if i + 1 < rows.len() && rows[i + 1].session == rows[i].session {
            match rows[i + 1].ts {
                Some(t1) => Some(clamp_ms((t1 - t0) * 1000)),
                None => None,
            }
        } else {
            None
        },
        (None, None) => None,
    }
}

/// The times of template `t` among the first `n` rows.
pub open spec fn samples(rows: Seq<TimingView>, n: nat, t: Seq<char>) -> Seq<u64>
    decreases n,
{
    if n == 0 {
        Seq::empty()
    } else {
        let before = samples(rows, (n - 1) as nat, t);
        match sample(rows, n - 1) {
            Some(ms) => if rows[n - 1].template == t {
                before.push(ms)
            } else {
                before
            },
            None => before,
        }
    }
}

/// The templates with a time among the first `n` rows, by first appearance.
pub open spec fn timed(rows: Seq<TimingView>, n: nat) -> Seq<Seq<char>>
    decreases n,
{
    if n == 0 {
        Seq::empty()
    } else {
        let before = timed(rows, (n - 1) as nat);
        if sample(rows, n - 1) is Some && !before.contains(rows[n - 1].template) {
            before.push(rows[n - 1].template)
        } else {
            before
        }
    }
}

/// The median time of a template.
pub open spec fn median_ms(rows: Seq<TimingView>, t: Seq<char>) -> u64 {
    median(samples(rows, rows.len(), t))
}

/// The time of a template that was never timed: the median of the medians.
pub open spec fn fallback_ms(rows: Seq<TimingView>) -> u64 {
    let ts = timed(rows, rows.len());
    if ts.len() == 0 {
        DEFAULT_STEP
    } else {
        median(Seq::new(ts.len(), |i: int| median_ms(rows, ts[i])))
    }
}

/// The estimated time that one run of a step costs.
pub open spec fn step_ms(rows: Seq<TimingView>, t: Seq<char>) -> u64 {
    if timed(rows, rows.len()).contains(t) {
        median_ms(rows, t)
    } else {
        fallback_ms(rows)
    }
}

/// The times of all steps of a sequence of templates, added up.
pub open spec fn run_ms(rows: Seq<TimingView>, templates: Seq<Seq<char>>) -> nat
    decreases templates.len(),
{
    if templates.len() == 0 {
        0
    } else {
        run_ms(rows, templates.drop_last()) + step_ms(rows, templates.last()) as nat
    }
}

/// Per-template medians plus a fallback for templates without any time.
pub struct Timings {
    names: Interner,
    medians: Vec<u64>,
    fallback: u64,
}

impl Timings {
    /// Every name has a median.
    pub closed spec fn wf(&self) -> bool {
        self.names.wf() && self.medians@.len() == self.names@.len()
    }

    /// The table answers what [`step_ms`] says of `rows`.
    pub closed spec fn of(&self, rows: Seq<TimingView>) -> bool {
        &&& self.names@ == timed(rows, rows.len())
        &&& forall|i: int|
            0 <= i < self.names@.len() ==> #[trigger] self.medians@[i] == median_ms(
                rows,
                self.names@[i],
            )
        &&& self.fallback == fallback_ms(rows)
    }

    /// The time of one step, in milliseconds.
    pub fn step(&self, template: &str) -> (r: u64)
        requires
            self.wf(),
        ensures
            forall|rows: Seq<TimingView>| #[trigger] self.of(rows) ==> r == step_ms(rows, template@),
    {
        match self.names.find(template) {
            Some(i) => {
                assert(self.names@.contains(template@));
                self.medians[i]
            },
            None => self.fallback,
        }
    }

    /// The time of one run through all steps, in milliseconds.
    pub fn run(&self, templates: &Vec<String>) -> (r: u128)
        requires
            self.wf(),
        ensures
            forall|rows: Seq<TimingView>| #[trigger]
                self.of(rows) ==> r == run_ms(rows, texts(templates@)),
    {
        let ghost ts = texts(templates@);
        let mut total: u128 = 0;
        let mut i: usize = 0;
        assert(ts.take(0) == Seq::<Seq<char>>::empty());
        while i < templates.len()
            invariant
                i <= templates@.len(),
                self.wf(),
                ts == texts(templates@),
                forall|rows: Seq<TimingView>| #[trigger]
                    self.of(rows) ==> total == run_ms(rows, ts.take(i as int)),
                total <= i * 0xffff_ffff_ffff_ffff,
            decreases templates@.len() - i,
        {
            assert(ts.take(i + 1).drop_last() == ts.take(i as int));
            let ms = self.step(templates[i].as_str());
            assert(i * 0xffff_ffff_ffff_ffff <= 0xffff_ffff_ffff_ffff * 0xffff_ffff_ffff_ffff);
            total += ms as u128;
            i += 1;
        }
        assert(ts.take(i as int) == ts);
        total
    }
}

/// Keeps a time in milliseconds within bounds.
fn clamp(ms: i128) -> (r: u64)
    ensures
        r == clamp_ms(ms as int),
{
    if ms < 0 {
        0
    } else if ms > LONGEST_STEP as i128 {
        LONGEST_STEP
    } else {
        ms as u64
    }
}

/// The time of row `i`, if it is known.
fn sample_of(rows: &Vec<TimingRow>, i: usize) -> (r: Option<u64>)
    requires
        i < rows@.len(),
    ensures
        r == sample(timing_view(rows@), i as int),
{
    let row = &rows[i];
    match row.duration_ms {
        Some(ms) => Some(clamp(ms as i128)),
        None => match row.ts {
            Some(t0) => {
                if i < rows.len() - 1 {
                    let next = &rows[i + 1];
                    if next.session == row.session {
                        match next.ts {
                            Some(t1) => Some(clamp((t1 as i128 - t0 as i128) * 1000)),
                            None => None,
                        }
                    } else {
                        None
                    }
                } else {
                    None
                }
            },
            None => None,
        },
    }
}

/// A template is timed exactly if it has samples.
pub proof fn lemma_timed_has_samples(rows: Seq<TimingView>, n: nat, t: Seq<char>)
    requires
        n <= rows.len(),
    ensures
        timed(rows, n).contains(t) <==> samples(rows, n, t).len() > 0,
    decreases n,
{
    if n > 0 {
        let m = (n - 1) as nat;
        lemma_timed_has_samples(rows, m, t);
        let before = timed(rows, m);
        let now = timed(rows, n);
        if now != before {
            assert(now == before.push(rows[n - 1].template));
            if before.contains(t) {
                let k = choose|k: int| 0 <= k < before.len() && before[k] == t;
                assert(now[k] == t);
            }
            assert(now[now.len() - 1] == rows[n - 1].template);
        }
    }
}

/// Estimates the time that each step costs.
pub fn template_seconds(rows: &Vec<TimingRow>) -> (r: Timings)
    ensures
        r.wf(),
        r.of(timing_view(rows@)),
{
    let ghost all = timing_view(rows@);
    let mut names = Interner::new();
    let mut buckets: Vec<Vec<u64>> = Vec::new();
    let mut i: usize = 0;
    while i < rows.len()
        invariant
            i <= rows@.len(),
            all == timing_view(rows@),
            names.wf(),
            names@ == timed(all, i as nat),
            buckets@.len() == names@.len(),
            forall|k: int|
                0 <= k < names@.len() ==> (#[trigger] buckets@[k])@ == samples(
                    all,
                    i as nat,
                    names@[k],
                ),
        decreases rows@.len() - i,
    {
        let s = sample_of(rows, i);
        let ghost before = names@;
        let ghost held = buckets@;
        proof {
            assert(timed(all, (i + 1) as nat) == (if s is Some && !before.contains(
                all[i as int].template,
            ) {
                before.push(all[i as int].template)
            } else {
                before
            }));
        }
        match s {
            Some(ms) => {
                let k = names.intern(rows[i].template.as_str());
                proof {
                    names.lemma_distinct();
                    if !before.contains(all[i as int].template) {
                        lemma_timed_has_samples(all, i as nat, all[i as int].template);
                        assert(k == before.len()) by {
                            if k < before.len() {
                                assert(before[k as int] == all[i as int].template);
                            }
                        }
                    }
                }
                if k == buckets.len() {
                    buckets.push(Vec::new());
                }
                let ghost ready = buckets@;
                buckets[k].push(ms);
                proof {
                    assert forall|j: int| 0 <= j < names@.len() implies (#[trigger] buckets@[j])@
                        == samples(all, (i + 1) as nat, names@[j]) by {
                        if j != k {
                            assert(names@[j] != names@[k as int]);
                            assert(buckets@[j] == ready[j]);
                            assert(ready[j] == held[j]);
                            assert(names@[j] == before[j]);
                        } else {
                            assert(buckets@[j]@ == ready[j]@.push(ms));
                            if j < held.len() {
                                assert(ready[j] == held[j]);
                                assert(names@[j] == before[j]);
                            }
                        }
                    }
                }
            },
            None => {
                assert forall|j: int| 0 <= j < names@.len() implies (#[trigger] buckets@[j])@
                    == samples(all, (i + 1) as nat, names@[j]) by {}
            },
        }
        i += 1;
    }
    let mut medians: Vec<u64> = Vec::new();
    let mut k: usize = 0;
    while k < buckets.len()
        invariant
            k <= buckets@.len(),
            names@ == timed(all, all.len()),
            buckets@.len() == names@.len(),
            forall|j: int|
                0 <= j < names@.len() ==> (#[trigger] buckets@[j])@ == samples(
                    all,
                    all.len(),
                    names@[j],
                ),
            medians@.len() == k,
            forall|j: int| 0 <= j < k ==> #[trigger] medians@[j] == median_ms(all, names@[j]),
        decreases buckets@.len() - k,
    {
        proof {
            assert(names@.contains(names@[k as int]));
            lemma_timed_has_samples(all, all.len(), names@[k as int]);
        }
        medians.push(median_of(&buckets[k]));
        k += 1;
    }
    assert(medians@ =~= Seq::new(names@.len(), |j: int| median_ms(all, names@[j])));
    let fallback: u64 = if medians.len() == 0 {
        DEFAULT_STEP
    } else {
        median_of(&medians)
    };
    Timings { names, medians, fallback }
}

/// No step is charged with more than [`LONGEST_STEP`].
pub proof fn no_step_is_charged_beyond_the_cap(rows: Seq<TimingView>, t: Seq<char>)
    ensures
        step_ms(rows, t) <= LONGEST_STEP,
{
    let ts = timed(rows, rows.len());
    assert forall|u: Seq<char>| ts.contains(u) implies #[trigger] median_ms(rows, u) <= LONGEST_STEP by {
        lemma_timed_has_samples(rows, rows.len(), u);
        lemma_samples_bounded(rows, rows.len(), u);
        lemma_median_bounded(samples(rows, rows.len(), u), LONGEST_STEP);
    }
    if ts.len() > 0 {
        let m = Seq::new(ts.len(), |i: int| median_ms(rows, ts[i]));
        assert forall|i: int| 0 <= i < m.len() implies #[trigger] m[i] <= LONGEST_STEP by {
            assert(ts.contains(ts[i]));
        }
        lemma_median_bounded(m, LONGEST_STEP);
    }
}

proof fn lemma_samples_bounded(rows: Seq<TimingView>, n: nat, t: Seq<char>)
    ensures
        forall|i: int|
            0 <= i < samples(rows, n, t).len() ==> #[trigger] samples(rows, n, t)[i]
                <= LONGEST_STEP,
    decreases n,
{
    if n > 0 {
        lemma_samples_bounded(rows, (n - 1) as nat, t);
        let before = samples(rows, (n - 1) as nat, t);
        let now = samples(rows, n, t);
        assert forall|i: int| 0 <= i < now.len() implies #[trigger] now[i] <= LONGEST_STEP by {
            if i < before.len() {
                assert(now[i] == before[i]);
            } else {
                assert(sample(rows, n - 1) == Some(now[i]));
            }
        }
    }
}

/// The median is one of the elements, so a bound on them bounds it.
proof fn lemma_median_bounded(s: Seq<u64>, bound: u64)
    requires
        s.len() > 0,
        forall|i: int| 0 <= i < s.len() ==> #[trigger] s[i] <= bound,
    ensures
        median(s) <= bound,
{
    let leq = |a: u64, b: u64| a <= b;
    let sorted = s.sort_by(leq);
    s.lemma_sort_by_ensures(leq);
    s.to_multiset_ensures();
    sorted.to_multiset_ensures();
    let m = sorted[(s.len() / 2) as int];
    assert(sorted.contains(m));
    assert(s.contains(m));
}

// ---------------------------------------------------------------------------
// What a step is charged with
// ---------------------------------------------------------------------------

/// A recorded duration is charged as it is, but as nothing when it is negative and
/// as five minutes when it is longer.
pub proof fn a_recorded_duration_is_charged(rows: Seq<TimingView>, i: int, ms: i64)
    requires
        rows[i].duration_ms == Some(ms),
    ensures
        sample(rows, i) is Some,
        0 <= ms <= 300_000 ==> sample(rows, i)->0 == ms,
        ms < 0 ==> sample(rows, i)->0 == 0,
        ms > 300_000 ==> sample(rows, i)->0 == 300_000,
{
}

/// Without a recorded duration the seconds until the next action of the same
/// session are charged, five minutes at most; without both times nothing is known.
pub proof fn a_gap_is_charged(rows: Seq<TimingView>, i: int)
    requires
        0 <= i < rows.len(),
        rows[i].duration_ms is None,
    ensures
        sample(rows, i) is Some <==> i + 1 < rows.len() && rows[i + 1].session == rows[i].session
            && rows[i].ts is Some && rows[i + 1].ts is Some,
        sample(rows, i) is Some ==> ({
            let gap = rows[i + 1].ts->0 - rows[i].ts->0;
            &&& 0 <= gap <= 300 ==> sample(rows, i)->0 == 1000 * gap
            &&& gap < 0 ==> sample(rows, i)->0 == 0
            &&& gap > 300 ==> sample(rows, i)->0 == 300_000
        }),
{
}

/// The times of a template are those of its rows.
proof fn lemma_samples_are_rows(
    rows: Seq<TimingView>,
    n: nat,
    t: Seq<char>,
    f: spec_fn(u64) -> bool,
)
    requires
        n <= rows.len(),
    ensures
        how_many(samples(rows, n, t).len(), |i: int| f(samples(rows, n, t)[i])) == how_many(
            n,
            |i: int| rows[i].template == t && sample(rows, i) is Some && f(sample(rows, i)->0),
        ),
    decreases n,
{
    if n > 0 {
        let m = (n - 1) as nat;
        let before = samples(rows, m, t);
        let now = samples(rows, n, t);
        lemma_samples_are_rows(rows, m, t, f);
        lemma_same_positions(before.len(), |i: int| f(before[i]), |i: int| f(now[i]));
        if now.len() > before.len() {
            assert(now == before.push(sample(rows, n - 1)->0));
            assert(now[now.len() - 1] == sample(rows, n - 1)->0);
        }
    }
}

/// A step that was ever timed costs the median of its times: one of them, with at
/// most half of them below it and more than half of them not above it.
pub proof fn a_timed_step_costs_its_median(rows: Seq<TimingView>, t: Seq<char>)
    requires
        exists|i: int|
            0 <= i < rows.len() && (#[trigger] rows[i]).template == t && sample(rows, i) is Some,
    ensures
        exists|i: int|
            0 <= i < rows.len() && (#[trigger] rows[i]).template == t && sample(rows, i) == Some(
                step_ms(rows, t),
            ),
        ({
            let known = how_many(
                rows.len(),
                |i: int| rows[i].template == t && sample(rows, i) is Some,
            );
            let below = how_many(
                rows.len(),
                |i: int|
                    rows[i].template == t && sample(rows, i) is Some && sample(rows, i)->0
                        < step_ms(rows, t),
            );
            let within = how_many(
                rows.len(),
                |i: int|
                    rows[i].template == t && sample(rows, i) is Some && sample(rows, i)->0
                        <= step_ms(rows, t),
            );
            2 * below <= known < 2 * within
        }),
{
    let n = rows.len();
    let s = samples(rows, n, t);
    let m = median(s);
    let all = |x: u64| true;
    let less = |x: u64| x < m;
    let most = |x: u64| x <= m;
    let here = |x: u64| x == m;
    lemma_samples_are_rows(rows, n, t, all);
    lemma_samples_are_rows(rows, n, t, less);
    lemma_samples_are_rows(rows, n, t, most);
    lemma_samples_are_rows(rows, n, t, here);
    let known = |i: int| rows[i].template == t && sample(rows, i) is Some;
    let w = choose|i: int|
        0 <= i < rows.len() && (#[trigger] rows[i]).template == t && sample(rows, i) is Some;
    assert(known(w));
    lemma_some_position(n, known);
    lemma_same_positions(
        n,
        known,
        |i: int| rows[i].template == t && sample(rows, i) is Some && all(sample(rows, i)->0),
    );
    lemma_same_positions(s.len(), |i: int| all(s[i]), |i: int| true);
    lemma_all_positions(s.len());
    assert(s.len() > 0);
    lemma_timed_has_samples(rows, n, t);
    assert(step_ms(rows, t) == m);
    the_median_splits_in_half(s);
    lemma_same_positions(s.len(), |i: int| less(s[i]), |i: int| s[i] < m);
    lemma_same_positions(s.len(), |i: int| most(s[i]), |i: int| s[i] <= m);
    lemma_same_positions(
        n,
        |i: int| rows[i].template == t && sample(rows, i) is Some && sample(rows, i)->0 < m,
        |i: int| rows[i].template == t && sample(rows, i) is Some && less(sample(rows, i)->0),
    );
    lemma_same_positions(
        n,
        |i: int| rows[i].template == t && sample(rows, i) is Some && sample(rows, i)->0 <= m,
        |i: int| rows[i].template == t && sample(rows, i) is Some && most(sample(rows, i)->0),
    );
    let k = choose|k: int| 0 <= k < s.len() && s[k] == m;
    let at = |i: int| here(s[i]);
    assert(at(k));
    lemma_some_position(s.len(), at);
    let found = |i: int| rows[i].template == t && sample(rows, i) is Some && here(sample(rows, i)->0);
    lemma_some_position(n, found);
    let i = choose|i: int| 0 <= i < n && #[trigger] found(i);
    assert(rows[i].template == t && sample(rows, i) == Some(m));
}

/// There are as many positions as there are.
proof fn lemma_all_positions(n: nat)
    ensures
        how_many(n, |i: int| true) == n,
    decreases n,
{
    if n > 0 {
        lemma_all_positions((n - 1) as nat);
    }
}

/// A step that was never timed costs the median over the timed templates, each
/// taken once, and twelve seconds when nothing was ever timed.
pub proof fn an_untimed_step_costs_the_median_step(rows: Seq<TimingView>, t: Seq<char>)
    requires
        forall|i: int|
            0 <= i < rows.len() && (#[trigger] rows[i]).template == t ==> sample(rows, i) is None,
    ensures
        ({
            let ts = timed(rows, rows.len());
            &&& ts.no_duplicates()
            &&& forall|u: Seq<char>| #[trigger]
                ts.contains(u) <==> exists|i: int|
                    0 <= i < rows.len() && (#[trigger] rows[i]).template == u && sample(rows, i)
                        is Some
            &&& ts.len() == 0 ==> step_ms(rows, t) == 12_000
            &&& ts.len() > 0 ==> step_ms(rows, t) == median(
                Seq::new(ts.len(), |i: int| step_ms(rows, ts[i])),
            )
        }),
{
    let n = rows.len();
    let ts = timed(rows, n);
    lemma_timed_distinct(rows, n);
    assert forall|u: Seq<char>| #[trigger] ts.contains(u) <==> exists|i: int|
        0 <= i < rows.len() && (#[trigger] rows[i]).template == u && sample(rows, i) is Some by {
        lemma_timed_from(rows, n, u);
    }
    assert(!ts.contains(t));
    let a = Seq::new(ts.len(), |i: int| step_ms(rows, ts[i]));
    let b = Seq::new(ts.len(), |i: int| median_ms(rows, ts[i]));
    assert forall|i: int| 0 <= i < ts.len() implies a[i] == b[i] by {
        assert(ts.contains(ts[i]));
    }
    assert(a =~= b);
}

/// Timed templates are listed once.
proof fn lemma_timed_distinct(rows: Seq<TimingView>, n: nat)
    ensures
        timed(rows, n).no_duplicates(),
    decreases n,
{
    if n > 0 {
        lemma_timed_distinct(rows, (n - 1) as nat);
    }
}

/// Which templates are timed.
proof fn lemma_timed_from(rows: Seq<TimingView>, n: nat, u: Seq<char>)
    requires
        n <= rows.len(),
    ensures
        timed(rows, n).contains(u) <==> exists|i: int|
            0 <= i < n && (#[trigger] rows[i]).template == u && sample(rows, i) is Some,
    decreases n,
{
    if n > 0 {
        let m = (n - 1) as nat;
        let before = timed(rows, m);
        let now = timed(rows, n);
        lemma_timed_from(rows, m, u);
        if before.contains(u) {
            let k = choose|k: int| 0 <= k < before.len() && before[k] == u;
            assert(now[k] == u);
            let i = choose|i: int|
                0 <= i < m && (#[trigger] rows[i]).template == u && sample(rows, i) is Some;
            assert(rows[i].template == u);
        }
        if now.contains(u) && !before.contains(u) {
            let k = choose|k: int| 0 <= k < now.len() && now[k] == u;
            if k < before.len() {
                assert(before[k] == u);
            }
            assert(rows[n - 1].template == u);
        }
        if exists|i: int|
            0 <= i < n && (#[trigger] rows[i]).template == u && sample(rows, i) is Some {
            let i = choose|i: int|
                0 <= i < n && (#[trigger] rows[i]).template == u && sample(rows, i) is Some;
            if i == m && !before.contains(u) {
                assert(now[before.len() as int] == u);
            }
        }
    }
}

/// A run through steps takes as long as its parts, and through one step as long as
/// the step.
pub proof fn a_run_takes_as_long_as_its_steps(
    rows: Seq<TimingView>,
    a: Seq<Seq<char>>,
    b: Seq<Seq<char>>,
    t: Seq<char>,
)
    ensures
        run_ms(rows, a + b) == run_ms(rows, a) + run_ms(rows, b),
        run_ms(rows, seq![t]) == step_ms(rows, t),
        run_ms(rows, Seq::empty()) == 0,
    decreases b.len(),
{
    assert(seq![t].drop_last() =~= Seq::empty());
    assert(run_ms(rows, seq![t].drop_last()) == 0);
    if b.len() == 0 {
        assert(a + b =~= a);
    } else {
        a_run_takes_as_long_as_its_steps(rows, a, b.drop_last(), t);
        assert((a + b).drop_last() =~= a + b.drop_last());
    }
}

} // verus!
