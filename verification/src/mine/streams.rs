//! Ordered streams of command templates, and how often a sequence of templates
//! occurs in them.
use crate::count::{how_many, lemma_from_second, lemma_same_positions};
use crate::text::texts;
use vstd::prelude::*;

verus! {

/// One templated command of the history, in the order source, session, number.
pub struct StreamRow {
    pub source: String,
    pub session: String,
    pub template: String,
    pub id: i64,
}

/// What a [`StreamRow`] holds.
pub struct RowView {
    pub source: Seq<char>,
    pub session: Seq<char>,
    pub template: Seq<char>,
    pub id: i64,
}

impl View for StreamRow {
    type V = RowView;

    open spec fn view(&self) -> RowView {
        RowView {
            source: self.source@,
            session: self.session@,
            template: self.template@,
            id: self.id,
        }
    }
}

/// A step of a stream: a template and the id of the command it came from.
pub struct Step {
    pub template: String,
    pub id: i64,
}

/// What a [`Step`] holds.
pub struct StepView {
    pub template: Seq<char>,
    pub id: i64,
}

impl View for Step {
    type V = StepView;

    open spec fn view(&self) -> StepView {
        StepView { template: self.template@, id: self.id }
    }
}

/// What a sequence of rows holds.
pub open spec fn rows_view(v: Seq<StreamRow>) -> Seq<RowView> {
    Seq::new(v.len(), |i: int| v[i]@)
}

/// What a stream holds.
pub open spec fn steps_view(v: Seq<Step>) -> Seq<StepView> {
    Seq::new(v.len(), |i: int| v[i]@)
}

/// What a sequence of streams holds.
pub open spec fn streams_view(v: Seq<Vec<Step>>) -> Seq<Seq<StepView>> {
    Seq::new(v.len(), |i: int| steps_view(v[i]@))
}

// ---------------------------------------------------------------------------
// Streams
// ---------------------------------------------------------------------------

/// Whether two rows belong to the same stream when they are neighbours.
pub open spec fn same_session(a: RowView, b: RowView) -> bool {
    a.source == b.source && a.session == b.session
}

/// The step that a row contributes.
pub open spec fn step_of(r: RowView) -> StepView {
    StepView { template: r.template, id: r.id }
}

/// The maximal runs of neighbouring rows of one source and session.
pub open spec fn grouped(rows: Seq<RowView>) -> Seq<Seq<StepView>>
    decreases rows.len(),
{
    if rows.len() == 0 {
        Seq::empty()
    } else {
        let before = grouped(rows.drop_last());
        if rows.len() > 1 && same_session(rows[rows.len() - 2], rows.last()) {
            before.drop_last().push(before.last().push(step_of(rows.last())))
        } else {
            before.push(seq![step_of(rows.last())])
        }
    }
}

/// A stream in which every run of one template is cut down to its first step.
pub open spec fn without_repeats(s: Seq<StepView>) -> Seq<StepView>
    decreases s.len(),
{
    if s.len() == 0 {
        Seq::empty()
    } else {
        let before = without_repeats(s.drop_last());
        if before.len() > 0 && before.last().template == s.last().template {
            before
        } else {
            before.push(s.last())
        }
    }
}

/// The streams of a history, without immediate repeats.
pub open spec fn workflow_streams(rows: Seq<RowView>) -> Seq<Seq<StepView>> {
    Seq::new(grouped(rows).len(), |i: int| without_repeats(grouped(rows)[i]))
}

/// How many steps there are in all.
pub open spec fn total_steps(streams: Seq<Seq<StepView>>) -> nat
    decreases streams.len(),
{
    if streams.len() == 0 {
        0
    } else {
        total_steps(streams.drop_last()) + streams.last().len()
    }
}

/// Ordered streams of (template, command id), one for each session.
pub fn load_streams(rows: &Vec<StreamRow>) -> (r: Vec<Vec<Step>>)
    ensures
        streams_view(r@) == grouped(rows_view(rows@)),
{
    let ghost all = rows_view(rows@);
    let mut streams: Vec<Vec<Step>> = Vec::new();
    if rows.len() == 0 {
        assert(streams_view(streams@) == grouped(all));
        return streams;
    }
    let mut current: Vec<Step> = Vec::new();
    current.push(Step { template: rows[0].template.clone(), id: rows[0].id });
    proof {
        let one = all.take(1);
        assert(one.drop_last() == Seq::<RowView>::empty());
        assert(steps_view(current@) =~= seq![step_of(all[0])]);
        reveal_with_fuel(grouped, 2);
        assert(grouped(one) =~= streams_view(streams@).push(steps_view(current@)));
    }
    let mut i: usize = 1;
    while i < rows.len()
        invariant
            1 <= i <= rows@.len(),
            all == rows_view(rows@),
            grouped(all.take(i as int)) == streams_view(streams@).push(steps_view(current@)),
        decreases rows@.len() - i,
    {
        let row = &rows[i];
        let prev = &rows[i - 1];
        let step = Step { template: row.template.clone(), id: row.id };
        let ghost done = streams_view(streams@);
        let ghost cur = steps_view(current@);
        proof {
            let now = all.take(i + 1);
            assert(now.drop_last() == all.take(i as int));
            assert(now[now.len() - 2] == all[i - 1]);
            assert(done.push(cur).drop_last() == done);
        }
        if prev.source == row.source && prev.session == row.session {
            current.push(step);
            assert(steps_view(current@) =~= cur.push(step_of(all[i as int])));
        } else {
            streams.push(current);
            current = Vec::new();
            current.push(step);
            assert(steps_view(current@) =~= seq![step_of(all[i as int])]);
            assert(streams_view(streams@) =~= done.push(cur));
        }
        i += 1;
    }
    let ghost done = streams_view(streams@);
    let ghost cur = steps_view(current@);
    streams.push(current);
    proof {
        assert(all.take(i as int) == all);
        assert(streams_view(streams@) =~= done.push(cur));
    }
    streams
}

/// Collapses immediate repeats: the same command many times in a row is one
/// attempt, not as many steps of a workflow.
pub fn dedup_runs(stream: &Vec<Step>) -> (r: Vec<Step>)
    ensures
        steps_view(r@) == without_repeats(steps_view(stream@)),
{
    let ghost all = steps_view(stream@);
    let mut out: Vec<Step> = Vec::new();
    let mut i: usize = 0;
    assert(all.take(0) == Seq::<StepView>::empty());
    while i < stream.len()
        invariant
            i <= stream@.len(),
            all == steps_view(stream@),
            steps_view(out@) == without_repeats(all.take(i as int)),
        decreases stream@.len() - i,
    {
        let step = &stream[i];
        let ghost done = steps_view(out@);
        assert(all.take(i + 1).drop_last() == all.take(i as int));
        assert(done.len() == out@.len());
        let repeat = out.len() > 0 && out[out.len() - 1].template == step.template;
        if !repeat {
            out.push(Step { template: step.template.clone(), id: step.id });
            assert(steps_view(out@) =~= done.push(all[i as int]));
        }
        i += 1;
    }
    assert(all.take(i as int) == all);
    out
}

/// The streams of a history, each without immediate repeats.
pub fn load_workflows(rows: &Vec<StreamRow>) -> (r: Vec<Vec<Step>>)
    ensures
        streams_view(r@) == workflow_streams(rows_view(rows@)),
{
    let streams = load_streams(rows);
    let ghost all = streams_view(streams@);
    let mut out: Vec<Vec<Step>> = Vec::new();
    let mut i: usize = 0;
    while i < streams.len()
        invariant
            i <= streams@.len(),
            all == streams_view(streams@),
            out@.len() == i,
            forall|k: int| 0 <= k < i ==> steps_view(#[trigger] out@[k]@) == without_repeats(all[k]),
        decreases streams@.len() - i,
    {
        out.push(dedup_runs(&streams[i]));
        i += 1;
    }
    assert(streams_view(out@) =~= workflow_streams(rows_view(rows@)));
    out
}

// ---------------------------------------------------------------------------
// Laws of streams
// ---------------------------------------------------------------------------

/// Collapsing repeats leaves no two neighbours with one template.
pub proof fn collapsed_streams_have_no_repeats(s: Seq<StepView>)
    ensures
        forall|i: int|
            0 <= i < without_repeats(s).len() - 1 ==> (#[trigger] without_repeats(s)[i]).template
                != without_repeats(s)[i + 1].template,
        without_repeats(s).len() <= s.len(),
        s.len() > 0 ==> without_repeats(s).len() > 0 && without_repeats(s).last().template
            == s.last().template && without_repeats(s)[0] == s[0],
    decreases s.len(),
{
    if s.len() > 0 {
        collapsed_streams_have_no_repeats(s.drop_last());
    }
}

/// Collapsing a second time changes nothing.
pub proof fn collapsing_twice_is_collapsing_once(s: Seq<StepView>)
    ensures
        without_repeats(without_repeats(s)) == without_repeats(s),
    decreases s.len(),
{
    if s.len() > 0 {
        let before = without_repeats(s.drop_last());
        collapsing_twice_is_collapsing_once(s.drop_last());
        let now = without_repeats(s);
        if now != before {
            assert(now.drop_last() == before);
        }
    }
}

/// No step is lost when rows are grouped into streams.
pub proof fn grouping_keeps_every_step(rows: Seq<RowView>)
    ensures
        total_steps(grouped(rows)) == rows.len(),
        rows.len() > 0 ==> grouped(rows).len() > 0,
        forall|i: int| 0 <= i < grouped(rows).len() ==> (#[trigger] grouped(rows)[i]).len() > 0,
    decreases rows.len(),
{
    if rows.len() > 0 {
        let before = grouped(rows.drop_last());
        let now = grouped(rows);
        grouping_keeps_every_step(rows.drop_last());
        if rows.len() > 1 && same_session(rows[rows.len() - 2], rows.last()) {
            assert(now.drop_last() == before.drop_last());
            assert(now.last() == before.last().push(step_of(rows.last())));
            assert forall|i: int| 0 <= i < now.len() implies (#[trigger] now[i]).len() > 0 by {
                if i < now.len() - 1 {
                    assert(now[i] == before[i]);
                }
            }
        } else {
            assert(now.drop_last() == before);
            assert(now.last() == seq![step_of(rows.last())]);
            assert forall|i: int| 0 <= i < now.len() implies (#[trigger] now[i]).len() > 0 by {
                if i < now.len() - 1 {
                    assert(now[i] == before[i]);
                }
            }
        }
    }
}

/// The streams of a history hold at most as many steps as it has rows.
pub proof fn lemma_workflow_size(rows: Seq<RowView>)
    ensures
        total_steps(workflow_streams(rows)) <= rows.len(),
{
    grouping_keeps_every_step(rows);
    lemma_collapsed_size(grouped(rows));
}

proof fn lemma_collapsed_size(streams: Seq<Seq<StepView>>)
    ensures
        total_steps(Seq::new(streams.len(), |i: int| without_repeats(streams[i]))) <= total_steps(
            streams,
        ),
    decreases streams.len(),
{
    let out = Seq::new(streams.len(), |i: int| without_repeats(streams[i]));
    if streams.len() > 0 {
        lemma_collapsed_size(streams.drop_last());
        let less = streams.drop_last();
        assert(out.drop_last() =~= Seq::new(less.len(), |i: int| without_repeats(less[i])));
        collapsed_streams_have_no_repeats(streams.last());
    }
}

/// The first streams hold no more steps than all of them.
pub proof fn lemma_total_steps_take(streams: Seq<Seq<StepView>>, k: int)
    requires
        0 <= k <= streams.len(),
    ensures
        total_steps(streams.take(k)) <= total_steps(streams),
    decreases streams.len(),
{
    if k < streams.len() {
        lemma_total_steps_take(streams.drop_last(), k);
        assert(streams.drop_last().take(k) == streams.take(k));
    } else {
        assert(streams.take(k) == streams);
    }
}

// ---------------------------------------------------------------------------
// Occurrences
// ---------------------------------------------------------------------------

/// Whether the templates `g` stand in the stream at position `i`.
pub open spec fn occurs_at(s: Seq<StepView>, g: Seq<Seq<char>>, i: int) -> bool {
    &&& 0 <= i
    &&& i + g.len() <= s.len()
    &&& forall|k: int| 0 <= k < g.len() ==> s[i + k].template == #[trigger] g[k]
}

/// Where `g` occurs from position `i` on: greedily from left to right, so that
/// no two occurrences overlap.
pub open spec fn starts(s: Seq<StepView>, g: Seq<Seq<char>>, i: int) -> Seq<int>
    decreases s.len() - i,
{
    if i < 0 || g.len() == 0 || i + g.len() > s.len() {
        Seq::empty()
    } else if occurs_at(s, g, i) {
        seq![i] + starts(s, g, i + g.len())
    } else {
        starts(s, g, i + 1)
    }
}

/// How many of the occurrences begin with a command newer than `min_id`.
pub open spec fn newer(s: Seq<StepView>, at: Seq<int>, min_id: i64) -> nat
    decreases at.len(),
{
    if at.len() == 0 {
        0
    } else {
        newer(s, at.drop_first(), min_id) + (if s[at[0]].id > min_id {
            1nat
        } else {
            0nat
        })
    }
}

/// How often `g` occurs in the streams.
pub open spec fn support(streams: Seq<Seq<StepView>>, g: Seq<Seq<char>>) -> nat
    decreases streams.len(),
{
    if streams.len() == 0 {
        0
    } else {
        support(streams.drop_last(), g) + starts(streams.last(), g, 0).len()
    }
}

/// How often `g` occurs in the streams with its first command newer than
/// `min_id`.
pub open spec fn support_since(
    streams: Seq<Seq<StepView>>,
    g: Seq<Seq<char>>,
    min_id: i64,
) -> nat
    decreases streams.len(),
{
    if streams.len() == 0 {
        0
    } else {
        support_since(streams.drop_last(), g, min_id) + newer(
            streams.last(),
            starts(streams.last(), g, 0),
            min_id,
        )
    }
}

/// What [`starts`] finds: occurrences, in ascending order, that do not overlap.
pub proof fn occurrences_do_not_overlap(s: Seq<StepView>, g: Seq<Seq<char>>, i: int)
    requires
        0 <= i,
        g.len() > 0,
    ensures
        forall|k: int|
            0 <= k < starts(s, g, i).len() ==> i <= #[trigger] starts(s, g, i)[k] && occurs_at(
                s,
                g,
                starts(s, g, i)[k],
            ),
        forall|k: int, l: int|
            0 <= k < l < starts(s, g, i).len() ==> #[trigger] starts(s, g, i)[k] + g.len()
                <= #[trigger] starts(s, g, i)[l],
        starts(s, g, i).len() * g.len() <= (if i <= s.len() {
            s.len() - i
        } else {
            0
        }),
    decreases s.len() - i,
{
    let n = g.len() as int;
    if i + n <= s.len() {
        if occurs_at(s, g, i) {
            occurrences_do_not_overlap(s, g, i + n);
            let rest = starts(s, g, i + n);
            let all = starts(s, g, i);
            assert(all == seq![i] + rest);
            assert(all.len() * n == rest.len() * n + n) by (nonlinear_arith)
                requires
                    all.len() == rest.len() + 1,
            ;
            assert forall|k: int| 0 <= k < all.len() implies i <= #[trigger] all[k] && occurs_at(
                s,
                g,
                all[k],
            ) by {
                if k > 0 {
                    assert(all[k] == rest[k - 1]);
                }
            }
            assert forall|k: int, l: int| 0 <= k < l < all.len() implies #[trigger] all[k] + n
                <= #[trigger] all[l] by {
                assert(all[l] == rest[l - 1]);
                if k > 0 {
                    assert(all[k] == rest[k - 1]);
                }
            }
        } else {
            occurrences_do_not_overlap(s, g, i + 1);
        }
    } else {
        assert(starts(s, g, i).len() * n == 0) by (nonlinear_arith)
            requires
                starts(s, g, i).len() == 0,
        ;
    }
}

/// Every occurrence of `g` from `i` on is one of those found or overlaps one.
pub proof fn no_occurrence_is_missed(s: Seq<StepView>, g: Seq<Seq<char>>, i: int, p: int)
    requires
        0 <= i <= p,
        g.len() > 0,
        occurs_at(s, g, p),
    ensures
        exists|k: int|
            0 <= k < starts(s, g, i).len() && #[trigger] starts(s, g, i)[k] <= p < starts(s, g, i)[k]
                + g.len(),
    decreases s.len() - i,
{
    if occurs_at(s, g, i) {
        let all = starts(s, g, i);
        let rest = starts(s, g, i + g.len());
        if p < i + g.len() {
            assert(all[0] == i);
        } else {
            no_occurrence_is_missed(s, g, i + g.len(), p);
            let k = choose|k: int| 0 <= k < rest.len() && #[trigger] rest[k] <= p < rest[k] + g.len();
            assert(all == seq![i] + rest);
            assert(all[k + 1] == rest[k]);
        }
    } else {
        no_occurrence_is_missed(s, g, i + 1, p);
        assert(starts(s, g, i) == starts(s, g, i + 1));
    }
}

/// Counting from a boundary that lies below every id counts everything, and a
/// later boundary never counts more.
pub proof fn support_since_is_part_of_support(
    streams: Seq<Seq<StepView>>,
    g: Seq<Seq<char>>,
    early: i64,
    late: i64,
)
    requires
        early <= late,
    ensures
        support_since(streams, g, late) <= support_since(streams, g, early) <= support(streams, g),
        all_newer(streams, early) ==> support_since(streams, g, early) == support(streams, g),
    decreases streams.len(),
{
    if streams.len() > 0 {
        let s = streams.last();
        let less = streams.drop_last();
        let at = starts(s, g, 0);
        support_since_is_part_of_support(less, g, early, late);
        lemma_newer(s, at, early, late);
        if all_newer(streams, early) {
            assert forall|k: int, i: int| 0 <= k < less.len() && 0 <= i < less[k].len() implies (
            #[trigger] less[k][i]).id > early by {
                assert(less[k] == streams[k]);
                assert(streams[k][i].id > early);
            }
            assert(all_newer(less, early));
            if g.len() > 0 {
                occurrences_do_not_overlap(s, g, 0);
            }
            assert forall|k: int| 0 <= k < at.len() implies s[#[trigger] at[k]].id > early by {
                assert(occurs_at(s, g, at[k]));
                assert(streams[streams.len() - 1][at[k]].id > early);
            }
        }
    }
}

/// Whether every step is newer than `min_id`.
pub open spec fn all_newer(streams: Seq<Seq<StepView>>, min_id: i64) -> bool {
    forall|k: int, i: int|
        0 <= k < streams.len() && 0 <= i < streams[k].len() ==> (#[trigger] streams[k][i]).id
            > min_id
}

/// The steps of the streams have the ids of the rows.
pub proof fn lemma_newer_rows(rows: Seq<RowView>, min_id: i64)
    requires
        forall|i: int| 0 <= i < rows.len() ==> (#[trigger] rows[i]).id > min_id,
    ensures
        all_newer(grouped(rows), min_id),
        all_newer(workflow_streams(rows), min_id),
{
    lemma_newer_groups(rows, min_id);
    let groups = grouped(rows);
    let streams = workflow_streams(rows);
    assert forall|k: int, i: int| 0 <= k < streams.len() && 0 <= i < streams[k].len() implies (
    #[trigger] streams[k][i]).id > min_id by {
        let j = lemma_collapsed_from(groups[k], i);
        assert(groups[k][j].id > min_id);
    }
}

proof fn lemma_newer_groups(rows: Seq<RowView>, min_id: i64)
    requires
        forall|i: int| 0 <= i < rows.len() ==> (#[trigger] rows[i]).id > min_id,
    ensures
        all_newer(grouped(rows), min_id),
    decreases rows.len(),
{
    if rows.len() > 0 {
        let front = rows.drop_last();
        let before = grouped(front);
        let now = grouped(rows);
        assert forall|i: int| 0 <= i < front.len() implies (#[trigger] front[i]).id > min_id by {
            assert(front[i] == rows[i]);
        }
        lemma_newer_groups(front, min_id);
        grouping_keeps_every_step(front);
        let last = step_of(rows[rows.len() - 1]);
        assert forall|k: int, i: int| 0 <= k < now.len() && 0 <= i < now[k].len() implies (
        #[trigger] now[k][i]).id > min_id by {
            if rows.len() > 1 && same_session(rows[rows.len() - 2], rows.last()) {
                if k == now.len() - 1 {
                    assert(now[k] == before.last().push(last));
                    if i < before.last().len() {
                        assert(before[before.len() - 1][i].id > min_id);
                        assert(now[k][i] == before.last()[i]);
                    }
                } else {
                    assert(now[k] == before[k]);
                    assert(before[k][i].id > min_id);
                }
            } else if k == now.len() - 1 {
                assert(now[k] == seq![last]);
            } else {
                assert(now[k] == before[k]);
                assert(before[k][i].id > min_id);
            }
        }
    }
}

/// A step of a collapsed stream is one of the stream.
proof fn lemma_collapsed_from(s: Seq<StepView>, i: int) -> (j: int)
    requires
        0 <= i < without_repeats(s).len(),
    ensures
        0 <= j < s.len(),
        s[j] == without_repeats(s)[i],
    decreases s.len(),
{
    let before = without_repeats(s.drop_last());
    if i < before.len() {
        lemma_collapsed_from(s.drop_last(), i)
    } else {
        s.len() - 1
    }
}

// ---------------------------------------------------------------------------
// The most occurrences without overlap
// ---------------------------------------------------------------------------

/// Whether `at` are positions of occurrences of `g`, ascending and without
/// overlap.
pub open spec fn disjoint_at(s: Seq<StepView>, g: Seq<Seq<char>>, at: Seq<int>) -> bool {
    &&& forall|k: int| 0 <= k < at.len() ==> occurs_at(s, g, #[trigger] at[k])
    &&& forall|k: int, l: int|
        0 <= k < l < at.len() ==> #[trigger] at[k] + g.len() <= #[trigger] at[l]
}

/// Whether `picks` are occurrences of `g` without overlap, for each stream.
pub open spec fn disjoint(
    streams: Seq<Seq<StepView>>,
    g: Seq<Seq<char>>,
    picks: Seq<Seq<int>>,
) -> bool {
    &&& picks.len() == streams.len()
    &&& forall|k: int| 0 <= k < streams.len() ==> disjoint_at(streams[k], g, #[trigger] picks[k])
}

/// How many occurrences are picked in all.
pub open spec fn picked(picks: Seq<Seq<int>>) -> nat
    decreases picks.len(),
{
    if picks.len() == 0 {
        0
    } else {
        picked(picks.drop_last()) + picks.last().len()
    }
}

/// The occurrences that are counted, for each stream.
pub open spec fn counted_at(streams: Seq<Seq<StepView>>, g: Seq<Seq<char>>) -> Seq<Seq<int>> {
    Seq::new(streams.len(), |k: int| starts(streams[k], g, 0))
}

/// Taking each occurrence as soon as it comes gives as many as any choice.
proof fn lemma_first_come_is_best(s: Seq<StepView>, g: Seq<Seq<char>>, i: int, at: Seq<int>)
    requires
        0 <= i,
        g.len() > 0,
        disjoint_at(s, g, at),
        at.len() > 0 ==> i <= at[0],
    ensures
        at.len() <= starts(s, g, i).len(),
    decreases s.len() - i,
{
    if at.len() > 0 {
        assert(occurs_at(s, g, at[0]));
        if occurs_at(s, g, i) {
            let rest = at.drop_first();
            assert forall|k: int| 0 <= k < rest.len() implies occurs_at(s, g, #[trigger] rest[k]) by {
                assert(rest[k] == at[k + 1]);
            }
            assert forall|k: int, l: int| 0 <= k < l < rest.len() implies #[trigger] rest[k]
                + g.len() <= #[trigger] rest[l] by {
                assert(rest[k] == at[k + 1] && rest[l] == at[l + 1]);
            }
            if rest.len() > 0 {
                assert(rest[0] == at[1]);
            }
            lemma_first_come_is_best(s, g, i + g.len(), rest);
            assert(starts(s, g, i) == seq![i] + starts(s, g, i + g.len()));
        } else {
            assert(at[0] != i);
            lemma_first_come_is_best(s, g, i + 1, at);
            assert(starts(s, g, i) == starts(s, g, i + 1));
        }
    }
}

/// The support of a sequence is the largest number of its occurrences that can
/// be picked without overlap: what is counted is such a choice, and no choice
/// has more.
pub proof fn support_is_the_most_without_overlap(
    streams: Seq<Seq<StepView>>,
    g: Seq<Seq<char>>,
    picks: Seq<Seq<int>>,
)
    requires
        g.len() > 0,
        disjoint(streams, g, picks),
    ensures
        picked(picks) <= support(streams, g),
        disjoint(streams, g, counted_at(streams, g)),
        picked(counted_at(streams, g)) == support(streams, g),
    decreases streams.len(),
{
    let best = counted_at(streams, g);
    assert forall|k: int| 0 <= k < streams.len() implies disjoint_at(
        streams[k],
        g,
        #[trigger] best[k],
    ) by {
        occurrences_do_not_overlap(streams[k], g, 0);
    }
    if streams.len() > 0 {
        let less = streams.drop_last();
        let fewer = picks.drop_last();
        assert forall|k: int| 0 <= k < less.len() implies disjoint_at(
            less[k],
            g,
            #[trigger] fewer[k],
        ) by {
            assert(fewer[k] == picks[k]);
        }
        support_is_the_most_without_overlap(less, g, fewer);
        assert(best.drop_last() =~= counted_at(less, g));
        let at = picks[picks.len() - 1];
        assert(disjoint_at(streams[streams.len() - 1], g, at));
        if at.len() > 0 {
            assert(occurs_at(streams.last(), g, at[0]));
        }
        lemma_first_come_is_best(streams.last(), g, 0, at);
    }
}

/// The beginning of a sequence occurs at least as often as the whole.
pub proof fn a_beginning_occurs_as_often(streams: Seq<Seq<StepView>>, g: Seq<Seq<char>>, p: int)
    requires
        1 <= p <= g.len(),
    ensures
        support(streams, g) <= support(streams, g.take(p)),
{
    let h = g.take(p);
    let picks = counted_at(streams, g);
    assert forall|k: int| 0 <= k < streams.len() implies disjoint_at(
        streams[k],
        h,
        #[trigger] picks[k],
    ) by {
        let at = picks[k];
        occurrences_do_not_overlap(streams[k], g, 0);
        assert forall|j: int| 0 <= j < at.len() implies occurs_at(streams[k], h, #[trigger] at[j]) by {
            assert(occurs_at(streams[k], g, at[j]));
            assert forall|i: int| 0 <= i < h.len() implies streams[k][at[j] + i].template
                == #[trigger] h[i] by {
                assert(h[i] == g[i]);
            }
        }
    }
    support_is_the_most_without_overlap(streams, h, picks);
    lemma_counted(streams, g);
}

/// The occurrences that are counted are as many as the support says.
proof fn lemma_counted(streams: Seq<Seq<StepView>>, g: Seq<Seq<char>>)
    ensures
        picked(counted_at(streams, g)) == support(streams, g),
    decreases streams.len(),
{
    if streams.len() > 0 {
        lemma_counted(streams.drop_last(), g);
        assert(counted_at(streams, g).drop_last() =~= counted_at(streams.drop_last(), g));
    }
}

/// A sequence occurs at most as often as there are steps.
pub proof fn lemma_support_bound(streams: Seq<Seq<StepView>>, g: Seq<Seq<char>>)
    requires
        g.len() > 0,
    ensures
        support(streams, g) <= total_steps(streams),
    decreases streams.len(),
{
    if streams.len() > 0 {
        let s = streams.last();
        lemma_support_bound(streams.drop_last(), g);
        occurrences_do_not_overlap(s, g, 0);
        let n = starts(s, g, 0).len();
        assert(n <= n * g.len()) by (nonlinear_arith)
            requires
                g.len() > 0,
        ;
    }
}

proof fn lemma_newer(s: Seq<StepView>, at: Seq<int>, early: i64, late: i64)
    requires
        early <= late,
    ensures
        newer(s, at, late) <= newer(s, at, early) <= at.len(),
        (forall|k: int| 0 <= k < at.len() ==> s[#[trigger] at[k]].id > early) ==> newer(s, at, early)
            == at.len(),
    decreases at.len(),
{
    if at.len() > 0 {
        lemma_newer(s, at.drop_first(), early, late);
        if forall|k: int| 0 <= k < at.len() ==> s[#[trigger] at[k]].id > early {
            assert forall|k: int| 0 <= k < at.drop_first().len() implies s[#[trigger] at.drop_first(
            )[k]].id > early by {
                assert(at.drop_first()[k] == at[k + 1]);
            }
            assert(s[at[0]].id > early);
        }
    }
}

/// Whether the templates stand in the stream at position `i`.
fn matches_at(stream: &Vec<Step>, templates: &Vec<String>, i: usize) -> (r: bool)
    requires
        i + templates@.len() <= stream@.len(),
    ensures
        r == occurs_at(steps_view(stream@), texts(templates@), i as int),
{
    let ghost s = steps_view(stream@);
    let ghost g = texts(templates@);
    let n: usize = stream.len();
    let mut k: usize = 0;
    while k < templates.len()
        invariant
            k <= templates@.len(),
            i + templates@.len() <= n == stream@.len(),
            s == steps_view(stream@),
            g == texts(templates@),
            forall|j: int| 0 <= j < k ==> s[i + j].template == #[trigger] g[j],
        decreases templates@.len() - k,
    {
        assert(s[i + k].template == stream@[i + k].template@);
        assert(g[k as int] == templates@[k as int]@);
        if stream[i + k].template != templates[k] {
            return false;
        }
        k += 1;
    }
    true
}

/// How often the templates occur in one stream after a boundary.
fn count_since(stream: &Vec<Step>, templates: &Vec<String>, min_id: i64) -> (r: usize)
    requires
        templates@.len() > 0,
    ensures
        r == newer(
            steps_view(stream@),
            starts(steps_view(stream@), texts(templates@), 0),
            min_id,
        ),
        r <= stream@.len(),
{
    let ghost s = steps_view(stream@);
    let ghost g = texts(templates@);
    let n: usize = stream.len();
    let m: usize = templates.len();
    let mut count: usize = 0;
    let mut i: usize = 0;
    while i <= n && m <= n - i
        invariant
            i <= n == stream@.len(),
            m == templates@.len() > 0,
            s == steps_view(stream@),
            g == texts(templates@),
            count <= i,
            newer(s, starts(s, g, 0), min_id) == count + newer(s, starts(s, g, i as int), min_id),
        decreases n - i,
    {
        if matches_at(stream, templates, i) {
            proof {
                let rest = starts(s, g, i + g.len());
                let all = seq![i as int] + rest;
                assert(all.drop_first() == rest);
                assert(all[0] == i);
                assert(s[i as int].id == stream@[i as int].id);
            }
            if stream[i].id > min_id {
                count += 1;
            }
            i += m;
        } else {
            i += 1;
        }
    }
    count
}

/// How many times this exact sequence occurred with its first command newer
/// than `min_id`, that is, the manual repetitions since a decision was made.
pub fn occurrences_since(rows: &Vec<StreamRow>, templates: &Vec<String>, min_id: i64) -> (r: usize)
    ensures
        r == support_since(workflow_streams(rows_view(rows@)), texts(templates@), min_id),
{
    let ghost streams = workflow_streams(rows_view(rows@));
    let ghost g = texts(templates@);
    let all = load_workflows(rows);
    let mut count: usize = 0;
    if templates.len() == 0 {
        proof {
            the_empty_sequence_occurs_nowhere(streams, g, min_id);
        }
        return 0;
    }
    let bound: usize = rows.len();
    proof {
        lemma_workflow_size(rows_view(rows@));
        assert(streams.take(0) == Seq::<Seq<StepView>>::empty());
    }
    let mut k: usize = 0;
    while k < all.len()
        invariant
            k <= all@.len(),
            templates@.len() > 0,
            g == texts(templates@),
            streams == streams_view(all@),
            total_steps(streams) <= bound,
            count == support_since(streams.take(k as int), g, min_id),
            count <= total_steps(streams.take(k as int)),
        decreases all@.len() - k,
    {
        let c = count_since(&all[k], templates, min_id);
        proof {
            assert(streams.take(k + 1).drop_last() == streams.take(k as int));
            assert(streams.take(k + 1).last() == steps_view(all@[k as int]@));
            lemma_total_steps_take(streams, k + 1);
        }
        count += c;
        k += 1;
    }
    assert(streams.take(k as int) == streams);
    count
}

/// The empty sequence occurs nowhere.
pub proof fn the_empty_sequence_occurs_nowhere(
    streams: Seq<Seq<StepView>>,
    g: Seq<Seq<char>>,
    min_id: i64,
)
    requires
        g.len() == 0,
    ensures
        support(streams, g) == 0,
        support_since(streams, g, min_id) == 0,
    decreases streams.len(),
{
    if streams.len() > 0 {
        the_empty_sequence_occurs_nowhere(streams.drop_last(), g, min_id);
    }
}

// ---------------------------------------------------------------------------
// Where streams begin and end, and what is counted in them
// ---------------------------------------------------------------------------

/// A stream ends where the session or the source changes: rows on either side of
/// such a place are grouped on their own.
pub proof fn streams_end_where_the_session_changes(a: Seq<RowView>, b: Seq<RowView>)
    requires
        a.len() > 0,
        b.len() > 0,
        a.last().source != b[0].source || a.last().session != b[0].session,
    ensures
        grouped(a + b) == grouped(a) + grouped(b),
    decreases b.len(),
{
    let c = b.drop_last();
    let x = b.last();
    let ab = a + b;
    assert(ab.drop_last() =~= a + c);
    assert(ab.last() == x);
    if b.len() == 1 {
        assert(a + c =~= a);
        assert(ab[ab.len() - 2] == a.last());
        assert(grouped(c) =~= Seq::empty());
        assert(grouped(b) =~= seq![seq![step_of(x)]]);
    } else {
        streams_end_where_the_session_changes(a, c);
        assert(ab[ab.len() - 2] == b[b.len() - 2]);
        let g = grouped(c);
        grouping_keeps_every_step(c);
        if same_session(b[b.len() - 2], x) {
            assert((grouped(a) + g).last() == g.last());
            assert((grouped(a) + g).drop_last().push(g.last().push(step_of(x))) =~= grouped(a)
                + g.drop_last().push(g.last().push(step_of(x))));
        } else {
            assert((grouped(a) + g).push(seq![step_of(x)]) =~= grouped(a) + g.push(
                seq![step_of(x)],
            ));
        }
    }
}

/// The rows of one session are one stream, with a step for each row.
pub proof fn one_session_is_one_stream(rows: Seq<RowView>)
    requires
        rows.len() > 0,
        forall|i: int|
            0 <= i < rows.len() ==> (#[trigger] rows[i]).source == rows[0].source && rows[i].session
                == rows[0].session,
    ensures
        grouped(rows).len() == 1,
        grouped(rows)[0] == Seq::new(
            rows.len(),
            |i: int| StepView { template: rows[i].template, id: rows[i].id },
        ),
    decreases rows.len(),
{
    let front = rows.drop_last();
    let all = Seq::new(
        rows.len(),
        |i: int| StepView { template: rows[i].template, id: rows[i].id },
    );
    if rows.len() == 1 {
        assert(grouped(front) =~= Seq::empty());
        assert(grouped(rows)[0] =~= all);
    } else {
        assert forall|i: int| 0 <= i < front.len() implies (#[trigger] front[i]).source
            == front[0].source && front[i].session == front[0].session by {
            assert(front[i] == rows[i] && front[0] == rows[0]);
        }
        one_session_is_one_stream(front);
        assert(same_session(rows[rows.len() - 2], rows[rows.len() - 1]));
        assert(grouped(rows)[0] =~= all);
    }
}

/// A step is dropped exactly when the step before it has the same template.
pub proof fn a_step_is_dropped_behind_its_like(s: Seq<StepView>, x: StepView)
    ensures
        without_repeats(Seq::empty()) == Seq::<StepView>::empty(),
        s.len() > 0 && s.last().template == x.template ==> without_repeats(s.push(x))
            == without_repeats(s),
        s.len() == 0 || s.last().template != x.template ==> without_repeats(s.push(x))
            == without_repeats(s).push(x),
{
    assert(s.push(x).drop_last() =~= s);
    collapsed_streams_have_no_repeats(s);
}

/// What is counted since a command are the occurrences whose first step is newer.
pub proof fn newer_occurrences_begin_later(
    a: Seq<Seq<StepView>>,
    b: Seq<Seq<StepView>>,
    s: Seq<StepView>,
    g: Seq<Seq<char>>,
    min_id: i64,
)
    ensures
        support_since(a + b, g, min_id) == support_since(a, g, min_id) + support_since(
            b,
            g,
            min_id,
        ),
        support_since(seq![s], g, min_id) == how_many(
            starts(s, g, 0).len(),
            |k: int| s[starts(s, g, 0)[k]].id > min_id,
        ),
        support(a + b, g) == support(a, g) + support(b, g),
        support(seq![s], g) == starts(s, g, 0).len(),
    decreases b.len(),
{
    let one = seq![s];
    assert(one.drop_last() =~= Seq::empty());
    assert(support_since(one.drop_last(), g, min_id) == 0);
    assert(support(one.drop_last(), g) == 0);
    lemma_newer_counted(s, starts(s, g, 0), min_id);
    if b.len() == 0 {
        assert(a + b =~= a);
    } else {
        newer_occurrences_begin_later(a, b.drop_last(), s, g, min_id);
        assert((a + b).drop_last() =~= a + b.drop_last());
        assert((a + b).last() == b.last());
    }
}

/// Newer occurrences are counted one by one.
proof fn lemma_newer_counted(s: Seq<StepView>, at: Seq<int>, min_id: i64)
    ensures
        newer(s, at, min_id) == how_many(at.len(), |k: int| s[at[k]].id > min_id),
    decreases at.len(),
{
    if at.len() > 0 {
        let rest = at.drop_first();
        lemma_newer_counted(s, rest, min_id);
        lemma_from_second(rest.len(), |k: int| s[at[k]].id > min_id);
        lemma_same_positions(
            rest.len(),
            |k: int| s[rest[k]].id > min_id,
            |k: int| s[at[k + 1]].id > min_id,
        );
        lemma_same_positions(
            rest.len(),
            |k: int| s[at[k + 1]].id > min_id,
            |k: int| (|k: int| s[at[k]].id > min_id)(k + 1),
        );
    }
}

} // verus!
