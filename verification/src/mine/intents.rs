//! Intents: a recurring ask together with what the agent then actually runs.
use crate::count::{how_many, lemma_same_positions};
use crate::group::{distinct, group, lemma_distinct};
use crate::mine::clusters::{
    cluster_prompts, clusters, groups_view, lemma_members, representative, spokesman,
};
use crate::mine::pattern::{
    by_score, patterns_view, sort_by_score, weigh, weighed, Pattern, PatternView,
};
use crate::mine::prompts::{asks, load_prompts, prompts_view, PromptRow, PromptView};
use crate::mine::sequences::{is_noise, noise};
use crate::mine::timing::{
    run_ms, template_seconds, timing_view, TimingRow, TimingView, Timings,
};
use crate::order::{rank, ranked, ranked_is_a_stable_sort, reorder_texts, reordered};
use crate::text::{chars_of, opt_text, texts};
use vstd::prelude::*;

verus! {

/// How many commands after a prompt are looked at.
pub const MAX_STEPS: usize = 15;

/// How many instances of an ask must have led to commands.
pub const MIN_INSTANCES: usize = 2;

/// How many steps the instances must have in common.
pub const MIN_COMMON: usize = 2;

/// A command; rows come in order of their position.
pub struct CommandRow {
    pub source: String,
    pub session: Option<String>,
    pub seq: i64,
    pub template: String,
}

/// What a [`CommandRow`] holds.
pub struct CommandView {
    pub source: Seq<char>,
    pub session: Option<Seq<char>>,
    pub seq: i64,
    pub template: Seq<char>,
}

impl View for CommandRow {
    type V = CommandView;

    open spec fn view(&self) -> CommandView {
        CommandView {
            source: self.source@,
            session: opt_text(self.session),
            seq: self.seq,
            template: self.template@,
        }
    }
}

/// What a sequence of commands holds.
pub open spec fn commands_view(v: Seq<CommandRow>) -> Seq<CommandView> {
    Seq::new(v.len(), |i: int| v[i]@)
}

// ---------------------------------------------------------------------------
// What followed a prompt
// ---------------------------------------------------------------------------

/// The end of the name under which a tool's prompts are stored.
pub open spec fn prompt_suffix() -> Seq<char> {
    "_prompt"@
}

/// Whether `s` ends with the suffix.
pub open spec fn is_prompt_source(s: Seq<char>) -> bool {
    let p = prompt_suffix();
    s.len() >= p.len() && s.subrange(s.len() - p.len(), s.len() as int) == p
}

/// The tool that a prompt was typed into: its source without the suffix.
pub open spec fn tool_of(s: Seq<char>) -> Seq<char>
    decreases s.len(),
{
    if is_prompt_source(s) && prompt_suffix().len() > 0 {
        tool_of(s.take(s.len() - prompt_suffix().len()))
    } else {
        s
    }
}

/// Strips the suffix from a source.
pub fn command_source(s: &str) -> (r: String)
    ensures
        r@ == tool_of(s@),
{
    proof {
        reveal_strlit("_prompt");
    }
    let chars = chars_of(s);
    let suffix = chars_of("_prompt");
    let mut n: usize = chars.len();
    let mut going = true;
    assert(s@.take(n as int) =~= s@);
    while going
        invariant
            chars@ == s@,
            suffix@ == prompt_suffix(),
            suffix@.len() == 7,
            n <= chars@.len(),
            tool_of(s@) == tool_of(s@.take(n as int)),
            !going ==> !is_prompt_source(s@.take(n as int)),
        decreases n, going as int,
    {
        let ghost cur = s@.take(n as int);
        let mut ends = n >= 7;
        if ends {
            let mut k: usize = 0;
            while k < 7
                invariant
                    chars@ == s@,
                    suffix@ == prompt_suffix(),
                    suffix@.len() == 7,
                    7 <= n <= chars@.len(),
                    k <= 7,
                    ends == forall|j: int| 0 <= j < k ==> chars@[n - 7 + j] == #[trigger] suffix@[j],
                decreases 7 - k,
            {
                if chars[n - 7 + k] != suffix[k] {
                    ends = false;
                }
                k += 1;
            }
            proof {
                let tail = cur.subrange(n - 7, n as int);
                assert forall|j: int| 0 <= j < 7 implies tail[j] == #[trigger] chars@[n - 7 + j] by {}
                if ends {
                    assert(tail =~= prompt_suffix());
                } else if tail == prompt_suffix() {
                    assert forall|j: int| 0 <= j < 7 implies chars@[n - 7 + j]
                        == #[trigger] suffix@[j] by {
                        assert(tail[j] == suffix@[j]);
                    }
                }
            }
        }
        assert(ends == is_prompt_source(cur));
        if ends {
            assert(cur.take(cur.len() - 7) =~= s@.take(n - 7));
            n -= 7;
        } else {
            going = false;
        }
    }
    assert(chars@.subrange(0, n as int) =~= s@.take(n as int));
    crate::text::text_of(&chars, 0, n)
}

/// Where the next prompt of the session stands, among the first `n` prompts.
pub open spec fn next_seq(rows: Seq<PromptView>, n: nat, p: PromptView) -> i64
    decreases n,
{
    if n == 0 {
        i64::MAX
    } else {
        let best = next_seq(rows, (n - 1) as nat, p);
        let o = rows[n - 1];
        if o.source == p.source && o.session == p.session && o.seq > p.seq && o.seq < best {
            o.seq
        } else {
            best
        }
    }
}

/// Whether a command follows a prompt and comes before the next.
pub open spec fn follows(c: CommandView, p: PromptView, next: i64) -> bool {
    &&& c.source == tool_of(p.source)
    &&& c.session == Some(p.session)
    &&& p.seq < c.seq < next
}

/// The templates of the first commands that follow a prompt, among the first `n`
/// commands.
pub open spec fn run_after(
    commands: Seq<CommandView>,
    n: nat,
    p: PromptView,
    next: i64,
) -> Seq<Seq<char>>
    decreases n,
{
    if n == 0 {
        Seq::empty()
    } else {
        let before = run_after(commands, (n - 1) as nat, p, next);
        if before.len() < MAX_STEPS && follows(commands[n - 1], p, next) {
            before.push(commands[n - 1].template)
        } else {
            before
        }
    }
}

/// The distinct steps that were run for a prompt: those before the next of all
/// prompts of its session.
pub open spec fn steps_for(
    rows: Seq<PromptView>,
    commands: Seq<CommandView>,
    p: PromptView,
) -> Seq<Seq<char>> {
    let run = run_after(commands, commands.len(), p, next_seq(rows, rows.len(), p));
    distinct(run, run.len())
}

/// Where the next prompt of the session stands.
fn find_next(rows: &Vec<PromptRow>, p: &PromptRow) -> (r: i64)
    ensures
        r == next_seq(prompts_view(rows@), rows@.len(), p@),
{
    let ghost all = prompts_view(rows@);
    let mut best: i64 = i64::MAX;
    let mut i: usize = 0;
    while i < rows.len()
        invariant
            i <= rows@.len(),
            all == prompts_view(rows@),
            best == next_seq(all, i as nat, p@),
        decreases rows@.len() - i,
    {
        let o = &rows[i];
        assert(all[i as int] == o@);
        if o.seq > p.seq && o.seq < best && o.source == p.source && o.session == p.session {
            best = o.seq;
        }
        i += 1;
    }
    best
}

/// The distinct steps that were run for a prompt; `rows` are all prompts.
pub fn steps_after(rows: &Vec<PromptRow>, commands: &Vec<CommandRow>, p: &PromptRow) -> (r: Vec<String>)
    ensures
        texts(r@) == steps_for(prompts_view(rows@), commands_view(commands@), p@),
{
    let ghost all = commands_view(commands@);
    let next = find_next(rows, p);
    let tool = command_source(p.source.as_str());
    let mut run: Vec<String> = Vec::new();
    let mut i: usize = 0;
    assert(texts(run@) =~= run_after(all, 0, p@, next));
    while i < commands.len()
        invariant
            i <= commands@.len(),
            all == commands_view(commands@),
            tool@ == tool_of(p@.source),
            texts(run@) == run_after(all, i as nat, p@, next),
        decreases commands@.len() - i,
    {
        let ghost before = texts(run@);
        let c = &commands[i];
        assert(all[i as int] == c@);
        assert(before.len() == run@.len());
        if run.len() < MAX_STEPS && c.seq > p.seq && c.seq < next && c.source == tool {
            let same_session = match &c.session {
                Some(s) => *s == p.session,
                None => false,
            };
            if same_session {
                run.push(c.template.clone());
                assert(texts(run@) =~= before.push(c.template@));
            }
        }
        i += 1;
    }
    let groups = group(&run);
    groups.names
}

// ---------------------------------------------------------------------------
// What the instances have in common
// ---------------------------------------------------------------------------

/// The steps of those of the first `n` members that led to any. The members are
/// positions among the `asks`; what was run for each ends at the next of all
/// prompts.
pub open spec fn instances_of(
    rows: Seq<PromptView>,
    asks: Seq<PromptView>,
    commands: Seq<CommandView>,
    members: Seq<usize>,
    n: nat,
) -> Seq<Seq<Seq<char>>>
    decreases n,
{
    if n == 0 {
        Seq::empty()
    } else {
        let before = instances_of(rows, asks, commands, members, (n - 1) as nat);
        let steps = steps_for(rows, commands, asks[members[n - 1] as int]);
        if steps.len() > 0 {
            before.push(steps)
        } else {
            before
        }
    }
}

/// All steps of all instances, one after the other.
pub open spec fn flattened(instances: Seq<Seq<Seq<char>>>) -> Seq<Seq<char>>
    decreases instances.len(),
{
    if instances.len() == 0 {
        Seq::empty()
    } else {
        flattened(instances.drop_last()) + instances.last()
    }
}

/// How many of the first `n` steps are `t`.
pub open spec fn step_count(steps: Seq<Seq<char>>, n: nat, t: Seq<char>) -> nat
    decreases n,
{
    if n == 0 {
        0
    } else {
        step_count(steps, (n - 1) as nat, t) + if steps[n - 1] == t {
            1nat
        } else {
            0
        }
    }
}

/// The sum of the positions at which `t` stands among the first `n` steps.
pub open spec fn position_sum(steps: Seq<Seq<char>>, n: nat, t: Seq<char>) -> nat
    decreases n,
{
    if n == 0 {
        0
    } else {
        position_sum(steps, (n - 1) as nat, t) + if steps[n - 1] == t {
            (n - 1) as nat
        } else {
            0
        }
    }
}

/// How often `t` stands in the instances; each has it at most once.
pub open spec fn frequency(instances: Seq<Seq<Seq<char>>>, t: Seq<char>) -> nat
    decreases instances.len(),
{
    if instances.len() == 0 {
        0
    } else {
        frequency(instances.drop_last(), t) + step_count(
            instances.last(),
            instances.last().len(),
            t,
        )
    }
}

/// The sum of the positions at which `t` stands in the instances.
pub open spec fn position_total(instances: Seq<Seq<Seq<char>>>, t: Seq<char>) -> nat
    decreases instances.len(),
{
    if instances.len() == 0 {
        0
    } else {
        position_total(instances.drop_last(), t) + position_sum(
            instances.last(),
            instances.last().len(),
            t,
        )
    }
}

/// The average position of `t`, rounded down.
pub open spec fn average_position(instances: Seq<Seq<Seq<char>>>, t: Seq<char>) -> nat {
    position_total(instances, t) / frequency(instances, t)
}

/// In how many of `n` instances a step must stand to belong to the routine:
/// three fifths of them, and at least two.
pub open spec fn threshold(n: nat) -> nat {
    let t = (3 * n + 4) / 5;
    if t < 2 {
        2
    } else {
        t
    }
}

/// Those of `names` that belong to the routine.
pub open spec fn routine(
    instances: Seq<Seq<Seq<char>>>,
    names: Seq<Seq<char>>,
) -> Seq<Seq<char>>
    decreases names.len(),
{
    if names.len() == 0 {
        Seq::empty()
    } else {
        let before = routine(instances, names.drop_last());
        let t = names.last();
        if frequency(instances, t) >= threshold(instances.len()) && !noise(t) {
            before.push(t)
        } else {
            before
        }
    }
}

/// The steps most instances have in common, the earliest first.
pub open spec fn common_steps(instances: Seq<Seq<Seq<char>>>) -> Seq<Seq<char>> {
    let all = flattened(instances);
    let r = routine(instances, distinct(all, all.len()));
    reordered(
        r,
        ranked(
            Seq::new(r.len(), |i: int| (u128::MAX - average_position(instances, r[i])) as u128),
        ),
    )
}

/// The mark before the ask in an intent's templates.
pub open spec fn ask_mark() -> Seq<char> {
    "ask: "@
}

/// The pattern of an intent. What is saved is the routine that need not be found
/// again; it weighs half as much again because the ask recurs.
pub open spec fn intent_pattern(
    times: Seq<TimingView>,
    ask: Seq<char>,
    count: nat,
    steps: Seq<Seq<char>>,
) -> PatternView {
    PatternView {
        templates: seq![ask_mark() + ask] + steps,
        count,
        score: weighed(6, count, run_ms(times, steps)),
    }
}

/// The intents of the first `n` clusters.
pub open spec fn intents_of(
    rows: Seq<PromptView>,
    asks: Seq<PromptView>,
    commands: Seq<CommandView>,
    times: Seq<TimingView>,
    groups: Seq<Seq<usize>>,
    n: nat,
) -> Seq<PatternView>
    decreases n,
{
    if n == 0 {
        Seq::empty()
    } else {
        let before = intents_of(rows, asks, commands, times, groups, (n - 1) as nat);
        let members = groups[n - 1];
        let instances = instances_of(rows, asks, commands, members, members.len());
        let steps = common_steps(instances);
        if instances.len() >= MIN_INSTANCES && steps.len() >= MIN_COMMON {
            before.push(
                intent_pattern(times, spokesman(asks, members), members.len(), steps),
            )
        } else {
            before
        }
    }
}

/// The intents of a history, the costliest first.
pub open spec fn intended(
    rows: Seq<PromptView>,
    commands: Seq<CommandView>,
    times: Seq<TimingView>,
) -> Seq<PatternView> {
    let p = asks(rows);
    let c = clusters(p);
    by_score(intents_of(rows, p, commands, times, c, c.len()))
}

/// What a list of instances holds.
pub open spec fn instances_view(v: Seq<Vec<String>>) -> Seq<Seq<Seq<char>>> {
    Seq::new(v.len(), |i: int| texts(v[i]@))
}

/// The steps of the members that led to any.
fn gather_instances(
    rows: &Vec<PromptRow>,
    asks: &Vec<PromptRow>,
    commands: &Vec<CommandRow>,
    members: &Vec<usize>,
) -> (r: Vec<Vec<String>>)
    requires
        forall|k: int| 0 <= k < members@.len() ==> (#[trigger] members@[k]) < asks@.len(),
    ensures
        instances_view(r@) == instances_of(
            prompts_view(rows@),
            prompts_view(asks@),
            commands_view(commands@),
            members@,
            members@.len(),
        ),
{
    let ghost all = prompts_view(rows@);
    let ghost p = prompts_view(asks@);
    let ghost cmds = commands_view(commands@);
    let mut out: Vec<Vec<String>> = Vec::new();
    let mut i: usize = 0;
    assert(instances_view(out@) =~= instances_of(all, p, cmds, members@, 0));
    while i < members.len()
        invariant
            i <= members@.len(),
            all == prompts_view(rows@),
            p == prompts_view(asks@),
            cmds == commands_view(commands@),
            forall|k: int| 0 <= k < members@.len() ==> (#[trigger] members@[k]) < asks@.len(),
            instances_view(out@) == instances_of(all, p, cmds, members@, i as nat),
        decreases members@.len() - i,
    {
        let ghost before = instances_view(out@);
        assert(members@[i as int] < asks@.len());
        let steps = steps_after(rows, commands, &asks[members[i]]);
        let ghost sv = texts(steps@);
        assert(sv.len() == steps@.len());
        if steps.len() > 0 {
            out.push(steps);
            assert(instances_view(out@) =~= before.push(sv));
        }
        i += 1;
    }
    out
}

/// All steps of all instances.
fn flatten(instances: &Vec<Vec<String>>) -> (r: Vec<String>)
    ensures
        texts(r@) == flattened(instances_view(instances@)),
{
    let ghost v = instances_view(instances@);
    let mut out: Vec<String> = Vec::new();
    let mut i: usize = 0;
    assert(texts(out@) =~= flattened(v.take(0)));
    while i < instances.len()
        invariant
            i <= instances@.len(),
            v == instances_view(instances@),
            texts(out@) == flattened(v.take(i as int)),
        decreases instances@.len() - i,
    {
        let ghost before = texts(out@);
        let one = &instances[i];
        assert(v.take(i + 1).drop_last() =~= v.take(i as int));
        assert(v.take(i + 1).last() == texts(one@));
        let mut j: usize = 0;
        assert(before + texts(one@).take(0) =~= before);
        while j < one.len()
            invariant
                j <= one@.len(),
                texts(out@) == before + texts(one@).take(j as int),
            decreases one@.len() - j,
        {
            let ghost now = texts(out@);
            out.push(one[j].clone());
            assert(texts(out@) =~= now.push(one@[j as int]@));
            j += 1;
            assert(texts(out@) =~= before + texts(one@).take(j as int));
        }
        assert(texts(one@).take(j as int) =~= texts(one@));
        i += 1;
    }
    assert(v.take(i as int) =~= v);
    out
}

/// Whether the instances are short and each has a step at most once.
pub open spec fn tidy(instances: Seq<Seq<Seq<char>>>) -> bool {
    forall|i: int|
        0 <= i < instances.len() ==> (#[trigger] instances[i]).len() <= MAX_STEPS
            && instances[i].no_duplicates()
}

/// A step that stands nowhere below `n` is not counted.
proof fn lemma_absent(steps: Seq<Seq<char>>, n: nat, t: Seq<char>)
    requires
        n <= steps.len(),
        forall|i: int| 0 <= i < n ==> #[trigger] steps[i] != t,
    ensures
        step_count(steps, n, t) == 0,
        position_sum(steps, n, t) == 0,
    decreases n,
{
    if n > 0 {
        lemma_absent(steps, (n - 1) as nat, t);
    }
}

/// A step stands in an instance at most once.
proof fn lemma_once(steps: Seq<Seq<char>>, n: nat, t: Seq<char>)
    requires
        n <= steps.len(),
        steps.no_duplicates(),
    ensures
        step_count(steps, n, t) <= 1,
        position_sum(steps, n, t) <= n,
        step_count(steps, n, t) == 0 ==> position_sum(steps, n, t) == 0,
    decreases n,
{
    if n > 0 {
        let m = (n - 1) as nat;
        lemma_once(steps, m, t);
        if steps[m as int] == t {
            assert forall|i: int| 0 <= i < m implies #[trigger] steps[i] != t by {}
            lemma_absent(steps, m, t);
        }
    }
}

/// Bounds on the counts over tidy instances.
proof fn lemma_frequency_bound(instances: Seq<Seq<Seq<char>>>, t: Seq<char>)
    requires
        tidy(instances),
    ensures
        frequency(instances, t) <= instances.len(),
        position_total(instances, t) <= MAX_STEPS * instances.len(),
    decreases instances.len(),
{
    if instances.len() > 0 {
        let front = instances.drop_last();
        assert forall|i: int| 0 <= i < front.len() implies (#[trigger] front[i]).len() <= MAX_STEPS
            && front[i].no_duplicates() by {
            assert(front[i] == instances[i]);
        }
        lemma_frequency_bound(front, t);
        let last = instances[instances.len() - 1];
        lemma_once(last, last.len(), t);
    }
}

/// How often a step stands in the instances, and the sum of its positions.
fn count_step(instances: &Vec<Vec<String>>, t: &str) -> (r: (usize, u128))
    requires
        tidy(instances_view(instances@)),
    ensures
        r.0 == frequency(instances_view(instances@), t@),
        r.1 == position_total(instances_view(instances@), t@),
{
    let ghost v = instances_view(instances@);
    let mut count: usize = 0;
    let mut total: u128 = 0;
    let mut i: usize = 0;
    assert(v.take(0).len() == 0);
    while i < instances.len()
        invariant
            i <= instances@.len(),
            v == instances_view(instances@),
            tidy(v),
            count == frequency(v.take(i as int), t@),
            total == position_total(v.take(i as int), t@),
            count <= i,
            total <= MAX_STEPS * i,
        decreases instances@.len() - i,
    {
        let one = &instances[i];
        let ghost s = texts(one@);
        proof {
            assert(v.take(i + 1).drop_last() =~= v.take(i as int));
            assert(v.take(i + 1).last() == s);
            assert(v[i as int] == s);
            lemma_once(s, s.len(), t@);
        }
        let n: usize = one.len();
        let mut c: usize = 0;
        let mut p: usize = 0;
        let mut j: usize = 0;
        while j < n
            invariant
                j <= n == one@.len(),
                n <= MAX_STEPS,
                s == texts(one@),
                s.no_duplicates(),
                c == step_count(s, j as nat, t@),
                p == position_sum(s, j as nat, t@),
            decreases n - j,
        {
            proof {
                lemma_once(s, j as nat, t@);
            }
            assert(s[j as int] == one@[j as int]@);
            if crate::text::same(one[j].as_str(), t) {
                c += 1;
                p += j;
            }
            j += 1;
        }
        count += c;
        total += p as u128;
        i += 1;
    }
    assert(v.take(i as int) =~= v);
    (count, total)
}

/// The steps most instances have in common, the earliest first.
pub fn find_common(instances: &Vec<Vec<String>>) -> (r: Vec<String>)
    requires
        tidy(instances_view(instances@)),
    ensures
        texts(r@) == common_steps(instances_view(instances@)),
{
    let ghost v = instances_view(instances@);
    let all = flatten(instances);
    let groups = group(&all);
    let names = groups.names;
    let ghost nv = texts(names@);
    let n: u128 = instances.len() as u128;
    let fifths: u128 = (3 * n + 4) / 5;
    let needed: u128 = if fifths < 2 {
        2
    } else {
        fifths
    };
    let mut kept: Vec<String> = Vec::new();
    let mut keys: Vec<u128> = Vec::new();
    let mut i: usize = 0;
    assert(texts(kept@) =~= routine(v, nv.take(0)));
    while i < names.len()
        invariant
            i <= names@.len(),
            v == instances_view(instances@),
            tidy(v),
            nv == texts(names@),
            needed == threshold(v.len()),
            texts(kept@) == routine(v, nv.take(i as int)),
            keys@.len() == kept@.len(),
            forall|k: int|
                0 <= k < keys@.len() ==> #[trigger] keys@[k] == (u128::MAX - average_position(
                    v,
                    kept@[k]@,
                )) as u128,
        decreases names@.len() - i,
    {
        let ghost before = texts(kept@);
        let t = &names[i];
        assert(nv.take(i + 1).drop_last() =~= nv.take(i as int));
        assert(nv.take(i + 1).last() == t@);
        let (count, total) = count_step(instances, t.as_str());
        if count as u128 >= needed && !is_noise(t.as_str()) {
            let average: u128 = total / (count as u128);
            kept.push(t.clone());
            keys.push(u128::MAX - average);
            assert(texts(kept@) =~= before.push(t@));
        }
        i += 1;
    }
    assert(nv.take(i as int) =~= nv);
    let ghost r = texts(kept@);
    assert(keys@ =~= Seq::new(
        r.len(),
        |i: int| (u128::MAX - average_position(v, r[i])) as u128,
    ));
    let m: usize = keys.len();
    let order = rank(&keys);
    proof {
        assert(keys@.len() == m);
        ranked_is_a_stable_sort(keys@);
    }
    reorder_texts(&kept, &order)
}

/// What a run of steps after a prompt is bounded by.
proof fn lemma_run_after(commands: Seq<CommandView>, n: nat, p: PromptView, next: i64)
    ensures
        run_after(commands, n, p, next).len() <= MAX_STEPS,
    decreases n,
{
    if n > 0 {
        lemma_run_after(commands, (n - 1) as nat, p, next);
    }
}

/// The instances of a cluster are tidy.
proof fn lemma_tidy(
    rows: Seq<PromptView>,
    asks: Seq<PromptView>,
    commands: Seq<CommandView>,
    members: Seq<usize>,
    n: nat,
)
    ensures
        tidy(instances_of(rows, asks, commands, members, n)),
    decreases n,
{
    if n > 0 {
        lemma_tidy(rows, asks, commands, members, (n - 1) as nat);
        let p = asks[members[n - 1] as int];
        let next = next_seq(rows, rows.len(), p);
        lemma_run_after(commands, commands.len(), p, next);
        let run = run_after(commands, commands.len(), p, next);
        lemma_distinct(run, run.len());
        let before = instances_of(rows, asks, commands, members, (n - 1) as nat);
        let now = instances_of(rows, asks, commands, members, n);
        assert forall|i: int| 0 <= i < now.len() implies (#[trigger] now[i]).len() <= MAX_STEPS
            && now[i].no_duplicates() by {
            if i < before.len() {
                assert(now[i] == before[i]);
            }
        }
    }
}

/// The pattern of an intent.
fn make_intent(timings: &Timings, ask: &str, count: usize, steps: &Vec<String>) -> (r: Pattern)
    requires
        timings.wf(),
    ensures
        forall|times: Seq<TimingView>| #[trigger]
            timings.of(times) ==> r@ == intent_pattern(times, ask@, count as nat, texts(steps@)),
{
    let mut head = "ask: ".to_owned();
    head.append(ask);
    let ghost hv = ask_mark() + ask@;
    assert(head@ =~= hv);
    let mut templates: Vec<String> = Vec::new();
    templates.push(head);
    let mut i: usize = 0;
    assert(texts(templates@) =~= seq![hv] + texts(steps@).take(0));
    while i < steps.len()
        invariant
            i <= steps@.len(),
            texts(templates@) == seq![hv] + texts(steps@).take(i as int),
        decreases steps@.len() - i,
    {
        let ghost now = texts(templates@);
        templates.push(steps[i].clone());
        assert(texts(templates@) =~= now.push(steps@[i as int]@));
        i += 1;
        assert(texts(templates@) =~= seq![hv] + texts(steps@).take(i as int));
    }
    assert(texts(steps@).take(i as int) =~= texts(steps@));
    let per_run = timings.run(steps);
    let score = weigh(6, count, per_run);
    Pattern { templates, count, score }
}

/// Finds recurring asks with the steps that usually follow, the costliest first.
pub fn intents(
    rows: &Vec<PromptRow>,
    commands: &Vec<CommandRow>,
    times: &Vec<TimingRow>,
) -> (r: Vec<Pattern>)
    ensures
        patterns_view(r@) == intended(
            prompts_view(rows@),
            commands_view(commands@),
            timing_view(times@),
        ),
{
    let loaded = load_prompts(rows);
    let n: usize = loaded.len();
    let ghost all = prompts_view(rows@);
    let ghost p = prompts_view(loaded@);
    let ghost cmds = commands_view(commands@);
    let ghost tv = timing_view(times@);
    let groups = cluster_prompts(&loaded);
    let ghost c = groups_view(groups@);
    let timings = template_seconds(times);
    proof {
        assert(p.len() == n);
        lemma_members(p, p.len());
    }
    let mut out: Vec<Pattern> = Vec::new();
    let mut i: usize = 0;
    assert(patterns_view(out@) =~= intents_of(all, p, cmds, tv, c, 0));
    while i < groups.len()
        invariant
            i <= groups@.len(),
            all == prompts_view(rows@),
            p == prompts_view(loaded@),
            cmds == commands_view(commands@),
            c == groups_view(groups@),
            timings.wf(),
            timings.of(tv),
            forall|a: int, k: int|
                0 <= a < c.len() && 0 <= k < c[a].len() ==> (#[trigger] c[a][k]) < p.len(),
            patterns_view(out@) == intents_of(all, p, cmds, tv, c, i as nat),
        decreases groups@.len() - i,
    {
        let ghost before = patterns_view(out@);
        let members = &groups[i];
        proof {
            assert(c[i as int] == members@);
            assert forall|k: int| 0 <= k < members@.len() implies (#[trigger] members@[k])
                < loaded@.len() by {
                assert(c[i as int][k] < p.len());
            }
        }
        let instances = gather_instances(rows, &loaded, commands, members);
        proof {
            lemma_tidy(all, p, cmds, members@, members@.len());
        }
        let steps = find_common(&instances);
        assert(texts(steps@).len() == steps@.len());
        assert(instances_view(instances@).len() == instances@.len());
        if instances.len() >= MIN_INSTANCES && steps.len() >= MIN_COMMON {
            let ask = representative(&loaded, members);
            let one = make_intent(&timings, ask.as_str(), members.len(), &steps);
            let ghost ov = one@;
            out.push(one);
            assert(patterns_view(out@) =~= before.push(ov));
        }
        i += 1;
    }
    sort_by_score(&out)
}

// ---------------------------------------------------------------------------
// What the routine is
// ---------------------------------------------------------------------------

/// Which steps belong to the routine.
proof fn lemma_routine(instances: Seq<Seq<Seq<char>>>, names: Seq<Seq<char>>, t: Seq<char>)
    ensures
        routine(instances, names).contains(t) <==> names.contains(t) && frequency(instances, t)
            >= threshold(instances.len()) && !noise(t),
        routine(instances, names).len() <= names.len(),
    decreases names.len(),
{
    if names.len() > 0 {
        let front = names.drop_last();
        let last = names.last();
        let before = routine(instances, front);
        let now = routine(instances, names);
        lemma_routine(instances, front, t);
        assert(names[names.len() - 1] == last);
        if front.contains(t) {
            let i = choose|i: int| 0 <= i < front.len() && front[i] == t;
            assert(names[i] == t);
        }
        if names.contains(t) {
            let i = choose|i: int| 0 <= i < names.len() && names[i] == t;
            if i < front.len() {
                assert(front[i] == t);
            }
        }
        if before.contains(t) {
            let i = choose|i: int| 0 <= i < before.len() && before[i] == t;
            assert(now[i] == t);
        }
        if now.len() > before.len() {
            assert(now[before.len() as int] == last);
        }
        if now.contains(t) {
            let i = choose|i: int| 0 <= i < now.len() && now[i] == t;
            if i < before.len() {
                assert(before[i] == t);
            }
        }
    } else {
        assert(!names.contains(t) && !routine(instances, names).contains(t));
    }
}

/// A step that is counted stands somewhere.
proof fn lemma_counted_step(instances: Seq<Seq<Seq<char>>>, t: Seq<char>)
    requires
        frequency(instances, t) > 0,
    ensures
        flattened(instances).contains(t),
    decreases instances.len(),
{
    let front = instances.drop_last();
    let last = instances.last();
    let all = flattened(instances);
    if step_count(last, last.len(), t) > 0 {
        let i = lemma_find_step(last, last.len(), t);
        assert(all[flattened(front).len() + i] == t);
    } else {
        lemma_counted_step(front, t);
        let i = choose|i: int| 0 <= i < flattened(front).len() && flattened(front)[i] == t;
        assert(all[i] == t);
    }
}

/// Where a counted step stands.
proof fn lemma_find_step(steps: Seq<Seq<char>>, n: nat, t: Seq<char>) -> (i: int)
    requires
        n <= steps.len(),
        step_count(steps, n, t) > 0,
    ensures
        0 <= i < n,
        steps[i] == t,
    decreases n,
{
    if steps[n - 1] == t {
        n - 1
    } else {
        lemma_find_step(steps, (n - 1) as nat, t)
    }
}

/// The common steps are exactly those that are not noise and stand in three
/// fifths of the instances, at least two; they come by average position.
pub proof fn common_steps_are_the_routine(instances: Seq<Seq<Seq<char>>>, t: Seq<char>)
    requires
        tidy(instances),
        flattened(instances).len() <= usize::MAX,
        instances.len() <= usize::MAX,
    ensures
        common_steps(instances).contains(t) <==> frequency(instances, t) >= threshold(
            instances.len(),
        ) && !noise(t),
        forall|a: int, b: int|
            0 <= a < b < common_steps(instances).len() ==> average_position(
                instances,
                #[trigger] common_steps(instances)[a],
            ) <= average_position(instances, #[trigger] common_steps(instances)[b]),
{
    let all = flattened(instances);
    let names = distinct(all, all.len());
    let r = routine(instances, names);
    let keys = Seq::new(
        r.len(),
        |i: int| (u128::MAX - average_position(instances, r[i])) as u128,
    );
    let order = ranked(keys);
    let c = common_steps(instances);
    lemma_distinct(all, all.len());
    lemma_routine(instances, names, t);
    ranked_is_a_stable_sort(keys);
    assert(c.contains(t) <==> r.contains(t)) by {
        if c.contains(t) {
            let k = choose|k: int| 0 <= k < c.len() && c[k] == t;
            assert(r[order[k] as int] == t);
        }
        if r.contains(t) {
            let i = choose|i: int| 0 <= i < r.len() && r[i] == t;
            assert(order.contains(i as usize));
            let k = choose|k: int| 0 <= k < order.len() && order[k] == i as usize;
            assert(c[k] == t);
        }
    }
    if frequency(instances, t) >= threshold(instances.len()) {
        lemma_counted_step(instances, t);
        let i = choose|i: int| 0 <= i < all.len() && all[i] == t;
        assert(names.contains(t));
    }
    assert forall|a: int, b: int| 0 <= a < b < c.len() implies average_position(
        instances,
        #[trigger] c[a],
    ) <= average_position(instances, #[trigger] c[b]) by {
        let (i, j) = (order[a] as int, order[b] as int);
        assert(c[a] == r[i] && c[b] == r[j]);
        lemma_average_bound(instances, names, i);
        lemma_average_bound(instances, names, j);
        assert(keys[i] >= keys[j]);
    }
}

/// The average position of a routine step is small.
proof fn lemma_average_bound(instances: Seq<Seq<Seq<char>>>, names: Seq<Seq<char>>, i: int)
    requires
        tidy(instances),
        instances.len() <= usize::MAX,
        0 <= i < routine(instances, names).len(),
    ensures
        average_position(instances, routine(instances, names)[i]) <= u128::MAX,
{
    let t = routine(instances, names)[i];
    assert(routine(instances, names).contains(t));
    lemma_routine(instances, names, t);
    lemma_frequency_bound(instances, t);
    let a = position_total(instances, t);
    let b = frequency(instances, t);
    assert(a / b <= a) by (nonlinear_arith)
        requires
            b > 0,
            a >= 0,
    ;
}

/// Where an intent comes from.
proof fn lemma_intents_of(
    rows: Seq<PromptView>,
    asks: Seq<PromptView>,
    commands: Seq<CommandView>,
    times: Seq<TimingView>,
    groups: Seq<Seq<usize>>,
    n: nat,
    k: int,
) -> (g: int)
    requires
        0 <= k < intents_of(rows, asks, commands, times, groups, n).len(),
    ensures
        0 <= g < n,
        k <= g,
        ({
            let members = groups[g];
            let instances = instances_of(rows, asks, commands, members, members.len());
            let steps = common_steps(instances);
            &&& instances.len() >= MIN_INSTANCES
            &&& steps.len() >= MIN_COMMON
            &&& intents_of(rows, asks, commands, times, groups, n)[k] == intent_pattern(
                times,
                spokesman(asks, members),
                members.len(),
                steps,
            )
        }),
    decreases n,
{
    let m = (n - 1) as nat;
    let before = intents_of(rows, asks, commands, times, groups, m);
    if k < before.len() {
        lemma_intents_of(rows, asks, commands, times, groups, m, k)
    } else {
        lemma_intents_len(rows, asks, commands, times, groups, m);
        n - 1
    }
}

/// There are at most as many intents as clusters.
proof fn lemma_intents_len(
    rows: Seq<PromptView>,
    asks: Seq<PromptView>,
    commands: Seq<CommandView>,
    times: Seq<TimingView>,
    groups: Seq<Seq<usize>>,
    n: nat,
)
    ensures
        intents_of(rows, asks, commands, times, groups, n).len() <= n,
    decreases n,
{
    if n > 0 {
        lemma_intents_len(rows, asks, commands, times, groups, (n - 1) as nat);
    }
}

/// What was run for a prompt lies between it and the next prompt of its session,
/// whatever that prompt says.
pub proof fn a_span_ends_at_the_next_prompt(
    rows: Seq<PromptView>,
    p: PromptView,
    c: CommandView,
    k: int,
)
    requires
        0 <= k < rows.len(),
        rows[k].source == p.source,
        rows[k].session == p.session,
        rows[k].seq > p.seq,
        follows(c, p, next_seq(rows, rows.len(), p)),
    ensures
        p.seq < c.seq < rows[k].seq,
{
    lemma_next_seq(rows, rows.len(), p, k);
}

/// The next prompt is the first of those that come later.
proof fn lemma_next_seq(rows: Seq<PromptView>, n: nat, p: PromptView, k: int)
    requires
        0 <= k < n <= rows.len(),
        rows[k].source == p.source,
        rows[k].session == p.session,
        rows[k].seq > p.seq,
    ensures
        next_seq(rows, n, p) <= rows[k].seq,
    decreases n,
{
    if k < n - 1 {
        lemma_next_seq(rows, (n - 1) as nat, p, k);
    }
}

/// Every intent is the ask of a cluster with the routine of its instances; there
/// are two instances or more, and the routine has two steps or more.
pub proof fn an_intent_is_a_cluster_with_its_routine(
    rows: Seq<PromptView>,
    commands: Seq<CommandView>,
    times: Seq<TimingView>,
    k: int,
)
    requires
        0 <= k < intended(rows, commands, times).len(),
    ensures
        exists|g: int|
            0 <= g < clusters(asks(rows)).len() && {
                let members = #[trigger] clusters(asks(rows))[g];
                let instances = instances_of(rows, asks(rows), commands, members, members.len());
                let steps = common_steps(instances);
                &&& instances.len() >= MIN_INSTANCES
                &&& steps.len() >= MIN_COMMON
                &&& intended(rows, commands, times)[k] == intent_pattern(
                    times,
                    spokesman(asks(rows), members),
                    members.len(),
                    steps,
                )
            },
{
    let p = asks(rows);
    let c = clusters(p);
    let all = intents_of(rows, p, commands, times, c, c.len());
    crate::mine::pattern::costliest_come_first(all);
    let x = intended(rows, commands, times)[k];
    assert(by_score(all)[k] == x);
    assert(by_score(all).contains(x));
    assert(all.contains(x));
    let i = choose|i: int| 0 <= i < all.len() && all[i] == x;
    let g = lemma_intents_of(rows, p, commands, times, c, c.len(), i);
    assert(c[g].len() == c[g].len());
}

// ---------------------------------------------------------------------------
// What the steps of an intent are
// ---------------------------------------------------------------------------

/// A step that stands in a list is counted.
proof fn lemma_present(steps: Seq<Seq<char>>, n: nat, i: int)
    requires
        0 <= i < n <= steps.len(),
    ensures
        step_count(steps, n, steps[i]) > 0,
    decreases n,
{
    if i < n - 1 {
        lemma_present(steps, (n - 1) as nat, i);
    }
}

/// A step is counted once for each instance that has it.
proof fn lemma_instances_with(instances: Seq<Seq<Seq<char>>>, t: Seq<char>)
    requires
        tidy(instances),
    ensures
        frequency(instances, t) == how_many(
            instances.len(),
            |i: int| instances[i].contains(t),
        ),
    decreases instances.len(),
{
    if instances.len() > 0 {
        let front = instances.drop_last();
        let last = instances.last();
        assert(last == instances[instances.len() - 1]);
        assert forall|i: int| 0 <= i < front.len() implies (#[trigger] front[i]).len() <= MAX_STEPS
            && front[i].no_duplicates() by {
            assert(front[i] == instances[i]);
        }
        lemma_instances_with(front, t);
        lemma_same_positions(
            front.len(),
            |i: int| front[i].contains(t),
            |i: int| instances[i].contains(t),
        );
        lemma_once(last, last.len(), t);
        if last.contains(t) {
            let i = choose|i: int| 0 <= i < last.len() && last[i] == t;
            lemma_present(last, last.len(), i);
        } else {
            lemma_absent(last, last.len(), t);
        }
    }
}

/// A step belongs to the routine of an ask exactly when it does more than look around
/// and two instances or more have it, and at least three fifths of all of them.
pub proof fn common_steps_are_in_three_fifths(instances: Seq<Seq<Seq<char>>>, t: Seq<char>)
    requires
        tidy(instances),
        flattened(instances).len() <= usize::MAX,
        instances.len() <= usize::MAX,
    ensures
        ({
            let having = how_many(instances.len(), |i: int| instances[i].contains(t));
            common_steps(instances).contains(t) <==> having >= 2 && 5 * having >= 3
                * instances.len() && !noise(t)
        }),
{
    common_steps_are_the_routine(instances, t);
    lemma_instances_with(instances, t);
}

/// The places of a step are added up over the instances that have it, and the
/// average is rounded down.
pub proof fn the_average_place_is_over_all_instances(
    instances: Seq<Seq<Seq<char>>>,
    steps: Seq<Seq<char>>,
    t: Seq<char>,
    p: int,
)
    requires
        steps.no_duplicates(),
    ensures
        position_total(Seq::empty(), t) == 0,
        0 <= p < steps.len() && steps[p] == t ==> position_total(instances.push(steps), t)
            == position_total(instances, t) + p,
        !steps.contains(t) ==> position_total(instances.push(steps), t) == position_total(
            instances,
            t,
        ),
        frequency(instances, t) > 0 ==> average_position(instances, t) * frequency(instances, t)
            <= position_total(instances, t) < (average_position(instances, t) + 1) * frequency(
            instances,
            t,
        ),
{
    let more = instances.push(steps);
    assert(more.drop_last() =~= instances);
    if 0 <= p < steps.len() && steps[p] == t {
        lemma_place_once(steps, steps.len(), p);
    }
    if !steps.contains(t) {
        lemma_absent(steps, steps.len(), t);
    }
    let (n, d) = (position_total(instances, t) as int, frequency(instances, t) as int);
    if d > 0 {
        vstd::arithmetic::div_mod::lemma_fundamental_div_mod(n, d);
        vstd::arithmetic::div_mod::lemma_mod_bound(n, d);
        let q = n / d;
        assert(d * q == q * d) by (nonlinear_arith);
        assert((q + 1) * d == q * d + d) by (nonlinear_arith);
    }
}

/// The place of a step in a list without repeats.
proof fn lemma_place_once(steps: Seq<Seq<char>>, n: nat, p: int)
    requires
        0 <= p < n <= steps.len(),
        steps.no_duplicates(),
    ensures
        position_sum(steps, n, steps[p]) == p,
    decreases n,
{
    let m = (n - 1) as nat;
    if p < m {
        lemma_place_once(steps, m, p);
        assert(steps[m as int] != steps[p]);
    } else {
        assert forall|i: int| 0 <= i < m implies #[trigger] steps[i] != steps[p] by {}
        lemma_absent(steps, m, steps[p]);
    }
}

/// Whether one step stands before another in an instance.
pub open spec fn takes_before(steps: Seq<Seq<char>>, t: Seq<char>, u: Seq<char>) -> bool {
    exists|p: int, q: int|
        0 <= p < q < steps.len() && #[trigger] steps[p] == t && #[trigger] steps[q] == u
}

/// A step that every instance takes before another comes before it.
pub proof fn steps_come_in_their_usual_order(
    instances: Seq<Seq<Seq<char>>>,
    t: Seq<char>,
    u: Seq<char>,
)
    requires
        tidy(instances),
        flattened(instances).len() <= usize::MAX,
        2 <= instances.len() <= usize::MAX,
        !noise(t),
        !noise(u),
        forall|i: int| 0 <= i < instances.len() ==> takes_before(#[trigger] instances[i], t, u),
    ensures
        exists|a: int, b: int|
            0 <= a < b < common_steps(instances).len() && #[trigger] common_steps(instances)[a] == t
                && #[trigger] common_steps(instances)[b] == u,
{
    let c = common_steps(instances);
    let n = instances.len();
    lemma_both_ways(instances, t, u);
    common_steps_are_the_routine(instances, t);
    common_steps_are_the_routine(instances, u);
    let a = choose|a: int| 0 <= a < c.len() && c[a] == t;
    let b = choose|b: int| 0 <= b < c.len() && c[b] == u;
    let (x, y) = (position_total(instances, t), position_total(instances, u));
    assert(x / n < y / n) by {
        vstd::arithmetic::div_mod::lemma_div_plus_one(x as int, n as int);
        vstd::arithmetic::div_mod::lemma_div_is_ordered((x + n) as int, y as int, n as int);
    }
    assert(average_position(instances, t) < average_position(instances, u));
    if b <= a {
        assert(average_position(instances, c[b]) <= average_position(instances, c[a]));
    }
    assert(c[a] == t && c[b] == u);
}

/// Steps that all instances take in one order have places in that order.
proof fn lemma_both_ways(instances: Seq<Seq<Seq<char>>>, t: Seq<char>, u: Seq<char>)
    requires
        tidy(instances),
        forall|i: int| 0 <= i < instances.len() ==> takes_before(#[trigger] instances[i], t, u),
    ensures
        frequency(instances, t) == instances.len(),
        frequency(instances, u) == instances.len(),
        position_total(instances, t) + instances.len() <= position_total(instances, u),
    decreases instances.len(),
{
    if instances.len() > 0 {
        let front = instances.drop_last();
        let k = instances.len() - 1;
        let last = instances[k];
        assert forall|i: int| 0 <= i < front.len() implies (#[trigger] front[i]).len() <= MAX_STEPS
            && front[i].no_duplicates() by {
            assert(front[i] == instances[i]);
        }
        assert forall|i: int| 0 <= i < front.len() implies takes_before(
            #[trigger] front[i],
            t,
            u,
        ) by {
            assert(front[i] == instances[i]);
        }
        lemma_both_ways(front, t, u);
        assert(takes_before(instances[k], t, u));
        let (p, q) = choose|p: int, q: int|
            0 <= p < q < last.len() && #[trigger] last[p] == t && #[trigger] last[q] == u;
        lemma_once(last, last.len(), t);
        lemma_once(last, last.len(), u);
        lemma_present(last, last.len(), p);
        lemma_present(last, last.len(), q);
        lemma_place_once(last, last.len(), p);
        lemma_place_once(last, last.len(), q);
    }
}

/// Whether a command was run in answer to a prompt, before the next one.
pub open spec fn answers(c: CommandView, p: PromptView, next: i64) -> bool {
    &&& c.source == tool_of(p.source)
    &&& c.session == Some(p.session)
    &&& p.seq < c.seq
    &&& c.seq < next
}

/// The steps of an instance are the templates of the first fifteen commands that
/// were run in answer to the prompt, each once.
pub proof fn an_instance_is_the_first_fifteen_commands(
    rows: Seq<PromptView>,
    commands: Seq<CommandView>,
    p: PromptView,
    t: Seq<char>,
)
    ensures
        steps_for(rows, commands, p).no_duplicates(),
        ({
            let next = next_seq(rows, rows.len(), p);
            steps_for(rows, commands, p).contains(t) <==> exists|i: int|
                0 <= i < commands.len() && #[trigger] answers(commands[i], p, next)
                    && commands[i].template == t && how_many(
                    i as nat,
                    |j: int| answers(commands[j], p, next),
                ) < 15
        }),
{
    let next = next_seq(rows, rows.len(), p);
    let run = run_after(commands, commands.len(), p, next);
    lemma_run_members(commands, commands.len(), p, next, t);
    lemma_distinct(run, run.len());
    if run.contains(t) {
        let i = choose|i: int| 0 <= i < run.len() && run[i] == t;
        assert(run[i] == t);
    }
}

/// What the first commands in answer to a prompt are.
proof fn lemma_run_members(
    commands: Seq<CommandView>,
    n: nat,
    p: PromptView,
    next: i64,
    t: Seq<char>,
)
    requires
        n <= commands.len(),
    ensures
        ({
            let all = how_many(n, |j: int| answers(commands[j], p, next));
            run_after(commands, n, p, next).len() == if all < 15 {
                all
            } else {
                15
            }
        }),
        run_after(commands, n, p, next).contains(t) <==> exists|i: int|
            0 <= i < n && #[trigger] answers(commands[i], p, next) && commands[i].template == t
                && how_many(i as nat, |j: int| answers(commands[j], p, next)) < 15,
    decreases n,
{
    if n > 0 {
        let m = (n - 1) as nat;
        let before = run_after(commands, m, p, next);
        let all = run_after(commands, n, p, next);
        lemma_run_members(commands, m, p, next, t);
        let x = commands[m as int];
        assert(answers(x, p, next) == follows(x, p, next));
        if all.contains(t) && !before.contains(t) {
            let k = choose|k: int| 0 <= k < all.len() && all[k] == t;
            if k < before.len() {
                assert(before[k] == t);
            }
            assert(answers(commands[m as int], p, next));
        }
        if before.contains(t) {
            let k = choose|k: int| 0 <= k < before.len() && before[k] == t;
            assert(all[k] == t);
        }
        if follows(x, p, next) && before.len() < MAX_STEPS && x.template == t {
            assert(all[before.len() as int] == t);
        }
    }
}

/// The next prompt of a session is the nearest one behind a prompt, if there is one.
pub proof fn the_next_prompt_is_the_nearest(rows: Seq<PromptView>, p: PromptView)
    ensures
        forall|k: int|
            0 <= k < rows.len() && (#[trigger] rows[k]).source == p.source && rows[k].session
                == p.session && rows[k].seq > p.seq ==> next_seq(rows, rows.len(), p)
                <= rows[k].seq,
        next_seq(rows, rows.len(), p) == i64::MAX || exists|k: int|
            0 <= k < rows.len() && (#[trigger] rows[k]).source == p.source && rows[k].session
                == p.session && rows[k].seq > p.seq && next_seq(rows, rows.len(), p)
                == rows[k].seq,
{
    assert forall|k: int|
        0 <= k < rows.len() && (#[trigger] rows[k]).source == p.source && rows[k].session
            == p.session && rows[k].seq > p.seq implies next_seq(rows, rows.len(), p)
        <= rows[k].seq by {
        lemma_next_seq(rows, rows.len(), p, k);
    }
    lemma_next_found(rows, rows.len(), p);
}

/// The number of the next prompt is that of a prompt.
proof fn lemma_next_found(rows: Seq<PromptView>, n: nat, p: PromptView)
    requires
        n <= rows.len(),
    ensures
        next_seq(rows, n, p) == i64::MAX || exists|k: int|
            0 <= k < n && (#[trigger] rows[k]).source == p.source && rows[k].session == p.session
                && rows[k].seq > p.seq && next_seq(rows, n, p) == rows[k].seq,
    decreases n,
{
    if n > 0 {
        lemma_next_found(rows, (n - 1) as nat, p);
        let o = rows[n - 1];
        assert(o == rows[n - 1]);
    }
}

/// The tool behind a source of prompts is what is left when the ending that marks
/// prompts is taken off.
pub proof fn a_tool_is_its_prompt_source_without_the_ending(s: Seq<char>)
    ensures
        tool_of(s + "_prompt"@) == tool_of(s),
        (s.len() < 7 || s.skip(s.len() - 7) != "_prompt"@) ==> tool_of(s) == s,
{
    reveal_strlit("_prompt");
    let e = "_prompt"@;
    let se = s + e;
    assert(se.subrange(se.len() - 7, se.len() as int) =~= e);
    assert(se.take(se.len() - 7) =~= s);
    if s.len() >= 7 {
        assert(s.skip(s.len() - 7) =~= s.subrange(s.len() - 7, s.len() as int));
    }
}

/// Every asking in a cluster that was answered with a command is an instance.
pub proof fn every_answered_ask_is_an_instance(
    rows: Seq<PromptView>,
    asks: Seq<PromptView>,
    commands: Seq<CommandView>,
    members: Seq<usize>,
    s: Seq<Seq<char>>,
)
    ensures
        instances_of(rows, asks, commands, members, members.len()).len() == how_many(
            members.len(),
            |i: int| steps_for(rows, commands, asks[members[i] as int]).len() > 0,
        ),
        instances_of(rows, asks, commands, members, members.len()).contains(s) <==> s.len() > 0
            && exists|i: int|
            0 <= i < members.len() && s == steps_for(
                rows,
                commands,
                asks[#[trigger] members[i] as int],
            ),
{
    lemma_instances(rows, asks, commands, members, members.len(), s);
}

/// The instances of the first members of a cluster.
proof fn lemma_instances(
    rows: Seq<PromptView>,
    asks: Seq<PromptView>,
    commands: Seq<CommandView>,
    members: Seq<usize>,
    n: nat,
    s: Seq<Seq<char>>,
)
    requires
        n <= members.len(),
    ensures
        instances_of(rows, asks, commands, members, n).len() == how_many(
            n,
            |i: int| steps_for(rows, commands, asks[members[i] as int]).len() > 0,
        ),
        instances_of(rows, asks, commands, members, n).contains(s) <==> s.len() > 0 && exists|i: int|
            0 <= i < n && s == steps_for(rows, commands, asks[#[trigger] members[i] as int]),
    decreases n,
{
    if n > 0 {
        let m = (n - 1) as nat;
        lemma_instances(rows, asks, commands, members, m, s);
        let before = instances_of(rows, asks, commands, members, m);
        let all = instances_of(rows, asks, commands, members, n);
        let x = steps_for(rows, commands, asks[members[m as int] as int]);
        if before.contains(s) {
            let k = choose|k: int| 0 <= k < before.len() && before[k] == s;
            assert(all[k] == s);
        }
        if x.len() > 0 {
            assert(all == before.push(x));
            assert(all[before.len() as int] == x);
            if all.contains(s) && !before.contains(s) {
                let k = choose|k: int| 0 <= k < all.len() && all[k] == s;
                if k < before.len() {
                    assert(before[k] == s);
                }
            }
        }
    }
}

/// Every cluster with two instances or more that share two steps or more is an
/// intent: what was asked, marked as an ask, and the steps, with as many runs as the
/// cluster has members, scored six times the time that they took.
pub proof fn every_routine_is_an_intent(
    rows: Seq<PromptView>,
    commands: Seq<CommandView>,
    times: Seq<TimingView>,
    g: int,
)
    requires
        clusters(asks(rows)).len() <= usize::MAX,
        0 <= g < clusters(asks(rows)).len(),
        ({
            let members = clusters(asks(rows))[g];
            let instances = instances_of(rows, asks(rows), commands, members, members.len());
            instances.len() >= 2 && common_steps(instances).len() >= 2
        }),
    ensures
        ({
            let members = clusters(asks(rows))[g];
            let instances = instances_of(rows, asks(rows), commands, members, members.len());
            let steps = common_steps(instances);
            let full = 6 * members.len() * run_ms(times, steps);
            exists|k: int|
                0 <= k < intended(rows, commands, times).len() && {
                    let p = #[trigger] intended(rows, commands, times)[k];
                    &&& p.templates == seq!["ask: "@ + spokesman(asks(rows), members)] + steps
                    &&& p.count == members.len()
                    &&& p.score == if full <= u128::MAX {
                        full as int
                    } else {
                        u128::MAX as int
                    }
                }
        }),
{
    let p = asks(rows);
    let c = clusters(p);
    let members = c[g];
    let steps = common_steps(instances_of(rows, p, commands, members, members.len()));
    let found = intents_of(rows, p, commands, times, c, c.len());
    let x = intent_pattern(times, spokesman(p, members), members.len(), steps);
    lemma_intent_listed(rows, p, commands, times, c, c.len(), g);
    lemma_intents_len(rows, p, commands, times, c, c.len());
    crate::mine::pattern::costliest_come_first(found);
    assert(by_score(found).contains(x));
    let k = choose|k: int| 0 <= k < by_score(found).len() && by_score(found)[k] == x;
    crate::mine::pattern::scores_are_products(6, members.len(), run_ms(times, steps));
    assert(intended(rows, commands, times)[k] == x);
}

/// A cluster with a routine is listed.
proof fn lemma_intent_listed(
    rows: Seq<PromptView>,
    asks: Seq<PromptView>,
    commands: Seq<CommandView>,
    times: Seq<TimingView>,
    groups: Seq<Seq<usize>>,
    n: nat,
    g: int,
)
    requires
        0 <= g < n <= groups.len(),
        ({
            let members = groups[g];
            let instances = instances_of(rows, asks, commands, members, members.len());
            instances.len() >= 2 && common_steps(instances).len() >= 2
        }),
    ensures
        ({
            let members = groups[g];
            let instances = instances_of(rows, asks, commands, members, members.len());
            intents_of(rows, asks, commands, times, groups, n).contains(
                intent_pattern(
                    times,
                    spokesman(asks, members),
                    members.len(),
                    common_steps(instances),
                ),
            )
        }),
    decreases n,
{
    let m = (n - 1) as nat;
    let before = intents_of(rows, asks, commands, times, groups, m);
    let all = intents_of(rows, asks, commands, times, groups, n);
    let members = groups[g];
    let instances = instances_of(rows, asks, commands, members, members.len());
    let x = intent_pattern(
        times,
        spokesman(asks, members),
        members.len(),
        common_steps(instances),
    );
    if g < m {
        lemma_intent_listed(rows, asks, commands, times, groups, m, g);
        let k = choose|k: int| 0 <= k < before.len() && before[k] == x;
        assert(all[k] == x);
    } else {
        assert(all[before.len() as int] == x);
    }
}

} // verus!
