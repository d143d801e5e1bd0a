//! Candidates: the patterns that wait for a decision.
use crate::count::how_many;
use crate::json::quoted;
use crate::mine::clusters::{clustered, prompt_clusters};
use crate::mine::intents::{
    ask_mark, commands_view, intended, intents, CommandRow, CommandView,
};
use crate::mine::loops::{fix_loops, looped, runs_view, RunRow, RunView};
use crate::mine::pattern::{patterns_view, Pattern, PatternView};
use crate::mine::prompts::{prompts_view, PromptRow, PromptView};
use crate::mine::streams::{rows_view, RowView, StreamRow};
use crate::mine::timing::{timing_view, TimingRow, TimingView};
use crate::mine::workflows::{mine, mined};
use crate::number::{
    decimal, divide_rounded, round_half_even, rounding_goes_to_the_nearest, to_decimal,
};
use crate::path::{last_component, strip_slashes, tail, without_slashes};
use crate::text::{begins_with, clone_all, is_blank, joined, opt_text, same, starts_with, texts};
use vstd::prelude::*;

verus! {

/// How many score units make a second.
pub const SECOND: u128 = 4000;

/// How many score units make a minute.
pub const MINUTE: u128 = 240_000;

// ---------------------------------------------------------------------------
// Keys
// ---------------------------------------------------------------------------

/// The JSON text of a list of texts.
pub open spec fn json_list(t: Seq<Seq<char>>) -> Seq<char> {
    "["@ + joined(Seq::new(t.len(), |i: int| quoted(t[i])), ","@) + "]"@
}

/// The list of texts that `serde_json` reads from a JSON text, if it is one.
pub uninterp spec fn read_list(s: Seq<char>) -> Option<Seq<Seq<char>>>;

/// `serde_json::to_string` on a list of strings: the quoted strings between
/// brackets, without white space. Reading the text gives the strings back; the
/// conversion of strings does not fail.
#[verifier::external_body]
fn write_json_list(v: &Vec<String>) -> (r: String)
    ensures
        r@ == json_list(texts(v@)),
        read_list(r@) == Some(texts(v@)),
{
    serde_json::to_string(v).unwrap_or_default()
}

/// `serde_json::from_str` to a list of strings. Whether the text is a JSON array
/// of strings and what it holds depends on the text alone.
#[verifier::external_body]
fn read_json_list(s: &str) -> (r: Option<Vec<String>>)
    ensures
        (match r {
            Some(v) => Some(texts(v@)),
            None => None,
        }) == read_list(s@),
{
    serde_json::from_str::<Vec<String>>(s).ok()
}

/// The text under which a pattern is stored.
pub fn pattern_key(templates: &Vec<String>) -> (r: String)
    ensures
        r@ == json_list(texts(templates@)),
        read_list(r@) == Some(texts(templates@)),
{
    write_json_list(templates)
}

/// The templates of a stored pattern, if the key can be read.
pub fn key_list(key: &str) -> (r: Option<Vec<String>>)
    ensures
        (match r {
            Some(v) => Some(texts(v@)),
            None => None,
        }) == read_list(key@),
{
    read_json_list(key)
}

// ---------------------------------------------------------------------------
// Proposals
// ---------------------------------------------------------------------------

/// A pattern with the kind it is stored under.
pub struct Proposal {
    pub kind: String,
    pub pattern: Pattern,
}

/// What a [`Proposal`] holds.
pub struct ProposalView {
    pub kind: Seq<char>,
    pub pattern: PatternView,
}

impl View for Proposal {
    type V = ProposalView;

    open spec fn view(&self) -> ProposalView {
        ProposalView { kind: self.kind@, pattern: self.pattern@ }
    }
}

/// What a list of proposals holds.
pub open spec fn proposals_view(v: Seq<Proposal>) -> Seq<ProposalView> {
    Seq::new(v.len(), |i: int| v[i]@)
}

/// The patterns under one kind.
pub open spec fn tagged(kind: Seq<char>, p: Seq<PatternView>) -> Seq<ProposalView> {
    Seq::new(p.len(), |i: int| ProposalView { kind, pattern: p[i] })
}

/// Whether a prompt cluster is part of an intent: the intent grew from its ask.
pub open spec fn subsumed(intents: Seq<PatternView>, ask: Seq<char>) -> bool {
    exists|k: int|
        0 <= k < intents.len() && (#[trigger] intents[k]).templates[0] == ask_mark() + ask
}

/// The prompt clusters that no intent subsumes.
pub open spec fn bare_prompts(
    intents: Seq<PatternView>,
    prompts: Seq<PatternView>,
) -> Seq<PatternView>
    decreases prompts.len(),
{
    if prompts.len() == 0 {
        Seq::empty()
    } else {
        let before = bare_prompts(intents, prompts.drop_last());
        if subsumed(intents, prompts.last().templates[0]) {
            before
        } else {
            before.push(prompts.last())
        }
    }
}

/// Everything that was mined, kind by kind.
pub open spec fn proposed(
    sequences: Seq<PatternView>,
    loops: Seq<PatternView>,
    intents: Seq<PatternView>,
    prompts: Seq<PatternView>,
) -> Seq<ProposalView> {
    tagged("sequence"@, sequences) + tagged("fixloop"@, loops) + tagged("intent"@, intents)
        + tagged("prompt"@, bare_prompts(intents, prompts))
}

/// All that mining looks at.
pub struct History {
    pub rows: Vec<StreamRow>,
    pub runs: Vec<RunRow>,
    pub prompts: Vec<PromptRow>,
    pub commands: Vec<CommandRow>,
    pub times: Vec<TimingRow>,
}

/// What mining a history proposes.
pub open spec fn proposals_of(
    rows: Seq<RowView>,
    runs: Seq<RunView>,
    prompts: Seq<PromptView>,
    commands: Seq<CommandView>,
    times: Seq<TimingView>,
) -> Seq<ProposalView> {
    proposed(
        mined(rows, times),
        looped(runs, times),
        intended(prompts, commands, times),
        clustered(prompts),
    )
}

/// Moves patterns to the end of a list of proposals.
fn tag(out: &mut Vec<Proposal>, kind: &str, patterns: &Vec<Pattern>)
    ensures
        proposals_view(final(out)@) == proposals_view(old(out)@) + tagged(
            kind@,
            patterns_view(patterns@),
        ),
{
    let ghost start = proposals_view(out@);
    let ghost p = tagged(kind@, patterns_view(patterns@));
    let mut i: usize = 0;
    assert(start + p.take(0) =~= start);
    while i < patterns.len()
        invariant
            i <= patterns@.len(),
            p == tagged(kind@, patterns_view(patterns@)),
            proposals_view(out@) == start + p.take(i as int),
        decreases patterns@.len() - i,
    {
        let ghost now = proposals_view(out@);
        let one = Proposal {
            kind: kind.to_owned(),
            pattern: crate::mine::pattern::copy_pattern(&patterns[i]),
        };
        let ghost ov = one@;
        out.push(one);
        assert(proposals_view(out@) =~= now.push(ov));
        i += 1;
        assert(proposals_view(out@) =~= start + p.take(i as int));
    }
    assert(p.take(i as int) =~= p);
}

/// Whether every pattern has a first template.
pub open spec fn headed(p: Seq<PatternView>) -> bool {
    forall|k: int| 0 <= k < p.len() ==> (#[trigger] p[k]).templates.len() > 0
}

/// Whether an intent grew from this ask.
fn is_subsumed(intents: &Vec<Pattern>, ask: &str) -> (r: bool)
    requires
        headed(patterns_view(intents@)),
    ensures
        r == subsumed(patterns_view(intents@), ask@),
{
    let ghost v = patterns_view(intents@);
    let mut want = "ask: ".to_owned();
    want.append(ask);
    assert(want@ =~= ask_mark() + ask@);
    let mut k: usize = 0;
    while k < intents.len()
        invariant
            k <= intents@.len(),
            v == patterns_view(intents@),
            headed(v),
            want@ == ask_mark() + ask@,
            forall|j: int|
                0 <= j < k ==> (#[trigger] v[j]).templates[0] != ask_mark() + ask@,
        decreases intents@.len() - k,
    {
        assert(v[k as int] == intents@[k as int]@);
        assert(v[k as int].templates.len() > 0);
        if intents[k].templates[0] == want {
            return true;
        }
        k += 1;
    }
    false
}

/// Drops the prompt clusters that an intent subsumes.
pub fn drop_subsumed(intents: &Vec<Pattern>, prompts: &Vec<Pattern>) -> (r: Vec<Pattern>)
    requires
        headed(patterns_view(intents@)),
        headed(patterns_view(prompts@)),
    ensures
        patterns_view(r@) == bare_prompts(patterns_view(intents@), patterns_view(prompts@)),
{
    let ghost iv = patterns_view(intents@);
    let ghost v = patterns_view(prompts@);
    let mut out: Vec<Pattern> = Vec::new();
    let mut i: usize = 0;
    assert(patterns_view(out@) =~= bare_prompts(iv, v.take(0)));
    while i < prompts.len()
        invariant
            i <= prompts@.len(),
            iv == patterns_view(intents@),
            v == patterns_view(prompts@),
            headed(iv),
            headed(v),
            patterns_view(out@) == bare_prompts(iv, v.take(i as int)),
        decreases prompts@.len() - i,
    {
        let ghost before = patterns_view(out@);
        assert(v.take(i + 1).drop_last() =~= v.take(i as int));
        assert(v.take(i + 1).last() == v[i as int]);
        assert(v[i as int].templates.len() > 0);
        let p = &prompts[i];
        if !is_subsumed(intents, p.templates[0].as_str()) {
            out.push(crate::mine::pattern::copy_pattern(p));
            assert(patterns_view(out@) =~= before.push(v[i as int]));
        }
        i += 1;
    }
    assert(v.take(i as int) =~= v);
    out
}

/// Which prompt clusters are left.
proof fn lemma_bare_prompts(intents: Seq<PatternView>, prompts: Seq<PatternView>)
    ensures
        forall|k: int|
            0 <= k < bare_prompts(intents, prompts).len() ==> !subsumed(
                intents,
                (#[trigger] bare_prompts(intents, prompts)[k]).templates[0],
            ),
        forall|k: int|
            0 <= k < prompts.len() ==> subsumed(intents, (#[trigger] prompts[k]).templates[0])
                || bare_prompts(intents, prompts).contains(prompts[k]),
    decreases prompts.len(),
{
    if prompts.len() > 0 {
        let front = prompts.drop_last();
        lemma_bare_prompts(intents, front);
        let before = bare_prompts(intents, front);
        let now = bare_prompts(intents, prompts);
        assert forall|k: int| 0 <= k < prompts.len() implies subsumed(
            intents,
            (#[trigger] prompts[k]).templates[0],
        ) || now.contains(prompts[k]) by {
            if k < front.len() {
                assert(front[k] == prompts[k]);
                if before.contains(front[k]) {
                    let j = choose|j: int| 0 <= j < before.len() && before[j] == front[k];
                    assert(now[j] == prompts[k]);
                }
            } else if !subsumed(intents, prompts.last().templates[0]) {
                assert(now[now.len() - 1] == prompts[k]);
            }
        }
    }
}

/// An intent takes the place of the prompt cluster that it grew from: no prompt
/// is proposed whose ask an intent begins with, and every other prompt cluster is
/// proposed.
pub proof fn an_intent_replaces_its_prompt_cluster(
    sequences: Seq<PatternView>,
    loops: Seq<PatternView>,
    intents: Seq<PatternView>,
    prompts: Seq<PatternView>,
)
    ensures
        ({
            let all = proposed(sequences, loops, intents, prompts);
            &&& forall|i: int, j: int|
                0 <= i < all.len() && 0 <= j < all.len() && (#[trigger] all[i]).kind == "intent"@ && (
                #[trigger] all[j]).kind == "prompt"@ ==> all[i].pattern.templates[0] != ask_mark()
                    + all[j].pattern.templates[0]
            &&& forall|k: int|
                0 <= k < prompts.len() && !subsumed(intents, (#[trigger] prompts[k]).templates[0])
                    ==> all.contains(ProposalView { kind: "prompt"@, pattern: prompts[k] })
        }),
{
    reveal_strlit("sequence");
    reveal_strlit("fixloop");
    reveal_strlit("intent");
    reveal_strlit("prompt");
    assert("prompt"@[0] != "intent"@[0]);
    let bare = bare_prompts(intents, prompts);
    let all = proposed(sequences, loops, intents, prompts);
    let a = sequences.len() as int;
    let b = a + loops.len();
    let c = b + intents.len();
    lemma_bare_prompts(intents, prompts);
    assert forall|i: int, j: int|
        0 <= i < all.len() && 0 <= j < all.len() && (#[trigger] all[i]).kind == "intent"@ && (
        #[trigger] all[j]).kind == "prompt"@ implies all[i].pattern.templates[0] != ask_mark()
        + all[j].pattern.templates[0] by {
        assert("sequence"@.len() == 8 && "fixloop"@.len() == 7);
        assert("intent"@.len() == 6 && "prompt"@.len() == 6);
        assert(b <= i < c);
        assert(c <= j);
        assert(all[i].pattern == intents[i - b]);
        assert(all[j].pattern == bare[j - c]);
        assert(!subsumed(intents, bare[j - c].templates[0]));
    }
    assert forall|k: int|
        0 <= k < prompts.len() && !subsumed(
            intents,
            (#[trigger] prompts[k]).templates[0],
        ) implies all.contains(ProposalView { kind: "prompt"@, pattern: prompts[k] }) by {
        let j = choose|j: int| 0 <= j < bare.len() && bare[j] == prompts[k];
        assert(all[c + j] == ProposalView { kind: "prompt"@, pattern: prompts[k] });
    }
}

/// Mines everything.
pub fn propose(h: &History) -> (r: Vec<Proposal>)
    ensures
        proposals_view(r@) == proposals_of(
            rows_view(h.rows@),
            runs_view(h.runs@),
            prompts_view(h.prompts@),
            commands_view(h.commands@),
            timing_view(h.times@),
        ),
{
    let found = intents(&h.prompts, &h.commands, &h.times);
    let clusters = prompt_clusters(&h.prompts);
    let n: usize = h.prompts.len();
    proof {
        assert(prompts_view(h.prompts@).len() == n);
        lemma_headed(
            prompts_view(h.prompts@),
            commands_view(h.commands@),
            timing_view(h.times@),
        );
    }
    let bare = drop_subsumed(&found, &clusters);
    let sequences = mine(&h.rows, &h.times);
    let loops = fix_loops(&h.runs, &h.times);
    let mut out: Vec<Proposal> = Vec::new();
    assert(proposals_view(out@) =~= Seq::<ProposalView>::empty());
    tag(&mut out, "sequence", &sequences);
    tag(&mut out, "fixloop", &loops);
    tag(&mut out, "intent", &found);
    tag(&mut out, "prompt", &bare);
    assert(proposals_view(out@) =~= proposals_of(
        rows_view(h.rows@),
        runs_view(h.runs@),
        prompts_view(h.prompts@),
        commands_view(h.commands@),
        timing_view(h.times@),
    ));
    out
}

/// Every intent and every cluster has a first template.
proof fn lemma_headed(
    prompts: Seq<PromptView>,
    commands: Seq<CommandView>,
    times: Seq<TimingView>,
)
    requires
        prompts.len() <= usize::MAX,
    ensures
        headed(intended(prompts, commands, times)),
        headed(clustered(prompts)),
{
    lemma_asks_len(prompts);
    let i = intended(prompts, commands, times);
    assert forall|k: int| 0 <= k < i.len() implies (#[trigger] i[k]).templates.len() > 0 by {
        crate::mine::intents::an_intent_is_a_cluster_with_its_routine(prompts, commands, times, k);
    }
    let p = crate::mine::prompts::asks(prompts);
    let g = crate::mine::clusters::clusters(p);
    let all = Seq::new(g.len(), |i: int| crate::mine::clusters::cluster_pattern(p, g[i]));
    let c = clustered(prompts);
    crate::mine::clusters::lemma_members(p, p.len());
    crate::mine::pattern::costliest_come_first(all);
    assert forall|k: int| 0 <= k < c.len() implies (#[trigger] c[k]).templates.len() > 0 by {
        assert(c.contains(c[k]));
        assert(all.contains(c[k]));
        let j = choose|j: int| 0 <= j < all.len() && all[j] == c[k];
        assert(all[j].templates.len() == 1);
    }
}

/// No more prompts count than there are.
proof fn lemma_asks_len(rows: Seq<PromptView>)
    ensures
        crate::mine::prompts::asks(rows).len() <= rows.len(),
    decreases rows.len(),
{
    if rows.len() > 0 {
        lemma_asks_len(rows.drop_last());
    }
}

// ---------------------------------------------------------------------------
// Selection
// ---------------------------------------------------------------------------

/// How many of the chosen positions have the given kind.
pub open spec fn kind_count(p: Seq<ProposalView>, chosen: Seq<usize>, kind: Seq<char>) -> nat
    decreases chosen.len(),
{
    if chosen.len() == 0 {
        0
    } else {
        kind_count(p, chosen.drop_last(), kind) + if p[chosen.last() as int].kind == kind {
            1nat
        } else {
            0
        }
    }
}

/// The first undecided proposals of each kind, up to `limit`, among the first `n`.
pub open spec fn undecided(
    p: Seq<ProposalView>,
    decided: Seq<bool>,
    limit: nat,
    n: nat,
) -> Seq<usize>
    decreases n,
{
    if n == 0 {
        Seq::empty()
    } else {
        let before = undecided(p, decided, limit, (n - 1) as nat);
        if !decided[n - 1] && kind_count(p, before, p[n - 1].kind) < limit {
            before.push((n - 1) as usize)
        } else {
            before
        }
    }
}

/// Counts the chosen proposals of one kind.
fn count_kind(p: &Vec<Proposal>, chosen: &Vec<usize>, kind: &str) -> (r: usize)
    requires
        forall|k: int| 0 <= k < chosen@.len() ==> (#[trigger] chosen@[k]) < p@.len(),
    ensures
        r == kind_count(proposals_view(p@), chosen@, kind@),
{
    let ghost v = proposals_view(p@);
    let mut n: usize = 0;
    let mut i: usize = 0;
    assert(chosen@.take(0).len() == 0);
    while i < chosen.len()
        invariant
            i <= chosen@.len(),
            v == proposals_view(p@),
            forall|k: int| 0 <= k < chosen@.len() ==> (#[trigger] chosen@[k]) < p@.len(),
            n == kind_count(v, chosen@.take(i as int), kind@),
            n <= i,
        decreases chosen@.len() - i,
    {
        assert(chosen@.take(i + 1).drop_last() =~= chosen@.take(i as int));
        assert(chosen@[i as int] < p@.len());
        if same(p[chosen[i]].kind.as_str(), kind) {
            n += 1;
        }
        i += 1;
    }
    assert(chosen@.take(i as int) =~= chosen@);
    n
}

/// Chooses the undecided proposals that are shown.
pub fn choose_undecided(p: &Vec<Proposal>, decided: &Vec<bool>, limit: usize) -> (r: Vec<usize>)
    requires
        decided@.len() == p@.len(),
    ensures
        r@ == undecided(proposals_view(p@), decided@, limit as nat, p@.len()),
{
    let ghost v = proposals_view(p@);
    let mut out: Vec<usize> = Vec::new();
    let mut i: usize = 0;
    while i < p.len()
        invariant
            i <= p@.len(),
            decided@.len() == p@.len(),
            v == proposals_view(p@),
            out@ == undecided(v, decided@, limit as nat, i as nat),
            forall|k: int| 0 <= k < out@.len() ==> (#[trigger] out@[k]) < i,
        decreases p@.len() - i,
    {
        if !decided[i] {
            let n = count_kind(p, &out, p[i].kind.as_str());
            if n < limit {
                out.push(i);
            }
        }
        i += 1;
    }
    out
}

/// Counting one more chosen proposal.
proof fn lemma_count_push(p: Seq<ProposalView>, chosen: Seq<usize>, x: usize, kind: Seq<char>)
    ensures
        kind_count(p, chosen.push(x), kind) == kind_count(p, chosen, kind) + if p[x as int].kind
            == kind {
            1nat
        } else {
            0
        },
{
    assert(chosen.push(x).drop_last() =~= chosen);
}

/// Of each kind at most `limit` proposals are chosen, none of them decided; and
/// an undecided proposal is passed over only when its kind is full.
pub proof fn selection_is_fair(
    p: Seq<ProposalView>,
    decided: Seq<bool>,
    limit: nat,
    n: nat,
    kind: Seq<char>,
)
    requires
        n <= p.len(),
        p.len() == decided.len(),
        p.len() <= usize::MAX,
    ensures
        kind_count(p, undecided(p, decided, limit, n), kind) <= limit,
        forall|k: int|
            0 <= k < undecided(p, decided, limit, n).len() ==> (#[trigger] undecided(
                p,
                decided,
                limit,
                n,
            )[k]) < n && !decided[undecided(p, decided, limit, n)[k] as int],
        forall|i: usize|
            i < n && !decided[i as int] && p[i as int].kind == kind && !#[trigger] undecided(
                p,
                decided,
                limit,
                n,
            ).contains(i) ==> kind_count(p, undecided(p, decided, limit, n), kind) == limit,
    decreases n,
{
    if n > 0 {
        let m = (n - 1) as nat;
        let before = undecided(p, decided, limit, m);
        let now = undecided(p, decided, limit, n);
        selection_is_fair(p, decided, limit, m, kind);
        lemma_count_push(p, before, m as usize, kind);
        assert forall|i: usize|
            i < n && !decided[i as int] && p[i as int].kind == kind && !#[trigger] now.contains(
                i,
            ) implies kind_count(p, now, kind) == limit by {
            if i < m {
                if before.contains(i) {
                    let k = choose|k: int| 0 <= k < before.len() && before[k] == i;
                    assert(now[k] == i);
                }
            } else if now.len() > before.len() {
                assert(now[before.len() as int] == i);
            } else {
                selection_is_fair(p, decided, limit, m, p[m as int].kind);
            }
        }
    }
}

// ---------------------------------------------------------------------------
// Candidates
// ---------------------------------------------------------------------------

/// A pattern that waits for a decision.
pub struct Candidate {
    pub id: i64,
    pub kind: String,
    pub templates: Vec<String>,
    pub count: usize,
    pub score: u128,
    pub project: Option<String>,
}

/// What a [`Candidate`] holds.
pub struct CandidateView {
    pub id: i64,
    pub kind: Seq<char>,
    pub templates: Seq<Seq<char>>,
    pub count: nat,
    pub score: u128,
    pub project: Option<Seq<char>>,
}

impl View for Candidate {
    type V = CandidateView;

    open spec fn view(&self) -> CandidateView {
        CandidateView {
            id: self.id,
            kind: self.kind@,
            templates: texts(self.templates@),
            count: self.count as nat,
            score: self.score,
            project: opt_text(self.project),
        }
    }
}

/// The label of a cost of `score` units.
pub open spec fn cost_text(kind: Seq<char>, score: nat) -> Seq<char> {
    if kind == "prompt"@ {
        "score "@ + decimal(round_half_even(score, SECOND as nat))
    } else if score >= MINUTE {
        "~"@ + decimal(round_half_even(score, MINUTE as nat)) + " min by hand"@
    } else {
        "~"@ + decimal(round_half_even(score, SECOND as nat)) + "s by hand"@
    }
}

impl Candidate {
    /// The label for the cost of a pattern. Patterns of commands carry the time
    /// spent on them; prompts have no timing, so theirs is the bare score.
    pub fn cost_label(&self) -> (r: String)
        ensures
            r@ == cost_text(self@.kind, self@.score as nat),
    {
        if same(self.kind.as_str(), "prompt") {
            let mut s = "score ".to_owned();
            s.append(to_decimal(divide_rounded(self.score, SECOND)).as_str());
            return s;
        }
        let mut s = "~".to_owned();
        if self.score >= MINUTE {
            s.append(to_decimal(divide_rounded(self.score, MINUTE)).as_str());
            s.append(" min by hand");
        } else {
            s.append(to_decimal(divide_rounded(self.score, SECOND)).as_str());
            s.append("s by hand");
        }
        s
    }
}

/// The first template that is a command and no ask.
pub open spec fn first_command(templates: Seq<Seq<char>>) -> Option<Seq<char>>
    decreases templates.len(),
{
    if templates.len() == 0 {
        None
    } else {
        match first_command(templates.drop_last()) {
            Some(t) => Some(t),
            None => if begins_with(templates.last(), ask_mark()) {
                None
            } else {
                Some(templates.last())
            },
        }
    }
}

/// The step by which a pattern's project is found.
pub fn distinctive_step(templates: &Vec<String>) -> (r: Option<String>)
    ensures
        opt_text(r) == first_command(texts(templates@)),
{
    let ghost v = texts(templates@);
    let mut i: usize = 0;
    assert(v.take(0).len() == 0);
    while i < templates.len()
        invariant
            i <= templates@.len(),
            v == texts(templates@),
            first_command(v.take(i as int)) is None,
        decreases templates@.len() - i,
    {
        assert(v.take(i + 1).drop_last() =~= v.take(i as int));
        assert(v.take(i + 1).last() == templates@[i as int]@);
        if !starts_with(templates[i].as_str(), "ask: ") {
            proof {
                lemma_first_stays(v, i + 1);
            }
            return Some(templates[i].clone());
        }
        i += 1;
    }
    assert(v.take(i as int) =~= v);
    None
}

/// Later templates do not change which command is the first.
proof fn lemma_first_stays(v: Seq<Seq<char>>, n: int)
    requires
        0 <= n <= v.len(),
        first_command(v.take(n)) is Some,
    ensures
        first_command(v) == first_command(v.take(n)),
    decreases v.len() - n,
{
    if n < v.len() {
        assert(v.take(n + 1).drop_last() =~= v.take(n));
        lemma_first_stays(v, n + 1);
    } else {
        assert(v.take(n) =~= v);
    }
}

/// The project of a working directory: the last component of its path.
pub open spec fn project_of(cwd: Seq<char>) -> Option<Seq<char>> {
    let name = last_component(without_slashes(cwd));
    if name.len() > 0 {
        Some(name)
    } else {
        None
    }
}

/// Computes [`project_of`].
pub fn project_name(cwd: &str) -> (r: Option<String>)
    ensures
        opt_text(r) == project_of(cwd@),
{
    let bare = strip_slashes(cwd);
    let name = tail(bare.as_str());
    if is_blank(name.as_str()) {
        None
    } else {
        Some(name)
    }
}

/// The project that a pattern mostly lives in, given the directory in which its
/// distinctive step is mostly run; a pattern without such a step has none.
pub open spec fn project_in(
    templates: Seq<Seq<char>>,
    cwd: Option<Seq<char>>,
) -> Option<Seq<char>> {
    match (first_command(templates), cwd) {
        (Some(_), Some(d)) => project_of(d),
        _ => None,
    }
}

/// Computes [`project_in`].
pub fn pattern_project(templates: &Vec<String>, cwd: &Option<String>) -> (r: Option<String>)
    ensures
        opt_text(r) == project_in(texts(templates@), opt_text(*cwd)),
{
    match (distinctive_step(templates), cwd) {
        (Some(_), Some(d)) => project_name(d.as_str()),
        _ => None,
    }
}

/// The candidate that a proposal becomes, given its number and the directory it
/// is mostly run in.
pub fn make_candidate(p: &Proposal, id: i64, cwd: &Option<String>) -> (r: Candidate)
    ensures
        r@ == (CandidateView {
            id,
            kind: p@.kind,
            templates: p@.pattern.templates,
            count: p@.pattern.count,
            score: p@.pattern.score,
            project: project_in(p@.pattern.templates, opt_text(*cwd)),
        }),
{
    Candidate {
        id,
        kind: p.kind.clone(),
        templates: clone_all(&p.pattern.templates),
        count: p.pattern.count,
        score: p.pattern.score,
        project: pattern_project(&p.pattern.templates, cwd),
    }
}

// ---------------------------------------------------------------------------
// What is proposed, chosen and shown
// ---------------------------------------------------------------------------

/// A cluster of prompts is proposed on its own exactly when no intent is headed by its
/// ask, and then in its place.
pub proof fn prompts_without_an_intent_stay(
    intents: Seq<PatternView>,
    prompts: Seq<PatternView>,
    x: PatternView,
)
    ensures
        bare_prompts(intents, prompts).contains(x) <==> prompts.contains(x) && forall|k: int|
            0 <= k < intents.len() ==> (#[trigger] intents[k]).templates[0] != "ask: "@
                + x.templates[0],
        bare_prompts(intents, Seq::empty()) == Seq::<PatternView>::empty(),
        bare_prompts(intents, prompts.push(x)) == bare_prompts(intents, prompts) + bare_prompts(
            intents,
            seq![x],
        ),
    decreases prompts.len(),
{
    let more = prompts.push(x);
    assert(more.drop_last() =~= prompts);
    let one = seq![x];
    assert(one.drop_last() =~= Seq::empty());
    assert(bare_prompts(intents, one.drop_last()) =~= Seq::empty());
    assert(bare_prompts(intents, more) =~= bare_prompts(intents, prompts) + bare_prompts(
        intents,
        one,
    ));
    if prompts.len() > 0 {
        let front = prompts.drop_last();
        let before = bare_prompts(intents, front);
        let all = bare_prompts(intents, prompts);
        prompts_without_an_intent_stay(intents, front, x);
        assert(prompts =~= front.push(prompts.last()));
        if before.contains(x) {
            let k = choose|k: int| 0 <= k < before.len() && before[k] == x;
            assert(all[k] == x);
            let j = choose|j: int| 0 <= j < front.len() && front[j] == x;
            assert(prompts[j] == x);
        }
        if all.contains(x) && !before.contains(x) {
            let k = choose|k: int| 0 <= k < all.len() && all[k] == x;
            if k < before.len() {
                assert(before[k] == x);
            }
            assert(prompts[prompts.len() - 1] == x);
        }
        if prompts.contains(x) && !front.contains(x) {
            let k = choose|k: int| 0 <= k < prompts.len() && prompts[k] == x;
            if k < front.len() {
                assert(front[k] == x);
            }
            if !subsumed(intents, x.templates[0]) {
                assert(all[before.len() as int] == x);
            }
        }
        if front.contains(x) {
            let j = choose|j: int| 0 <= j < front.len() && front[j] == x;
            assert(prompts[j] == x);
        }
    }
}

/// Workflows are proposed first, then fix loops, intents and prompts, each kind in its
/// own order and under its own name.
pub proof fn proposals_come_by_kind(
    sequences: Seq<PatternView>,
    loops: Seq<PatternView>,
    intents: Seq<PatternView>,
    prompts: Seq<PatternView>,
    i: int,
)
    ensures
        ({
            let all = proposed(sequences, loops, intents, prompts);
            let bare = bare_prompts(intents, prompts);
            let (a, b, c) = (
                sequences.len() as int,
                sequences.len() + loops.len(),
                sequences.len() + loops.len() + intents.len(),
            );
            &&& all.len() == c + bare.len()
            &&& 0 <= i < sequences.len() ==> all[i].kind == "sequence"@ && all[i].pattern
                == sequences[i]
            &&& 0 <= i < loops.len() ==> all[a + i].kind == "fixloop"@ && all[a + i].pattern
                == loops[i]
            &&& 0 <= i < intents.len() ==> all[b + i].kind == "intent"@ && all[b + i].pattern
                == intents[i]
            &&& 0 <= i < bare.len() ==> all[c + i].kind == "prompt"@ && all[c + i].pattern
                == bare[i]
        }),
{
}

/// What is chosen of each kind are its first undecided proposals, up to the limit, in
/// their order.
pub proof fn the_first_of_each_kind_are_chosen(
    p: Seq<ProposalView>,
    decided: Seq<bool>,
    limit: nat,
    i: int,
)
    requires
        p.len() == decided.len(),
        p.len() <= usize::MAX,
        0 <= i < p.len(),
    ensures
        undecided(p, decided, limit, p.len()).contains(i as usize) <==> !decided[i] && how_many(
            i as nat,
            |j: int| !decided[j] && p[j].kind == p[i].kind,
        ) < limit,
        forall|a: int, b: int|
            0 <= a < b < undecided(p, decided, limit, p.len()).len() ==> (#[trigger] undecided(
                p,
                decided,
                limit,
                p.len(),
            )[a]) < #[trigger] undecided(p, decided, limit, p.len())[b],
{
    lemma_chosen(p, decided, limit, p.len(), i);
    lemma_chosen_of_kind(p, decided, limit, i as nat, p[i].kind);
}

/// How many of a kind are chosen.
proof fn lemma_chosen_of_kind(
    p: Seq<ProposalView>,
    decided: Seq<bool>,
    limit: nat,
    n: nat,
    kind: Seq<char>,
)
    requires
        n <= p.len(),
        p.len() <= usize::MAX,
    ensures
        ({
            let open = how_many(n, |j: int| !decided[j] && p[j].kind == kind);
            kind_count(p, undecided(p, decided, limit, n), kind) == if open < limit {
                open
            } else {
                limit
            }
        }),
    decreases n,
{
    if n > 0 {
        let m = (n - 1) as nat;
        lemma_chosen_of_kind(p, decided, limit, m, kind);
        lemma_count_push(p, undecided(p, decided, limit, m), m as usize, kind);
    }
}

/// What is chosen is chosen when it is met.
proof fn lemma_chosen(
    p: Seq<ProposalView>,
    decided: Seq<bool>,
    limit: nat,
    n: nat,
    i: int,
)
    requires
        n <= p.len(),
        p.len() <= usize::MAX,
        0 <= i,
    ensures
        i < n ==> (undecided(p, decided, limit, n).contains(i as usize) <==> !decided[i]
            && kind_count(p, undecided(p, decided, limit, i as nat), p[i].kind) < limit),
        forall|k: int|
            0 <= k < undecided(p, decided, limit, n).len() ==> (#[trigger] undecided(
                p,
                decided,
                limit,
                n,
            )[k]) < n,
        forall|a: int, b: int|
            0 <= a < b < undecided(p, decided, limit, n).len() ==> (#[trigger] undecided(
                p,
                decided,
                limit,
                n,
            )[a]) < #[trigger] undecided(p, decided, limit, n)[b],
    decreases n,
{
    if n > 0 {
        let m = (n - 1) as nat;
        lemma_chosen(p, decided, limit, m, i);
        let before = undecided(p, decided, limit, m);
        let all = undecided(p, decided, limit, n);
        if i < n {
            if before.contains(i as usize) {
                let k = choose|k: int| 0 <= k < before.len() && before[k] == i as usize;
                assert(all[k] == i as usize);
            }
            if all.contains(i as usize) {
                let k = choose|k: int| 0 <= k < all.len() && all[k] == i as usize;
                if k < before.len() {
                    assert(before[k] == i as usize);
                }
            }
            if i == m && all.len() > before.len() {
                assert(all[before.len() as int] == i as usize);
            }
        }
    }
}

/// What a pattern costs is shown in whole units: a prompt at four thousand to the
/// point, anything else in seconds of four thousand or, from a minute on, in minutes.
pub proof fn costs_are_shown_in_whole_units(kind: Seq<char>, score: nat) -> (q: nat)
    ensures
        kind == "prompt"@ ==> cost_text(kind, score) == "score "@ + decimal(q),
        kind != "prompt"@ && score < 240_000 ==> cost_text(kind, score) == "~"@ + decimal(q)
            + "s by hand"@,
        kind != "prompt"@ && score >= 240_000 ==> cost_text(kind, score) == "~"@ + decimal(q)
            + " min by hand"@,
        kind == "prompt"@ || score < 240_000 ==> 4_000 * q <= score + 2_000 && score <= 4_000 * q
            + 2_000 && (4_000 * q == score + 2_000 || score == 4_000 * q + 2_000 ==> q % 2 == 0),
        kind != "prompt"@ && score >= 240_000 ==> 240_000 * q <= score + 120_000 && score <= 240_000
            * q + 120_000 && (240_000 * q == score + 120_000 || score == 240_000 * q + 120_000
            ==> q % 2 == 0),
{
    rounding_goes_to_the_nearest(score, 4_000);
    rounding_goes_to_the_nearest(score, 240_000);
    let d: nat = if kind == "prompt"@ || score < 240_000 {
        4_000
    } else {
        240_000
    };
    let q = round_half_even(score, d);
    assert((2 * q + 1) * 4_000 == 8_000 * q + 4_000);
    assert((2 * q - 1) * 4_000 == 8_000 * q - 4_000);
    assert((2 * q + 1) * 240_000 == 480_000 * q + 240_000);
    assert((2 * q - 1) * 240_000 == 480_000 * q - 240_000);
    q
}

/// The step by which a pattern is placed is its first one that is no ask.
pub proof fn the_first_step_that_is_no_ask_tells(templates: Seq<Seq<char>>)
    ensures
        match first_command(templates) {
            Some(t) => exists|i: int|
                0 <= i < templates.len() && #[trigger] templates[i] == t && !begins_with(
                    t,
                    "ask: "@,
                ) && forall|j: int|
                    0 <= j < i ==> begins_with(#[trigger] templates[j], "ask: "@),
            None => forall|j: int|
                0 <= j < templates.len() ==> begins_with(#[trigger] templates[j], "ask: "@),
        },
    decreases templates.len(),
{
    if templates.len() > 0 {
        let front = templates.drop_last();
        the_first_step_that_is_no_ask_tells(front);
        match first_command(front) {
            Some(t) => {
                let i = choose|i: int|
                    0 <= i < front.len() && #[trigger] front[i] == t && !begins_with(t, "ask: "@)
                        && forall|j: int|
                        0 <= j < i ==> begins_with(#[trigger] front[j], "ask: "@);
                assert(templates[i] == t);
                assert forall|j: int| 0 <= j < i implies begins_with(
                    #[trigger] templates[j],
                    "ask: "@,
                ) by {
                    assert(front[j] == templates[j]);
                }
            },
            None => {
                assert forall|j: int| 0 <= j < front.len() implies begins_with(
                    #[trigger] templates[j],
                    "ask: "@,
                ) by {
                    assert(front[j] == templates[j]);
                }
                assert(templates[templates.len() - 1] == templates.last());
            },
        }
    }
}

/// A project is named after the last part of a directory, whatever slashes follow it,
/// and only a directory with such a part and a step to place gives one.
pub proof fn a_project_is_the_last_part_of_its_directory(
    dir: Seq<char>,
    name: Seq<char>,
    slashes: Seq<char>,
    templates: Seq<Seq<char>>,
)
    requires
        name.len() > 0,
        forall|i: int| 0 <= i < name.len() ==> #[trigger] name[i] != '/',
        forall|i: int| 0 <= i < slashes.len() ==> #[trigger] slashes[i] == '/',
        dir.len() == 0 || dir.last() == '/',
    ensures
        project_of(dir + name + slashes) == Some(name),
        project_of(slashes) is None,
        first_command(templates) is Some ==> project_in(templates, Some(dir + name + slashes))
            == Some(name),
        first_command(templates) is None ==> project_in(templates, Some(dir)) is None,
        project_in(templates, None) is None,
{
    crate::path::slashes_at_the_end_do_not_count(dir + name, slashes);
    crate::path::slashes_at_the_end_do_not_count(Seq::empty(), slashes);
    assert(Seq::<char>::empty() + slashes =~= slashes);
    assert((dir + name).last() == name.last());
    assert(name[name.len() - 1] != '/');
    crate::path::the_last_part_follows_the_last_slash(dir, name);
}

/// What is proposed of a history is what each of the four miners finds in it: workflows,
/// fix loops, intents and, where no intent has the same ask, clusters of prompts.
pub proof fn proposals_are_what_the_miners_find(
    rows: Seq<RowView>,
    runs: Seq<RunView>,
    prompts: Seq<PromptView>,
    commands: Seq<CommandView>,
    times: Seq<TimingView>,
    x: ProposalView,
)
    ensures
        proposals_of(rows, runs, prompts, commands, times).contains(x) <==> {
            ||| x.kind == "sequence"@ && mined(rows, times).contains(x.pattern)
            ||| x.kind == "fixloop"@ && looped(runs, times).contains(x.pattern)
            ||| x.kind == "intent"@ && intended(prompts, commands, times).contains(x.pattern)
            ||| x.kind == "prompt"@ && clustered(prompts).contains(x.pattern) && forall|k: int|
                0 <= k < intended(prompts, commands, times).len() ==> (#[trigger] intended(
                    prompts,
                    commands,
                    times,
                )[k]).templates[0] != "ask: "@ + x.pattern.templates[0]
        },
{
    let (s, l) = (mined(rows, times), looped(runs, times));
    let (i, c) = (intended(prompts, commands, times), clustered(prompts));
    let b = bare_prompts(i, c);
    prompts_without_an_intent_stay(i, c, x.pattern);
    lemma_tagged("sequence"@, s, x);
    lemma_tagged("fixloop"@, l, x);
    lemma_tagged("intent"@, i, x);
    lemma_tagged("prompt"@, b, x);
    let (p, q) = (tagged("sequence"@, s), tagged("fixloop"@, l));
    let (r, t) = (tagged("intent"@, i), tagged("prompt"@, b));
    lemma_either_list(p, q, x);
    lemma_either_list(p + q, r, x);
    lemma_either_list(p + q + r, t, x);
}

/// What is tagged.
proof fn lemma_tagged(kind: Seq<char>, p: Seq<PatternView>, x: ProposalView)
    ensures
        tagged(kind, p).contains(x) <==> x.kind == kind && p.contains(x.pattern),
{
    let t = tagged(kind, p);
    if t.contains(x) {
        let k = choose|k: int| 0 <= k < t.len() && t[k] == x;
        assert(p[k] == x.pattern);
    }
    if x.kind == kind && p.contains(x.pattern) {
        let k = choose|k: int| 0 <= k < p.len() && p[k] == x.pattern;
        assert(t[k] == x);
    }
}

/// What stands in one list or the other.
proof fn lemma_either_list(a: Seq<ProposalView>, b: Seq<ProposalView>, x: ProposalView)
    ensures
        (a + b).contains(x) <==> a.contains(x) || b.contains(x),
{
    let all = a + b;
    if all.contains(x) {
        let k = choose|k: int| 0 <= k < all.len() && all[k] == x;
        if k < a.len() {
            assert(a[k] == x);
        } else {
            assert(b[k - a.len()] == x);
        }
    }
    if a.contains(x) {
        let k = choose|k: int| 0 <= k < a.len() && a[k] == x;
        assert(all[k] == x);
    }
    if b.contains(x) {
        let k = choose|k: int| 0 <= k < b.len() && b[k] == x;
        assert(all[a.len() + k] == x);
    }
}

} // verus!
