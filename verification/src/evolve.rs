//! Adoption: which decisions turned out wrong, and what can be done about them.
use crate::draft::prompt::{bare_ask, strip_ask, the_mark_is_taken_off_an_ask};
use crate::draft::reply::Revision;
use crate::mine::candidates::{key_list, read_list};
use crate::mine::prompts::{ask_recurrence_since, recurrences, AskRow};
use crate::mine::streams::{
    occurrences_since, rows_view, support_since, workflow_streams, RowView, StreamRow,
};
use crate::number::{decimal, to_decimal};
use crate::path::{file_stem, stem_of};
use crate::text::{begins_with, opt_text, same, texts};
use crate::tool::{Tool, ToolView};
use vstd::prelude::*;

verus! {

/// How often the manual steps of an unused automation must have been seen.
pub const MIN_UNADOPTED: usize = 2;

/// How often an ignored pattern must have come back.
pub const MIN_RESURFACED: usize = 4;

// ---------------------------------------------------------------------------
// Findings
// ---------------------------------------------------------------------------

/// What is wrong with a decision.
#[derive(Clone, Copy, PartialEq, Eq, Debug, Structural)]
pub enum FindingKind {
    /// Accepted, but the manual sequence goes on and the artifact is not used.
    NotAdopted,
    /// Ignored, but the pattern kept growing.
    Resurfaced,
}

/// A decision, with where history stood when it was made.
pub struct DecisionRow {
    pub pattern_id: i64,
    pub kind: String,
    pub decision: String,
    pub artifact_path: Option<String>,
    pub at_id: i64,
    pub key: String,
}

/// What a [`DecisionRow`] holds.
pub struct DecisionView {
    pub pattern_id: i64,
    pub kind: Seq<char>,
    pub decision: Seq<char>,
    pub artifact_path: Option<Seq<char>>,
    pub at_id: i64,
    pub key: Seq<char>,
}

impl View for DecisionRow {
    type V = DecisionView;

    open spec fn view(&self) -> DecisionView {
        DecisionView {
            pattern_id: self.pattern_id,
            kind: self.kind@,
            decision: self.decision@,
            artifact_path: opt_text(self.artifact_path),
            at_id: self.at_id,
            key: self.key@,
        }
    }
}

/// What a list of decisions holds.
pub open spec fn decisions_view(v: Seq<DecisionRow>) -> Seq<DecisionView> {
    Seq::new(v.len(), |i: int| v[i]@)
}

/// A decision that turned out wrong.
pub struct Finding {
    pub pattern_id: i64,
    pub kind: FindingKind,
    pub templates: Vec<String>,
    pub artifact_path: Option<String>,
    pub uses: u64,
    pub manual_since: usize,
}

/// What a [`Finding`] holds.
pub struct FindingView {
    pub pattern_id: i64,
    pub kind: FindingKind,
    pub templates: Seq<Seq<char>>,
    pub artifact_path: Option<Seq<char>>,
    pub uses: nat,
    pub manual_since: nat,
}

impl View for Finding {
    type V = FindingView;

    open spec fn view(&self) -> FindingView {
        FindingView {
            pattern_id: self.pattern_id,
            kind: self.kind,
            templates: texts(self.templates@),
            artifact_path: opt_text(self.artifact_path),
            uses: self.uses as nat,
            manual_since: self.manual_since as nat,
        }
    }
}

/// What a list of findings holds.
pub open spec fn findings_view(v: Seq<Finding>) -> Seq<FindingView> {
    Seq::new(v.len(), |i: int| v[i]@)
}

/// What is wrong with a decision, given how often its artifact was used and its
/// steps were done by hand since.
pub open spec fn fault(d: DecisionView, uses: nat, manual: nat) -> Option<FindingKind> {
    if d.decision == "accepted"@ && d.artifact_path is Some && manual >= MIN_UNADOPTED && uses == 0 {
        Some(FindingKind::NotAdopted)
    } else if d.decision == "ignored"@ && manual >= MIN_RESURFACED {
        Some(FindingKind::Resurfaced)
    } else {
        None
    }
}

/// The finding about a decision whose pattern has the given templates.
pub open spec fn finding_for(
    d: DecisionView,
    templates: Seq<Seq<char>>,
    uses: nat,
    manual: nat,
) -> Option<FindingView> {
    match fault(d, uses, manual) {
        Some(kind) => Some(
            FindingView {
                pattern_id: d.pattern_id,
                kind,
                templates,
                artifact_path: if kind == FindingKind::NotAdopted {
                    d.artifact_path
                } else {
                    None
                },
                uses: if kind == FindingKind::NotAdopted {
                    uses
                } else {
                    0
                },
                manual_since: manual,
            },
        ),
        None => None,
    }
}

/// Whether patterns of a kind are asks; the others are sequences of commands.
pub open spec fn is_ask_kind(kind: Seq<char>) -> bool {
    kind == "intent"@ || kind == "prompt"@
}

/// How often a pattern came back after a boundary: an ask by being typed again, a
/// sequence by being done again.
pub open spec fn manual_since(
    rows: Seq<RowView>,
    prompts: Seq<AskRow>,
    kind: Seq<char>,
    templates: Seq<Seq<char>>,
    at: i64,
) -> nat {
    if !is_ask_kind(kind) {
        support_since(workflow_streams(rows), templates, at)
    } else if templates.len() > 0 {
        recurrences(prompts, prompts.len(), bare_ask(templates[0]), at)
    } else {
        0
    }
}

/// Computes [`manual_since`].
pub fn count_manual(
    rows: &Vec<StreamRow>,
    prompts: &Vec<AskRow>,
    kind: &str,
    templates: &Vec<String>,
    at: i64,
) -> (r: usize)
    ensures
        r == manual_since(rows_view(rows@), prompts@, kind@, texts(templates@), at),
{
    if !(same(kind, "intent") || same(kind, "prompt")) {
        occurrences_since(rows, templates, at)
    } else if templates.len() > 0 {
        assert(texts(templates@)[0] == templates@[0]@);
        let ask = strip_ask(templates[0].as_str());
        ask_recurrence_since(prompts, ask.as_str(), at)
    } else {
        0
    }
}

/// The findings about the first `n` decisions; nothing if a pattern cannot be
/// read.
pub open spec fn findings(
    rows: Seq<RowView>,
    prompts: Seq<AskRow>,
    decisions: Seq<DecisionView>,
    uses: Seq<u64>,
    n: nat,
) -> Option<Seq<FindingView>>
    decreases n,
{
    if n == 0 {
        Some(Seq::empty())
    } else {
        let d = decisions[n - 1];
        match (findings(rows, prompts, decisions, uses, (n - 1) as nat), read_list(d.key)) {
            (Some(before), Some(t)) => match finding_for(
                d,
                t,
                uses[n - 1] as nat,
                manual_since(rows, prompts, d.kind, t, d.at_id),
            ) {
                Some(f) => Some(before.push(f)),
                None => Some(before),
            },
            _ => None,
        }
    }
}

/// The finding about a decision whose pattern has the given templates.
pub fn judge(d: &DecisionRow, templates: Vec<String>, uses: u64, manual: usize) -> (r: Option<Finding>)
    ensures
        (match r {
            Some(f) => Some(f@),
            None => None,
        }) == finding_for(d@, texts(templates@), uses as nat, manual as nat),
{
    if same(d.decision.as_str(), "accepted") {
        match &d.artifact_path {
            Some(path) => {
                if manual >= MIN_UNADOPTED && uses == 0 {
                    return Some(
                        Finding {
                            pattern_id: d.pattern_id,
                            kind: FindingKind::NotAdopted,
                            templates,
                            artifact_path: Some(path.clone()),
                            uses,
                            manual_since: manual,
                        },
                    );
                }
            },
            None => {},
        }
        proof {
            reveal_strlit("accepted");
            reveal_strlit("ignored");
            assert("accepted"@.len() != "ignored"@.len());
        }
        return None;
    }
    if same(d.decision.as_str(), "ignored") && manual >= MIN_RESURFACED {
        return Some(
            Finding {
                pattern_id: d.pattern_id,
                kind: FindingKind::Resurfaced,
                templates,
                artifact_path: None,
                uses: 0,
                manual_since: manual,
            },
        );
    }
    None
}

/// A pattern that cannot be read spoils the whole.
proof fn lemma_unreadable(
    rows: Seq<RowView>,
    prompts: Seq<AskRow>,
    decisions: Seq<DecisionView>,
    uses: Seq<u64>,
    n: nat,
    k: nat,
)
    requires
        k <= n,
        findings(rows, prompts, decisions, uses, k) is None,
    ensures
        findings(rows, prompts, decisions, uses, n) is None,
    decreases n,
{
    if k < n {
        lemma_unreadable(rows, prompts, decisions, uses, (n - 1) as nat, k);
    }
}

/// Finds the decisions that turned out wrong; nothing if the key of a pattern
/// cannot be read. The uses are those of each decision's artifact since the
/// decision.
pub fn evolve_findings(
    rows: &Vec<StreamRow>,
    prompts: &Vec<AskRow>,
    decisions: &Vec<DecisionRow>,
    uses: &Vec<u64>,
) -> (r: Option<Vec<Finding>>)
    requires
        uses@.len() == decisions@.len(),
    ensures
        (match r {
            Some(v) => Some(findings_view(v@)),
            None => None,
        }) == findings(
            rows_view(rows@),
            prompts@,
            decisions_view(decisions@),
            uses@,
            decisions@.len(),
        ),
{
    let ghost rv = rows_view(rows@);
    let ghost dv = decisions_view(decisions@);
    let mut out: Vec<Finding> = Vec::new();
    let mut i: usize = 0;
    assert(findings_view(out@) =~= Seq::<FindingView>::empty());
    while i < decisions.len()
        invariant
            i <= decisions@.len() == uses@.len(),
            rv == rows_view(rows@),
            dv == decisions_view(decisions@),
            findings(rv, prompts@, dv, uses@, i as nat) == Some(findings_view(out@)),
        decreases decisions@.len() - i,
    {
        let ghost before = findings_view(out@);
        let d = &decisions[i];
        assert(dv[i as int] == d@);
        match key_list(d.key.as_str()) {
            Some(templates) => {
                let manual = count_manual(rows, prompts, d.kind.as_str(), &templates, d.at_id);
                match judge(d, templates, uses[i], manual) {
                    Some(f) => {
                        let ghost fv = f@;
                        out.push(f);
                        assert(findings_view(out@) =~= before.push(fv));
                    },
                    None => {},
                }
            },
            None => {
                proof {
                    lemma_unreadable(rv, prompts@, dv, uses@, decisions@.len(), (i + 1) as nat);
                }
                return None;
            },
        }
        i += 1;
    }
    Some(out)
}

/// The name under which an artifact is used: its file name without extension.
pub fn artifact_name(path: &str) -> (r: String)
    ensures
        r@ == file_stem(path@),
{
    stem_of(path)
}

/// A decision is reported only with evidence: an accepted one only if its steps
/// were done by hand twice or more and its artifact never used, an ignored one
/// only if its steps came back four times or more.
pub proof fn findings_have_evidence(
    rows: Seq<RowView>,
    prompts: Seq<AskRow>,
    decisions: Seq<DecisionView>,
    uses: Seq<u64>,
    n: nat,
    k: int,
)
    requires
        findings(rows, prompts, decisions, uses, n) is Some,
        0 <= k < findings(rows, prompts, decisions, uses, n)->0.len(),
    ensures
        ({
            let f = findings(rows, prompts, decisions, uses, n)->0[k];
            match f.kind {
                FindingKind::NotAdopted => f.manual_since >= MIN_UNADOPTED && f.uses == 0
                    && f.artifact_path is Some,
                FindingKind::Resurfaced => f.manual_since >= MIN_RESURFACED,
            }
        }),
    decreases n,
{
    let before = findings(rows, prompts, decisions, uses, (n - 1) as nat);
    if k < before->0.len() {
        findings_have_evidence(rows, prompts, decisions, uses, (n - 1) as nat, k);
    }
}

/// The finding about the decision at a position, if its key can be read.
pub open spec fn finding_at(
    rows: Seq<RowView>,
    prompts: Seq<AskRow>,
    decisions: Seq<DecisionView>,
    uses: Seq<u64>,
    i: int,
) -> Option<FindingView> {
    let d = decisions[i];
    match read_list(d.key) {
        Some(t) => finding_for(
            d,
            t,
            uses[i] as nat,
            manual_since(rows, prompts, d.kind, t, d.at_id),
        ),
        None => None,
    }
}

/// The findings are those of the decisions that turned out wrong, and of no
/// others: each such decision is found, and each finding is about one.
pub proof fn every_wrong_decision_is_found(
    rows: Seq<RowView>,
    prompts: Seq<AskRow>,
    decisions: Seq<DecisionView>,
    uses: Seq<u64>,
    n: nat,
)
    requires
        findings(rows, prompts, decisions, uses, n) is Some,
    ensures
        forall|i: int|
            0 <= i < n ==> match #[trigger] finding_at(rows, prompts, decisions, uses, i) {
                Some(f) => findings(rows, prompts, decisions, uses, n)->0.contains(f),
                None => true,
            },
        forall|k: int|
            0 <= k < findings(rows, prompts, decisions, uses, n)->0.len() ==> exists|i: int|
                0 <= i < n && #[trigger] finding_at(rows, prompts, decisions, uses, i) == Some(
                    #[trigger] findings(rows, prompts, decisions, uses, n)->0[k],
                ),
    decreases n,
{
    if n > 0 {
        let m = (n - 1) as nat;
        every_wrong_decision_is_found(rows, prompts, decisions, uses, m);
        let before = findings(rows, prompts, decisions, uses, m)->0;
        let now = findings(rows, prompts, decisions, uses, n)->0;
        let last = finding_at(rows, prompts, decisions, uses, n - 1);
        assert forall|i: int| 0 <= i < n implies match #[trigger] finding_at(
            rows,
            prompts,
            decisions,
            uses,
            i,
        ) {
            Some(f) => now.contains(f),
            None => true,
        } by {
            match finding_at(rows, prompts, decisions, uses, i) {
                Some(f) => {
                    if i < m {
                        let k = choose|k: int| 0 <= k < before.len() && before[k] == f;
                        assert(now[k] == f);
                    } else {
                        assert(now[before.len() as int] == f);
                    }
                },
                None => {},
            }
        }
        assert forall|k: int| 0 <= k < now.len() implies exists|i: int|
            0 <= i < n && #[trigger] finding_at(rows, prompts, decisions, uses, i) == Some(
                #[trigger] now[k],
            ) by {
            if k < before.len() {
                assert(now[k] == before[k]);
                let i = choose|i: int|
                    0 <= i < m && #[trigger] finding_at(rows, prompts, decisions, uses, i) == Some(
                        before[k],
                    );
                assert(finding_at(rows, prompts, decisions, uses, i) == Some(now[k]));
            } else {
                assert(last == Some(now[k]));
            }
        }
    }
}

// ---------------------------------------------------------------------------
// Texts
// ---------------------------------------------------------------------------

/// The first `n` templates, indented, each on a line.
pub open spec fn indented(t: Seq<Seq<char>>, n: nat) -> Seq<char>
    decreases n,
{
    if n == 0 {
        Seq::empty()
    } else {
        indented(t, (n - 1) as nat) + "    "@ + t[n - 1] + "\n"@
    }
}

/// What is said of a finding.
pub open spec fn finding_text(f: FindingView) -> Seq<char> {
    (match f.kind {
        FindingKind::NotAdopted => "\n✗ not adopted: "@ + (match f.artifact_path {
            Some(p) => p,
            None => "?"@,
        }) + "\n  used "@ + decimal(f.uses) + "×, but you did the manual sequence "@ + decimal(
            f.manual_since,
        ) + " more time(s):\n"@,
        FindingKind::Resurfaced => "\n↩ you ignored this, but it happened "@ + decimal(
            f.manual_since,
        ) + " more time(s) since:\n"@,
    }) + indented(f.templates, f.templates.len())
}

/// What is said of a finding.
pub fn describe(f: &Finding) -> (r: String)
    ensures
        r@ == finding_text(f@),
{
    let mut out = match f.kind {
        FindingKind::NotAdopted => {
            let mut s = "\n✗ not adopted: ".to_owned();
            match &f.artifact_path {
                Some(p) => s.append(p.as_str()),
                None => s.append("?"),
            }
            s.append("\n  used ");
            s.append(to_decimal(f.uses as u128).as_str());
            s.append("×, but you did the manual sequence ");
            s.append(to_decimal(f.manual_since as u128).as_str());
            s.append(" more time(s):\n");
            s
        },
        FindingKind::Resurfaced => {
            let mut s = "\n↩ you ignored this, but it happened ".to_owned();
            s.append(to_decimal(f.manual_since as u128).as_str());
            s.append(" more time(s) since:\n");
            s
        },
    };
    let ghost head = out@;
    let ghost tv = texts(f.templates@);
    let mut i: usize = 0;
    assert(head + indented(tv, 0) =~= head);
    while i < f.templates.len()
        invariant
            i <= f.templates@.len(),
            tv == texts(f.templates@),
            out@ == head + indented(tv, i as nat),
        decreases f.templates@.len() - i,
    {
        assert(tv[i as int] == f.templates@[i as int]@);
        out.append("    ");
        out.append(f.templates[i].as_str());
        out.append("\n");
        i += 1;
        assert(out@ =~= head + indented(tv, i as nat));
    }
    out
}

// ---------------------------------------------------------------------------
// The dialogue
// ---------------------------------------------------------------------------

/// Which question is open.
#[derive(Clone, Copy, PartialEq, Eq, Debug, Structural)]
pub enum Question {
    /// What to do about an automation that is not used.
    Unused,
    /// What to do about a pattern that came back.
    CameBack,
    /// Whether to put a revision in place.
    Apply,
    /// Whether to follow the advice to retire.
    Retire,
}

/// What is done about a finding.
#[derive(Clone, Copy, PartialEq, Eq, Debug, Structural)]
pub enum Act {
    /// Nothing.
    Leave,
    /// Ask for a diagnosis.
    Diagnose,
    /// Remove the artifact and reopen the pattern.
    Retire,
    /// Reopen the pattern.
    Reopen,
    /// Write the revision in place.
    Apply,
}

/// What an answer to a question leads to.
pub open spec fn act_on(q: Question, c: char) -> Act {
    match q {
        Question::Unused => if c == 'r' {
            Act::Diagnose
        } else if c == 'x' {
            Act::Retire
        } else {
            Act::Leave
        },
        Question::CameBack => if c == 'r' {
            Act::Reopen
        } else {
            Act::Leave
        },
        Question::Apply => if c == 'a' {
            Act::Apply
        } else {
            Act::Leave
        },
        Question::Retire => if c == 'x' {
            Act::Retire
        } else {
            Act::Leave
        },
    }
}

/// What an answer to a question leads to.
pub fn answer(q: Question, c: char) -> (r: Act)
    ensures
        r == act_on(q, c),
{
    match q {
        Question::Unused => if c == 'r' {
            Act::Diagnose
        } else if c == 'x' {
            Act::Retire
        } else {
            Act::Leave
        },
        Question::CameBack => if c == 'r' {
            Act::Reopen
        } else {
            Act::Leave
        },
        Question::Apply => if c == 'a' {
            Act::Apply
        } else {
            Act::Leave
        },
        Question::Retire => if c == 'x' {
            Act::Retire
        } else {
            Act::Leave
        },
    }
}

/// The first question about a finding.
pub open spec fn first_question(kind: FindingKind) -> Question {
    match kind {
        FindingKind::NotAdopted => Question::Unused,
        FindingKind::Resurfaced => Question::CameBack,
    }
}

/// The first question about a finding.
pub fn opening(kind: FindingKind) -> (r: Question)
    ensures
        r == first_question(kind),
{
    match kind {
        FindingKind::NotAdopted => Question::Unused,
        FindingKind::Resurfaced => Question::CameBack,
    }
}

/// The question after a diagnosis.
pub fn after_diagnosis(v: &Revision) -> (r: Question)
    ensures
        r == (if v@.action == "revise"@ {
            Question::Apply
        } else {
            Question::Retire
        }),
{
    if same(v.action.as_str(), "revise") {
        Question::Apply
    } else {
        Question::Retire
    }
}

/// The words of a question.
pub open spec fn question_text(q: Question, tool: ToolView) -> Seq<char> {
    match q {
        Question::Unused => "  [r]evise with "@ + tool.command
            + " / [x] retire artifact & reopen pattern / [s]kip? "@,
        Question::CameBack => "  [r]eopen (shows in next report) / [k]eep ignored? "@,
        Question::Apply => "  [a]pply revision / [s]kip? "@,
        Question::Retire => "  [x] retire / [s]kip? "@,
    }
}

/// The words of a question.
pub fn words_of(q: Question, tool: &Tool) -> (r: String)
    ensures
        r@ == question_text(q, tool@),
{
    match q {
        Question::Unused => {
            let mut s = "  [r]evise with ".to_owned();
            s.append(tool.command.as_str());
            s.append(" / [x] retire artifact & reopen pattern / [s]kip? ");
            s
        },
        Question::CameBack => "  [r]eopen (shows in next report) / [k]eep ignored? ".to_owned(),
        Question::Apply => "  [a]pply revision / [s]kip? ".to_owned(),
        Question::Retire => "  [x] retire / [s]kip? ".to_owned(),
    }
}

// ---------------------------------------------------------------------------
// When a decision was wrong
// ---------------------------------------------------------------------------

/// What was done by hand since a decision: of an intent or a cluster of prompts, the
/// prompts typed since that are similar to its ask; of anything else, its runs since.
pub proof fn what_recurs_depends_on_the_kind(
    rows: Seq<RowView>,
    prompts: Seq<AskRow>,
    kind: Seq<char>,
    templates: Seq<Seq<char>>,
    ask: Seq<char>,
    at: i64,
)
    ensures
        kind != "intent"@ && kind != "prompt"@ ==> manual_since(rows, prompts, kind, templates, at)
            == support_since(workflow_streams(rows), templates, at),
        (kind == "intent"@ || kind == "prompt"@) ==> manual_since(
            rows,
            prompts,
            kind,
            seq!["ask: "@ + ask] + templates,
            at,
        ) == recurrences(prompts, prompts.len(), ask, at),
        (kind == "intent"@ || kind == "prompt"@) && templates.len() > 0 && !begins_with(
            templates[0],
            "ask: "@,
        ) ==> manual_since(rows, prompts, kind, templates, at) == recurrences(
            prompts,
            prompts.len(),
            templates[0],
            at,
        ),
{
    the_mark_is_taken_off_an_ask(ask);
    let t = seq!["ask: "@ + ask] + templates;
    assert(t[0] == "ask: "@ + ask);
}

/// An accepted automation is found wanting exactly when it was never used while the
/// work was done by hand twice or more, and an ignored pattern when it was done by
/// hand four times or more; the finding says how often.
pub proof fn a_wrong_decision_shows_in_what_is_done_by_hand(
    rows: Seq<RowView>,
    prompts: Seq<AskRow>,
    decisions: Seq<DecisionView>,
    uses: Seq<u64>,
    i: int,
)
    requires
        findings(rows, prompts, decisions, uses, decisions.len()) is Some,
        0 <= i < decisions.len(),
        read_list(decisions[i].key) is Some,
    ensures
        ({
            let d = decisions[i];
            let t = read_list(d.key)->0;
            let n = manual_since(rows, prompts, d.kind, t, d.at_id);
            let found = findings(rows, prompts, decisions, uses, decisions.len())->0;
            &&& d.decision == "accepted"@ && d.artifact_path is Some && uses[i] == 0 && n >= 2
                ==> found.contains(
                FindingView {
                    pattern_id: d.pattern_id,
                    kind: FindingKind::NotAdopted,
                    templates: t,
                    artifact_path: d.artifact_path,
                    uses: 0,
                    manual_since: n,
                },
            )
            &&& d.decision == "ignored"@ && n >= 4 ==> found.contains(
                FindingView {
                    pattern_id: d.pattern_id,
                    kind: FindingKind::Resurfaced,
                    templates: t,
                    artifact_path: None,
                    uses: 0,
                    manual_since: n,
                },
            )
        }),
{
    reveal_strlit("accepted");
    reveal_strlit("ignored");
    assert("accepted"@.len() != "ignored"@.len());
    every_wrong_decision_is_found(rows, prompts, decisions, uses, decisions.len());
    let f = finding_at(rows, prompts, decisions, uses, i);
}

/// Whether a finding tells of a decision.
pub open spec fn tells_of(
    f: FindingView,
    d: DecisionView,
    templates: Seq<Seq<char>>,
    uses: u64,
    n: nat,
) -> bool {
    &&& f.pattern_id == d.pattern_id
    &&& f.templates == templates
    &&& f.manual_since == n
    &&& match f.kind {
        FindingKind::NotAdopted => d.decision == "accepted"@ && d.artifact_path is Some && uses == 0
            && n >= 2 && f.artifact_path == d.artifact_path && f.uses == 0,
        FindingKind::Resurfaced => d.decision == "ignored"@ && n >= 4 && f.artifact_path is None
            && f.uses == 0,
    }
}

/// Every finding tells of a decision that was wrong, and findings are refused as a
/// whole exactly where some decision's pattern cannot be read.
pub proof fn every_finding_tells_of_a_decision(
    rows: Seq<RowView>,
    prompts: Seq<AskRow>,
    decisions: Seq<DecisionView>,
    uses: Seq<u64>,
    k: int,
)
    ensures
        findings(rows, prompts, decisions, uses, decisions.len()) is Some <==> forall|i: int|
            0 <= i < decisions.len() ==> read_list((#[trigger] decisions[i]).key) is Some,
        findings(rows, prompts, decisions, uses, decisions.len()) is Some && 0 <= k < findings(
            rows,
            prompts,
            decisions,
            uses,
            decisions.len(),
        )->0.len() ==> exists|i: int|
            0 <= i < decisions.len() && read_list((#[trigger] decisions[i]).key) is Some
                && tells_of(
                findings(rows, prompts, decisions, uses, decisions.len())->0[k],
                decisions[i],
                read_list(decisions[i].key)->0,
                uses[i],
                manual_since(
                    rows,
                    prompts,
                    decisions[i].kind,
                    read_list(decisions[i].key)->0,
                    decisions[i].at_id,
                ),
            ),
{
    lemma_all_readable(rows, prompts, decisions, uses, decisions.len());
    if findings(rows, prompts, decisions, uses, decisions.len()) is Some {
        every_wrong_decision_is_found(rows, prompts, decisions, uses, decisions.len());
        let found = findings(rows, prompts, decisions, uses, decisions.len())->0;
        if 0 <= k < found.len() {
            let i = choose|i: int|
                0 <= i < decisions.len() && #[trigger] finding_at(
                    rows,
                    prompts,
                    decisions,
                    uses,
                    i,
                ) == Some(found[k]);
            assert(read_list(decisions[i].key) is Some);
        }
    }
}

/// Findings are there when every pattern can be read.
proof fn lemma_all_readable(
    rows: Seq<RowView>,
    prompts: Seq<AskRow>,
    decisions: Seq<DecisionView>,
    uses: Seq<u64>,
    n: nat,
)
    requires
        n <= decisions.len(),
    ensures
        findings(rows, prompts, decisions, uses, n) is Some <==> forall|i: int|
            0 <= i < n ==> read_list((#[trigger] decisions[i]).key) is Some,
    decreases n,
{
    if n > 0 {
        lemma_all_readable(rows, prompts, decisions, uses, (n - 1) as nat);
        if findings(rows, prompts, decisions, uses, n) is None {
            if forall|i: int| 0 <= i < n ==> read_list((#[trigger] decisions[i]).key) is Some {
                assert(read_list(decisions[n - 1].key) is Some);
            }
        }
    }
}

/// Each act has its question and its key; every other answer leaves things as they are.
pub proof fn each_act_has_its_key(q: Question, c: char)
    ensures
        act_on(q, c) == Act::Diagnose <==> q == Question::Unused && c == 'r',
        act_on(q, c) == Act::Reopen <==> q == Question::CameBack && c == 'r',
        act_on(q, c) == Act::Retire <==> (q == Question::Unused || q == Question::Retire) && c
            == 'x',
        act_on(q, c) == Act::Apply <==> q == Question::Apply && c == 'a',
        c == 's' || c == 'k' ==> act_on(q, c) == Act::Leave,
        first_question(FindingKind::NotAdopted) == Question::Unused,
        first_question(FindingKind::Resurfaced) == Question::CameBack,
{
}

} // verus!
