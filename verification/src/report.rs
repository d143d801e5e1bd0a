//! The line-by-line report: what is printed, what answers mean, and how drafts
//! are shared among workers.
use crate::draft::reply::{Draft, DraftView};
use crate::mine::candidates::{cost_text, Candidate, CandidateView};
use crate::number::{decimal, signed_decimal, to_decimal, to_signed_decimal};
use crate::text::{
    ascii_lower, chars_of, is_space, same, texts, trim, trimmed, trimming_takes_the_space_around,
};
use crate::tool::{Tool, ToolView};
use crate::tui::view::{draw_rule, rule};
use vstd::prelude::*;

verus! {

/// How many workers draft at a time.
pub const WORKERS: usize = 3;

/// How wide the rule around a draft is.
pub const RULE: usize = 60;

// ---------------------------------------------------------------------------
// The list
// ---------------------------------------------------------------------------

/// The heading over the candidates of a kind.
pub open spec fn heading(kind: Seq<char>) -> Seq<char> {
    if kind == "sequence"@ {
        "⚡ repeated workflows"@
    } else if kind == "fixloop"@ {
        "🔁 fix-loops (execute → fail → fix → retry)"@
    } else if kind == "intent"@ {
        "💡 recurring intents (your ask + what the agent then runs)"@
    } else if kind == "prompt"@ {
        "💬 things you keep asking AI tools"@
    } else {
        kind
    }
}

/// The heading over the candidates of a kind.
fn heading_of(kind: &str) -> (r: String)
    ensures
        r@ == heading(kind@),
{
    if same(kind, "sequence") {
        "⚡ repeated workflows".to_owned()
    } else if same(kind, "fixloop") {
        "🔁 fix-loops (execute → fail → fix → retry)".to_owned()
    } else if same(kind, "intent") {
        "💡 recurring intents (your ask + what the agent then runs)".to_owned()
    } else if same(kind, "prompt") {
        "💬 things you keep asking AI tools".to_owned()
    } else {
        kind.to_owned()
    }
}

/// The lines of the first `n` templates.
pub open spec fn step_text(t: Seq<Seq<char>>, n: nat) -> Seq<char>
    decreases n,
{
    if n == 0 {
        Seq::empty()
    } else {
        step_text(t, (n - 1) as nat) + "     "@ + (if n == 1 {
            " "@
        } else {
            "→"@
        }) + " "@ + t[n - 1] + "\n"@
    }
}

/// What is printed of a candidate.
pub open spec fn entry_text(rank: nat, c: CandidateView) -> Seq<char> {
    "\n  #"@ + decimal(rank) + " (pattern "@ + signed_decimal(c.id as int) + ") — seen "@ + decimal(
        c.count,
    ) + "× · "@ + cost_text(c.kind, c.score as nat) + "\n"@ + step_text(
        c.templates,
        c.templates.len(),
    )
}

/// What a list of candidates holds.
pub open spec fn candidates_view(v: Seq<Candidate>) -> Seq<CandidateView> {
    Seq::new(v.len(), |i: int| v[i]@)
}

/// What is printed of the first `n` candidates: each under the heading of its
/// kind, which is printed where the kind changes.
pub open spec fn listing(c: Seq<CandidateView>, n: nat) -> Seq<char>
    decreases n,
{
    if n == 0 {
        Seq::empty()
    } else {
        let last = if n == 1 {
            Seq::<char>::empty()
        } else {
            c[n - 2].kind
        };
        listing(c, (n - 1) as nat) + (if c[n - 1].kind != last {
            "\n"@ + heading(c[n - 1].kind) + "\n"@
        } else {
            Seq::<char>::empty()
        }) + entry_text(n, c[n - 1])
    }
}

/// Adds what is printed of a candidate.
fn add_entry(out: &mut String, rank: usize, c: &Candidate)
    ensures
        final(out)@ == old(out)@ + entry_text(rank as nat, c@),
{
    let ghost start = out@;
    out.append("\n  #");
    out.append(to_decimal(rank as u128).as_str());
    out.append(" (pattern ");
    out.append(to_signed_decimal(c.id).as_str());
    out.append(") — seen ");
    out.append(to_decimal(c.count as u128).as_str());
    out.append("× · ");
    out.append(c.cost_label().as_str());
    out.append("\n");
    let ghost head = out@;
    let ghost tv = texts(c.templates@);
    let mut i: usize = 0;
    assert(head + step_text(tv, 0) =~= head);
    while i < c.templates.len()
        invariant
            i <= c.templates@.len(),
            tv == texts(c.templates@),
            out@ == head + step_text(tv, i as nat),
        decreases c.templates@.len() - i,
    {
        assert(tv[i as int] == c.templates@[i as int]@);
        out.append("     ");
        if i == 0 {
            out.append(" ");
        } else {
            out.append("→");
        }
        out.append(" ");
        out.append(c.templates[i].as_str());
        out.append("\n");
        i += 1;
        assert(out@ =~= head + step_text(tv, i as nat));
    }
    assert(out@ =~= start + entry_text(rank as nat, c@));
}

/// The list of candidates as it is printed.
pub fn report_text(c: &Vec<Candidate>) -> (r: String)
    ensures
        r@ == listing(candidates_view(c@), c@.len()),
{
    let ghost cv = candidates_view(c@);
    let mut out = String::new();
    let mut i: usize = 0;
    assert(out@ =~= listing(cv, 0));
    while i < c.len()
        invariant
            i <= c@.len(),
            cv == candidates_view(c@),
            out@ == listing(cv, i as nat),
        decreases c@.len() - i,
    {
        let ghost before = out@;
        let one = &c[i];
        assert(cv[i as int] == one@);
        let changed = if i == 0 {
            !crate::text::is_blank(one.kind.as_str())
        } else {
            assert(cv[i - 1] == c@[i - 1]@);
            one.kind != c[i - 1].kind
        };
        proof {
            if i == 0 {
                assert(one@.kind.len() == 0 ==> one@.kind =~= Seq::<char>::empty());
            }
        }
        if changed {
            out.append("\n");
            out.append(heading_of(one.kind.as_str()).as_str());
            out.append("\n");
        }
        add_entry(&mut out, i + 1, one);
        i += 1;
        assert(out@ =~= listing(cv, i as nat));
    }
    out
}

/// The question about a candidate.
pub fn candidate_question(rank: usize, count: usize, tool: &Tool) -> (r: String)
    ensures
        r@ == "#"@ + decimal(rank as nat) + " ("@ + decimal(count as nat)
            + "×): [d]raft with "@ + tool@.command + " / [i]gnore forever / [s]kip / [q]uit? "@,
{
    let mut out = "#".to_owned();
    out.append(to_decimal(rank as u128).as_str());
    out.append(" (");
    out.append(to_decimal(count as u128).as_str());
    out.append("×): [d]raft with ");
    out.append(tool.command.as_str());
    out.append(" / [i]gnore forever / [s]kip / [q]uit? ");
    out
}

// ---------------------------------------------------------------------------
// Answers
// ---------------------------------------------------------------------------

/// The answer that a line gives: its first character in lower case, or `s` for
/// an empty one.
pub open spec fn answer_in(line: Seq<char>) -> char {
    let t = trimmed(line);
    if t.len() > 0 {
        ascii_lower(t[0])
    } else {
        's'
    }
}

/// The lower-case form of an ASCII letter.
fn lower(c: char) -> (r: char)
    ensures
        r == ascii_lower(c),
{
    if 'A' <= c && c <= 'Z' {
        let n: u8 = c as u8 + 32;
        n as char
    } else {
        c
    }
}

/// The answer that a line gives.
pub fn ask(line: &str) -> (r: char)
    ensures
        r == answer_in(line@),
{
    let t = chars_of(trim(line).as_str());
    if t.len() > 0 {
        lower(t[0])
    } else {
        's'
    }
}

/// What is done about a candidate or its draft.
#[derive(Clone, Copy, PartialEq, Eq, Debug, Structural)]
pub enum Choice {
    Draft,
    Accept,
    Edit,
    Ignore,
    Quit,
    Skip,
}

/// What an answer about a candidate means.
pub open spec fn candidate_choice(c: char) -> Choice {
    if c == 'd' {
        Choice::Draft
    } else if c == 'i' {
        Choice::Ignore
    } else if c == 'q' {
        Choice::Quit
    } else {
        Choice::Skip
    }
}

/// What an answer about a candidate means.
pub fn choose_candidate(c: char) -> (r: Choice)
    ensures
        r == candidate_choice(c),
{
    if c == 'd' {
        Choice::Draft
    } else if c == 'i' {
        Choice::Ignore
    } else if c == 'q' {
        Choice::Quit
    } else {
        Choice::Skip
    }
}

/// What an answer about a draft means.
pub open spec fn draft_choice(c: char) -> Choice {
    if c == 'a' {
        Choice::Accept
    } else if c == 'e' {
        Choice::Edit
    } else if c == 'i' {
        Choice::Ignore
    } else {
        Choice::Skip
    }
}

/// What an answer about a draft means.
pub fn choose_draft(c: char) -> (r: Choice)
    ensures
        r == draft_choice(c),
{
    if c == 'a' {
        Choice::Accept
    } else if c == 'e' {
        Choice::Edit
    } else if c == 'i' {
        Choice::Ignore
    } else {
        Choice::Skip
    }
}

// ---------------------------------------------------------------------------
// Drafts
// ---------------------------------------------------------------------------

/// The title of a draft.
pub open spec fn title(d: DraftView) -> Seq<char> {
    d.name + " ("@ + d.kind + ") — "@ + d.summary
}

/// The title of a draft.
pub fn title_of(d: &Draft) -> (r: String)
    ensures
        r@ == title(d@),
{
    let mut out = d.name.clone();
    out.append(" (");
    out.append(d.kind.as_str());
    out.append(") — ");
    out.append(d.summary.as_str());
    out
}

/// A draft as it is printed for review.
pub open spec fn card(d: DraftView) -> Seq<char> {
    "\n── "@ + title(d) + "\n"@ + rule(RULE as nat) + "\n"@ + d.content + "\n"@ + rule(RULE as nat)
        + "\n"@
}

/// A draft as it is printed for review.
pub fn review_text(d: &Draft) -> (r: String)
    ensures
        r@ == card(d@),
{
    let line = draw_rule(RULE);
    let mut out = "\n── ".to_owned();
    out.append(title_of(d).as_str());
    out.append("\n");
    out.append(line.as_str());
    out.append("\n");
    out.append(d.content.as_str());
    out.append("\n");
    out.append(line.as_str());
    out.append("\n");
    out
}

/// The draft as it is printed without a review.
pub fn draft_text(d: &Draft) -> (r: String)
    ensures
        r@ == "── "@ + title(d@) + "\n"@ + d@.content,
{
    let mut out = "── ".to_owned();
    out.append(title_of(d).as_str());
    out.append("\n");
    out.append(d.content.as_str());
    out
}

// ---------------------------------------------------------------------------
// Drafting everything
// ---------------------------------------------------------------------------

/// Which of the first `n` prompts a worker drafts: every third, from its own
/// number on.
pub open spec fn share(w: nat, n: nat) -> Seq<usize>
    decreases n,
{
    if n == 0 {
        Seq::empty()
    } else {
        let before = share(w, (n - 1) as nat);
        if n - 1 >= w && (n - 1 - w) % (WORKERS as int) == 0 {
            before.push((n - 1) as usize)
        } else {
            before
        }
    }
}

/// Which prompts a worker drafts.
pub fn share_of(w: usize, n: usize) -> (r: Vec<usize>)
    requires
        w < WORKERS,
    ensures
        r@ == share(w as nat, n as nat),
{
    let mut out: Vec<usize> = Vec::new();
    let mut i: usize = 0;
    while i < n
        invariant
            i <= n,
            w < WORKERS,
            out@ == share(w as nat, i as nat),
        decreases n - i,
    {
        if i >= w && (i - w) % WORKERS == 0 {
            out.push(i);
        }
        i += 1;
    }
    out
}

/// Which prompts are in a share.
proof fn lemma_share(w: nat, n: nat, i: usize)
    requires
        w < WORKERS,
        n <= usize::MAX,
    ensures
        share(w, n).contains(i) <==> i < n && i as int % 3 == w,
    decreases n,
{
    if n > 0 {
        let m = (n - 1) as nat;
        let before = share(w, m);
        let now = share(w, n);
        lemma_share(w, m, i);
        assert((m >= w && (m - w) % 3 == 0) <==> m as int % 3 == w);
        if before.contains(i) {
            let k = choose|k: int| 0 <= k < before.len() && before[k] == i;
            assert(now[k] == i);
        }
        if now.len() > before.len() {
            assert(now[before.len() as int] == m as usize);
        }
        if now.contains(i) {
            let k = choose|k: int| 0 <= k < now.len() && now[k] == i;
            if k < before.len() {
                assert(before[k] == i);
            }
        }
    } else {
        assert(!share(w, n).contains(i));
    }
}

/// Every prompt is drafted by one worker and by no other.
pub proof fn every_prompt_has_one_worker(n: nat, i: usize)
    requires
        i < n <= usize::MAX,
    ensures
        share((i as int % 3) as nat, n).contains(i),
        forall|w: nat|
            w < WORKERS && #[trigger] share(w, n).contains(i) ==> w == i as int % 3,
{
    lemma_share((i as int % 3) as nat, n, i);
    assert forall|w: nat| w < WORKERS && #[trigger] share(w, n).contains(i) implies w == i as int % 3 by {
        lemma_share(w, n, i);
    }
}

/// What is printed of a draft that was installed.
pub fn installed_line(d: &Draft, path: &str) -> (r: String)
    ensures
        r@ == "✓ "@ + title(d@) + "\n    → "@ + path@,
{
    let mut out = "✓ ".to_owned();
    out.append(title_of(d).as_str());
    out.append("\n    → ");
    out.append(path);
    out
}

/// What is printed at the end.
pub fn auto_summary(ok: usize, failed: usize) -> (r: String)
    ensures
        r@ == "\n"@ + decimal(ok as nat) + " installed, "@ + decimal(failed as nat)
            + " failed — `sisyphus gain` will track adoption"@,
{
    let mut out = "\n".to_owned();
    out.append(to_decimal(ok as u128).as_str());
    out.append(" installed, ");
    out.append(to_decimal(failed as u128).as_str());
    out.append(" failed — `sisyphus gain` will track adoption");
    out
}

// ---------------------------------------------------------------------------
// Ingestion
// ---------------------------------------------------------------------------

/// What is printed after ingestion.
pub open spec fn ingested(
    zsh: nat,
    claude: nat,
    codex: nat,
    prompts: nat,
    templated: nat,
    collapsed: nat,
    tool: ToolView,
) -> Seq<char> {
    (if collapsed > 0 {
        "collapsed "@ + decimal(collapsed) + " overlapping (replayed) session file(s)\n"@
    } else {
        Seq::<char>::empty()
    }) + "ingested: "@ + decimal(zsh) + " zsh, "@ + decimal(claude) + " "@ + tool.command + ", "@
        + decimal(codex) + " codex commands; "@ + decimal(prompts) + " prompts ("@ + decimal(templated)
        + " templated)\n"@
}

/// What is printed after ingestion.
pub fn ingest_text(
    zsh: usize,
    claude: usize,
    codex: usize,
    prompts: usize,
    templated: usize,
    collapsed: usize,
    tool: &Tool,
) -> (r: String)
    ensures
        r@ == ingested(
            zsh as nat,
            claude as nat,
            codex as nat,
            prompts as nat,
            templated as nat,
            collapsed as nat,
            tool@,
        ),
{
    let mut out = String::new();
    assert(out@ =~= Seq::<char>::empty());
    if collapsed > 0 {
        out.append("collapsed ");
        out.append(to_decimal(collapsed as u128).as_str());
        out.append(" overlapping (replayed) session file(s)\n");
        assert(out@ =~= "collapsed "@ + decimal(collapsed as nat)
            + " overlapping (replayed) session file(s)\n"@);
    }
    out.append("ingested: ");
    out.append(to_decimal(zsh as u128).as_str());
    out.append(" zsh, ");
    out.append(to_decimal(claude as u128).as_str());
    out.append(" ");
    out.append(tool.command.as_str());
    out.append(", ");
    out.append(to_decimal(codex as u128).as_str());
    out.append(" codex commands; ");
    out.append(to_decimal(prompts as u128).as_str());
    out.append(" prompts (");
    out.append(to_decimal(templated as u128).as_str());
    out.append(" templated)\n");
    out
}

/// An answer is the first character behind the white space of a line, in lower case, and
/// an empty line skips.
pub proof fn an_answer_is_the_first_character(a: Seq<char>, c: char, b: Seq<char>)
    requires
        forall|i: int| 0 <= i < a.len() ==> is_space(#[trigger] a[i]),
        !is_space(c),
        b.len() > 0 ==> !is_space(b.last()),
    ensures
        answer_in(a + (seq![c] + b)) == ascii_lower(c),
        answer_in(a) == 's',
{
    let s = seq![c] + b;
    let e = Seq::<char>::empty();
    assert(s[0] == c);
    if b.len() > 0 {
        assert(s.last() == b.last());
    } else {
        assert(s.last() == c);
    }
    trimming_takes_the_space_around(a, s, e);
    assert(a + s + e =~= a + s);
    trimming_takes_the_space_around(a, e, e);
    assert(a + e + e =~= a);
}

/// Each kind of pattern has its heading where it begins, and every pattern comes under
/// its number.
pub proof fn a_heading_stands_where_a_kind_begins(c: Seq<CandidateView>, n: nat)
    requires
        0 < n < c.len(),
    ensures
        c[n as int].kind == c[n - 1].kind ==> listing(c, n + 1) == listing(c, n) + entry_text(
            n + 1,
            c[n as int],
        ),
        c[n as int].kind != c[n - 1].kind ==> listing(c, n + 1) == listing(c, n) + "\n"@ + heading(
            c[n as int].kind,
        ) + "\n"@ + entry_text(n + 1, c[n as int]),
{
    let before = listing(c, n);
    if c[n as int].kind == c[n - 1].kind {
        assert(before + Seq::<char>::empty() =~= before);
    } else {
        assert(before + ("\n"@ + heading(c[n as int].kind) + "\n"@) =~= before + "\n"@ + heading(
            c[n as int].kind,
        ) + "\n"@);
    }
}

/// Each choice has its key, and any other key skips.
pub proof fn each_choice_has_its_key(c: char)
    ensures
        candidate_choice(c) == Choice::Draft <==> c == 'd',
        candidate_choice(c) == Choice::Ignore <==> c == 'i',
        candidate_choice(c) == Choice::Quit <==> c == 'q',
        candidate_choice(c) == Choice::Skip <==> c != 'd' && c != 'i' && c != 'q',
        draft_choice(c) == Choice::Accept <==> c == 'a',
        draft_choice(c) == Choice::Edit <==> c == 'e',
        draft_choice(c) == Choice::Ignore <==> c == 'i',
        draft_choice(c) == Choice::Skip <==> c != 'a' && c != 'e' && c != 'i',
{
}

} // verus!
