//! Transcripts of the drafting agent: one JSON object per line.
pub use crate::collect::iso::parse_iso;
use crate::collect::iso::iso_seconds;
use crate::count::how_many;
use crate::json::{json_view, lemma_list_view, list_view, parse, parsed, Json, JsonView};
use crate::text::{chars_of, first_word, head_word, opt_text, text_of, trim, trimmed};
use vstd::hash_map::StringHashMap;
use vstd::prelude::*;

verus! {

/// How much of an error message is kept, in characters.
pub const SNIPPET: usize = 300;

/// What is done about a line of a transcript.
pub enum Action {
    /// A command was run. The call is the number under which its result comes.
    Command {
        raw: String,
        head: String,
        ts: Option<i64>,
        cwd: Option<String>,
        call: Option<String>,
        line: i64,
    },
    /// The command of an earlier call failed.
    Failure { of: String, snippet: Option<String> },
    /// The user asked for something.
    Prompt { raw: String, ts: Option<i64>, cwd: Option<String>, line: i64 },
}

/// What an [`Action`] holds.
pub enum ActionView {
    Command {
        raw: Seq<char>,
        head: Seq<char>,
        ts: Option<int>,
        cwd: Option<Seq<char>>,
        call: Option<Seq<char>>,
        line: int,
    },
    Failure { of: Seq<char>, snippet: Option<Seq<char>> },
    Prompt { raw: Seq<char>, ts: Option<int>, cwd: Option<Seq<char>>, line: int },
}

/// An optional number.
pub open spec fn opt_int(n: Option<i64>) -> Option<int> {
    match n {
        Some(x) => Some(x as int),
        None => None,
    }
}

impl View for Action {
    type V = ActionView;

    open spec fn view(&self) -> ActionView {
        match *self {
            Action::Command { raw, head, ts, cwd, call, line } => ActionView::Command {
                raw: raw@,
                head: head@,
                ts: opt_int(ts),
                cwd: opt_text(cwd),
                call: opt_text(call),
                line: line as int,
            },
            Action::Failure { of, snippet } => ActionView::Failure {
                of: of@,
                snippet: opt_text(snippet),
            },
            Action::Prompt { raw, ts, cwd, line } => ActionView::Prompt {
                raw: raw@,
                ts: opt_int(ts),
                cwd: opt_text(cwd),
                line: line as int,
            },
        }
    }
}

/// What a list of actions holds.
pub open spec fn actions_view(v: Seq<Action>) -> Seq<ActionView> {
    Seq::new(v.len(), |i: int| v[i]@)
}

// ---------------------------------------------------------------------------
// One line
// ---------------------------------------------------------------------------

/// The time of a line.
pub open spec fn stamp(v: JsonView) -> Option<int> {
    match v.at("timestamp"@).text() {
        Some(t) => iso_seconds(t),
        None => None,
    }
}

/// The content of the message of a line.
pub open spec fn content(v: JsonView) -> JsonView {
    v.at("message"@).at("content"@)
}

/// The shell command that a block of an answer runs, if it does.
pub open spec fn shell_command(block: JsonView) -> Option<Seq<char>> {
    if block.at("type"@).is_text("tool_use"@) && block.at("name"@).is_text("Bash"@) {
        block.at("input"@).at("command"@).text()
    } else {
        None
    }
}

/// The commands of the first `n` blocks of an answer.
pub open spec fn commands_in(
    blocks: Seq<JsonView>,
    n: nat,
    ts: Option<int>,
    cwd: Option<Seq<char>>,
    line: int,
) -> Seq<ActionView>
    decreases n,
{
    if n == 0 {
        Seq::empty()
    } else {
        let before = commands_in(blocks, (n - 1) as nat, ts, cwd, line);
        let b = blocks[n - 1];
        match shell_command(b) {
            Some(cmd) => before.push(
                ActionView::Command {
                    raw: cmd,
                    head: first_word(cmd),
                    ts,
                    cwd,
                    call: b.at("id"@).text(),
                    line,
                },
            ),
            None => before,
        }
    }
}

/// The text of the first of the first `n` blocks that has one.
pub open spec fn first_text(blocks: Seq<JsonView>, n: nat) -> Option<Seq<char>>
    decreases n,
{
    if n == 0 {
        None
    } else {
        match first_text(blocks, (n - 1) as nat) {
            Some(t) => Some(t),
            None => if blocks[n - 1].at("type"@).is_text("text"@) {
                blocks[n - 1].at("text"@).text()
            } else {
                None
            },
        }
    }
}

/// The text of the first text block among the first `n`; empty if that block has
/// none.
pub open spec fn text_block(blocks: Seq<JsonView>, n: nat) -> Option<Seq<char>>
    decreases n,
{
    if n == 0 {
        None
    } else {
        match text_block(blocks, (n - 1) as nat) {
            Some(t) => Some(t),
            None => if blocks[n - 1].at("type"@).is_text("text"@) {
                match blocks[n - 1].at("text"@).text() {
                    Some(t) => Some(t),
                    None => Some(Seq::empty()),
                }
            } else {
                None
            },
        }
    }
}

/// The first characters of a text.
pub open spec fn clipped(s: Seq<char>) -> Seq<char> {
    if s.len() <= SNIPPET {
        s
    } else {
        s.take(SNIPPET as int)
    }
}

/// The message of a failed call.
pub open spec fn error_text(c: JsonView) -> Option<Seq<char>> {
    let t = match c {
        JsonView::Text(s) => Some(s),
        JsonView::List(b) => first_text(b, b.len()),
        _ => None,
    };
    match t {
        Some(s) => Some(clipped(s)),
        None => None,
    }
}

/// The call that a block reports as failed, if it does.
pub open spec fn failed_call(block: JsonView) -> Option<Seq<char>> {
    if block.at("type"@).is_text("tool_result"@) && block.at("is_error"@) == JsonView::Bool(true) {
        block.at("tool_use_id"@).text()
    } else {
        None
    }
}

/// The failures that the first `n` blocks report.
pub open spec fn failures_in(blocks: Seq<JsonView>, n: nat) -> Seq<ActionView>
    decreases n,
{
    if n == 0 {
        Seq::empty()
    } else {
        let before = failures_in(blocks, (n - 1) as nat);
        let b = blocks[n - 1];
        match failed_call(b) {
            Some(call) => before.push(
                ActionView::Failure { of: call, snippet: error_text(b.at("content"@)) },
            ),
            None => before,
        }
    }
}

/// Whether a text is an ask and no tool result, caveat or command wrapper.
pub open spec fn is_ask(t: Seq<char>) -> bool {
    t.len() > 0 && t[0] != '<' && t[0] != '['
}

/// What the user said.
pub open spec fn said(c: JsonView) -> Option<Seq<char>> {
    match c {
        JsonView::Text(s) => Some(s),
        JsonView::List(b) => text_block(b, b.len()),
        _ => None,
    }
}

/// The prompt of a line, if it holds one.
pub open spec fn prompt_in(v: JsonView, line: int) -> Seq<ActionView> {
    match said(content(v)) {
        Some(s) => if v.at("isMeta"@) != JsonView::Bool(true) && is_ask(trimmed(s)) {
            seq![
                ActionView::Prompt {
                    raw: trimmed(s),
                    ts: stamp(v),
                    cwd: v.at("cwd"@).text(),
                    line,
                },
            ]
        } else {
            Seq::empty()
        },
        None => Seq::empty(),
    }
}

/// What is done about a line that holds `v`.
pub open spec fn actions_of(v: JsonView, line: int) -> Seq<ActionView> {
    if v.at("type"@).is_text("assistant"@) {
        match content(v).items() {
            Some(blocks) => commands_in(
                blocks,
                blocks.len(),
                stamp(v),
                v.at("cwd"@).text(),
                line,
            ),
            None => Seq::empty(),
        }
    } else if v.at("type"@).is_text("user"@) {
        (match content(v).items() {
            Some(blocks) => failures_in(blocks, blocks.len()),
            None => Seq::empty(),
        }) + prompt_in(v, line)
    } else {
        Seq::empty()
    }
}

/// The time of a line.
pub(crate) fn stamp_of(v: &Json) -> (r: Option<i64>)
    ensures
        opt_int(r) == stamp(v@),
{
    match v.get("timestamp").as_text() {
        Some(t) => parse_iso(t.as_str()),
        None => None,
    }
}

/// A copy of an optional text.
fn copy_text(t: &Option<String>) -> (r: Option<String>)
    ensures
        opt_text(r) == opt_text(*t),
{
    match t {
        Some(s) => Some(s.clone()),
        None => None,
    }
}

/// The commands of an answer.
fn add_commands(
    out: &mut Vec<Action>,
    blocks: &Vec<Json>,
    ts: Option<i64>,
    cwd: &Option<String>,
    line: i64,
)
    ensures
        actions_view(final(out)@) == actions_view(old(out)@) + commands_in(
            list_view(blocks@),
            blocks@.len(),
            opt_int(ts),
            opt_text(*cwd),
            line as int,
        ),
{
    let ghost bv = list_view(blocks@);
    let ghost start = actions_view(out@);
    let ghost (tv, cv) = (opt_int(ts), opt_text(*cwd));
    proof {
        lemma_list_view(blocks@);
    }
    let mut i: usize = 0;
    assert(start + commands_in(bv, 0, tv, cv, line as int) =~= start);
    while i < blocks.len()
        invariant
            i <= blocks@.len(),
            bv.len() == blocks@.len(),
            forall|k: int| 0 <= k < bv.len() ==> #[trigger] bv[k] == json_view(blocks@[k]),
            tv == opt_int(ts),
            cv == opt_text(*cwd),
            actions_view(out@) == start + commands_in(bv, i as nat, tv, cv, line as int),
        decreases blocks@.len() - i,
    {
        let ghost now = actions_view(out@);
        let b = &blocks[i];
        assert(bv[i as int] == b@);
        if b.get("type").is("tool_use") && b.get("name").is("Bash") {
            match b.get("input").get("command").as_text() {
                Some(cmd) => {
                    let a = Action::Command {
                        raw: cmd.clone(),
                        head: head_word(cmd.as_str()),
                        ts,
                        cwd: copy_text(cwd),
                        call: b.get("id").to_text(),
                        line,
                    };
                    let ghost av = a@;
                    out.push(a);
                    assert(actions_view(out@) =~= now.push(av));
                },
                None => {},
            }
        }
        i += 1;
        assert(actions_view(out@) =~= start + commands_in(bv, i as nat, tv, cv, line as int));
    }
}

/// Later blocks do not hide an earlier text.
proof fn lemma_first_text(blocks: Seq<JsonView>, n: nat, k: nat)
    requires
        k <= n,
        first_text(blocks, k) is Some,
    ensures
        first_text(blocks, n) == first_text(blocks, k),
    decreases n,
{
    if k < n {
        lemma_first_text(blocks, (n - 1) as nat, k);
    }
}

/// Later blocks do not hide an earlier text block.
proof fn lemma_text_block(blocks: Seq<JsonView>, n: nat, k: nat)
    requires
        k <= n,
        text_block(blocks, k) is Some,
    ensures
        text_block(blocks, n) == text_block(blocks, k),
    decreases n,
{
    if k < n {
        lemma_text_block(blocks, (n - 1) as nat, k);
    }
}

/// The text of the first block that has one.
fn find_text(blocks: &Vec<Json>) -> (r: Option<String>)
    ensures
        opt_text(r) == first_text(list_view(blocks@), blocks@.len()),
{
    let ghost bv = list_view(blocks@);
    proof {
        lemma_list_view(blocks@);
    }
    let mut i: usize = 0;
    while i < blocks.len()
        invariant
            i <= blocks@.len(),
            bv.len() == blocks@.len(),
            bv == list_view(blocks@),
            forall|k: int| 0 <= k < bv.len() ==> #[trigger] bv[k] == json_view(blocks@[k]),
            first_text(bv, i as nat) is None,
        decreases blocks@.len() - i,
    {
        let b = &blocks[i];
        assert(bv[i as int] == b@);
        if b.get("type").is("text") {
            match b.get("text").to_text() {
                Some(t) => {
                    proof {
                        lemma_first_text(bv, bv.len(), (i + 1) as nat);
                    }
                    return Some(t);
                },
                None => {},
            }
        }
        i += 1;
    }
    None
}

/// The text of the first text block.
fn find_text_block(blocks: &Vec<Json>) -> (r: Option<String>)
    ensures
        opt_text(r) == text_block(list_view(blocks@), blocks@.len()),
{
    let ghost bv = list_view(blocks@);
    proof {
        lemma_list_view(blocks@);
    }
    let mut i: usize = 0;
    while i < blocks.len()
        invariant
            i <= blocks@.len(),
            bv.len() == blocks@.len(),
            bv == list_view(blocks@),
            forall|k: int| 0 <= k < bv.len() ==> #[trigger] bv[k] == json_view(blocks@[k]),
            text_block(bv, i as nat) is None,
        decreases blocks@.len() - i,
    {
        let b = &blocks[i];
        assert(bv[i as int] == b@);
        if b.get("type").is("text") {
            let t = match b.get("text").to_text() {
                Some(t) => t,
                None => {
                    let e = String::new();
                    assert(e@ =~= Seq::<char>::empty());
                    e
                },
            };
            proof {
                lemma_text_block(bv, bv.len(), (i + 1) as nat);
            }
            return Some(t);
        }
        i += 1;
    }
    None
}

/// Cuts a text to its first characters.
pub(crate) fn clip(s: &str) -> (r: String)
    ensures
        r@ == clipped(s@),
{
    let c = chars_of(s);
    let n: usize = if c.len() <= SNIPPET {
        c.len()
    } else {
        SNIPPET
    };
    assert(c@.subrange(0, n as int) =~= clipped(s@));
    text_of(&c, 0, n)
}

/// The message of a failed call.
fn error_of(c: &Json) -> (r: Option<String>)
    ensures
        opt_text(r) == error_text(c@),
{
    let t = match c {
        Json::Text(s) => Some(s.clone()),
        Json::List(b) => {
            proof {
                lemma_list_view(b@);
            }
            find_text(b)
        },
        _ => None,
    };
    match t {
        Some(s) => Some(clip(s.as_str())),
        None => None,
    }
}

/// The failures that a message reports.
fn add_failures(out: &mut Vec<Action>, blocks: &Vec<Json>)
    ensures
        actions_view(final(out)@) == actions_view(old(out)@) + failures_in(
            list_view(blocks@),
            blocks@.len(),
        ),
{
    let ghost bv = list_view(blocks@);
    let ghost start = actions_view(out@);
    proof {
        lemma_list_view(blocks@);
    }
    let mut i: usize = 0;
    assert(start + failures_in(bv, 0) =~= start);
    while i < blocks.len()
        invariant
            i <= blocks@.len(),
            bv.len() == blocks@.len(),
            forall|k: int| 0 <= k < bv.len() ==> #[trigger] bv[k] == json_view(blocks@[k]),
            actions_view(out@) == start + failures_in(bv, i as nat),
        decreases blocks@.len() - i,
    {
        let ghost now = actions_view(out@);
        let b = &blocks[i];
        assert(bv[i as int] == b@);
        if b.get("type").is("tool_result") && b.get("is_error").is_true() {
            match b.get("tool_use_id").to_text() {
                Some(call) => {
                    let a = Action::Failure { of: call, snippet: error_of(b.get("content")) };
                    let ghost av = a@;
                    out.push(a);
                    assert(actions_view(out@) =~= now.push(av));
                },
                None => {},
            }
        }
        i += 1;
        assert(actions_view(out@) =~= start + failures_in(bv, i as nat));
    }
}

/// What the user said.
fn said_in(c: &Json) -> (r: Option<String>)
    ensures
        opt_text(r) == said(c@),
{
    match c {
        Json::Text(s) => Some(s.clone()),
        Json::List(b) => {
            proof {
                lemma_list_view(b@);
            }
            find_text_block(b)
        },
        _ => None,
    }
}

/// Adds what is done about a line that holds `v`.
pub fn line_actions(out: &mut Vec<Action>, v: &Json, line: i64)
    ensures
        actions_view(final(out)@) == actions_view(old(out)@) + actions_of(v@, line as int),
{
    let ghost start = actions_view(out@);
    let ts = stamp_of(v);
    let cwd = v.get("cwd").to_text();
    let content = v.get("message").get("content");
    if v.get("type").is("assistant") {
        match content.as_list() {
            Some(blocks) => {
                proof {
                    lemma_list_view(blocks@);
                }
                add_commands(out, blocks, ts, &cwd, line);
            },
            None => {
                assert(start + Seq::<ActionView>::empty() =~= start);
            },
        }
    } else if v.get("type").is("user") {
        match content.as_list() {
            Some(blocks) => {
                proof {
                    lemma_list_view(blocks@);
                }
                add_failures(out, blocks);
            },
            None => {
                assert(start + Seq::<ActionView>::empty() =~= start);
            },
        }
        let ghost now = actions_view(out@);
        let ghost pv = prompt_in(v@, line as int);
        if !v.get("isMeta").is_true() {
            match said_in(content) {
                Some(s) => {
                    let t = trim(s.as_str());
                    let c = chars_of(t.as_str());
                    if c.len() > 0 && c[0] != '<' && c[0] != '[' {
                        let a = Action::Prompt { raw: t, ts, cwd, line };
                        let ghost av = a@;
                        out.push(a);
                        assert(actions_view(out@) =~= now.push(av));
                        assert(now.push(av) =~= now + pv);
                    }
                },
                None => {},
            }
        }
        assert(actions_view(out@) =~= now + pv);
        assert(actions_view(out@) =~= start + actions_of(v@, line as int));
    } else {
        assert(start + Seq::<ActionView>::empty() =~= start);
    }
}

// ---------------------------------------------------------------------------
// A whole file
// ---------------------------------------------------------------------------

/// The lines of a file: each a text, or nothing where it cannot be read.
pub open spec fn lines_view(v: Seq<Option<String>>) -> Seq<Option<Seq<char>>> {
    Seq::new(v.len(), |i: int| opt_text(v[i]))
}

/// What is done about the first `n` lines when reading goes on at line `start`.
pub open spec fn file_actions(
    lines: Seq<Option<Seq<char>>>,
    start: int,
    n: nat,
) -> Seq<ActionView>
    decreases n,
{
    if n == 0 {
        Seq::empty()
    } else {
        let before = file_actions(lines, start, (n - 1) as nat);
        if n - 1 < start {
            before
        } else {
            match lines[n - 1] {
                Some(text) => match parsed(text) {
                    Some(v) => before + actions_of(v, n - 1),
                    None => before,
                },
                None => before,
            }
        }
    }
}

/// Reads a transcript from line `start` on. Lines that are no JSON are passed
/// over. The next reading goes on after the last line.
pub fn ingest_file(lines: &Vec<Option<String>>, start: i64) -> (r: (Vec<Action>, i64))
    requires
        lines@.len() <= i64::MAX,
    ensures
        actions_view(r.0@) == file_actions(lines_view(lines@), start as int, lines@.len()),
        r.1 == lines@.len(),
{
    let ghost all = lines_view(lines@);
    let mut out: Vec<Action> = Vec::new();
    let mut i: usize = 0;
    assert(actions_view(out@) =~= file_actions(all, start as int, 0));
    while i < lines.len()
        invariant
            i <= lines@.len() <= i64::MAX,
            all == lines_view(lines@),
            actions_view(out@) == file_actions(all, start as int, i as nat),
        decreases lines@.len() - i,
    {
        let line: i64 = i as i64;
        assert(all[i as int] == opt_text(lines@[i as int]));
        if line >= start {
            match &lines[i] {
                Some(text) => match parse(text.as_str()) {
                    Some(v) => line_actions(&mut out, &v, line),
                    None => {},
                },
                None => {},
            }
        }
        i += 1;
    }
    let next: i64 = lines.len() as i64;
    (out, next)
}

/// Reading a file in two goes does what reading it at once does: what was read up
/// to a line, followed by what comes from that line on.
pub proof fn reading_can_be_resumed(lines: Seq<Option<Seq<char>>>, mid: nat, n: nat)
    requires
        mid <= n,
    ensures
        file_actions(lines, 0, n) == file_actions(lines, 0, mid) + file_actions(
            lines,
            mid as int,
            n,
        ),
    decreases n,
{
    if n == mid {
        nothing_is_read_twice(lines, mid);
        assert(file_actions(lines, 0, mid) + Seq::<ActionView>::empty() =~= file_actions(
            lines,
            0,
            mid,
        ));
    } else {
        reading_can_be_resumed(lines, mid, (n - 1) as nat);
        let a = file_actions(lines, 0, mid);
        let b = file_actions(lines, mid as int, (n - 1) as nat);
        match lines[n - 1] {
            Some(text) => match parsed(text) {
                Some(v) => {
                    assert((a + b) + actions_of(v, n - 1) =~= a + (b + actions_of(v, n - 1)));
                },
                None => {},
            },
            None => {},
        }
    }
}

/// Reading on after the last line does nothing: every line is read once.
pub proof fn nothing_is_read_twice(lines: Seq<Option<Seq<char>>>, n: nat)
    ensures
        file_actions(lines, n as int, n) == Seq::<ActionView>::empty(),
{
    lemma_nothing_new(lines, n, n);
}

/// Lines before the start do nothing.
proof fn lemma_nothing_new(lines: Seq<Option<Seq<char>>>, start: nat, n: nat)
    requires
        n <= start,
    ensures
        file_actions(lines, start as int, n) == Seq::<ActionView>::empty(),
    decreases n,
{
    if n > 0 {
        lemma_nothing_new(lines, start, (n - 1) as nat);
    }
}

// ---------------------------------------------------------------------------
// Calls and rows
// ---------------------------------------------------------------------------

/// The stored row of each call, so that a failure finds its command.
pub struct CallLog {
    rows: StringHashMap<i64>,
}

impl View for CallLog {
    type V = Map<Seq<char>, i64>;

    closed spec fn view(&self) -> Map<Seq<char>, i64> {
        self.rows@
    }
}

impl CallLog {
    /// A log without calls.
    pub fn new() -> (r: Self)
        ensures
            r@ == Map::<Seq<char>, i64>::empty(),
    {
        CallLog { rows: StringHashMap::new() }
    }

    /// Notes where the command of a call was stored. A command that was there
    /// before (`added` is zero) leaves no note.
    pub fn record(&mut self, call: &Option<String>, added: usize, row: i64)
        ensures
            final(self)@ == (match opt_text(*call) {
                Some(c) => if added > 0 {
                    old(self)@.insert(c, row)
                } else {
                    old(self)@
                },
                None => old(self)@,
            }),
    {
        match call {
            Some(c) => {
                if added > 0 {
                    self.rows.insert(c.clone(), row);
                }
            },
            None => {},
        }
    }

    /// The row of a call, if it was noted.
    pub fn find(&self, call: &str) -> (r: Option<i64>)
        ensures
            r == (if self@.contains_key(call@) {
                Some(self@[call@])
            } else {
                None
            }),
    {
        match self.rows.get(call) {
            Some(row) => Some(*row),
            None => None,
        }
    }
}

// ---------------------------------------------------------------------------
// What a line tells
// ---------------------------------------------------------------------------

/// Whether a block of a message runs a command in the shell.
pub open spec fn runs(block: JsonView, cmd: Seq<char>) -> bool {
    &&& block.at("type"@) == JsonView::Text("tool_use"@)
    &&& block.at("name"@) == JsonView::Text("Bash"@)
    &&& block.at("input"@).at("command"@) == JsonView::Text(cmd)
}

/// Whether a block of a message tells that a call failed.
pub open spec fn tells_failure(block: JsonView, call: Seq<char>) -> bool {
    &&& block.at("type"@) == JsonView::Text("tool_result"@)
    &&& block.at("is_error"@) == JsonView::Bool(true)
    &&& block.at("tool_use_id"@) == JsonView::Text(call)
}

/// The commands of an answer are those that its blocks run in the shell, one for each
/// such block.
pub proof fn an_answer_gives_its_shell_commands(
    v: JsonView,
    line: int,
    blocks: Seq<JsonView>,
    x: ActionView,
)
    requires
        v.at("type"@) == JsonView::Text("assistant"@),
        v.at("message"@).at("content"@) == JsonView::List(blocks),
    ensures
        actions_of(v, line).len() == how_many(
            blocks.len(),
            |i: int| exists|cmd: Seq<char>| #[trigger] runs(blocks[i], cmd),
        ),
        actions_of(v, line).contains(x) <==> exists|i: int, cmd: Seq<char>|
            0 <= i < blocks.len() && #[trigger] runs(blocks[i], cmd) && x == (ActionView::Command {
                raw: cmd,
                head: first_word(cmd),
                ts: stamp(v),
                cwd: v.at("cwd"@).text(),
                call: blocks[i].at("id"@).text(),
                line,
            }),
{
    lemma_commands(blocks, blocks.len(), stamp(v), v.at("cwd"@).text(), line, x);
}

/// The commands of the first blocks.
proof fn lemma_commands(
    blocks: Seq<JsonView>,
    n: nat,
    ts: Option<int>,
    cwd: Option<Seq<char>>,
    line: int,
    x: ActionView,
)
    requires
        n <= blocks.len(),
    ensures
        commands_in(blocks, n, ts, cwd, line).len() == how_many(
            n,
            |i: int| exists|cmd: Seq<char>| #[trigger] runs(blocks[i], cmd),
        ),
        commands_in(blocks, n, ts, cwd, line).contains(x) <==> exists|i: int, cmd: Seq<char>|
            0 <= i < n && #[trigger] runs(blocks[i], cmd) && x == (ActionView::Command {
                raw: cmd,
                head: first_word(cmd),
                ts,
                cwd,
                call: blocks[i].at("id"@).text(),
                line,
            }),
    decreases n,
{
    if n > 0 {
        let m = (n - 1) as nat;
        lemma_commands(blocks, m, ts, cwd, line, x);
        let before = commands_in(blocks, m, ts, cwd, line);
        let all = commands_in(blocks, n, ts, cwd, line);
        let b = blocks[m as int];
        if let Some(cmd) = shell_command(b) {
            assert(runs(b, cmd));
            assert(all[before.len() as int] == all.last());
        } else {
            assert(forall|cmd: Seq<char>| !#[trigger] runs(b, cmd));
        }
        if before.contains(x) {
            let k = choose|k: int| 0 <= k < before.len() && before[k] == x;
            assert(all[k] == x);
        }
        if all.contains(x) && !before.contains(x) {
            let k = choose|k: int| 0 <= k < all.len() && all[k] == x;
            if k < before.len() {
                assert(before[k] == x);
            }
            assert(runs(blocks[m as int], shell_command(b)->0));
        }
    }
}

/// What a message of the user tells are the calls that failed, with the beginning of
/// what they printed, and then what was asked.
pub proof fn a_message_tells_failures_and_what_is_asked(
    v: JsonView,
    line: int,
    blocks: Seq<JsonView>,
    x: ActionView,
)
    requires
        v.at("type"@) == JsonView::Text("user"@),
        v.at("message"@).at("content"@) == JsonView::List(blocks),
    ensures
        actions_of(v, line).contains(x) <==> prompt_in(v, line).contains(x) || exists|
            i: int,
            call: Seq<char>,
        |
            0 <= i < blocks.len() && #[trigger] tells_failure(blocks[i], call) && x == (
            ActionView::Failure { of: call, snippet: error_text(blocks[i].at("content"@)) }),
        actions_of(v, line).len() == how_many(
            blocks.len(),
            |i: int| exists|call: Seq<char>| #[trigger] tells_failure(blocks[i], call),
        ) + prompt_in(v, line).len(),
{
    reveal_strlit("assistant");
    reveal_strlit("user");
    assert("assistant"@.len() != "user"@.len());
    lemma_failures(blocks, blocks.len(), x);
    let (f, p) = (failures_in(blocks, blocks.len()), prompt_in(v, line));
    let all = f + p;
    assert(all.contains(x) <==> f.contains(x) || p.contains(x)) by {
        if all.contains(x) {
            let k = choose|k: int| 0 <= k < all.len() && all[k] == x;
            if k < f.len() {
                assert(f[k] == x);
            } else {
                assert(p[k - f.len()] == x);
            }
        }
        if f.contains(x) {
            let k = choose|k: int| 0 <= k < f.len() && f[k] == x;
            assert(all[k] == x);
        }
        if p.contains(x) {
            let k = choose|k: int| 0 <= k < p.len() && p[k] == x;
            assert(all[f.len() + k] == x);
        }
    }
}

/// The failures of the first blocks.
proof fn lemma_failures(blocks: Seq<JsonView>, n: nat, x: ActionView)
    requires
        n <= blocks.len(),
    ensures
        failures_in(blocks, n).len() == how_many(
            n,
            |i: int| exists|call: Seq<char>| #[trigger] tells_failure(blocks[i], call),
        ),
        failures_in(blocks, n).contains(x) <==> exists|i: int, call: Seq<char>|
            0 <= i < n && #[trigger] tells_failure(blocks[i], call) && x == (ActionView::Failure {
                of: call,
                snippet: error_text(blocks[i].at("content"@)),
            }),
    decreases n,
{
    if n > 0 {
        let m = (n - 1) as nat;
        lemma_failures(blocks, m, x);
        let before = failures_in(blocks, m);
        let all = failures_in(blocks, n);
        let b = blocks[m as int];
        if let Some(call) = failed_call(b) {
            assert(tells_failure(b, call));
            assert(all[before.len() as int] == all.last());
        } else {
            assert(forall|call: Seq<char>| !#[trigger] tells_failure(b, call));
        }
        if before.contains(x) {
            let k = choose|k: int| 0 <= k < before.len() && before[k] == x;
            assert(all[k] == x);
        }
        if all.contains(x) && !before.contains(x) {
            let k = choose|k: int| 0 <= k < all.len() && all[k] == x;
            if k < before.len() {
                assert(before[k] == x);
            }
            assert(tells_failure(blocks[m as int], failed_call(b)->0));
        }
    }
}

/// What was asked is what the user said, without the space around it, unless the message
/// is about the session, is empty, or begins as an insertion does.
pub proof fn what_the_user_said_is_asked(v: JsonView, line: int, s: Seq<char>)
    requires
        said(v.at("message"@).at("content"@)) == Some(s),
    ensures
        ({
            let t = trimmed(s);
            prompt_in(v, line) == if v.at("isMeta"@) != JsonView::Bool(true) && t.len() > 0 && t[0]
                != '<' && t[0] != '[' {
                seq![
                    ActionView::Prompt {
                        raw: t,
                        ts: stamp(v),
                        cwd: v.at("cwd"@).text(),
                        line,
                    },
                ]
            } else {
                Seq::empty()
            }
        }),
{
}

/// What was said in blocks is the first block of text, and what a failed call printed is
/// the first text in such a block.
pub proof fn the_first_text_counts(blocks: Seq<JsonView>, i: int, t: Seq<char>)
    requires
        0 <= i < blocks.len(),
        blocks[i].at("type"@) == JsonView::Text("text"@),
        blocks[i].at("text"@) == JsonView::Text(t),
        forall|j: int|
            0 <= j < i ==> (#[trigger] blocks[j]).at("type"@) != JsonView::Text("text"@),
    ensures
        said(JsonView::List(blocks)) == Some(t),
        error_text(JsonView::List(blocks)) == Some(clipped(t)),
        said(JsonView::Text(t)) == Some(t),
        error_text(JsonView::Text(t)) == Some(clipped(t)),
{
    lemma_no_text(blocks, i as nat);
    lemma_first_text(blocks, blocks.len(), (i + 1) as nat);
    lemma_text_block(blocks, blocks.len(), (i + 1) as nat);
}

/// No text is found before the first block of text.
proof fn lemma_no_text(blocks: Seq<JsonView>, n: nat)
    requires
        n <= blocks.len(),
        forall|j: int|
            0 <= j < n ==> (#[trigger] blocks[j]).at("type"@) != JsonView::Text("text"@),
    ensures
        first_text(blocks, n) is None,
        text_block(blocks, n) is None,
    decreases n,
{
    if n > 0 {
        lemma_no_text(blocks, (n - 1) as nat);
        assert(blocks[n - 1].at("type"@) != JsonView::Text("text"@));
    }
}

/// What is printed is clipped to its first three hundred characters.
pub proof fn a_snippet_is_the_beginning(s: Seq<char>, t: Seq<char>)
    ensures
        s.len() <= 300 ==> clipped(s) == s,
        s.len() == 300 ==> clipped(s + t) == s,
{
    let all = s + t;
    if s.len() == 300 {
        assert(all.take(300) =~= s);
        if t.len() == 0 {
            assert(all =~= s);
        }
    }
}

/// A line that is neither an answer nor a message of the user tells nothing.
pub proof fn other_lines_tell_nothing(v: JsonView, line: int)
    requires
        v.at("type"@) != JsonView::Text("assistant"@),
        v.at("type"@) != JsonView::Text("user"@),
    ensures
        actions_of(v, line).len() == 0,
{
}

/// A file tells what its lines from the given one on tell, in order and under their
/// numbers; a line that cannot be read tells nothing.
pub proof fn a_file_tells_what_its_lines_tell(
    lines: Seq<Option<Seq<char>>>,
    start: int,
    n: nat,
)
    requires
        0 <= start <= n < lines.len(),
    ensures
        file_actions(lines, start, n + 1) == file_actions(lines, start, n) + (match lines[n as int] {
            Some(text) => match parsed(text) {
                Some(v) => actions_of(v, n as int),
                None => Seq::empty(),
            },
            None => Seq::empty(),
        }),
        file_actions(lines, start, start as nat).len() == 0,
{
    lemma_nothing_new(lines, start as nat, start as nat);
    let before = file_actions(lines, start, n);
    assert(before + Seq::<ActionView>::empty() =~= before);
}

/// What earlier blocks tell comes before what later ones tell.
pub proof fn blocks_tell_in_order(
    blocks: Seq<JsonView>,
    m: nat,
    n: nat,
    ts: Option<int>,
    cwd: Option<Seq<char>>,
    line: int,
)
    requires
        m <= n,
    ensures
        commands_in(blocks, m, ts, cwd, line).is_prefix_of(commands_in(blocks, n, ts, cwd, line)),
        failures_in(blocks, m).is_prefix_of(failures_in(blocks, n)),
    decreases n,
{
    if m < n {
        blocks_tell_in_order(blocks, m, (n - 1) as nat, ts, cwd, line);
    }
}

} // verus!
