//! Codex sessions: one JSON object per line.
use crate::collect::claude::{lines_view, stamp, stamp_of};
use crate::collect::outcome::{exit_code, failure_text, printed, reports_failure};
use crate::collect::record::{records_view, Record, RecordView};
use crate::json::{json_view, lemma_list_view, list_view, parse, parsed, Json, JsonView};
use crate::text::{
    begins_with, ends_with, finishes_with, first_word, head_word, join, joined, opt_text, same,
    starts_with, texts, trim, trimmed,
};
use vstd::prelude::*;

verus! {

// ---------------------------------------------------------------------------
// Commands
// ---------------------------------------------------------------------------

/// Whether a tool runs shell commands.
pub open spec fn is_shell(name: Seq<char>) -> bool {
    name == "exec_command"@ || name == "shell"@ || name == "local_shell"@ || name
        == "container.exec"@
}

/// The texts among the first `n` values.
pub open spec fn text_items(v: Seq<JsonView>, n: nat) -> Seq<Seq<char>>
    decreases n,
{
    if n == 0 {
        Seq::empty()
    } else {
        let before = text_items(v, (n - 1) as nat);
        match v[n - 1].text() {
            Some(t) => before.push(t),
            None => before,
        }
    }
}

/// The command of an argument vector: the script, where a shell is told to run
/// one; else all arguments.
pub open spec fn argv_command(parts: Seq<Seq<char>>) -> Seq<char> {
    if parts.len() == 3 && (parts[1] == "-lc"@ || parts[1] == "-c"@) {
        parts[2]
    } else {
        joined(parts, " "@)
    }
}

/// The command that the arguments of a call hold: a text under `cmd`, or an
/// argument vector under `command`.
pub open spec fn command_in(args: JsonView) -> Option<Seq<char>> {
    match args.at("cmd"@).text() {
        Some(cmd) => Some(cmd),
        None => match args.at("command"@).items() {
            Some(v) => Some(argv_command(text_items(v, v.len()))),
            None => None,
        },
    }
}

/// The text of the arguments of a call, if the call runs a shell command.
pub open spec fn shell_arguments(payload: JsonView) -> Option<Seq<char>> {
    match payload.at("name"@).text() {
        Some(name) => if is_shell(name) {
            payload.at("arguments"@).text()
        } else {
            None
        },
        None => None,
    }
}

/// The shell command of a call, if it runs one.
pub open spec fn call_command(payload: JsonView) -> Option<Seq<char>> {
    match shell_arguments(payload) {
        Some(text) => match parsed(text) {
            Some(args) => command_in(args),
            None => None,
        },
        None => None,
    }
}

/// The texts of a list.
fn collect_texts(v: &Vec<Json>) -> (r: Vec<String>)
    ensures
        texts(r@) == text_items(list_view(v@), v@.len()),
{
    let ghost lv = list_view(v@);
    proof {
        lemma_list_view(v@);
    }
    let mut out: Vec<String> = Vec::new();
    let mut i: usize = 0;
    assert(texts(out@) =~= text_items(lv, 0));
    while i < v.len()
        invariant
            i <= v@.len(),
            lv.len() == v@.len(),
            forall|k: int| 0 <= k < lv.len() ==> #[trigger] lv[k] == json_view(v@[k]),
            texts(out@) == text_items(lv, i as nat),
        decreases v@.len() - i,
    {
        let ghost now = texts(out@);
        assert(lv[i as int] == v@[i as int]@);
        match v[i].to_text() {
            Some(t) => {
                let ghost tv = t@;
                out.push(t);
                assert(texts(out@) =~= now.push(tv));
            },
            None => {},
        }
        i += 1;
    }
    out
}

/// The command that the arguments of a call hold.
pub fn command_from(args: &Json) -> (r: Option<String>)
    ensures
        opt_text(r) == command_in(args@),
{
    match args.get("cmd").to_text() {
        Some(cmd) => Some(cmd),
        None => match args.get("command").as_list() {
            Some(v) => {
                proof {
                    lemma_list_view(v@);
                }
                let parts = collect_texts(v);
                assert(texts(parts@).len() == parts@.len());
                if parts.len() == 3 && (same(parts[1].as_str(), "-lc") || same(
                    parts[1].as_str(),
                    "-c",
                )) {
                    Some(parts[2].clone())
                } else {
                    Some(join(&parts, " "))
                }
            },
            None => None,
        },
    }
}

/// The shell command of a call. Newer sessions call `exec_command` with a text;
/// older ones call `shell` with an argument vector.
pub fn extract_command(payload: &Json) -> (r: Option<String>)
    ensures
        opt_text(r) == call_command(payload@),
{
    let name = match payload.get("name").as_text() {
        Some(n) => n.as_str(),
        None => return None,
    };
    if !(same(name, "exec_command") || same(name, "shell") || same(name, "local_shell") || same(
        name,
        "container.exec",
    )) {
        return None;
    }
    match payload.get("arguments").as_text() {
        Some(text) => match parse(text.as_str()) {
            Some(args) => command_from(&args),
            None => None,
        },
        None => None,
    }
}

// ---------------------------------------------------------------------------
// Lines
// ---------------------------------------------------------------------------

/// What reading a session has gathered: the records and the working directory
/// that holds for what follows.
pub struct SessionView {
    pub records: Seq<RecordView>,
    pub cwd: Option<Seq<char>>,
}

/// The record of a command.
pub open spec fn command_record(
    cmd: Seq<char>,
    ts: Option<int>,
    cwd: Option<Seq<char>>,
    call: Option<Seq<char>>,
    line: int,
) -> RecordView {
    RecordView {
        prompt: false,
        raw: cmd,
        head: first_word(cmd),
        ts,
        cwd,
        line,
        call,
        failed: false,
        error: None,
    }
}

/// The record of a prompt.
pub open spec fn prompt_record(
    text: Seq<char>,
    ts: Option<int>,
    cwd: Option<Seq<char>>,
    line: int,
) -> RecordView {
    RecordView {
        prompt: true,
        raw: text,
        head: Seq::empty(),
        ts,
        cwd,
        line,
        call: None,
        failed: false,
        error: None,
    }
}

/// A record, marked as failed if the call ran it.
pub open spec fn marked_if(r: RecordView, call: Seq<char>, error: Option<Seq<char>>) -> RecordView {
    if r.call == Some(call) {
        RecordView { failed: true, error, ..r }
    } else {
        r
    }
}

/// Records after a call has failed: those that the call ran are marked.
pub open spec fn marked(
    v: Seq<RecordView>,
    call: Seq<char>,
    error: Option<Seq<char>>,
) -> Seq<RecordView> {
    Seq::new(v.len(), |i: int| marked_if(v[i], call, error))
}

/// What the text of a call's output reads as, if it is JSON.
pub open spec fn output_value(payload: JsonView) -> Option<JsonView> {
    match payload.at("output"@).text() {
        Some(t) => parsed(t),
        None => None,
    }
}

/// What a session holds after a line with the value `v`; `cmd` is the command
/// that its payload calls, `out` what the text of its output reads as.
pub open spec fn after_line(
    s: SessionView,
    v: JsonView,
    cmd: Option<Seq<char>>,
    out: Option<JsonView>,
    line: int,
) -> SessionView {
    let payload = v.at("payload"@);
    let ts = stamp(v);
    if v.at("type"@).is_text("session_meta"@) {
        SessionView { records: s.records, cwd: payload.at("cwd"@).text() }
    } else if v.at("type"@).is_text("response_item"@) && payload.at("type"@).is_text(
        "function_call"@,
    ) {
        match cmd {
            Some(c) => SessionView {
                records: s.records.push(
                    command_record(c, ts, s.cwd, payload.at("call_id"@).text(), line),
                ),
                cwd: s.cwd,
            },
            None => s,
        }
    } else if v.at("type"@).is_text("response_item"@) && payload.at("type"@).is_text(
        "function_call_output"@,
    ) {
        match payload.at("call_id"@).text() {
            Some(call) => if reports_failure(payload.at("output"@), out) {
                SessionView {
                    records: marked(s.records, call, failure_text(payload.at("output"@), out)),
                    cwd: s.cwd,
                }
            } else {
                s
            },
            None => s,
        }
    } else if v.at("type"@).is_text("event_msg"@) && payload.at("type"@).is_text(
        "user_message"@,
    ) {
        match payload.at("message"@).text() {
            Some(t) => if trimmed(t).len() > 0 {
                SessionView {
                    records: s.records.push(prompt_record(trimmed(t), ts, s.cwd, line)),
                    cwd: s.cwd,
                }
            } else {
                s
            },
            None => s,
        }
    } else {
        s
    }
}

/// What the first `n` lines of a session hold when reading goes on at line
/// `start`.
pub open spec fn session_after(
    lines: Seq<Option<Seq<char>>>,
    start: int,
    n: nat,
) -> SessionView
    decreases n,
{
    if n == 0 {
        SessionView { records: Seq::empty(), cwd: None }
    } else {
        let before = session_after(lines, start, (n - 1) as nat);
        if n - 1 < start {
            before
        } else {
            match lines[n - 1] {
                Some(text) => match parsed(text) {
                    Some(v) => after_line(
                        before,
                        v,
                        call_command(v.at("payload"@)),
                        output_value(v.at("payload"@)),
                        n - 1,
                    ),
                    None => before,
                },
                None => before,
            }
        }
    }
}

/// What reading a session has gathered.
pub struct Session {
    pub records: Vec<Record>,
    pub cwd: Option<String>,
}

impl View for Session {
    type V = SessionView;

    open spec fn view(&self) -> SessionView {
        SessionView { records: records_view(self.records@), cwd: opt_text(self.cwd) }
    }
}

impl Session {
    /// The working directory that holds now.
    fn current_dir(&self) -> (r: Option<String>)
        ensures
            opt_text(r) == self@.cwd,
    {
        match &self.cwd {
            Some(d) => Some(d.clone()),
            None => None,
        }
    }

    /// Marks what a call ran as failed.
    fn mark(&mut self, call: &str, error: &Option<String>)
        ensures
            final(self)@ == (SessionView {
                records: marked(old(self)@.records, call@, opt_text(*error)),
                cwd: old(self)@.cwd,
            }),
    {
        let ghost before = self@;
        let n: usize = self.records.len();
        let mut i: usize = 0;
        while i < n
            invariant
                i <= n == self.records@.len(),
                before.records.len() == n,
                self@.cwd == before.cwd,
                forall|k: int|
                    0 <= k < i ==> (#[trigger] self.records@[k])@ == marked_if(
                        before.records[k],
                        call@,
                        opt_text(*error),
                    ),
                forall|k: int|
                    i <= k < n ==> (#[trigger] self.records@[k])@ == before.records[k],
            decreases n - i,
        {
            let hit = match &self.records[i].call {
                Some(c) => same(c.as_str(), call),
                None => false,
            };
            if hit {
                self.records[i].failed = true;
                self.records[i].error = match error {
                    Some(e) => Some(e.clone()),
                    None => None,
                };
            }
            i += 1;
        }
        assert(records_view(self.records@) =~= marked(before.records, call@, opt_text(*error)));
    }

    /// Takes in a line with the value `v`.
    pub fn read(&mut self, v: &Json, line: i64)
        ensures
            final(self)@ == after_line(
                old(self)@,
                v@,
                call_command(v@.at("payload"@)),
                output_value(v@.at("payload"@)),
                line as int,
            ),
    {
        let ghost before = self@;
        let payload = v.get("payload");
        let ts = stamp_of(v);
        if v.get("type").is("session_meta") {
            self.cwd = payload.get("cwd").to_text();
        } else if v.get("type").is("response_item") && payload.get("type").is("function_call") {
            match extract_command(payload) {
                Some(cmd) => {
                    let head = head_word(cmd.as_str());
                    let cwd = self.current_dir();
                    let call = payload.get("call_id").to_text();
                    let r = Record {
                        prompt: false,
                        raw: cmd,
                        head,
                        ts,
                        cwd,
                        line,
                        call,
                        failed: false,
                        error: None,
                    };
                    let ghost rv = r@;
                    self.records.push(r);
                    assert(records_view(self.records@) =~= before.records.push(rv));
                },
                None => {},
            }
        } else if v.get("type").is("response_item") && payload.get("type").is(
            "function_call_output",
        ) {
            match payload.get("call_id").as_text() {
                Some(call) => {
                    let output = payload.get("output");
                    let value = match output.as_text() {
                        Some(t) => parse(t.as_str()),
                        None => None,
                    };
                    match exit_code(output, &value) {
                        Some(c) => {
                            if c != 0 {
                                let error = printed(output, &value);
                                self.mark(call.as_str(), &error);
                            }
                        },
                        None => {},
                    }
                },
                None => {},
            }
        } else if v.get("type").is("event_msg") && payload.get("type").is("user_message") {
            match payload.get("message").as_text() {
                Some(text) => {
                    let t = trim(text.as_str());
                    if !crate::text::is_blank(t.as_str()) {
                        let head = String::new();
                        assert(head@ =~= Seq::<char>::empty());
                        let cwd = self.current_dir();
                        let r = Record {
                            prompt: true,
                            raw: t,
                            head,
                            ts,
                            cwd,
                            line,
                            call: None,
                            failed: false,
                            error: None,
                        };
                        let ghost rv = r@;
                        self.records.push(r);
                        assert(records_view(self.records@) =~= before.records.push(rv));
                    }
                },
                None => {},
            }
        }
    }
}

/// Whether a file of this name holds a session: `rollout-*.jsonl`.
pub fn is_rollout(name: &str) -> (r: bool)
    ensures
        r == (begins_with(name@, "rollout-"@) && finishes_with(name@, ".jsonl"@)),
{
    starts_with(name, "rollout-") && ends_with(name, ".jsonl")
}

/// Reads a session from line `start` on. Lines that are no JSON are passed over.
/// The next reading goes on after the last line.
pub fn ingest_file(lines: &Vec<Option<String>>, start: i64) -> (r: (Vec<Record>, i64))
    requires
        lines@.len() <= i64::MAX,
    ensures
        records_view(r.0@) == session_after(lines_view(lines@), start as int, lines@.len()).records,
        r.1 == lines@.len(),
{
    let ghost all = lines_view(lines@);
    let mut session = Session { records: Vec::new(), cwd: None };
    let mut i: usize = 0;
    assert(session@.records =~= Seq::<RecordView>::empty());
    while i < lines.len()
        invariant
            i <= lines@.len() <= i64::MAX,
            all == lines_view(lines@),
            session@ == session_after(all, start as int, i as nat),
        decreases lines@.len() - i,
    {
        let line: i64 = i as i64;
        assert(all[i as int] == opt_text(lines@[i as int]));
        if line >= start {
            match &lines[i] {
                Some(text) => match parse(text.as_str()) {
                    Some(v) => session.read(&v, line),
                    None => {},
                },
                None => {},
            }
        }
        i += 1;
    }
    let next: i64 = lines.len() as i64;
    (session.records, next)
}

// ---------------------------------------------------------------------------
// Reading in parts
// ---------------------------------------------------------------------------

/// A record without what other lines say about it: its working directory and
/// whether its call failed.
pub open spec fn bare(r: RecordView) -> RecordView {
    RecordView { cwd: None, failed: false, error: None, ..r }
}

/// Records without what other lines say about them.
pub open spec fn all_bare(v: Seq<RecordView>) -> Seq<RecordView> {
    Seq::new(v.len(), |i: int| bare(v[i]))
}

/// Reading a session in two goes finds the records that reading it at once finds:
/// those before a line, followed by those from that line on. Only what was said on
/// the other side of that line may be missing: the working directory, and that a
/// call failed.
pub proof fn a_session_can_be_read_in_parts(lines: Seq<Option<Seq<char>>>, mid: nat, n: nat)
    requires
        mid <= n,
    ensures
        all_bare(session_after(lines, 0, n).records) == all_bare(
            session_after(lines, 0, mid).records,
        ) + all_bare(session_after(lines, mid as int, n).records),
    decreases n,
{
    let a = session_after(lines, 0, mid).records;
    if n == mid {
        nothing_is_read_twice(lines, mid);
        assert(all_bare(a) + all_bare(Seq::empty()) =~= all_bare(a));
    } else {
        a_session_can_be_read_in_parts(lines, mid, (n - 1) as nat);
        match lines[n - 1] {
            Some(text) => match parsed(text) {
                Some(v) => {
                    let cmd = call_command(v.at("payload"@));
                    let out = output_value(v.at("payload"@));
                    let whole = session_after(lines, 0, (n - 1) as nat);
                    let part = session_after(lines, mid as int, (n - 1) as nat);
                    lemma_same_record(whole, part, v, cmd, out, n - 1);
                    let w = after_line(whole, v, cmd, out, n - 1).records;
                    let q = after_line(part, v, cmd, out, n - 1).records;
                    assert(all_bare(w) =~= all_bare(a) + all_bare(q));
                },
                None => {},
            },
            None => {},
        }
    }
}

/// A line adds the same record whatever was read before, or none; only what other
/// lines say about it depends on them.
proof fn lemma_same_record(
    a: SessionView,
    b: SessionView,
    v: JsonView,
    cmd: Option<Seq<char>>,
    out: Option<JsonView>,
    line: int,
)
    ensures
        ({
            let p = all_bare(after_line(a, v, cmd, out, line).records);
            let q = all_bare(after_line(b, v, cmd, out, line).records);
            ||| p == all_bare(a.records) && q == all_bare(b.records)
            ||| exists|r: RecordView| #[trigger]
                all_bare(a.records).push(r) == p && q == all_bare(b.records).push(r)
        }),
{
    let x = after_line(a, v, cmd, out, line).records;
    let y = after_line(b, v, cmd, out, line).records;
    if x.len() > a.records.len() {
        let r = bare(x.last());
        assert(all_bare(x) =~= all_bare(a.records).push(r));
        assert(all_bare(y) =~= all_bare(b.records).push(r));
    } else {
        assert(all_bare(x) =~= all_bare(a.records));
        assert(all_bare(y) =~= all_bare(b.records));
    }
}

/// Reading on after the last line finds nothing: every line is read once.
pub proof fn nothing_is_read_twice(lines: Seq<Option<Seq<char>>>, n: nat)
    ensures
        session_after(lines, n as int, n).records == Seq::<RecordView>::empty(),
{
    lemma_nothing_new(lines, n, n);
}

/// Lines before the start hold nothing new.
proof fn lemma_nothing_new(lines: Seq<Option<Seq<char>>>, start: nat, n: nat)
    requires
        n <= start,
    ensures
        session_after(lines, start as int, n).records == Seq::<RecordView>::empty(),
    decreases n,
{
    if n > 0 {
        lemma_nothing_new(lines, start, (n - 1) as nat);
    }
}

// ---------------------------------------------------------------------------
// Failures
// ---------------------------------------------------------------------------

/// Whether a line says that a call failed.
pub open spec fn tells_failure(line: Option<Seq<char>>, call: Seq<char>) -> bool {
    match line {
        Some(text) => match parsed(text) {
            Some(v) => {
                let payload = v.at("payload"@);
                &&& v.at("type"@).is_text("response_item"@)
                &&& payload.at("type"@).is_text("function_call_output"@)
                &&& payload.at("call_id"@).is_text(call)
                &&& reports_failure(payload.at("output"@), output_value(payload))
            },
            None => false,
        },
        None => false,
    }
}

/// A command whose call is later said to have failed is marked as failed.
pub proof fn a_failed_call_marks_its_command(
    lines: Seq<Option<Seq<char>>>,
    start: int,
    n: nat,
    k: int,
    j: int,
)
    requires
        start <= j < n,
        0 <= j,
        0 <= k < session_after(lines, start, n).records.len(),
        session_after(lines, start, n).records[k].line < j,
        session_after(lines, start, n).records[k].call is Some,
        tells_failure(lines[j], session_after(lines, start, n).records[k].call->0),
    ensures
        session_after(lines, start, n).records[k].failed,
    decreases n,
{
    reveal_strlit("session_meta");
    reveal_strlit("response_item");
    reveal_strlit("function_call");
    reveal_strlit("function_call_output");
    assert("session_meta"@.len() != "response_item"@.len());
    assert("function_call"@.len() != "function_call_output"@.len());
    let before = session_after(lines, start, (n - 1) as nat);
    let now = session_after(lines, start, n);
    if k >= before.records.len() {
        assert(now.records[k].line == n - 1);
    } else {
        assert(now.records[k].call == before.records[k].call);
        assert(now.records[k].line == before.records[k].line);
        if n - 1 > j {
            a_failed_call_marks_its_command(lines, start, (n - 1) as nat, k, j);
        }
    }
}

// ---------------------------------------------------------------------------
// What a session tells
// ---------------------------------------------------------------------------

/// A list of arguments is the script behind the flag that a shell takes one with, if
/// there are just three of them, and else all of them with spaces between.
pub proof fn a_shell_runs_the_script_behind_its_flag(
    shell: Seq<char>,
    flag: Seq<char>,
    script: Seq<char>,
    parts: Seq<Seq<char>>,
)
    ensures
        flag == "-lc"@ || flag == "-c"@ ==> argv_command(seq![shell, flag, script]) == script,
        flag != "-lc"@ && flag != "-c"@ ==> argv_command(seq![shell, flag, script]) == shell + " "@
            + flag + " "@ + script,
        parts.len() != 3 ==> argv_command(parts) == joined(parts, " "@),
{
    let v = seq![shell, flag, script];
    let w = seq![shell, flag];
    assert(v.drop_last() =~= w);
    assert(w.drop_last() =~= seq![shell]);
    assert(joined(seq![shell], " "@) == shell);
    assert(joined(w, " "@) == shell + " "@ + flag);
}

/// A call is a command exactly when it goes to one of four tools, with arguments that
/// can be read and hold a command, as a text or as a list.
pub proof fn a_shell_call_holds_a_command(payload: JsonView, name: Seq<char>, text: Seq<char>)
    requires
        payload.at("name"@) == JsonView::Text(name),
        payload.at("arguments"@) == JsonView::Text(text),
    ensures
        ({
            let shell = seq!["exec_command"@, "shell"@, "local_shell"@, "container.exec"@];
            call_command(payload) is Some <==> shell.contains(name) && parsed(text) is Some && (
            parsed(text)->0.at("cmd"@).text() is Some || parsed(text)->0.at("command"@).items()
                is Some)
        }),
        call_command(payload) is Some && parsed(text)->0.at("cmd"@).text() is Some
            ==> call_command(payload) == parsed(text)->0.at("cmd"@).text(),
{
    let shell = seq!["exec_command"@, "shell"@, "local_shell"@, "container.exec"@];
    assert(shell[0] == "exec_command"@ && shell[1] == "shell"@ && shell[2] == "local_shell"@
        && shell[3] == "container.exec"@);
    assert(shell.contains(name) <==> is_shell(name));
}

/// The texts among the arguments are kept in order.
pub proof fn arguments_are_its_texts(v: Seq<JsonView>, t: Seq<char>, x: JsonView)
    ensures
        text_items(Seq::empty(), 0).len() == 0,
        text_items(v.push(JsonView::Text(t)), v.len() + 1) == text_items(v, v.len()).push(t),
        x.text() is None ==> text_items(v.push(x), v.len() + 1) == text_items(v, v.len()),
{
    lemma_items_before(v, v.push(JsonView::Text(t)), v.len());
    lemma_items_before(v, v.push(x), v.len());
}

/// The texts among the first arguments.
proof fn lemma_items_before(v: Seq<JsonView>, w: Seq<JsonView>, n: nat)
    requires
        n <= v.len(),
        n <= w.len(),
        forall|i: int| 0 <= i < n ==> #[trigger] v[i] == w[i],
    ensures
        text_items(v, n) == text_items(w, n),
    decreases n,
{
    if n > 0 {
        lemma_items_before(v, w, (n - 1) as nat);
        assert(v[n - 1] == w[n - 1]);
    }
}

/// A line never takes a record away or changes what was run or asked: it adds at most
/// one record, marks records of one call as failed, or sets the directory.
pub proof fn a_line_adds_marks_or_moves(
    s: SessionView,
    v: JsonView,
    cmd: Option<Seq<char>>,
    out: Option<JsonView>,
    line: int,
    i: int,
)
    ensures
        ({
            let after = after_line(s, v, cmd, out, line);
            let payload = v.at("payload"@);
            let item = v.at("type"@) == JsonView::Text("response_item"@);
            let called = item && payload.at("type"@) == JsonView::Text("function_call"@);
            let answered = item && payload.at("type"@) == JsonView::Text("function_call_output"@);
            let asked = v.at("type"@) == JsonView::Text("event_msg"@) && payload.at("type"@)
                == JsonView::Text("user_message"@) && payload.at("message"@).text() is Some
                && trimmed(payload.at("message"@).text()->0).len() > 0;
            let adds = (called && cmd is Some) || asked;
            &&& after.records.len() == s.records.len() + if adds {
                1int
            } else {
                0
            }
            &&& 0 <= i < s.records.len() ==> bare(after.records[i]) == bare(s.records[i])
                && after.records[i].cwd == s.records[i].cwd && ((answered && s.records[i].call
                is Some && payload.at("call_id"@) == JsonView::Text(s.records[i].call->0)
                && reports_failure(payload.at("output"@), out)) ==> after.records[i].failed
                && after.records[i].error == failure_text(payload.at("output"@), out)) && (!(
            answered && s.records[i].call is Some && payload.at("call_id"@) == JsonView::Text(
                s.records[i].call->0,
            ) && reports_failure(payload.at("output"@), out)) ==> after.records[i] == s.records[i])
            &&& called && cmd is Some ==> after.records.last() == (RecordView {
                prompt: false,
                raw: cmd->0,
                head: first_word(cmd->0),
                ts: stamp(v),
                cwd: s.cwd,
                line,
                call: payload.at("call_id"@).text(),
                failed: false,
                error: None,
            })
            &&& asked ==> after.records.last() == (RecordView {
                prompt: true,
                raw: trimmed(payload.at("message"@).text()->0),
                head: Seq::empty(),
                ts: stamp(v),
                cwd: s.cwd,
                line,
                call: None,
                failed: false,
                error: None,
            })
            &&& after.cwd == if v.at("type"@) == JsonView::Text("session_meta"@) {
                payload.at("cwd"@).text()
            } else {
                s.cwd
            }
        }),
{
    reveal_strlit("session_meta");
    reveal_strlit("response_item");
    reveal_strlit("event_msg");
    reveal_strlit("function_call");
    reveal_strlit("function_call_output");
    assert("session_meta"@.len() == 12 && "response_item"@.len() == 13 && "event_msg"@.len() == 9
        && "function_call"@.len() == 13 && "function_call_output"@.len() == 20);
}

/// A session tells what its lines from the given one on tell, one after the other.
pub proof fn a_session_goes_line_by_line(
    lines: Seq<Option<Seq<char>>>,
    start: int,
    n: nat,
)
    requires
        0 <= start <= n < lines.len(),
    ensures
        session_after(lines, start, n + 1) == (match lines[n as int] {
            Some(text) => match parsed(text) {
                Some(v) => after_line(
                    session_after(lines, start, n),
                    v,
                    call_command(v.at("payload"@)),
                    output_value(v.at("payload"@)),
                    n as int,
                ),
                None => session_after(lines, start, n),
            },
            None => session_after(lines, start, n),
        }),
        session_after(lines, start, start as nat).records.len() == 0,
{
    lemma_nothing_new(lines, start as nat, start as nat);
}

} // verus!
