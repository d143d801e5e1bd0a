//! The zsh hook: the snippet that installs it and the log it writes.
use crate::collect::zsh::{resume, resumed};
use crate::path::{below, path_below};
use crate::regexp::{compile, remove_matches, without_sequences, CSI};
use crate::text::{
    first_word, head_word, is_blank, join, joined, lines, opt_text, read_text, replace_all,
    replaced, split_lines, split_whitespace, text_in, texts, words,
};
use vstd::prelude::*;

verus! {

/// The hook that logs every command with its start, duration, exit code and
/// directory.
pub const BASE_SNIPPET: &'static str = r#"# sisyphus shell hook — `eval "$(sisyphus hook zsh)"` in ~/.zshrc
zmodload zsh/datetime 2>/dev/null
_sisyphus_log="__LOG__"
[[ -d ${_sisyphus_log:h} ]] || mkdir -p "${_sisyphus_log:h}"
_sisyphus_preexec() { _sisyphus_cmd=${1//$'\n'/ }; _sisyphus_start=$EPOCHSECONDS; }
_sisyphus_precmd() {
  local code=$?
  [[ -n $_sisyphus_cmd ]] || return 0
  print -r -- "{\"ts\":$_sisyphus_start,\"dur\":$((EPOCHSECONDS-_sisyphus_start)),\"exit\":$code,\"cwd\":${(qqq)PWD},\"cmd\":${(qqq)_sisyphus_cmd}}" >> "$_sisyphus_log"
  _sisyphus_cmd=
}
autoload -Uz add-zsh-hook
add-zsh-hook preexec _sisyphus_preexec
add-zsh-hook precmd _sisyphus_precmd"#;

/// The hook that also keeps what a failed command wrote to its error output. It
/// routes that output through a pipe, so progress bars may look plain; hence it
/// has to be asked for.
pub const ERR_SNIPPET: &'static str = r#"# sisyphus shell hook (+stderr capture) — `eval "$(sisyphus hook zsh --errors)"`
# note: routes stderr through a tee; progress bars on stderr may look plain.
# revert with plain `sisyphus hook zsh`.
zmodload zsh/datetime 2>/dev/null
_sisyphus_log="__LOG__"
_sisyphus_err="__ERR__"
[[ -d ${_sisyphus_log:h} ]] || mkdir -p "${_sisyphus_log:h}"
[[ -e $_sisyphus_err ]] || : > "$_sisyphus_err"
exec 2> >(tee -a "$_sisyphus_err" >&2)
_sisyphus_preexec() {
  _sisyphus_cmd=${1//$'\n'/ }
  _sisyphus_start=$EPOCHSECONDS
  _sisyphus_errmark=$(wc -c < "$_sisyphus_err" 2>/dev/null || echo 0)
}
_sisyphus_precmd() {
  local code=$?
  [[ -n $_sisyphus_cmd ]] || return 0
  local err=""
  (( code != 0 )) && err=$(tail -c +$((_sisyphus_errmark+1)) "$_sisyphus_err" 2>/dev/null | tr -cd '[:print:] ' | tail -c 400)
  print -r -- "{\"ts\":$_sisyphus_start,\"dur\":$((EPOCHSECONDS-_sisyphus_start)),\"exit\":$code,\"cwd\":${(qqq)PWD},\"cmd\":${(qqq)_sisyphus_cmd},\"err\":${(qqq)err}}" >> "$_sisyphus_log"
  (( $(wc -c < "$_sisyphus_err" 2>/dev/null || echo 0) > 262144 )) && : > "$_sisyphus_err"
  _sisyphus_cmd=
}
autoload -Uz add-zsh-hook
add-zsh-hook preexec _sisyphus_preexec
add-zsh-hook precmd _sisyphus_precmd"#;

/// Where the log goes, below the data directory.
pub const LOG_FILE: &'static str = "sisyphus/shell.jsonl";

/// Where error output goes, below the data directory.
pub const ERR_FILE: &'static str = "sisyphus/stderr.log";

// ---------------------------------------------------------------------------
// Paths
// ---------------------------------------------------------------------------

/// `dirs::data_dir`: the user's data directory, or the empty path. It depends on
/// the environment, so nothing is said of it.
#[verifier::external_body]
fn data_dir() -> String {
    dirs::data_dir().unwrap_or_default().to_string_lossy().into_owned()
}

/// The log of the hook, below the data directory.
pub fn log_path() -> (r: String)
    ensures
        exists|dir: Seq<char>| r@ == #[trigger] below(dir, LOG_FILE@),
{
    let dir = data_dir();
    path_below(dir.as_str(), LOG_FILE)
}

/// The file for error output, beside the log.
pub fn err_log_path() -> (r: String)
    ensures
        exists|dir: Seq<char>| r@ == #[trigger] below(dir, ERR_FILE@),
{
    let dir = data_dir();
    path_below(dir.as_str(), ERR_FILE)
}

// ---------------------------------------------------------------------------
// The snippet
// ---------------------------------------------------------------------------

/// The snippet for a data directory.
pub open spec fn snippet(dir: Seq<char>, capture_errors: bool) -> Seq<char> {
    let log = below(dir, LOG_FILE@);
    if capture_errors {
        replaced(replaced(ERR_SNIPPET@, "__LOG__"@, log), "__ERR__"@, below(dir, ERR_FILE@))
    } else {
        replaced(BASE_SNIPPET@, "__LOG__"@, log)
    }
}

/// The snippet for a data directory.
pub fn snippet_in(dir: &str, capture_errors: bool) -> (r: String)
    ensures
        r@ == snippet(dir@, capture_errors),
{
    proof {
        reveal_strlit("__LOG__");
        reveal_strlit("__ERR__");
    }
    let log = path_below(dir, LOG_FILE);
    if capture_errors {
        let err = path_below(dir, ERR_FILE);
        let s = replace_all(ERR_SNIPPET, "__LOG__", log.as_str());
        replace_all(s.as_str(), "__ERR__", err.as_str())
    } else {
        replace_all(BASE_SNIPPET, "__LOG__", log.as_str())
    }
}

/// The snippet that a user evaluates in `~/.zshrc`.
pub fn zsh_snippet(capture_errors: bool) -> (r: String)
    ensures
        exists|dir: Seq<char>| r@ == #[trigger] snippet(dir, capture_errors),
{
    let dir = data_dir();
    snippet_in(dir.as_str(), capture_errors)
}

// ---------------------------------------------------------------------------
// The log
// ---------------------------------------------------------------------------

/// Error output without what control sequences leave once their escape byte is
/// gone, and with single spaces; nothing if nothing else is left.
pub open spec fn cleaned(raw: Seq<char>) -> Option<Seq<char>> {
    let t = joined(words(without_sequences(raw)), " "@);
    if t.len() > 0 {
        Some(t)
    } else {
        None
    }
}

/// Cleans error output.
pub fn clean_err(raw: &str) -> (r: Option<String>)
    ensures
        opt_text(r) == cleaned(raw@),
{
    let re = compile(CSI);
    let bare = remove_matches(&re, raw);
    let parts = split_whitespace(bare.as_str());
    let t = join(&parts, " ");
    if is_blank(t.as_str()) {
        None
    } else {
        Some(t)
    }
}

/// A line of the log.
pub struct Entry {
    pub ts: i64,
    pub dur: i64,
    pub exit: i32,
    pub cwd: String,
    pub cmd: String,
    pub err: Option<String>,
}

/// What an [`Entry`] holds.
pub struct EntryView {
    pub ts: i64,
    pub dur: i64,
    pub exit: i32,
    pub cwd: Seq<char>,
    pub cmd: Seq<char>,
    pub err: Option<Seq<char>>,
}

impl View for Entry {
    type V = EntryView;

    open spec fn view(&self) -> EntryView {
        EntryView {
            ts: self.ts,
            dur: self.dur,
            exit: self.exit,
            cwd: self.cwd@,
            cmd: self.cmd@,
            err: opt_text(self.err),
        }
    }
}

/// A logged command as it is stored.
pub struct HookRow {
    pub raw: String,
    pub head: String,
    pub ts: i64,
    pub duration_ms: i64,
    pub cwd: String,
    pub failed: bool,
    pub error: Option<String>,
    pub seq: i64,
}

/// What a [`HookRow`] holds.
pub struct HookRowView {
    pub raw: Seq<char>,
    pub head: Seq<char>,
    pub ts: i64,
    pub duration_ms: i64,
    pub cwd: Seq<char>,
    pub failed: bool,
    pub error: Option<Seq<char>>,
    pub seq: int,
}

impl View for HookRow {
    type V = HookRowView;

    open spec fn view(&self) -> HookRowView {
        HookRowView {
            raw: self.raw@,
            head: self.head@,
            ts: self.ts,
            duration_ms: self.duration_ms,
            cwd: self.cwd@,
            failed: self.failed,
            error: opt_text(self.error),
            seq: self.seq as int,
        }
    }
}

/// The row of a logged command. Seconds become milliseconds, in the arithmetic of
/// 64 bits.
pub open spec fn hook_row(e: EntryView, seq: int) -> HookRowView {
    HookRowView {
        raw: e.cmd,
        head: first_word(e.cmd),
        ts: e.ts,
        duration_ms: e.dur.wrapping_mul(1000),
        cwd: e.cwd,
        failed: e.exit != 0,
        error: match e.err {
            Some(t) => cleaned(t),
            None => None,
        },
        seq,
    }
}

/// The lines of the bytes that were added to the log.
pub fn log_lines(bytes: &[u8]) -> (r: Vec<String>)
    ensures
        texts(r@) == lines(text_in(bytes@)),
{
    let text = read_text(bytes);
    split_lines(text.as_str())
}

/// The lines that are new in a log after a reading that stopped at `cursor` when
/// the log had `last_size` bytes.
pub open spec fn news(bytes: Seq<u8>, cursor: int, last_size: int) -> Seq<Seq<char>> {
    let new = bytes.skip(resumed(bytes.len() as int, cursor, last_size).0);
    if new.len() == 0 {
        Seq::empty()
    } else {
        lines(text_in(new))
    }
}

/// Reads what is new in a log, and gives where the next reading goes on, which is
/// also the size read.
pub fn new_lines(bytes: &[u8], cursor: i64, last_size: i64) -> (r: (Vec<String>, i64))
    requires
        bytes@.len() <= i64::MAX,
        bytes@.len() >= last_size ==> 0 <= cursor <= bytes@.len(),
    ensures
        texts(r.0@) == news(bytes@, cursor as int, last_size as int),
        r.1 == bytes@.len(),
{
    let n: usize = bytes.len();
    let at = resume(n, cursor, last_size);
    if at.offset == n {
        let none: Vec<String> = Vec::new();
        assert(texts(none@) =~= Seq::<Seq<char>>::empty());
        return (none, n as i64);
    }
    let new = vstd::slice::slice_subrange(bytes, at.offset, n);
    assert(new@ =~= bytes@.skip(at.offset as int));
    (log_lines(new), n as i64)
}

/// Reading a log again that did not change finds nothing.
pub proof fn nothing_is_read_twice(bytes: Seq<u8>)
    ensures
        news(bytes, bytes.len() as int, bytes.len() as int).len() == 0,
{
}

/// The rows of new log entries, numbered on from `last`.
pub fn number_entries(entries: &Vec<Entry>, last: i64) -> (r: Vec<HookRow>)
    requires
        last + entries@.len() <= i64::MAX,
    ensures
        r@.len() == entries@.len(),
        forall|i: int|
            0 <= i < r@.len() ==> (#[trigger] r@[i])@ == hook_row(entries@[i]@, last + 1 + i),
{
    let mut out: Vec<HookRow> = Vec::new();
    let mut seq: i64 = last;
    let mut i: usize = 0;
    while i < entries.len()
        invariant
            i <= entries@.len(),
            last + entries@.len() <= i64::MAX,
            seq == last + i,
            out@.len() == i,
            forall|k: int|
                0 <= k < i ==> (#[trigger] out@[k])@ == hook_row(entries@[k]@, last + 1 + k),
        decreases entries@.len() - i,
    {
        seq += 1;
        let e = &entries[i];
        let error = match &e.err {
            Some(t) => clean_err(t.as_str()),
            None => None,
        };
        out.push(
            HookRow {
                raw: e.cmd.clone(),
                head: head_word(e.cmd.as_str()),
                ts: e.ts,
                duration_ms: e.dur.wrapping_mul(1000),
                cwd: e.cwd.clone(),
                failed: e.exit != 0,
                error,
                seq,
            },
        );
        i += 1;
    }
    out
}

/// What a command printed is kept as its words, once the sequences that colour it are
/// gone, with one space between each two; nothing is kept where there are none.
pub proof fn what_is_kept_are_the_words(raw: Seq<char>)
    ensures
        cleaned(raw) is Some <==> words(without_sequences(raw)).len() > 0,
        cleaned(raw) is Some ==> words(cleaned(raw)->0) == words(without_sequences(raw)),
        cleaned(raw) is Some ==> cleaned(raw)->0 == joined(words(cleaned(raw)->0), " "@),
{
    let w = words(without_sequences(raw));
    crate::text::lemma_words(without_sequences(raw));
    crate::text::joined_words_fall_apart_again(w);
    if w.len() > 0 {
        let t = joined(w, " "@);
        if t.len() == 0 {
            crate::text::words_stand_between_spaces(t, t, t);
        }
    }
}

/// A command failed exactly when its exit code is not zero, and its duration is stored
/// in milliseconds.
pub proof fn a_row_tells_what_the_shell_told(e: EntryView, seq: int)
    ensures
        hook_row(e, seq).failed <==> e.exit != 0,
        0 <= 1000 * e.dur <= i64::MAX ==> hook_row(e, seq).duration_ms == 1000 * e.dur,
        hook_row(e, seq).error is Some <==> e.err is Some && words(
            without_sequences(e.err->0),
        ).len() > 0,
        hook_row(e, seq).raw == e.cmd && hook_row(e, seq).head == first_word(e.cmd),
        hook_row(e, seq).ts == e.ts && hook_row(e, seq).cwd == e.cwd && hook_row(e, seq).seq == seq,
{
    if e.err is Some {
        what_is_kept_are_the_words(e.err->0);
    }
}

/// A log that grew is read on from where reading ended, and one that shrank is read from
/// its beginning.
pub proof fn a_log_that_shrank_is_read_anew(bytes: Seq<u8>, cursor: int, last_size: int)
    requires
        0 <= cursor <= bytes.len(),
    ensures
        bytes.len() < last_size && bytes.len() > 0 ==> news(bytes, cursor, last_size) == lines(
            text_in(bytes),
        ),
        bytes.len() >= last_size && cursor < bytes.len() ==> news(bytes, cursor, last_size)
            == lines(text_in(bytes.skip(cursor))),
        bytes.len() >= last_size && cursor == bytes.len() ==> news(bytes, cursor, last_size).len()
            == 0,
{
    assert(bytes.skip(0) =~= bytes);
}

} // verus!
