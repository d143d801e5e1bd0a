//! A command or a prompt as it is stored.
use crate::collect::claude::opt_int;
use crate::text::opt_text;
use vstd::prelude::*;

verus! {

/// A command or prompt of a session. A prompt has no head. A command knows the
/// call that ran it, where the session says so, and whether that call failed.
pub struct Record {
    pub prompt: bool,
    pub raw: String,
    pub head: String,
    pub ts: Option<i64>,
    pub cwd: Option<String>,
    pub line: i64,
    pub call: Option<String>,
    pub failed: bool,
    pub error: Option<String>,
}

/// What a [`Record`] holds.
pub struct RecordView {
    pub prompt: bool,
    pub raw: Seq<char>,
    pub head: Seq<char>,
    pub ts: Option<int>,
    pub cwd: Option<Seq<char>>,
    pub line: int,
    pub call: Option<Seq<char>>,
    pub failed: bool,
    pub error: Option<Seq<char>>,
}

impl View for Record {
    type V = RecordView;

    open spec fn view(&self) -> RecordView {
        RecordView {
            prompt: self.prompt,
            raw: self.raw@,
            head: self.head@,
            ts: opt_int(self.ts),
            cwd: opt_text(self.cwd),
            line: self.line as int,
            call: opt_text(self.call),
            failed: self.failed,
            error: opt_text(self.error),
        }
    }
}

/// What a list of records holds.
pub open spec fn records_view(v: Seq<Record>) -> Seq<RecordView> {
    Seq::new(v.len(), |i: int| v[i]@)
}

} // verus!
