//! The zsh history file.
use crate::number::{
    decimal, decimal_reads_back, i64_value, integers_read_back, parse_i64, signed_decimal,
};
use crate::text::{
    begins_with, chars_of, find, first_index, first_word, head_word, is_ascii_digit, is_blank,
    is_space, joined, lemma_first_index, lemma_more_pieces, lemma_pieces_append,
    lemma_pieces_nonempty, parts_stand_character_by_character, pieces, read_text, split, text_in,
    text_of, texts, texts_follow_as_their_bytes_do, trim, trim_left, trimmed,
    trimming_takes_the_space_around, unbroken, Separator,
};
use vstd::prelude::*;
use vstd::utf8::{decode_utf8, valid_utf8};

verus! {

/// The byte after which zsh writes a byte with one bit changed.
pub const META: u8 = 0x83;

/// The bit that is changed.
pub const META_BIT: u8 = 0x20;

// ---------------------------------------------------------------------------
// Metafied bytes
// ---------------------------------------------------------------------------

/// The bytes that metafied bytes stand for. An escape at the very end stands for
/// nothing.
pub open spec fn unmetafied(b: Seq<u8>) -> Seq<u8>
    decreases b.len(),
{
    if b.len() == 0 {
        Seq::empty()
    } else if b[0] != META {
        seq![b[0]] + unmetafied(b.skip(1))
    } else if b.len() == 1 {
        Seq::empty()
    } else {
        seq![b[1] ^ META_BIT] + unmetafied(b.skip(2))
    }
}

/// Undoes the escaping of history bytes.
pub fn unmetafy(bytes: &[u8]) -> (r: Vec<u8>)
    ensures
        r@ == unmetafied(bytes@),
{
    let mut out: Vec<u8> = Vec::new();
    let n: usize = bytes.len();
    let mut i: usize = 0;
    assert(bytes@.skip(0) =~= bytes@);
    assert(out@ + unmetafied(bytes@) =~= unmetafied(bytes@));
    while i < n
        invariant
            i <= n == bytes@.len(),
            unmetafied(bytes@) == out@ + unmetafied(bytes@.skip(i as int)),
        decreases n - i,
    {
        let ghost rest = bytes@.skip(i as int);
        let ghost done = out@;
        if bytes[i] == META {
            if i + 1 < n {
                let b: u8 = bytes[i + 1] ^ META_BIT;
                out.push(b);
                assert(rest.skip(2) =~= bytes@.skip(i + 2));
                assert(done + (seq![b] + unmetafied(rest.skip(2))) =~= out@ + unmetafied(
                    bytes@.skip(i + 2),
                ));
                i += 2;
            } else {
                assert(bytes@.skip(n as int).len() == 0);
                assert(done + Seq::<u8>::empty() =~= done + unmetafied(bytes@.skip(n as int)));
                i = n;
            }
        } else {
            let b: u8 = bytes[i];
            out.push(b);
            assert(rest.skip(1) =~= bytes@.skip(i + 1));
            assert(done + (seq![b] + unmetafied(rest.skip(1))) =~= out@ + unmetafied(
                bytes@.skip(i + 1),
            ));
            i += 1;
        }
    }
    assert(bytes@.skip(n as int).len() == 0);
    assert(out@ + Seq::<u8>::empty() =~= out@);
    out
}

/// Bytes with those that `escaped` picks written after the escape byte.
pub open spec fn metafied(b: Seq<u8>, escaped: spec_fn(u8) -> bool) -> Seq<u8>
    decreases b.len(),
{
    if b.len() == 0 {
        Seq::empty()
    } else if escaped(b[0]) {
        seq![META, b[0] ^ META_BIT] + metafied(b.skip(1), escaped)
    } else {
        seq![b[0]] + metafied(b.skip(1), escaped)
    }
}

/// Unmetafying gives back what was metafied, whichever bytes were escaped, as
/// long as the escape byte itself was.
pub proof fn unmetafying_undoes_metafying(b: Seq<u8>, escaped: spec_fn(u8) -> bool)
    requires
        escaped(META),
    ensures
        unmetafied(metafied(b, escaped)) == b,
    decreases b.len(),
{
    let m = metafied(b, escaped);
    if b.len() > 0 {
        let x = b[0];
        let rest = metafied(b.skip(1), escaped);
        unmetafying_undoes_metafying(b.skip(1), escaped);
        assert(seq![x] + b.skip(1) =~= b);
        if escaped(x) {
            assert((x ^ 0x20u8) ^ 0x20u8 == x) by (bit_vector);
            assert(m.skip(2) =~= rest);
            assert(m[0] == META && m[1] == x ^ META_BIT);
        } else {
            assert(m.skip(1) =~= rest);
            assert(m[0] == x);
        }
    }
}

// ---------------------------------------------------------------------------
// Entries
// ---------------------------------------------------------------------------

/// A command of the history, with its start and duration where the file has
/// them.
pub struct ZshEntry {
    pub cmd: String,
    pub ts: Option<i64>,
    pub duration_ms: Option<i64>,
}

/// What a [`ZshEntry`] holds.
pub struct EntryView {
    pub cmd: Seq<char>,
    pub ts: Option<i64>,
    pub duration_ms: Option<i64>,
}

impl View for ZshEntry {
    type V = EntryView;

    open spec fn view(&self) -> EntryView {
        EntryView { cmd: self.cmd@, ts: self.ts, duration_ms: self.duration_ms }
    }
}

/// What a list of entries holds.
pub open spec fn entries_view(v: Seq<ZshEntry>) -> Seq<EntryView> {
    Seq::new(v.len(), |i: int| v[i]@)
}

/// What stands before and after the first `c`, if there is one.
pub open spec fn cut(s: Seq<char>, c: char) -> Option<(Seq<char>, Seq<char>)> {
    match first_index(s, c) {
        Some(i) => Some((s.take(i), s.skip(i + 1))),
        None => None,
    }
}

/// The times before an entry in the extended format, and the command after them.
pub open spec fn extended(line: Seq<char>) -> Option<(i64, i64, Seq<char>)> {
    if begins_with(line, ": "@) {
        match cut(line.skip(2), ';') {
            Some((meta, cmd)) => match cut(meta, ':') {
                Some((ts, dur)) => match (i64_value(trimmed(ts)), i64_value(trimmed(dur))) {
                    (Some(t), Some(d)) => Some((t, d, cmd)),
                    _ => None,
                },
                None => None,
            },
            None => None,
        }
    } else {
        None
    }
}

/// The entry of a line: `: <start>:<elapsed>;<command>`, or a bare command.
/// Seconds become milliseconds, in the arithmetic of 64 bits.
pub open spec fn entry_of(line: Seq<char>) -> EntryView {
    match extended(line) {
        Some((ts, dur, cmd)) => EntryView {
            cmd,
            ts: Some(ts),
            duration_ms: Some(dur.wrapping_mul(1000)),
        },
        None => EntryView { cmd: line, ts: None, duration_ms: None },
    }
}

/// Reads a number without the white space around it.
fn read_number(v: &Vec<char>, lo: usize, hi: usize) -> (r: Option<i64>)
    requires
        lo <= hi <= v@.len(),
    ensures
        r == i64_value(trimmed(v@.subrange(lo as int, hi as int))),
{
    let t = trim(text_of(v, lo, hi).as_str());
    parse_i64(&chars_of(t.as_str()))
}

/// Reads the times and the command of an entry in the extended format.
fn read_extended(line: &str) -> (r: Option<(i64, i64, String)>)
    ensures
        (match r {
            Some((ts, dur, cmd)) => Some((ts, dur, cmd@)),
            None => None,
        }) == extended(line@),
{
    proof {
        reveal_strlit(": ");
    }
    let c = chars_of(line);
    let n: usize = c.len();
    if n < 2 || c[0] != ':' || c[1] != ' ' {
        proof {
            if begins_with(line@, ": "@) {
                assert(line@.subrange(0, 2)[0] == line@[0]);
                assert(line@.subrange(0, 2)[1] == line@[1]);
            }
        }
        return None;
    }
    assert(line@.subrange(0, 2) =~= ": "@);
    let rest_text = text_of(&c, 2, n);
    let rest = chars_of(rest_text.as_str());
    assert(rest@ =~= line@.skip(2));
    proof {
        lemma_first_index(rest@, ';');
    }
    let semi = match find(&rest, ';') {
        Some(i) => i,
        None => return None,
    };
    let meta_text = text_of(&rest, 0, semi);
    let meta = chars_of(meta_text.as_str());
    assert(meta@ =~= rest@.take(semi as int));
    proof {
        lemma_first_index(meta@, ':');
    }
    let colon = match find(&meta, ':') {
        Some(i) => i,
        None => return None,
    };
    assert(meta@.subrange(0, colon as int) =~= meta@.take(colon as int));
    assert(meta@.subrange(colon + 1, meta@.len() as int) =~= meta@.skip(colon + 1));
    assert(rest@.subrange(semi + 1, rest@.len() as int) =~= rest@.skip(semi + 1));
    match (read_number(&meta, 0, colon), read_number(&meta, colon + 1, meta.len())) {
        (Some(ts), Some(dur)) => Some((ts, dur, text_of(&rest, semi + 1, rest.len()))),
        _ => None,
    }
}

/// Reads a line of the history.
pub fn parse_entry(line: &str) -> (r: ZshEntry)
    ensures
        r@ == entry_of(line@),
{
    match read_extended(line) {
        Some((ts, dur, cmd)) => ZshEntry {
            cmd,
            ts: Some(ts),
            duration_ms: Some(dur.wrapping_mul(1000)),
        },
        None => ZshEntry { cmd: line.to_owned(), ts: None, duration_ms: None },
    }
}

// ---------------------------------------------------------------------------
// The file
// ---------------------------------------------------------------------------

/// How many backslashes a text ends with.
pub open spec fn trailing_backslashes(s: Seq<char>) -> nat
    decreases s.len(),
{
    if s.len() > 0 && s.last() == '\\' {
        1 + trailing_backslashes(s.drop_last())
    } else {
        0
    }
}

/// The entries read so far and the command that is still going on.
pub struct ParseView {
    pub entries: Seq<EntryView>,
    pub pending: Seq<char>,
}

/// Takes in one line. An odd number of backslashes at its end escapes the line
/// feed, so that the command goes on.
pub open spec fn after_line(p: ParseView, line: Seq<char>) -> ParseView {
    let full = p.pending + line;
    if full.len() == 0 {
        p
    } else if trailing_backslashes(full) % 2 == 1 {
        ParseView { entries: p.entries, pending: full.drop_last().push('\n') }
    } else if trimmed(full).len() == 0 {
        ParseView { entries: p.entries, pending: Seq::empty() }
    } else {
        ParseView { entries: p.entries.push(entry_of(full)), pending: Seq::empty() }
    }
}

/// Takes in the first `n` lines.
pub open spec fn after_lines(lines: Seq<Seq<char>>, n: nat) -> ParseView
    decreases n,
{
    if n == 0 {
        ParseView { entries: Seq::empty(), pending: Seq::empty() }
    } else {
        after_line(after_lines(lines, (n - 1) as nat), lines[n - 1])
    }
}

/// The entries of the decoded text of a history. A command that still goes on at
/// the end is left out.
pub open spec fn entries_of(text: Seq<char>) -> Seq<EntryView> {
    let lines = pieces(text, Separator::Char('\n'));
    after_lines(lines, lines.len()).entries
}

/// Counts the backslashes at the end.
fn count_backslashes(c: &Vec<char>) -> (r: usize)
    ensures
        r == trailing_backslashes(c@),
        r <= c@.len(),
{
    let n: usize = c.len();
    let mut k: usize = 0;
    assert(c@.take(n as int) =~= c@);
    while k < n && c[n - 1 - k] == '\\'
        invariant
            k <= n == c@.len(),
            trailing_backslashes(c@) == k + trailing_backslashes(c@.take(n - k)),
        decreases n - k,
    {
        assert(c@.take(n - k).drop_last() =~= c@.take(n - k - 1));
        k += 1;
    }
    k
}

/// Reads the decoded text of a history.
pub fn parse_text(text: &str) -> (r: Vec<ZshEntry>)
    ensures
        entries_view(r@) == entries_of(text@),
{
    let lines = split(text, Separator::Char('\n'));
    let ghost lv = texts(lines@);
    let mut entries: Vec<ZshEntry> = Vec::new();
    let mut pending = String::new();
    let mut i: usize = 0;
    assert(entries_view(entries@) =~= Seq::<EntryView>::empty());
    assert(pending@ =~= Seq::<char>::empty());
    while i < lines.len()
        invariant
            i <= lines@.len(),
            lv == texts(lines@),
            entries_view(entries@) == after_lines(lv, i as nat).entries,
            pending@ == after_lines(lv, i as nat).pending,
        decreases lines@.len() - i,
    {
        let ghost before = after_lines(lv, i as nat);
        assert(lv[i as int] == lines@[i as int]@);
        let mut full = pending;
        full.append(lines[i].as_str());
        assert(full@ =~= before.pending + lv[i as int]);
        pending = String::new();
        assert(pending@ =~= Seq::<char>::empty());
        if !is_blank(full.as_str()) {
            let c = chars_of(full.as_str());
            if count_backslashes(&c) % 2 == 1 {
                pending = text_of(&c, 0, c.len() - 1);
                pending.push('\n');
                assert(pending@ =~= full@.drop_last().push('\n'));
            } else if !is_blank(trim(full.as_str()).as_str()) {
                let e = parse_entry(full.as_str());
                let ghost ev = e@;
                entries.push(e);
                assert(entries_view(entries@) =~= before.entries.push(ev));
            }
        } else {
            assert(before.pending =~= Seq::<char>::empty());
        }
        i += 1;
    }
    entries
}

/// The lines before the last line feed of a text.
pub open spec fn finished_lines(text: Seq<char>) -> Seq<Seq<char>> {
    pieces(text, Separator::Char('\n')).drop_last()
}

/// Whether a text ends with a line feed that ends a command too.
pub open spec fn settled(text: Seq<char>) -> bool {
    let lines = finished_lines(text);
    text.len() > 0 && text.last() == '\n' && after_lines(lines, lines.len()).pending.len() == 0
}

/// Text after a line feed begins a new line.
proof fn lemma_lines_of_both(a: Seq<char>, b: Seq<char>)
    requires
        a.len() > 0,
        a.last() == '\n',
    ensures
        pieces(a + b, Separator::Char('\n')) == finished_lines(a) + pieces(
            b,
            Separator::Char('\n'),
        ),
    decreases b.len(),
{
    let sep = Separator::Char('\n');
    lemma_pieces_nonempty(a, sep);
    if b.len() == 0 {
        assert(a + b =~= a);
        assert(pieces(a, sep).last() =~= Seq::<char>::empty());
        assert(pieces(a, sep) =~= finished_lines(a) + seq![Seq::<char>::empty()]);
    } else {
        lemma_lines_of_both(a, b.drop_last());
        assert((a + b).drop_last() =~= a + b.drop_last());
        let q = pieces(b.drop_last(), sep);
        lemma_pieces_nonempty(b.drop_last(), sep);
        let w = finished_lines(a) + q;
        assert(w.last() == q.last());
        if sep.holds(b.last()) {
            assert(w.push(Seq::<char>::empty()) =~= finished_lines(a) + q.push(
                Seq::<char>::empty(),
            ));
        } else {
            assert(w.drop_last().push(w.last().push(b.last())) =~= finished_lines(a)
                + q.drop_last().push(q.last().push(b.last())));
        }
    }
}

/// Lines read after others, when no command goes on, add their own entries.
proof fn lemma_more_lines(first: Seq<Seq<char>>, more: Seq<Seq<char>>, k: nat)
    requires
        after_lines(first, first.len()).pending.len() == 0,
        k <= more.len(),
    ensures
        after_lines(first + more, first.len() + k).entries == after_lines(
            first,
            first.len(),
        ).entries + after_lines(more, k).entries,
        after_lines(first + more, first.len() + k).pending == after_lines(more, k).pending,
    decreases k,
{
    let e = after_lines(first, first.len()).entries;
    if k == 0 {
        lemma_same_lines(first + more, first, first.len());
        assert(e + Seq::<EntryView>::empty() =~= e);
        assert(after_lines(first, first.len()).pending =~= Seq::<char>::empty());
    } else {
        lemma_more_lines(first, more, (k - 1) as nat);
        let b = after_lines(more, (k - 1) as nat);
        let line = more[k - 1];
        assert((first + more)[first.len() + k - 1] == line);
        let full = b.pending + line;
        assert(e + b.entries.push(entry_of(full)) =~= (e + b.entries).push(entry_of(full)));
    }
}

/// What the first lines hold does not depend on those after them.
proof fn lemma_same_lines(a: Seq<Seq<char>>, b: Seq<Seq<char>>, n: nat)
    requires
        n <= a.len(),
        n <= b.len(),
        forall|i: int| 0 <= i < n ==> a[i] == b[i],
    ensures
        after_lines(a, n) == after_lines(b, n),
    decreases n,
{
    if n > 0 {
        lemma_same_lines(a, b, (n - 1) as nat);
    }
}

/// A history can be read in parts, as long as each part but the last ends where a
/// command ends: the entries of the parts are those of the whole.
pub proof fn a_history_can_be_read_in_parts(a: Seq<char>, b: Seq<char>)
    requires
        settled(a),
    ensures
        entries_of(a + b) == entries_of(a) + entries_of(b),
{
    let sep = Separator::Char('\n');
    let first = finished_lines(a);
    let none = seq![Seq::<char>::empty()];
    lemma_lines_of_both(a, b);
    lemma_lines_of_both(a, Seq::empty());
    assert(a + Seq::<char>::empty() =~= a);
    lemma_pieces_nonempty(b, sep);
    lemma_more_lines(first, pieces(b, sep), pieces(b, sep).len());
    lemma_more_lines(first, none, 1);
    assert(pieces(Seq::<char>::empty(), sep) =~= none);
    let start = after_lines(none, 0);
    assert(start.pending + none[0] =~= Seq::<char>::empty());
    assert(after_lines(none, 1) == start);
    assert(entries_of(a) =~= after_lines(first, first.len()).entries);
}

/// The entries of the bytes of a history file.
pub open spec fn history_entries(bytes: Seq<u8>) -> Seq<EntryView> {
    entries_of(text_in(unmetafied(bytes)))
}

/// Reads the contents of a history file, plain or in the extended format.
pub fn parse(bytes: &[u8]) -> (r: Vec<ZshEntry>)
    ensures
        entries_view(r@) == history_entries(bytes@),
{
    let raw = unmetafy(bytes);
    let text = read_text(raw.as_slice());
    parse_text(text.as_str())
}

// ---------------------------------------------------------------------------
// Going on where the last reading stopped
// ---------------------------------------------------------------------------

/// Where reading goes on, and whether the file was written anew since.
#[derive(Clone, Copy)]
pub struct Resume {
    pub offset: usize,
    pub rewritten: bool,
}

/// Where reading a file of `len` bytes goes on, after one of `last_size` bytes was
/// read up to `cursor`: a file that shrank was written anew and is read from its
/// start.
pub open spec fn resumed(len: int, cursor: int, last_size: int) -> (int, bool) {
    if len < last_size {
        (0, true)
    } else {
        (cursor, false)
    }
}

/// Where reading goes on. A file that did not shrink must reach to the cursor.
pub fn resume(len: usize, cursor: i64, last_size: i64) -> (r: Resume)
    requires
        len <= i64::MAX,
        len >= last_size ==> 0 <= cursor <= len,
    ensures
        (r.offset as int, r.rewritten) == resumed(len as int, cursor as int, last_size as int),
        r.offset <= len,
{
    if (len as i64) < last_size {
        Resume { offset: 0, rewritten: true }
    } else {
        Resume { offset: cursor as usize, rewritten: false }
    }
}

/// What is new in a history file.
pub struct News {
    /// Whether the file was written anew, so that what is stored of it goes.
    pub rewritten: bool,
    /// The new entries.
    pub entries: Vec<ZshEntry>,
    /// Where the next reading goes on, and the size read; nothing new leaves both
    /// as they are.
    pub next: Option<i64>,
}

/// What [`News`] holds.
pub struct NewsView {
    pub rewritten: bool,
    pub entries: Seq<EntryView>,
    pub next: Option<int>,
}

impl View for News {
    type V = NewsView;

    open spec fn view(&self) -> NewsView {
        NewsView {
            rewritten: self.rewritten,
            entries: entries_view(self.entries@),
            next: match self.next {
                Some(n) => Some(n as int),
                None => None,
            },
        }
    }
}

/// What is new in a file after a reading that stopped at `cursor` when the file
/// had `last_size` bytes.
pub open spec fn news(bytes: Seq<u8>, cursor: int, last_size: int) -> NewsView {
    let (offset, rewritten) = resumed(bytes.len() as int, cursor, last_size);
    let new = bytes.skip(offset);
    if new.len() == 0 {
        NewsView { rewritten, entries: Seq::empty(), next: None }
    } else {
        NewsView {
            rewritten,
            entries: history_entries(new),
            next: Some(bytes.len() as int),
        }
    }
}

/// Reads what is new in a history file.
pub fn ingest(bytes: &[u8], cursor: i64, last_size: i64) -> (r: News)
    requires
        bytes@.len() <= i64::MAX,
        bytes@.len() >= last_size ==> 0 <= cursor <= bytes@.len(),
    ensures
        r@ == news(bytes@, cursor as int, last_size as int),
{
    let n: usize = bytes.len();
    let at = resume(n, cursor, last_size);
    if at.offset == n {
        let none: Vec<ZshEntry> = Vec::new();
        assert(entries_view(none@) =~= Seq::<EntryView>::empty());
        return News { rewritten: at.rewritten, entries: none, next: None };
    }
    let new = vstd::slice::slice_subrange(bytes, at.offset, n);
    assert(new@ =~= bytes@.skip(at.offset as int));
    News { rewritten: at.rewritten, entries: parse(new), next: Some(n as i64) }
}

/// Reading a file again that did not change finds nothing: the next reading goes
/// on where this one stopped.
pub proof fn nothing_is_read_twice(bytes: Seq<u8>, cursor: int, last_size: int)
    requires
        bytes.len() >= last_size ==> 0 <= cursor <= bytes.len(),
    ensures
        ({
            let first = news(bytes, cursor, last_size);
            let (at, size) = match first.next {
                Some(n) => (n, n),
                None => (cursor, last_size),
            };
            let again = news(bytes, at, size);
            &&& again.entries.len() == 0
            &&& again.next is None
            &&& first.next is Some ==> !again.rewritten
        }),
{
}

/// Whether bytes end within an escape.
pub open spec fn ends_within_escape(b: Seq<u8>) -> bool
    decreases b.len(),
{
    if b.len() == 0 {
        false
    } else if b[0] != META {
        ends_within_escape(b.skip(1))
    } else if b.len() == 1 {
        true
    } else {
        ends_within_escape(b.skip(2))
    }
}

/// Bytes after whole escapes are restored on their own.
proof fn lemma_unmetafied_parts(a: Seq<u8>, b: Seq<u8>)
    requires
        !ends_within_escape(a),
    ensures
        unmetafied(a + b) == unmetafied(a) + unmetafied(b),
    decreases a.len(),
{
    let whole = a + b;
    if a.len() == 0 {
        assert(whole =~= b);
        assert(unmetafied(a) + unmetafied(b) =~= unmetafied(b));
    } else if a[0] != META {
        lemma_unmetafied_parts(a.skip(1), b);
        assert(whole.skip(1) =~= a.skip(1) + b);
        assert(seq![a[0]] + (unmetafied(a.skip(1)) + unmetafied(b)) =~= (seq![a[0]] + unmetafied(
            a.skip(1),
        )) + unmetafied(b));
    } else {
        lemma_unmetafied_parts(a.skip(2), b);
        assert(whole.skip(2) =~= a.skip(2) + b);
        let c = seq![a[1] ^ META_BIT];
        assert(whole[1] == a[1]);
        assert(c + (unmetafied(a.skip(2)) + unmetafied(b)) =~= (c + unmetafied(a.skip(2)))
            + unmetafied(b));
    }
}

/// Whether bytes are whole commands: UTF-8 once restored, not cut within an
/// escape, and with a line feed at the end that ends a command.
pub open spec fn whole_commands(bytes: Seq<u8>) -> bool {
    &&& !ends_within_escape(bytes)
    &&& valid_utf8(unmetafied(bytes))
    &&& settled(decode_utf8(unmetafied(bytes)))
}

/// A history file can be read in parts, as long as each part but the last holds
/// whole commands: the entries of the parts are those of the whole.
pub proof fn a_history_file_can_be_read_in_parts(a: Seq<u8>, b: Seq<u8>)
    requires
        whole_commands(a),
        valid_utf8(unmetafied(b)),
    ensures
        history_entries(a + b) == history_entries(a) + history_entries(b),
{
    lemma_unmetafied_parts(a, b);
    texts_follow_as_their_bytes_do(unmetafied(a), unmetafied(b));
    a_history_can_be_read_in_parts(decode_utf8(unmetafied(a)), decode_utf8(unmetafied(b)));
}

/// Reading a file that grew since it was read finds the entries that reading it
/// at once finds beyond the earlier ones.
pub proof fn reading_on_finds_what_was_added(a: Seq<u8>, b: Seq<u8>)
    requires
        whole_commands(a),
        valid_utf8(unmetafied(b)),
    ensures
        news(a, 0, 0).next == Some(a.len() as int),
        !news(a + b, a.len() as int, a.len() as int).rewritten,
        news(a + b, 0, 0).entries == news(a, 0, 0).entries + news(
            a + b,
            a.len() as int,
            a.len() as int,
        ).entries,
{
    let whole = a + b;
    assert(a.len() > 0) by {
        if a.len() == 0 {
            assert(unmetafied(a) =~= Seq::<u8>::empty());
            assert(decode_utf8(unmetafied(a)) =~= Seq::<char>::empty());
        }
    }
    assert(a.skip(0) =~= a);
    assert(whole.skip(0) =~= whole);
    assert(whole.skip(a.len() as int) =~= b);
    if b.len() == 0 {
        assert(whole =~= a);
        assert(history_entries(a) + Seq::<EntryView>::empty() =~= history_entries(a));
    } else {
        a_history_file_can_be_read_in_parts(a, b);
    }
}

/// A command of the shell as it is stored.
pub struct ShellRow {
    pub raw: String,
    pub head: String,
    pub ts: Option<i64>,
    pub duration_ms: Option<i64>,
    pub seq: i64,
}

/// What a [`ShellRow`] holds.
pub struct ShellRowView {
    pub raw: Seq<char>,
    pub head: Seq<char>,
    pub ts: Option<i64>,
    pub duration_ms: Option<i64>,
    pub seq: int,
}

impl View for ShellRow {
    type V = ShellRowView;

    open spec fn view(&self) -> ShellRowView {
        ShellRowView {
            raw: self.raw@,
            head: self.head@,
            ts: self.ts,
            duration_ms: self.duration_ms,
            seq: self.seq as int,
        }
    }
}

/// The row of an entry.
pub open spec fn shell_row(e: EntryView, seq: int) -> ShellRowView {
    ShellRowView {
        raw: e.cmd,
        head: first_word(e.cmd),
        ts: e.ts,
        duration_ms: e.duration_ms,
        seq,
    }
}

/// The rows of new entries, numbered on from `last`.
pub fn number_entries(entries: &Vec<ZshEntry>, last: i64) -> (r: Vec<ShellRow>)
    requires
        last + entries@.len() <= i64::MAX,
    ensures
        r@.len() == entries@.len(),
        forall|i: int|
            0 <= i < r@.len() ==> (#[trigger] r@[i])@ == shell_row(entries@[i]@, last + 1 + i),
{
    let mut out: Vec<ShellRow> = Vec::new();
    let mut seq: i64 = last;
    let mut i: usize = 0;
    while i < entries.len()
        invariant
            i <= entries@.len(),
            last + entries@.len() <= i64::MAX,
            seq == last + i,
            out@.len() == i,
            forall|k: int|
                0 <= k < i ==> (#[trigger] out@[k])@ == shell_row(entries@[k]@, last + 1 + k),
        decreases entries@.len() - i,
    {
        seq += 1;
        let e = &entries[i];
        out.push(
            ShellRow {
                raw: e.cmd.clone(),
                head: head_word(e.cmd.as_str()),
                ts: e.ts,
                duration_ms: e.duration_ms,
                seq,
            },
        );
        i += 1;
    }
    out
}

// ---------------------------------------------------------------------------
// Lines and entries, character by character
// ---------------------------------------------------------------------------

/// A text is cut at the first place of a character, which is in neither part.
pub proof fn a_cut_is_at_the_first_place(a: Seq<char>, b: Seq<char>, c: char)
    requires
        forall|i: int| 0 <= i < a.len() ==> #[trigger] a[i] != c,
    ensures
        cut(a.push(c) + b, c) == Some((a, b)),
        cut(a, c) is None,
{
    let s = a.push(c) + b;
    lemma_first_index(s, c);
    lemma_first_index(a, c);
    assert(s[a.len() as int] == c);
    let i = first_index(s, c)->0;
    if i < a.len() {
        assert(s[i] == a[i]);
    }
    assert(s.take(i) =~= a);
    assert(s.skip(i + 1) =~= b);
}

/// The characters of a number that is written out.
pub proof fn lemma_number_chars(n: i64)
    ensures
        signed_decimal(n as int).len() > 0,
        forall|i: int|
            0 <= i < signed_decimal(n as int).len() ==> {
                let c = #[trigger] signed_decimal(n as int)[i];
                c == '-' || '0' <= c <= '9'
            },
{
    let m = (if n < 0 {
        -(n as int)
    } else {
        n as int
    }) as nat;
    decimal_reads_back(m);
    let s = signed_decimal(n as int);
    assert forall|i: int| 0 <= i < s.len() implies {
        let c = #[trigger] s[i];
        c == '-' || '0' <= c <= '9'
    } by {
        if n >= 0 {
            assert(is_ascii_digit(decimal(m)[i]));
        } else if i > 0 {
            assert(s[i] == decimal(m)[i - 1]);
            assert(is_ascii_digit(decimal(m)[i - 1]));
        }
    }
}

/// A line that begins with a colon and a space, a time, a colon, a duration and a
/// semicolon tells when the command behind it was run and, in seconds, how long it took;
/// white space around the two numbers does not count.
pub proof fn an_extended_line_tells_its_times(
    t: i64,
    d: i64,
    cmd: Seq<char>,
    p: Seq<char>,
    q: Seq<char>,
    u: Seq<char>,
    v: Seq<char>,
)
    requires
        forall|i: int| 0 <= i < p.len() ==> is_space(#[trigger] p[i]),
        forall|i: int| 0 <= i < q.len() ==> is_space(#[trigger] q[i]),
        forall|i: int| 0 <= i < u.len() ==> is_space(#[trigger] u[i]),
        forall|i: int| 0 <= i < v.len() ==> is_space(#[trigger] v[i]),
    ensures
        ({
            let first = p + signed_decimal(t as int) + q;
            let second = u + signed_decimal(d as int) + v;
            let e = entry_of(": "@ + (first.push(':') + second).push(';') + cmd);
            &&& e.cmd == cmd
            &&& e.ts == Some(t)
            &&& 0 <= 1000 * d <= i64::MAX ==> e.duration_ms is Some && e.duration_ms->0 == 1000 * d
        }),
{
    reveal_strlit(": ");
    lemma_number_chars(t);
    lemma_number_chars(d);
    integers_read_back(t, Seq::empty(), 0);
    integers_read_back(d, Seq::empty(), 0);
    let (a, b) = (signed_decimal(t as int), signed_decimal(d as int));
    let first = p + a + q;
    let second = u + b + v;
    let meta = first.push(':') + second;
    let line = ": "@ + meta.push(';') + cmd;
    assert(a[0] == '-' || '0' <= a[0] <= '9');
    assert(a[a.len() - 1] == '-' || '0' <= a[a.len() - 1] <= '9');
    assert(b[0] == '-' || '0' <= b[0] <= '9');
    assert(b[b.len() - 1] == '-' || '0' <= b[b.len() - 1] <= '9');
    trimming_takes_the_space_around(p, a, q);
    trimming_takes_the_space_around(u, b, v);
    lemma_padded(p, a, q);
    lemma_padded(u, b, v);
    assert(line.subrange(0, 2) =~= ": "@);
    assert(line.skip(2) =~= meta.push(';') + cmd);
    assert forall|i: int| 0 <= i < meta.len() implies #[trigger] meta[i] != ';' by {
        if i < first.len() {
            assert(meta[i] == first[i]);
        } else if i > first.len() {
            assert(meta[i] == second[i - first.len() - 1]);
        }
    }
    a_cut_is_at_the_first_place(meta, cmd, ';');
    a_cut_is_at_the_first_place(first, second, ':');
}

/// A padded number holds neither a colon nor a semicolon.
proof fn lemma_padded(p: Seq<char>, a: Seq<char>, q: Seq<char>)
    requires
        forall|i: int| 0 <= i < p.len() ==> is_space(#[trigger] p[i]),
        forall|i: int| 0 <= i < q.len() ==> is_space(#[trigger] q[i]),
        forall|i: int| 0 <= i < a.len() ==> #[trigger] a[i] == '-' || '0' <= a[i] <= '9',
    ensures
        forall|i: int|
            0 <= i < (p + a + q).len() ==> #[trigger] (p + a + q)[i] != ';' && (p + a + q)[i] != ':',
{
    let s = p + a + q;
    assert forall|i: int| 0 <= i < s.len() implies #[trigger] s[i] != ';' && s[i] != ':' by {
        if i < p.len() {
            assert(s[i] == p[i]);
        } else if i < p.len() + a.len() {
            assert(s[i] == a[i - p.len()]);
        } else {
            assert(s[i] == q[i - p.len() - a.len()]);
        }
    }
}

/// A line of any other form is the command itself: one that does not begin with a
/// colon and a space, or holds no semicolon, or no colon before it.
pub proof fn any_other_line_is_the_command(line: Seq<char>, n: int)
    requires
        ({
            ||| line.len() < 2
            ||| line[0] != ':'
            ||| line[1] != ' '
            ||| forall|i: int| 0 <= i < line.len() ==> #[trigger] line[i] != ';'
            ||| 2 <= n < line.len() && line[n] == ';' && (forall|i: int|
                2 <= i < n ==> #[trigger] line[i] != ';' && line[i] != ':')
        }),
    ensures
        entry_of(line).cmd == line,
        entry_of(line).ts is None,
        entry_of(line).duration_ms is None,
{
    reveal_strlit(": ");
    if begins_with(line, ": "@) {
        parts_stand_character_by_character(line, ": "@, 0);
        assert(line[0int + 0] == ": "@[0] && line[0int + 1] == ": "@[1]);
        let rest = line.skip(2);
        if forall|i: int| 0 <= i < line.len() ==> #[trigger] line[i] != ';' {
            assert forall|i: int| 0 <= i < rest.len() implies #[trigger] rest[i] != ';' by {
                assert(rest[i] == line[i + 2]);
            }
            a_cut_is_at_the_first_place(rest, rest, ';');
        } else {
            let meta = line.subrange(2, n);
            assert forall|i: int| 0 <= i < meta.len() implies #[trigger] meta[i] != ';' && meta[i]
                != ':' by {
                assert(meta[i] == line[i + 2]);
            }
            assert(rest =~= meta.push(';') + line.skip(n + 1));
            a_cut_is_at_the_first_place(meta, line.skip(n + 1), ';');
            a_cut_is_at_the_first_place(meta, meta, ':');
        }
    }
}

/// Backslashes are counted at the end of a text.
pub proof fn backslashes_count_at_the_end(s: Seq<char>, n: nat)
    requires
        s.len() > 0 ==> s.last() != '\\',
    ensures
        trailing_backslashes(s + Seq::new(n, |i: int| '\\')) == n,
    decreases n,
{
    let t = s + Seq::new(n, |i: int| '\\');
    if n == 0 {
        assert(t =~= s);
    } else {
        let m = (n - 1) as nat;
        assert(t.drop_last() =~= s + Seq::new(m, |i: int| '\\'));
        backslashes_count_at_the_end(s, m);
    }
}

/// What stands before the last backslashes of a text does not change their number,
/// where a line break comes between.
proof fn lemma_backslashes_behind(a: Seq<char>, b: Seq<char>)
    requires
        a.len() > 0 ==> a.last() != '\\',
    ensures
        trailing_backslashes(a + b) == trailing_backslashes(b),
    decreases b.len(),
{
    if b.len() == 0 {
        assert(a + b =~= a);
    } else {
        assert((a + b).last() == b.last());
        assert((a + b).drop_last() =~= a + b.drop_last());
        lemma_backslashes_behind(a, b.drop_last());
    }
}

/// The lines of a text whose lines are continued.
proof fn lemma_continued_lines(parts: Seq<Seq<char>>)
    requires
        parts.len() > 0,
        forall|i: int| 0 <= i < parts.len() ==> unbroken(#[trigger] parts[i], Separator::Char('\n')),
    ensures
        pieces(joined(parts, "\\\n"@), Separator::Char('\n')) == Seq::new(
            parts.len(),
            |i: int| if i < parts.len() - 1 {
                parts[i].push('\\')
            } else {
                parts[i]
            },
        ),
    decreases parts.len(),
{
    reveal_strlit("\\\n");
    let sep = Separator::Char('\n');
    let e = Seq::<char>::empty();
    let last = parts.last();
    assert(last == parts[parts.len() - 1]);
    lemma_pieces_append(e, last, sep);
    assert(e + last =~= last);
    assert(pieces(e, sep) =~= seq![e]);
    assert(pieces(last, sep) =~= seq![last]);
    let all = Seq::new(
        parts.len(),
        |i: int| if i < parts.len() - 1 {
            parts[i].push('\\')
        } else {
            parts[i]
        },
    );
    if parts.len() == 1 {
        assert(all =~= seq![last]);
    } else {
        let front = parts.drop_last();
        assert forall|i: int| 0 <= i < front.len() implies unbroken(#[trigger] front[i], sep) by {
            assert(front[i] == parts[i]);
        }
        lemma_continued_lines(front);
        let j = joined(front, "\\\n"@);
        let slash = seq!['\\'];
        assert(unbroken(slash, sep));
        lemma_pieces_append(j, slash, sep);
        lemma_pieces_nonempty(j, sep);
        let head = (j + slash).push('\n');
        assert(head.drop_last() =~= j + slash);
        lemma_more_pieces(head, last, sep);
        assert(joined(parts, "\\\n"@) =~= head + last);
        assert(front.last() + slash =~= front.last().push('\\'));
        assert(pieces(head + last, sep) =~= all);
    }
}

/// A line that ends in a backslash goes on in the next one: the parts are one command,
/// with a line break for each backslash that was taken off.
pub proof fn a_continued_line_is_one_command(parts: Seq<Seq<char>>)
    requires
        parts.len() > 0,
        forall|i: int|
            0 <= i < parts.len() ==> unbroken(#[trigger] parts[i], Separator::Char('\n'))
                && trailing_backslashes(parts[i]) % 2 == 0,
    ensures
        trimmed(joined(parts, "\n"@)).len() > 0 ==> entries_of(joined(parts, "\\\n"@)) == seq![
            entry_of(joined(parts, "\n"@)),
        ],
        trimmed(joined(parts, "\n"@)).len() == 0 ==> entries_of(joined(parts, "\\\n"@)).len()
            == 0,
{
    lemma_continued_lines(parts);
    let lines = pieces(joined(parts, "\\\n"@), Separator::Char('\n'));
    let n = parts.len();
    let m = (n - 1) as nat;
    lemma_pending(parts, lines, m);
    let p = after_lines(lines, m);
    let full = p.pending + lines[m as int];
    reveal_strlit("\n");
    lemma_backslashes_behind(p.pending, parts[m as int]);
    if m > 0 {
        assert(parts.take(m as int) =~= parts.drop_last());
        assert(full =~= joined(parts, "\n"@));
    } else {
        assert(full =~= parts[0]);
        assert(joined(parts, "\n"@) == parts[0]);
    }
    if full.len() == 0 {
        assert(trim_left(full) == full);
        assert(trimmed(full) =~= full);
    } else if trimmed(full).len() > 0 {
        assert(after_lines(lines, n).entries =~= seq![entry_of(full)]);
    }
}

/// What is pending behind continued lines.
proof fn lemma_pending(parts: Seq<Seq<char>>, lines: Seq<Seq<char>>, k: nat)
    requires
        k < parts.len(),
        lines.len() == parts.len(),
        forall|i: int|
            0 <= i < parts.len() ==> unbroken(#[trigger] parts[i], Separator::Char('\n'))
                && trailing_backslashes(parts[i]) % 2 == 0,
        forall|i: int| 0 <= i < parts.len() - 1 ==> #[trigger] lines[i] == parts[i].push('\\'),
    ensures
        after_lines(lines, k).entries.len() == 0,
        after_lines(lines, k).pending == if k == 0 {
            Seq::empty()
        } else {
            joined(parts.take(k as int), "\n"@).push('\n')
        },
    decreases k,
{
    reveal_strlit("\n");
    if k > 0 {
        let j = (k - 1) as nat;
        lemma_pending(parts, lines, j);
        let p = after_lines(lines, j);
        let part = parts[j as int];
        let line = lines[j as int];
        assert(line == part.push('\\'));
        let full = p.pending + line;
        lemma_backslashes_behind(p.pending, part);
        assert(full.drop_last() =~= p.pending + part);
        assert(full.last() == '\\');
        assert(trailing_backslashes(full) == 1 + trailing_backslashes(part));
        let done = parts.take(k as int);
        assert(done.drop_last() =~= parts.take(j as int));
        assert(done.last() == part);
        if j == 0 {
            assert(done =~= seq![part]);
            assert(p.pending + part =~= part);
        } else {
            assert(joined(done, "\n"@) =~= p.pending + part);
        }
    }
}

/// A line that is not continued is read on its own, and what follows it likewise; an
/// empty or blank line is no entry.
pub proof fn lines_are_read_one_by_one(line: Seq<char>, rest: Seq<char>)
    requires
        unbroken(line, Separator::Char('\n')),
        trailing_backslashes(line) % 2 == 0,
    ensures
        entries_of(line.push('\n') + rest) == entries_of(line) + entries_of(rest),
        trimmed(line).len() > 0 ==> entries_of(line) == seq![entry_of(line)],
        trimmed(line).len() == 0 ==> entries_of(line).len() == 0,
{
    reveal_strlit("\n");
    a_continued_line_is_one_command(seq![line]);
    let one = seq![line];
    assert(one[0] == line);
    assert(joined(one, "\\\n"@) == line && joined(one, "\n"@) == line);
    let a = line.push('\n');
    let sep = Separator::Char('\n');
    let e = Seq::<char>::empty();
    lemma_pieces_append(e, line, sep);
    assert(e + line =~= line);
    assert(pieces(e, sep) =~= seq![e]);
    assert(pieces(line, sep) =~= seq![line]);
    assert(a.drop_last() =~= line);
    assert(finished_lines(a) =~= seq![line]);
    let start = after_lines(seq![line], 0);
    assert(start.pending + line =~= line);
    assert(after_lines(seq![line], 1) == after_line(start, line));
    assert(after_lines(seq![line], 1).pending.len() == 0);
    assert(settled(a));
    a_history_can_be_read_in_parts(a, rest);
    let whole = pieces(a, sep);
    assert(whole =~= seq![line, e]);
    lemma_same_lines(whole, seq![line], 1);
    let p = after_lines(whole, 1);
    assert(after_lines(whole, 2) == after_line(p, e));
    assert(p.pending + e =~= e);
    assert(entries_of(a) == entries_of(line)) by {
        lemma_same_lines(pieces(line, sep), seq![line], 1);
    }
}

/// The shell escapes a byte by putting 0x83 before it and flipping a bit of it; any
/// other byte stands for itself.
pub proof fn escapes_are_undone_byte_by_byte(x: u8, rest: Seq<u8>)
    ensures
        unmetafied(seq![0x83u8, x] + rest) == seq![x ^ 0x20] + unmetafied(rest),
        x != 0x83 ==> unmetafied(seq![x] + rest) == seq![x] + unmetafied(rest),
        unmetafied(seq![0x83u8]) == Seq::<u8>::empty(),
{
    let a = seq![0x83u8, x] + rest;
    assert(a[0] == 0x83 && a[1] == x);
    assert(a.skip(2) =~= rest);
    let b = seq![x] + rest;
    assert(b[0] == x);
    assert(b.skip(1) =~= rest);
}

/// A file that grew is read on from where reading ended, and one that shrank was written
/// anew and is read from its beginning.
pub proof fn a_file_that_shrank_is_read_anew(bytes: Seq<u8>, cursor: int, last_size: int)
    requires
        0 <= cursor <= bytes.len(),
    ensures
        news(bytes, cursor, last_size).rewritten <==> bytes.len() < last_size,
        bytes.len() < last_size && bytes.len() > 0 ==> news(bytes, cursor, last_size).entries
            == history_entries(bytes),
        bytes.len() >= last_size && cursor < bytes.len() ==> news(bytes, cursor, last_size).entries
            == history_entries(bytes.skip(cursor)),
        bytes.len() >= last_size && cursor == bytes.len() ==> news(
            bytes,
            cursor,
            last_size,
        ).entries.len() == 0 && news(bytes, cursor, last_size).next is None,
        news(bytes, cursor, last_size).next is Some ==> news(bytes, cursor, last_size).next->0
            == bytes.len(),
{
    assert(bytes.skip(0) =~= bytes);
}

} // verus!
