//! Templates: a command with the arguments that vary between runs taken out.
use crate::regexp::{
    compile, is_address, is_digit, is_hash, is_match, is_number, is_version, leading_digits,
    pattern_of, HEX, NUM, URL, VER,
};
use crate::text::{
    begins_with, chars_of, contains, find_last, first_line, has_part, head_line, is_ascii_digit,
    join, joined, last_index, lemma_last_index, opt_text, parts_stand_character_by_character, same,
    split_whitespace, stands_at, starts_with, text_of, texts, words,
};
use vstd::prelude::*;

verus! {

/// Whether a character is a quotation mark.
pub open spec fn is_quote(c: char) -> bool {
    c == '"' || c == '\''
}

/// A text without quotation marks at its start.
pub open spec fn unquoted_left(s: Seq<char>) -> Seq<char>
    decreases s.len(),
{
    if s.len() > 0 && is_quote(s[0]) {
        unquoted_left(s.skip(1))
    } else {
        s
    }
}

/// A text without quotation marks at its end.
pub open spec fn unquoted_right(s: Seq<char>) -> Seq<char>
    decreases s.len(),
{
    if s.len() > 0 && is_quote(s.last()) {
        unquoted_right(s.drop_last())
    } else {
        s
    }
}

/// A text without quotation marks at its ends.
pub open spec fn unquoted(s: Seq<char>) -> Seq<char> {
    unquoted_right(unquoted_left(s))
}

/// Whether a token joins commands.
pub open spec fn is_operator(s: Seq<char>) -> bool {
    s == "&&"@ || s == "||"@ || s == "|"@ || s == ";"@ || s == ">"@
}

/// Whether a token, without its quotation marks, is a path.
pub open spec fn is_path(s: Seq<char>) -> bool {
    ||| begins_with(s, "/"@)
    ||| begins_with(s, "./"@)
    ||| begins_with(s, "~/"@)
    ||| begins_with(s, "../"@)
    ||| has_part(s, "/"@) && !has_part(s, "://"@)
}

/// What follows the last `@`.
pub open spec fn after_at(s: Seq<char>) -> Option<Seq<char>> {
    match last_index(s, '@') {
        Some(i) => Some(s.skip(i + 1)),
        None => None,
    }
}

/// Whether a token is a version or names one after an `@`.
pub open spec fn names_version(s: Seq<char>) -> bool {
    is_version(s) || match after_at(s) {
        Some(v) => is_version(v),
        None => false,
    }
}

/// What stands for a token in a template: program names, subcommands and flags
/// stay; paths, addresses, hashes, versions and numbers give way to a
/// placeholder.
pub open spec fn token_template(tok: Seq<char>, index: nat) -> Seq<char> {
    if index == 0 || begins_with(tok, "-"@) || is_operator(tok) {
        tok
    } else if is_address(tok) || is_path(unquoted(tok)) {
        "<path>"@
    } else if is_hash(tok) {
        "<hash>"@
    } else if names_version(tok) {
        "<ver>"@
    } else if is_number(tok) {
        "<n>"@
    } else {
        tok
    }
}

/// The tokens after which another command begins.
pub open spec fn is_separator(s: Seq<char>) -> bool {
    s == "&&"@ || s == "||"@ || s == "|"@ || s == ";"@
}

/// The position of a token in its segment: it is counted from the start of the
/// line or from the last separator.
pub open spec fn segment_index(toks: Seq<Seq<char>>, i: int) -> nat
    decreases i,
{
    if i <= 0 || is_separator(toks[i - 1]) {
        0
    } else {
        segment_index(toks, i - 1) + 1
    }
}

/// The tokens of a command, each as its template; the program name of every
/// segment stays.
pub open spec fn token_templates(toks: Seq<Seq<char>>) -> Seq<Seq<char>> {
    Seq::new(toks.len(), |i: int| token_template(toks[i], segment_index(toks, i)))
}

/// The template of a command: that of its first line, with single spaces.
pub open spec fn template_of(cmd: Seq<char>) -> Seq<char> {
    joined(token_templates(words(first_line(cmd))), " "@)
}

/// Strips quotation marks from both ends.
fn unquote(s: &str) -> (r: String)
    ensures
        r@ == unquoted(s@),
{
    let all = chars_of(s);
    let n: usize = all.len();
    let mut lo: usize = 0;
    assert(s@.skip(0) =~= s@);
    while lo < n && (all[lo] == '"' || all[lo] == '\'')
        invariant
            lo <= n == all@.len(),
            all@ == s@,
            unquoted_left(s@) == unquoted_left(s@.skip(lo as int)),
        decreases n - lo,
    {
        assert(s@.skip(lo as int).skip(1) =~= s@.skip(lo + 1));
        lo += 1;
    }
    let ghost left = s@.skip(lo as int);
    assert(unquoted_left(left) == left);
    let mut hi: usize = n;
    assert(s@.subrange(lo as int, n as int) =~= left);
    while hi > lo && (all[hi - 1] == '"' || all[hi - 1] == '\'')
        invariant
            lo <= hi <= n == all@.len(),
            all@ == s@,
            unquoted_right(left) == unquoted_right(s@.subrange(lo as int, hi as int)),
        decreases hi - lo,
    {
        assert(s@.subrange(lo as int, hi as int).drop_last() =~= s@.subrange(lo as int, hi - 1));
        hi -= 1;
    }
    text_of(&all, lo, hi)
}

/// The compiled expressions.
pub struct Rules {
    hex: regex::Regex,
    num: regex::Regex,
    ver: regex::Regex,
    url: regex::Regex,
}

impl Rules {
    /// Each expression is the one it is named after.
    pub closed spec fn wf(&self) -> bool {
        &&& pattern_of(self.hex) == HEX@
        &&& pattern_of(self.num) == NUM@
        &&& pattern_of(self.ver) == VER@
        &&& pattern_of(self.url) == URL@
    }

    /// Compiles the expressions.
    pub fn new() -> (r: Self)
        ensures
            r.wf(),
    {
        Rules { hex: compile(HEX), num: compile(NUM), ver: compile(VER), url: compile(URL) }
    }

    /// Whether a token is a version or names one after an `@`.
    fn is_versioned(&self, tok: &str) -> (r: bool)
        requires
            self.wf(),
        ensures
            r == names_version(tok@),
    {
        if is_match(&self.ver, tok) {
            return true;
        }
        let chars = chars_of(tok);
        proof {
            lemma_last_index(tok@, '@');
        }
        match find_last(&chars, '@') {
            Some(i) => {
                let v = text_of(&chars, i + 1, chars.len());
                assert(v@ =~= tok@.skip(i + 1));
                is_match(&self.ver, v.as_str())
            },
            None => false,
        }
    }

    /// What stands for the token at a position of its segment.
    pub fn normalize_token(&self, tok: &str, index: usize) -> (r: String)
        requires
            self.wf(),
        ensures
            r@ == token_template(tok@, index as nat),
    {
        if index == 0 || starts_with(tok, "-") || same(tok, "&&") || same(tok, "||") || same(
            tok,
            "|",
        ) || same(tok, ";") || same(tok, ">") {
            return tok.to_owned();
        }
        if is_match(&self.url, tok) {
            return "<path>".to_owned();
        }
        let bare = unquote(tok);
        let b = bare.as_str();
        if starts_with(b, "/") || starts_with(b, "./") || starts_with(b, "~/") || starts_with(
            b,
            "../",
        ) || (contains(b, "/") && !contains(b, "://")) {
            return "<path>".to_owned();
        }
        if is_match(&self.hex, tok) {
            return "<hash>".to_owned();
        }
        if self.is_versioned(tok) {
            return "<ver>".to_owned();
        }
        if is_match(&self.num, tok) {
            return "<n>".to_owned();
        }
        tok.to_owned()
    }

    /// The template of a command.
    pub fn template(&self, cmd: &str) -> (r: String)
        requires
            self.wf(),
        ensures
            r@ == template_of(cmd@),
    {
        let line = head_line(cmd);
        let toks = split_whitespace(line.as_str());
        let ghost tv = texts(toks@);
        let mut out: Vec<String> = Vec::new();
        let mut i: usize = 0;
        let mut index: usize = 0;
        while i < toks.len()
            invariant
                i <= toks@.len(),
                self.wf(),
                tv == texts(toks@),
                index == segment_index(tv, i as int),
                index <= i,
                out@.len() == i,
                forall|k: int|
                    0 <= k < i ==> (#[trigger] out@[k])@ == token_template(
                        tv[k],
                        segment_index(tv, k),
                    ),
            decreases toks@.len() - i,
        {
            assert(tv[i as int] == toks@[i as int]@);
            let tok = toks[i].as_str();
            out.push(self.normalize_token(tok, index));
            if same(tok, "&&") || same(tok, "||") || same(tok, "|") || same(tok, ";") {
                index = 0;
            } else {
                index += 1;
            }
            i += 1;
        }
        assert(texts(out@) =~= token_templates(tv));
        join(&out, " ")
    }
}

/// Turns a command into a template.
pub fn template(cmd: &str) -> (r: String)
    ensures
        r@ == template_of(cmd@),
{
    let rules = Rules::new();
    rules.template(cmd)
}

/// What stands for the token at a position of its segment.
pub fn normalize_token(tok: &str, index: usize) -> (r: String)
    ensures
        r@ == token_template(tok@, index as nat),
{
    let rules = Rules::new();
    rules.normalize_token(tok, index)
}

// ---------------------------------------------------------------------------
// Rows
// ---------------------------------------------------------------------------

/// A row of the history, with its template if it has one.
pub struct RawRow {
    pub id: i64,
    pub raw: String,
    pub template: Option<String>,
}

/// What a [`RawRow`] holds.
pub struct RawRowView {
    pub id: i64,
    pub raw: Seq<char>,
    pub template: Option<Seq<char>>,
}

impl View for RawRow {
    type V = RawRowView;

    open spec fn view(&self) -> RawRowView {
        RawRowView { id: self.id, raw: self.raw@, template: opt_text(self.template) }
    }
}

/// What a list of rows holds.
pub open spec fn raw_rows_view(v: Seq<RawRow>) -> Seq<RawRowView> {
    Seq::new(v.len(), |i: int| v[i]@)
}

/// The template that a row gets.
pub struct Fill {
    pub id: i64,
    pub template: String,
}

/// What a [`Fill`] holds.
pub struct FillView {
    pub id: i64,
    pub template: Seq<char>,
}

impl View for Fill {
    type V = FillView;

    open spec fn view(&self) -> FillView {
        FillView { id: self.id, template: self.template@ }
    }
}

/// What a list of fills holds.
pub open spec fn fills_view(v: Seq<Fill>) -> Seq<FillView> {
    Seq::new(v.len(), |i: int| v[i]@)
}

/// The templates of the rows that have none yet.
pub open spec fn missing(rows: Seq<RawRowView>) -> Seq<FillView>
    decreases rows.len(),
{
    if rows.len() == 0 {
        Seq::empty()
    } else {
        let before = missing(rows.drop_last());
        let r = rows.last();
        if r.template is None {
            before.push(FillView { id: r.id, template: template_of(r.raw) })
        } else {
            before
        }
    }
}

/// Finds the rows that have no template yet and gives each one.
pub fn run(rows: &Vec<RawRow>) -> (r: Vec<Fill>)
    ensures
        fills_view(r@) == missing(raw_rows_view(rows@)),
{
    let rules = Rules::new();
    let ghost all = raw_rows_view(rows@);
    let mut out: Vec<Fill> = Vec::new();
    let mut i: usize = 0;
    assert(fills_view(out@) =~= missing(all.take(0)));
    while i < rows.len()
        invariant
            i <= rows@.len(),
            all == raw_rows_view(rows@),
            rules.wf(),
            fills_view(out@) == missing(all.take(i as int)),
        decreases rows@.len() - i,
    {
        let ghost before = fills_view(out@);
        let row = &rows[i];
        assert(all.take(i + 1).drop_last() =~= all.take(i as int));
        assert(all.take(i + 1).last() == row@);
        match &row.template {
            Some(_) => {},
            None => {
                let f = Fill { id: row.id, template: rules.template(row.raw.as_str()) };
                let ghost fv = f@;
                out.push(f);
                assert(fills_view(out@) =~= before.push(fv));
            },
        }
        i += 1;
    }
    assert(all.take(i as int) =~= all);
    out
}

/// The rows after every missing template was filled in.
pub open spec fn filled(rows: Seq<RawRowView>) -> Seq<RawRowView> {
    Seq::new(
        rows.len(),
        |i: int|
            match rows[i].template {
                Some(_) => rows[i],
                None => RawRowView { template: Some(template_of(rows[i].raw)), ..rows[i] },
            },
    )
}

/// Where the templates of the missing rows stand.
proof fn lemma_missing(rows: Seq<RawRowView>)
    ensures
        forall|k: int|
            0 <= k < missing(rows).len() ==> exists|i: int|
                0 <= i < rows.len() && rows[i].template is None && (#[trigger] missing(rows)[k])
                    == (FillView { id: (#[trigger] rows[i]).id, template: template_of(rows[i].raw) }),
        forall|i: int|
            0 <= i < rows.len() && (#[trigger] rows[i]).template is None ==> missing(rows).contains(
                FillView { id: rows[i].id, template: template_of(rows[i].raw) },
            ),
    decreases rows.len(),
{
    if rows.len() > 0 {
        let front = rows.drop_last();
        lemma_missing(front);
        let before = missing(front);
        let now = missing(rows);
        assert forall|k: int| 0 <= k < now.len() implies exists|i: int|
            0 <= i < rows.len() && rows[i].template is None && (#[trigger] now[k]) == (FillView {
                id: (#[trigger] rows[i]).id,
                template: template_of(rows[i].raw),
            }) by {
            if k < before.len() {
                assert(now[k] == before[k]);
                let i = choose|i: int|
                    0 <= i < front.len() && front[i].template is None && before[k] == (FillView {
                        id: (#[trigger] front[i]).id,
                        template: template_of(front[i].raw),
                    });
                assert(rows[i] == front[i]);
            } else {
                assert(rows[rows.len() - 1] == rows.last());
            }
        }
        assert forall|i: int|
            0 <= i < rows.len() && (#[trigger] rows[i]).template is None implies now.contains(
            FillView { id: rows[i].id, template: template_of(rows[i].raw) },
        ) by {
            let f = FillView { id: rows[i].id, template: template_of(rows[i].raw) };
            if i < front.len() {
                assert(front[i] == rows[i]);
                let k = choose|k: int| 0 <= k < before.len() && before[k] == f;
                assert(now[k] == f);
            } else {
                assert(now[now.len() - 1] == f);
            }
        }
    }
}

/// A pass touches exactly the rows that have no template, and gives each the
/// template of its command.
pub proof fn a_pass_fills_what_is_missing(rows: Seq<RawRowView>, i: int)
    requires
        0 <= i < rows.len(),
        forall|a: int, b: int|
            0 <= a < b < rows.len() ==> (#[trigger] rows[a]).id != (#[trigger] rows[b]).id,
    ensures
        rows[i].template is None <==> exists|k: int|
            0 <= k < missing(rows).len() && (#[trigger] missing(rows)[k]).id == rows[i].id,
        forall|k: int|
            0 <= k < missing(rows).len() && (#[trigger] missing(rows)[k]).id == rows[i].id
                ==> missing(rows)[k].template == template_of(rows[i].raw),
{
    lemma_missing(rows);
    let m = missing(rows);
    if rows[i].template is None {
        let f = FillView { id: rows[i].id, template: template_of(rows[i].raw) };
        let k = choose|k: int| 0 <= k < m.len() && m[k] == f;
        assert(m[k].id == rows[i].id);
    }
    assert forall|k: int| 0 <= k < m.len() && (#[trigger] m[k]).id == rows[i].id implies rows[i].template is None
        && m[k].template == template_of(rows[i].raw) by {
        let j = choose|j: int|
            0 <= j < rows.len() && rows[j].template is None && m[k] == (FillView {
                id: (#[trigger] rows[j]).id,
                template: template_of(rows[j].raw),
            });
        if i < j {
            assert(rows[i].id != rows[j].id);
        } else if j < i {
            assert(rows[j].id != rows[i].id);
        }
    }
}

/// A second pass finds nothing: after one, every row has a template, and rows
/// that had one before keep it.
pub proof fn a_second_pass_finds_nothing(rows: Seq<RawRowView>)
    ensures
        missing(filled(rows)) == Seq::<FillView>::empty(),
        filled(filled(rows)) == filled(rows),
        forall|i: int|
            0 <= i < rows.len() && (#[trigger] rows[i]).template is Some ==> filled(rows)[i]
                == rows[i],
    decreases rows.len(),
{
    assert(filled(filled(rows)) =~= filled(rows));
    if rows.len() > 0 {
        a_second_pass_finds_nothing(rows.drop_last());
        assert(filled(rows).drop_last() =~= filled(rows.drop_last()));
    }
}

// ---------------------------------------------------------------------------
// Templates of templates
// ---------------------------------------------------------------------------

/// A text that holds none of the characters of `p` does not have it as a part.
proof fn lemma_no_part(s: Seq<char>, p: Seq<char>)
    requires
        p.len() > 0,
        forall|i: int| 0 <= i < s.len() ==> #[trigger] s[i] != p[0],
    ensures
        !has_part(s, p),
        !begins_with(s, p),
{
    assert forall|i: int| !#[trigger] crate::text::stands_at(s, p, i) by {
        if crate::text::stands_at(s, p, i) {
            assert(s.subrange(i, i + p.len())[0] == s[i]);
        }
    }
}

/// A placeholder stays what it is.
proof fn lemma_placeholder(s: Seq<char>, index: nat)
    requires
        2 <= s.len(),
        s[0] == '<',
        s.last() == '>',
        forall|i: int| 0 <= i < s.len() ==> #[trigger] s[i] != '/' && s[i] != '@',
    ensures
        token_template(s, index) == s,
{
    reveal_strlit("http://");
    reveal_strlit("https://");
    reveal_strlit("/");
    reveal_strlit("./");
    reveal_strlit("~/");
    reveal_strlit("../");
    assert(!is_address(s)) by {
        if begins_with(s, "http://"@) {
            assert(s.subrange(0, 7)[0] == s[0]);
        }
        if begins_with(s, "https://"@) {
            assert(s.subrange(0, 8)[0] == s[0]);
        }
    }
    assert(unquoted_left(s) == s);
    assert(unquoted_right(s) == s);
    assert(!is_path(s)) by {
        lemma_no_part(s, "/"@);
        if begins_with(s, "./"@) {
            assert(s.subrange(0, 2)[0] == s[0]);
        }
        if begins_with(s, "~/"@) {
            assert(s.subrange(0, 2)[0] == s[0]);
        }
        if begins_with(s, "../"@) {
            assert(s.subrange(0, 3)[0] == s[0]);
        }
    }
    assert(!is_hash(s)) by {
        if is_hash(s) {
            assert(crate::text::is_ascii_digit(s[0]) || ('a' <= s[0] && s[0] <= 'f'));
        }
    }
    assert(!crate::regexp::is_digit(s[0]));
    assert(crate::regexp::leading_digits(s) == 0);
    lemma_last_index(s, '@');
    assert(!names_version(s));
    assert(!is_number(s));
}

/// What stands for a token stands for itself.
proof fn lemma_token_again(tok: Seq<char>, index: nat)
    ensures
        is_separator(token_template(tok, index)) == is_separator(tok),
        token_template(token_template(tok, index), index) == token_template(tok, index),
        crate::text::is_word(tok) ==> crate::text::is_word(token_template(tok, index)),
{
    reveal_strlit("<path>");
    reveal_strlit("<hash>");
    reveal_strlit("<ver>");
    reveal_strlit("<n>");
    let t = token_template(tok, index);
    if t != tok {
        lemma_placeholder(t, index);
        reveal_strlit("&&");
        reveal_strlit("||");
        reveal_strlit("|");
        reveal_strlit(";");
        assert(t[0] == '<');
        assert("&&"@[0] == '&' && "||"@[0] == '|' && "|"@[0] == '|' && ";"@[0] == ';');
    }
}

/// Templates of tokens stand in the same segments.
proof fn lemma_same_segments(toks: Seq<Seq<char>>, i: int)
    requires
        0 <= i < toks.len(),
    ensures
        segment_index(token_templates(toks), i) == segment_index(toks, i),
    decreases i,
{
    if i > 0 {
        lemma_same_segments(toks, i - 1);
        lemma_token_again(toks[i - 1], segment_index(toks, i - 1));
    }
}

/// The program name of every segment of a line stays in its template.
pub proof fn program_names_are_kept(toks: Seq<Seq<char>>, i: int)
    requires
        0 <= i < toks.len(),
        i == 0 || is_separator(toks[i - 1]),
    ensures
        token_templates(toks)[i] == toks[i],
{
}

/// Templating a template changes nothing: commands that fall together once stay
/// together.
pub proof fn a_template_is_its_own_template(cmd: Seq<char>)
    ensures
        template_of(template_of(cmd)) == template_of(cmd),
{
    let toks = words(first_line(cmd));
    let tt = token_templates(toks);
    let t = template_of(cmd);
    crate::text::lemma_words(first_line(cmd));
    assert forall|i: int| 0 <= i < tt.len() implies crate::text::is_word(#[trigger] tt[i]) by {
        assert(crate::text::is_word(toks[i]));
        lemma_token_again(toks[i], segment_index(toks, i));
    }
    crate::text::joined_words_fall_apart_again(tt);
    lemma_joined_line(tt);
    crate::text::lemma_single_line(t);
    assert forall|i: int| 0 <= i < tt.len() implies token_templates(tt)[i] == tt[i] by {
        lemma_same_segments(toks, i);
        lemma_token_again(toks[i], segment_index(toks, i));
    }
    assert(token_templates(tt) =~= tt);
}

/// Joined words hold no line end.
proof fn lemma_joined_line(w: Seq<Seq<char>>)
    requires
        forall|i: int| 0 <= i < w.len() ==> crate::text::is_word(#[trigger] w[i]),
    ensures
        forall|i: int| 0 <= i < joined(w, " "@).len() ==> #[trigger] joined(w, " "@)[i] != '\n',
    decreases w.len(),
{
    reveal_strlit(" ");
    if w.len() > 0 {
        let last = w[w.len() - 1];
        let sep = crate::text::Separator::Space;
        assert(crate::text::is_word(last));
        assert forall|i: int| 0 <= i < last.len() implies #[trigger] last[i] != '\n' by {
            assert(!sep.holds(last[i]));
        }
        if w.len() > 1 {
            let front = w.drop_last();
            assert forall|i: int| 0 <= i < front.len() implies crate::text::is_word(
                #[trigger] front[i],
            ) by {
                assert(crate::text::is_word(w[i]));
            }
            lemma_joined_line(front);
            let head = joined(front, " "@);
            let s = joined(w, " "@);
            assert forall|i: int| 0 <= i < s.len() implies #[trigger] s[i] != '\n' by {
                if i < head.len() {
                    assert(s[i] == head[i]);
                } else if i == head.len() {
                    assert(s[i] == ' ');
                } else {
                    assert(s[i] == last[i - head.len() - 1]);
                }
            }
        }
    }
}

/// What varies between runs groups together: behind the program name, an address
/// and a path stand as the same placeholder.
pub proof fn addresses_and_paths_group_together(a: Seq<char>, b: Seq<char>, i: nat, j: nat)
    requires
        i > 0,
        j > 0,
        !begins_with(a, "-"@) && !is_operator(a) && is_address(a),
        !begins_with(b, "-"@) && !is_operator(b) && is_path(unquoted(b)),
    ensures
        token_template(a, i) == token_template(b, j),
{
}

// ---------------------------------------------------------------------------
// Tokens, character by character
// ---------------------------------------------------------------------------

/// The quotes around a token are taken off, and nothing else.
pub proof fn quotes_are_taken_off(s: Seq<char>) -> (r: (int, int))
    ensures
        0 <= r.0 <= r.1 <= s.len(),
        unquoted(s) == s.subrange(r.0, r.1),
        forall|k: int| 0 <= k < r.0 ==> #[trigger] s[k] == '"' || s[k] == '\'',
        forall|k: int| r.1 <= k < s.len() ==> #[trigger] s[k] == '"' || s[k] == '\'',
        r.0 < r.1 ==> s[r.0] != '"' && s[r.0] != '\'' && s[r.1 - 1] != '"' && s[r.1 - 1] != '\'',
{
    let lo = lemma_left_quotes(s);
    let t = s.skip(lo);
    let n = lemma_right_quotes(t);
    assert(t.take(n) =~= s.subrange(lo, lo + n));
    assert forall|k: int| lo + n <= k < s.len() implies #[trigger] s[k] == '"' || s[k]
        == '\'' by {
        assert(t[k - lo] == s[k]);
    }
    if n > 0 {
        assert(t[0] == s[lo]);
        assert(t[n - 1] == s[lo + n - 1]);
        assert(unquoted_left(s) == t);
    }
    (lo, lo + n)
}

/// How many quotes are taken off at the left.
proof fn lemma_left_quotes(s: Seq<char>) -> (lo: int)
    ensures
        0 <= lo <= s.len(),
        unquoted_left(s) == s.skip(lo),
        forall|k: int| 0 <= k < lo ==> #[trigger] s[k] == '"' || s[k] == '\'',
        lo < s.len() ==> s[lo] != '"' && s[lo] != '\'',
    decreases s.len(),
{
    if s.len() > 0 && is_quote(s[0]) {
        let t = s.skip(1);
        let n = lemma_left_quotes(t);
        assert(t.skip(n) =~= s.skip(n + 1));
        assert forall|k: int| 0 <= k < n + 1 implies #[trigger] s[k] == '"' || s[k] == '\'' by {
            if k > 0 {
                assert(t[k - 1] == s[k]);
            }
        }
        if n < t.len() {
            assert(t[n] == s[n + 1]);
        }
        n + 1
    } else {
        assert(s.skip(0) =~= s);
        0
    }
}

/// How much is left when the quotes at the right are taken off.
proof fn lemma_right_quotes(s: Seq<char>) -> (n: int)
    ensures
        0 <= n <= s.len(),
        unquoted_right(s) == s.take(n),
        forall|k: int| n <= k < s.len() ==> #[trigger] s[k] == '"' || s[k] == '\'',
        n > 0 ==> s[n - 1] != '"' && s[n - 1] != '\'',
    decreases s.len(),
{
    if s.len() > 0 && is_quote(s.last()) {
        let t = s.drop_last();
        let n = lemma_right_quotes(t);
        assert(t.take(n) =~= s.take(n));
        assert forall|k: int| n <= k < s.len() implies #[trigger] s[k] == '"' || s[k] == '\'' by {
            if k < t.len() {
                assert(t[k] == s[k]);
            }
        }
        if n > 0 {
            assert(t[n - 1] == s[n - 1]);
        }
        n
    } else {
        assert(s.take(s.len() as int) =~= s);
        s.len() as int
    }
}

/// What the operators are, character by character.
proof fn lemma_operators(tok: Seq<char>, i: int)
    requires
        0 <= i < tok.len(),
        tok[i] != '&' && tok[i] != '|' && tok[i] != ';' && tok[i] != '>',
    ensures
        !is_operator(tok),
        !is_separator(tok),
{
    reveal_strlit("&&");
    reveal_strlit("||");
    reveal_strlit("|");
    reveal_strlit(";");
    reveal_strlit(">");
}

/// Whether a token begins with a dash.
proof fn lemma_dash(tok: Seq<char>)
    ensures
        begins_with(tok, "-"@) <==> tok.len() > 0 && tok[0] == '-',
{
    reveal_strlit("-");
    parts_stand_character_by_character(tok, "-"@, 0);
    if begins_with(tok, "-"@) {
        assert(tok[0int + 0] == "-"@[0]);
    }
}

/// Whether "://" stands somewhere in a token.
pub open spec fn names_scheme(tok: Seq<char>) -> bool {
    exists|k: int|
        0 <= k < tok.len() - 2 && #[trigger] tok[k] == ':' && tok[k + 1] == '/' && tok[k + 2] == '/'
}

/// A scheme stands in a token where its characters do.
proof fn lemma_scheme(tok: Seq<char>)
    ensures
        has_part(tok, "://"@) <==> names_scheme(tok),
{
    reveal_strlit("://");
    if has_part(tok, "://"@) {
        let i = choose|i: int| #[trigger] stands_at(tok, "://"@, i);
        parts_stand_character_by_character(tok, "://"@, i);
        assert(tok[i + 0] == "://"@[0] && tok[i + 1] == "://"@[1] && tok[i + 2] == "://"@[2]);
        assert(tok[i] == ':');
    }
    if names_scheme(tok) {
        let i = choose|k: int|
            0 <= k < tok.len() - 2 && #[trigger] tok[k] == ':' && tok[k + 1] == '/' && tok[k + 2]
                == '/';
        parts_stand_character_by_character(tok, "://"@, i);
        assert(stands_at(tok, "://"@, i));
    }
}

/// A slash stands in a text where its character does.
proof fn lemma_slash(s: Seq<char>)
    ensures
        has_part(s, "/"@) <==> exists|i: int| 0 <= i < s.len() && #[trigger] s[i] == '/',
{
    reveal_strlit("/");
    if has_part(s, "/"@) {
        let i = choose|i: int| #[trigger] stands_at(s, "/"@, i);
        parts_stand_character_by_character(s, "/"@, i);
        assert(s[i + 0] == "/"@[0]);
    }
    if exists|i: int| 0 <= i < s.len() && #[trigger] s[i] == '/' {
        let i = choose|i: int| 0 <= i < s.len() && #[trigger] s[i] == '/';
        parts_stand_character_by_character(s, "/"@, i);
        assert(stands_at(s, "/"@, i));
    }
}

/// Behind the program name, a token that is no flag and holds a slash, but no scheme,
/// is a path.
pub proof fn tokens_with_a_slash_are_paths(tok: Seq<char>, index: nat, i: int)
    requires
        index > 0,
        tok[0] != '-',
        0 <= i < tok.len(),
        tok[i] == '/',
        !names_scheme(tok),
    ensures
        token_template(tok, index) == "<path>"@,
{
    lemma_operators(tok, i);
    lemma_dash(tok);
    let (lo, hi) = quotes_are_taken_off(tok);
    let u = unquoted(tok);
    assert(lo <= i < hi);
    assert(u[i - lo] == '/');
    lemma_slash(u);
    lemma_scheme(u);
    if names_scheme(u) {
        let k = choose|k: int|
            0 <= k < u.len() - 2 && #[trigger] u[k] == ':' && u[k + 1] == '/' && u[k + 2] == '/';
        assert(tok[lo + k] == ':' && tok[lo + k + 1] == '/' && tok[lo + k + 2] == '/');
        assert(names_scheme(tok));
    }
}

/// Behind the program name, a token that begins, past its quotes, with a slash, or
/// with a dot, two dots or a tilde and a slash, is a path, whatever else it holds.
pub proof fn rooted_tokens_are_paths(tok: Seq<char>, index: nat, lo: int)
    requires
        index > 0,
        tok[0] != '-',
        0 <= lo < tok.len(),
        forall|k: int| 0 <= k < lo ==> #[trigger] tok[k] == '"' || tok[k] == '\'',
        ({
            ||| tok[lo] == '/'
            ||| lo + 1 < tok.len() && (tok[lo] == '.' || tok[lo] == '~') && tok[lo + 1] == '/'
            ||| lo + 2 < tok.len() && tok[lo] == '.' && tok[lo + 1] == '.' && tok[lo + 2] == '/'
        }),
    ensures
        token_template(tok, index) == "<path>"@,
{
    lemma_operators(tok, lo);
    lemma_dash(tok);
    let (a, b) = quotes_are_taken_off(tok);
    let u = unquoted(tok);
    if lo >= b {
        assert(tok[lo] == '"' || tok[lo] == '\'');
    }
    if a < lo {
        assert(tok[a] == '"' || tok[a] == '\'');
    }
    if lo < a {
        assert(tok[lo] == '"' || tok[lo] == '\'');
    }
    assert(a == lo);
    reveal_strlit("/");
    reveal_strlit("./");
    reveal_strlit("~/");
    reveal_strlit("../");
    parts_stand_character_by_character(u, "/"@, 0);
    parts_stand_character_by_character(u, "./"@, 0);
    parts_stand_character_by_character(u, "~/"@, 0);
    parts_stand_character_by_character(u, "../"@, 0);
    assert(u[0] == tok[lo]);
    if tok[lo] == '/' {
        assert(begins_with(u, "/"@));
    } else if tok[lo + 1] == '/' {
        if lo + 1 >= b {
            assert(tok[lo + 1] == '"' || tok[lo + 1] == '\'');
        }
        assert(u[1] == tok[lo + 1]);
        assert(begins_with(u, "./"@) || begins_with(u, "~/"@));
    } else {
        if lo + 2 >= b {
            assert(tok[lo + 2] == '"' || tok[lo + 2] == '\'');
        }
        assert(u[1] == tok[lo + 1] && u[2] == tok[lo + 2]);
        assert(begins_with(u, "../"@));
    }
}

/// Behind the program name, an address of the web is a path too.
pub proof fn addresses_are_paths(rest: Seq<char>, index: nat)
    requires
        index > 0,
    ensures
        token_template("http://"@ + rest, index) == "<path>"@,
        token_template("https://"@ + rest, index) == "<path>"@,
{
    reveal_strlit("http://");
    reveal_strlit("https://");
    let (a, b) = ("http://"@ + rest, "https://"@ + rest);
    assert(a[0] == 'h' && b[0] == 'h');
    lemma_operators(a, 0);
    lemma_operators(b, 0);
    lemma_dash(a);
    lemma_dash(b);
    assert(a.subrange(0, 7) =~= "http://"@);
    assert(b.subrange(0, 8) =~= "https://"@);
}

/// A token without a slash is no path.
proof fn lemma_no_slash(tok: Seq<char>)
    requires
        forall|i: int| 0 <= i < tok.len() ==> #[trigger] tok[i] != '/',
    ensures
        !is_address(tok),
        !is_path(unquoted(tok)),
{
    let (lo, hi) = quotes_are_taken_off(tok);
    let u = unquoted(tok);
    assert forall|i: int| 0 <= i < u.len() implies #[trigger] u[i] != '/' by {
        assert(u[i] == tok[lo + i]);
    }
    lemma_slash(u);
    reveal_strlit("/");
    reveal_strlit("./");
    reveal_strlit("~/");
    reveal_strlit("../");
    reveal_strlit("http://");
    reveal_strlit("https://");
    parts_stand_character_by_character(u, "/"@, 0);
    parts_stand_character_by_character(u, "./"@, 0);
    parts_stand_character_by_character(u, "~/"@, 0);
    parts_stand_character_by_character(u, "../"@, 0);
    parts_stand_character_by_character(tok, "http://"@, 0);
    parts_stand_character_by_character(tok, "https://"@, 0);
    if begins_with(u, "/"@) {
        assert(u[0int + 0] == "/"@[0]);
    }
    if begins_with(u, "./"@) {
        assert(u[0int + 1] == "./"@[1]);
    }
    if begins_with(u, "~/"@) {
        assert(u[0int + 1] == "~/"@[1]);
    }
    if begins_with(u, "../"@) {
        assert(u[0int + 2] == "../"@[2]);
    }
    if begins_with(tok, "http://"@) {
        assert(tok[0int + 5] == "http://"@[5]);
    }
    if begins_with(tok, "https://"@) {
        assert(tok[0int + 6] == "https://"@[6]);
    }
}

/// Whether a character is one of the digits of a hash.
pub open spec fn is_hex_digit(c: char) -> bool {
    '0' <= c <= '9' || 'a' <= c <= 'f'
}

/// Behind the program name, seven to forty hexadecimal digits are a hash, and a shorter
/// or longer run of decimal digits is a number.
pub proof fn runs_of_digits_are_hashes_or_numbers(tok: Seq<char>, index: nat)
    requires
        index > 0,
        tok.len() > 0,
        forall|i: int| 0 <= i < tok.len() ==> is_hex_digit(#[trigger] tok[i]),
    ensures
        7 <= tok.len() <= 40 ==> token_template(tok, index) == "<hash>"@,
        !(7 <= tok.len() <= 40) && (forall|i: int|
            0 <= i < tok.len() ==> '0' <= #[trigger] tok[i] <= '9') ==> token_template(tok, index)
            == "<n>"@,
{
    assert(is_hex_digit(tok[0]));
    lemma_operators(tok, 0);
    lemma_dash(tok);
    assert forall|i: int| 0 <= i < tok.len() implies #[trigger] tok[i] != '/' && tok[i] != '@'
        && tok[i] != '.' by {
        assert(is_hex_digit(tok[i]));
    }
    lemma_no_slash(tok);
    lemma_no_version(tok);
    assert forall|i: int| 0 <= i < tok.len() implies is_ascii_digit(#[trigger] tok[i]) || ('a'
        <= tok[i] && tok[i] <= 'f') by {
        assert(is_hex_digit(tok[i]));
    }
    if forall|i: int| 0 <= i < tok.len() ==> '0' <= #[trigger] tok[i] <= '9' {
        assert forall|i: int| 0 <= i < tok.len() implies is_digit(#[trigger] tok[i]) by {
            assert('0' <= tok[i] <= '9');
        }
    }
}

/// How far the digits at the beginning of a text go.
proof fn lemma_leading(s: Seq<char>, n: nat)
    requires
        n <= s.len(),
        forall|i: int| 0 <= i < n ==> is_digit(#[trigger] s[i]),
        n < s.len() ==> !is_digit(s[n as int]),
    ensures
        leading_digits(s) == n,
    decreases n,
{
    if n > 0 {
        assert(is_digit(s[0]));
        let t = s.skip(1);
        assert forall|i: int| 0 <= i < n - 1 implies is_digit(#[trigger] t[i]) by {
            assert(t[i] == s[i + 1]);
        }
        if n - 1 < t.len() {
            assert(t[n - 1] == s[n as int]);
        }
        lemma_leading(t, (n - 1) as nat);
    }
}

/// The digits at the beginning of a text end within it.
proof fn lemma_leading_bound(s: Seq<char>)
    ensures
        leading_digits(s) <= s.len(),
    decreases s.len(),
{
    if s.len() > 0 && is_digit(s[0]) {
        lemma_leading_bound(s.skip(1));
    }
}

/// A text without a dot or an at sign names no version.
proof fn lemma_no_version(tok: Seq<char>)
    requires
        forall|i: int| 0 <= i < tok.len() ==> #[trigger] tok[i] != '.',
    ensures
        !names_version(tok),
{
    lemma_undotted(tok);
    lemma_last_index(tok, '@');
    if let Some(i) = last_index(tok, '@') {
        let v = tok.skip(i + 1);
        assert forall|k: int| 0 <= k < v.len() implies #[trigger] v[k] != '.' by {
            assert(v[k] == tok[i + 1 + k]);
        }
        lemma_undotted(v);
    }
}

/// A text without a dot is no version.
proof fn lemma_undotted(s: Seq<char>)
    requires
        forall|i: int| 0 <= i < s.len() ==> #[trigger] s[i] != '.',
    ensures
        !is_version(s),
{
    let t = if s.len() > 0 && s[0] == 'v' {
        s.skip(1)
    } else {
        s
    };
    assert forall|i: int| 0 <= i < t.len() implies #[trigger] t[i] != '.' by {
        if s.len() > 0 && s[0] == 'v' {
            assert(t[i] == s[i + 1]);
        }
    }
}

/// Whether a text begins as a version does: a run of digits, a dot and a digit, behind
/// a v or not.
pub open spec fn begins_as_version(s: Seq<char>, from: int, dot: int) -> bool {
    &&& from == 0 || (from == 1 && s[0] == 'v')
    &&& from < dot < s.len() - 1
    &&& forall|k: int| from <= k < dot ==> '0' <= #[trigger] s[k] <= '9'
    &&& s[dot] == '.'
    &&& '0' <= s[dot + 1] <= '9'
}

/// What begins as a version is one.
proof fn lemma_version(s: Seq<char>, from: int, dot: int)
    requires
        begins_as_version(s, from, dot),
    ensures
        is_version(s),
{
    assert('0' <= s[from] <= '9');
    let t = if s[0] == 'v' {
        s.skip(1)
    } else {
        s
    };
    let n = (dot - from) as nat;
    assert forall|i: int| 0 <= i < n implies is_digit(#[trigger] t[i]) by {
        assert(t[i] == s[from + i]);
        assert('0' <= s[from + i] <= '9');
    }
    assert(t[n as int] == s[dot]);
    assert(t[n as int + 1] == s[dot + 1]);
    lemma_leading(t, n);
}

/// Behind the program name, a token without a slash that begins as a version, or does
/// so behind its last at sign, names a version.
pub proof fn versions_are_grouped(tok: Seq<char>, index: nat, at: int, from: int, dot: int)
    requires
        index > 0,
        tok.len() > 0,
        tok[0] != '-',
        forall|i: int| 0 <= i < tok.len() ==> #[trigger] tok[i] != '/',
        begins_as_version(tok, from, dot) || (0 <= at < tok.len() && tok[at] == '@' && (forall|
            k: int,
        |
            at < k < tok.len() ==> #[trigger] tok[k] != '@') && begins_as_version(
            tok.skip(at + 1),
            from,
            dot,
        )),
    ensures
        token_template(tok, index) == "<ver>"@,
{
    lemma_dash(tok);
    lemma_no_slash(tok);
    if begins_as_version(tok, from, dot) {
        lemma_version(tok, from, dot);
        lemma_operators(tok, dot);
        assert(!is_ascii_digit(tok[dot]) && !('a' <= tok[dot] && tok[dot] <= 'f'));
    } else {
        lemma_operators(tok, at);
        lemma_version(tok.skip(at + 1), from, dot);
        lemma_last_index(tok, '@');
        assert(last_index(tok, '@') == Some(at)) by {
            let i = last_index(tok, '@')->0;
            if i < at {
                assert(tok[at] != '@');
            }
            if at < i {
                assert(tok[i] != '@');
            }
        }
        assert(!is_ascii_digit(tok[at]) && !('a' <= tok[at] && tok[at] <= 'f'));
    }
}

/// A token stays as it is where it is a program name, a flag or an operator, and behind
/// the program name where it holds neither a slash nor a digit and is too short or too
/// long for a hash or holds a letter that no hash does.
pub proof fn plain_tokens_stay(tok: Seq<char>, index: nat, i: int)
    requires
        forall|k: int| 0 <= k < tok.len() ==> (#[trigger] tok[k] as u32) < 128,
    ensures
        token_template(tok, 0) == tok,
        tok.len() > 0 && tok[0] == '-' ==> token_template(tok, index) == tok,
        seq!["&&"@, "||"@, "|"@, ";"@, ">"@].contains(tok) ==> token_template(tok, index) == tok,
        (forall|k: int|
            0 <= k < tok.len() ==> #[trigger] tok[k] != '/' && !('0' <= tok[k] <= '9')) && (
        tok.len() < 7 || tok.len() > 40 || (0 <= i < tok.len() && !is_hex_digit(tok[i])))
            ==> token_template(tok, index) == tok,
{
    lemma_dash(tok);
    let ops = seq!["&&"@, "||"@, "|"@, ";"@, ">"@];
    assert(ops[0] == "&&"@ && ops[1] == "||"@ && ops[2] == "|"@ && ops[3] == ";"@ && ops[4]
        == ">"@);
    if (forall|k: int|
        0 <= k < tok.len() ==> #[trigger] tok[k] != '/' && !('0' <= tok[k] <= '9')) && (tok.len()
        < 7 || tok.len() > 40 || (0 <= i < tok.len() && !is_hex_digit(tok[i]))) {
        lemma_no_slash(tok);
        if is_hash(tok) {
            assert(is_ascii_digit(tok[i]) || ('a' <= tok[i] && tok[i] <= 'f'));
        }
        assert forall|k: int| 0 <= k < tok.len() implies !is_digit(#[trigger] tok[k]) by {
            assert((tok[k] as u32) < 128);
        }
        lemma_no_digits(tok);
        lemma_last_index(tok, '@');
        if let Some(a) = last_index(tok, '@') {
            let v = tok.skip(a + 1);
            assert forall|k: int| 0 <= k < v.len() implies !is_digit(#[trigger] v[k]) by {
                assert(v[k] == tok[a + 1 + k]);
            }
            lemma_no_digits(v);
        }
    }
}

/// A text without digits is no number and no version.
proof fn lemma_no_digits(s: Seq<char>)
    requires
        forall|k: int| 0 <= k < s.len() ==> !is_digit(#[trigger] s[k]),
    ensures
        !is_version(s),
        !is_number(s),
{
    let t = if s.len() > 0 && s[0] == 'v' {
        s.skip(1)
    } else {
        s
    };
    if t.len() > 0 {
        if s[0] == 'v' {
            assert(t[0] == s[1]);
        }
        assert(!is_digit(t[0]));
    }
    if s.len() > 0 {
        assert(!is_digit(s[0]));
    }
}

/// A template has a word for each word of the first line of the command: the word
/// itself at the beginning and behind an operator that starts another command, and its
/// template elsewhere.
pub proof fn a_template_goes_word_by_word(cmd: Seq<char>, i: int)
    ensures
        words(template_of(cmd)).len() == words(first_line(cmd)).len(),
        template_of(cmd) == joined(words(template_of(cmd)), " "@),
        0 <= i < words(first_line(cmd)).len() ==> words(template_of(cmd))[i] == if i == 0
            || seq!["&&"@, "||"@, "|"@, ";"@].contains(words(first_line(cmd))[i - 1]) {
            words(first_line(cmd))[i]
        } else {
            token_template(words(first_line(cmd))[i], 1)
        },
{
    let w = words(first_line(cmd));
    let t = token_templates(w);
    crate::text::lemma_words(first_line(cmd));
    assert forall|k: int| 0 <= k < t.len() implies crate::text::is_word(#[trigger] t[k]) by {
        lemma_token_again(w[k], segment_index(w, k));
    }
    crate::text::joined_words_fall_apart_again(t);
    let seps = seq!["&&"@, "||"@, "|"@, ";"@];
    assert(seps[0] == "&&"@ && seps[1] == "||"@ && seps[2] == "|"@ && seps[3] == ";"@);
    if 0 < i < w.len() {
        assert(seps.contains(w[i - 1]) <==> is_separator(w[i - 1]));
    }
}

/// Behind the program name, a token that names a scheme other than those of the web
/// stays as it is, where it begins with a letter that begins no version and holds no at
/// sign.
pub proof fn other_schemes_stay(tok: Seq<char>, index: nat)
    requires
        tok.len() > 0,
        'a' <= tok[0] <= 'z',
        tok[0] != 'v',
        names_scheme(tok),
        forall|k: int| 0 <= k < tok.len() ==> #[trigger] tok[k] != '@',
        !begins_with(tok, "http://"@),
        !begins_with(tok, "https://"@),
    ensures
        token_template(tok, index) == tok,
{
    let (lo, hi) = quotes_are_taken_off(tok);
    let u = unquoted(tok);
    let k = choose|k: int|
        0 <= k < tok.len() - 2 && #[trigger] tok[k] == ':' && tok[k + 1] == '/' && tok[k + 2]
            == '/';
    if lo > 0 {
        assert(tok[0] == '"' || tok[0] == '\'');
    }
    assert(lo == 0);
    if hi <= k + 2 {
        assert(tok[k + 2] == '"' || tok[k + 2] == '\'');
    }
    assert(u[k] == ':' && u[k + 1] == '/' && u[k + 2] == '/');
    assert(names_scheme(u));
    lemma_scheme(u);
    assert(u[0] == tok[0]);
    reveal_strlit("/");
    reveal_strlit("./");
    reveal_strlit("~/");
    reveal_strlit("../");
    parts_stand_character_by_character(u, "/"@, 0);
    parts_stand_character_by_character(u, "./"@, 0);
    parts_stand_character_by_character(u, "~/"@, 0);
    parts_stand_character_by_character(u, "../"@, 0);
    if is_path(u) {
        if begins_with(u, "/"@) {
            assert(u[0int + 0] == "/"@[0]);
        }
        if begins_with(u, "./"@) {
            assert(u[0int + 0] == "./"@[0]);
        }
        if begins_with(u, "~/"@) {
            assert(u[0int + 0] == "~/"@[0]);
        }
        if begins_with(u, "../"@) {
            assert(u[0int + 0] == "../"@[0]);
        }
    }
    assert(!is_ascii_digit(tok[k]) && !('a' <= tok[k] && tok[k] <= 'f'));
    assert(!is_digit(tok[0]));
    lemma_last_index(tok, '@');
    if let Some(i) = last_index(tok, '@') {
        assert(tok[i] != '@');
    }
}

} // verus!
