//! What the board shows, as coloured text.
use crate::draft::reply::{concat, DraftView};
use crate::mine::candidates::{Candidate, CandidateView, SECOND};
use crate::number::{decimal, divide_rounded, round_half_even, to_decimal};
use crate::text::{chars_of, lines, same, split_lines, text_of, texts};
use crate::theme::{Color, Theme};
use crate::tool::{Tool, ToolView};
use crate::tui::board::{State, StateView};
use vstd::prelude::*;

verus! {

/// How much of a candidate's first template the list shows, in characters.
pub const HEAD: usize = 30;

/// A piece of text in one style.
pub struct Span {
    pub text: String,
    pub color: Color,
    pub bold: bool,
}

/// What a [`Span`] holds.
pub struct SpanView {
    pub text: Seq<char>,
    pub color: Color,
    pub bold: bool,
}

impl View for Span {
    type V = SpanView;

    open spec fn view(&self) -> SpanView {
        SpanView { text: self.text@, color: self.color, bold: self.bold }
    }
}

/// What a line holds.
pub open spec fn line_view(v: Seq<Span>) -> Seq<SpanView> {
    Seq::new(v.len(), |i: int| v[i]@)
}

/// What a list of lines holds.
pub open spec fn lines_view(v: Seq<Vec<Span>>) -> Seq<Seq<SpanView>> {
    Seq::new(v.len(), |i: int| line_view(v[i]@))
}

/// Text in one colour.
pub open spec fn plain(text: Seq<char>, color: Color) -> SpanView {
    SpanView { text, color, bold: false }
}

/// Bold text in one colour.
pub open spec fn strong(text: Seq<char>, color: Color) -> SpanView {
    SpanView { text, color, bold: true }
}

/// Text in one colour.
fn span(text: String, color: Color) -> (r: Span)
    ensures
        r@ == plain(text@, color),
{
    Span { text, color, bold: false }
}

/// Bold text in one colour.
fn bold(text: String, color: Color) -> (r: Span)
    ensures
        r@ == strong(text@, color),
{
    Span { text, color, bold: true }
}

// ---------------------------------------------------------------------------
// Marks
// ---------------------------------------------------------------------------

/// The mark of a kind of pattern.
pub open spec fn icon(kind: Seq<char>) -> Seq<char> {
    if kind == "sequence"@ {
        "⚡"@
    } else if kind == "fixloop"@ {
        "🔁"@
    } else if kind == "prompt"@ {
        "💬"@
    } else {
        "•"@
    }
}

/// The mark of a kind of pattern.
pub fn kind_icon(kind: &str) -> (r: String)
    ensures
        r@ == icon(kind@),
{
    if same(kind, "sequence") {
        "⚡".to_owned()
    } else if same(kind, "fixloop") {
        "🔁".to_owned()
    } else if same(kind, "prompt") {
        "💬".to_owned()
    } else {
        "•".to_owned()
    }
}

/// The mark of a state.
pub open spec fn state_mark(s: StateView, t: Theme) -> SpanView {
    match s {
        StateView::Idle => plain("○"@, t.dim),
        StateView::Queued => plain("…"@, t.warn),
        StateView::Drafting => plain("◐"@, t.warn),
        StateView::Drafted(_) => plain("●"@, t.accent),
        StateView::Failed(_) => plain("✗"@, t.err),
        StateView::Done(_) => plain("✓"@, t.ok),
    }
}

/// The mark of a state.
pub fn state_span(s: &State, t: &Theme) -> (r: Span)
    ensures
        r@ == state_mark(s@, *t),
{
    match s {
        State::Idle => span("○".to_owned(), t.dim),
        State::Queued => span("…".to_owned(), t.warn),
        State::Drafting => span("◐".to_owned(), t.warn),
        State::Drafted(_) => span("●".to_owned(), t.accent),
        State::Failed(_) => span("✗".to_owned(), t.err),
        State::Done(_) => span("✓".to_owned(), t.ok),
    }
}

// ---------------------------------------------------------------------------
// The list
// ---------------------------------------------------------------------------

/// The start of a text.
pub open spec fn head_of(s: Seq<char>) -> Seq<char> {
    if s.len() <= HEAD {
        s
    } else {
        s.take(HEAD as int)
    }
}

/// The line of a candidate in the list.
pub open spec fn list_line(c: CandidateView, s: StateView, t: Theme) -> Seq<SpanView> {
    seq![
        state_mark(s, t),
        plain(" "@ + icon(c.kind) + " "@, t.kind_color(c.kind)),
        plain(head_of(c.templates[0]), t.text),
        plain("  "@ + decimal(c.count) + "×"@, t.dim),
    ]
}

/// The start of a text.
fn cut_head(s: &str) -> (r: String)
    ensures
        r@ == head_of(s@),
{
    let c = chars_of(s);
    let n: usize = if c.len() <= HEAD {
        c.len()
    } else {
        HEAD
    };
    assert(c@.subrange(0, n as int) =~= head_of(s@));
    text_of(&c, 0, n)
}

/// The line of a candidate in the list.
pub fn list_row(c: &Candidate, s: &State, t: &Theme) -> (r: Vec<Span>)
    requires
        c.templates@.len() > 0,
    ensures
        line_view(r@) == list_line(c@, s@, *t),
{
    assert(c@.templates[0] == c.templates@[0]@);
    let mut mark = " ".to_owned();
    mark.append(kind_icon(c.kind.as_str()).as_str());
    mark.append(" ");
    let mut count = "  ".to_owned();
    count.append(to_decimal(c.count as u128).as_str());
    count.append("×");
    let mut out: Vec<Span> = Vec::new();
    out.push(state_span(s, t));
    out.push(span(mark, t.kind(c.kind.as_str())));
    out.push(span(cut_head(c.templates[0].as_str()), t.text));
    out.push(span(count, t.dim));
    assert(line_view(out@) =~= list_line(c@, s@, *t));
    out
}

// ---------------------------------------------------------------------------
// The details
// ---------------------------------------------------------------------------

/// The first line of the details.
pub open spec fn title_line(c: CandidateView, t: Theme) -> Seq<SpanView> {
    seq![
        strong(icon(c.kind) + " "@ + c.kind + " "@, t.kind_color(c.kind)),
        plain(
            "seen "@ + decimal(c.count) + "× · score "@ + decimal(
                round_half_even(c.score as nat, SECOND as nat),
            ),
            t.dim,
        ),
    ]
}

/// The lines of the first `n` templates.
pub open spec fn step_lines(templates: Seq<Seq<char>>, n: nat, t: Theme) -> Seq<Seq<SpanView>>
    decreases n,
{
    if n == 0 {
        Seq::empty()
    } else {
        step_lines(templates, (n - 1) as nat, t).push(
            seq![
                plain(
                    if n == 1 {
                        "  "@
                    } else {
                        "→ "@
                    },
                    t.dim,
                ),
                plain(templates[n - 1], t.text),
            ],
        )
    }
}

/// A rule of the given width.
pub open spec fn rule(n: nat) -> Seq<char> {
    Seq::new(n, |i: int| '─')
}

/// The lines of texts in one colour.
pub open spec fn plain_lines(s: Seq<Seq<char>>, color: Color) -> Seq<Seq<SpanView>> {
    Seq::new(s.len(), |i: int| seq![plain(s[i], color)])
}

/// How wide the rule below a draft's title is.
pub open spec fn rule_width(width: u16) -> nat {
    if width >= 4 {
        (width - 4) as nat
    } else {
        0
    }
}

/// The lines of a draft.
pub open spec fn draft_lines(d: DraftView, t: Theme, width: u16) -> Seq<Seq<SpanView>> {
    seq![
        seq![
            strong(d.name + " ("@ + d.kind + ")"@, t.ok),
            plain(" — "@ + d.summary, t.text),
        ],
        seq![plain(rule(rule_width(width)), t.dim)],
    ] + plain_lines(lines(d.content), t.text)
}

/// What is said while a draft is being made.
pub open spec fn drafting(tool: ToolView) -> Seq<char> {
    "drafting via "@ + tool.command + " -p …"@
}

/// The lines of a state.
pub open spec fn state_lines(
    s: StateView,
    t: Theme,
    tool: ToolView,
    width: u16,
) -> Seq<Seq<SpanView>> {
    match s {
        StateView::Idle => seq![seq![plain("press d to draft with "@ + tool.command, t.dim)]],
        StateView::Queued => seq![seq![plain(drafting(tool), t.warn)]],
        StateView::Drafting => seq![seq![plain(drafting(tool), t.warn)]],
        StateView::Failed(e) => seq![seq![plain(e, t.err)]],
        StateView::Done(m) => seq![seq![plain(m, t.ok)]],
        StateView::Drafted(d) => draft_lines(d, t, width),
    }
}

/// The details of a candidate.
pub open spec fn detail_lines(
    c: CandidateView,
    s: StateView,
    t: Theme,
    tool: ToolView,
    width: u16,
) -> Seq<Seq<SpanView>> {
    seq![title_line(c, t), Seq::empty()] + step_lines(c.templates, c.templates.len(), t)
        + seq![Seq::<SpanView>::empty()] + state_lines(s, t, tool, width)
}

/// A line of one span.
fn single(s: Span) -> (r: Vec<Span>)
    ensures
        line_view(r@) == seq![s@],
{
    let ghost sv = s@;
    let mut v: Vec<Span> = Vec::new();
    v.push(s);
    assert(line_view(v@) =~= seq![sv]);
    v
}

/// A line of two spans.
fn double(a: Span, b: Span) -> (r: Vec<Span>)
    ensures
        line_view(r@) == seq![a@, b@],
{
    let ghost (av, bv) = (a@, b@);
    let mut v: Vec<Span> = Vec::new();
    v.push(a);
    v.push(b);
    assert(line_view(v@) =~= seq![av, bv]);
    v
}

/// Adds a line.
fn add_line(out: &mut Vec<Vec<Span>>, line: Vec<Span>)
    ensures
        lines_view(final(out)@) == lines_view(old(out)@).push(line_view(line@)),
{
    let ghost before = lines_view(out@);
    let ghost lv = line_view(line@);
    out.push(line);
    assert(lines_view(out@) =~= before.push(lv));
}

/// An empty line.
fn empty_line() -> (r: Vec<Span>)
    ensures
        line_view(r@) == Seq::<SpanView>::empty(),
{
    let v: Vec<Span> = Vec::new();
    assert(line_view(v@) =~= Seq::<SpanView>::empty());
    v
}

/// A rule of the given width.
pub fn draw_rule(n: usize) -> (r: String)
    ensures
        r@ == rule(n as nat),
{
    let mut out = String::new();
    let mut i: usize = 0;
    while i < n
        invariant
            i <= n,
            out@.len() == i,
            forall|k: int| 0 <= k < i ==> #[trigger] out@[k] == '─',
        decreases n - i,
    {
        out.push('─');
        i += 1;
    }
    assert(out@ =~= rule(n as nat));
    out
}

/// What is said while a draft is being made.
pub fn drafting_text(tool: &Tool) -> (r: String)
    ensures
        r@ == drafting(tool@),
{
    let mut out = "drafting via ".to_owned();
    out.append(tool.command.as_str());
    out.append(" -p …");
    out
}

/// Adds the lines of a state.
fn add_state(out: &mut Vec<Vec<Span>>, s: &State, t: &Theme, tool: &Tool, width: u16)
    ensures
        lines_view(final(out)@) == lines_view(old(out)@) + state_lines(s@, *t, tool@, width),
{
    let ghost before = lines_view(out@);
    match s {
        State::Idle => add_line(out, single(span(concat("press d to draft with ", tool.command.as_str()), t.dim))),
        State::Queued => add_line(out, single(span(drafting_text(tool), t.warn))),
        State::Drafting => add_line(out, single(span(drafting_text(tool), t.warn))),
        State::Failed(e) => add_line(out, single(span(e.clone(), t.err))),
        State::Done(m) => add_line(out, single(span(m.clone(), t.ok))),
        State::Drafted(d) => {
            let mut title = d.name.clone();
            title.append(" (");
            title.append(d.kind.as_str());
            title.append(")");
            add_line(
                out,
                double(bold(title, t.ok), span(concat(" — ", d.summary.as_str()), t.text)),
            );
            let w: usize = if width >= 4 {
                (width - 4) as usize
            } else {
                0
            };
            add_line(out, single(span(draw_rule(w), t.dim)));
            let content = split_lines(d.content.as_str());
            let ghost cv = lines(d.content@);
            let ghost head = lines_view(out@);
            let ghost all = plain_lines(cv, t.text);
            let mut i: usize = 0;
            assert(head + all.take(0) =~= head);
            while i < content.len()
                invariant
                    i <= content@.len(),
                    texts(content@) == cv,
                    cv.len() == content@.len(),
                    all == plain_lines(cv, t.text),
                    lines_view(out@) == head + all.take(i as int),
                decreases content@.len() - i,
            {
                assert(cv[i as int] == content@[i as int]@);
                add_line(out, single(span(content[i].clone(), t.text)));
                i += 1;
                assert(lines_view(out@) =~= head + all.take(i as int));
            }
            assert(all.take(i as int) =~= all);
        },
    }
    assert(lines_view(out@) =~= before + state_lines(s@, *t, tool@, width));
}

/// The details of a candidate, for a pane of the given width.
pub fn detail(c: &Candidate, s: &State, t: &Theme, tool: &Tool, width: u16) -> (r: Vec<Vec<Span>>)
    ensures
        lines_view(r@) == detail_lines(c@, s@, *t, tool@, width),
{
    let mut title = kind_icon(c.kind.as_str());
    title.append(" ");
    title.append(c.kind.as_str());
    title.append(" ");
    let mut seen = "seen ".to_owned();
    seen.append(to_decimal(c.count as u128).as_str());
    seen.append("× · score ");
    seen.append(to_decimal(divide_rounded(c.score, SECOND)).as_str());
    let mut out: Vec<Vec<Span>> = Vec::new();
    assert(lines_view(out@) =~= Seq::<Seq<SpanView>>::empty());
    add_line(&mut out, double(bold(title, t.kind(c.kind.as_str())), span(seen, t.dim)));
    add_line(&mut out, empty_line());
    let ghost head = lines_view(out@);
    let ghost tv = texts(c.templates@);
    assert(head =~= seq![title_line(c@, *t), Seq::empty()]);
    let mut i: usize = 0;
    assert(head + step_lines(tv, 0, *t) =~= head);
    while i < c.templates.len()
        invariant
            i <= c.templates@.len(),
            tv == texts(c.templates@),
            lines_view(out@) == head + step_lines(tv, i as nat, *t),
        decreases c.templates@.len() - i,
    {
        assert(tv[i as int] == c.templates@[i as int]@);
        let arrow = if i == 0 {
            "  ".to_owned()
        } else {
            "→ ".to_owned()
        };
        add_line(&mut out, double(span(arrow, t.dim), span(c.templates[i].clone(), t.text)));
        i += 1;
        assert(lines_view(out@) =~= head + step_lines(tv, i as nat, *t));
    }
    add_line(&mut out, empty_line());
    assert(lines_view(out@) =~= head + step_lines(tv, tv.len(), *t) + seq![
        Seq::<SpanView>::empty(),
    ]);
    add_state(&mut out, s, t, tool, width);
    out
}

// ---------------------------------------------------------------------------
// The status line
// ---------------------------------------------------------------------------

/// The status line.
pub open spec fn status_text(active: nat, auto: bool) -> Seq<char> {
    " j/k move · d draft · a accept · i ignore · A draft+accept ALL · q quit "@ + (if active > 0 {
        "· "@ + decimal(active) + " drafting "@
    } else {
        Seq::<char>::empty()
    }) + (if auto {
        "· AUTO "@
    } else {
        Seq::<char>::empty()
    })
}

/// The status line.
pub fn status(active: usize, auto: bool) -> (r: String)
    ensures
        r@ == status_text(active as nat, auto),
{
    let mut out =
        " j/k move · d draft · a accept · i ignore · A draft+accept ALL · q quit ".to_owned();
    let ghost head = out@;
    if active > 0 {
        out.append("· ");
        out.append(to_decimal(active as u128).as_str());
        out.append(" drafting ");
    }
    if auto {
        out.append("· AUTO ");
    }
    assert(out@ =~= status_text(active as nat, auto));
    out
}

/// The head of a row are the first thirty characters of its first step.
pub proof fn a_head_is_the_beginning(s: Seq<char>, t: Seq<char>)
    ensures
        s.len() <= 30 ==> head_of(s) == s,
        s.len() == 30 ==> head_of(s + t) == s,
{
    let all = s + t;
    if s.len() == 30 {
        assert(all.take(30) =~= s);
        if t.len() == 0 {
            assert(all =~= s);
        }
    }
}

/// The steps of a pattern come one to a line, in order.
pub proof fn each_step_has_a_line(templates: Seq<Seq<char>>, n: nat, t: Theme, i: int)
    requires
        0 <= i < n <= templates.len(),
    ensures
        step_lines(templates, n, t).len() == n,
        step_lines(templates, n, t)[i].len() == 2,
        step_lines(templates, n, t)[i][1].text == templates[i],
        step_lines(templates, n, t)[i][1].color == t.text,
    decreases n,
{
    if i < n - 1 {
        each_step_has_a_line(templates, (n - 1) as nat, t, i);
    } else if n > 1 {
        each_step_has_a_line(templates, (n - 1) as nat, t, 0);
    } else {
        assert(step_lines(templates, 0, t).len() == 0);
    }
}

} // verus!
