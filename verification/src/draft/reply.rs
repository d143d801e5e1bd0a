//! How an answer of the drafter is read.
use crate::text::{
    chars_of, find, find_last, first_index, last_index, lemma_first_index, lemma_last_index, same,
    text_of,
};
use crate::tool::{Tool, ToolView};
use vstd::prelude::*;

verus! {

/// How much of an answer is quoted when it cannot be read, in characters.
pub const QUOTE: usize = 200;

// ---------------------------------------------------------------------------
// Framing
// ---------------------------------------------------------------------------

/// What is found between the first opening and the last closing bracket.
pub enum Framed {
    /// A bracket is missing.
    Missing,
    /// The brackets stand the wrong way round.
    Reversed,
    /// The text from the first opening to the last closing bracket.
    Found(String),
}

/// What a [`Framed`] holds.
pub enum FramedView {
    Missing,
    Reversed,
    Found(Seq<char>),
}

impl View for Framed {
    type V = FramedView;

    open spec fn view(&self) -> FramedView {
        match *self {
            Framed::Missing => FramedView::Missing,
            Framed::Reversed => FramedView::Reversed,
            Framed::Found(s) => FramedView::Found(s@),
        }
    }
}

/// What stands between the first `open` and the last `close`.
pub open spec fn framed(text: Seq<char>, open: char, close: char) -> FramedView {
    match (first_index(text, open), last_index(text, close)) {
        (Some(i), Some(j)) => if j < i {
            FramedView::Reversed
        } else {
            FramedView::Found(text.subrange(i, j + 1))
        },
        _ => FramedView::Missing,
    }
}

/// Cuts out what stands between the brackets.
pub fn frame(text: &str, open: char, close: char) -> (r: Framed)
    ensures
        r@ == framed(text@, open, close),
{
    let c = chars_of(text);
    let n: usize = c.len();
    proof {
        lemma_first_index(text@, open);
        lemma_last_index(text@, close);
    }
    match (find(&c, open), find_last(&c, close)) {
        (Some(i), Some(j)) => {
            if j < i {
                Framed::Reversed
            } else {
                assert(j < n);
                Framed::Found(text_of(&c, i, j + 1))
            }
        },
        _ => Framed::Missing,
    }
}

/// Prose and fences around an object are passed over: what stands before it
/// holds no opening, what stands after it no closing bracket.
pub proof fn prose_around_an_object_is_passed_over(
    before: Seq<char>,
    object: Seq<char>,
    after: Seq<char>,
    open: char,
    close: char,
)
    requires
        object.len() > 0,
        object[0] == open,
        object.last() == close,
        forall|i: int| 0 <= i < before.len() ==> #[trigger] before[i] != open,
        forall|i: int| 0 <= i < after.len() ==> #[trigger] after[i] != close,
    ensures
        framed(before + object + after, open, close) == FramedView::Found(object),
{
    let text = before + object + after;
    let i = before.len() as int;
    let j = before.len() + object.len() - 1;
    lemma_first_index(text, open);
    lemma_last_index(text, close);
    assert(text[i] == open);
    assert(text[j] == close);
    let a = first_index(text, open)->0;
    if a < i {
        assert(text[a] == before[a]);
    }
    let b = last_index(text, close)->0;
    if b > j {
        assert(text[b] == after[b - j - 1]);
    }
    assert(text.subrange(i, j + 1) =~= object);
}

// ---------------------------------------------------------------------------
// Drafts
// ---------------------------------------------------------------------------

/// A drafted automation: a script, an alias or a skill.
#[derive(Debug)]
pub struct Draft {
    pub name: String,
    pub kind: String,
    pub summary: String,
    pub content: String,
}

/// What a [`Draft`] holds.
pub struct DraftView {
    pub name: Seq<char>,
    pub kind: Seq<char>,
    pub summary: Seq<char>,
    pub content: Seq<char>,
}

impl View for Draft {
    type V = DraftView;

    open spec fn view(&self) -> DraftView {
        DraftView {
            name: self.name@,
            kind: self.kind@,
            summary: self.summary@,
            content: self.content@,
        }
    }
}

/// Why an answer is no draft.
pub enum DraftError {
    /// It holds no object.
    NoJson,
    /// Its brackets stand the wrong way round.
    NoObject,
    /// Its object cannot be read; with the start of the answer.
    Unparseable(String),
    /// The draft is of a kind that is not known.
    UnknownKind(String),
    /// The name of the draft is no plain name.
    BadName(String),
}

/// What a [`DraftError`] holds.
pub enum DraftErrorView {
    NoJson,
    NoObject,
    Unparseable(Seq<char>),
    UnknownKind(Seq<char>),
    BadName(Seq<char>),
}

impl View for DraftError {
    type V = DraftErrorView;

    open spec fn view(&self) -> DraftErrorView {
        match *self {
            DraftError::NoJson => DraftErrorView::NoJson,
            DraftError::NoObject => DraftErrorView::NoObject,
            DraftError::Unparseable(s) => DraftErrorView::Unparseable(s@),
            DraftError::UnknownKind(s) => DraftErrorView::UnknownKind(s@),
            DraftError::BadName(s) => DraftErrorView::BadName(s@),
        }
    }
}

/// The message of a draft error.
pub open spec fn draft_message(e: DraftErrorView, tool: ToolView) -> Seq<char> {
    match e {
        DraftErrorView::NoJson => "no JSON in "@ + tool.command + " output"@,
        DraftErrorView::NoObject => "no JSON object in "@ + tool.command + " output"@,
        DraftErrorView::Unparseable(s) => "unparseable draft: "@ + s,
        DraftErrorView::UnknownKind(s) => "unknown draft kind: "@ + s,
        DraftErrorView::BadName(s) => "bad draft name: "@ + s,
    }
}

/// A text followed by another.
pub(crate) fn concat(a: &str, b: &str) -> (r: String)
    ensures
        r@ == a@ + b@,
{
    let mut out = a.to_owned();
    out.append(b);
    out
}

impl DraftError {
    /// The message of the error.
    pub fn message(&self, tool: &Tool) -> (r: String)
        ensures
            r@ == draft_message(self@, tool@),
    {
        match self {
            DraftError::NoJson => concat(concat("no JSON in ", tool.command.as_str()).as_str(), " output"),
            DraftError::NoObject => concat(
                concat("no JSON object in ", tool.command.as_str()).as_str(),
                " output",
            ),
            DraftError::Unparseable(s) => concat("unparseable draft: ", s.as_str()),
            DraftError::UnknownKind(s) => concat("unknown draft kind: ", s.as_str()),
            DraftError::BadName(s) => concat("bad draft name: ", s.as_str()),
        }
    }
}

/// The object of an answer, or why there is none.
pub fn draft_object(text: &str) -> (r: Result<String, DraftError>)
    ensures
        match r {
            Ok(s) => framed(text@, '{', '}') == FramedView::Found(s@),
            Err(e) => match framed(text@, '{', '}') {
                FramedView::Missing => e@ == DraftErrorView::NoJson,
                FramedView::Reversed => e@ == DraftErrorView::NoObject,
                FramedView::Found(_) => false,
            },
        },
{
    match frame(text, '{', '}') {
        Framed::Missing => Err(DraftError::NoJson),
        Framed::Reversed => Err(DraftError::NoObject),
        Framed::Found(s) => Ok(s),
    }
}

/// The first characters of an answer.
pub open spec fn excerpt(text: Seq<char>) -> Seq<char> {
    if text.len() <= QUOTE {
        text
    } else {
        text.take(QUOTE as int)
    }
}

/// The error for an answer whose object cannot be read.
pub fn unparseable(text: &str) -> (r: DraftError)
    ensures
        r@ == DraftErrorView::Unparseable(excerpt(text@)),
{
    let c = chars_of(text);
    let n: usize = if c.len() <= QUOTE {
        c.len()
    } else {
        QUOTE
    };
    assert(c@.subrange(0, n as int) =~= excerpt(text@));
    DraftError::Unparseable(text_of(&c, 0, n))
}

/// The kinds of draft.
pub open spec fn known_kind(kind: Seq<char>) -> bool {
    kind == "script"@ || kind == "alias"@ || kind == "skill"@
}

/// Whether a name is plain: not empty, and without slash or dot, so that it names
/// a file right below a directory.
pub open spec fn plain_name(name: Seq<char>) -> bool {
    name.len() > 0 && forall|i: int|
        0 <= i < name.len() ==> #[trigger] name[i] != '/' && name[i] != '.'
}

/// What is wrong with a draft, if anything.
pub open spec fn draft_fault(d: DraftView) -> Option<DraftErrorView> {
    if !known_kind(d.kind) {
        Some(DraftErrorView::UnknownKind(d.kind))
    } else if !plain_name(d.name) {
        Some(DraftErrorView::BadName(d.name))
    } else {
        None
    }
}

/// Decides [`plain_name`].
fn is_plain(name: &str) -> (r: bool)
    ensures
        r == plain_name(name@),
{
    let c = chars_of(name);
    let mut i: usize = 0;
    while i < c.len()
        invariant
            i <= c@.len(),
            c@ == name@,
            forall|k: int| 0 <= k < i ==> #[trigger] name@[k] != '/' && name@[k] != '.',
        decreases c@.len() - i,
    {
        if c[i] == '/' || c[i] == '.' {
            return false;
        }
        i += 1;
    }
    c.len() > 0
}

/// Accepts a draft of a known kind with a plain name.
pub fn check_draft(d: Draft) -> (r: Result<Draft, DraftError>)
    ensures
        match r {
            Ok(x) => x@ == d@ && draft_fault(d@) is None,
            Err(e) => draft_fault(d@) == Some(e@),
        },
{
    if !(same(d.kind.as_str(), "script") || same(d.kind.as_str(), "alias") || same(
        d.kind.as_str(),
        "skill",
    )) {
        return Err(DraftError::UnknownKind(d.kind));
    }
    if !is_plain(d.name.as_str()) {
        return Err(DraftError::BadName(d.name));
    }
    Ok(d)
}

// ---------------------------------------------------------------------------
// Groups
// ---------------------------------------------------------------------------

/// The lists of numbers that `serde_json` reads from a text, if it holds them.
pub uninterp spec fn read_groups(s: Seq<char>) -> Option<Seq<Seq<u64>>>;

/// What lists of numbers hold.
pub open spec fn numbers_view(v: Seq<Vec<u64>>) -> Seq<Seq<u64>> {
    Seq::new(v.len(), |i: int| v[i]@)
}

/// `serde_json::from_str` to lists of numbers. Whether the text is a JSON array
/// of arrays of numbers and what they are depends on the text alone.
#[verifier::external_body]
fn groups_from_json(s: &str) -> (r: Option<Vec<Vec<u64>>>)
    ensures
        (match r {
            Some(v) => Some(numbers_view(v@)),
            None => None,
        }) == read_groups(s@),
{
    serde_json::from_str::<Vec<Vec<u64>>>(s).ok()
}

/// Why an answer holds no groups.
#[derive(Clone, Copy, PartialEq, Eq, Debug, Structural)]
pub enum GroupError {
    /// It holds no array.
    NoArray,
    /// Its brackets stand the wrong way round.
    Malformed,
    /// Its array is not one of arrays of numbers.
    Unparseable,
}

/// Lists of indices as lists of numbers.
pub open spec fn indices_view(v: Seq<Vec<usize>>) -> Seq<Seq<nat>> {
    Seq::new(v.len(), |i: int| index_view(v[i]@))
}

/// A list of indices as a list of numbers.
pub open spec fn index_view(v: Seq<usize>) -> Seq<nat> {
    Seq::new(v.len(), |i: int| v[i] as nat)
}

/// Numbers as natural numbers.
pub open spec fn naturals(v: Seq<Seq<u64>>) -> Seq<Seq<nat>> {
    Seq::new(v.len(), |i: int| Seq::new(v[i].len(), |k: int| v[i][k] as nat))
}

/// Whether numbers can be indices.
pub open spec fn all_indices(v: Seq<Seq<u64>>) -> bool {
    forall|i: int, k: int|
        0 <= i < v.len() && 0 <= k < v[i].len() ==> (#[trigger] v[i][k]) <= usize::MAX
}

/// What reading the groups of an answer gives, when `read` is what its array
/// reads as.
pub open spec fn groups_or_error(
    f: FramedView,
    read: Option<Seq<Seq<u64>>>,
) -> Result<Seq<Seq<nat>>, GroupError> {
    match f {
        FramedView::Missing => Err(GroupError::NoArray),
        FramedView::Reversed => Err(GroupError::Malformed),
        FramedView::Found(_) => match read {
            Some(v) => if all_indices(v) {
                Ok(naturals(v))
            } else {
                Err(GroupError::Unparseable)
            },
            None => Err(GroupError::Unparseable),
        },
    }
}

/// The text that an answer has for its groups.
pub open spec fn group_text(text: Seq<char>) -> Seq<char> {
    match framed(text, '[', ']') {
        FramedView::Found(s) => s,
        _ => Seq::empty(),
    }
}

/// Makes indices of numbers, if all of them can be.
fn to_indices(v: &Vec<u64>) -> (r: Option<Vec<usize>>)
    ensures
        match r {
            Some(x) => index_view(x@) == Seq::new(v@.len(), |k: int| v@[k] as nat) && forall|k: int|
                0 <= k < v@.len() ==> (#[trigger] v@[k]) <= usize::MAX,
            None => exists|k: int| 0 <= k < v@.len() && (#[trigger] v@[k]) > usize::MAX,
        },
{
    let mut out: Vec<usize> = Vec::new();
    let mut k: usize = 0;
    while k < v.len()
        invariant
            k <= v@.len(),
            out@.len() == k,
            forall|j: int| 0 <= j < k ==> (#[trigger] out@[j]) == v@[j],
        decreases v@.len() - k,
    {
        if v[k] > usize::MAX as u64 {
            return None;
        }
        out.push(v[k] as usize);
        k += 1;
    }
    assert forall|j: int| 0 <= j < v@.len() implies (#[trigger] v@[j]) <= usize::MAX by {
        assert(out@[j] == v@[j]);
    }
    assert(index_view(out@) =~= Seq::new(v@.len(), |j: int| v@[j] as nat));
    Some(out)
}

/// The groups that an array of arrays of numbers stands for.
pub fn to_groups(read: &Vec<Vec<u64>>) -> (r: Result<Vec<Vec<usize>>, GroupError>)
    ensures
        match r {
            Ok(v) => all_indices(numbers_view(read@)) && indices_view(v@) == naturals(
                numbers_view(read@),
            ),
            Err(e) => !all_indices(numbers_view(read@)) && e == GroupError::Unparseable,
        },
{
    let ghost nv = numbers_view(read@);
    let mut out: Vec<Vec<usize>> = Vec::new();
    let mut i: usize = 0;
    while i < read.len()
        invariant
            i <= read@.len(),
            nv == numbers_view(read@),
            out@.len() == i,
            forall|j: int|
                0 <= j < i ==> index_view((#[trigger] out@[j])@) == naturals(nv)[j],
            forall|j: int, k: int|
                0 <= j < i && 0 <= k < nv[j].len() ==> (#[trigger] nv[j][k]) <= usize::MAX,
        decreases read@.len() - i,
    {
        assert(nv[i as int] == read@[i as int]@);
        match to_indices(&read[i]) {
            Some(x) => {
                assert(index_view(x@) =~= naturals(nv)[i as int]);
                out.push(x);
            },
            None => {
                let ghost k = choose|k: int|
                    0 <= k < read@[i as int]@.len() && (#[trigger] read@[i as int]@[k])
                        > usize::MAX;
                assert(nv[i as int][k] > usize::MAX);
                return Err(GroupError::Unparseable);
            },
        }
        i += 1;
    }
    assert(indices_view(out@) =~= naturals(nv));
    Ok(out)
}

/// Reads the groups of an answer: an array of arrays of numbers, with whatever
/// stands around it.
pub fn parse_groups(text: &str) -> (r: Result<Vec<Vec<usize>>, GroupError>)
    ensures
        (match r {
            Ok(v) => Ok(indices_view(v@)),
            Err(e) => Err(e),
        }) == groups_or_error(framed(text@, '[', ']'), read_groups(group_text(text@))),
{
    match frame(text, '[', ']') {
        Framed::Missing => Err(GroupError::NoArray),
        Framed::Reversed => Err(GroupError::Malformed),
        Framed::Found(s) => match groups_from_json(s.as_str()) {
            Some(v) => to_groups(&v),
            None => Err(GroupError::Unparseable),
        },
    }
}

// ---------------------------------------------------------------------------
// Revisions
// ---------------------------------------------------------------------------

/// What the drafter advises for an artifact that did not stick.
#[derive(Debug)]
pub struct Revision {
    pub action: String,
    pub reason: String,
    pub content: String,
}

/// What a [`Revision`] holds.
pub struct RevisionView {
    pub action: Seq<char>,
    pub reason: Seq<char>,
    pub content: Seq<char>,
}

impl View for Revision {
    type V = RevisionView;

    open spec fn view(&self) -> RevisionView {
        RevisionView { action: self.action@, reason: self.reason@, content: self.content@ }
    }
}

/// What may be advised.
pub open spec fn known_action(a: Seq<char>) -> bool {
    a == "revise"@ || a == "retire"@
}

/// Accepts a revision whose action is known; else says what is wrong with it.
pub fn check_revision(v: Revision) -> (r: Result<Revision, String>)
    ensures
        match r {
            Ok(x) => x@ == v@ && known_action(v@.action),
            Err(e) => e@ == "unknown revision action: "@ + v@.action && !known_action(v@.action),
        },
{
    if same(v.action.as_str(), "revise") || same(v.action.as_str(), "retire") {
        Ok(v)
    } else {
        Err(concat("unknown revision action: ", v.action.as_str()))
    }
}

/// What is found in an answer begins with its first opening bracket and ends with its
/// last closing one; it is missing exactly when one of the two is, and the wrong way
/// round exactly when every closing one stands before every opening one.
pub proof fn an_object_goes_from_the_first_to_the_last_bracket(
    text: Seq<char>,
    open: char,
    close: char,
)
    ensures
        framed(text, open, close) is Missing <==> !text.contains(open) || !text.contains(close),
        framed(text, open, close) is Reversed <==> text.contains(open) && text.contains(close)
            && forall|i: int, j: int|
            0 <= i < text.len() && 0 <= j < text.len() && #[trigger] text[i] == open
                && #[trigger] text[j] == close ==> j < i,
        framed(text, open, close) matches FramedView::Found(s) ==> s.len() > 0 && s[0] == open
            && s.last() == close,
{
    lemma_first_index(text, open);
    lemma_last_index(text, close);
    if text.contains(open) {
        let i = choose|i: int| 0 <= i < text.len() && text[i] == open;
        assert(text[i] == open);
    }
    if text.contains(close) {
        let j = choose|j: int| 0 <= j < text.len() && text[j] == close;
        assert(text[j] == close);
    }
    match (first_index(text, open), last_index(text, close)) {
        (Some(i), Some(j)) => {
            assert(text.contains(text[i]) && text.contains(text[j]));
            if j < i {
                assert forall|a: int, b: int|
                    0 <= a < text.len() && 0 <= b < text.len() && #[trigger] text[a] == open
                        && #[trigger] text[b] == close implies b < a by {
                    if a < i {
                        assert(text[a] != open);
                    }
                    if b > j {
                        assert(text[b] != close);
                    }
                }
            } else {
                assert(text[i] == open && text[j] == close);
                let s = text.subrange(i, j + 1);
                assert(s[0] == text[i] && s.last() == text[j]);
            }
        },
        _ => {},
    }
}

/// A draft is taken exactly when it is a script, an alias or a skill and its name is
/// neither empty nor holds a slash or a dot; the first fault is the one that is told.
pub proof fn a_draft_is_taken_when_its_kind_and_name_are_plain(d: DraftView)
    ensures
        draft_fault(d) is None <==> seq!["script"@, "alias"@, "skill"@].contains(d.kind)
            && d.name.len() > 0 && !d.name.contains('/') && !d.name.contains('.'),
        !seq!["script"@, "alias"@, "skill"@].contains(d.kind) ==> draft_fault(d) == Some(
            DraftErrorView::UnknownKind(d.kind),
        ),
        seq!["script"@, "alias"@, "skill"@].contains(d.kind) && draft_fault(d) is Some
            ==> draft_fault(d) == Some(DraftErrorView::BadName(d.name)),
{
    let k = seq!["script"@, "alias"@, "skill"@];
    assert(k[0] == "script"@ && k[1] == "alias"@ && k[2] == "skill"@);
    assert(k.contains(d.kind) <==> known_kind(d.kind));
    if plain_name(d.name) {
        assert(!d.name.contains('/') && !d.name.contains('.'));
    }
    if d.name.len() > 0 && !d.name.contains('/') && !d.name.contains('.') {
        assert forall|j: int| 0 <= j < d.name.len() implies #[trigger] d.name[j] != '/'
            && d.name[j] != '.' by {
            assert(d.name.contains(d.name[j]));
        }
    }
}

/// What is told of an answer that cannot be read are its first two hundred characters.
pub proof fn an_excerpt_is_the_beginning(s: Seq<char>, t: Seq<char>)
    ensures
        s.len() <= 200 ==> excerpt(s) == s,
        s.len() == 200 ==> excerpt(s + t) == s,
{
    let all = s + t;
    if s.len() == 200 {
        assert(all.take(200) =~= s);
        if t.len() == 0 {
            assert(all =~= s);
        }
    }
}

/// Groups come as they were read, number for number, exactly when the answer holds an
/// array of arrays of indices.
pub proof fn groups_come_as_they_were_read(f: FramedView, read: Option<Seq<Seq<u64>>>, i: int, k: int)
    ensures
        groups_or_error(f, read) is Ok <==> f is Found && read is Some && forall|a: int, b: int|
            0 <= a < read->0.len() && 0 <= b < read->0[a].len() ==> (#[trigger] read->0[a][b])
                <= usize::MAX,
        groups_or_error(f, read) is Ok ==> groups_or_error(f, read)->Ok_0.len() == read->0.len(),
        groups_or_error(f, read) is Ok && 0 <= i < read->0.len() ==> groups_or_error(
            f,
            read,
        )->Ok_0[i].len() == read->0[i].len(),
        groups_or_error(f, read) is Ok && 0 <= i < read->0.len() && 0 <= k < read->0[i].len()
            ==> groups_or_error(f, read)->Ok_0[i][k] == read->0[i][k],
        f is Missing ==> groups_or_error(f, read) == Err::<Seq<Seq<nat>>, GroupError>(
            GroupError::NoArray,
        ),
        f is Reversed ==> groups_or_error(f, read) == Err::<Seq<Seq<nat>>, GroupError>(
            GroupError::Malformed,
        ),
{
}

} // verus!
