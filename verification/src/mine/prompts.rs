//! Prompts to AI tools: their content words and how similar two of them are.
use crate::count::how_many;
use crate::group::{distinct, group, lemma_distinct};
use crate::intern::Interner;
use crate::text::{
    ascii_lower, chars_of, first_index, is_run, is_space, lowercase, pieces, pieces_are_the_runs, same,
    split, texts, to_lowercase, trim_left, trim_start, Separator,
};
use vstd::prelude::*;
use vstd::utf8::{encode_utf8, is_ascii_chars};

verus! {

/// How many distinct content words a prompt must have to be compared: with fewer,
/// prompts would pool on a single shared word.
pub const MIN_CONTENT_WORDS: usize = 3;

/// The shortest prompt that is looked at, in characters.
pub const MIN_PROMPT: usize = 12;

/// The longest prompt that is looked at, in characters.
pub const MAX_PROMPT: usize = 300;

/// The shortest word that carries content, in bytes.
pub const MIN_WORD: usize = 3;

// ---------------------------------------------------------------------------
// Content words
// ---------------------------------------------------------------------------

/// Words that do not tell one intent from another: politeness, glue, and the
/// interchangeable verbs for producing something.
pub open spec fn stopword(w: Seq<char>) -> bool {
    ||| w == "the"@
    ||| w == "and"@
    ||| w == "for"@
    ||| w == "this"@
    ||| w == "that"@
    ||| w == "then"@
    ||| w == "please"@
    ||| w == "can"@
    ||| w == "you"@
    ||| w == "your"@
    ||| w == "its"@
    ||| w == "with"@
    ||| w == "from"@
    ||| w == "into"@
    ||| w == "onto"@
    ||| w == "using"@
    ||| w == "about"@
    ||| w == "also"@
    ||| w == "just"@
    ||| w == "write"@
    ||| w == "generate"@
    ||| w == "draft"@
    ||| w == "create"@
    ||| w == "make"@
    ||| w == "give"@
    ||| w == "help"@
    ||| w == "based"@
}

/// Decides [`stopword`].
pub fn is_stopword(w: &str) -> (r: bool)
    ensures
        r == stopword(w@),
{
    same(w, "the")
        || same(w, "and")
        || same(w, "for")
        || same(w, "this")
        || same(w, "that")
        || same(w, "then")
        || same(w, "please")
        || same(w, "can")
        || same(w, "you")
        || same(w, "your")
        || same(w, "its")
        || same(w, "with")
        || same(w, "from")
        || same(w, "into")
        || same(w, "onto")
        || same(w, "using")
        || same(w, "about")
        || same(w, "also")
        || same(w, "just")
        || same(w, "write")
        || same(w, "generate")
        || same(w, "draft")
        || same(w, "create")
        || same(w, "make")
        || same(w, "give")
        || same(w, "help")
        || same(w, "based")
}

/// Whether a word carries content.
pub open spec fn telling(w: Seq<char>) -> bool {
    encode_utf8(w).len() >= MIN_WORD && !stopword(w)
}

/// The words that carry content.
pub open spec fn telling_words(p: Seq<Seq<char>>) -> Seq<Seq<char>>
    decreases p.len(),
{
    if p.len() == 0 {
        Seq::empty()
    } else if telling(p.last()) {
        telling_words(p.drop_last()).push(p.last())
    } else {
        telling_words(p.drop_last())
    }
}

/// The distinct content words of a text in lower case.
pub open spec fn lower_words(lower: Seq<char>) -> Seq<Seq<char>> {
    let all = telling_words(pieces(lower, Separator::NonWord));
    distinct(all, all.len())
}

/// The distinct content words of a text, in lower case.
pub open spec fn content_words(text: Seq<char>) -> Seq<Seq<char>> {
    lower_words(lowercase(text))
}

/// The distinct content words of a text.
pub fn word_set(text: &str) -> (r: Vec<String>)
    ensures
        texts(r@) == content_words(text@),
        is_ascii_chars(text@) ==> texts(r@) == lower_words(
            text@.map_values(|c: char| ascii_lower(c)),
        ),
{
    let lower = to_lowercase(text);
    words_in(lower.as_str())
}

/// The distinct content words of a text in lower case.
pub fn words_in(lower: &str) -> (r: Vec<String>)
    ensures
        texts(r@) == lower_words(lower@),
{
    let parts = split(lower, Separator::NonWord);
    let ghost p = texts(parts@);
    let mut kept: Vec<String> = Vec::new();
    let mut i: usize = 0;
    assert(texts(kept@) =~= telling_words(p.take(0)));
    while i < parts.len()
        invariant
            i <= parts@.len(),
            p == texts(parts@),
            texts(kept@) == telling_words(p.take(i as int)),
        decreases parts@.len() - i,
    {
        let ghost before = texts(kept@);
        assert(p.take(i + 1).drop_last() =~= p.take(i as int));
        assert(p.take(i + 1).last() == parts@[i as int]@);
        let w = &parts[i];
        if w.as_str().as_bytes().len() >= MIN_WORD && !is_stopword(w.as_str()) {
            kept.push(w.clone());
            assert(texts(kept@) =~= before.push(w@));
        }
        i += 1;
    }
    assert(p.take(i as int) =~= p);
    let groups = group(&kept);
    groups.names
}

/// A text has each content word once.
pub proof fn content_words_are_distinct(text: Seq<char>)
    ensures
        content_words(text).no_duplicates(),
{
    let all = telling_words(pieces(lowercase(text), Separator::NonWord));
    lemma_distinct(all, all.len());
}

// ---------------------------------------------------------------------------
// Similarity
// ---------------------------------------------------------------------------

/// How many of the words `a` are among `b`.
pub open spec fn shared(a: Seq<Seq<char>>, b: Seq<Seq<char>>) -> nat
    decreases a.len(),
{
    if a.len() == 0 {
        0
    } else {
        shared(a.drop_last(), b) + if b.contains(a.last()) {
            1nat
        } else {
            0
        }
    }
}

/// Whether two sets of words share at least two words and at least two fifths of
/// all.
pub open spec fn similar(a: Seq<Seq<char>>, b: Seq<Seq<char>>) -> bool {
    let inter = shared(a, b);
    inter >= 2 && 5 * inter >= 2 * (a.len() + b.len() - inter)
}

/// Whether a word is among others.
fn has_word(b: &Vec<String>, w: &str) -> (r: bool)
    ensures
        r == texts(b@).contains(w@),
{
    let ghost t = texts(b@);
    let mut i: usize = 0;
    while i < b.len()
        invariant
            i <= b@.len(),
            t == texts(b@),
            forall|k: int| 0 <= k < i ==> t[k] != w@,
        decreases b@.len() - i,
    {
        assert(t[i as int] == b@[i as int]@);
        if same(b[i].as_str(), w) {
            return true;
        }
        i += 1;
    }
    false
}

/// Decides [`similar`].
pub fn is_similar(a: &Vec<String>, b: &Vec<String>) -> (r: bool)
    ensures
        r == similar(texts(a@), texts(b@)),
{
    let ghost x = texts(a@);
    let ghost y = texts(b@);
    let mut inter: usize = 0;
    let mut i: usize = 0;
    assert(x.take(0).len() == 0);
    while i < a.len()
        invariant
            i <= a@.len(),
            x == texts(a@),
            y == texts(b@),
            inter == shared(x.take(i as int), y),
            inter <= i,
        decreases a@.len() - i,
    {
        assert(x.take(i + 1).drop_last() =~= x.take(i as int));
        assert(x.take(i + 1).last() == a@[i as int]@);
        if has_word(b, a[i].as_str()) {
            inter += 1;
        }
        i += 1;
    }
    assert(x.take(i as int) =~= x);
    let n: u128 = a.len() as u128;
    let m: u128 = b.len() as u128;
    let k: u128 = inter as u128;
    k >= 2 && 5 * k >= 2 * (n + m - k)
}

/// Removing a word from a sequence without duplicates.
proof fn lemma_shared_without(a: Seq<Seq<char>>, b: Seq<Seq<char>>, w: Seq<char>)
    requires
        b.contains(w),
        b.no_duplicates(),
        a.no_duplicates(),
    ensures
        shared(a, b) == shared(a, b.remove(b.index_of(w))) + if a.contains(w) {
            1nat
        } else {
            0
        },
    decreases a.len(),
{
    let at = b.index_of(w);
    let rest = b.remove(at);
    if a.len() > 0 {
        let front = a.drop_last();
        let last = a.last();
        lemma_shared_without(front, b, w);
        assert(rest.contains(last) <==> b.contains(last) && last != w) by {
            if rest.contains(last) {
                let i = choose|i: int| 0 <= i < rest.len() && rest[i] == last;
                if i < at {
                    assert(b[i] == last);
                } else {
                    assert(b[i + 1] == last);
                }
            }
            if b.contains(last) && last != w {
                let i = choose|i: int| 0 <= i < b.len() && b[i] == last;
                if i < at {
                    assert(rest[i] == last);
                } else {
                    assert(rest[i - 1] == last);
                }
            }
        }
        assert(a.contains(w) <==> front.contains(w) || last == w) by {
            if a.contains(w) {
                let i = choose|i: int| 0 <= i < a.len() && a[i] == w;
                if i < front.len() {
                    assert(front[i] == w);
                }
            }
            if front.contains(w) {
                let i = choose|i: int| 0 <= i < front.len() && front[i] == w;
                assert(a[i] == w);
            }
            assert(a[a.len() - 1] == last);
        }
        if last == w && front.contains(w) {
            let i = choose|i: int| 0 <= i < front.len() && front[i] == w;
            assert(a[i] == a[a.len() - 1]);
        }
    }
}

/// Nothing is shared with no words.
proof fn lemma_shared_none(a: Seq<Seq<char>>)
    ensures
        shared(a, Seq::empty()) == 0,
    decreases a.len(),
{
    if a.len() > 0 {
        lemma_shared_none(a.drop_last());
    }
}

/// As many words of `a` are among `b` as words of `b` are among `a`.
proof fn lemma_shared_symmetric(a: Seq<Seq<char>>, b: Seq<Seq<char>>)
    requires
        a.no_duplicates(),
        b.no_duplicates(),
    ensures
        shared(a, b) == shared(b, a),
    decreases b.len(),
{
    if b.len() == 0 {
        assert(b =~= Seq::empty());
        lemma_shared_none(a);
    } else {
        let w = b.last();
        let n = b.len() - 1;
        assert(b[n] == w);
        assert(b.index_of(w) == n);
        assert(b.remove(n) =~= b.drop_last());
        lemma_shared_without(a, b, w);
        lemma_shared_symmetric(a, b.drop_last());
    }
}

/// Similarity of prompts does not depend on which of them is looked at first.
pub proof fn similarity_is_symmetric(a: Seq<char>, b: Seq<char>)
    ensures
        similar(content_words(a), content_words(b)) == similar(content_words(b), content_words(a)),
{
    content_words_are_distinct(a);
    content_words_are_distinct(b);
    lemma_shared_symmetric(content_words(a), content_words(b));
}

// ---------------------------------------------------------------------------
// Which prompts count
// ---------------------------------------------------------------------------

/// A prompt, with the tool and session it belongs to.
pub struct PromptRow {
    pub source: String,
    pub session: String,
    pub seq: i64,
    pub raw: String,
}

/// What a [`PromptRow`] holds.
pub struct PromptView {
    pub source: Seq<char>,
    pub session: Seq<char>,
    pub seq: i64,
    pub raw: Seq<char>,
}

impl View for PromptRow {
    type V = PromptView;

    open spec fn view(&self) -> PromptView {
        PromptView {
            source: self.source@,
            session: self.session@,
            seq: self.seq,
            raw: self.raw@,
        }
    }
}

/// What a sequence of prompts holds.
pub open spec fn prompts_view(v: Seq<PromptRow>) -> Seq<PromptView> {
    Seq::new(v.len(), |i: int| v[i]@)
}

/// Whether a text is a directive to the tool and no ask in plain language, such
/// as a skill call, a slash command or a shell escape.
pub open spec fn directive(raw: Seq<char>) -> bool {
    let t = trim_left(raw);
    t.len() > 0 && (t[0] == '$' || t[0] == '/' || t[0] == '!')
}

/// Decides [`directive`].
pub fn is_directive(raw: &str) -> (r: bool)
    ensures
        r == directive(raw@),
{
    let t = chars_of(trim_start(raw).as_str());
    t.len() > 0 && (t[0] == '$' || t[0] == '/' || t[0] == '!')
}

/// The length of a text as the database counts it: in characters, up to the
/// first NUL.
pub open spec fn stored_length(raw: Seq<char>) -> int {
    match first_index(raw, '\0') {
        Some(i) => i,
        None => raw.len() as int,
    }
}

/// Whether a prompt can be compared with others.
pub open spec fn askable(raw: Seq<char>) -> bool {
    &&& MIN_PROMPT <= stored_length(raw) <= MAX_PROMPT
    &&& !directive(raw)
    &&& content_words(raw).len() >= MIN_CONTENT_WORDS
}

/// Decides [`askable`].
pub fn is_askable(raw: &str) -> (r: bool)
    ensures
        r == askable(raw@),
{
    let chars = chars_of(raw);
    let n: usize = match crate::text::find(&chars, '\0') {
        Some(i) => i,
        None => chars.len(),
    };
    n >= MIN_PROMPT && n <= MAX_PROMPT && !is_directive(raw) && word_set(raw).len()
        >= MIN_CONTENT_WORDS
}

/// The texts of prompts.
pub open spec fn raws(rows: Seq<PromptView>) -> Seq<Seq<char>> {
    Seq::new(rows.len(), |i: int| rows[i].raw)
}

/// The prompts that can be compared, each text once: a transcript that continues
/// in a new session repeats what was said before, so identical text is one
/// utterance.
pub open spec fn asks(rows: Seq<PromptView>) -> Seq<PromptView>
    decreases rows.len(),
{
    if rows.len() == 0 {
        Seq::empty()
    } else {
        let before = asks(rows.drop_last());
        if askable(rows.last().raw) && !raws(before).contains(rows.last().raw) {
            before.push(rows.last())
        } else {
            before
        }
    }
}

/// A copy of a prompt.
fn copy_prompt(p: &PromptRow) -> (r: PromptRow)
    ensures
        r@ == p@,
{
    PromptRow {
        source: p.source.clone(),
        session: p.session.clone(),
        seq: p.seq,
        raw: p.raw.clone(),
    }
}

/// Keeps the prompts that can be compared, each text once.
pub fn load_prompts(rows: &Vec<PromptRow>) -> (r: Vec<PromptRow>)
    ensures
        prompts_view(r@) == asks(prompts_view(rows@)),
{
    let ghost all = prompts_view(rows@);
    let mut seen = Interner::new();
    let mut out: Vec<PromptRow> = Vec::new();
    let mut i: usize = 0;
    assert(prompts_view(out@) =~= asks(all.take(0)));
    assert(seen@ =~= raws(prompts_view(out@)));
    while i < rows.len()
        invariant
            i <= rows@.len(),
            all == prompts_view(rows@),
            seen.wf(),
            prompts_view(out@) == asks(all.take(i as int)),
            seen@ == raws(prompts_view(out@)),
        decreases rows@.len() - i,
    {
        let ghost before = prompts_view(out@);
        assert(all.take(i + 1).drop_last() =~= all.take(i as int));
        assert(all.take(i + 1).last() == rows@[i as int]@);
        let p = &rows[i];
        if is_askable(p.raw.as_str()) {
            match seen.find(p.raw.as_str()) {
                Some(_) => {
                    assert(seen@.contains(p.raw@));
                },
                None => {
                    let _ = seen.intern(p.raw.as_str());
                    out.push(copy_prompt(p));
                    assert(prompts_view(out@) =~= before.push(p@));
                    assert(seen@ =~= raws(prompts_view(out@)));
                },
            }
        }
        i += 1;
    }
    assert(all.take(i as int) =~= all);
    out
}

/// Every prompt that counts can be compared, and no text counts twice.
pub proof fn no_ask_counts_twice(rows: Seq<PromptView>)
    ensures
        raws(asks(rows)).no_duplicates(),
        forall|k: int| 0 <= k < asks(rows).len() ==> askable((#[trigger] asks(rows)[k]).raw),
    decreases rows.len(),
{
    if rows.len() > 0 {
        let before = asks(rows.drop_last());
        no_ask_counts_twice(rows.drop_last());
        assert forall|i: int, j: int|
            0 <= i < asks(rows).len() && 0 <= j < asks(rows).len() && i != j implies raws(
            asks(rows),
        )[i] != raws(asks(rows))[j] by {
            if i < before.len() {
                assert(raws(before)[i] == raws(asks(rows))[i]);
                assert(raws(before).contains(raws(before)[i]));
            }
            if j < before.len() {
                assert(raws(before)[j] == raws(asks(rows))[j]);
                assert(raws(before).contains(raws(before)[j]));
            }
        }
    }
}

// ---------------------------------------------------------------------------
// Recurrence
// ---------------------------------------------------------------------------

/// A prompt with its number.
pub struct AskRow {
    pub id: i64,
    pub raw: String,
}

/// How many of the first `n` prompts came after `min_id` and are similar to
/// `ask`.
pub open spec fn recurrences(rows: Seq<AskRow>, n: nat, ask: Seq<char>, min_id: i64) -> nat
    decreases n,
{
    if n == 0 {
        0
    } else {
        recurrences(rows, (n - 1) as nat, ask, min_id) + if rows[n - 1].id > min_id && similar(
            content_words(ask),
            content_words(rows[n - 1].raw@),
        ) {
            1nat
        } else {
            0
        }
    }
}

/// Counts how often an ask recurred after a decision was made.
pub fn ask_recurrence_since(rows: &Vec<AskRow>, ask: &str, min_id: i64) -> (r: usize)
    ensures
        r == recurrences(rows@, rows@.len(), ask@, min_id),
{
    let target = word_set(ask);
    let mut n: usize = 0;
    let mut i: usize = 0;
    while i < rows.len()
        invariant
            i <= rows@.len(),
            texts(target@) == content_words(ask@),
            n == recurrences(rows@, i as nat, ask@, min_id),
            n <= i,
        decreases rows@.len() - i,
    {
        if rows[i].id > min_id {
            let words = word_set(rows[i].raw.as_str());
            if is_similar(&target, &words) {
                n += 1;
            }
        }
        i += 1;
    }
    n
}

// ---------------------------------------------------------------------------
// What similarity and recurrence mean
// ---------------------------------------------------------------------------

/// The shared words are the intersection of the two sets of words.
proof fn lemma_shared_is_intersection(a: Seq<Seq<char>>, b: Seq<Seq<char>>)
    requires
        a.no_duplicates(),
    ensures
        shared(a, b) == a.to_set().intersect(b.to_set()).len(),
        a.to_set().finite(),
        a.to_set().intersect(b.to_set()).finite(),
    decreases a.len(),
{
    broadcast use {vstd::set::group_set_axioms, vstd::seq_lib::seq_to_set_is_finite};

    let both = a.to_set().intersect(b.to_set());
    if a.len() == 0 {
        assert(both =~= Set::empty());
    } else {
        let front = a.drop_last();
        let less = front.to_set().intersect(b.to_set());
        lemma_shared_is_intersection(front, b);
        assert(a.to_set() =~= front.to_set().insert(a.last())) by {
            assert forall|x: Seq<char>| a.to_set().contains(x) implies #[trigger] front.to_set().insert(
                a.last(),
            ).contains(x) by {
                let i = choose|i: int| 0 <= i < a.len() && a[i] == x;
                if i < front.len() {
                    assert(front[i] == x);
                }
            }
            assert forall|x: Seq<char>| front.to_set().insert(a.last()).contains(x) implies #[trigger] a.to_set().contains(
                x,
            ) by {
                if front.to_set().contains(x) {
                    let i = choose|i: int| 0 <= i < front.len() && front[i] == x;
                    assert(a[i] == x);
                } else {
                    assert(a[a.len() - 1] == x);
                }
            }
        }
        assert(!front.to_set().contains(a.last())) by {
            if front.contains(a.last()) {
                let i = choose|i: int| 0 <= i < front.len() && front[i] == a.last();
                assert(a[i] == a[a.len() - 1]);
            }
        }
        if b.contains(a.last()) {
            assert(both =~= less.insert(a.last()));
        } else {
            assert(both =~= less);
        }
    }
}

/// Two sets of words are similar exactly when they have at least two words in
/// common and these are at least two fifths of the words of both together.
pub proof fn similar_words_are_two_fifths_of_all(a: Seq<Seq<char>>, b: Seq<Seq<char>>)
    requires
        a.no_duplicates(),
        b.no_duplicates(),
    ensures
        similar(a, b) <==> a.to_set().intersect(b.to_set()).len() >= 2 && 5 * a.to_set().intersect(
            b.to_set(),
        ).len() >= 2 * a.to_set().union(b.to_set()).len(),
{
    broadcast use vstd::seq_lib::seq_to_set_is_finite;

    lemma_shared_is_intersection(a, b);
    a.unique_seq_to_set();
    b.unique_seq_to_set();
    vstd::set_lib::lemma_set_intersect_union_lens(a.to_set(), b.to_set());
    assert(a.to_set() + b.to_set() =~= a.to_set().union(b.to_set()));
}

/// Two prompts are similar exactly when the sets of their content words share two
/// words or more, and two fifths of all.
pub proof fn similar_prompts_share_two_fifths(a: Seq<char>, b: Seq<char>)
    ensures
        ({
            let (x, y) = (content_words(a).to_set(), content_words(b).to_set());
            similar(content_words(a), content_words(b)) <==> x.intersect(y).len() >= 2 && 5
                * x.intersect(y).len() >= 2 * x.union(y).len()
        }),
{
    content_words_are_distinct(a);
    content_words_are_distinct(b);
    similar_words_are_two_fifths_of_all(content_words(a), content_words(b));
}

/// An ask recurs as often as there are prompts after the boundary whose content
/// words share two words or more with its own, and two fifths of all.
pub proof fn recurrences_are_later_similar_prompts(
    rows: Seq<AskRow>,
    n: nat,
    ask: Seq<char>,
    min_id: i64,
)
    requires
        n <= rows.len(),
    ensures
        recurrences(rows, n, ask, min_id) == how_many(
            n,
            |i: int|
                rows[i].id > min_id && {
                    let (x, y) = (
                        content_words(ask).to_set(),
                        content_words(rows[i].raw@).to_set(),
                    );
                    x.intersect(y).len() >= 2 && 5 * x.intersect(y).len() >= 2 * x.union(y).len()
                },
        ),
    decreases n,
{
    if n > 0 {
        recurrences_are_later_similar_prompts(rows, (n - 1) as nat, ask, min_id);
        similar_prompts_share_two_fifths(ask, rows[n - 1].raw@);
    }
}

/// The words that tell nothing are these.
pub proof fn glue_words_tell_nothing(w: Seq<char>)
    ensures
        stopword(w) <==> seq![
            "the"@, "and"@, "for"@, "this"@, "that"@, "then"@, "please"@, "can"@, "you"@,
            "your"@, "its"@, "with"@, "from"@, "into"@, "onto"@, "using"@, "about"@, "also"@,
            "just"@, "write"@, "generate"@, "draft"@, "create"@, "make"@, "give"@, "help"@,
            "based"@,
        ].contains(w),
{
    let all = seq![
        "the"@, "and"@, "for"@, "this"@, "that"@, "then"@, "please"@, "can"@, "you"@,
        "your"@, "its"@, "with"@, "from"@, "into"@, "onto"@, "using"@, "about"@, "also"@,
        "just"@, "write"@, "generate"@, "draft"@, "create"@, "make"@, "give"@, "help"@,
        "based"@,
    ];
    if stopword(w) {
        assert(all[0] == "the"@ && all[1] == "and"@ && all[2] == "for"@ && all[3] == "this"@
            && all[4] == "that"@ && all[5] == "then"@ && all[6] == "please"@ && all[7] == "can"@
            && all[8] == "you"@ && all[9] == "your"@ && all[10] == "its"@ && all[11] == "with"@
            && all[12] == "from"@ && all[13] == "into"@ && all[14] == "onto"@ && all[15]
            == "using"@ && all[16] == "about"@ && all[17] == "also"@ && all[18] == "just"@
            && all[19] == "write"@ && all[20] == "generate"@ && all[21] == "draft"@ && all[22]
            == "create"@ && all[23] == "make"@ && all[24] == "give"@ && all[25] == "help"@
            && all[26] == "based"@);
    }
}

/// Which words are kept.
proof fn lemma_telling_words(p: Seq<Seq<char>>, w: Seq<char>)
    ensures
        telling_words(p).contains(w) <==> p.contains(w) && telling(w),
    decreases p.len(),
{
    if p.len() > 0 {
        let front = p.drop_last();
        let before = telling_words(front);
        let now = telling_words(p);
        lemma_telling_words(front, w);
        assert(p.contains(w) <==> front.contains(w) || p.last() == w) by {
            if p.contains(w) {
                let i = choose|i: int| 0 <= i < p.len() && p[i] == w;
                if i < front.len() {
                    assert(front[i] == w);
                }
            }
            if front.contains(w) {
                let i = choose|i: int| 0 <= i < front.len() && front[i] == w;
                assert(p[i] == w);
            }
            assert(p[p.len() - 1] == p.last());
        }
        if telling(p.last()) {
            assert(now.contains(w) <==> before.contains(w) || p.last() == w) by {
                if before.contains(w) {
                    let i = choose|i: int| 0 <= i < before.len() && before[i] == w;
                    assert(now[i] == w);
                }
                assert(now[before.len() as int] == p.last());
                if now.contains(w) {
                    let i = choose|i: int| 0 <= i < now.len() && now[i] == w;
                    if i < before.len() {
                        assert(before[i] == w);
                    }
                }
            }
        }
    }
}

/// The content words of a text are the runs of letters and digits in its lower
/// case that take three bytes or more and are no glue words.
pub proof fn content_words_are_the_long_runs(text: Seq<char>, w: Seq<char>)
    ensures
        content_words(text).contains(w) <==> !stopword(w) && encode_utf8(w).len() >= 3 && exists|
            lo: int,
            hi: int,
        | #[trigger]
            is_run(lowercase(text), Separator::NonWord, lo, hi) && w == lowercase(text).subrange(
                lo,
                hi,
            ),
{
    let lower = lowercase(text);
    let p = pieces(lower, Separator::NonWord);
    let all = telling_words(p);
    lemma_distinct(all, all.len());
    lemma_telling_words(p, w);
    pieces_are_the_runs(lower, Separator::NonWord, w);
    if content_words(text).contains(w) {
        let i = choose|i: int| 0 <= i < all.len() && #[trigger] all[i] == w;
        assert(all.contains(w));
    }
    if all.contains(w) {
        let i = choose|i: int| 0 <= i < all.len() && all[i] == w;
        assert(all[i] == w);
    }
}

/// A prompt can be compared exactly when the database counts 12 to 300 characters
/// in it, it has three content words or more, and the first character that is no
/// white space is none of those that begin a directive.
pub proof fn asks_are_plain_sentences(raw: Seq<char>)
    ensures
        askable(raw) <==> {
            &&& 12 <= stored_length(raw) <= 300
            &&& content_words(raw).to_set().len() >= 3
            &&& forall|i: int|
                0 <= i < raw.len() && (forall|j: int| 0 <= j < i ==> is_space(#[trigger] raw[j]))
                    && !is_space(raw[i]) ==> #[trigger] raw[i] != '$' && raw[i] != '/' && raw[i]
                    != '!'
        },
        (forall|i: int| 0 <= i < raw.len() ==> #[trigger] raw[i] != '\0') ==> stored_length(raw)
            == raw.len(),
{
    content_words_are_distinct(raw);
    content_words(raw).unique_seq_to_set();
    crate::text::lemma_first_index(raw, '\0');
    let n = lemma_trim_left(raw);
    let t = trim_left(raw);
    if t.len() > 0 {
        assert(t[0] == raw[n]);
    }
    assert forall|i: int|
        0 <= i < raw.len() && (forall|j: int| 0 <= j < i ==> is_space(#[trigger] raw[j]))
            && !is_space(raw[i]) implies i == n by {
        if i < n {
            assert(is_space(raw[i]));
        }
        if n < i {
            assert(is_space(raw[n]));
        }
    }
}

/// How much white space is trimmed.
proof fn lemma_trim_left(s: Seq<char>) -> (n: int)
    ensures
        0 <= n <= s.len(),
        trim_left(s) == s.skip(n),
        forall|j: int| 0 <= j < n ==> is_space(#[trigger] s[j]),
        n < s.len() ==> !is_space(s[n]),
    decreases s.len(),
{
    if s.len() > 0 && is_space(s[0]) {
        let t = s.drop_first();
        let n = lemma_trim_left(t);
        assert(t.skip(n) =~= s.skip(n + 1));
        assert forall|j: int| 0 <= j < n + 1 implies is_space(#[trigger] s[j]) by {
            if j > 0 {
                assert(is_space(t[j - 1]));
            }
        }
        if n < t.len() {
            assert(t[n] == s[n + 1]);
        }
        n + 1
    } else {
        assert(s.skip(0) =~= s);
        0
    }
}

/// Every prompt that can be compared counts, once, as it was first typed; nothing
/// else does.
pub proof fn every_ask_counts_as_first_typed(rows: Seq<PromptView>, i: int)
    requires
        0 <= i < rows.len(),
    ensures
        askable(rows[i].raw) && (forall|j: int| 0 <= j < i ==> (#[trigger] rows[j]).raw != rows[i].raw)
            ==> asks(rows).contains(rows[i]),
        forall|k: int| 0 <= k < asks(rows).len() ==> rows.contains(#[trigger] asks(rows)[k]),
        forall|k: int|
            0 <= k < asks(rows).len() && (#[trigger] asks(rows)[k]).raw == rows[i].raw ==> exists|
                j: int,
            | 0 <= j <= i && #[trigger] rows[j] == asks(rows)[k],
    decreases rows.len(),
{
    let front = rows.drop_last();
    let before = asks(front);
    let now = asks(rows);
    no_ask_counts_twice(rows);
    if i < front.len() {
        every_ask_counts_as_first_typed(front, i);
        assert(front[i] == rows[i]);
        if before.contains(rows[i]) {
            let k = choose|k: int| 0 <= k < before.len() && before[k] == rows[i];
            assert(now[k] == rows[i]);
        }
        if forall|j: int| 0 <= j < i ==> (#[trigger] rows[j]).raw != rows[i].raw {
            assert forall|j: int| 0 <= j < i implies (#[trigger] front[j]).raw != front[i].raw by {
                assert(front[j] == rows[j]);
            }
        }
    } else if front.len() > 0 {
        every_ask_counts_as_first_typed(front, 0);
    }
    assert forall|k: int| 0 <= k < now.len() implies rows.contains(#[trigger] now[k]) by {
        if k < before.len() {
            assert(front.contains(before[k]));
            let j = choose|j: int| 0 <= j < front.len() && front[j] == before[k];
            assert(rows[j] == now[k]);
        } else {
            assert(rows[rows.len() - 1] == now[k]);
        }
    }
    if i == front.len() && askable(rows[i].raw) && (forall|j: int|
        0 <= j < i ==> (#[trigger] rows[j]).raw != rows[i].raw) {
        if raws(before).contains(rows[i].raw) {
            let k = choose|k: int| 0 <= k < before.len() && raws(before)[k] == rows[i].raw;
            assert(front.contains(before[k]));
            let j = choose|j: int| 0 <= j < front.len() && front[j] == before[k];
            assert(rows[j].raw == rows[i].raw);
        }
        assert(now[before.len() as int] == rows[i]);
    }
    assert forall|k: int| 0 <= k < now.len() && (#[trigger] now[k]).raw == rows[i].raw implies exists|
        j: int,
    | 0 <= j <= i && #[trigger] rows[j] == now[k] by {
        if k < before.len() {
            if i < front.len() {
                assert(before[k].raw == front[i].raw);
                let j = choose|j: int| 0 <= j <= i && #[trigger] front[j] == before[k];
                assert(rows[j] == now[k]);
            } else {
                assert(front.contains(before[k]));
                let j = choose|j: int| 0 <= j < front.len() && front[j] == before[k];
                assert(rows[j] == now[k]);
            }
        } else {
            assert(now[k] == rows[rows.len() - 1]);
            if i < front.len() {
                // an earlier row of this text would have counted in its place
                lemma_ask_known(front, i);
                assert(raws(before).contains(rows[i].raw));
            }
        }
    }
}

/// A comparable prompt is known once it was seen.
proof fn lemma_ask_known(rows: Seq<PromptView>, i: int)
    requires
        0 <= i < rows.len(),
        askable(rows[i].raw),
    ensures
        raws(asks(rows)).contains(rows[i].raw),
    decreases rows.len(),
{
    let front = rows.drop_last();
    let before = asks(front);
    let now = asks(rows);
    if i < front.len() {
        lemma_ask_known(front, i);
        let k = choose|k: int| 0 <= k < before.len() && raws(before)[k] == front[i].raw;
        assert(raws(now)[k] == rows[i].raw);
    } else if raws(before).contains(rows[i].raw) {
        let k = choose|k: int| 0 <= k < before.len() && raws(before)[k] == rows[i].raw;
        assert(raws(now)[k] == rows[i].raw);
    } else {
        assert(raws(now)[before.len() as int] == rows[i].raw);
    }
}

} // verus!
