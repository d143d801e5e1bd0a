//! Repeated workflows: the frequent multi-step command sequences of a history,
//! one for each true workflow.
use crate::intern::Interner;
use crate::mine::pattern::{
    by_score, patterns_view, scores, sort_by_score, weigh, weighed, Pattern,
    PatternView,
};
use crate::mine::sequences::{
    canonical, canonical_rotation, canonical_rotation_identifies_cycles, has_period, is_noise,
    is_quasi_periodic, is_retry_loop, is_rotation, noise, quasi_periodic, retry_loop,
};
use crate::mine::streams::{
    a_beginning_occurs_as_often, counted_at, disjoint, lemma_newer_rows, lemma_support_bound,
    lemma_total_steps_take, lemma_workflow_size, load_workflows, occurs_at, picked, rows_view,
    starts, steps_view, streams_view, support, support_is_the_most_without_overlap, support_since,
    support_since_is_part_of_support, total_steps, workflow_streams, RowView, Step, StepView,
    StreamRow,
};
use crate::mine::timing::{run_ms, template_seconds, timing_view, TimingRow, TimingView};
use crate::order::{rank, ranked, reordered};
use crate::text::{clone_all, texts};
use vstd::prelude::*;

verus! {

/// The shortest sequence that counts as a workflow.
pub const MIN_LEN: usize = 2;

/// The longest sequence that is looked for.
pub const MAX_LEN: usize = 7;

/// How often a sequence has to occur.
pub const MIN_COUNT: usize = 3;

/// A sequence of templates and how often it occurred.
pub struct Gram {
    pub templates: Vec<String>,
    pub count: usize,
}

/// What a [`Gram`] holds.
pub struct GramView {
    pub templates: Seq<Seq<char>>,
    pub count: nat,
}

impl View for Gram {
    type V = GramView;

    open spec fn view(&self) -> GramView {
        GramView { templates: texts(self.templates@), count: self.count as nat }
    }
}

/// What a sequence of grams holds.
pub open spec fn grams_view(v: Seq<Gram>) -> Seq<GramView> {
    Seq::new(v.len(), |i: int| v[i]@)
}

// ---------------------------------------------------------------------------
// All windows of all streams
// ---------------------------------------------------------------------------

/// The templates of the `len` steps from `start` on.
pub open spec fn window(s: Seq<StepView>, start: int, len: int) -> Seq<Seq<char>> {
    Seq::new(len as nat, |k: int| s[start + k].template)
}

/// How many windows begin at `start`.
pub open spec fn windows_at(s: Seq<StepView>, start: int) -> nat {
    let room = s.len() - start;
    if room < MIN_LEN {
        0
    } else if room > MAX_LEN {
        (MAX_LEN - MIN_LEN + 1) as nat
    } else {
        (room - MIN_LEN + 1) as nat
    }
}

/// The windows that begin at `start`, the shortest first.
pub open spec fn grams_at(s: Seq<StepView>, start: int) -> Seq<Seq<Seq<char>>> {
    Seq::new(windows_at(s, start), |k: int| window(s, start, MIN_LEN + k))
}

/// The windows that begin among the first `n` steps.
pub open spec fn grams_of(s: Seq<StepView>, n: nat) -> Seq<Seq<Seq<char>>>
    decreases n,
{
    if n == 0 {
        Seq::empty()
    } else {
        grams_of(s, (n - 1) as nat) + grams_at(s, n - 1)
    }
}

/// The windows of all streams, in order.
pub open spec fn all_grams(streams: Seq<Seq<StepView>>) -> Seq<Seq<Seq<char>>>
    decreases streams.len(),
{
    if streams.len() == 0 {
        Seq::empty()
    } else {
        all_grams(streams.drop_last()) + grams_of(streams.last(), streams.last().len())
    }
}

/// Whether a gram is already listed.
pub open spec fn listed(f: Seq<GramView>, g: Seq<Seq<char>>) -> bool {
    exists|k: int| 0 <= k < f.len() && (#[trigger] f[k]).templates == g
}

/// Those of `grams` that occur often enough in the streams, each once, by first
/// appearance.
pub open spec fn frequent(
    streams: Seq<Seq<StepView>>,
    grams: Seq<Seq<Seq<char>>>,
) -> Seq<GramView>
    decreases grams.len(),
{
    if grams.len() == 0 {
        Seq::empty()
    } else {
        let before = frequent(streams, grams.drop_last());
        let g = grams.last();
        if support(streams, g) >= MIN_COUNT && !listed(before, g) {
            before.push(GramView { templates: g, count: support(streams, g) })
        } else {
            before
        }
    }
}

// ---------------------------------------------------------------------------
// Filters
// ---------------------------------------------------------------------------

/// The grams that neither repeat a shorter unit nor retry one step.
pub open spec fn workflows(f: Seq<GramView>) -> Seq<GramView>
    decreases f.len(),
{
    if f.len() == 0 {
        Seq::empty()
    } else if quasi_periodic(f.last().templates) || is_retry_loop(f.last().templates) {
        workflows(f.drop_last())
    } else {
        workflows(f.drop_last()).push(f.last())
    }
}

/// The rank of a gram: longer ones first, then more frequent ones.
pub open spec fn length_key(g: GramView) -> u128 {
    (g.templates.len() * 0x1_0000_0000_0000_0000 + g.count) as u128
}

/// The grams with the longest first.
pub open spec fn by_length(f: Seq<GramView>) -> Seq<GramView> {
    reordered(f, ranked(Seq::new(f.len(), |i: int| length_key(f[i]))))
}

/// How many steps two windows of a gram of `n` steps must share: all but one,
/// but at least two.
pub open spec fn shared_width(n: int) -> int {
    if n - 1 > 2 {
        n - 1
    } else if n > 2 {
        2
    } else {
        n
    }
}

/// Whether the window of `a` at `i` and that of `b` at `j` agree.
pub open spec fn windows_agree(
    a: Seq<Seq<char>>,
    i: int,
    b: Seq<Seq<char>>,
    j: int,
) -> bool {
    let w = shared_width(a.len() as int);
    let v = if w < b.len() {
        w
    } else {
        b.len() as int
    };
    &&& 0 <= i
    &&& i + w <= a.len()
    &&& 0 <= j
    &&& j + v <= b.len()
    &&& a.subrange(i, i + w) == b.subrange(j, j + v)
}

/// Whether `a` shares all but one of its steps with `b`.
pub open spec fn overlaps(a: Seq<Seq<char>>, b: Seq<Seq<char>>) -> bool {
    exists|i: int, j: int| #[trigger] windows_agree(a, i, b, j)
}

/// Whether one of `kept` is the same workflow as `g`, seen at least three
/// fifths as often.
pub open spec fn shadowed(kept: Seq<GramView>, g: GramView) -> bool {
    exists|k: int|
        0 <= k < kept.len() && 5 * (#[trigger] kept[k]).count >= 3 * g.count && overlaps(
            g.templates,
            kept[k].templates,
        )
}

/// The grams that no gram before them shadows.
pub open spec fn unshadowed(f: Seq<GramView>) -> Seq<GramView>
    decreases f.len(),
{
    if f.len() == 0 {
        Seq::empty()
    } else {
        let kept = unshadowed(f.drop_last());
        if shadowed(kept, f.last()) {
            kept
        } else {
            kept.push(f.last())
        }
    }
}

/// Where the cycle of `g` stands among `f`, if it does.
pub open spec fn cycle_index(f: Seq<GramView>, g: Seq<Seq<char>>) -> Option<int>
    decreases f.len(),
{
    if f.len() == 0 {
        None
    } else {
        match cycle_index(f.drop_last(), g) {
            Some(k) => Some(k),
            None => if canonical(f.last().templates) == canonical(g) {
                Some(f.len() - 1)
            } else {
                None
            },
        }
    }
}

/// The most frequent representative of each class of rotations; the first one
/// among equally frequent ones.
pub open spec fn one_per_cycle(f: Seq<GramView>) -> Seq<GramView>
    decreases f.len(),
{
    if f.len() == 0 {
        Seq::empty()
    } else {
        let kept = one_per_cycle(f.drop_last());
        let g = f.last();
        match cycle_index(kept, g.templates) {
            Some(k) => if g.count > kept[k].count {
                kept.update(k, g)
            } else {
                kept
            },
            None => kept.push(g),
        }
    }
}

/// Whether a gram has two different steps and one that is not noise.
pub open spec fn worthwhile(g: Seq<Seq<char>>) -> bool {
    &&& exists|i: int| 0 <= i < g.len() && #[trigger] g[i] != g[0]
    &&& exists|i: int| 0 <= i < g.len() && !noise(#[trigger] g[i])
}

/// The pattern that a gram becomes.
pub open spec fn pattern_of(times: Seq<TimingView>, g: GramView) -> PatternView {
    PatternView {
        templates: g.templates,
        count: g.count,
        score: weighed(4, g.count, run_ms(times, g.templates)),
    }
}

/// The worthwhile grams as patterns with their cost.
pub open spec fn costed(times: Seq<TimingView>, f: Seq<GramView>) -> Seq<PatternView>
    decreases f.len(),
{
    if f.len() == 0 {
        Seq::empty()
    } else {
        let before = costed(times, f.drop_last());
        let g = f.last();
        if worthwhile(g.templates) {
            before.push(pattern_of(times, g))
        } else {
            before
        }
    }
}

/// The grams of a history that stand for a workflow, one for each.
pub open spec fn distinct_workflows(rows: Seq<RowView>) -> Seq<GramView> {
    let streams = workflow_streams(rows);
    one_per_cycle(unshadowed(by_length(workflows(frequent(streams, all_grams(streams))))))
}

/// The repeated workflows of a history, the costliest first.
pub open spec fn mined(
    rows: Seq<RowView>,
    times: Seq<TimingView>,
) -> Seq<PatternView> {
    by_score(costed(times, distinct_workflows(rows)))
}

// ---------------------------------------------------------------------------
// Counting on codes
// ---------------------------------------------------------------------------

/// The templates that a sequence of codes stands for.
pub open spec fn decoded(names: Seq<Seq<char>>, g: Seq<usize>) -> Seq<Seq<char>> {
    Seq::new(g.len(), |i: int| names[g[i] as int])
}

/// Whether `g` holds codes of `names`.
pub open spec fn codes_of(names: Seq<Seq<char>>, g: Seq<usize>) -> bool {
    forall|i: int| 0 <= i < g.len() ==> (#[trigger] g[i]) < names.len()
}

/// Whether `codes` stand for the templates of one stream.
pub open spec fn coded_stream(
    names: Seq<Seq<char>>,
    codes: Seq<usize>,
    s: Seq<StepView>,
) -> bool {
    &&& codes.len() == s.len()
    &&& forall|i: int|
        0 <= i < s.len() ==> (#[trigger] codes[i]) < names.len() && names[codes[i] as int]
            == s[i].template
}

/// Whether `codes` stand for the templates of all streams.
pub open spec fn coded(
    names: Seq<Seq<char>>,
    codes: Seq<Vec<usize>>,
    streams: Seq<Seq<StepView>>,
) -> bool {
    &&& names.no_duplicates()
    &&& codes.len() == streams.len()
    &&& forall|k: int| 0 <= k < streams.len() ==> coded_stream(names, #[trigger] codes[k]@, streams[k])
}

/// Gives every distinct template a code.
fn encode(streams: &Vec<Vec<Step>>) -> (r: (Interner, Vec<Vec<usize>>))
    ensures
        r.0.wf(),
        coded(r.0@, r.1@, streams_view(streams@)),
{
    let ghost all = streams_view(streams@);
    let mut names = Interner::new();
    let mut out: Vec<Vec<usize>> = Vec::new();
    let mut k: usize = 0;
    while k < streams.len()
        invariant
            k <= streams@.len(),
            all == streams_view(streams@),
            names.wf(),
            out@.len() == k,
            forall|j: int| 0 <= j < k ==> coded_stream(names@, #[trigger] out@[j]@, all[j]),
        decreases streams@.len() - k,
    {
        let stream = &streams[k];
        let ghost s = all[k as int];
        let mut codes: Vec<usize> = Vec::new();
        let mut i: usize = 0;
        while i < stream.len()
            invariant
                i <= stream@.len(),
                k < streams@.len(),
                s == steps_view(stream@),
                names.wf(),
                out@.len() == k,
                forall|j: int| 0 <= j < k ==> coded_stream(names@, #[trigger] out@[j]@, all[j]),
                codes@.len() == i,
                forall|j: int|
                    0 <= j < i ==> (#[trigger] codes@[j]) < names@.len() && names@[codes@[j] as int]
                        == s[j].template,
            decreases stream@.len() - i,
        {
            let ghost before = names@;
            let c = names.intern(stream[i].template.as_str());
            proof {
                assert forall|j: int| 0 <= j < before.len() implies before[j] == names@[j] by {}
                assert forall|j: int| 0 <= j < k implies coded_stream(
                    names@,
                    #[trigger] out@[j]@,
                    all[j],
                ) by {
                    assert(coded_stream(before, out@[j]@, all[j]));
                    let codes = out@[j]@;
                    assert forall|l: int| 0 <= l < all[j].len() implies (#[trigger] codes[l])
                        < names@.len() && names@[codes[l] as int] == all[j][l].template by {
                        assert(codes[l] < before.len());
                    }
                }
            }
            codes.push(c);
            i += 1;
        }
        assert(coded_stream(names@, codes@, s));
        out.push(codes);
        k += 1;
    }
    proof {
        names.lemma_distinct();
    }
    (names, out)
}

/// Whether a gram stands at position `i` of a stream.
fn code_match(
    codes: &Vec<usize>,
    g: &Vec<usize>,
    i: usize,
    names: Ghost<Seq<Seq<char>>>,
    s: Ghost<Seq<StepView>>,
) -> (r: bool)
    requires
        i + g@.len() <= codes@.len(),
        names@.no_duplicates(),
        coded_stream(names@, codes@, s@),
        codes_of(names@, g@),
    ensures
        r == occurs_at(s@, decoded(names@, g@), i as int),
{
    let ghost d = decoded(names@, g@);
    let n: usize = codes.len();
    let mut k: usize = 0;
    while k < g.len()
        invariant
            k <= g@.len(),
            i + g@.len() <= n == codes@.len(),
            names@.no_duplicates(),
            coded_stream(names@, codes@, s@),
            codes_of(names@, g@),
            d == decoded(names@, g@),
            forall|j: int| 0 <= j < k ==> s@[i + j].template == #[trigger] d[j],
        decreases g@.len() - k,
    {
        assert(codes@[i + k] < names@.len());
        assert(g@[k as int] < names@.len());
        assert(d[k as int] == names@[g@[k as int] as int]);
        if codes[i + k] != g[k] {
            assert(s@[i + k].template != d[k as int]);
            return false;
        }
        k += 1;
    }
    true
}

/// How often a gram occurs in one stream.
fn count_in_stream(
    codes: &Vec<usize>,
    g: &Vec<usize>,
    names: Ghost<Seq<Seq<char>>>,
    s: Ghost<Seq<StepView>>,
) -> (r: usize)
    requires
        g@.len() > 0,
        names@.no_duplicates(),
        coded_stream(names@, codes@, s@),
        codes_of(names@, g@),
    ensures
        r == starts(s@, decoded(names@, g@), 0).len(),
        r <= s@.len(),
{
    let ghost d = decoded(names@, g@);
    let n: usize = codes.len();
    let m: usize = g.len();
    let mut count: usize = 0;
    let mut i: usize = 0;
    while m <= n - i
        invariant
            i <= n == codes@.len(),
            m == g@.len() > 0,
            names@.no_duplicates(),
            coded_stream(names@, codes@, s@),
            codes_of(names@, g@),
            d == decoded(names@, g@),
            count <= i,
            starts(s@, d, 0).len() == count + starts(s@, d, i as int).len(),
        decreases n - i,
    {
        if code_match(codes, g, i, names, s) {
            count += 1;
            i += m;
        } else {
            i += 1;
        }
    }
    count
}

/// How often a gram occurs in all streams.
fn count_all(
    codes: &Vec<Vec<usize>>,
    g: &Vec<usize>,
    names: Ghost<Seq<Seq<char>>>,
    streams: Ghost<Seq<Seq<StepView>>>,
) -> (r: usize)
    requires
        g@.len() > 0,
        coded(names@, codes@, streams@),
        codes_of(names@, g@),
        total_steps(streams@) <= usize::MAX,
    ensures
        r == support(streams@, decoded(names@, g@)),
{
    let ghost d = decoded(names@, g@);
    let mut count: usize = 0;
    let mut k: usize = 0;
    assert(streams@.take(0) == Seq::<Seq<StepView>>::empty());
    while k < codes.len()
        invariant
            k <= codes@.len(),
            g@.len() > 0,
            coded(names@, codes@, streams@),
            codes_of(names@, g@),
            d == decoded(names@, g@),
            total_steps(streams@) <= usize::MAX,
            count == support(streams@.take(k as int), d),
            count <= total_steps(streams@.take(k as int)),
        decreases codes@.len() - k,
    {
        let c = count_in_stream(&codes[k], g, names, Ghost(streams@[k as int]));
        proof {
            assert(streams@.take(k + 1).drop_last() == streams@.take(k as int));
            assert(streams@.take(k + 1).last() == streams@[k as int]);
            lemma_total_steps_take(streams@, k + 1);
        }
        count += c;
        k += 1;
    }
    assert(streams@.take(k as int) =~= streams@);
    count
}

/// Distinct codes stand for distinct templates.
proof fn lemma_decoded_injective(names: Seq<Seq<char>>, a: Seq<usize>, b: Seq<usize>)
    requires
        names.no_duplicates(),
        codes_of(names, a),
        codes_of(names, b),
    ensures
        decoded(names, a) == decoded(names, b) <==> a == b,
{
    if decoded(names, a) == decoded(names, b) {
        assert(a.len() == decoded(names, a).len());
        assert(b.len() == decoded(names, b).len());
        assert forall|i: int| 0 <= i < a.len() implies a[i] == b[i] by {
            assert(decoded(names, a)[i] == decoded(names, b)[i]);
            assert(a[i] < names.len() && b[i] < names.len());
        }
        assert(a =~= b);
    }
}

/// A gram by its codes.
struct CodedGram {
    codes: Vec<usize>,
    count: usize,
}

spec fn coded_grams(names: Seq<Seq<char>>, v: Seq<CodedGram>) -> Seq<GramView> {
    Seq::new(
        v.len(),
        |i: int|
            GramView { templates: decoded(names, v[i].codes@), count: v[i].count as nat },
    )
}

/// Whether two sequences of codes are equal.
fn same_codes(a: &Vec<usize>, b: &Vec<usize>) -> (r: bool)
    ensures
        r == (a@ == b@),
{
    if a.len() != b.len() {
        return false;
    }
    let mut i: usize = 0;
    while i < a.len()
        invariant
            i <= a@.len() == b@.len(),
            forall|k: int| 0 <= k < i ==> a@[k] == b@[k],
        decreases a@.len() - i,
    {
        if a[i] != b[i] {
            return false;
        }
        i += 1;
    }
    assert(a@ =~= b@);
    true
}

/// Whether a gram is already listed.
fn is_listed(
    found: &Vec<CodedGram>,
    g: &Vec<usize>,
    names: Ghost<Seq<Seq<char>>>,
) -> (r: bool)
    requires
        names@.no_duplicates(),
        codes_of(names@, g@),
        forall|k: int| 0 <= k < found@.len() ==> codes_of(names@, (#[trigger] found@[k]).codes@),
    ensures
        r == listed(coded_grams(names@, found@), decoded(names@, g@)),
{
    let ghost f = coded_grams(names@, found@);
    let mut k: usize = 0;
    while k < found.len()
        invariant
            k <= found@.len(),
            f == coded_grams(names@, found@),
            names@.no_duplicates(),
            codes_of(names@, g@),
            forall|j: int|
                0 <= j < found@.len() ==> codes_of(names@, (#[trigger] found@[j]).codes@),
            forall|j: int| 0 <= j < k ==> (#[trigger] f[j]).templates != decoded(names@, g@),
        decreases found@.len() - k,
    {
        proof {
            lemma_decoded_injective(names@, found@[k as int].codes@, g@);
            assert(f[k as int].templates == decoded(names@, found@[k as int].codes@));
        }
        if same_codes(&found[k].codes, g) {
            return true;
        }
        k += 1;
    }
    false
}

/// The codes of a window.
fn window_codes(codes: &Vec<usize>, start: usize, len: usize) -> (r: Vec<usize>)
    requires
        start + len <= codes@.len(),
    ensures
        r@ == codes@.subrange(start as int, start + len),
{
    let mut out: Vec<usize> = Vec::new();
    let n: usize = codes.len();
    let mut i: usize = 0;
    while i < len
        invariant
            i <= len,
            start + len <= n == codes@.len(),
            out@ == codes@.subrange(start as int, start + i),
        decreases len - i,
    {
        out.push(codes[start + i]);
        i += 1;
        assert(out@ =~= codes@.subrange(start as int, start + i));
    }
    out
}

/// The frequent windows of all streams.
#[verifier::rlimit(40)]
fn find_frequent(
    codes: &Vec<Vec<usize>>,
    names: Ghost<Seq<Seq<char>>>,
    streams: Ghost<Seq<Seq<StepView>>>,
) -> (r: Vec<CodedGram>)
    requires
        coded(names@, codes@, streams@),
        total_steps(streams@) <= usize::MAX,
    ensures
        coded_grams(names@, r@) == frequent(streams@, all_grams(streams@)),
        forall|k: int| 0 <= k < r@.len() ==> codes_of(names@, (#[trigger] r@[k]).codes@),
{
    let mut found: Vec<CodedGram> = Vec::new();
    let ghost mut seen: Seq<Seq<Seq<char>>> = Seq::empty();
    let mut k: usize = 0;
    assert(streams@.take(0) == Seq::<Seq<StepView>>::empty());
    assert(coded_grams(names@, found@) =~= Seq::<GramView>::empty());
    while k < codes.len()
        invariant
            k <= codes@.len(),
            coded(names@, codes@, streams@),
            total_steps(streams@) <= usize::MAX,
            seen == all_grams(streams@.take(k as int)),
            coded_grams(names@, found@) == frequent(streams@, seen),
            forall|j: int|
                0 <= j < found@.len() ==> codes_of(names@, (#[trigger] found@[j]).codes@),
        decreases codes@.len() - k,
    {
        let stream = &codes[k];
        let ghost s = streams@[k as int];
        let ghost base = seen;
        let n: usize = stream.len();
        let mut start: usize = 0;
        assert(base + grams_of(s, 0) =~= base);
        while start < n
            invariant
                start <= n == stream@.len(),
                coded(names@, codes@, streams@),
                coded_stream(names@, stream@, s),
                total_steps(streams@) <= usize::MAX,
                seen == base + grams_of(s, start as nat),
                coded_grams(names@, found@) == frequent(streams@, seen),
                forall|j: int|
                    0 <= j < found@.len() ==> codes_of(names@, (#[trigger] found@[j]).codes@),
            decreases n - start,
        {
            let room: usize = n - start;
            let most: usize = if room < MAX_LEN {
                room
            } else {
                MAX_LEN
            };
            let ghost here = seen;
            let ghost grams = grams_at(s, start as int);
            let mut len: usize = MIN_LEN;
            assert(here + grams.take(0) =~= here);
            while len <= most
                invariant
                    MIN_LEN <= len <= most + 1 || (len == MIN_LEN && most < MIN_LEN),
                    most <= MAX_LEN,
                    start + most <= n == stream@.len(),
                    most == (if n - start < MAX_LEN {
                        n - start
                    } else {
                        MAX_LEN as int
                    }),
                    coded(names@, codes@, streams@),
                    coded_stream(names@, stream@, s),
                    total_steps(streams@) <= usize::MAX,
                    grams == grams_at(s, start as int),
                    seen == here + grams.take(len - MIN_LEN),
                    coded_grams(names@, found@) == frequent(streams@, seen),
                    forall|j: int|
                        0 <= j < found@.len() ==> codes_of(names@, (#[trigger] found@[j]).codes@),
                decreases most + 1 - len,
            {
                let g = window_codes(stream, start, len);
                let ghost d = decoded(names@, g@);
                proof {
                    assert forall|i: int| 0 <= i < g@.len() implies (#[trigger] g@[i])
                        < names@.len() by {
                        assert(g@[i] == stream@[start + i]);
                    }
                    assert(d =~= window(s, start as int, len as int)) by {
                        assert forall|i: int| 0 <= i < g@.len() implies d[i] == s[start
                            + i].template by {
                            assert(g@[i] == stream@[start + i]);
                        }
                    }
                    assert(grams[len - MIN_LEN] == d);
                    assert(here + grams.take(len - MIN_LEN + 1) =~= seen.push(d));
                    assert(seen.push(d).drop_last() =~= seen);
                }
                let ghost was = coded_grams(names@, found@);
                if !is_listed(&found, &g, names) {
                    let count = count_all(codes, &g, names, streams);
                    if count >= MIN_COUNT {
                        found.push(CodedGram { codes: g, count });
                        assert(coded_grams(names@, found@) =~= was.push(
                            GramView { templates: d, count: count as nat },
                        ));
                    }
                }
                proof {
                    seen = seen.push(d);
                }
                len += 1;
            }
            proof {
                assert(grams.take(grams.len() as int) =~= grams);
                assert(seen =~= here + grams) by {
                    if most >= MIN_LEN {
                        assert(len - MIN_LEN == grams.len());
                    } else {
                        assert(grams.len() == 0);
                        assert(grams.take(0) =~= grams);
                    }
                }
                assert(seen =~= base + grams_of(s, (start + 1) as nat));
            }
            start += 1;
        }
        proof {
            assert(streams@.take(k + 1).drop_last() =~= streams@.take(k as int));
            assert(streams@.take(k + 1).last() == s);
        }
        k += 1;
    }
    assert(streams@.take(k as int) =~= streams@);
    found
}

/// The templates of codes.
fn decode(names: &Interner, codes: &Vec<usize>) -> (r: Vec<String>)
    requires
        codes_of(names@, codes@),
    ensures
        texts(r@) == decoded(names@, codes@),
{
    let mut out: Vec<String> = Vec::new();
    let mut i: usize = 0;
    while i < codes.len()
        invariant
            i <= codes@.len(),
            codes_of(names@, codes@),
            out@.len() == i,
            forall|k: int| 0 <= k < i ==> (#[trigger] out@[k])@ == names@[codes@[k] as int],
        decreases codes@.len() - i,
    {
        assert(codes@[i as int] < names@.len());
        out.push(names.name(codes[i]).clone());
        i += 1;
    }
    assert(texts(out@) =~= decoded(names@, codes@));
    out
}

/// The frequent windows of all streams, by first appearance.
fn frequent_grams(streams: &Vec<Vec<Step>>) -> (r: Vec<Gram>)
    requires
        total_steps(streams_view(streams@)) <= usize::MAX,
    ensures
        grams_view(r@) == frequent(
            streams_view(streams@),
            all_grams(streams_view(streams@)),
        ),
{
    let (names, codes) = encode(streams);
    let found = find_frequent(&codes, Ghost(names@), Ghost(streams_view(streams@)));
    let mut out: Vec<Gram> = Vec::new();
    let mut i: usize = 0;
    while i < found.len()
        invariant
            i <= found@.len(),
            forall|k: int|
                0 <= k < found@.len() ==> codes_of(names@, (#[trigger] found@[k]).codes@),
            out@.len() == i,
            forall|k: int|
                0 <= k < i ==> (#[trigger] out@[k])@ == coded_grams(names@, found@)[k],
        decreases found@.len() - i,
    {
        let templates = decode(&names, &found[i].codes);
        out.push(Gram { templates, count: found[i].count });
        i += 1;
    }
    assert(grams_view(out@) =~= coded_grams(names@, found@));
    out
}

// ---------------------------------------------------------------------------
// Filtering
// ---------------------------------------------------------------------------

/// A copy of a gram.
fn copy_gram(g: &Gram) -> (r: Gram)
    ensures
        r@ == g@,
{
    Gram { templates: clone_all(&g.templates), count: g.count }
}

/// Keeps the grams that are workflows.
fn keep_workflows(f: &Vec<Gram>) -> (r: Vec<Gram>)
    ensures
        grams_view(r@) == workflows(grams_view(f@)),
{
    let ghost v = grams_view(f@);
    let mut out: Vec<Gram> = Vec::new();
    let mut i: usize = 0;
    assert(grams_view(out@) =~= workflows(v.take(0)));
    while i < f.len()
        invariant
            i <= f@.len(),
            v == grams_view(f@),
            grams_view(out@) == workflows(v.take(i as int)),
        decreases f@.len() - i,
    {
        let ghost before = grams_view(out@);
        assert(v.take(i + 1).drop_last() =~= v.take(i as int));
        assert(v.take(i + 1).last() == v[i as int]);
        if !is_quasi_periodic(&f[i].templates) && !retry_loop(&f[i].templates) {
            out.push(copy_gram(&f[i]));
            assert(grams_view(out@) =~= before.push(v[i as int]));
        }
        i += 1;
    }
    assert(v.take(i as int) =~= v);
    out
}

/// Whether all grams are short enough to be ranked.
pub open spec fn within_length(f: Seq<GramView>) -> bool {
    forall|k: int| 0 <= k < f.len() ==> (#[trigger] f[k]).templates.len() <= MAX_LEN
}

/// Sorts grams, the longest first.
fn sort_by_length(f: &Vec<Gram>) -> (r: Vec<Gram>)
    requires
        within_length(grams_view(f@)),
    ensures
        grams_view(r@) == by_length(grams_view(f@)),
{
    let ghost v = grams_view(f@);
    let ghost wanted = Seq::new(v.len(), |i: int| length_key(v[i]));
    let mut keys: Vec<u128> = Vec::new();
    let mut i: usize = 0;
    while i < f.len()
        invariant
            i <= f@.len(),
            v == grams_view(f@),
            within_length(v),
            keys@.len() == i,
            forall|k: int| 0 <= k < i ==> #[trigger] keys@[k] == length_key(v[k]),
        decreases f@.len() - i,
    {
        let n: usize = f[i].templates.len();
        let c: usize = f[i].count;
        assert(v[i as int].templates.len() == n);
        let key: u128 = n as u128 * 0x1_0000_0000_0000_0000 + c as u128;
        keys.push(key);
        i += 1;
    }
    assert(keys@ =~= wanted);
    let order = rank(&keys);
    proof {
        crate::order::ranked_is_a_stable_sort(keys@);
    }
    let mut out: Vec<Gram> = Vec::new();
    let mut j: usize = 0;
    while j < order.len()
        invariant
            j <= order@.len(),
            order@ == ranked(wanted),
            v == grams_view(f@),
            forall|k: int| 0 <= k < order@.len() ==> (#[trigger] order@[k]) < f@.len(),
            out@.len() == j,
            forall|k: int| 0 <= k < j ==> (#[trigger] out@[k])@ == v[order@[k] as int],
        decreases order@.len() - j,
    {
        assert(order@[j as int] < f@.len());
        out.push(copy_gram(&f[order[j]]));
        j += 1;
    }
    assert(grams_view(out@) =~= by_length(v));
    out
}

/// The width of the windows that two grams must share.
fn width_of(n: usize) -> (r: usize)
    ensures
        r == shared_width(n as int),
{
    if n > 3 {
        n - 1
    } else if n > 2 {
        2
    } else {
        n
    }
}

/// Whether the windows of two grams at two positions agree.
fn windows_equal(a: &Vec<String>, i: usize, b: &Vec<String>, j: usize, w: usize) -> (r: bool)
    requires
        i + w <= a@.len(),
        j + w <= b@.len(),
    ensures
        r == (texts(a@).subrange(i as int, i + w) == texts(b@).subrange(j as int, j + w)),
{
    let ghost x = texts(a@).subrange(i as int, i + w);
    let ghost y = texts(b@).subrange(j as int, j + w);
    let n: usize = a.len();
    let m: usize = b.len();
    let mut k: usize = 0;
    while k < w
        invariant
            k <= w,
            n == a@.len(),
            m == b@.len(),
            i + w <= n,
            j + w <= m,
            x == texts(a@).subrange(i as int, i + w),
            y == texts(b@).subrange(j as int, j + w),
            forall|l: int| 0 <= l < k ==> x[l] == y[l],
        decreases w - k,
    {
        assert(x[k as int] == a@[i + k]@);
        assert(y[k as int] == b@[j + k]@);
        if a[i + k] != b[j + k] {
            return false;
        }
        k += 1;
    }
    assert(x =~= y);
    true
}

/// Whether a gram shares all but one of its steps with another.
fn overlap(a: &Vec<String>, b: &Vec<String>) -> (r: bool)
    ensures
        r == overlaps(texts(a@), texts(b@)),
{
    let ghost x = texts(a@);
    let ghost y = texts(b@);
    let n: usize = a.len();
    let m: usize = b.len();
    if n == 0 {
        assert(x.subrange(0, 0) =~= y.subrange(0, 0));
        assert(windows_agree(x, 0, y, 0));
        return true;
    }
    let w: usize = width_of(n);
    if m < w {
        proof {
            if overlaps(x, y) {
                let (i, j): (int, int) = choose|i: int, j: int| #[trigger] windows_agree(x, i, y, j);
                assert(x.subrange(i, i + w).len() == w);
                assert(y.subrange(j, j + m).len() == m);
            }
        }
        return false;
    }
    let mut i: usize = 0;
    while i <= n - w
        invariant
            w == shared_width(n as int),
            1 <= w <= n,
            w <= m,
            n == a@.len(),
            m == b@.len(),
            x == texts(a@),
            y == texts(b@),
            i <= n - w + 1,
            forall|p: int, q: int| 0 <= p < i ==> !#[trigger] windows_agree(x, p, y, q),
        decreases n - w + 1 - i,
    {
        let mut j: usize = 0;
        while j <= m - w
            invariant
                w == shared_width(n as int),
                1 <= w <= n,
                w <= m,
                n == a@.len(),
                m == b@.len(),
                x == texts(a@),
                y == texts(b@),
                i <= n - w,
                j <= m - w + 1,
                forall|p: int, q: int| 0 <= p < i ==> !#[trigger] windows_agree(x, p, y, q),
                forall|q: int| 0 <= q < j ==> !#[trigger] windows_agree(x, i as int, y, q),
            decreases m - w + 1 - j,
        {
            if windows_equal(a, i, b, j, w) {
                assert(windows_agree(x, i as int, y, j as int));
                return true;
            }
            assert(!windows_agree(x, i as int, y, j as int));
            if j == m - w {
                assert(forall|q: int| q > j ==> !#[trigger] windows_agree(x, i as int, y, q));
            }
            j += 1;
        }
        i += 1;
    }
    proof {
        if overlaps(x, y) {
            let (p, q): (int, int) = choose|p: int, q: int| #[trigger] windows_agree(x, p, y, q);
            assert(p <= n - w);
        }
    }
    false
}

/// Whether a kept gram shadows another.
fn is_shadowed(kept: &Vec<Gram>, g: &Gram) -> (r: bool)
    ensures
        r == shadowed(grams_view(kept@), g@),
{
    let ghost v = grams_view(kept@);
    let mut k: usize = 0;
    while k < kept.len()
        invariant
            k <= kept@.len(),
            v == grams_view(kept@),
            forall|j: int|
                0 <= j < k ==> !(5 * (#[trigger] v[j]).count >= 3 * g@.count && overlaps(
                    g@.templates,
                    v[j].templates,
                )),
        decreases kept@.len() - k,
    {
        let other = &kept[k];
        assert(v[k as int] == other@);
        if 5 * (other.count as u128) >= 3 * (g.count as u128) && overlap(
            &g.templates,
            &other.templates,
        ) {
            return true;
        }
        k += 1;
    }
    false
}

/// Drops the grams that one before them shadows.
fn drop_shadowed(f: &Vec<Gram>) -> (r: Vec<Gram>)
    ensures
        grams_view(r@) == unshadowed(grams_view(f@)),
{
    let ghost v = grams_view(f@);
    let mut out: Vec<Gram> = Vec::new();
    let mut i: usize = 0;
    assert(grams_view(out@) =~= unshadowed(v.take(0)));
    while i < f.len()
        invariant
            i <= f@.len(),
            v == grams_view(f@),
            grams_view(out@) == unshadowed(v.take(i as int)),
        decreases f@.len() - i,
    {
        let ghost before = grams_view(out@);
        assert(v.take(i + 1).drop_last() =~= v.take(i as int));
        assert(v.take(i + 1).last() == v[i as int]);
        if !is_shadowed(&out, &f[i]) {
            out.push(copy_gram(&f[i]));
            assert(grams_view(out@) =~= before.push(v[i as int]));
        }
        i += 1;
    }
    assert(v.take(i as int) =~= v);
    out
}

/// What [`cycle_index`] gives.
proof fn lemma_cycle_index(f: Seq<GramView>, g: Seq<Seq<char>>)
    ensures
        match cycle_index(f, g) {
            Some(k) => 0 <= k < f.len() && canonical(f[k].templates) == canonical(g) && forall|j: int|
                0 <= j < k ==> canonical((#[trigger] f[j]).templates) != canonical(g),
            None => forall|j: int|
                0 <= j < f.len() ==> canonical((#[trigger] f[j]).templates) != canonical(g),
        },
    decreases f.len(),
{
    if f.len() > 0 {
        lemma_cycle_index(f.drop_last(), g);
        assert forall|j: int| 0 <= j < f.len() - 1 implies f.drop_last()[j] == #[trigger] f[j] by {}
    }
}

/// Whether two sequences of texts are equal.
fn same_texts(a: &Vec<String>, b: &Vec<String>) -> (r: bool)
    ensures
        r == (texts(a@) == texts(b@)),
{
    if a.len() != b.len() {
        assert(texts(a@).len() != texts(b@).len());
        return false;
    }
    let n: usize = a.len();
    assert(texts(a@).subrange(0, n as int) =~= texts(a@));
    assert(texts(b@).subrange(0, n as int) =~= texts(b@));
    windows_equal(a, 0, b, 0, n)
}

/// Keeps the most frequent gram of each class of rotations.
fn merge_cycles(f: &Vec<Gram>) -> (r: Vec<Gram>)
    ensures
        grams_view(r@) == one_per_cycle(grams_view(f@)),
{
    let ghost v = grams_view(f@);
    let mut out: Vec<Gram> = Vec::new();
    let mut keys: Vec<Vec<String>> = Vec::new();
    let mut i: usize = 0;
    assert(grams_view(out@) =~= one_per_cycle(v.take(0)));
    while i < f.len()
        invariant
            i <= f@.len(),
            v == grams_view(f@),
            grams_view(out@) == one_per_cycle(v.take(i as int)),
            keys@.len() == out@.len(),
            forall|k: int|
                0 <= k < out@.len() ==> texts(#[trigger] keys@[k]@) == canonical(
                    grams_view(out@)[k].templates,
                ),
        decreases f@.len() - i,
    {
        let ghost kept = grams_view(out@);
        let g = &f[i];
        proof {
            assert(v.take(i + 1).drop_last() =~= v.take(i as int));
            assert(v.take(i + 1).last() == v[i as int]);
            assert(v[i as int] == g@);
            lemma_cycle_index(kept, g@.templates);
        }
        let key = canonical_rotation(&g.templates);
        let mut k: usize = 0;
        while k < keys.len() && !same_texts(&keys[k], &key)
            invariant
                k <= keys@.len(),
                keys@.len() == kept.len(),
                texts(key@) == canonical(g@.templates),
                forall|j: int|
                    0 <= j < kept.len() ==> texts(#[trigger] keys@[j]@) == canonical(
                        kept[j].templates,
                    ),
                forall|j: int|
                    0 <= j < k ==> canonical((#[trigger] kept[j]).templates) != canonical(
                        g@.templates,
                    ),
            decreases keys@.len() - k,
        {
            assert(texts(keys@[k as int]@) == canonical(kept[k as int].templates));
            k += 1;
        }
        if k < keys.len() {
            assert(texts(keys@[k as int]@) == canonical(kept[k as int].templates));
            assert(cycle_index(kept, g@.templates) == Some(k as int));
            assert(kept[k as int] == out@[k as int]@);
            if g.count > out[k].count {
                out.set(k, copy_gram(g));
                assert(grams_view(out@) =~= kept.update(k as int, g@));
            }
        } else {
            assert(cycle_index(kept, g@.templates) is None);
            out.push(copy_gram(g));
            keys.push(key);
            assert(grams_view(out@) =~= kept.push(g@));
        }
        i += 1;
    }
    assert(v.take(i as int) =~= v);
    out
}

/// Whether a gram has two different steps and one that is not noise.
fn is_worthwhile(g: &Vec<String>) -> (r: bool)
    ensures
        r == worthwhile(texts(g@)),
{
    let ghost v = texts(g@);
    let mut varied = false;
    let mut telling = false;
    let mut i: usize = 0;
    while i < g.len()
        invariant
            i <= g@.len(),
            v == texts(g@),
            varied == exists|k: int| 0 <= k < i && #[trigger] v[k] != v[0],
            telling == exists|k: int| 0 <= k < i && !noise(#[trigger] v[k]),
        decreases g@.len() - i,
    {
        assert(v[i as int] == g@[i as int]@);
        assert(v[0] == g@[0]@);
        if g[i] != g[0] {
            varied = true;
        }
        if !is_noise(g[i].as_str()) {
            telling = true;
        }
        i += 1;
    }
    varied && telling
}

/// Turns the worthwhile grams into patterns.
fn cost(times: &Vec<TimingRow>, f: &Vec<Gram>) -> (r: Vec<Pattern>)
    ensures
        patterns_view(r@) == costed(timing_view(times@), grams_view(f@)),
{
    let ghost v = grams_view(f@);
    let ghost t = timing_view(times@);
    let timings = template_seconds(times);
    let mut out: Vec<Pattern> = Vec::new();
    let mut i: usize = 0;
    assert(patterns_view(out@) =~= costed(t, v.take(0)));
    while i < f.len()
        invariant
            i <= f@.len(),
            v == grams_view(f@),
            timings.wf(),
            timings.of(t),
            patterns_view(out@) == costed(t, v.take(i as int)),
        decreases f@.len() - i,
    {
        let ghost before = patterns_view(out@);
        let g = &f[i];
        assert(v.take(i + 1).drop_last() =~= v.take(i as int));
        assert(v.take(i + 1).last() == v[i as int]);
        assert(v[i as int] == g@);
        if is_worthwhile(&g.templates) {
            let per_run = timings.run(&g.templates);
            let score = weigh(4, g.count, per_run);
            let p = Pattern { templates: clone_all(&g.templates), count: g.count, score };
            let ghost pv = p@;
            out.push(p);
            assert(patterns_view(out@) =~= before.push(pv));
        }
        i += 1;
    }
    assert(v.take(i as int) =~= v);
    out
}

/// Finds the repeated workflows of a history, the costliest first. The rows come
/// ordered by source, session and position; the timing rows are those of the
/// whole history.
pub fn mine(rows: &Vec<StreamRow>, times: &Vec<TimingRow>) -> (r: Vec<Pattern>)
    ensures
        patterns_view(r@) == mined(rows_view(rows@), timing_view(times@)),
        numberable(rows_view(rows@)),
{
    let n: usize = rows.len();
    let streams = load_workflows(rows);
    proof {
        assert(rows_view(rows@).len() == n);
        lemma_workflow_size(rows_view(rows@));
    }
    let found = frequent_grams(&streams);
    let bound: usize = found.len();
    assert(grams_view(found@).len() == bound);
    let flows = keep_workflows(&found);
    proof {
        lemma_lengths(streams_view(streams@));
    }
    let sorted = sort_by_length(&flows);
    let kept = drop_shadowed(&sorted);
    let merged = merge_cycles(&kept);
    let patterns = cost(times, &merged);
    sort_by_score(&patterns)
}

// ---------------------------------------------------------------------------
// What is found
// ---------------------------------------------------------------------------

/// Whether `g` stands somewhere in one of the streams.
pub open spec fn occurs(streams: Seq<Seq<StepView>>, g: Seq<Seq<char>>) -> bool {
    exists|k: int, i: int| 0 <= k < streams.len() && #[trigger] occurs_at(streams[k], g, i)
}

/// Whether a gram has a workflow's length and its true count.
pub open spec fn counted(streams: Seq<Seq<StepView>>, g: GramView) -> bool {
    &&& MIN_LEN <= g.templates.len() <= MAX_LEN
    &&& g.count == support(streams, g.templates)
    &&& g.count >= MIN_COUNT
}

/// Every window has between two and seven steps and stands in its stream.
proof fn lemma_grams_of(s: Seq<StepView>, n: nat, g: Seq<Seq<char>>)
    requires
        n <= s.len(),
    ensures
        grams_of(s, n).contains(g) <==> MIN_LEN <= g.len() <= MAX_LEN && exists|i: int|
            0 <= i < n && #[trigger] occurs_at(s, g, i),
    decreases n,
{
    if n > 0 {
        let m = (n - 1) as nat;
        lemma_grams_of(s, m, g);
        let here = grams_at(s, n - 1);
        let before = grams_of(s, m);
        if before.contains(g) {
            let k = choose|k: int| 0 <= k < before.len() && before[k] == g;
            assert(grams_of(s, n)[k] == g);
        }
        if MIN_LEN <= g.len() <= MAX_LEN && occurs_at(s, g, n - 1) {
            let k = g.len() - MIN_LEN;
            assert(here[k] =~= g);
            assert(grams_of(s, n)[before.len() + k] == g);
        }
        if grams_of(s, n).contains(g) {
            let k = choose|k: int| 0 <= k < grams_of(s, n).len() && grams_of(s, n)[k] == g;
            if k < before.len() {
                assert(before[k] == g);
            } else {
                assert(here[k - before.len()] == g);
                assert(occurs_at(s, g, n - 1));
            }
        }
    } else {
        assert(!grams_of(s, n).contains(g));
    }
}

/// The windows are the sequences of two to seven steps that stand in a stream.
proof fn lemma_all_grams(streams: Seq<Seq<StepView>>, g: Seq<Seq<char>>)
    ensures
        all_grams(streams).contains(g) <==> MIN_LEN <= g.len() <= MAX_LEN && occurs(streams, g),
    decreases streams.len(),
{
    if streams.len() > 0 {
        let front = streams.drop_last();
        let s = streams.last();
        lemma_all_grams(front, g);
        lemma_grams_of(s, s.len(), g);
        let before = all_grams(front);
        let here = grams_of(s, s.len());
        let all = all_grams(streams);
        if before.contains(g) {
            let k = choose|k: int| 0 <= k < before.len() && before[k] == g;
            assert(all[k] == g);
            let (a, i): (int, int) = choose|a: int, i: int|
                0 <= a < front.len() && #[trigger] occurs_at(front[a], g, i);
            assert(occurs_at(streams[a], g, i));
        }
        if here.contains(g) {
            let k = choose|k: int| 0 <= k < here.len() && here[k] == g;
            assert(all[before.len() + k] == g);
            let i = choose|i: int| 0 <= i < s.len() && #[trigger] occurs_at(s, g, i);
            assert(occurs_at(streams[streams.len() - 1], g, i));
        }
        if all.contains(g) {
            let k = choose|k: int| 0 <= k < all.len() && all[k] == g;
            if k < before.len() {
                assert(before[k] == g);
            } else {
                assert(here[k - before.len()] == g);
            }
        }
        if MIN_LEN <= g.len() <= MAX_LEN && occurs(streams, g) {
            let (a, i): (int, int) = choose|a: int, i: int|
                0 <= a < streams.len() && #[trigger] occurs_at(streams[a], g, i);
            if a < front.len() {
                assert(occurs_at(front[a], g, i));
            } else {
                assert(occurs_at(s, g, i));
            }
        }
    } else {
        assert(!all_grams(streams).contains(g));
    }
}

/// A list of frequent grams holds each frequent gram once, with its count.
proof fn lemma_frequent(streams: Seq<Seq<StepView>>, grams: Seq<Seq<Seq<char>>>)
    ensures
        forall|k: int|
            0 <= k < frequent(streams, grams).len() ==> {
                let x = #[trigger] frequent(streams, grams)[k];
                x.count == support(streams, x.templates) && x.count >= MIN_COUNT && grams.contains(
                    x.templates,
                )
            },
        forall|j: int, k: int|
            0 <= j < k < frequent(streams, grams).len() ==> (#[trigger] frequent(
                streams,
                grams,
            )[j]).templates != (#[trigger] frequent(streams, grams)[k]).templates,
        forall|g: Seq<Seq<char>>| #[trigger]
            grams.contains(g) && support(streams, g) >= MIN_COUNT ==> listed(
                frequent(streams, grams),
                g,
            ),
        frequent(streams, grams).len() <= grams.len(),
    decreases grams.len(),
{
    if grams.len() > 0 {
        let front = grams.drop_last();
        let g = grams.last();
        lemma_frequent(streams, front);
        let before = frequent(streams, front);
        let all = frequent(streams, grams);
        assert(grams[grams.len() - 1] == g);
        assert forall|k: int| 0 <= k < all.len() implies {
            let x = #[trigger] all[k];
            x.count == support(streams, x.templates) && x.count >= MIN_COUNT && grams.contains(
                x.templates,
            )
        } by {
            if k < before.len() {
                let x = before[k];
                assert(all[k] == x);
                let i = choose|i: int| 0 <= i < front.len() && front[i] == x.templates;
                assert(grams[i] == x.templates);
            }
        }
        assert forall|h: Seq<Seq<char>>| #[trigger]
            grams.contains(h) && support(streams, h) >= MIN_COUNT implies listed(all, h) by {
            let i = choose|i: int| 0 <= i < grams.len() && grams[i] == h;
            if i < front.len() {
                assert(front[i] == h);
                assert(front.contains(h));
                let k = choose|k: int| 0 <= k < before.len() && (#[trigger] before[k]).templates == h;
                assert(all[k].templates == h);
            } else if listed(before, g) {
                let k = choose|k: int| 0 <= k < before.len() && (#[trigger] before[k]).templates == g;
                assert(all[k].templates == h);
            } else {
                assert(all[before.len() as int].templates == h);
            }
        }
    }
}

/// What the filter for workflows keeps.
proof fn lemma_workflows(f: Seq<GramView>)
    ensures
        forall|x: GramView| #[trigger]
            workflows(f).contains(x) <==> f.contains(x) && !quasi_periodic(x.templates)
                && !is_retry_loop(x.templates),
        workflows(f).len() <= f.len(),
    decreases f.len(),
{
    if f.len() > 0 {
        let front = f.drop_last();
        lemma_workflows(front);
        assert(f =~= front.push(f.last()));
        assert forall|x: GramView| f.contains(x) <==> front.contains(x) || x == f.last() by {
            lemma_push_contains(front, f.last(), x);
        }
        assert forall|x: GramView| #[trigger] workflows(f).contains(x) <==> f.contains(x)
            && !quasi_periodic(x.templates) && !is_retry_loop(x.templates) by {
            lemma_push_contains(workflows(front), f.last(), x);
            assert(workflows(front).contains(x) <==> front.contains(x) && !quasi_periodic(
                x.templates,
            ) && !is_retry_loop(x.templates));
        }
    } else {
        assert forall|x: GramView| !(#[trigger] workflows(f).contains(x)) && !f.contains(x) by {}
    }
}

/// What a sequence with one more element holds.
proof fn lemma_push_contains<T>(s: Seq<T>, y: T, x: T)
    ensures
        s.push(y).contains(x) <==> s.contains(x) || x == y,
{
    if s.contains(x) {
        let k = choose|k: int| 0 <= k < s.len() && s[k] == x;
        assert(s.push(y)[k] == x);
    }
    assert(s.push(y)[s.len() as int] == y);
    if s.push(y).contains(x) {
        let k = choose|k: int| 0 <= k < s.push(y).len() && s.push(y)[k] == x;
        if k < s.len() {
            assert(s[k] == x);
        }
    }
}

/// Sorting by length adds no gram and, of a list that fits into memory, keeps
/// every one.
proof fn lemma_by_length(f: Seq<GramView>)
    ensures
        by_length(f).len() == f.len(),
        forall|x: GramView| #[trigger] by_length(f).contains(x) ==> f.contains(x),
        f.len() <= usize::MAX ==> forall|x: GramView| #[trigger]
            f.contains(x) ==> by_length(f).contains(x),
{
    let keys = Seq::new(f.len(), |i: int| length_key(f[i]));
    let order = ranked(keys);
    crate::order::ranked_puts_greater_keys_first(keys);
    assert forall|x: GramView| #[trigger] by_length(f).contains(x) implies f.contains(x) by {
        let k = choose|k: int| 0 <= k < by_length(f).len() && by_length(f)[k] == x;
        assert(order[k] < f.len());
        assert(f[order[k] as int] == x);
    }
    if f.len() <= usize::MAX {
        crate::order::ranked_is_a_stable_sort(keys);
        assert forall|x: GramView| #[trigger] f.contains(x) implies by_length(f).contains(x) by {
            let i = choose|i: int| 0 <= i < f.len() && f[i] == x;
            assert(order.contains(i as usize));
            let k = choose|k: int| 0 <= k < order.len() && order[k] == i as usize;
            assert(by_length(f)[k] == x);
        }
    }
}

/// What is left after dropping shadowed grams: some of the grams, and for each
/// dropped one a gram that shadows it.
proof fn lemma_unshadowed(f: Seq<GramView>)
    ensures
        forall|x: GramView| #[trigger] unshadowed(f).contains(x) ==> f.contains(x),
        forall|x: GramView| #[trigger]
            f.contains(x) ==> unshadowed(f).contains(x) || shadowed(unshadowed(f), x),
        unshadowed(f).len() <= f.len(),
    decreases f.len(),
{
    if f.len() > 0 {
        let front = f.drop_last();
        let kept = unshadowed(front);
        let all = unshadowed(f);
        lemma_unshadowed(front);
        assert(f =~= front.push(f.last()));
        assert forall|x: GramView| #[trigger] all.contains(x) implies f.contains(x) by {
            lemma_push_contains(front, f.last(), x);
            lemma_push_contains(kept, f.last(), x);
            assert(kept.contains(x) ==> front.contains(x));
        }
        assert forall|x: GramView| #[trigger] f.contains(x) implies all.contains(x) || shadowed(
            all,
            x,
        ) by {
            lemma_push_contains(front, f.last(), x);
            lemma_push_contains(kept, f.last(), x);
            if front.contains(x) && shadowed(kept, x) {
                let k = choose|k: int|
                    0 <= k < kept.len() && 5 * (#[trigger] kept[k]).count >= 3 * x.count
                        && overlaps(x.templates, kept[k].templates);
                assert(all[k] == kept[k]);
            }
        }
    } else {
        assert forall|x: GramView| !(#[trigger] unshadowed(f).contains(x)) by {}
        assert forall|x: GramView| !(#[trigger] f.contains(x)) by {}
    }
}

/// What merging cycles leaves is some of the grams.
proof fn lemma_one_per_cycle(f: Seq<GramView>)
    ensures
        forall|k: int|
            0 <= k < one_per_cycle(f).len() ==> f.contains(#[trigger] one_per_cycle(f)[k]),
        one_per_cycle(f).len() <= f.len(),
    decreases f.len(),
{
    if f.len() > 0 {
        let front = f.drop_last();
        let g = f.last();
        let kept = one_per_cycle(front);
        let all = one_per_cycle(f);
        lemma_one_per_cycle(front);
        lemma_cycle_index(kept, g.templates);
        assert(f =~= front.push(g));
        assert forall|k: int| 0 <= k < all.len() implies f.contains(#[trigger] all[k]) by {
            lemma_push_contains(front, g, all[k]);
            if k < kept.len() {
                assert(front.contains(kept[k]));
            }
        }
    }
}

/// Whether one of `f` runs through the same cycle as `y`, at least as often.
pub open spec fn stands_for(f: Seq<GramView>, y: GramView) -> bool {
    exists|k: int|
        0 <= k < f.len() && canonical((#[trigger] f[k]).templates) == canonical(y.templates)
            && f[k].count >= y.count
}

/// Merging cycles leaves no two grams of one cycle.
proof fn lemma_cycles_differ(f: Seq<GramView>, j: int, k: int)
    requires
        0 <= j < k < one_per_cycle(f).len(),
    ensures
        canonical(one_per_cycle(f)[j].templates) != canonical(one_per_cycle(f)[k].templates),
    decreases f.len(),
{
    let front = f.drop_last();
    let g = f.last();
    let kept = one_per_cycle(front);
    lemma_cycle_index(kept, g.templates);
    if k < kept.len() {
        lemma_cycles_differ(front, j, k);
    }
    assert(canonical(kept[j].templates) == canonical(one_per_cycle(f)[j].templates));
}

/// Merging cycles leaves, for every gram, one of its cycle that is at least as
/// frequent.
proof fn lemma_cycles_kept(f: Seq<GramView>, i: int)
    requires
        0 <= i < f.len(),
    ensures
        stands_for(one_per_cycle(f), f[i]),
    decreases f.len(),
{
    let front = f.drop_last();
    let g = f.last();
    let kept = one_per_cycle(front);
    let all = one_per_cycle(f);
    lemma_cycle_index(kept, g.templates);
    if i < front.len() {
        lemma_cycles_kept(front, i);
        assert(front[i] == f[i]);
        let k = choose|k: int|
            0 <= k < kept.len() && canonical((#[trigger] kept[k]).templates) == canonical(
                f[i].templates,
            ) && kept[k].count >= f[i].count;
        assert(canonical(all[k].templates) == canonical(f[i].templates));
    } else {
        match cycle_index(kept, g.templates) {
            Some(k) => {
                assert(canonical(all[k].templates) == canonical(g.templates));
            },
            None => {
                assert(all[kept.len() as int] == g);
            },
        }
    }
}

/// The gram that the `k`-th pattern stands for.
proof fn lemma_costed(times: Seq<TimingView>, f: Seq<GramView>, k: int) -> (i: int)
    requires
        0 <= k < costed(times, f).len(),
    ensures
        k <= i < f.len(),
        worthwhile(f[i].templates),
        costed(times, f)[k] == pattern_of(times, f[i]),
    decreases f.len(),
{
    let front = f.drop_last();
    let before = costed(times, front);
    if k < before.len() {
        lemma_costed(times, front, k)
    } else {
        lemma_costed_len(times, front);
        f.len() - 1
    }
}

/// There are at most as many patterns as grams.
proof fn lemma_costed_len(times: Seq<TimingView>, f: Seq<GramView>)
    ensures
        costed(times, f).len() <= f.len(),
    decreases f.len(),
{
    if f.len() > 0 {
        lemma_costed_len(times, f.drop_last());
    }
}

/// Patterns of grams of different cycles run through different cycles.
proof fn lemma_costed_differ(times: Seq<TimingView>, f: Seq<GramView>, j: int, k: int)
    requires
        0 <= j < k < costed(times, f).len(),
        forall|a: int, b: int|
            0 <= a < b < f.len() ==> canonical((#[trigger] f[a]).templates) != canonical(
                (#[trigger] f[b]).templates,
            ),
    ensures
        canonical(costed(times, f)[j].templates) != canonical(costed(times, f)[k].templates),
    decreases f.len(),
{
    let front = f.drop_last();
    let before = costed(times, front);
    assert forall|a: int, b: int| 0 <= a < b < front.len() implies canonical(
        (#[trigger] front[a]).templates,
    ) != canonical((#[trigger] front[b]).templates) by {
        assert(front[a] == f[a] && front[b] == f[b]);
    }
    if k < before.len() {
        lemma_costed_differ(times, front, j, k);
    } else {
        let i = lemma_costed(times, front, j);
        assert(f[i] == front[i]);
        assert(f[f.len() - 1] == f.last());
    }
}

/// Frequent grams are short enough to be ranked.
proof fn lemma_lengths(streams: Seq<Seq<StepView>>)
    ensures
        within_length(workflows(frequent(streams, all_grams(streams)))),
{
    let grams = all_grams(streams);
    let f = frequent(streams, grams);
    let w = workflows(f);
    lemma_frequent(streams, grams);
    lemma_workflows(f);
    assert forall|k: int| 0 <= k < w.len() implies (#[trigger] w[k]).templates.len() <= MAX_LEN by {
        assert(w.contains(w[k]));
        let j = choose|j: int| 0 <= j < f.len() && f[j] == w[k];
        assert(grams.contains(f[j].templates));
        lemma_all_grams(streams, f[j].templates);
    }
}

/// Whether the frequent sequences of a history can be numbered on this machine.
/// They can for every history that was mined.
pub open spec fn numberable(rows: Seq<RowView>) -> bool {
    frequent(workflow_streams(rows), all_grams(workflow_streams(rows))).len() <= usize::MAX
}

/// The frequent sequences of a history of at most a sixth as many rows as this
/// machine can number can be numbered: no more than six windows begin at a step.
pub proof fn short_histories_are_numberable(rows: Seq<RowView>)
    requires
        rows.len() <= usize::MAX / 6,
    ensures
        numberable(rows),
{
    let streams = workflow_streams(rows);
    lemma_workflow_size(rows);
    lemma_grams_len(streams);
    lemma_frequent_len(streams, all_grams(streams));
}

/// No more than six windows begin at a step.
proof fn lemma_grams_len(streams: Seq<Seq<StepView>>)
    ensures
        all_grams(streams).len() <= 6 * total_steps(streams),
    decreases streams.len(),
{
    if streams.len() > 0 {
        lemma_grams_len(streams.drop_last());
        lemma_grams_of_len(streams.last(), streams.last().len());
    }
}

proof fn lemma_grams_of_len(s: Seq<StepView>, n: nat)
    ensures
        grams_of(s, n).len() <= 6 * n,
    decreases n,
{
    if n > 0 {
        lemma_grams_of_len(s, (n - 1) as nat);
    }
}

/// There are at most as many frequent sequences as windows.
proof fn lemma_frequent_len(streams: Seq<Seq<StepView>>, grams: Seq<Seq<Seq<char>>>)
    ensures
        frequent(streams, grams).len() <= grams.len(),
    decreases grams.len(),
{
    if grams.len() > 0 {
        lemma_frequent_len(streams, grams.drop_last());
    }
}

/// A sequence of two to seven steps is listed as frequent exactly when it occurs
/// three times without overlap, and it is listed once, with the number of its
/// occurrences.
pub proof fn frequent_sequences_are_listed_once(
    streams: Seq<Seq<StepView>>,
    g: Seq<Seq<char>>,
)
    ensures
        listed(frequent(streams, all_grams(streams)), g) <==> MIN_LEN <= g.len() <= MAX_LEN
            && occurs(streams, g) && support(streams, g) >= MIN_COUNT,
        forall|j: int, k: int|
            0 <= j < k < frequent(streams, all_grams(streams)).len() ==> (#[trigger] frequent(
                streams,
                all_grams(streams),
            )[j]).templates != (#[trigger] frequent(streams, all_grams(streams))[k]).templates,
        forall|k: int|
            0 <= k < frequent(streams, all_grams(streams)).len() ==> counted(
                streams,
                #[trigger] frequent(streams, all_grams(streams))[k],
            ),
{
    let grams = all_grams(streams);
    let f = frequent(streams, grams);
    lemma_frequent(streams, grams);
    lemma_all_grams(streams, g);
    if listed(f, g) {
        let k = choose|k: int| 0 <= k < f.len() && (#[trigger] f[k]).templates == g;
        assert(grams.contains(f[k].templates));
    }
    assert forall|k: int| 0 <= k < f.len() implies counted(streams, #[trigger] f[k]) by {
        assert(grams.contains(f[k].templates));
        lemma_all_grams(streams, f[k].templates);
    }
}

/// A frequent sequence that repeats a unit of two steps or more gives way to the
/// unit: the unit is listed and occurs at least as often, and the repetition is no
/// workflow.
pub proof fn a_repetition_gives_way_to_its_unit(
    streams: Seq<Seq<StepView>>,
    g: Seq<Seq<char>>,
    p: int,
)
    requires
        listed(frequent(streams, all_grams(streams)), g),
        MIN_LEN <= p < g.len(),
        has_period(g, p),
    ensures
        listed(frequent(streams, all_grams(streams)), g.take(p)),
        support(streams, g.take(p)) >= support(streams, g),
        !listed(workflows(frequent(streams, all_grams(streams))), g),
{
    let f = frequent(streams, all_grams(streams));
    let h = g.take(p);
    frequent_sequences_are_listed_once(streams, g);
    frequent_sequences_are_listed_once(streams, h);
    a_beginning_occurs_as_often(streams, g, p);
    let (k, i) = choose|k: int, i: int|
        0 <= k < streams.len() && #[trigger] occurs_at(streams[k], g, i);
    assert forall|j: int| 0 <= j < h.len() implies streams[k][i + j].template == #[trigger] h[j] by {
        assert(h[j] == g[j]);
    }
    assert(occurs_at(streams[k], h, i));
    assert(occurs(streams, h));
    lemma_workflows(f);
    if listed(workflows(f), g) {
        let w = workflows(f);
        let j = choose|j: int| 0 <= j < w.len() && (#[trigger] w[j]).templates == g;
        assert(w.contains(w[j]));
        assert(quasi_periodic(g));
    }
}

/// Every distinct workflow is a frequent sequence with its true count that
/// neither repeats a shorter unit nor retries one step.
proof fn lemma_distinct_workflows(rows: Seq<RowView>)
    ensures
        numberable(rows) ==> distinct_workflows(rows).len() <= usize::MAX,
        forall|k: int|
            0 <= k < distinct_workflows(rows).len() ==> {
                let g = #[trigger] distinct_workflows(rows)[k];
                counted(workflow_streams(rows), g) && !quasi_periodic(g.templates)
                    && !is_retry_loop(g.templates)
            },
        forall|j: int, k: int|
            0 <= j < k < distinct_workflows(rows).len() ==> canonical(
                (#[trigger] distinct_workflows(rows)[j]).templates,
            ) != canonical((#[trigger] distinct_workflows(rows)[k]).templates),
{
    let streams = workflow_streams(rows);
    let grams = all_grams(streams);
    let f = frequent(streams, grams);
    let w = workflows(f);
    let s = by_length(w);
    let u = unshadowed(s);
    lemma_frequent(streams, grams);
    lemma_workflows(f);
    lemma_by_length(w);
    lemma_unshadowed(s);
    lemma_one_per_cycle(u);
    assert forall|k: int| 0 <= k < one_per_cycle(u).len() implies {
        let g = #[trigger] one_per_cycle(u)[k];
        counted(streams, g) && !quasi_periodic(g.templates) && !is_retry_loop(g.templates)
    } by {
        let g = one_per_cycle(u)[k];
        assert(u.contains(g));
        assert(s.contains(g));
        assert(w.contains(g));
        let j = choose|j: int| 0 <= j < f.len() && f[j] == g;
        assert(grams.contains(f[j].templates));
        lemma_all_grams(streams, g.templates);
    }
    assert forall|j: int, k: int| 0 <= j < k < one_per_cycle(u).len() implies canonical(
        (#[trigger] one_per_cycle(u)[j]).templates,
    ) != canonical((#[trigger] one_per_cycle(u)[k]).templates) by {
        lemma_cycles_differ(u, j, k);
    }
}

/// Every frequent workflow is accounted for: one that is at least as frequent
/// and runs through the same cycle is kept, or one is kept that stands for the
/// gram that shadows it.
pub proof fn every_workflow_is_represented(rows: Seq<RowView>, x: GramView)
    requires
        numberable(rows),
        counted(workflow_streams(rows), x),
        occurs(workflow_streams(rows), x.templates),
        !quasi_periodic(x.templates),
        !is_retry_loop(x.templates),
    ensures
        exists|y: GramView|
            (y == x || (5 * y.count >= 3 * x.count && overlaps(x.templates, y.templates)))
                && #[trigger] stands_for(distinct_workflows(rows), y),
{
    let streams = workflow_streams(rows);
    let grams = all_grams(streams);
    let f = frequent(streams, grams);
    let w = workflows(f);
    let s = by_length(w);
    let u = unshadowed(s);
    lemma_frequent(streams, grams);
    lemma_workflows(f);
    lemma_by_length(w);
    lemma_unshadowed(s);
    lemma_all_grams(streams, x.templates);
    assert(listed(f, x.templates));
    let k = choose|k: int| 0 <= k < f.len() && (#[trigger] f[k]).templates == x.templates;
    assert(f[k] == x);
    assert(f.contains(x));
    assert(w.contains(x));
    assert(s.contains(x));
    if u.contains(x) {
        let i = choose|i: int| 0 <= i < u.len() && u[i] == x;
        lemma_cycles_kept(u, i);
        assert(stands_for(distinct_workflows(rows), x));
    } else {
        let j = choose|j: int|
            0 <= j < u.len() && 5 * (#[trigger] u[j]).count >= 3 * x.count && overlaps(
                x.templates,
                u[j].templates,
            );
        lemma_cycles_kept(u, j);
        assert(stands_for(distinct_workflows(rows), u[j]));
    }
}

/// Every pattern that is found was really repeated: it has two to seven steps,
/// occurs as often as it says and at least three times, has two different steps
/// and one that is not noise, and neither repeats a shorter unit nor retries one
/// step.
pub proof fn every_pattern_was_repeated(rows: Seq<RowView>, times: Seq<TimingView>)
    ensures
        forall|k: int|
            0 <= k < mined(rows, times).len() ==> {
                let p = #[trigger] mined(rows, times)[k];
                &&& MIN_LEN <= p.templates.len() <= MAX_LEN
                &&& p.count == support(workflow_streams(rows), p.templates)
                &&& p.count >= MIN_COUNT
                &&& worthwhile(p.templates)
                &&& !quasi_periodic(p.templates)
                &&& !is_retry_loop(p.templates)
                &&& p.score == weighed(4, p.count, run_ms(times, p.templates))
            },
{
    let d = distinct_workflows(rows);
    let c = costed(times, d);
    let m = mined(rows, times);
    lemma_distinct_workflows(rows);
    lemma_costed_len(times, d);
    crate::mine::pattern::costliest_come_first(c);
    assert forall|k: int| 0 <= k < m.len() implies {
        let p = #[trigger] m[k];
        &&& MIN_LEN <= p.templates.len() <= MAX_LEN
        &&& p.count == support(workflow_streams(rows), p.templates)
        &&& p.count >= MIN_COUNT
        &&& worthwhile(p.templates)
        &&& !quasi_periodic(p.templates)
        &&& !is_retry_loop(p.templates)
        &&& p.score == weighed(4, p.count, run_ms(times, p.templates))
    } by {
        let p = m[k];
        assert(by_score(c).contains(p));
        assert(c.contains(p));
        let i = choose|i: int| 0 <= i < c.len() && c[i] == p;
        let j = lemma_costed(times, d, i);
        assert(counted(workflow_streams(rows), d[j]));
    }
}

/// No two patterns that are found are rotations of one cycle, and they come with
/// the costliest first.
pub proof fn patterns_are_distinct_cycles(rows: Seq<RowView>, times: Seq<TimingView>)
    requires
        numberable(rows),
    ensures
        forall|j: int, k: int|
            0 <= j < k < mined(rows, times).len() ==> !is_rotation(
                (#[trigger] mined(rows, times)[j]).templates,
                (#[trigger] mined(rows, times)[k]).templates,
            ) && mined(rows, times)[j].score >= mined(rows, times)[k].score,
{
    let d = distinct_workflows(rows);
    let c = costed(times, d);
    let m = mined(rows, times);
    lemma_distinct_workflows(rows);
    lemma_costed_len(times, d);
    crate::mine::pattern::costliest_come_first(c);
    every_pattern_was_repeated(rows, times);
    let order = ranked(scores(c));
    crate::order::ranked_is_a_stable_sort(scores(c));
    assert forall|j: int, k: int| 0 <= j < k < m.len() implies !is_rotation(
        (#[trigger] m[j]).templates,
        (#[trigger] m[k]).templates,
    ) && m[j].score >= m[k].score by {
        let (a, b) = (order[j] as int, order[k] as int);
        assert(m[j] == c[a] && m[k] == c[b]);
        assert(order[j] != order[k]);
        if a < b {
            lemma_costed_differ(times, d, a, b);
        } else {
            lemma_costed_differ(times, d, b, a);
        }
        canonical_rotation_identifies_cycles(m[j].templates, m[k].templates);
    }
}

/// The count of a pattern is the number of its occurrences: as many as can be
/// picked without overlap, and as many as are counted since the beginning.
pub proof fn a_count_is_the_number_of_occurrences(
    rows: Seq<RowView>,
    times: Seq<TimingView>,
    k: int,
    picks: Seq<Seq<int>>,
)
    requires
        0 <= k < mined(rows, times).len(),
        disjoint(workflow_streams(rows), mined(rows, times)[k].templates, picks),
    ensures
        picked(picks) <= mined(rows, times)[k].count,
        ({
            let found = counted_at(workflow_streams(rows), mined(rows, times)[k].templates);
            disjoint(workflow_streams(rows), mined(rows, times)[k].templates, found) && picked(found)
                == mined(rows, times)[k].count
        }),
        (forall|i: int| 0 <= i < rows.len() ==> (#[trigger] rows[i]).id > 0) ==> mined(
            rows,
            times,
        )[k].count == support_since(workflow_streams(rows), mined(rows, times)[k].templates, 0),
{
    let streams = workflow_streams(rows);
    let p = mined(rows, times)[k];
    every_pattern_was_repeated(rows, times);
    support_is_the_most_without_overlap(streams, p.templates, picks);
    if forall|i: int| 0 <= i < rows.len() ==> (#[trigger] rows[i]).id > 0 {
        lemma_newer_rows(rows, 0);
        support_since_is_part_of_support(streams, p.templates, 0, 0);
    }
}

/// The grams come by descending key.
proof fn lemma_keys_descend(f: Seq<GramView>, a: int, b: int)
    requires
        0 <= a < b < f.len(),
    ensures
        by_length(f).len() == f.len(),
        length_key(by_length(f)[a]) >= length_key(by_length(f)[b]),
{
    let keys = Seq::new(f.len(), |i: int| length_key(f[i]));
    let order = ranked(keys);
    crate::order::ranked_puts_greater_keys_first(keys);
    let (i, j) = (order[a], order[b]);
    assert(keys[i as int] >= keys[j as int]);
}

/// Grams that are not shadowed stay in the order they came in, and none of them
/// shadows a later one.
proof fn lemma_unshadowed_order(f: Seq<GramView>, a: int, b: int) -> (r: (int, int))
    requires
        0 <= a < b < unshadowed(f).len(),
    ensures
        0 <= r.0 < r.1 < f.len(),
        f[r.0] == unshadowed(f)[a],
        f[r.1] == unshadowed(f)[b],
        !(5 * unshadowed(f)[a].count >= 3 * unshadowed(f)[b].count && overlaps(
            unshadowed(f)[b].templates,
            unshadowed(f)[a].templates,
        )),
    decreases f.len(),
{
    let front = f.drop_last();
    let kept = unshadowed(front);
    if b < kept.len() {
        lemma_unshadowed_order(front, a, b)
    } else {
        lemma_unshadowed(front);
        assert(kept.contains(kept[a]));
        assert(front.contains(kept[a]));
        let i = choose|i: int| 0 <= i < front.len() && front[i] == kept[a];
        assert(unshadowed(f)[a] == kept[a]);
        (i, f.len() - 1)
    }
}

/// A part of a longer gram overlaps it.
proof fn lemma_part_overlaps(p: Seq<Seq<char>>, q: Seq<Seq<char>>, at: int)
    requires
        0 <= at,
        at + p.len() <= q.len(),
        p == q.subrange(at, at + p.len()),
    ensures
        overlaps(p, q),
{
    let w = shared_width(p.len() as int);
    assert(p.subrange(0, w) =~= q.subrange(at, at + w)) by {
        assert forall|i: int| 0 <= i < w implies p[i] == q[at + i] by {
            assert(q.subrange(at, at + p.len())[i] == q[at + i]);
        }
    }
    assert(windows_agree(p, 0, q, at));
}

/// No pattern that is found is a part of a longer one that occurs as often: a
/// part is listed beside the whole only where it occurs on its own as well, so
/// often that the whole accounts for less than three fifths of it.
pub proof fn no_pattern_is_a_part_of_an_equally_frequent_one(
    rows: Seq<RowView>,
    times: Seq<TimingView>,
    j: int,
    k: int,
    at: int,
)
    requires
        rows.len() <= usize::MAX,
        0 <= j < mined(rows, times).len(),
        0 <= k < mined(rows, times).len(),
        mined(rows, times)[j].templates.len() > mined(rows, times)[k].templates.len(),
        0 <= at,
        at + mined(rows, times)[k].templates.len() <= mined(rows, times)[j].templates.len(),
        mined(rows, times)[k].templates == mined(rows, times)[j].templates.subrange(
            at,
            at + mined(rows, times)[k].templates.len(),
        ),
    ensures
        5 * mined(rows, times)[j].count < 3 * mined(rows, times)[k].count,
        mined(rows, times)[j].count < mined(rows, times)[k].count,
{
    let streams = workflow_streams(rows);
    let grams = all_grams(streams);
    let f = frequent(streams, grams);
    let w = workflows(f);
    let s = by_length(w);
    let u = unshadowed(s);
    lemma_frequent(streams, grams);
    lemma_workflows(f);
    lemma_by_length(w);
    let q = lemma_mined_gram(rows, times, j);
    let p = lemma_mined_gram(rows, times, k);
    let a = choose|a: int| 0 <= a < u.len() && u[a] == q;
    let b = choose|b: int| 0 <= b < u.len() && u[b] == p;
    lemma_workflow_size(rows);
    lemma_support_bound(streams, p.templates);
    lemma_support_bound(streams, q.templates);
    lemma_part_overlaps(p.templates, q.templates, at);
    if b < a {
        let (x, y) = lemma_unshadowed_order(s, b, a);
        lemma_keys_descend(w, x, y);
        assert(length_key(p) >= length_key(q));
        assert(false);
    }
    let r = lemma_unshadowed_order(s, a, b);
}

/// The gram that a pattern stands for is one that is not shadowed.
proof fn lemma_mined_gram(rows: Seq<RowView>, times: Seq<TimingView>, k: int) -> (g: GramView)
    requires
        0 <= k < mined(rows, times).len(),
    ensures
        unshadowed(
            by_length(workflows(frequent(workflow_streams(rows), all_grams(workflow_streams(rows))))),
        ).contains(g),
        g.templates == mined(rows, times)[k].templates,
        g.count == mined(rows, times)[k].count,
        counted(workflow_streams(rows), g),
{
    let streams = workflow_streams(rows);
    let u = unshadowed(by_length(workflows(frequent(streams, all_grams(streams)))));
    let d = distinct_workflows(rows);
    let c = costed(times, d);
    let m = mined(rows, times);
    lemma_distinct_workflows(rows);
    lemma_costed_len(times, d);
    crate::mine::pattern::costliest_come_first(c);
    assert(by_score(c).contains(m[k]));
    assert(c.contains(m[k]));
    let i = choose|i: int| 0 <= i < c.len() && c[i] == m[k];
    let n = lemma_costed(times, d, i);
    lemma_one_per_cycle(u);
    assert(u.contains(d[n]));
    d[n]
}

// ---------------------------------------------------------------------------
// What is mined
// ---------------------------------------------------------------------------

/// A worthwhile gram is costed.
proof fn lemma_costed_all(times: Seq<TimingView>, f: Seq<GramView>, i: int)
    requires
        0 <= i < f.len(),
        worthwhile(f[i].templates),
    ensures
        costed(times, f).contains(pattern_of(times, f[i])),
    decreases f.len(),
{
    let front = f.drop_last();
    let before = costed(times, front);
    let p = pattern_of(times, f[i]);
    if i < front.len() {
        assert(front[i] == f[i]);
        lemma_costed_all(times, front, i);
        lemma_push_contains(before, pattern_of(times, f.last()), p);
    } else {
        lemma_push_contains(before, p, p);
    }
}

/// Every distinct workflow with two different steps, one of which does more than
/// look around, is mined with its steps and its count, whatever its other steps
/// are.
pub proof fn every_telling_workflow_is_mined(
    rows: Seq<RowView>,
    times: Seq<TimingView>,
    n: int,
    i: int,
    j: int,
    m: int,
)
    requires
        numberable(rows),
        0 <= n < distinct_workflows(rows).len(),
        0 <= i < distinct_workflows(rows)[n].templates.len(),
        0 <= j < distinct_workflows(rows)[n].templates.len(),
        0 <= m < distinct_workflows(rows)[n].templates.len(),
        distinct_workflows(rows)[n].templates[i] != distinct_workflows(rows)[n].templates[j],
        !noise(distinct_workflows(rows)[n].templates[m]),
    ensures
        exists|k: int|
            0 <= k < mined(rows, times).len() && (#[trigger] mined(rows, times)[k]).templates
                == distinct_workflows(rows)[n].templates && mined(rows, times)[k].count
                == distinct_workflows(rows)[n].count,
{
    let d = distinct_workflows(rows);
    let g = d[n].templates;
    let c = costed(times, d);
    assert(g[i] != g[0] || g[j] != g[0]);
    assert(worthwhile(g));
    lemma_costed_all(times, d, n);
    lemma_costed_len(times, d);
    lemma_distinct_workflows(rows);
    crate::mine::pattern::costliest_come_first(c);
    assert(mined(rows, times).contains(pattern_of(times, d[n])));
}

/// Every pattern that is mined has two to seven steps, not all the same and not all
/// mere looking around, was seen three times or more, and scores four times its
/// count times the time that one run takes.
pub proof fn patterns_are_telling(rows: Seq<RowView>, times: Seq<TimingView>, k: int)
    requires
        0 <= k < mined(rows, times).len(),
    ensures
        2 <= mined(rows, times)[k].templates.len() <= 7,
        mined(rows, times)[k].count >= 3,
        exists|i: int, j: int|
            0 <= i < j < mined(rows, times)[k].templates.len() && #[trigger] mined(
                rows,
                times,
            )[k].templates[i] != #[trigger] mined(rows, times)[k].templates[j],
        exists|i: int|
            0 <= i < mined(rows, times)[k].templates.len() && !noise(
                #[trigger] mined(rows, times)[k].templates[i],
            ),
        ({
            let full = 4 * mined(rows, times)[k].count * run_ms(
                times,
                mined(rows, times)[k].templates,
            );
            mined(rows, times)[k].score == if full <= u128::MAX {
                full as int
            } else {
                u128::MAX as int
            }
        }),
{
    every_pattern_was_repeated(rows, times);
    let p = mined(rows, times)[k];
    let g = p.templates;
    assert(worthwhile(g));
    let i = choose|i: int| 0 <= i < g.len() && #[trigger] g[i] != g[0];
    assert(g[0] != g[i]);
    crate::mine::pattern::scores_are_products(4, p.count, run_ms(times, g));
}

/// The sequences of two to seven steps that occur three times or more without
/// overlap are those that are considered.
pub proof fn sequences_are_short_and_seen_three_times(
    streams: Seq<Seq<StepView>>,
    g: Seq<Seq<char>>,
)
    ensures
        (exists|k: int|
            0 <= k < frequent(streams, all_grams(streams)).len() && (#[trigger] frequent(
                streams,
                all_grams(streams),
            )[k]).templates == g) <==> 2 <= g.len() <= 7 && support(streams, g) >= 3,
        forall|k: int|
            0 <= k < frequent(streams, all_grams(streams)).len() ==> (#[trigger] frequent(
                streams,
                all_grams(streams),
            )[k]).count == support(streams, frequent(streams, all_grams(streams))[k].templates),
{
    frequent_sequences_are_listed_once(streams, g);
    if support(streams, g) >= 3 && g.len() > 0 {
        lemma_supported_occurs(streams, g);
    }
    assert(listed(frequent(streams, all_grams(streams)), g) <==> exists|k: int|
        0 <= k < frequent(streams, all_grams(streams)).len() && (#[trigger] frequent(
            streams,
            all_grams(streams),
        )[k]).templates == g);
    assert forall|k: int| 0 <= k < frequent(streams, all_grams(streams)).len() implies (
    #[trigger] frequent(streams, all_grams(streams))[k]).count == support(
        streams,
        frequent(streams, all_grams(streams))[k].templates,
    ) by {
        assert(counted(streams, frequent(streams, all_grams(streams))[k]));
    }
}

/// A sequence with support occurs somewhere.
proof fn lemma_supported_occurs(streams: Seq<Seq<StepView>>, g: Seq<Seq<char>>)
    requires
        g.len() > 0,
        support(streams, g) > 0,
    ensures
        occurs(streams, g),
    decreases streams.len(),
{
    let front = streams.drop_last();
    let s = streams.last();
    if starts(s, g, 0).len() > 0 {
        crate::mine::streams::occurrences_do_not_overlap(s, g, 0);
        assert(occurs_at(streams[streams.len() - 1], g, starts(s, g, 0)[0]));
    } else {
        lemma_supported_occurs(front, g);
        let (k, i) = choose|k: int, i: int|
            0 <= k < front.len() && #[trigger] occurs_at(front[k], g, i);
        assert(occurs_at(streams[k], g, i));
    }
}

/// Whether the steps of `g` stand in a row in `b` from place `j` on.
pub open spec fn in_a_row(b: Seq<Seq<char>>, g: Seq<Seq<char>>, j: int) -> bool {
    0 <= j && j + g.len() <= b.len() && forall|k: int|
        0 <= k < g.len() ==> b[j + k] == #[trigger] g[k]
}

/// Two steps overlap another sequence where they stand in it in a row; three or more
/// do where all but the last, or all but the first, of them do.
pub proof fn overlapping_sequences_share_all_but_one_step(a: Seq<Seq<char>>, b: Seq<Seq<char>>)
    ensures
        a.len() <= 2 ==> (overlaps(a, b) <==> exists|j: int| #[trigger] in_a_row(b, a, j)),
        a.len() >= 3 ==> (overlaps(a, b) <==> (exists|j: int| #[trigger]
            in_a_row(b, a.drop_last(), j)) || exists|j: int| #[trigger]
            in_a_row(b, a.drop_first(), j)),
{
    let w = shared_width(a.len() as int);
    if overlaps(a, b) {
        let (i, j) = choose|i: int, j: int| #[trigger] windows_agree(a, i, b, j);
        let x = a.subrange(i, i + w);
        let v = if w < b.len() {
            w
        } else {
            b.len() as int
        };
        let y = b.subrange(j, j + v);
        assert(x.len() == w && y.len() == v);
        assert forall|k: int| 0 <= k < x.len() implies b[j + k] == #[trigger] x[k] by {
            assert(y[k] == b[j + k]);
        }
        assert(in_a_row(b, x, j));
        if a.len() <= 2 {
            assert(x =~= a);
        } else if i == 0 {
            assert(x =~= a.drop_last());
        } else {
            assert(x =~= a.drop_first());
        }
    }
    if a.len() <= 2 && exists|j: int| #[trigger] in_a_row(b, a, j) {
        let j = choose|j: int| #[trigger] in_a_row(b, a, j);
        lemma_row_agrees(a, 0, b, j);
    }
    if a.len() >= 3 && exists|j: int| #[trigger] in_a_row(b, a.drop_last(), j) {
        let j = choose|j: int| #[trigger] in_a_row(b, a.drop_last(), j);
        assert(a.drop_last() =~= a.subrange(0, w));
        lemma_row_agrees(a, 0, b, j);
    }
    if a.len() >= 3 && exists|j: int| #[trigger] in_a_row(b, a.drop_first(), j) {
        let j = choose|j: int| #[trigger] in_a_row(b, a.drop_first(), j);
        assert(a.drop_first() =~= a.subrange(1, 1 + w));
        lemma_row_agrees(a, 1, b, j);
    }
}

/// A window of steps that stands in a row is shared.
proof fn lemma_row_agrees(a: Seq<Seq<char>>, i: int, b: Seq<Seq<char>>, j: int)
    requires
        0 <= i,
        i + shared_width(a.len() as int) <= a.len(),
        in_a_row(b, a.subrange(i, i + shared_width(a.len() as int)), j) || (a.len() <= 2 && i == 0
            && in_a_row(b, a, j)),
    ensures
        overlaps(a, b),
{
    let w = shared_width(a.len() as int);
    let x = a.subrange(i, i + w);
    if a.len() <= 2 && i == 0 {
        assert(x =~= a);
    }
    let y = b.subrange(j, j + w);
    assert forall|k: int| 0 <= k < w implies #[trigger] x[k] == y[k] by {
        assert(b[j + k] == x[k]);
    }
    assert(x =~= y);
    assert(windows_agree(a, i, b, j));
}

/// A pattern is not listed beside a longer one, or one of its length that is more
/// frequent, which it overlaps and which accounts for three fifths of it.
pub proof fn no_pattern_nearly_repeats_another(
    rows: Seq<RowView>,
    times: Seq<TimingView>,
    j: int,
    k: int,
)
    requires
        rows.len() <= usize::MAX,
        0 <= j < mined(rows, times).len(),
        0 <= k < mined(rows, times).len(),
        mined(rows, times)[j].templates.len() > mined(rows, times)[k].templates.len() || (mined(
            rows,
            times,
        )[j].templates.len() == mined(rows, times)[k].templates.len() && mined(rows, times)[j].count
            > mined(rows, times)[k].count),
    ensures
        !(5 * mined(rows, times)[j].count >= 3 * mined(rows, times)[k].count && overlaps(
            mined(rows, times)[k].templates,
            mined(rows, times)[j].templates,
        )),
{
    let streams = workflow_streams(rows);
    let grams = all_grams(streams);
    let f = frequent(streams, grams);
    let w = workflows(f);
    let s = by_length(w);
    let u = unshadowed(s);
    lemma_frequent(streams, grams);
    lemma_workflows(f);
    lemma_by_length(w);
    let q = lemma_mined_gram(rows, times, j);
    let p = lemma_mined_gram(rows, times, k);
    let a = choose|a: int| 0 <= a < u.len() && u[a] == q;
    let b = choose|b: int| 0 <= b < u.len() && u[b] == p;
    lemma_workflow_size(rows);
    lemma_support_bound(streams, p.templates);
    lemma_support_bound(streams, q.templates);
    if b < a {
        let (x, y) = lemma_unshadowed_order(s, b, a);
        lemma_keys_descend(w, x, y);
        assert(length_key(p) >= length_key(q));
        assert(false);
    }
    let r = lemma_unshadowed_order(s, a, b);
}

/// Longer sequences are looked at first, and of those of one length the more
/// frequent.
pub proof fn longer_sequences_come_first(f: Seq<GramView>, a: int, b: int)
    requires
        0 <= a < b < f.len(),
        forall|k: int|
            0 <= k < f.len() ==> (#[trigger] f[k]).templates.len() <= 7 && f[k].count <= u64::MAX,
    ensures
        by_length(f).len() == f.len(),
        by_length(f)[a].templates.len() >= by_length(f)[b].templates.len(),
        by_length(f)[a].templates.len() == by_length(f)[b].templates.len() ==> by_length(
            f,
        )[a].count >= by_length(f)[b].count,
{
    lemma_keys_descend(f, a, b);
    lemma_by_length(f);
    assert(by_length(f).contains(by_length(f)[a]));
    assert(by_length(f).contains(by_length(f)[b]));
}

/// Of the sequences that are rotations of one another the most frequent is kept,
/// and no other.
pub proof fn one_rotation_is_kept(f: Seq<GramView>, i: int, j: int, k: int)
    requires
        0 <= i < f.len(),
    ensures
        exists|m: int|
            0 <= m < one_per_cycle(f).len() && is_rotation(
                (#[trigger] one_per_cycle(f)[m]).templates,
                f[i].templates,
            ) && one_per_cycle(f)[m].count >= f[i].count,
        0 <= j < one_per_cycle(f).len() ==> f.contains(one_per_cycle(f)[j]),
        0 <= j < k < one_per_cycle(f).len() ==> !is_rotation(
            one_per_cycle(f)[j].templates,
            one_per_cycle(f)[k].templates,
        ),
{
    lemma_cycles_kept(f, i);
    lemma_one_per_cycle(f);
    let kept = one_per_cycle(f);
    let m = choose|m: int|
        0 <= m < kept.len() && canonical((#[trigger] kept[m]).templates) == canonical(
            f[i].templates,
        ) && kept[m].count >= f[i].count;
    canonical_rotation_identifies_cycles(kept[m].templates, f[i].templates);
    if 0 <= j < k < kept.len() {
        lemma_cycles_differ(f, j, k);
        canonical_rotation_identifies_cycles(kept[j].templates, kept[k].templates);
    }
}

} // verus!
