//! Clusters of near-duplicate prompts: asking for the same kind of thing three
//! times or more is a skill waiting to exist.
use crate::mine::pattern::{by_score, patterns_view, sort_by_score, Pattern, PatternView};
use crate::mine::prompts::{
    asks, content_words, is_similar, load_prompts, prompts_view, similar,
    similar_prompts_share_two_fifths, similarity_is_symmetric, word_set, PromptRow, PromptView,
};
use crate::text::texts;
use vstd::prelude::*;
use vstd::utf8::encode_utf8;

verus! {

/// How many prompts make a cluster.
pub const MIN_CLUSTER: usize = 3;

/// Whether two prompts are similar; the one that comes first is looked at first.
pub open spec fn edge(rows: Seq<PromptView>, i: int, j: int) -> bool {
    let (a, b) = if i < j {
        (i, j)
    } else {
        (j, i)
    };
    &&& 0 <= a < b < rows.len()
    &&& similar(content_words(rows[a].raw), content_words(rows[b].raw))
}

/// Whether each prompt of a path is similar to the next.
pub open spec fn is_path(rows: Seq<PromptView>, p: Seq<int>) -> bool {
    &&& p.len() > 0
    &&& forall|k: int| 0 <= k < p.len() ==> 0 <= #[trigger] p[k] < rows.len()
    &&& forall|k: int| 0 <= k < p.len() - 1 ==> edge(rows, #[trigger] p[k], p[k + 1])
}

/// Whether similarity leads from one prompt to another.
pub open spec fn linked(rows: Seq<PromptView>, i: int, j: int) -> bool {
    exists|p: Seq<int>| #[trigger] is_path(rows, p) && p[0] == i && p.last() == j
}

/// The prompts below `n` that are linked to `i`, in order.
pub open spec fn component(rows: Seq<PromptView>, i: int, n: nat) -> Seq<usize>
    decreases n,
{
    if n == 0 {
        Seq::empty()
    } else if linked(rows, i, n - 1) {
        component(rows, i, (n - 1) as nat).push((n - 1) as usize)
    } else {
        component(rows, i, (n - 1) as nat)
    }
}

/// Whether no prompt before `i` is linked to it.
pub open spec fn leads(rows: Seq<PromptView>, i: int) -> bool {
    forall|j: int| 0 <= j < i ==> !#[trigger] linked(rows, i, j)
}

/// The clusters whose first prompt is below `n`.
pub open spec fn clusters_below(rows: Seq<PromptView>, n: nat) -> Seq<Seq<usize>>
    decreases n,
{
    if n == 0 {
        Seq::empty()
    } else {
        let before = clusters_below(rows, (n - 1) as nat);
        let c = component(rows, n - 1, rows.len());
        if leads(rows, n - 1) && c.len() >= MIN_CLUSTER {
            before.push(c)
        } else {
            before
        }
    }
}

/// The groups of three or more prompts that are linked to each other, in the
/// order of their first prompt.
pub open spec fn clusters(rows: Seq<PromptView>) -> Seq<Seq<usize>> {
    clusters_below(rows, rows.len())
}

/// What a list of groups holds.
pub open spec fn groups_view(v: Seq<Vec<usize>>) -> Seq<Seq<usize>> {
    Seq::new(v.len(), |i: int| v[i]@)
}

// ---------------------------------------------------------------------------
// Links
// ---------------------------------------------------------------------------

/// Every prompt is linked to itself.
pub proof fn lemma_linked_self(rows: Seq<PromptView>, i: int)
    requires
        0 <= i < rows.len(),
    ensures
        linked(rows, i, i),
{
    let p = seq![i];
    assert(is_path(rows, p));
    assert(p[0] == i && p.last() == i);
}

/// Similar prompts are linked.
pub proof fn lemma_linked_edge(rows: Seq<PromptView>, i: int, j: int)
    requires
        edge(rows, i, j),
    ensures
        linked(rows, i, j),
{
    let p = seq![i, j];
    assert(is_path(rows, p));
    assert(p[0] == i && p.last() == j);
}

/// A link can be read backwards.
pub proof fn lemma_linked_back(rows: Seq<PromptView>, i: int, j: int)
    requires
        linked(rows, i, j),
    ensures
        linked(rows, j, i),
{
    let p = choose|p: Seq<int>| #[trigger] is_path(rows, p) && p[0] == i && p.last() == j;
    let q = Seq::new(p.len(), |k: int| p[p.len() - 1 - k]);
    assert forall|k: int| 0 <= k < q.len() - 1 implies edge(rows, #[trigger] q[k], q[k + 1]) by {
        let m = p.len() - 2 - k;
        assert(edge(rows, p[m], p[m + 1]));
    }
    assert forall|k: int| 0 <= k < q.len() implies 0 <= #[trigger] q[k] < rows.len() by {
        assert(0 <= p[p.len() - 1 - k] < rows.len());
    }
    assert(is_path(rows, q));
    assert(q[0] == j && q.last() == i);
}

/// Links can be put together.
pub proof fn lemma_linked_on(rows: Seq<PromptView>, i: int, j: int, k: int)
    requires
        linked(rows, i, j),
        linked(rows, j, k),
    ensures
        linked(rows, i, k),
{
    let p = choose|p: Seq<int>| #[trigger] is_path(rows, p) && p[0] == i && p.last() == j;
    let q = choose|q: Seq<int>| #[trigger] is_path(rows, q) && q[0] == j && q.last() == k;
    let r = p + q.subrange(1, q.len() as int);
    assert forall|m: int| 0 <= m < r.len() implies 0 <= #[trigger] r[m] < rows.len() by {
        if m < p.len() {
            assert(r[m] == p[m]);
        } else {
            assert(r[m] == q[m - p.len() + 1]);
        }
    }
    assert forall|m: int| 0 <= m < r.len() - 1 implies edge(rows, #[trigger] r[m], r[m + 1]) by {
        if m + 1 < p.len() {
            assert(edge(rows, p[m], p[m + 1]));
        } else if m + 1 == p.len() {
            assert(r[m] == q[0]);
            assert(edge(rows, q[0], q[0int + 1]));
            assert(r[m + 1] == q[1]);
        } else {
            let a = m - p.len() + 1;
            assert(edge(rows, q[a], q[a + 1]));
        }
    }
    assert(is_path(rows, r));
    assert(r[0] == i);
    if q.len() > 1 {
        assert(r.last() == q.last());
    } else {
        assert(r =~= p);
    }
}

/// Which prompts a component holds.
pub proof fn lemma_component(rows: Seq<PromptView>, i: int, n: nat)
    requires
        n <= rows.len(),
        n <= usize::MAX,
    ensures
        component(rows, i, n).len() <= n,
        forall|k: int|
            0 <= k < component(rows, i, n).len() ==> (#[trigger] component(rows, i, n)[k]) < n
                && linked(rows, i, component(rows, i, n)[k] as int),
        forall|a: int, b: int|
            0 <= a < b < component(rows, i, n).len() ==> (#[trigger] component(rows, i, n)[a])
                < #[trigger] component(rows, i, n)[b],
        forall|j: usize|
            j < n && linked(rows, i, j as int) ==> #[trigger] component(rows, i, n).contains(j),
    decreases n,
{
    if n > 0 {
        let m = (n - 1) as nat;
        let before = component(rows, i, m);
        let now = component(rows, i, n);
        lemma_component(rows, i, m);
        assert forall|j: usize| j < n && linked(rows, i, j as int) implies #[trigger] now.contains(
            j,
        ) by {
            if j < m {
                assert(before.contains(j));
                let k = choose|k: int| 0 <= k < before.len() && before[k] == j;
                assert(now[k] == j);
            } else {
                assert(now[before.len() as int] == j);
            }
        }
    }
}

// ---------------------------------------------------------------------------
// Labelling
// ---------------------------------------------------------------------------

/// Whether the labels join only linked prompts, and each label is the first
/// prompt that carries it.
spec fn sound(rows: Seq<PromptView>, labels: Seq<usize>) -> bool {
    &&& labels.len() == rows.len()
    &&& forall|x: int|
        0 <= x < labels.len() ==> (#[trigger] labels[x]) <= x && labels[labels[x] as int]
            == labels[x]
    &&& forall|x: int, y: int|
        0 <= x < labels.len() && 0 <= y < labels.len() && #[trigger] labels[x] == #[trigger] labels[y]
            ==> linked(rows, x, y)
}

/// Whether `new` gives what `old_labels` gives, with the label `from` replaced.
spec fn relabelled(old_labels: Seq<usize>, new: Seq<usize>, from: usize, to: usize) -> bool {
    &&& new.len() == old_labels.len()
    &&& forall|x: int|
        0 <= x < new.len() ==> #[trigger] new[x] == (if old_labels[x] == from {
            to
        } else {
            old_labels[x]
        })
}

/// Replaces a label.
fn relabel(labels: &Vec<usize>, from: usize, to: usize) -> (r: Vec<usize>)
    ensures
        relabelled(labels@, r@, from, to),
{
    let mut out: Vec<usize> = Vec::new();
    let mut i: usize = 0;
    while i < labels.len()
        invariant
            i <= labels@.len(),
            out@.len() == i,
            forall|x: int|
                0 <= x < i ==> #[trigger] out@[x] == (if labels@[x] == from {
                    to
                } else {
                    labels@[x]
                }),
        decreases labels@.len() - i,
    {
        if labels[i] == from {
            out.push(to);
        } else {
            out.push(labels[i]);
        }
        i += 1;
    }
    out
}

/// Joining the labels of two similar prompts keeps the labels sound.
proof fn lemma_join(
    rows: Seq<PromptView>,
    labels: Seq<usize>,
    new: Seq<usize>,
    i: int,
    j: int,
    from: usize,
    to: usize,
)
    requires
        sound(rows, labels),
        edge(rows, i, j),
        0 <= i < rows.len(),
        0 <= j < rows.len(),
        (labels[i] == from && labels[j] == to) || (labels[i] == to && labels[j] == from),
        to < from,
        relabelled(labels, new, from, to),
    ensures
        sound(rows, new),
{
    lemma_linked_edge(rows, i, j);
    lemma_linked_back(rows, i, j);
    assert forall|x: int| 0 <= x < new.len() implies (#[trigger] new[x]) <= x
        && new[new[x] as int] == new[x] by {
        let l = labels[x];
        assert(l <= x && labels[l as int] == l);
        assert(labels[to as int] == to) by {
            assert(labels[i] <= i && labels[labels[i] as int] == labels[i]);
            assert(labels[j] <= j && labels[labels[j] as int] == labels[j]);
        }
    }
    assert forall|x: int, y: int|
        0 <= x < new.len() && 0 <= y < new.len() && #[trigger] new[x] == #[trigger] new[y] implies linked(
        rows,
        x,
        y,
    ) by {
        if labels[x] != labels[y] {
            let (p, q) = if labels[i] == from {
                (i, j)
            } else {
                (j, i)
            };
            if labels[x] == from {
                assert(labels[x] == labels[p] && labels[q] == labels[y]);
                assert(linked(rows, x, p) && linked(rows, q, y));
                lemma_linked_on(rows, x, p, q);
                lemma_linked_on(rows, x, q, y);
            } else {
                assert(labels[y] == labels[p] && labels[q] == labels[x]);
                assert(linked(rows, x, q) && linked(rows, p, y));
                lemma_linked_on(rows, x, q, p);
                lemma_linked_on(rows, x, p, y);
            }
        }
    }
}

/// With all similar prompts joined, linked prompts carry one label.
proof fn lemma_complete(rows: Seq<PromptView>, labels: Seq<usize>, p: Seq<int>)
    requires
        labels.len() == rows.len(),
        forall|i: int, j: int| #[trigger] edge(rows, i, j) && i < j ==> labels[i] == labels[j],
        is_path(rows, p),
    ensures
        labels[p[0]] == labels[p.last()],
    decreases p.len(),
{
    if p.len() > 1 {
        let q = p.drop_last();
        assert forall|k: int| 0 <= k < q.len() - 1 implies edge(rows, #[trigger] q[k], q[k + 1]) by {
            assert(edge(rows, p[k], p[k + 1]));
        }
        assert(is_path(rows, q));
        lemma_complete(rows, labels, q);
        let a = p[p.len() - 2];
        let b = p[p.len() - 2 + 1];
        assert(edge(rows, a, b));
        assert(edge(rows, b, a));
        assert(labels[a] == labels[b]);
    }
}

/// The content words of all prompts.
fn all_words(rows: &Vec<PromptRow>) -> (r: Vec<Vec<String>>)
    ensures
        r@.len() == rows@.len(),
        forall|i: int|
            0 <= i < r@.len() ==> texts((#[trigger] r@[i])@) == content_words(rows@[i].raw@),
{
    let mut out: Vec<Vec<String>> = Vec::new();
    let mut i: usize = 0;
    while i < rows.len()
        invariant
            i <= rows@.len(),
            out@.len() == i,
            forall|k: int|
                0 <= k < i ==> texts((#[trigger] out@[k])@) == content_words(rows@[k].raw@),
        decreases rows@.len() - i,
    {
        out.push(word_set(rows[i].raw.as_str()));
        i += 1;
    }
    out
}

/// Gives linked prompts, and only those, one label.
fn label_prompts(rows: &Vec<PromptRow>) -> (r: Vec<usize>)
    ensures
        r@.len() == rows@.len(),
        forall|x: int| 0 <= x < r@.len() ==> (#[trigger] r@[x]) <= x && r@[r@[x] as int] == r@[x],
        forall|x: int, y: int|
            0 <= x < r@.len() && 0 <= y < r@.len() ==> (#[trigger] r@[x] == #[trigger] r@[y]
                <==> linked(prompts_view(rows@), x, y)),
{
    let ghost all = prompts_view(rows@);
    let n: usize = rows.len();
    let words = all_words(rows);
    let mut labels: Vec<usize> = Vec::new();
    let mut k: usize = 0;
    while k < n
        invariant
            k <= n == rows@.len(),
            labels@.len() == k,
            forall|x: int| 0 <= x < k ==> #[trigger] labels@[x] == x,
        decreases n - k,
    {
        labels.push(k);
        k += 1;
    }
    proof {
        assert forall|x: int, y: int|
            0 <= x < labels@.len() && 0 <= y < labels@.len() && #[trigger] labels@[x]
                == #[trigger] labels@[y] implies linked(all, x, y) by {
            lemma_linked_self(all, x);
        }
    }
    let mut i: usize = 0;
    while i < n
        invariant
            i <= n == rows@.len(),
            all == prompts_view(rows@),
            words@.len() == n,
            forall|x: int|
                0 <= x < n ==> texts((#[trigger] words@[x])@) == content_words(rows@[x].raw@),
            sound(all, labels@),
            forall|x: int, y: int|
                #[trigger] edge(all, x, y) && x < y && x < i ==> labels@[x] == labels@[y],
        decreases n - i,
    {
        let mut j: usize = i + 1;
        while j < n
            invariant
                i < j <= n == rows@.len(),
                all == prompts_view(rows@),
                words@.len() == n,
                forall|x: int|
                    0 <= x < n ==> texts((#[trigger] words@[x])@) == content_words(rows@[x].raw@),
                sound(all, labels@),
                forall|x: int, y: int|
                    #[trigger] edge(all, x, y) && x < y && (x < i || (x == i && y < j))
                        ==> labels@[x] == labels@[y],
            decreases n - j,
        {
            assert(texts(words@[i as int]@) == content_words(all[i as int].raw));
            assert(texts(words@[j as int]@) == content_words(all[j as int].raw));
            if is_similar(&words[i], &words[j]) {
                assert(edge(all, i as int, j as int));
                let a: usize = labels[i];
                let b: usize = labels[j];
                if a < b {
                    let new = relabel(&labels, b, a);
                    proof {
                        lemma_join(all, labels@, new@, i as int, j as int, b, a);
                    }
                    labels = new;
                } else if b < a {
                    let new = relabel(&labels, a, b);
                    proof {
                        lemma_join(all, labels@, new@, i as int, j as int, a, b);
                    }
                    labels = new;
                }
            }
            j += 1;
        }
        i += 1;
    }
    proof {
        assert forall|x: int, y: int| 0 <= x < labels@.len() && 0 <= y < labels@.len() implies (
        #[trigger] labels@[x] == #[trigger] labels@[y] <==> linked(all, x, y)) by {
            if linked(all, x, y) {
                let p = choose|p: Seq<int>| #[trigger] is_path(all, p) && p[0] == x && p.last() == y;
                lemma_complete(all, labels@, p);
            }
        }
    }
    labels
}

/// Groups near-duplicate prompts; a group has three members or more.
pub fn cluster_prompts(rows: &Vec<PromptRow>) -> (r: Vec<Vec<usize>>)
    ensures
        groups_view(r@) == clusters(prompts_view(rows@)),
{
    let ghost all = prompts_view(rows@);
    let n: usize = rows.len();
    let labels = label_prompts(rows);
    let mut out: Vec<Vec<usize>> = Vec::new();
    let mut i: usize = 0;
    assert(groups_view(out@) =~= clusters_below(all, 0));
    while i < n
        invariant
            i <= n == rows@.len(),
            all == prompts_view(rows@),
            labels@.len() == n,
            forall|x: int|
                0 <= x < labels@.len() ==> (#[trigger] labels@[x]) <= x
                    && labels@[labels@[x] as int] == labels@[x],
            forall|x: int, y: int|
                0 <= x < labels@.len() && 0 <= y < labels@.len() ==> (#[trigger] labels@[x]
                    == #[trigger] labels@[y] <==> linked(all, x, y)),
            groups_view(out@) == clusters_below(all, i as nat),
        decreases n - i,
    {
        let ghost before = groups_view(out@);
        proof {
            assert(leads(all, i as int) <==> labels@[i as int] == i) by {
                let l = labels@[i as int] as int;
                assert(labels@[l] == labels@[i as int]);
                assert(linked(all, i as int, l));
                if labels@[i as int] == i {
                    assert forall|j: int| 0 <= j < i implies !#[trigger] linked(
                        all,
                        i as int,
                        j,
                    ) by {
                        assert(labels@[j] <= j);
                        assert(labels@[j] != labels@[i as int]);
                    }
                }
            }
        }
        if labels[i] == i {
            let mut members: Vec<usize> = Vec::new();
            let mut j: usize = 0;
            while j < n
                invariant
                    i < n == rows@.len(),
                    j <= n,
                    labels@.len() == n,
                    forall|x: int, y: int|
                        0 <= x < labels@.len() && 0 <= y < labels@.len() ==> (#[trigger] labels@[x]
                            == #[trigger] labels@[y] <==> linked(all, x, y)),
                    labels@[i as int] == i,
                    members@ == component(all, i as int, j as nat),
                decreases n - j,
            {
                assert(labels@[i as int] == labels@[j as int] <==> linked(
                    all,
                    i as int,
                    j as int,
                ));
                if labels[j] == i {
                    members.push(j);
                }
                j += 1;
            }
            if members.len() >= MIN_CLUSTER {
                let ghost m = members@;
                out.push(members);
                assert(groups_view(out@) =~= before.push(m));
            }
        }
        i += 1;
    }
    out
}

// ---------------------------------------------------------------------------
// Patterns
// ---------------------------------------------------------------------------

/// The shortest of the first `n` members, in bytes; the first of several.
pub open spec fn shortest(rows: Seq<PromptView>, members: Seq<usize>, n: nat) -> Seq<char>
    decreases n,
{
    if n == 0 {
        Seq::empty()
    } else {
        let best = shortest(rows, members, (n - 1) as nat);
        let raw = rows[members[n - 1] as int].raw;
        if n == 1 || encode_utf8(raw).len() < encode_utf8(best).len() {
            raw
        } else {
            best
        }
    }
}

/// The prompt that stands for a cluster.
pub open spec fn spokesman(rows: Seq<PromptView>, members: Seq<usize>) -> Seq<char> {
    shortest(rows, members, members.len())
}

/// The shortest member of a cluster.
pub fn representative(rows: &Vec<PromptRow>, members: &Vec<usize>) -> (r: String)
    requires
        forall|k: int| 0 <= k < members@.len() ==> (#[trigger] members@[k]) < rows@.len(),
    ensures
        r@ == spokesman(prompts_view(rows@), members@),
{
    let ghost all = prompts_view(rows@);
    let mut best = String::new();
    let mut i: usize = 0;
    assert(best@ =~= Seq::<char>::empty());
    while i < members.len()
        invariant
            i <= members@.len(),
            all == prompts_view(rows@),
            forall|k: int| 0 <= k < members@.len() ==> (#[trigger] members@[k]) < rows@.len(),
            best@ == shortest(all, members@, i as nat),
        decreases members@.len() - i,
    {
        assert(members@[i as int] < rows@.len());
        let raw = &rows[members[i]].raw;
        if i == 0 || raw.as_str().as_bytes().len() < best.as_str().as_bytes().len() {
            best = raw.clone();
        }
        i += 1;
    }
    best
}

/// The pattern of a cluster. There is no time to charge for a prompt, so each
/// counts as two seconds.
pub open spec fn cluster_pattern(rows: Seq<PromptView>, members: Seq<usize>) -> PatternView {
    PatternView {
        templates: seq![spokesman(rows, members)],
        count: members.len(),
        score: (8000 * members.len()) as u128,
    }
}

/// The patterns of all clusters, the largest first.
pub open spec fn clustered(rows: Seq<PromptView>) -> Seq<PatternView> {
    let p = asks(rows);
    let c = clusters(p);
    by_score(Seq::new(c.len(), |i: int| cluster_pattern(p, c[i])))
}

/// Every member of a cluster is a prompt.
pub proof fn lemma_members(rows: Seq<PromptView>, n: nat)
    requires
        n <= rows.len(),
        rows.len() <= usize::MAX,
    ensures
        clusters_below(rows, n).len() <= n,
        forall|c: int, k: int|
            0 <= c < clusters_below(rows, n).len() && 0 <= k < clusters_below(rows, n)[c].len()
                ==> (#[trigger] clusters_below(rows, n)[c][k]) < rows.len(),
    decreases n,
{
    if n > 0 {
        lemma_members(rows, (n - 1) as nat);
        lemma_component(rows, n - 1, rows.len());
        let before = clusters_below(rows, (n - 1) as nat);
        assert forall|c: int, k: int|
            0 <= c < clusters_below(rows, n).len() && 0 <= k < clusters_below(rows, n)[c].len() implies (
        #[trigger] clusters_below(rows, n)[c][k]) < rows.len() by {
            if c < before.len() {
                assert(before[c][k] < rows.len());
            }
        }
    }
}

/// Clusters near-duplicate prompts of all tools.
pub fn prompt_clusters(rows: &Vec<PromptRow>) -> (r: Vec<Pattern>)
    ensures
        patterns_view(r@) == clustered(prompts_view(rows@)),
{
    let loaded = load_prompts(rows);
    let n: usize = loaded.len();
    let ghost p = prompts_view(loaded@);
    let groups = cluster_prompts(&loaded);
    let ghost c = groups_view(groups@);
    proof {
        assert(p.len() == n);
        lemma_members(p, p.len());
    }
    let mut out: Vec<Pattern> = Vec::new();
    let mut i: usize = 0;
    while i < groups.len()
        invariant
            i <= groups@.len(),
            p == prompts_view(loaded@),
            c == groups_view(groups@),
            forall|a: int, k: int|
                0 <= a < c.len() && 0 <= k < c[a].len() ==> (#[trigger] c[a][k]) < p.len(),
            out@.len() == i,
            forall|k: int| 0 <= k < i ==> (#[trigger] out@[k])@ == cluster_pattern(p, c[k]),
        decreases groups@.len() - i,
    {
        let members = &groups[i];
        proof {
            assert(c[i as int] == members@);
            assert forall|k: int| 0 <= k < members@.len() implies (#[trigger] members@[k])
                < loaded@.len() by {
                assert(c[i as int][k] < p.len());
            }
        }
        let rep = representative(&loaded, members);
        let count: usize = members.len();
        let one = Pattern { templates: vec![rep], count, score: 8000 * count as u128 };
        assert(one@.templates =~= cluster_pattern(p, c[i as int]).templates);
        out.push(one);
        i += 1;
    }
    assert(patterns_view(out@) =~= Seq::new(c.len(), |i: int| cluster_pattern(p, c[i])));
    sort_by_score(&out)
}

// ---------------------------------------------------------------------------
// What the clusters are
// ---------------------------------------------------------------------------

/// Where the cluster of a prompt stands.
proof fn lemma_clusters(rows: Seq<PromptView>, n: nat, c: int) -> (i: int)
    requires
        0 <= c < clusters_below(rows, n).len(),
    ensures
        0 <= i < n,
        leads(rows, i),
        clusters_below(rows, n)[c] == component(rows, i, rows.len()),
        component(rows, i, rows.len()).len() >= MIN_CLUSTER,
        c == clusters_below(rows, i as nat).len(),
    decreases n,
{
    let m = (n - 1) as nat;
    if c < clusters_below(rows, m).len() {
        lemma_clusters(rows, m, c)
    } else {
        n - 1
    }
}

/// Two prompts stand in one cluster exactly when similarity leads from one to
/// the other, directly or over other prompts.
pub proof fn a_cluster_holds_what_is_linked(rows: Seq<PromptView>, c: int, x: usize, y: usize)
    requires
        rows.len() <= usize::MAX,
        0 <= c < clusters(rows).len(),
        clusters(rows)[c].contains(x),
        y < rows.len(),
    ensures
        clusters(rows)[c].len() >= MIN_CLUSTER,
        clusters(rows)[c].contains(y) <==> linked(rows, x as int, y as int),
{
    let i = lemma_clusters(rows, rows.len(), c);
    let m = component(rows, i, rows.len());
    lemma_component(rows, i, rows.len());
    let k = choose|k: int| 0 <= k < m.len() && m[k] == x;
    assert(linked(rows, i, m[k] as int));
    lemma_linked_back(rows, i, x as int);
    if m.contains(y) {
        let l = choose|l: int| 0 <= l < m.len() && m[l] == y;
        assert(linked(rows, i, m[l] as int));
        lemma_linked_on(rows, x as int, i, y as int);
    }
    if linked(rows, x as int, y as int) {
        lemma_linked_on(rows, i, x as int, y as int);
    }
}

/// No prompt stands in two clusters.
pub proof fn clusters_do_not_meet(rows: Seq<PromptView>, a: int, b: int, x: usize)
    requires
        rows.len() <= usize::MAX,
        0 <= a < clusters(rows).len(),
        0 <= b < clusters(rows).len(),
        clusters(rows)[a].contains(x),
        clusters(rows)[b].contains(x),
    ensures
        a == b,
{
    let i = lemma_clusters(rows, rows.len(), a);
    let j = lemma_clusters(rows, rows.len(), b);
    lemma_component(rows, i, rows.len());
    lemma_component(rows, j, rows.len());
    let m = component(rows, i, rows.len());
    let n = component(rows, j, rows.len());
    let k = choose|k: int| 0 <= k < m.len() && m[k] == x;
    let l = choose|l: int| 0 <= l < n.len() && n[l] == x;
    assert(linked(rows, i, m[k] as int) && linked(rows, j, n[l] as int));
    lemma_linked_back(rows, i, x as int);
    lemma_linked_back(rows, j, x as int);
    lemma_linked_on(rows, i, x as int, j);
    lemma_linked_on(rows, j, x as int, i);
    assert(i == j);
}

/// The first prompt that is linked to `x`.
proof fn lemma_leader(rows: Seq<PromptView>, x: int, n: int) -> (i: int)
    requires
        0 <= n < rows.len(),
        0 <= x < rows.len(),
        linked(rows, x, n),
    ensures
        0 <= i <= n,
        linked(rows, x, i),
        leads(rows, i),
    decreases n,
{
    if leads(rows, n) {
        n
    } else {
        let j = choose|j: int| 0 <= j < n && #[trigger] linked(rows, n, j);
        lemma_linked_on(rows, x, n, j);
        lemma_leader(rows, x, j)
    }
}

/// Linked prompts have one component.
proof fn lemma_same_component(rows: Seq<PromptView>, i: int, j: int, n: nat)
    requires
        linked(rows, i, j),
    ensures
        component(rows, i, n) == component(rows, j, n),
    decreases n,
{
    if n > 0 {
        lemma_same_component(rows, i, j, (n - 1) as nat);
        lemma_linked_back(rows, i, j);
        if linked(rows, i, n - 1) {
            lemma_linked_on(rows, j, i, n - 1);
        }
        if linked(rows, j, n - 1) {
            lemma_linked_on(rows, i, j, n - 1);
        }
    }
}

/// The component of every leader is listed if it is large enough.
proof fn lemma_listed(rows: Seq<PromptView>, n: nat, i: int)
    requires
        0 <= i < n,
        leads(rows, i),
        component(rows, i, rows.len()).len() >= MIN_CLUSTER,
    ensures
        clusters_below(rows, n).contains(component(rows, i, rows.len())),
    decreases n,
{
    let m = (n - 1) as nat;
    let before = clusters_below(rows, m);
    let now = clusters_below(rows, n);
    let c = component(rows, i, rows.len());
    if i < m {
        lemma_listed(rows, m, i);
        let k = choose|k: int| 0 <= k < before.len() && before[k] == c;
        assert(now[k] == c);
    } else {
        assert(now[before.len() as int] == c);
    }
}

/// A prompt that is linked to two others or more stands in a cluster.
pub proof fn every_large_group_is_a_cluster(rows: Seq<PromptView>, x: usize)
    requires
        rows.len() <= usize::MAX,
        x < rows.len(),
        component(rows, x as int, rows.len()).len() >= MIN_CLUSTER,
    ensures
        exists|c: int| 0 <= c < clusters(rows).len() && (#[trigger] clusters(rows)[c]).contains(x),
{
    lemma_linked_self(rows, x as int);
    let i = lemma_leader(rows, x as int, x as int);
    lemma_same_component(rows, x as int, i, rows.len());
    lemma_listed(rows, rows.len(), i);
    let m = component(rows, i, rows.len());
    let c = choose|c: int| 0 <= c < clusters(rows).len() && clusters(rows)[c] == m;
    lemma_component(rows, i, rows.len());
    lemma_linked_back(rows, x as int, i);
    assert(clusters(rows)[c].contains(x));
}

// ---------------------------------------------------------------------------
// What a cluster is
// ---------------------------------------------------------------------------

/// Two prompts belong together directly exactly when they are different ones whose
/// telling words agree in two or more, and in two fifths of all of them.
pub proof fn prompts_belong_together_by_shared_words(rows: Seq<PromptView>, i: int, j: int)
    ensures
        edge(rows, i, j) <==> 0 <= i < rows.len() && 0 <= j < rows.len() && i != j && {
            let (x, y) = (
                content_words(rows[i].raw).to_set(),
                content_words(rows[j].raw).to_set(),
            );
            x.intersect(y).len() >= 2 && 5 * x.intersect(y).len() >= 2 * x.union(y).len()
        },
{
    if 0 <= i < rows.len() && 0 <= j < rows.len() {
        similarity_is_symmetric(rows[i].raw, rows[j].raw);
        similar_prompts_share_two_fifths(rows[i].raw, rows[j].raw);
    }
}

/// Linked prompts are those that are reached from one another through prompts that
/// belong together: whatever holds of a prompt and goes from each to those that belong
/// to it holds of all that are linked with it.
pub proof fn linked_prompts_are_reached_step_by_step(
    rows: Seq<PromptView>,
    s: spec_fn(int) -> bool,
    i: int,
    j: int,
)
    requires
        linked(rows, i, j),
        s(i),
        forall|a: int, b: int| s(a) && #[trigger] edge(rows, a, b) ==> s(b),
    ensures
        s(j),
{
    let p = choose|p: Seq<int>| #[trigger] is_path(rows, p) && p[0] == i && p.last() == j;
    lemma_reached(rows, s, p);
}

/// What holds of the beginning of a path holds of its end.
proof fn lemma_reached(rows: Seq<PromptView>, s: spec_fn(int) -> bool, p: Seq<int>)
    requires
        is_path(rows, p),
        s(p[0]),
        forall|a: int, b: int| s(a) && #[trigger] edge(rows, a, b) ==> s(b),
    ensures
        s(p.last()),
    decreases p.len(),
{
    if p.len() > 1 {
        let q = p.drop_last();
        assert forall|k: int| 0 <= k < q.len() implies 0 <= #[trigger] q[k] < rows.len() by {
            assert(q[k] == p[k]);
        }
        assert forall|k: int| 0 <= k < q.len() - 1 implies edge(
            rows,
            #[trigger] q[k],
            q[k + 1],
        ) by {
            assert(q[k] == p[k] && q[k + 1] == p[k + 1]);
        }
        lemma_reached(rows, s, q);
        let k = p.len() - 2;
        assert(edge(rows, p[k], p[k + 1]));
    }
}

/// Three prompts that are linked are in a cluster together, and no cluster has fewer;
/// its members are in the order in which they were typed.
pub proof fn three_linked_prompts_are_a_cluster(
    rows: Seq<PromptView>,
    x: usize,
    y: usize,
    z: usize,
    c: int,
)
    requires
        rows.len() <= usize::MAX,
        x < rows.len() && y < rows.len() && z < rows.len(),
        x != y && y != z && x != z,
        linked(rows, x as int, y as int),
        linked(rows, x as int, z as int),
    ensures
        exists|d: int|
            0 <= d < clusters(rows).len() && (#[trigger] clusters(rows)[d]).contains(x)
                && clusters(rows)[d].contains(y) && clusters(rows)[d].contains(z),
        0 <= c < clusters(rows).len() ==> clusters(rows)[c].len() >= 3 && forall|a: int, b: int|
            0 <= a < b < clusters(rows)[c].len() ==> #[trigger] clusters(rows)[c][a]
                < #[trigger] clusters(rows)[c][b],
{
    let m = component(rows, x as int, rows.len());
    lemma_linked_self(rows, x as int);
    lemma_component(rows, x as int, rows.len());
    assert(m.contains(x) && m.contains(y) && m.contains(z));
    let i = choose|i: int| 0 <= i < m.len() && m[i] == x;
    let j = choose|j: int| 0 <= j < m.len() && m[j] == y;
    let k = choose|k: int| 0 <= k < m.len() && m[k] == z;
    assert(i != j && j != k && i != k);
    assert(m.len() >= 3);
    every_large_group_is_a_cluster(rows, x);
    let d = choose|d: int|
        0 <= d < clusters(rows).len() && (#[trigger] clusters(rows)[d]).contains(x);
    a_cluster_holds_what_is_linked(rows, d, x, y);
    a_cluster_holds_what_is_linked(rows, d, x, z);
    if 0 <= c < clusters(rows).len() {
        let n = lemma_clusters(rows, rows.len(), c);
        lemma_component(rows, n, rows.len());
    }
}

/// The prompt that stands for a cluster is the first of its shortest members, in
/// bytes.
pub proof fn the_shortest_prompt_stands_for_its_cluster(
    rows: Seq<PromptView>,
    members: Seq<usize>,
)
    requires
        members.len() > 0,
    ensures
        exists|k: int|
            0 <= k < members.len() && spokesman(rows, members) == rows[(#[trigger] members[k]) as int].raw
                && forall|j: int|
                0 <= j < k ==> encode_utf8(rows[(#[trigger] members[j]) as int].raw).len()
                    > encode_utf8(spokesman(rows, members)).len(),
        forall|j: int|
            0 <= j < members.len() ==> encode_utf8(rows[(#[trigger] members[j]) as int].raw).len()
                >= encode_utf8(spokesman(rows, members)).len(),
{
    let k = lemma_shortest(rows, members, members.len());
    assert(spokesman(rows, members) == rows[members[k] as int].raw);
}

/// The first of the shortest members.
proof fn lemma_shortest(rows: Seq<PromptView>, members: Seq<usize>, n: nat) -> (k: int)
    requires
        0 < n <= members.len(),
    ensures
        0 <= k < n,
        shortest(rows, members, n) == rows[members[k] as int].raw,
        forall|j: int|
            0 <= j < k ==> encode_utf8(rows[(#[trigger] members[j]) as int].raw).len()
                > encode_utf8(shortest(rows, members, n)).len(),
        forall|j: int|
            0 <= j < n ==> encode_utf8(rows[(#[trigger] members[j]) as int].raw).len()
                >= encode_utf8(shortest(rows, members, n)).len(),
    decreases n,
{
    if n == 1 {
        0
    } else {
        let k = lemma_shortest(rows, members, (n - 1) as nat);
        if encode_utf8(rows[members[n - 1] as int].raw).len() < encode_utf8(
            rows[members[k] as int].raw,
        ).len() {
            n - 1
        } else {
            k
        }
    }
}

/// Every cluster of asks is a pattern: what stands for it, counted with its members and
/// scored at eight thousand for each.
pub proof fn every_cluster_is_a_pattern(rows: Seq<PromptView>, c: int)
    requires
        clusters(asks(rows)).len() <= usize::MAX,
        0 <= c < clusters(asks(rows)).len(),
        8000 * clusters(asks(rows))[c].len() <= u128::MAX,
    ensures
        clustered(rows).len() == clusters(asks(rows)).len(),
        exists|k: int|
            0 <= k < clustered(rows).len() && {
                let p = #[trigger] clustered(rows)[k];
                &&& p.templates == seq![spokesman(asks(rows), clusters(asks(rows))[c])]
                &&& p.count == clusters(asks(rows))[c].len()
                &&& p.score == 8000 * clusters(asks(rows))[c].len()
            },
{
    let p = asks(rows);
    let g = clusters(p);
    let all = Seq::new(g.len(), |i: int| cluster_pattern(p, g[i]));
    crate::mine::pattern::costliest_come_first(all);
    assert(all[c] == cluster_pattern(p, g[c]));
    assert(all.contains(all[c]));
    assert(clustered(rows).contains(all[c]));
}

} // verus!
