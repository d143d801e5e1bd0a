//! Replayed sessions: agent tools write a continued conversation into a fresh
//! session that repeats all earlier events, so a session whose events are a
//! prefix of another's is set aside and each real event counts once.
use crate::group::{
    distinct, group, lemma_distinct, lemma_places, lemma_places_before, places,
};
use crate::order::{
    alphabetical, alphabetical_is_a_sort, alphabetize, lemma_text_le_total, rank, ranked,
    ranked_is_a_stable_sort, reordered, text_le,
};
use crate::text::{clone_all, texts};
use vstd::prelude::*;

verus! {

/// The shortest session that can be set aside: a shorter one may well begin like
/// a longer one by coincidence.
pub const MIN_REPLAY: usize = 3;

/// An event of a session; rows come ordered by session and position.
pub struct SessionRow {
    pub session: String,
    pub event: String,
}

/// What a [`SessionRow`] holds.
pub struct SessionView {
    pub session: Seq<char>,
    pub event: Seq<char>,
}

impl View for SessionRow {
    type V = SessionView;

    open spec fn view(&self) -> SessionView {
        SessionView { session: self.session@, event: self.event@ }
    }
}

/// What a sequence of rows holds.
pub open spec fn sessions_view(v: Seq<SessionRow>) -> Seq<SessionView> {
    Seq::new(v.len(), |i: int| v[i]@)
}

/// The session of each row.
pub open spec fn session_keys(rows: Seq<SessionView>) -> Seq<Seq<char>> {
    Seq::new(rows.len(), |i: int| rows[i].session)
}

/// The events of one session, in order.
pub open spec fn fingerprint(rows: Seq<SessionView>, key: Seq<char>) -> Seq<Seq<char>> {
    let at = places(session_keys(rows), rows.len(), key);
    Seq::new(at.len(), |j: int| rows[at[j] as int].event)
}

/// All sessions, the longest first and those of equal length by name.
pub open spec fn longest_first(rows: Seq<SessionView>) -> Seq<Seq<char>> {
    let names = distinct(session_keys(rows), rows.len());
    let sorted = reordered(names, alphabetical(names));
    reordered(
        sorted,
        ranked(Seq::new(sorted.len(), |i: int| fingerprint(rows, sorted[i]).len() as u128)),
    )
}

/// Whether the events of a session begin those of a session in `kept`.
pub open spec fn replays(
    rows: Seq<SessionView>,
    kept: Seq<Seq<char>>,
    key: Seq<char>,
) -> bool {
    &&& fingerprint(rows, key).len() >= MIN_REPLAY
    &&& exists|k: int|
        0 <= k < kept.len() && fingerprint(rows, key).is_prefix_of(
            fingerprint(rows, #[trigger] kept[k]),
        )
}

/// The sessions among `order` that replay none before them that is kept.
pub open spec fn originals(rows: Seq<SessionView>, order: Seq<Seq<char>>) -> Seq<Seq<char>>
    decreases order.len(),
{
    if order.len() == 0 {
        Seq::empty()
    } else {
        let kept = originals(rows, order.drop_last());
        if replays(rows, kept, order.last()) {
            kept
        } else {
            kept.push(order.last())
        }
    }
}

/// The sessions among `order` that replay a kept one before them.
pub open spec fn replayed(rows: Seq<SessionView>, order: Seq<Seq<char>>) -> Seq<Seq<char>>
    decreases order.len(),
{
    if order.len() == 0 {
        Seq::empty()
    } else {
        let found = replayed(rows, order.drop_last());
        if replays(rows, originals(rows, order.drop_last()), order.last()) {
            found.push(order.last())
        } else {
            found
        }
    }
}

/// The sessions that are set aside.
pub open spec fn superseded(rows: Seq<SessionView>) -> Seq<Seq<char>> {
    replayed(rows, longest_first(rows))
}

/// The sessions that count.
pub open spec fn retained(rows: Seq<SessionView>) -> Seq<Seq<char>> {
    originals(rows, longest_first(rows))
}

/// Whether `a` begins `b`.
fn is_prefix(a: &Vec<String>, b: &Vec<String>) -> (r: bool)
    ensures
        r == texts(a@).is_prefix_of(texts(b@)),
{
    let ghost x = texts(a@);
    let ghost y = texts(b@);
    if a.len() > b.len() {
        return false;
    }
    let mut i: usize = 0;
    while i < a.len()
        invariant
            i <= a@.len() <= b@.len(),
            x == texts(a@),
            y == texts(b@),
            forall|k: int| 0 <= k < i ==> x[k] == y[k],
        decreases a@.len() - i,
    {
        assert(x[i as int] == a@[i as int]@ && y[i as int] == b@[i as int]@);
        if a[i] != b[i] {
            proof {
                if x.is_prefix_of(y) {
                    assert(y.subrange(0, x.len() as int)[i as int] == y[i as int]);
                }
            }
            return false;
        }
        i += 1;
    }
    assert(x =~= y.subrange(0, x.len() as int));
    true
}

/// A session with its events.
struct Session {
    key: String,
    events: Vec<String>,
}

/// Whether `v` holds the sessions `keys` with their events.
spec fn holds(v: Seq<Session>, rows: Seq<SessionView>, keys: Seq<Seq<char>>) -> bool {
    &&& v.len() == keys.len()
    &&& forall|i: int|
        0 <= i < v.len() ==> (#[trigger] v[i]).key@ == keys[i] && texts(v[i].events@)
            == fingerprint(rows, keys[i])
}

/// The elements of a list of sessions at the given positions.
fn reorder(
    v: &Vec<Session>,
    order: &Vec<usize>,
    rows: Ghost<Seq<SessionView>>,
    keys: Ghost<Seq<Seq<char>>>,
) -> (r: Vec<Session>)
    requires
        holds(v@, rows@, keys@),
        forall|k: int| 0 <= k < order@.len() ==> (#[trigger] order@[k]) < v@.len(),
    ensures
        holds(r@, rows@, reordered(keys@, order@)),
{
    let mut out: Vec<Session> = Vec::new();
    let mut j: usize = 0;
    while j < order.len()
        invariant
            j <= order@.len(),
            holds(v@, rows@, keys@),
            forall|k: int| 0 <= k < order@.len() ==> (#[trigger] order@[k]) < v@.len(),
            out@.len() == j,
            forall|k: int|
                0 <= k < j ==> (#[trigger] out@[k]).key@ == keys@[order@[k] as int] && texts(
                    out@[k].events@,
                ) == fingerprint(rows@, keys@[order@[k] as int]),
        decreases order@.len() - j,
    {
        assert(order@[j as int] < v@.len());
        let s = &v[order[j]];
        out.push(Session { key: s.key.clone(), events: clone_all(&s.events) });
        j += 1;
    }
    out
}

/// The sessions with their events, the longest first.
fn sort_sessions(rows: &Vec<SessionRow>) -> (r: Vec<Session>)
    ensures
        holds(r@, sessions_view(rows@), longest_first(sessions_view(rows@))),
{
    let ghost all = sessions_view(rows@);
    let mut keys: Vec<String> = Vec::new();
    let mut i: usize = 0;
    while i < rows.len()
        invariant
            i <= rows@.len(),
            keys@.len() == i,
            forall|k: int| 0 <= k < i ==> (#[trigger] keys@[k])@ == rows@[k].session@,
        decreases rows@.len() - i,
    {
        keys.push(rows[i].session.clone());
        i += 1;
    }
    assert(texts(keys@) =~= session_keys(all));
    let groups = group(&keys);
    let ghost names = texts(groups.names@);
    let mut found: Vec<Session> = Vec::new();
    let mut g: usize = 0;
    while g < groups.names.len()
        invariant
            g <= groups.names@.len(),
            all == sessions_view(rows@),
            texts(keys@) == session_keys(all),
            keys@.len() == rows@.len(),
            groups.of(texts(keys@)),
            names == texts(groups.names@),
            found@.len() == g,
            forall|k: int|
                0 <= k < g ==> (#[trigger] found@[k]).key@ == names[k] && texts(found@[k].events@)
                    == fingerprint(all, names[k]),
        decreases groups.names@.len() - g,
    {
        let at = &groups.members[g];
        let n: usize = rows.len();
        proof {
            assert(groups.members@[g as int]@ == places(
                session_keys(all),
                session_keys(all).len(),
                groups.names@[g as int]@,
            ));
            lemma_places(session_keys(all), all.len(), names[g as int]);
        }
        let mut events: Vec<String> = Vec::new();
        let mut j: usize = 0;
        while j < at.len()
            invariant
                j <= at@.len(),
                n == rows@.len(),
                all == sessions_view(rows@),
                at@ == places(session_keys(all), all.len(), names[g as int]),
                forall|k: int| 0 <= k < at@.len() ==> (#[trigger] at@[k]) < n,
                events@.len() == j,
                forall|k: int|
                    0 <= k < j ==> (#[trigger] events@[k])@ == all[at@[k] as int].event,
            decreases at@.len() - j,
        {
            assert(at@[j as int] < n);
            events.push(rows[at[j]].event.clone());
            j += 1;
        }
        assert(texts(events@) =~= fingerprint(all, names[g as int]));
        found.push(Session { key: groups.names[g].clone(), events });
        g += 1;
    }
    let order = alphabetize(&groups.names);
    proof {
        alphabetical_is_a_sort(names);
    }
    let sorted = reorder(&found, &order, Ghost(all), Ghost(names));
    let ghost by_name = reordered(names, alphabetical(names));
    let mut lens: Vec<u128> = Vec::new();
    let mut k: usize = 0;
    while k < sorted.len()
        invariant
            k <= sorted@.len(),
            holds(sorted@, all, by_name),
            lens@.len() == k,
            forall|j: int|
                0 <= j < k ==> #[trigger] lens@[j] == fingerprint(all, by_name[j]).len() as u128,
        decreases sorted@.len() - k,
    {
        assert(texts(sorted@[k as int].events@) == fingerprint(all, by_name[k as int]));
        lens.push(sorted[k].events.len() as u128);
        k += 1;
    }
    assert(lens@ =~= Seq::new(
        by_name.len(),
        |i: int| fingerprint(all, by_name[i]).len() as u128,
    ));
    let by_length = rank(&lens);
    proof {
        ranked_is_a_stable_sort(lens@);
    }
    reorder(&sorted, &by_length, Ghost(all), Ghost(by_name))
}

/// Finds the sessions that another one repeats from the start.
pub fn dedupe_sessions(rows: &Vec<SessionRow>) -> (r: Vec<String>)
    ensures
        texts(r@) == superseded(sessions_view(rows@)),
{
    let ghost all = sessions_view(rows@);
    let ghost order = longest_first(all);
    let sessions = sort_sessions(rows);
    let mut kept: Vec<usize> = Vec::new();
    let mut out: Vec<String> = Vec::new();
    let mut i: usize = 0;
    assert(texts(out@) =~= replayed(all, order.take(0)));
    while i < sessions.len()
        invariant
            i <= sessions@.len(),
            holds(sessions@, all, order),
            kept@.len() == originals(all, order.take(i as int)).len(),
            forall|k: int|
                0 <= k < kept@.len() ==> (#[trigger] kept@[k]) < i && order[kept@[k] as int]
                    == originals(all, order.take(i as int))[k],
            texts(out@) == replayed(all, order.take(i as int)),
        decreases sessions@.len() - i,
    {
        let ghost held = originals(all, order.take(i as int));
        let ghost found = texts(out@);
        let s = &sessions[i];
        proof {
            assert(order.take(i + 1).drop_last() =~= order.take(i as int));
            assert(order.take(i + 1).last() == order[i as int]);
            assert(texts(s.events@) == fingerprint(all, order[i as int]));
        }
        let mut replay = false;
        let mut k: usize = 0;
        while k < kept.len() && s.events.len() >= MIN_REPLAY
            invariant
                k <= kept@.len(),
                i < sessions@.len(),
                holds(sessions@, all, order),
                *s == sessions@[i as int],
                kept@.len() == held.len(),
                forall|j: int|
                    0 <= j < kept@.len() ==> (#[trigger] kept@[j]) < i && order[kept@[j] as int]
                        == held[j],
                replay ==> s.events@.len() >= MIN_REPLAY,
                replay == exists|j: int|
                    0 <= j < k && fingerprint(all, order[i as int]).is_prefix_of(
                        fingerprint(all, #[trigger] held[j]),
                    ),
            decreases kept@.len() - k,
        {
            assert(kept@[k as int] < i);
            let other = &sessions[kept[k]];
            assert(texts(other.events@) == fingerprint(all, held[k as int]));
            assert(texts(s.events@) == fingerprint(all, order[i as int]));
            if is_prefix(&s.events, &other.events) {
                replay = true;
            }
            k += 1;
        }
        assert(fingerprint(all, order[i as int]).len() == s.events@.len());
        assert(replay == replays(all, held, order[i as int]));
        if replay {
            out.push(s.key.clone());
            assert(texts(out@) =~= found.push(order[i as int]));
        } else {
            kept.push(i);
        }
        i += 1;
    }
    assert(order.take(i as int) =~= order);
    out
}

// ---------------------------------------------------------------------------
// What setting sessions aside leaves
// ---------------------------------------------------------------------------

/// The sessions are split in two.
proof fn lemma_split(rows: Seq<SessionView>, order: Seq<Seq<char>>, x: Seq<char>)
    ensures
        order.contains(x) ==> originals(rows, order).contains(x) || replayed(rows, order).contains(x),
        originals(rows, order).contains(x) ==> order.contains(x),
        replayed(rows, order).contains(x) ==> order.contains(x) && replays(
            rows,
            originals(rows, order),
            x,
        ),
    decreases order.len(),
{
    if order.len() > 0 {
        let front = order.drop_last();
        let last = order.last();
        let kept = originals(rows, front);
        let found = replayed(rows, front);
        let now = originals(rows, order);
        lemma_split(rows, front, x);
        if order.contains(x) {
            let i = choose|i: int| 0 <= i < order.len() && order[i] == x;
            if i < front.len() {
                assert(front[i] == x);
            } else if replays(rows, kept, last) {
                assert(replayed(rows, order)[found.len() as int] == x);
            } else {
                assert(now[kept.len() as int] == x);
            }
        }
        if kept.contains(x) {
            let i = choose|i: int| 0 <= i < kept.len() && kept[i] == x;
            assert(now[i] == x);
        }
        if found.contains(x) {
            let i = choose|i: int| 0 <= i < found.len() && found[i] == x;
            assert(replayed(rows, order)[i] == x);
        }
        if front.contains(x) {
            let i = choose|i: int| 0 <= i < front.len() && front[i] == x;
            assert(order[i] == x);
        }
        assert(order[order.len() - 1] == last);
        if now.contains(x) {
            let i = choose|i: int| 0 <= i < now.len() && now[i] == x;
            if i < kept.len() {
                assert(kept[i] == x);
            }
        }
        if replayed(rows, order).contains(x) {
            let i = choose|i: int| 0 <= i < replayed(rows, order).len() && replayed(rows, order)[i] == x;
            if i < found.len() {
                assert(found[i] == x);
            }
            assert(replays(rows, kept, x));
            let k = choose|k: int|
                0 <= k < kept.len() && fingerprint(rows, x).is_prefix_of(
                    fingerprint(rows, #[trigger] kept[k]),
                );
            assert(now[k] == kept[k]);
        }
    } else {
        assert(!order.contains(x));
    }
}

/// No kept session repeats one that was kept before it.
proof fn lemma_no_replay(rows: Seq<SessionView>, order: Seq<Seq<char>>, a: int, b: int)
    requires
        0 <= a < b < originals(rows, order).len(),
        fingerprint(rows, originals(rows, order)[b]).len() >= MIN_REPLAY,
    ensures
        !fingerprint(rows, originals(rows, order)[b]).is_prefix_of(
            fingerprint(rows, originals(rows, order)[a]),
        ),
    decreases order.len(),
{
    let kept = originals(rows, order.drop_last());
    if b < kept.len() {
        lemma_no_replay(rows, order.drop_last(), a, b);
    } else {
        assert(kept[a] == originals(rows, order)[a]);
    }
}

/// Kept sessions stay in the order they came in.
proof fn lemma_kept_in_order(rows: Seq<SessionView>, order: Seq<Seq<char>>, a: int, b: int) -> (r: (
    int,
    int,
))
    requires
        0 <= a < b < originals(rows, order).len(),
    ensures
        0 <= r.0 < r.1 < order.len(),
        order[r.0] == originals(rows, order)[a],
        order[r.1] == originals(rows, order)[b],
    decreases order.len(),
{
    let front = order.drop_last();
    let kept = originals(rows, front);
    if b < kept.len() {
        lemma_kept_in_order(rows, front, a, b)
    } else {
        lemma_split(rows, front, kept[a]);
        assert(kept.contains(kept[a]));
        let i = choose|i: int| 0 <= i < front.len() && front[i] == kept[a];
        (i, order.len() - 1)
    }
}

/// The sessions come by descending length, each once.
proof fn lemma_longest_first(rows: Seq<SessionView>)
    requires
        rows.len() <= usize::MAX,
    ensures
        forall|a: int, b: int|
            0 <= a < b < longest_first(rows).len() ==> fingerprint(
                rows,
                #[trigger] longest_first(rows)[a],
            ).len() >= fingerprint(rows, #[trigger] longest_first(rows)[b]).len(),
        forall|x: Seq<char>| #[trigger]
            longest_first(rows).contains(x) <==> exists|i: int|
                0 <= i < rows.len() && (#[trigger] rows[i]).session == x,
{
    let keys = session_keys(rows);
    let names = distinct(keys, rows.len());
    let sorted = reordered(names, alphabetical(names));
    let lens = Seq::new(sorted.len(), |i: int| fingerprint(rows, sorted[i]).len() as u128);
    let order = ranked(lens);
    let all = longest_first(rows);
    lemma_distinct(keys, rows.len());
    alphabetical_is_a_sort(names);
    ranked_is_a_stable_sort(lens);
    assert forall|a: int, b: int| 0 <= a < b < all.len() implies fingerprint(
        rows,
        #[trigger] all[a],
    ).len() >= fingerprint(rows, #[trigger] all[b]).len() by {
        let (i, j) = (order[a] as int, order[b] as int);
        lemma_places(keys, rows.len(), sorted[i]);
        lemma_places(keys, rows.len(), sorted[j]);
        assert(lens[i] >= lens[j]);
        assert(all[a] == sorted[i] && all[b] == sorted[j]);
    }
    assert forall|x: Seq<char>| #[trigger] all.contains(x) <==> exists|i: int|
        0 <= i < rows.len() && (#[trigger] rows[i]).session == x by {
        if all.contains(x) {
            let a = choose|a: int| 0 <= a < all.len() && all[a] == x;
            let n = alphabetical(names)[order[a] as int];
            assert(names[n as int] == x);
            assert(names.contains(x));
            let i = choose|i: int| 0 <= i < rows.len() && #[trigger] keys[i] == x;
            assert(rows[i].session == x);
        }
        if exists|i: int| 0 <= i < rows.len() && (#[trigger] rows[i]).session == x {
            let i = choose|i: int| 0 <= i < rows.len() && (#[trigger] rows[i]).session == x;
            assert(keys[i] == x);
            assert(names.contains(x));
            let n = choose|n: int| 0 <= n < names.len() && names[n] == x;
            assert(alphabetical(names).contains(n as usize));
            let m = choose|m: int|
                0 <= m < alphabetical(names).len() && alphabetical(names)[m] == n as usize;
            assert(sorted[m] == x);
            assert(order.contains(m as usize));
            let a = choose|a: int| 0 <= a < order.len() && order[a] == m as usize;
            assert(all[a] == x);
        }
    }
}

/// Every session is kept or set aside, and one that is set aside begins exactly
/// like a session that is kept: nothing is lost by leaving it out.
pub proof fn a_superseded_session_is_a_prefix_of_a_kept_one(
    rows: Seq<SessionView>,
    i: int,
)
    requires
        rows.len() <= usize::MAX,
        0 <= i < rows.len(),
    ensures
        retained(rows).contains(rows[i].session) || superseded(rows).contains(rows[i].session),
        superseded(rows).contains(rows[i].session) ==> replays(
            rows,
            retained(rows),
            rows[i].session,
        ),
{
    lemma_longest_first(rows);
    assert(longest_first(rows).contains(rows[i].session));
    lemma_split(rows, longest_first(rows), rows[i].session);
}

/// No kept session of three events or more begins another kept one.
pub proof fn kept_sessions_do_not_replay_each_other(rows: Seq<SessionView>, a: int, b: int)
    requires
        rows.len() <= usize::MAX,
        0 <= a < retained(rows).len(),
        0 <= b < retained(rows).len(),
        a != b,
        fingerprint(rows, retained(rows)[a]).len() >= MIN_REPLAY,
    ensures
        !fingerprint(rows, retained(rows)[a]).is_prefix_of(fingerprint(rows, retained(rows)[b])),
{
    let order = longest_first(rows);
    let kept = retained(rows);
    lemma_longest_first(rows);
    if b < a {
        lemma_no_replay(rows, order, b, a);
    } else {
        let (i, j) = lemma_kept_in_order(rows, order, a, b);
        let x = fingerprint(rows, kept[a]);
        let y = fingerprint(rows, kept[b]);
        assert(x.len() >= y.len());
        if x.is_prefix_of(y) {
            assert(x =~= y.subrange(0, x.len() as int));
            assert(y =~= x.subrange(0, y.len() as int));
            lemma_no_replay(rows, order, a, b);
        }
    }
}

/// The sessions of equal length come by name, and none comes twice.
proof fn lemma_ties_by_name(rows: Seq<SessionView>)
    requires
        rows.len() <= usize::MAX,
    ensures
        longest_first(rows).no_duplicates(),
        forall|a: int, b: int|
            0 <= a < b < longest_first(rows).len() && fingerprint(
                rows,
                #[trigger] longest_first(rows)[a],
            ).len() == fingerprint(rows, #[trigger] longest_first(rows)[b]).len() ==> text_le(
                longest_first(rows)[a],
                longest_first(rows)[b],
            ),
{
    let keys = session_keys(rows);
    let names = distinct(keys, rows.len());
    let by_name = alphabetical(names);
    let sorted = reordered(names, by_name);
    let lens = Seq::new(sorted.len(), |i: int| fingerprint(rows, sorted[i]).len() as u128);
    let order = ranked(lens);
    let all = longest_first(rows);
    lemma_distinct(keys, rows.len());
    alphabetical_is_a_sort(names);
    ranked_is_a_stable_sort(lens);
    assert forall|a: int, b: int|
        0 <= a < b < all.len() && fingerprint(rows, #[trigger] all[a]).len() == fingerprint(
            rows,
            #[trigger] all[b],
        ).len() implies text_le(all[a], all[b]) by {
        let (i, j) = (order[a] as int, order[b] as int);
        assert(all[a] == sorted[i] && all[b] == sorted[j]);
        assert(lens[i] == lens[j]);
        assert(i < j);
        assert(text_le(names[by_name[i] as int], names[by_name[j] as int]));
    }
    assert forall|a: int, b: int| 0 <= a < all.len() && 0 <= b < all.len() && a != b implies all[a]
        != all[b] by {
        let (i, j) = (order[a] as int, order[b] as int);
        assert(i != j);
        assert(by_name[i] != by_name[j]);
        assert(names[by_name[i] as int] != names[by_name[j] as int]);
    }
}

/// Whether a session is set aside is decided by those kept before it.
proof fn lemma_decided_by_those_before(rows: Seq<SessionView>, order: Seq<Seq<char>>, b: int)
    requires
        order.no_duplicates(),
        0 <= b < order.len(),
    ensures
        replayed(rows, order).contains(order[b]) <==> replays(
            rows,
            originals(rows, order.take(b)),
            order[b],
        ),
    decreases order.len(),
{
    let front = order.drop_last();
    let x = order[b];
    let found = replayed(rows, front);
    let now = replayed(rows, order);
    lemma_split(rows, front, x);
    if b == order.len() - 1 {
        assert(order.take(b) =~= front);
        assert(!front.contains(x));
        if replays(rows, originals(rows, front), x) {
            assert(now[found.len() as int] == x);
        }
    } else {
        lemma_decided_by_those_before(rows, front, b);
        assert(front.take(b) =~= order.take(b));
        assert(front[b] == x);
        assert(order.last() != x);
        if found.contains(x) {
            let i = choose|i: int| 0 <= i < found.len() && found[i] == x;
            assert(now[i] == x);
        }
        if now.contains(x) {
            let i = choose|i: int| 0 <= i < now.len() && now[i] == x;
            assert(i < found.len());
            assert(found[i] == x);
        }
    }
}

/// Whether the events of session `t` begin with those of session `x`, and `t` is
/// longer or, being as long, comes first by name.
pub open spec fn repeats(rows: Seq<SessionView>, t: Seq<char>, x: Seq<char>) -> bool {
    &&& t != x
    &&& fingerprint(rows, x).is_prefix_of(fingerprint(rows, t))
    &&& fingerprint(rows, t).len() > fingerprint(rows, x).len() || text_le(t, x)
}

/// A session is set aside exactly when it has three events or more and another
/// session begins with all of them and is longer, or has the same events and
/// comes first by name.
pub proof fn sessions_are_set_aside_exactly_when_repeated(rows: Seq<SessionView>, i: int)
    requires
        rows.len() <= usize::MAX,
        0 <= i < rows.len(),
    ensures
        superseded(rows).contains(rows[i].session) <==> fingerprint(rows, rows[i].session).len()
            >= MIN_REPLAY && exists|j: int|
            0 <= j < rows.len() && repeats(rows, (#[trigger] rows[j]).session, rows[i].session),
{
    let x = rows[i].session;
    let order = longest_first(rows);
    let fx = fingerprint(rows, x);
    lemma_longest_first(rows);
    lemma_ties_by_name(rows);
    assert(order.contains(x));
    let b = choose|b: int| 0 <= b < order.len() && order[b] == x;
    let before = order.take(b);
    let kept = originals(rows, before);
    lemma_decided_by_those_before(rows, order, b);
    if superseded(rows).contains(x) {
        let k = choose|k: int|
            0 <= k < kept.len() && fx.is_prefix_of(fingerprint(rows, #[trigger] kept[k]));
        let t = kept[k];
        assert(kept.contains(t));
        lemma_split(rows, before, t);
        let a = choose|a: int| 0 <= a < before.len() && before[a] == t;
        assert(order[a] == t);
        assert(order.contains(t));
        let j = choose|j: int| 0 <= j < rows.len() && (#[trigger] rows[j]).session == t;
        assert(repeats(rows, rows[j].session, x));
    }
    if fx.len() >= MIN_REPLAY && exists|j: int|
        0 <= j < rows.len() && repeats(rows, (#[trigger] rows[j]).session, x) {
        let j = choose|j: int|
            0 <= j < rows.len() && repeats(rows, (#[trigger] rows[j]).session, x);
        let t = rows[j].session;
        let ft = fingerprint(rows, t);
        assert(order.contains(t));
        let a = choose|a: int| 0 <= a < order.len() && order[a] == t;
        if b < a {
            assert(order[b] == x && order[a] == t);
            lemma_text_le_total(t, x);
        }
        assert(a < b);
        assert(before[a] == t);
        assert(before.contains(t));
        lemma_split(rows, before, t);
        if kept.contains(t) {
            let k = choose|k: int| 0 <= k < kept.len() && kept[k] == t;
            assert(fx.is_prefix_of(fingerprint(rows, kept[k])));
        } else {
            let k = choose|k: int|
                0 <= k < kept.len() && ft.is_prefix_of(fingerprint(rows, #[trigger] kept[k]));
            let fk = fingerprint(rows, kept[k]);
            assert(fx =~= fk.subrange(0, fx.len() as int)) by {
                assert(fx =~= ft.subrange(0, fx.len() as int));
                assert(ft =~= fk.subrange(0, ft.len() as int));
            }
            assert(fx.is_prefix_of(fk));
        }
        assert(replays(rows, kept, x));
    }
}

/// The fingerprint of a session is what happened in it, in order: an event of the
/// session is added to it, and one of another session is not.
pub proof fn a_fingerprint_is_what_happened_in_order(
    rows: Seq<SessionView>,
    r: SessionView,
    key: Seq<char>,
)
    requires
        rows.len() < usize::MAX,
    ensures
        fingerprint(Seq::empty(), key) == Seq::<Seq<char>>::empty(),
        r.session == key ==> fingerprint(rows.push(r), key) == fingerprint(rows, key).push(r.event),
        r.session != key ==> fingerprint(rows.push(r), key) == fingerprint(rows, key),
{
    let n = rows.len();
    let more = rows.push(r);
    let (a, b) = (session_keys(rows), session_keys(more));
    assert forall|i: int| 0 <= i < n implies #[trigger] a[i] == b[i] by {
        assert(more[i] == rows[i]);
    }
    lemma_places_before(a, b, n, key);
    lemma_places(a, n, key);
    assert(b[n as int] == r.session);
    let at = places(a, n, key);
    assert forall|j: int| 0 <= j < at.len() implies more[(#[trigger] at[j]) as int]
        == rows[at[j] as int] by {
        assert(at[j] < n);
    }
    assert(fingerprint(Seq::empty(), key) =~= Seq::empty());
    if r.session == key {
        assert(fingerprint(more, key) =~= fingerprint(rows, key).push(r.event));
    } else {
        assert(fingerprint(more, key) =~= fingerprint(rows, key));
    }
}

/// A session is set aside exactly when it has three events or more and all of them,
/// in order, begin another session that goes on further or, where the two are the
/// same, has the lesser name.
pub proof fn a_session_of_three_events_is_set_aside_when_repeated(
    rows: Seq<SessionView>,
    i: int,
)
    requires
        rows.len() <= usize::MAX,
        0 <= i < rows.len(),
    ensures
        superseded(rows).contains(rows[i].session) <==> fingerprint(rows, rows[i].session).len()
            >= 3 && exists|j: int|
            0 <= j < rows.len() && (#[trigger] rows[j]).session != rows[i].session && fingerprint(
                rows,
                rows[i].session,
            ).is_prefix_of(fingerprint(rows, rows[j].session)) && (fingerprint(
                rows,
                rows[j].session,
            ).len() > fingerprint(rows, rows[i].session).len() || text_le(
                rows[j].session,
                rows[i].session,
            )),
{
    sessions_are_set_aside_exactly_when_repeated(rows, i);
    let x = rows[i].session;
    if exists|j: int| 0 <= j < rows.len() && repeats(rows, (#[trigger] rows[j]).session, x) {
        let j = choose|j: int| 0 <= j < rows.len() && repeats(rows, (#[trigger] rows[j]).session, x);
        assert(rows[j].session != x);
    }
    if exists|j: int|
        0 <= j < rows.len() && (#[trigger] rows[j]).session != x && fingerprint(
            rows,
            x,
        ).is_prefix_of(fingerprint(rows, rows[j].session)) && (fingerprint(
            rows,
            rows[j].session,
        ).len() > fingerprint(rows, x).len() || text_le(rows[j].session, x)) {
        let j = choose|j: int|
            0 <= j < rows.len() && (#[trigger] rows[j]).session != x && fingerprint(
                rows,
                x,
            ).is_prefix_of(fingerprint(rows, rows[j].session)) && (fingerprint(
                rows,
                rows[j].session,
            ).len() > fingerprint(rows, x).len() || text_le(rows[j].session, x));
        assert(repeats(rows, rows[j].session, x));
    }
}

} // verus!
