//! Grouping positions by a text key.
use crate::count::{how_many, lemma_same_positions};
use crate::intern::Interner;
use crate::text::texts;
use vstd::prelude::*;

verus! {

/// The distinct keys among the first `n`, in order of first appearance.
pub open spec fn distinct(keys: Seq<Seq<char>>, n: nat) -> Seq<Seq<char>>
    decreases n,
{
    if n == 0 {
        Seq::empty()
    } else {
        let before = distinct(keys, (n - 1) as nat);
        if before.contains(keys[n - 1]) {
            before
        } else {
            before.push(keys[n - 1])
        }
    }
}

/// The positions below `n` that hold the key `k`, in ascending order.
pub open spec fn places(keys: Seq<Seq<char>>, n: nat, k: Seq<char>) -> Seq<usize>
    decreases n,
{
    if n == 0 {
        Seq::empty()
    } else {
        let before = places(keys, (n - 1) as nat, k);
        if keys[n - 1] == k {
            before.push((n - 1) as usize)
        } else {
            before
        }
    }
}

/// Which keys are listed.
pub proof fn lemma_distinct(keys: Seq<Seq<char>>, n: nat)
    requires
        n <= keys.len(),
    ensures
        distinct(keys, n).no_duplicates(),
        distinct(keys, n).len() <= n,
        forall|k: Seq<char>| #[trigger]
            distinct(keys, n).contains(k) <==> exists|i: int| 0 <= i < n && #[trigger] keys[i] == k,
    decreases n,
{
    if n > 0 {
        let m = (n - 1) as nat;
        let before = distinct(keys, m);
        let now = distinct(keys, n);
        lemma_distinct(keys, m);
        assert forall|k: Seq<char>| #[trigger] now.contains(k) <==> exists|i: int|
            0 <= i < n && #[trigger] keys[i] == k by {
            if now.contains(k) {
                let j = choose|j: int| 0 <= j < now.len() && now[j] == k;
                if j < before.len() {
                    assert(before[j] == k);
                    assert(before.contains(k));
                    let i = choose|i: int| 0 <= i < m && #[trigger] keys[i] == k;
                    assert(keys[i] == k);
                } else {
                    assert(keys[n - 1] == k);
                }
            }
            if exists|i: int| 0 <= i < n && #[trigger] keys[i] == k {
                let i = choose|i: int| 0 <= i < n && #[trigger] keys[i] == k;
                if i < m {
                    assert(before.contains(k));
                    let j = choose|j: int| 0 <= j < before.len() && before[j] == k;
                    assert(now[j] == k);
                } else if !before.contains(k) {
                    assert(now[before.len() as int] == k);
                }
            }
        }
    } else {
        assert forall|k: Seq<char>| !(#[trigger] distinct(keys, n).contains(k)) by {}
    }
}

/// The places of a key are exactly the positions that hold it, ascending.
pub proof fn lemma_places(keys: Seq<Seq<char>>, n: nat, k: Seq<char>)
    requires
        n <= keys.len(),
        n <= usize::MAX,
    ensures
        places(keys, n, k).len() <= n,
        forall|j: int|
            0 <= j < places(keys, n, k).len() ==> (#[trigger] places(keys, n, k)[j]) < n
                && keys[places(keys, n, k)[j] as int] == k,
        forall|a: int, b: int|
            0 <= a < b < places(keys, n, k).len() ==> (#[trigger] places(keys, n, k)[a])
                < #[trigger] places(keys, n, k)[b],
        forall|i: usize|
            i < n && keys[i as int] == k ==> #[trigger] places(keys, n, k).contains(i),
    decreases n,
{
    if n > 0 {
        let m = (n - 1) as nat;
        let before = places(keys, m, k);
        let now = places(keys, n, k);
        lemma_places(keys, m, k);
        assert forall|i: usize| i < n && keys[i as int] == k implies #[trigger] now.contains(i) by {
            if i < m {
                assert(before.contains(i));
                let j = choose|j: int| 0 <= j < before.len() && before[j] == i;
                assert(now[j] == i);
            } else {
                assert(now[before.len() as int] == i);
            }
        }
    }
}

/// A key without places is not listed, and the other way round.
proof fn lemma_unlisted(keys: Seq<Seq<char>>, n: nat, k: Seq<char>)
    requires
        n <= keys.len(),
    ensures
        !distinct(keys, n).contains(k) ==> places(keys, n, k) == Seq::<usize>::empty(),
    decreases n,
{
    if n > 0 {
        let m = (n - 1) as nat;
        lemma_unlisted(keys, m, k);
        lemma_distinct(keys, n);
        lemma_distinct(keys, m);
        if !distinct(keys, n).contains(k) {
            assert(keys[n - 1] != k);
            if distinct(keys, m).contains(k) {
                let i = choose|i: int| 0 <= i < m && #[trigger] keys[i] == k;
                assert(keys[i] == k);
            }
        }
    }
}

/// The distinct keys and, for each, where it stands.
pub struct Grouping {
    pub names: Vec<String>,
    pub members: Vec<Vec<usize>>,
}

impl Grouping {
    /// Whether this is the grouping of `keys`.
    pub open spec fn of(&self, keys: Seq<Seq<char>>) -> bool {
        &&& texts(self.names@) == distinct(keys, keys.len())
        &&& self.members@.len() == self.names@.len()
        &&& forall|k: int|
            0 <= k < self.members@.len() ==> (#[trigger] self.members@[k])@ == places(
                keys,
                keys.len(),
                self.names@[k]@,
            )
    }
}

/// Groups positions by their key.
pub fn group(keys: &Vec<String>) -> (r: Grouping)
    ensures
        r.of(texts(keys@)),
{
    let ghost all = texts(keys@);
    let mut table = Interner::new();
    let mut members: Vec<Vec<usize>> = Vec::new();
    let mut i: usize = 0;
    while i < keys.len()
        invariant
            i <= keys@.len(),
            all == texts(keys@),
            table.wf(),
            table@ == distinct(all, i as nat),
            members@.len() == table@.len(),
            forall|k: int|
                0 <= k < table@.len() ==> (#[trigger] members@[k])@ == places(
                    all,
                    i as nat,
                    table@[k],
                ),
        decreases keys@.len() - i,
    {
        let ghost before = table@;
        let ghost held = members@;
        assert(all[i as int] == keys@[i as int]@);
        let k = table.intern(keys[i].as_str());
        proof {
            table.lemma_distinct();
            if !before.contains(all[i as int]) {
                lemma_unlisted(all, i as nat, all[i as int]);
                if k < before.len() {
                    assert(before[k as int] == all[i as int]);
                }
            }
        }
        if k == members.len() {
            members.push(Vec::new());
        }
        let ghost ready = members@;
        members[k].push(i);
        assert forall|j: int| 0 <= j < table@.len() implies (#[trigger] members@[j])@ == places(
            all,
            (i + 1) as nat,
            table@[j],
        ) by {
            if j != k {
                assert(table@[j] != table@[k as int]);
                assert(members@[j] == ready[j]);
                assert(ready[j] == held[j]);
                assert(table@[j] == before[j]);
            } else {
                assert(members@[j]@ == ready[j]@.push(i));
                if j < held.len() {
                    assert(ready[j] == held[j]);
                    assert(table@[j] == before[j]);
                }
            }
        }
        i += 1;
    }
    let mut names: Vec<String> = Vec::new();
    let mut k: usize = 0;
    let n: usize = table.len();
    while k < n
        invariant
            k <= n == table@.len(),
            names@.len() == k,
            forall|j: int| 0 <= j < k ==> (#[trigger] names@[j])@ == table@[j],
        decreases n - k,
    {
        names.push(table.name(k).clone());
        k += 1;
    }
    assert(texts(names@) =~= table@);
    assert forall|j: int| 0 <= j < members@.len() implies (#[trigger] members@[j])@ == places(
        all,
        all.len(),
        names@[j]@,
    ) by {
        assert(texts(names@)[j] == table@[j]);
    }
    Grouping { names, members }
}

/// What is counted at the places of a key is what is counted of all places that hold
/// the key.
pub proof fn lemma_places_counted(
    keys: Seq<Seq<char>>,
    n: nat,
    k: Seq<char>,
    f: spec_fn(int) -> bool,
)
    requires
        n <= keys.len(),
        n <= usize::MAX,
    ensures
        how_many(places(keys, n, k).len(), |j: int| f(places(keys, n, k)[j] as int)) == how_many(
            n,
            |i: int| keys[i] == k && f(i),
        ),
    decreases n,
{
    if n > 0 {
        let m = (n - 1) as nat;
        let before = places(keys, m, k);
        let all = places(keys, n, k);
        lemma_places_counted(keys, m, k, f);
        lemma_same_positions(
            before.len(),
            |j: int| f(before[j] as int),
            |j: int| f(all[j] as int),
        );
    }
}

/// Distinct keys come in the order in which they are first met.
pub proof fn distinct_keys_come_as_first_met(keys: Seq<Seq<char>>, n: nat, a: int, b: int)
    requires
        n <= keys.len(),
        0 <= a < b < distinct(keys, n).len(),
    ensures
        exists|i: int|
            0 <= i < n && #[trigger] keys[i] == distinct(keys, n)[a] && forall|j: int|
                0 <= j <= i ==> #[trigger] keys[j] != distinct(keys, n)[b],
    decreases n,
{
    let m = (n - 1) as nat;
    let before = distinct(keys, m);
    if b < before.len() {
        distinct_keys_come_as_first_met(keys, m, a, b);
        let i = choose|i: int|
            0 <= i < m && #[trigger] keys[i] == before[a] && forall|j: int|
                0 <= j <= i ==> #[trigger] keys[j] != before[b];
        assert(keys[i] == distinct(keys, n)[a]);
    } else {
        lemma_distinct(keys, m);
        assert(before.contains(before[a]));
        let i = choose|i: int| 0 <= i < m && #[trigger] keys[i] == before[a];
        assert(keys[i] == distinct(keys, n)[a]);
        assert forall|j: int| 0 <= j <= i implies #[trigger] keys[j] != distinct(keys, n)[b] by {
            assert(before.contains(keys[j]));
        }
    }
}

/// The places of a key among the first keys do not depend on those behind them.
pub proof fn lemma_places_before(keys: Seq<Seq<char>>, more: Seq<Seq<char>>, n: nat, k: Seq<char>)
    requires
        n <= keys.len(),
        n <= more.len(),
        forall|i: int| 0 <= i < n ==> #[trigger] keys[i] == more[i],
    ensures
        places(keys, n, k) == places(more, n, k),
    decreases n,
{
    if n > 0 {
        lemma_places_before(keys, more, (n - 1) as nat, k);
        assert(keys[n - 1] == more[n - 1]);
    }
}

} // verus!
