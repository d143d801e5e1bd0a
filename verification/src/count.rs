//! Counting the positions at which something holds.
use vstd::prelude::*;

verus! {

/// At how many of the positions below `n` something holds.
pub open spec fn how_many(n: nat, f: spec_fn(int) -> bool) -> nat
    decreases n,
{
    if n == 0 {
        0
    } else {
        how_many((n - 1) as nat, f) + if f(n - 1) {
            1nat
        } else {
            0
        }
    }
}

/// The count is the size of the set of those positions.
pub proof fn a_count_is_the_size_of_a_set(n: nat, f: spec_fn(int) -> bool)
    ensures
        Set::new(|i: int| 0 <= i < n && f(i)).finite(),
        Set::new(|i: int| 0 <= i < n && f(i)).len() == how_many(n, f),
    decreases n,
{
    let s = Set::new(|i: int| 0 <= i < n && f(i));
    if n == 0 {
        assert(s =~= Set::empty());
    } else {
        let m = (n - 1) as nat;
        let t = Set::new(|i: int| 0 <= i < m && f(i));
        a_count_is_the_size_of_a_set(m, f);
        if f(n - 1) {
            assert(s =~= t.insert(n - 1));
        } else {
            assert(s =~= t);
        }
    }
}

/// What holds at the same positions is counted alike; what holds at more of them
/// is counted at least as often.
pub proof fn lemma_more_positions(n: nat, f: spec_fn(int) -> bool, g: spec_fn(int) -> bool)
    requires
        forall|i: int| 0 <= i < n && #[trigger] f(i) ==> g(i),
    ensures
        how_many(n, f) <= how_many(n, g) <= n,
        (forall|i: int| 0 <= i < n && #[trigger] g(i) ==> f(i)) ==> how_many(n, f) == how_many(n, g),
    decreases n,
{
    if n > 0 {
        lemma_more_positions((n - 1) as nat, f, g);
    }
}

/// Something is counted exactly when it holds somewhere.
pub proof fn lemma_some_position(n: nat, f: spec_fn(int) -> bool)
    ensures
        how_many(n, f) > 0 <==> exists|i: int| 0 <= i < n && #[trigger] f(i),
    decreases n,
{
    if n > 0 {
        lemma_some_position((n - 1) as nat, f);
        if f(n - 1) {
        }
        if exists|i: int| 0 <= i < n && #[trigger] f(i) {
            let i = choose|i: int| 0 <= i < n && #[trigger] f(i);
            if i < n - 1 {
                assert(f(i));
            }
        }
    }
}

/// What holds in one of two ways, never in both, is counted as often as the two
/// together.
pub proof fn lemma_either_way(
    n: nat,
    f: spec_fn(int) -> bool,
    g: spec_fn(int) -> bool,
    h: spec_fn(int) -> bool,
)
    requires
        forall|i: int| 0 <= i < n ==> #[trigger] h(i) == (f(i) || g(i)),
        forall|i: int| 0 <= i < n ==> !(#[trigger] f(i) && g(i)),
    ensures
        how_many(n, h) == how_many(n, f) + how_many(n, g),
    decreases n,
{
    if n > 0 {
        lemma_either_way((n - 1) as nat, f, g, h);
        assert(h(n - 1) == (f(n - 1) || g(n - 1)));
        assert(!(f(n - 1) && g(n - 1)));
    }
}

/// What holds at the same positions is counted alike.
pub proof fn lemma_same_positions(n: nat, f: spec_fn(int) -> bool, g: spec_fn(int) -> bool)
    requires
        forall|i: int| 0 <= i < n ==> #[trigger] f(i) == g(i),
    ensures
        how_many(n, f) == how_many(n, g),
    decreases n,
{
    if n > 0 {
        lemma_same_positions((n - 1) as nat, f, g);
        assert(f(n - 1) == g(n - 1));
    }
}

/// The elements of a sequence that something holds of are counted alike in every
/// order.
pub proof fn lemma_count_in_multiset<T>(s: Seq<T>, f: spec_fn(T) -> bool)
    ensures
        how_many(s.len(), |i: int| f(s[i])) == s.to_multiset().filter(f).len(),
    decreases s.len(),
{
    broadcast use {
        vstd::seq_lib::group_to_multiset_ensures,
        vstd::multiset::group_multiset_axioms,
        vstd::multiset::group_multiset_properties,
    };

    let m = s.to_multiset().filter(f);
    if s.len() == 0 {
        assert(s.to_multiset() =~= vstd::multiset::Multiset::empty());
        assert(m =~= vstd::multiset::Multiset::empty());
    } else {
        let front = s.drop_last();
        let before = front.to_multiset().filter(f);
        lemma_count_in_multiset(front, f);
        lemma_same_positions(
            (s.len() - 1) as nat,
            |i: int| f(front[i]),
            |i: int| f(s[i]),
        );
        assert(s =~= front.push(s.last()));
        assert(s.to_multiset() =~= front.to_multiset().insert(s.last()));
        if f(s.last()) {
            assert(m =~= before.insert(s.last()));
        } else {
            assert(m =~= before);
        }
    }
}

/// A count is the first position and the rest.
pub proof fn lemma_from_second(n: nat, f: spec_fn(int) -> bool)
    ensures
        how_many(n + 1, f) == how_many(n, |i: int| f(i + 1)) + if f(0) {
            1nat
        } else {
            0
        },
    decreases n,
{
    if n > 0 {
        lemma_from_second((n - 1) as nat, f);
    } else {
        assert(how_many(0, f) == 0);
    }
}

} // verus!
