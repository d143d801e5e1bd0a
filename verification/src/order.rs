//! Orders on texts and sorting: one merge sort, whose result is the sequence's
//! `sort_by` for whatever total order it is given.
use crate::count::{
    how_many, lemma_count_in_multiset, lemma_more_positions, lemma_same_positions,
};
use crate::text::{chars_of, texts};
use vstd::prelude::*;
use vstd::relations::{sorted_by, total_ordering};
use vstd::seq_lib::{group_to_multiset_ensures, lemma_multiset_commutative, lemma_sorted_unique};

verus! {

// ---------------------------------------------------------------------------
// Lexicographic orders
// ---------------------------------------------------------------------------

/// Lexicographic order of texts by code point, which is also the order of
/// their UTF-8 bytes.
pub open spec fn text_le(a: Seq<char>, b: Seq<char>) -> bool
    decreases a.len(),
{
    if a.len() == 0 {
        true
    } else if b.len() == 0 {
        false
    } else if a[0] != b[0] {
        a[0] < b[0]
    } else {
        text_le(a.drop_first(), b.drop_first())
    }
}

/// Lexicographic order of sequences of texts.
pub open spec fn texts_le(a: Seq<Seq<char>>, b: Seq<Seq<char>>) -> bool
    decreases a.len(),
{
    if a.len() == 0 {
        true
    } else if b.len() == 0 {
        false
    } else if a[0] != b[0] {
        text_le(a[0], b[0])
    } else {
        texts_le(a.drop_first(), b.drop_first())
    }
}

pub proof fn lemma_text_le_total(a: Seq<char>, b: Seq<char>)
    ensures
        text_le(a, a),
        text_le(a, b) || text_le(b, a),
        text_le(a, b) && text_le(b, a) ==> a == b,
    decreases a.len(),
{
    if a.len() > 0 {
        lemma_text_le_total(a.drop_first(), a.drop_first());
        if b.len() > 0 && a[0] == b[0] {
            lemma_text_le_total(a.drop_first(), b.drop_first());
            if text_le(a, b) && text_le(b, a) {
                assert(a == seq![a[0]] + a.drop_first());
                assert(b == seq![b[0]] + b.drop_first());
            }
        }
    } else {
        if b.len() == 0 {
            assert(a == b);
        }
    }
}

pub proof fn lemma_text_le_transitive(a: Seq<char>, b: Seq<char>, c: Seq<char>)
    requires
        text_le(a, b),
        text_le(b, c),
    ensures
        text_le(a, c),
    decreases a.len(),
{
    if a.len() > 0 && b.len() > 0 && c.len() > 0 && a[0] == b[0] && b[0] == c[0] {
        lemma_text_le_transitive(a.drop_first(), b.drop_first(), c.drop_first());
    }
}

pub proof fn lemma_texts_le_total(a: Seq<Seq<char>>, b: Seq<Seq<char>>)
    ensures
        texts_le(a, a),
        texts_le(a, b) || texts_le(b, a),
        texts_le(a, b) && texts_le(b, a) ==> a == b,
    decreases a.len(),
{
    if a.len() > 0 {
        lemma_texts_le_total(a.drop_first(), a.drop_first());
        if b.len() > 0 {
            lemma_text_le_total(a[0], b[0]);
            if a[0] == b[0] {
                lemma_texts_le_total(a.drop_first(), b.drop_first());
                if texts_le(a, b) && texts_le(b, a) {
                    assert(a == seq![a[0]] + a.drop_first());
                    assert(b == seq![b[0]] + b.drop_first());
                }
            }
        }
    } else {
        if b.len() == 0 {
            assert(a == b);
        }
    }
}

pub proof fn lemma_texts_le_transitive(a: Seq<Seq<char>>, b: Seq<Seq<char>>, c: Seq<Seq<char>>)
    requires
        texts_le(a, b),
        texts_le(b, c),
    ensures
        texts_le(a, c),
    decreases a.len(),
{
    if a.len() > 0 && b.len() > 0 && c.len() > 0 {
        if a[0] == b[0] && b[0] == c[0] {
            lemma_texts_le_transitive(a.drop_first(), b.drop_first(), c.drop_first());
        } else if a[0] != b[0] && b[0] != c[0] {
            lemma_text_le_transitive(a[0], b[0], c[0]);
            lemma_text_le_total(a[0], b[0]);
        }
    }
}

/// Both lexicographic orders are total orders.
pub proof fn lexicographic_orders_are_total()
    ensures
        total_ordering(|a: Seq<char>, b: Seq<char>| text_le(a, b)),
        total_ordering(|a: Seq<Seq<char>>, b: Seq<Seq<char>>| texts_le(a, b)),
{
    assert forall|a: Seq<char>, b: Seq<char>|
        text_le(a, a) && (text_le(a, b) || text_le(b, a)) && (text_le(a, b) && text_le(b, a)
            ==> a == b) by {
        lemma_text_le_total(a, b);
    }
    assert forall|a: Seq<char>, b: Seq<char>, c: Seq<char>|
        #![trigger text_le(a, b), text_le(b, c)]
        text_le(a, b) && text_le(b, c) implies text_le(a, c) by {
        lemma_text_le_transitive(a, b, c);
    }
    assert forall|a: Seq<Seq<char>>, b: Seq<Seq<char>>|
        texts_le(a, a) && (texts_le(a, b) || texts_le(b, a)) && (texts_le(a, b) && texts_le(b, a)
            ==> a == b) by {
        lemma_texts_le_total(a, b);
    }
    assert forall|a: Seq<Seq<char>>, b: Seq<Seq<char>>, c: Seq<Seq<char>>|
        #![trigger texts_le(a, b), texts_le(b, c)]
        texts_le(a, b) && texts_le(b, c) implies texts_le(a, c) by {
        lemma_texts_le_transitive(a, b, c);
    }
}

/// Decides [`text_le`].
pub fn text_at_most(a: &str, b: &str) -> (r: bool)
    ensures
        r == text_le(a@, b@),
{
    let x = chars_of(a);
    let y = chars_of(b);
    let mut i: usize = 0;
    assert(x@.skip(0) == x@ && y@.skip(0) == y@);
    while i < x.len() && i < y.len() && x[i] == y[i]
        invariant
            i <= x@.len(),
            i <= y@.len(),
            text_le(x@, y@) == text_le(x@.skip(i as int), y@.skip(i as int)),
        decreases x@.len() - i,
    {
        assert(x@.skip(i as int).drop_first() == x@.skip(i + 1));
        assert(y@.skip(i as int).drop_first() == y@.skip(i + 1));
        i += 1;
    }
    if i == x.len() {
        true
    } else if i == y.len() {
        false
    } else {
        x[i] < y[i]
    }
}

/// Decides [`texts_le`].
pub fn texts_at_most(a: &Vec<String>, b: &Vec<String>) -> (r: bool)
    ensures
        r == texts_le(texts(a@), texts(b@)),
{
    let ghost x = texts(a@);
    let ghost y = texts(b@);
    let mut i: usize = 0;
    assert(x.skip(0) == x && y.skip(0) == y);
    while i < a.len() && i < b.len() && a[i] == b[i]
        invariant
            i <= a@.len(),
            i <= b@.len(),
            x == texts(a@),
            y == texts(b@),
            texts_le(x, y) == texts_le(x.skip(i as int), y.skip(i as int)),
        decreases a@.len() - i,
    {
        assert(x.skip(i as int).drop_first() == x.skip(i + 1));
        assert(y.skip(i as int).drop_first() == y.skip(i + 1));
        i += 1;
    }
    if i == a.len() {
        true
    } else if i == b.len() {
        false
    } else {
        text_at_most(a[i].as_str(), b[i].as_str())
    }
}

// ---------------------------------------------------------------------------
// Merge sort
// ---------------------------------------------------------------------------

/// A total order that can be decided on the values it is used with.
pub trait Order<T> {
    /// The order.
    spec fn leq(&self) -> spec_fn(T, T) -> bool;

    /// The values it can be decided on.
    spec fn covers(&self, a: T) -> bool;

    /// It is total.
    proof fn total(&self)
        ensures
            total_ordering(self.leq()),
    ;

    /// Decides it.
    fn at_most(&self, a: T, b: T) -> (r: bool)
        requires
            self.covers(a),
            self.covers(b),
        ensures
            r == (self.leq())(a, b),
    ;
}

proof fn lemma_skip_multiset<T>(s: Seq<T>, i: int)
    requires
        0 <= i < s.len(),
    ensures
        s.skip(i).to_multiset() == s.skip(i + 1).to_multiset().insert(s[i]),
{
    broadcast use group_to_multiset_ensures;

    let t = s.skip(i);
    assert(t[0] == s[i]);
    assert(t.remove(0) == s.skip(i + 1));
    assert(t.contains(t[0]));
    assert(t.to_multiset().remove(t[0]).insert(t[0]) =~= t.to_multiset());
}

/// Merges two sorted sequences.
fn merge<T: Copy, C: Order<T>>(a: &Vec<T>, b: &Vec<T>, c: &C) -> (r: Vec<T>)
    requires
        sorted_by(a@, c.leq()),
        sorted_by(b@, c.leq()),
        forall|i: int| 0 <= i < a@.len() ==> c.covers(#[trigger] a@[i]),
        forall|i: int| 0 <= i < b@.len() ==> c.covers(#[trigger] b@[i]),
    ensures
        sorted_by(r@, c.leq()),
        r@.to_multiset() == a@.to_multiset().add(b@.to_multiset()),
        forall|i: int| 0 <= i < r@.len() ==> c.covers(#[trigger] r@[i]),
{
    broadcast use group_to_multiset_ensures;

    let ghost leq = c.leq();
    proof {
        c.total();
    }
    let mut out: Vec<T> = Vec::new();
    let mut i: usize = 0;
    let mut j: usize = 0;
    assert(a@.skip(0) == a@ && b@.skip(0) == b@);
    assert(out@.to_multiset().add(a@.to_multiset()).add(b@.to_multiset())
        =~= a@.to_multiset().add(b@.to_multiset()));
    while i < a.len() || j < b.len()
        invariant
            i <= a@.len(),
            j <= b@.len(),
            leq == c.leq(),
            total_ordering(leq),
            sorted_by(a@, leq),
            sorted_by(b@, leq),
            sorted_by(out@, leq),
            forall|x: int| 0 <= x < a@.len() ==> c.covers(#[trigger] a@[x]),
            forall|x: int| 0 <= x < b@.len() ==> c.covers(#[trigger] b@[x]),
            forall|x: int| 0 <= x < out@.len() ==> c.covers(#[trigger] out@[x]),
            forall|x: int, y: int|
                0 <= x < out@.len() && i <= y < a@.len() ==> leq(#[trigger] out@[x], #[trigger] a@[y]),
            forall|x: int, y: int|
                0 <= x < out@.len() && j <= y < b@.len() ==> leq(#[trigger] out@[x], #[trigger] b@[y]),
            out@.to_multiset().add(a@.skip(i as int).to_multiset()).add(
                b@.skip(j as int).to_multiset(),
            ) =~= a@.to_multiset().add(b@.to_multiset()),
        decreases a@.len() - i + b@.len() - j,
    {
        let ghost before = out@;
        if j == b.len() || (i < a.len() && c.at_most(a[i], b[j])) {
            proof {
                lemma_skip_multiset(a@, i as int);
                assert forall|y: int| j <= y < b@.len() implies leq(a@[i as int], #[trigger] b@[y]) by {
                    if y > j {
                        assert(leq(b@[j as int], b@[y]));
                    }
                }
            }
            out.push(a[i]);
            i += 1;
        } else {
            proof {
                lemma_skip_multiset(b@, j as int);
                assert forall|y: int| i <= y < a@.len() implies leq(b@[j as int], #[trigger] a@[y]) by {
                    assert(leq(b@[j as int], a@[i as int]));
                    if y > i {
                        assert(leq(a@[i as int], a@[y]));
                    }
                }
            }
            out.push(b[j]);
            j += 1;
        }
        proof {
            before.to_multiset_ensures();
            assert(out@ == before.push(out@.last()));
        }
    }
    assert(a@.skip(i as int) == Seq::<T>::empty());
    assert(b@.skip(j as int) == Seq::<T>::empty());
    assert(out@.to_multiset() =~= a@.to_multiset().add(b@.to_multiset()));
    out
}

/// Sorts the items from `lo` up to `hi`.
fn sort_range<T: Copy, C: Order<T>>(items: &Vec<T>, lo: usize, hi: usize, c: &C) -> (r: Vec<T>)
    requires
        lo <= hi <= items@.len(),
        forall|i: int| 0 <= i < items@.len() ==> c.covers(#[trigger] items@[i]),
    ensures
        sorted_by(r@, c.leq()),
        r@.to_multiset() == items@.subrange(lo as int, hi as int).to_multiset(),
        forall|i: int| 0 <= i < r@.len() ==> c.covers(#[trigger] r@[i]),
    decreases hi - lo,
{
    if hi - lo <= 1 {
        let mut out: Vec<T> = Vec::new();
        if lo < hi {
            out.push(items[lo]);
        }
        assert(out@ == items@.subrange(lo as int, hi as int));
        out
    } else {
        let mid: usize = lo + (hi - lo) / 2;
        let left = sort_range(items, lo, mid, c);
        let right = sort_range(items, mid, hi, c);
        proof {
            let a = items@.subrange(lo as int, mid as int);
            let b = items@.subrange(mid as int, hi as int);
            assert(a + b == items@.subrange(lo as int, hi as int));
            lemma_multiset_commutative(a, b);
        }
        merge(&left, &right, c)
    }
}

/// Sorts a sequence.
pub fn sort<T: Copy, C: Order<T>>(items: &Vec<T>, c: &C) -> (r: Vec<T>)
    requires
        forall|i: int| 0 <= i < items@.len() ==> c.covers(#[trigger] items@[i]),
    ensures
        r@ == items@.sort_by(c.leq()),
{
    let out = sort_range(items, 0, items.len(), c);
    proof {
        assert(items@.subrange(0, items@.len() as int) == items@);
        c.total();
        items@.lemma_sort_by_ensures(c.leq());
        lemma_sorted_unique(out@, items@.sort_by(c.leq()), c.leq());
    }
    out
}

// ---------------------------------------------------------------------------
// The orders that are used
// ---------------------------------------------------------------------------

/// Greater keys first; among equal keys, the lower position first.
pub open spec fn by_key_desc(keys: Seq<u128>) -> spec_fn(usize, usize) -> bool {
    |i: usize, j: usize|
        keys[i as int] > keys[j as int] || (keys[i as int] == keys[j as int] && i <= j)
}

/// Lesser texts first; among equal texts, the lower position first.
pub open spec fn by_text(keys: Seq<Seq<char>>) -> spec_fn(usize, usize) -> bool {
    |i: usize, j: usize|
        if keys[i as int] == keys[j as int] {
            i <= j
        } else {
            text_le(keys[i as int], keys[j as int])
        }
}

/// The positions of a sequence of length `n`, in order.
pub open spec fn positions(n: nat) -> Seq<usize> {
    Seq::new(n, |i: int| i as usize)
}

/// The positions of `keys`, by descending key; stable.
pub open spec fn ranked(keys: Seq<u128>) -> Seq<usize> {
    positions(keys.len()).sort_by(by_key_desc(keys))
}

/// The positions of `keys`, by ascending text; stable.
pub open spec fn alphabetical(keys: Seq<Seq<char>>) -> Seq<usize> {
    positions(keys.len()).sort_by(by_text(keys))
}

/// The elements of `s` at the given positions.
pub open spec fn reordered<T>(s: Seq<T>, order: Seq<usize>) -> Seq<T> {
    Seq::new(order.len(), |k: int| s[order[k] as int])
}

/// Compares positions by descending key.
pub struct KeyOrder<'a> {
    pub keys: &'a Vec<u128>,
}

impl<'a> Order<usize> for KeyOrder<'a> {
    open spec fn leq(&self) -> spec_fn(usize, usize) -> bool {
        by_key_desc(self.keys@)
    }

    open spec fn covers(&self, a: usize) -> bool {
        a < self.keys@.len()
    }

    proof fn total(&self) {
    }

    fn at_most(&self, a: usize, b: usize) -> (r: bool) {
        self.keys[a] > self.keys[b] || (self.keys[a] == self.keys[b] && a <= b)
    }
}

/// Positions are totally ordered by their text and, where that is equal, by
/// themselves.
proof fn lemma_by_text_total(keys: Seq<Seq<char>>)
    ensures
        total_ordering(by_text(keys)),
{
    lexicographic_orders_are_total();
    let le = |a: Seq<char>, b: Seq<char>| text_le(a, b);
            let leq = by_text(keys);
    assert forall|i: usize, j: usize| #[trigger] leq(i, j) || leq(j, i) by {
        assert(le(keys[i as int], keys[j as int]) || le(keys[j as int], keys[i as int]));
    }
    assert forall|i: usize, j: usize| #[trigger] leq(i, j) && #[trigger] leq(j, i) implies i == j by {
        if keys[i as int] != keys[j as int] {
            assert(le(keys[i as int], keys[j as int]) && le(keys[j as int], keys[i as int]));
        }
    }
    assert forall|i: usize, j: usize, k: usize|
        #![trigger leq(i, j), leq(j, k)]
        leq(i, j) && leq(j, k) implies leq(i, k) by {
        let (a, b, c) = (keys[i as int], keys[j as int], keys[k as int]);
        if a != b && b != c {
            assert(le(a, b) && le(b, c));
            assert(le(a, c));
            if a == c {
                assert(le(b, a));
            }
        }
    }
}

/// Compares positions by text.
pub struct TextOrder<'a> {
    pub keys: &'a Vec<String>,
}

impl<'a> Order<usize> for TextOrder<'a> {
    open spec fn leq(&self) -> spec_fn(usize, usize) -> bool {
        by_text(texts(self.keys@))
    }

    open spec fn covers(&self, a: usize) -> bool {
        a < self.keys@.len()
    }

    proof fn total(&self) {
        lemma_by_text_total(texts(self.keys@));
    }

    fn at_most(&self, a: usize, b: usize) -> (r: bool) {
        assert(texts(self.keys@)[a as int] == self.keys@[a as int]@);
        assert(texts(self.keys@)[b as int] == self.keys@[b as int]@);
        if self.keys[a] == self.keys[b] {
            a <= b
        } else {
            text_at_most(self.keys[a].as_str(), self.keys[b].as_str())
        }
    }
}

/// Compares numbers.
pub struct Ascending {}

impl Order<u64> for Ascending {
    open spec fn leq(&self) -> spec_fn(u64, u64) -> bool {
        |a: u64, b: u64| a <= b
    }

    open spec fn covers(&self, a: u64) -> bool {
        true
    }

    proof fn total(&self) {
    }

    fn at_most(&self, a: u64, b: u64) -> (r: bool) {
        a <= b
    }
}

/// The positions from 0 up to `n`.
fn count_up(n: usize) -> (r: Vec<usize>)
    ensures
        r@ == positions(n as nat),
{
    let mut out: Vec<usize> = Vec::new();
    let mut i: usize = 0;
    while i < n
        invariant
            i <= n,
            out@ == positions(i as nat),
        decreases n - i,
    {
        out.push(i);
        i += 1;
        assert(out@ =~= positions(i as nat));
    }
    out
}

/// The positions of `keys`, greatest key first.
pub fn rank(keys: &Vec<u128>) -> (r: Vec<usize>)
    ensures
        r@ == ranked(keys@),
{
    let all = count_up(keys.len());
    let c = KeyOrder { keys };
    sort(&all, &c)
}

/// The positions of `keys` in alphabetical order.
pub fn alphabetize(keys: &Vec<String>) -> (r: Vec<usize>)
    ensures
        r@ == alphabetical(texts(keys@)),
{
    let all = count_up(keys.len());
    let c = TextOrder { keys };
    sort(&all, &c)
}

/// The middle element of the sorted sequence, the upper one of two.
pub open spec fn median(s: Seq<u64>) -> u64 {
    s.sort_by(|a: u64, b: u64| a <= b)[(s.len() / 2) as int]
}

/// Computes the [`median`] of a non-empty sequence.
pub fn median_of(s: &Vec<u64>) -> (r: u64)
    requires
        s@.len() > 0,
    ensures
        r == median(s@),
{
    let c = Ascending {  };
    let sorted = sort(s, &c);
    proof {
        c.total();
        s@.lemma_sort_by_ensures(c.leq());
        s@.to_multiset_ensures();
        sorted@.to_multiset_ensures();
    }
    sorted[s.len() / 2]
}

/// A sorting of positions holds each position once.
pub proof fn lemma_positions_sorted(n: nat, leq: spec_fn(usize, usize) -> bool)
    requires
        total_ordering(leq),
        n <= usize::MAX,
    ensures
        positions(n).sort_by(leq).len() == n,
        sorted_by(positions(n).sort_by(leq), leq),
        positions(n).sort_by(leq).no_duplicates(),
        forall|k: int| 0 <= k < n ==> (#[trigger] positions(n).sort_by(leq)[k]) < n,
        forall|i: usize| (i as int) < n ==> #[trigger] positions(n).sort_by(leq).contains(i),
{
    broadcast use group_to_multiset_ensures;

    let p = positions(n);
    let s = p.sort_by(leq);
    p.lemma_sort_by_ensures(leq);
    p.to_multiset_ensures();
    s.to_multiset_ensures();
    assert(p.no_duplicates());
    p.lemma_multiset_has_no_duplicates();
    s.lemma_multiset_has_no_duplicates_conv();
    assert forall|k: int| 0 <= k < n implies (#[trigger] s[k]) < n by {
        assert(s.contains(s[k]));
        assert(p.contains(s[k]));
    }
    assert forall|i: usize| (i as int) < n implies #[trigger] s.contains(i) by {
        assert(p[i as int] == i);
        assert(p.contains(i));
        assert(s.to_multiset().count(i) > 0);
    }
}

/// [`ranked`] puts greater keys first and keeps the order of equal ones, and
/// holds each position once.
pub proof fn ranked_is_a_stable_sort(keys: Seq<u128>)
    requires
        keys.len() <= usize::MAX,
    ensures
        ranked(keys).len() == keys.len(),
        ranked(keys).no_duplicates(),
        forall|k: int| 0 <= k < keys.len() ==> (#[trigger] ranked(keys)[k]) < keys.len(),
        forall|i: usize| (i as int) < keys.len() ==> #[trigger] ranked(keys).contains(i),
        forall|a: int, b: int|
            0 <= a < b < keys.len() ==> {
                let (i, j) = (#[trigger] ranked(keys)[a], #[trigger] ranked(keys)[b]);
                keys[i as int] > keys[j as int] || (keys[i as int] == keys[j as int] && i < j)
            },
{
    let leq = by_key_desc(keys);
    assert(total_ordering(leq));
    lemma_positions_sorted(keys.len(), leq);
    let s = ranked(keys);
    assert forall|a: int, b: int| 0 <= a < b < keys.len() implies {
        let (i, j) = (#[trigger] s[a], #[trigger] s[b]);
        keys[i as int] > keys[j as int] || (keys[i as int] == keys[j as int] && i < j)
    } by {
        assert(leq(s[a], s[b]));
        assert(s[a] != s[b]);
    }
}

/// [`ranked`] holds positions only, with greater keys first, however many keys
/// there are.
pub proof fn ranked_puts_greater_keys_first(keys: Seq<u128>)
    ensures
        ranked(keys).len() == keys.len(),
        forall|k: int| 0 <= k < keys.len() ==> (#[trigger] ranked(keys)[k]) < keys.len(),
        forall|a: int, b: int|
            0 <= a < b < keys.len() ==> keys[#[trigger] ranked(keys)[a] as int]
                >= keys[#[trigger] ranked(keys)[b] as int],
{
    broadcast use group_to_multiset_ensures;

    let leq = by_key_desc(keys);
    let p = positions(keys.len());
    let s = ranked(keys);
    assert(total_ordering(leq));
    p.lemma_sort_by_ensures(leq);
    p.to_multiset_ensures();
    s.to_multiset_ensures();
    assert forall|k: int| 0 <= k < keys.len() implies (#[trigger] s[k]) < keys.len() by {
        assert(s.contains(s[k]));
        assert(p.contains(s[k]));
        if keys.len() <= usize::MAX {
            let i = choose|i: int| 0 <= i < p.len() && p[i] == s[k];
            assert(p[i] == i);
        }
    }
    assert forall|a: int, b: int| 0 <= a < b < keys.len() implies keys[#[trigger] s[a] as int]
        >= keys[#[trigger] s[b] as int] by {
        assert(leq(s[a], s[b]));
    }
}

/// [`alphabetical`] holds each position once, by ascending text.
pub proof fn alphabetical_is_a_sort(keys: Seq<Seq<char>>)
    requires
        keys.len() <= usize::MAX,
    ensures
        alphabetical(keys).len() == keys.len(),
        alphabetical(keys).no_duplicates(),
        forall|k: int| 0 <= k < keys.len() ==> (#[trigger] alphabetical(keys)[k]) < keys.len(),
        forall|i: usize| (i as int) < keys.len() ==> #[trigger] alphabetical(keys).contains(i),
        forall|a: int, b: int|
            0 <= a < b < keys.len() ==> text_le(
                keys[#[trigger] alphabetical(keys)[a] as int],
                keys[#[trigger] alphabetical(keys)[b] as int],
            ),
{
    let leq = by_text(keys);
    lemma_by_text_total(keys);
    lemma_positions_sorted(keys.len(), leq);
    let s = alphabetical(keys);
    assert forall|a: int, b: int| 0 <= a < b < keys.len() implies text_le(
        keys[#[trigger] s[a] as int],
        keys[#[trigger] s[b] as int],
    ) by {
        assert(leq(s[a], s[b]));
        lemma_text_le_total(keys[s[a] as int], keys[s[b] as int]);
    }
}

/// The elements of `v` at the given positions.
pub fn reorder_texts(v: &Vec<String>, order: &Vec<usize>) -> (r: Vec<String>)
    requires
        forall|k: int| 0 <= k < order@.len() ==> (#[trigger] order@[k]) < v@.len(),
    ensures
        texts(r@) == reordered(texts(v@), order@),
{
    let mut out: Vec<String> = Vec::new();
    let mut j: usize = 0;
    while j < order.len()
        invariant
            j <= order@.len(),
            forall|k: int| 0 <= k < order@.len() ==> (#[trigger] order@[k]) < v@.len(),
            out@.len() == j,
            forall|k: int| 0 <= k < j ==> (#[trigger] out@[k])@ == v@[order@[k] as int]@,
        decreases order@.len() - j,
    {
        assert(order@[j as int] < v@.len());
        out.push(v[order[j]].clone());
        j += 1;
    }
    assert(texts(out@) =~= reordered(texts(v@), order@));
    out
}

/// The median of numbers is one of them; at most half of them lie below it, and
/// more than half do not lie above it.
pub proof fn the_median_splits_in_half(s: Seq<u64>)
    requires
        s.len() > 0,
    ensures
        s.contains(median(s)),
        2 * how_many(s.len(), |i: int| s[i] < median(s)) <= s.len(),
        2 * how_many(s.len(), |i: int| s[i] <= median(s)) > s.len(),
{
    let leq = |a: u64, b: u64| a <= b;
    let sorted = s.sort_by(leq);
    let m = median(s);
    let h = (s.len() / 2) as int;
    s.lemma_sort_by_ensures(leq);
    s.to_multiset_ensures();
    sorted.to_multiset_ensures();
    assert(sorted.len() == s.len());
    assert(sorted[h] == m);
    assert(sorted.contains(m));
    let f = |x: u64| x < m;
    let g = |x: u64| x <= m;
    lemma_count_in_multiset(s, f);
    lemma_count_in_multiset(sorted, f);
    lemma_count_in_multiset(s, g);
    lemma_count_in_multiset(sorted, g);
    let n = s.len();
    lemma_same_positions(n, |i: int| s[i] < m, |i: int| f(s[i]));
    lemma_same_positions(n, |i: int| s[i] <= m, |i: int| g(s[i]));
    assert forall|i: int, j: int| 0 <= i <= j < n implies sorted[i] <= sorted[j] by {
        if i < j {
            assert(leq(sorted[i], sorted[j]));
        }
    }
    lemma_first_positions(n, h as nat);
    lemma_first_positions(n, (h + 1) as nat);
    lemma_more_positions(n, |i: int| f(sorted[i]), |i: int| i < h);
    lemma_more_positions(n, |i: int| i < h + 1, |i: int| g(sorted[i]));
}

/// There are `k` positions below `k`.
proof fn lemma_first_positions(n: nat, k: nat)
    requires
        k <= n,
    ensures
        how_many(n, |i: int| i < k) == k,
    decreases n,
{
    if k < n {
        lemma_first_positions((n - 1) as nat, k);
    } else if n > 0 {
        let m = (n - 1) as nat;
        lemma_first_positions(m, m);
        lemma_same_positions(m, |i: int| i < m, |i: int| i < k);
    }
}

/// Texts are ordered by the first character in which they differ, and one that another
/// begins with comes before it.
pub proof fn texts_are_ordered_by_their_first_difference(
    p: Seq<char>,
    x: char,
    y: char,
    s: Seq<char>,
    t: Seq<char>,
)
    ensures
        x != y ==> (text_le(p.push(x) + s, p.push(y) + t) <==> x < y),
        text_le(p, p + s),
        !text_le(p.push(x) + s, p),
    decreases p.len(),
{
    let (a, b) = (p.push(x) + s, p.push(y) + t);
    let e = p + s;
    if p.len() == 0 {
        assert(a[0] == x && b[0] == y);
    } else {
        let q = p.drop_first();
        texts_are_ordered_by_their_first_difference(q, x, y, s, t);
        assert(a[0] == p[0] && b[0] == p[0] && e[0] == p[0]);
        assert(a.drop_first() =~= q.push(x) + s);
        assert(b.drop_first() =~= q.push(y) + t);
        assert(e.drop_first() =~= q + s);
    }
}

/// Lists of texts are ordered by the first text in which they differ, and one that
/// another begins with comes before it.
pub proof fn lists_are_ordered_by_their_first_difference(
    p: Seq<Seq<char>>,
    x: Seq<char>,
    y: Seq<char>,
    s: Seq<Seq<char>>,
    t: Seq<Seq<char>>,
)
    ensures
        x != y ==> (texts_le(p.push(x) + s, p.push(y) + t) <==> text_le(x, y)),
        texts_le(p, p + s),
        !texts_le(p.push(x) + s, p),
    decreases p.len(),
{
    let (a, b) = (p.push(x) + s, p.push(y) + t);
    let e = p + s;
    if p.len() == 0 {
        assert(a[0] == x && b[0] == y);
    } else {
        let q = p.drop_first();
        lists_are_ordered_by_their_first_difference(q, x, y, s, t);
        assert(a[0] == p[0] && b[0] == p[0] && e[0] == p[0]);
        assert(a.drop_first() =~= q.push(x) + s);
        assert(b.drop_first() =~= q.push(y) + t);
        assert(e.drop_first() =~= q + s);
    }
}

} // verus!
