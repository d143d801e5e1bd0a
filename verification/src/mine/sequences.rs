//! Single templates and single sequences of templates: noise, repetition of a
//! shorter unit, and rotation.
use crate::count::{how_many, lemma_same_positions};
use crate::order::{lemma_texts_le_total, lemma_texts_le_transitive, texts_at_most, texts_le};
use crate::text::{
    clone_all, contains, first_word, has_part, head_word, parts_stand_character_by_character, same,
    stands_at, texts,
};
use vstd::prelude::*;

verus! {

// ---------------------------------------------------------------------------
// Single templates and single grams
// ---------------------------------------------------------------------------

/// The commands that look around without doing anything.
pub open spec fn is_idle_head(h: Seq<char>) -> bool {
    ||| h == "ls"@
    ||| h == "ll"@
    ||| h == "la"@
    ||| h == "pwd"@
    ||| h == "clear"@
    ||| h == "exit"@
    ||| h == "history"@
    ||| h == "cd"@
    ||| h == "source"@
    ||| h == "which"@
    ||| h == "echo"@
    ||| h == "cat"@
}

/// Templates that carry no automation signal on their own.
pub open spec fn noise(t: Seq<char>) -> bool {
    ||| is_idle_head(first_word(t)) && !has_part(t, "&&"@)
    ||| t == "git status"@
    ||| t == "git diff"@
    ||| t == "git log"@
}

/// Whether a template carries no automation signal on its own; a pattern made
/// entirely of these is navigation, not a workflow.
pub fn is_noise(tpl: &str) -> (r: bool)
    ensures
        r == noise(tpl@),
{
    let head = head_word(tpl);
    let h = head.as_str();
    let idle = same(h, "ls") || same(h, "ll") || same(h, "la") || same(h, "pwd") || same(h, "clear")
        || same(h, "exit") || same(h, "history") || same(h, "cd") || same(h, "source") || same(
        h,
        "which",
    ) || same(h, "echo") || same(h, "cat");
    (idle && !contains(tpl, "&&")) || same(tpl, "git status") || same(tpl, "git diff") || same(
        tpl,
        "git log",
    )
}

/// Whether every element repeats the one `p` places before it, all the way
/// back to the first `p` elements.
pub open spec fn has_period<T>(g: Seq<T>, p: int) -> bool {
    forall|i: int| p <= i < g.len() ==> #[trigger] g[i] == g[i % p]
}

/// Whether a gram is made of repetitions of a shorter unit, the last of which
/// may be cut short.
pub open spec fn quasi_periodic<T>(g: Seq<T>) -> bool {
    exists|p: int| 1 <= p < g.len() && #[trigger] has_period(g, p)
}

/// True if the gram is (a prefix of) repetitions of a shorter unit: A B A B,
/// A B A and B A B all reduce to the cycle of A and B.
pub fn is_quasi_periodic(gram: &Vec<String>) -> (r: bool)
    ensures
        r == quasi_periodic(texts(gram@)),
{
    let ghost g = texts(gram@);
    let mut p: usize = 1;
    while p < gram.len()
        invariant
            1 <= p,
            g == texts(gram@),
            forall|q: int| 1 <= q < p && q < g.len() ==> !#[trigger] has_period(g, q),
        decreases gram@.len() - p,
    {
        let mut i: usize = p;
        let mut holds = true;
        while i < gram.len() && holds
            invariant
                1 <= p <= i <= gram@.len(),
                g == texts(gram@),
                holds ==> forall|k: int| p <= k < i ==> #[trigger] g[k] == g[k % (p as int)],
                !holds ==> !has_period(g, p as int),
            decreases gram@.len() - i,
        {
            assert(g[i as int] == gram@[i as int]@);
            assert(g[(i % p) as int] == gram@[(i % p) as int]@);
            if gram[i] != gram[i % p] {
                holds = false;
            }
            i += 1;
        }
        if holds {
            assert(has_period(g, p as int));
            return true;
        }
        p += 1;
    }
    false
}

/// How often `x` stands in `g`.
pub open spec fn tally<T>(g: Seq<T>, x: T) -> nat
    decreases g.len(),
{
    if g.len() == 0 {
        0
    } else {
        tally(g.drop_last(), x) + (if g.last() == x {
            1nat
        } else {
            0nat
        })
    }
}

/// Whether some element stands three times or more in the gram: a retry loop
/// wearing a workflow costume.
pub open spec fn is_retry_loop<T>(g: Seq<T>) -> bool {
    exists|i: int| 0 <= i < g.len() && tally(g, #[trigger] g[i]) >= 3
}

/// Decides [`is_retry_loop`].
pub fn retry_loop(gram: &Vec<String>) -> (r: bool)
    ensures
        r == is_retry_loop(texts(gram@)),
{
    let ghost g = texts(gram@);
    let mut i: usize = 0;
    while i < gram.len()
        invariant
            i <= gram@.len(),
            g == texts(gram@),
            forall|k: int| 0 <= k < i ==> tally(g, #[trigger] g[k]) < 3,
        decreases gram@.len() - i,
    {
        let mut n: usize = 0;
        let mut j: usize = 0;
        assert(g.take(0) == Seq::<Seq<char>>::empty());
        while j < gram.len()
            invariant
                j <= gram@.len(),
                i < gram@.len(),
                g == texts(gram@),
                n == tally(g.take(j as int), g[i as int]),
                n <= j,
            decreases gram@.len() - j,
        {
            assert(g.take(j + 1).drop_last() == g.take(j as int));
            assert(g[j as int] == gram@[j as int]@ && g[i as int] == gram@[i as int]@);
            if gram[j] == gram[i] {
                n += 1;
            }
            j += 1;
        }
        assert(g.take(j as int) == g);
        if n >= 3 {
            return true;
        }
        i += 1;
    }
    false
}

// ---------------------------------------------------------------------------
// Rotations
// ---------------------------------------------------------------------------

/// The gram that begins with element `r` and wraps around.
#[verifier::opaque]
pub open spec fn rotated<T>(g: Seq<T>, r: int) -> Seq<T> {
    g.skip(r) + g.take(r)
}

/// Whether `b` is a rotation of `a`.
pub open spec fn is_rotation<T>(a: Seq<T>, b: Seq<T>) -> bool {
    a == b || exists|r: int| 0 <= r < a.len() && b == #[trigger] rotated(a, r)
}

/// The least of the first `n` rotations.
pub open spec fn least_rotation(g: Seq<Seq<char>>, n: nat) -> Seq<Seq<char>>
    decreases n,
{
    if n <= 1 {
        g
    } else {
        let best = least_rotation(g, (n - 1) as nat);
        let next = rotated(g, n - 1);
        if texts_le(best, next) {
            best
        } else {
            next
        }
    }
}

/// The least rotation in lexicographic order.
pub open spec fn canonical(g: Seq<Seq<char>>) -> Seq<Seq<char>> {
    least_rotation(g, g.len())
}

/// Lexicographically smallest rotation, used to group cyclic duplicates.
pub fn canonical_rotation(gram: &Vec<String>) -> (r: Vec<String>)
    ensures
        texts(r@) == canonical(texts(gram@)),
{
    let ghost g = texts(gram@);
    let mut best = clone_all(gram);
    let mut n: usize = 1;
    while n < gram.len()
        invariant
            1 <= n,
            if gram@.len() == 0 {
                n == 1
            } else {
                n <= gram@.len()
            },
            g == texts(gram@),
            texts(best@) == least_rotation(g, n as nat),
        decreases gram@.len() - n,
    {
        let mut next: Vec<String> = Vec::new();
        let mut i: usize = 0;
        while i < gram.len()
            invariant
                i <= gram@.len(),
                1 <= n < gram@.len(),
                g == texts(gram@),
                next@.len() == i,
                forall|k: int| 0 <= k < i ==> (#[trigger] next@[k])@ == rotated(g, n as int)[k],
            decreases gram@.len() - i,
        {
            let len: usize = gram.len();
            proof {
                reveal(rotated);
            }
            if i < len - n {
                next.push(gram[n + i].clone());
            } else {
                next.push(gram[i - (len - n)].clone());
            }
            i += 1;
        }
        proof {
            reveal(rotated);
            assert(texts(next@) =~= rotated(g, n as int));
        }
        if !texts_at_most(&best, &next) {
            best = next;
        }
        n += 1;
    }
    proof {
        assert(g.len() == gram@.len());
        if g.len() == 0 {
            assert(least_rotation(g, 0) == g);
            assert(least_rotation(g, n as nat) == g);
        }
    }
    best
}

proof fn lemma_rotate_twice<T>(g: Seq<T>, r: int, s: int)
    requires
        0 <= r < g.len(),
        0 <= s < g.len(),
    ensures
        rotated(rotated(g, r), s) == rotated(g, if r + s < g.len() {
            r + s
        } else {
            r + s - g.len()
        }),
{
    let t = if r + s < g.len() {
        r + s
    } else {
        r + s - g.len()
    };
    reveal(rotated);
    assert(rotated(rotated(g, r), s) =~= rotated(g, t));
}

/// Rotating by nothing changes nothing, and no rotation changes the length.
proof fn lemma_rotate_zero<T>(g: Seq<T>)
    ensures
        rotated(g, 0) == g,
        forall|r: int| 0 <= r < g.len() ==> (#[trigger] rotated(g, r)).len() == g.len(),
{
    reveal(rotated);
    assert(rotated(g, 0) =~= g);
}

/// The canonical rotation of a gram is a rotation of it, and no rotation comes
/// before it.
pub proof fn the_canonical_rotation_is_the_least(g: Seq<Seq<char>>)
    ensures
        is_rotation(g, canonical(g)),
        forall|x: Seq<Seq<char>>| #[trigger] is_rotation(g, x) ==> texts_le(canonical(g), x),
{
    lemma_least_rotation(g, g.len());
    lemma_rotate_zero(g);
    lemma_texts_le_total(g, g);
    assert forall|x: Seq<Seq<char>>| #[trigger] is_rotation(g, x) implies texts_le(
        canonical(g),
        x,
    ) by {
        if g.len() > 0 {
            if x == g {
                assert(texts_le(canonical(g), rotated(g, 0)));
            } else {
                let r = choose|r: int| 0 <= r < g.len() && x == #[trigger] rotated(g, r);
                assert(texts_le(canonical(g), rotated(g, r)));
            }
        }
    }
}

proof fn lemma_least_rotation(g: Seq<Seq<char>>, n: nat)
    requires
        n <= g.len(),
    ensures
        is_rotation(g, least_rotation(g, n)),
        forall|r: int| 0 <= r < n ==> texts_le(least_rotation(g, n), #[trigger] rotated(g, r)),
    decreases n,
{
    lemma_rotate_zero(g);
    if n <= 1 {
        lemma_texts_le_total(g, g);
    } else {
        let best = least_rotation(g, (n - 1) as nat);
        let next = rotated(g, n - 1);
        lemma_least_rotation(g, (n - 1) as nat);
        lemma_texts_le_total(best, next);
        lemma_texts_le_total(next, next);
        assert forall|r: int| 0 <= r < n implies texts_le(
            least_rotation(g, n),
            #[trigger] rotated(g, r),
        ) by {
            if r < n - 1 {
                assert(texts_le(best, rotated(g, r)));
                if !texts_le(best, next) {
                    lemma_texts_le_transitive(next, best, rotated(g, r));
                }
            }
        }
    }
}

/// Rotations of the same cycle, and only they, share their canonical rotation.
pub proof fn canonical_rotation_identifies_cycles(a: Seq<Seq<char>>, b: Seq<Seq<char>>)
    ensures
        canonical(a) == canonical(b) <==> is_rotation(a, b),
{
    lemma_least_rotation(a, a.len());
    lemma_least_rotation(b, b.len());
    if canonical(a) == canonical(b) {
        let c = canonical(a);
        lemma_rotation_back(b, c);
        lemma_rotation_on(a, c, b);
    }
    if is_rotation(a, b) {
        if a.len() > 0 {
            lemma_rotation_on(a, b, canonical(b));
            lemma_rotation_back(a, b);
            lemma_rotation_on(b, a, canonical(a));
            lemma_rotate_zero(a);
            lemma_rotate_zero(b);
            let r = choose|r: int| 0 <= r < a.len() && canonical(b) == #[trigger] rotated(a, r);
            let s = choose|s: int| 0 <= s < b.len() && canonical(a) == #[trigger] rotated(b, s);
            assert(exists|r: int| 0 <= r < a.len() && canonical(b) == #[trigger] rotated(a, r)) by {
                if canonical(b) == a {
                    assert(canonical(b) == rotated(a, 0));
                }
            }
            assert(exists|s: int| 0 <= s < b.len() && canonical(a) == #[trigger] rotated(b, s)) by {
                if canonical(a) == b {
                    assert(canonical(a) == rotated(b, 0));
                }
            }
            lemma_texts_le_total(canonical(a), canonical(b));
        } else {
            assert(a =~= b);
        }
    }
}

proof fn lemma_rotation_back<T>(a: Seq<T>, b: Seq<T>)
    requires
        is_rotation(a, b),
    ensures
        is_rotation(b, a),
        a.len() == b.len(),
{
    if a != b {
        let r = choose|r: int| 0 <= r < a.len() && b == #[trigger] rotated(a, r);
        lemma_rotate_zero(a);
        if r == 0 {
        } else {
            lemma_rotate_twice(a, r, a.len() - r);
            assert(a == rotated(b, a.len() - r));
        }
    }
}

proof fn lemma_rotation_on<T>(a: Seq<T>, b: Seq<T>, c: Seq<T>)
    requires
        is_rotation(a, b),
        is_rotation(b, c) || is_rotation(c, b),
    ensures
        is_rotation(a, c),
        a.len() == c.len(),
{
    if !is_rotation(b, c) {
        lemma_rotation_back(c, b);
    }
    lemma_rotation_back(a, b);
    lemma_rotation_back(b, c);
    if a != b && b != c {
        let r = choose|r: int| 0 <= r < a.len() && b == #[trigger] rotated(a, r);
        let s = choose|s: int| 0 <= s < b.len() && c == #[trigger] rotated(b, s);
        lemma_rotate_twice(a, r, s);
        let t = if r + s < a.len() {
            r + s
        } else {
            r + s - a.len()
        };
        assert(c == rotated(a, t));
    }
}

// ---------------------------------------------------------------------------
// What noise, repetition and rotation are
// ---------------------------------------------------------------------------

/// A template is noise exactly when it looks around with one of these commands and
/// chains nothing to it, or is one of three looks at a repository.
pub proof fn noise_only_looks_around(t: Seq<char>)
    ensures
        noise(t) <==> {
            ||| seq![
                "ls"@, "ll"@, "la"@, "pwd"@, "clear"@, "exit"@, "history"@, "cd"@, "source"@,
                "which"@, "echo"@, "cat"@,
            ].contains(first_word(t)) && !exists|i: int|
                0 <= i < t.len() - 1 && #[trigger] t[i] == '&' && t[i + 1] == '&'
            ||| seq!["git status"@, "git diff"@, "git log"@].contains(t)
        },
{
    let h = first_word(t);
    let idle = seq![
        "ls"@, "ll"@, "la"@, "pwd"@, "clear"@, "exit"@, "history"@, "cd"@, "source"@,
        "which"@, "echo"@, "cat"@,
    ];
    let looks = seq!["git status"@, "git diff"@, "git log"@];
    assert(idle[0] == "ls"@ && idle[1] == "ll"@ && idle[2] == "la"@ && idle[3] == "pwd"@ && idle[4]
        == "clear"@ && idle[5] == "exit"@ && idle[6] == "history"@ && idle[7] == "cd"@ && idle[8]
        == "source"@ && idle[9] == "which"@ && idle[10] == "echo"@ && idle[11] == "cat"@);
    assert(looks[0] == "git status"@ && looks[1] == "git diff"@ && looks[2] == "git log"@);
    assert(is_idle_head(h) <==> idle.contains(h));
    reveal_strlit("&&");
    if has_part(t, "&&"@) {
        let i = choose|i: int| #[trigger] stands_at(t, "&&"@, i);
        parts_stand_character_by_character(t, "&&"@, i);
        assert(t[i + 0] == "&&"@[0] && t[i + 1] == "&&"@[1]);
        assert(t[i] == '&');
    }
    if exists|i: int| 0 <= i < t.len() - 1 && #[trigger] t[i] == '&' && t[i + 1] == '&' {
        let i = choose|i: int| 0 <= i < t.len() - 1 && #[trigger] t[i] == '&' && t[i + 1] == '&';
        assert forall|k: int| 0 <= k < 2 implies t[i + k] == #[trigger] "&&"@[k] by {}
        parts_stand_character_by_character(t, "&&"@, i);
        assert(stands_at(t, "&&"@, i));
    }
}

/// Whether every step of a gram is the one that stands `p` places before it, as far
/// as there is one.
pub open spec fn follows_itself(g: Seq<Seq<char>>, p: int) -> bool {
    forall|i: int| p <= i < g.len() ==> #[trigger] g[i] == g[i - p]
}

/// A gram repeats a shorter unit exactly when every step of it is the one that
/// stands some fixed number of places before, as far as there is one.
pub proof fn repetition_is_a_shift(g: Seq<Seq<char>>)
    ensures
        quasi_periodic(g) <==> exists|p: int|
            1 <= p < g.len() && #[trigger] follows_itself(g, p),
{
    if quasi_periodic(g) {
        let p = choose|p: int| 1 <= p < g.len() && #[trigger] has_period(g, p);
        assert forall|i: int| p <= i < g.len() implies #[trigger] g[i] == g[i - p] by {
            assert(g[i] == g[i % p]);
            vstd::arithmetic::div_mod::lemma_mod_add_multiples_vanish(i - p, p);
            assert((i - p) % p == i % p);
            if i - p >= p {
                assert(g[i - p] == g[(i - p) % p]);
            } else {
                vstd::arithmetic::div_mod::lemma_small_mod((i - p) as nat, p as nat);
            }
        }
        assert(follows_itself(g, p));
    }
    if exists|p: int| 1 <= p < g.len() && #[trigger] follows_itself(g, p) {
        let p = choose|p: int| 1 <= p < g.len() && #[trigger] follows_itself(g, p);
        assert forall|i: int| p <= i < g.len() implies #[trigger] g[i] == g[i % p] by {
            lemma_shift_back(g, p, i);
        }
        assert(has_period(g, p));
    }
}

/// Going back by the shift until it cannot be done again.
proof fn lemma_shift_back(g: Seq<Seq<char>>, p: int, i: int)
    requires
        1 <= p < g.len(),
        0 <= i < g.len(),
        follows_itself(g, p),
    ensures
        g[i] == g[i % p],
    decreases i,
{
    if i < p {
        vstd::arithmetic::div_mod::lemma_small_mod(i as nat, p as nat);
    } else {
        lemma_shift_back(g, p, i - p);
        vstd::arithmetic::div_mod::lemma_mod_add_multiples_vanish(i - p, p);
    }
}

/// An element is counted at each of its places.
proof fn lemma_tally(g: Seq<Seq<char>>, x: Seq<char>)
    ensures
        tally(g, x) == how_many(g.len(), |i: int| g[i] == x),
    decreases g.len(),
{
    if g.len() > 0 {
        let front = g.drop_last();
        lemma_tally(front, x);
        lemma_same_positions(front.len(), |i: int| front[i] == x, |i: int| g[i] == x);
    }
}

/// A gram is a retry loop exactly when one step stands at three places of it or
/// more.
pub proof fn a_retry_loop_has_one_step_three_times(g: Seq<Seq<char>>)
    ensures
        is_retry_loop(g) <==> exists|i: int, j: int, k: int|
            0 <= i < j < k < g.len() && #[trigger] g[i] == #[trigger] g[j] && g[j]
                == #[trigger] g[k],
{
    if is_retry_loop(g) {
        let a = choose|a: int| 0 <= a < g.len() && tally(g, #[trigger] g[a]) >= 3;
        let x = g[a];
        lemma_tally(g, x);
        let k = lemma_last_place(g, g.len(), x);
        let j = lemma_last_place(g, k as nat, x);
        let i = lemma_last_place(g, j as nat, x);
        assert(g[i] == g[j] && g[j] == g[k]);
    }
    if exists|i: int, j: int, k: int|
        0 <= i < j < k < g.len() && #[trigger] g[i] == #[trigger] g[j] && g[j] == #[trigger] g[k] {
        let (i, j, k) = choose|i: int, j: int, k: int|
            0 <= i < j < k < g.len() && #[trigger] g[i] == #[trigger] g[j] && g[j]
                == #[trigger] g[k];
        let x = g[i];
        lemma_tally(g, x);
        lemma_place_counts(g, g.len(), (k + 1) as nat, x);
        lemma_place_counts(g, k as nat, (j + 1) as nat, x);
        lemma_place_counts(g, j as nat, (i + 1) as nat, x);
        assert(tally(g, g[i]) >= 3);
    }
}

/// The last place of a counted element.
proof fn lemma_last_place(g: Seq<Seq<char>>, n: nat, x: Seq<char>) -> (k: int)
    requires
        n <= g.len(),
        how_many(n, |i: int| g[i] == x) > 0,
    ensures
        0 <= k < n,
        g[k] == x,
        how_many(k as nat, |i: int| g[i] == x) == how_many(n, |i: int| g[i] == x) - 1,
    decreases n,
{
    if g[n - 1] == x {
        n - 1
    } else {
        lemma_last_place(g, (n - 1) as nat, x)
    }
}

/// More places count no less.
proof fn lemma_place_counts(g: Seq<Seq<char>>, n: nat, m: nat, x: Seq<char>)
    requires
        m <= n <= g.len(),
    ensures
        how_many(m, |i: int| g[i] == x) <= how_many(n, |i: int| g[i] == x),
    decreases n,
{
    if m < n {
        lemma_place_counts(g, (n - 1) as nat, m, x);
    }
}

/// A rotation by `r` has at each place the step that stands `r` places on, going
/// round.
pub proof fn a_rotation_goes_round(g: Seq<Seq<char>>, r: int, k: int)
    requires
        0 <= r < g.len(),
        0 <= k < g.len(),
    ensures
        rotated(g, r).len() == g.len(),
        rotated(g, r)[k] == g[(r + k) % (g.len() as int)],
{
    reveal(rotated);
    let n = g.len() as int;
    if r + k < n {
        vstd::arithmetic::div_mod::lemma_small_mod((r + k) as nat, n as nat);
    } else {
        vstd::arithmetic::div_mod::lemma_mod_add_multiples_vanish(r + k - n, n);
        vstd::arithmetic::div_mod::lemma_small_mod((r + k - n) as nat, n as nat);
    }
}

} // verus!
