//! The background scan: which candidates are worth a notification, and what it
//! says.
use crate::mine::candidates::{Candidate, CandidateView};
use crate::number::{decimal, to_decimal};
use crate::report::candidates_view;
use crate::text::{chars_of, join, joined, opt_text, replace_all, replaced, text_of};
use vstd::prelude::*;

verus! {

/// The score from which on a candidate is worth a notification: eight seconds.
pub const NOTIFY_THRESHOLD: u128 = 32_000;

/// How much of a pattern a notification shows, in characters.
pub const PREVIEW: usize = 80;

/// The candidates among the first `n` that are worth a notification and were not
/// notified before.
pub open spec fn new_ones(c: Seq<CandidateView>, seen: Seq<bool>, n: nat) -> Seq<usize>
    decreases n,
{
    if n == 0 {
        Seq::empty()
    } else {
        let before = new_ones(c, seen, (n - 1) as nat);
        if c[n - 1].score >= NOTIFY_THRESHOLD && !seen[n - 1] {
            before.push((n - 1) as usize)
        } else {
            before
        }
    }
}

/// The candidates that are worth a notification and were not notified before.
pub fn fresh(c: &Vec<Candidate>, seen: &Vec<bool>) -> (r: Vec<usize>)
    requires
        seen@.len() == c@.len(),
    ensures
        r@ == new_ones(candidates_view(c@), seen@, c@.len()),
        forall|k: int| 0 <= k < r@.len() ==> (#[trigger] r@[k]) < c@.len(),
{
    let ghost cv = candidates_view(c@);
    let mut out: Vec<usize> = Vec::new();
    let mut i: usize = 0;
    while i < c.len()
        invariant
            i <= c@.len() == seen@.len(),
            cv == candidates_view(c@),
            out@ == new_ones(cv, seen@, i as nat),
            forall|k: int| 0 <= k < out@.len() ==> (#[trigger] out@[k]) < i,
        decreases c@.len() - i,
    {
        assert(cv[i as int] == c@[i as int]@);
        if c[i].score >= NOTIFY_THRESHOLD && !seen[i] {
            out.push(i);
        }
        i += 1;
    }
    out
}

/// The start of a text.
pub open spec fn preview(s: Seq<char>) -> Seq<char> {
    if s.len() <= PREVIEW {
        s
    } else {
        s.take(PREVIEW as int)
    }
}

/// What a notification says of `fresh` new patterns, the first of them `top`, and
/// of `stale` automations that do not stick; nothing if there is nothing to say.
pub open spec fn notice(
    fresh: nat,
    templates: Seq<Seq<char>>,
    count: nat,
    stale: nat,
) -> Option<Seq<char>> {
    if fresh == 0 && stale == 0 {
        None
    } else if fresh == 0 {
        Some(decimal(stale) + " accepted automation(s) aren't sticking. Run `sisyphus evolve`."@)
    } else if stale == 0 {
        Some(
            decimal(fresh) + " automatable pattern(s) — top: "@ + preview(
                joined(templates, " → "@),
            ) + " ("@ + decimal(count) + "×). Run `sisyphus report`."@,
        )
    } else {
        Some(
            decimal(fresh) + " new pattern(s) + "@ + decimal(stale)
                + " automation(s) need attention. Run `sisyphus report` and `sisyphus evolve`."@,
        )
    }
}

/// What a notification says.
pub fn message(c: &Vec<Candidate>, fresh: &Vec<usize>, stale: usize) -> (r: Option<String>)
    requires
        forall|k: int| 0 <= k < fresh@.len() ==> (#[trigger] fresh@[k]) < c@.len(),
    ensures
        opt_text(r) == (if fresh@.len() > 0 {
            notice(
                fresh@.len(),
                candidates_view(c@)[fresh@[0] as int].templates,
                candidates_view(c@)[fresh@[0] as int].count,
                stale as nat,
            )
        } else {
            notice(0, Seq::empty(), 0, stale as nat)
        }),
{
    if fresh.len() == 0 {
        if stale == 0 {
            return None;
        }
        let mut out = to_decimal(stale as u128);
        out.append(" accepted automation(s) aren't sticking. Run `sisyphus evolve`.");
        return Some(out);
    }
    let mut out = to_decimal(fresh.len() as u128);
    if stale > 0 {
        out.append(" new pattern(s) + ");
        out.append(to_decimal(stale as u128).as_str());
        out.append(" automation(s) need attention. Run `sisyphus report` and `sisyphus evolve`.");
        return Some(out);
    }
    assert(fresh@[0] < c@.len());
    let top = &c[fresh[0]];
    assert(candidates_view(c@)[fresh@[0] as int] == top@);
    let chain = chars_of(join(&top.templates, " → ").as_str());
    let n: usize = if chain.len() <= PREVIEW {
        chain.len()
    } else {
        PREVIEW
    };
    assert(chain@.subrange(0, n as int) =~= preview(chain@));
    out.append(" automatable pattern(s) — top: ");
    out.append(text_of(&chain, 0, n).as_str());
    out.append(" (");
    out.append(to_decimal(top.count as u128).as_str());
    out.append("×). Run `sisyphus report`.");
    Some(out)
}

/// The script that shows a notification: quotation marks in it would end the
/// text, so they are replaced.
pub fn notification_script(msg: &str) -> (r: String)
    ensures
        r@ == "display notification \""@ + replaced(msg@, "\""@, "'"@) + "\" with title \"sisyphus\""@,
{
    proof {
        reveal_strlit("\"");
    }
    let mut out = "display notification \"".to_owned();
    out.append(replace_all(msg, "\"", "'").as_str());
    out.append("\" with title \"sisyphus\"");
    out
}

/// A pattern is announced exactly when it scores thirty-two thousand or more and was
/// not seen before, in the order of the patterns.
pub proof fn costly_patterns_are_announced_once(
    c: Seq<CandidateView>,
    seen: Seq<bool>,
    i: int,
)
    requires
        c.len() == seen.len(),
        c.len() <= usize::MAX,
        0 <= i < c.len(),
    ensures
        new_ones(c, seen, c.len()).contains(i as usize) <==> c[i].score >= 32_000 && !seen[i],
        forall|a: int, b: int|
            0 <= a < b < new_ones(c, seen, c.len()).len() ==> (#[trigger] new_ones(
                c,
                seen,
                c.len(),
            )[a]) < #[trigger] new_ones(c, seen, c.len())[b],
{
    lemma_new_ones(c, seen, c.len(), i);
}

/// What is announced of the first patterns.
proof fn lemma_new_ones(c: Seq<CandidateView>, seen: Seq<bool>, n: nat, i: int)
    requires
        n <= c.len(),
        c.len() <= usize::MAX,
        0 <= i,
    ensures
        i < n ==> (new_ones(c, seen, n).contains(i as usize) <==> c[i].score >= 32_000 && !seen[i]),
        forall|k: int|
            0 <= k < new_ones(c, seen, n).len() ==> (#[trigger] new_ones(c, seen, n)[k]) < n,
        forall|a: int, b: int|
            0 <= a < b < new_ones(c, seen, n).len() ==> (#[trigger] new_ones(c, seen, n)[a])
                < #[trigger] new_ones(c, seen, n)[b],
    decreases n,
{
    if n > 0 {
        let m = (n - 1) as nat;
        lemma_new_ones(c, seen, m, i);
        let before = new_ones(c, seen, m);
        let all = new_ones(c, seen, n);
        if i < n {
            if before.contains(i as usize) {
                let k = choose|k: int| 0 <= k < before.len() && before[k] == i as usize;
                assert(all[k] == i as usize);
            }
            if all.contains(i as usize) {
                let k = choose|k: int| 0 <= k < all.len() && all[k] == i as usize;
                if k < before.len() {
                    assert(before[k] == i as usize);
                }
            }
            if i == m && all.len() > before.len() {
                assert(all[before.len() as int] == i as usize);
            }
        }
    }
}

/// A preview is the first eighty characters of a text.
pub proof fn a_preview_is_the_beginning(s: Seq<char>, t: Seq<char>)
    ensures
        s.len() <= 80 ==> preview(s) == s,
        s.len() == 80 ==> preview(s + t) == s,
        preview(s).is_prefix_of(s),
{
    let all = s + t;
    if s.len() == 80 {
        assert(all.take(80) =~= s);
        if t.len() == 0 {
            assert(all =~= s);
        }
    }
    assert(s.take(s.len() as int) =~= s);
}

/// Whether there is anything to tell, and of what.
pub proof fn a_notice_tells_of_what_there_is(
    fresh: nat,
    templates: Seq<Seq<char>>,
    count: nat,
    stale: nat,
)
    ensures
        notice(fresh, templates, count, stale) is None <==> fresh == 0 && stale == 0,
        fresh > 0 ==> decimal(fresh).is_prefix_of(notice(fresh, templates, count, stale)->0),
        fresh == 0 && stale > 0 ==> decimal(stale).is_prefix_of(
            notice(fresh, templates, count, stale)->0,
        ),
{
}

} // verus!
