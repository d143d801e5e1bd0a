//! Gemini logs: a JSON array of messages; they hold prompts and no commands.
use crate::collect::claude::{stamp, stamp_of};
use crate::collect::codex::prompt_record;
use crate::collect::record::{records_view, Record, RecordView};
use crate::count::how_many;
use crate::json::{json_view, lemma_list_view, list_view, parse, parsed, Json, JsonView};
use crate::text::{trim, trimmed};
use vstd::prelude::*;

verus! {

/// The prompts among the first `n` messages, from message `done` on.
pub open spec fn prompts_from(msgs: Seq<JsonView>, done: int, n: nat) -> Seq<RecordView>
    decreases n,
{
    if n == 0 {
        Seq::empty()
    } else {
        let before = prompts_from(msgs, done, (n - 1) as nat);
        let m = msgs[n - 1];
        if n - 1 >= done >= 0 && m.at("type"@).is_text("user"@) {
            match m.at("message"@).text() {
                Some(t) => before.push(prompt_record(trimmed(t), stamp(m), None, n - 1)),
                None => before,
            }
        } else {
            before
        }
    }
}

/// The new prompts of a list of messages. A cursor below zero stands after all
/// of them.
pub fn new_prompts(msgs: &Vec<Json>, done: i64) -> (r: Vec<Record>)
    requires
        msgs@.len() <= i64::MAX,
    ensures
        records_view(r@) == prompts_from(list_view(msgs@), done as int, msgs@.len()),
{
    let ghost mv = list_view(msgs@);
    proof {
        lemma_list_view(msgs@);
    }
    let mut out: Vec<Record> = Vec::new();
    let mut i: usize = 0;
    assert(records_view(out@) =~= prompts_from(mv, done as int, 0));
    while i < msgs.len()
        invariant
            i <= msgs@.len() <= i64::MAX,
            mv.len() == msgs@.len(),
            forall|k: int| 0 <= k < mv.len() ==> #[trigger] mv[k] == json_view(msgs@[k]),
            records_view(out@) == prompts_from(mv, done as int, i as nat),
        decreases msgs@.len() - i,
    {
        let ghost now = records_view(out@);
        let line: i64 = i as i64;
        let m = &msgs[i];
        assert(mv[i as int] == m@);
        if done >= 0 && line >= done && m.get("type").is("user") {
            match m.get("message").as_text() {
                Some(t) => {
                    let head = String::new();
                    assert(head@ =~= Seq::<char>::empty());
                    let r = Record {
                        prompt: true,
                        raw: trim(t.as_str()),
                        head,
                        ts: stamp_of(m),
                        cwd: None,
                        line,
                        call: None,
                        failed: false,
                        error: None,
                    };
                    let ghost rv = r@;
                    out.push(r);
                    assert(records_view(out@) =~= now.push(rv));
                },
                None => {},
            }
        }
        i += 1;
    }
    out
}

/// The messages of a log, if it is an array.
pub open spec fn messages(log: Option<JsonView>) -> Option<Seq<JsonView>> {
    match log {
        Some(v) => v.items(),
        None => None,
    }
}

/// Reads a log from message `done` on; nothing if it is no JSON array. The next
/// reading goes on after the last message.
pub fn ingest(text: &str, done: i64) -> (r: Option<(Vec<Record>, i64)>)
    ensures
        match r {
            Some((records, next)) => {
                &&& messages(parsed(text@)) is Some
                &&& records_view(records@) == prompts_from(
                    messages(parsed(text@))->0,
                    done as int,
                    messages(parsed(text@))->0.len(),
                )
                &&& next == messages(parsed(text@))->0.len()
            },
            None => messages(parsed(text@)) is None || messages(parsed(text@))->0.len() > i64::MAX,
        },
{
    match parse(text) {
        Some(v) => match v.as_list() {
            Some(msgs) => {
                proof {
                    lemma_list_view(msgs@);
                }
                if msgs.len() as u128 > 0x7fff_ffff_ffff_ffff {
                    return None;
                }
                let next: i64 = msgs.len() as i64;
                Some((new_prompts(msgs, done), next))
            },
            None => None,
        },
        None => None,
    }
}

/// Reading a log in two goes finds what reading it at once finds: the prompts
/// before a message, followed by those from that message on.
pub proof fn a_log_can_be_read_in_parts(msgs: Seq<JsonView>, mid: nat, n: nat)
    requires
        mid <= n,
    ensures
        prompts_from(msgs, 0, n) == prompts_from(msgs, 0, mid) + prompts_from(msgs, mid as int, n),
    decreases n,
{
    let a = prompts_from(msgs, 0, mid);
    if n == mid {
        nothing_is_read_twice(msgs, mid);
        assert(a + Seq::<RecordView>::empty() =~= a);
    } else {
        a_log_can_be_read_in_parts(msgs, mid, (n - 1) as nat);
        let b = prompts_from(msgs, mid as int, (n - 1) as nat);
        let m = msgs[n - 1];
        if m.at("type"@).is_text("user"@) {
            match m.at("message"@).text() {
                Some(t) => {
                    let r = prompt_record(trimmed(t), stamp(m), None, n - 1);
                    assert((a + b).push(r) =~= a + b.push(r));
                },
                None => {},
            }
        }
    }
}

/// Reading on after the last message finds nothing: every prompt is read once.
pub proof fn nothing_is_read_twice(msgs: Seq<JsonView>, n: nat)
    ensures
        prompts_from(msgs, n as int, n) == Seq::<RecordView>::empty(),
{
    lemma_nothing_new(msgs, n, n);
}

/// Messages before the cursor hold nothing new.
proof fn lemma_nothing_new(msgs: Seq<JsonView>, done: nat, n: nat)
    requires
        n <= done,
    ensures
        prompts_from(msgs, done as int, n) == Seq::<RecordView>::empty(),
    decreases n,
{
    if n > 0 {
        lemma_nothing_new(msgs, done, (n - 1) as nat);
    }
}

/// The prompts of a log are its messages by the user, from the given one on, each under
/// its number and without the space around it.
pub proof fn every_message_of_the_user_is_a_prompt(
    msgs: Seq<JsonView>,
    done: int,
    x: RecordView,
)
    requires
        0 <= done,
    ensures
        prompts_from(msgs, done, msgs.len()).contains(x) <==> exists|i: int, t: Seq<char>|
            done <= i < msgs.len() && #[trigger] asks(msgs[i], t) && x == (RecordView {
                prompt: true,
                raw: trimmed(t),
                head: Seq::empty(),
                ts: stamp(msgs[i]),
                cwd: None,
                line: i,
                call: None,
                failed: false,
                error: None,
            }),
        prompts_from(msgs, done, msgs.len()).len() == how_many(
            msgs.len(),
            |i: int| done <= i && exists|t: Seq<char>| #[trigger] asks(msgs[i], t),
        ),
{
    lemma_prompts(msgs, done, msgs.len(), x);
}

/// Whether a message is one by the user with a text.
pub open spec fn asks(m: JsonView, t: Seq<char>) -> bool {
    m.at("type"@) == JsonView::Text("user"@) && m.at("message"@) == JsonView::Text(t)
}

/// The prompts of the first messages.
proof fn lemma_prompts(msgs: Seq<JsonView>, done: int, n: nat, x: RecordView)
    requires
        0 <= done,
        n <= msgs.len(),
    ensures
        prompts_from(msgs, done, n).contains(x) <==> exists|i: int, t: Seq<char>|
            done <= i < n && #[trigger] asks(msgs[i], t) && x == (RecordView {
                prompt: true,
                raw: trimmed(t),
                head: Seq::empty(),
                ts: stamp(msgs[i]),
                cwd: None,
                line: i,
                call: None,
                failed: false,
                error: None,
            }),
        prompts_from(msgs, done, n).len() == how_many(
            n,
            |i: int| done <= i && exists|t: Seq<char>| #[trigger] asks(msgs[i], t),
        ),
    decreases n,
{
    if n > 0 {
        let m = (n - 1) as nat;
        lemma_prompts(msgs, done, m, x);
        let before = prompts_from(msgs, done, m);
        let all = prompts_from(msgs, done, n);
        let b = msgs[m as int];
        if b.at("type"@).is_text("user"@) && b.at("message"@).text() is Some {
            assert(asks(b, b.at("message"@).text()->0));
        } else {
            assert(forall|t: Seq<char>| !#[trigger] asks(b, t));
        }
        if before.contains(x) {
            let k = choose|k: int| 0 <= k < before.len() && before[k] == x;
            assert(all[k] == x);
        }
        if all.len() > before.len() {
            assert(all[before.len() as int] == all.last());
        }
        if all.contains(x) && !before.contains(x) {
            let k = choose|k: int| 0 <= k < all.len() && all[k] == x;
            if k < before.len() {
                assert(before[k] == x);
            }
            assert(asks(msgs[m as int], b.at("message"@).text()->0));
        }
    }
}

/// Earlier messages come before later ones.
pub proof fn prompts_come_in_order(msgs: Seq<JsonView>, done: int, m: nat, n: nat)
    requires
        m <= n,
    ensures
        prompts_from(msgs, done, m).is_prefix_of(prompts_from(msgs, done, n)),
    decreases n,
{
    if m < n {
        prompts_come_in_order(msgs, done, m, (n - 1) as nat);
    }
}

} // verus!
