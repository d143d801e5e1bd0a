//! What the drafter is asked.
use crate::collect::claude::{clip, clipped};
use crate::count::how_many;
use crate::draft::wording::{
    ERRORS_1, ERRORS_2, ERRORS_3, ERRORS_4, FAILURE_1, FAILURE_2, FIXLOOP_1, FIXLOOP_2, FIXLOOP_3, FIXLOOP_4, INTENT_1,
    INTENT_2, INTENT_3, INTENT_4, INTENT_5, NATIVE_1, NATIVE_2, NATIVE_3, OUTPUT, PROMPT_1, PROMPT_2, PROMPT_3, PROMPT_4, REVISE_1, REVISE_2,
    REVISE_3, REVISE_4, REVISE_5, REVISE_6, REVISE_7, SEQUENCE_1, SEQUENCE_2, TASK_1, TASK_2,
    TASK_3,
};
use crate::mine::intents::ask_mark;
use crate::number::{decimal, to_decimal};
use crate::text::{
    begins_with, chars_of, first_line, has_part, head_line, join, join_from, joined,
    lemma_has_part, opt_text, same, stands_at, starts_with, text_of, texts,
};
use crate::tool::Tool;
use vstd::prelude::*;

verus! {

/// How many error messages are quoted.
pub const MAX_QUOTES: usize = 3;

// ---------------------------------------------------------------------------
// The situation
// ---------------------------------------------------------------------------

/// An ask without the mark before it.
pub open spec fn bare_ask(t: Seq<char>) -> Seq<char> {
    if begins_with(t, ask_mark()) {
        t.skip(ask_mark().len() as int)
    } else {
        t
    }
}

/// What is said of a pattern.
pub open spec fn situation(
    kind: Seq<char>,
    templates: Seq<Seq<char>>,
    count: nat,
    product: Seq<char>,
) -> Seq<char> {
    let n = decimal(count);
    let all = joined(templates, "\n"@);
    if kind == "fixloop"@ {
        FIXLOOP_1@ + n + FIXLOOP_2@ + all + FIXLOOP_3@ + product + FIXLOOP_4@
    } else if kind == "intent"@ {
        INTENT_1@ + n + INTENT_2@ + bare_ask(templates[0]) + INTENT_3@ + joined(
            templates.skip(1),
            "\n"@,
        ) + INTENT_4@ + product + INTENT_5@
    } else if kind == "prompt"@ {
        PROMPT_1@ + n + PROMPT_2@ + all + PROMPT_3@ + product + PROMPT_4@
    } else if kind == "failure"@ {
        FAILURE_1@ + product + FAILURE_2@ + if templates.len() > 0 {
            templates[0]
        } else {
            Seq::empty()
        }
    } else {
        SEQUENCE_1@ + n + SEQUENCE_2@ + all
    }
}

/// The whole prompt.
pub open spec fn full_prompt(
    kind: Seq<char>,
    templates: Seq<Seq<char>>,
    count: nat,
    examples: Seq<char>,
    product: Seq<char>,
) -> Seq<char> {
    TASK_1@ + situation(kind, templates, count, product) + TASK_2@ + examples + TASK_3@
}

/// Strips the mark before an ask.
pub fn strip_ask(t: &str) -> (r: String)
    ensures
        r@ == bare_ask(t@),
{
    proof {
        reveal_strlit("ask: ");
    }
    if starts_with(t, "ask: ") {
        let c = chars_of(t);
        assert(c@.subrange(5, c@.len() as int) =~= t@.skip(5));
        text_of(&c, 5, c.len())
    } else {
        t.to_owned()
    }
}

/// Builds the prompt for a pattern. An intent begins with its ask.
pub fn build_prompt(
    kind: &str,
    templates: &Vec<String>,
    count: usize,
    examples: &str,
    tool: &Tool,
) -> (r: String)
    requires
        kind@ == "intent"@ ==> templates@.len() > 0,
    ensures
        r@ == full_prompt(kind@, texts(templates@), count as nat, examples@, tool@.product),
{
    let ghost tv = texts(templates@);
    let n = to_decimal(count as u128);
    let mut out = TASK_1.to_owned();
    let ghost head = out@;
    if same(kind, "fixloop") {
        out.append(FIXLOOP_1);
        out.append(n.as_str());
        out.append(FIXLOOP_2);
        out.append(join(templates, "\n").as_str());
        out.append(FIXLOOP_3);
        out.append(tool.product.as_str());
        out.append(FIXLOOP_4);
    } else if same(kind, "intent") {
        out.append(INTENT_1);
        out.append(n.as_str());
        out.append(INTENT_2);
        assert(tv[0] == templates@[0]@);
        out.append(strip_ask(templates[0].as_str()).as_str());
        out.append(INTENT_3);
        out.append(join_from(templates, 1, "\n").as_str());
        out.append(INTENT_4);
        out.append(tool.product.as_str());
        out.append(INTENT_5);
    } else if same(kind, "prompt") {
        out.append(PROMPT_1);
        out.append(n.as_str());
        out.append(PROMPT_2);
        out.append(join(templates, "\n").as_str());
        out.append(PROMPT_3);
        out.append(tool.product.as_str());
        out.append(PROMPT_4);
    } else if same(kind, "failure") {
        out.append(FAILURE_1);
        out.append(tool.product.as_str());
        out.append(FAILURE_2);
        if templates.len() > 0 {
            assert(tv[0] == templates@[0]@);
            out.append(templates[0].as_str());
        }
    } else {
        out.append(SEQUENCE_1);
        out.append(n.as_str());
        out.append(SEQUENCE_2);
        out.append(join(templates, "\n").as_str());
    }
    assert(out@ =~= TASK_1@ + situation(kind@, tv, count as nat, tool@.product));
    out.append(TASK_2);
    out.append(examples);
    out.append(TASK_3);
    out
}

// ---------------------------------------------------------------------------
// Examples
// ---------------------------------------------------------------------------

/// The lines for the first `n` examples of one template.
pub open spec fn example_lines(raws: Seq<Seq<char>>, n: nat) -> Seq<char>
    decreases n,
{
    if n == 0 {
        Seq::empty()
    } else {
        example_lines(raws, (n - 1) as nat) + "  e.g. "@ + first_line(raws[n - 1]) + "\n"@
    }
}

/// The examples of the first `n` templates.
pub open spec fn examples_of(
    templates: Seq<Seq<char>>,
    raws: Seq<Seq<Seq<char>>>,
    n: nat,
) -> Seq<char>
    decreases n,
{
    if n == 0 {
        Seq::empty()
    } else {
        examples_of(templates, raws, (n - 1) as nat) + "template: "@ + templates[n - 1] + "\n"@
            + example_lines(raws[n - 1], raws[n - 1].len())
    }
}

/// What lists of commands hold.
pub open spec fn raws_view(v: Seq<Vec<String>>) -> Seq<Seq<Seq<char>>> {
    Seq::new(v.len(), |i: int| texts(v[i]@))
}

/// Shows each template with commands it was made from.
pub fn examples(templates: &Vec<String>, raws: &Vec<Vec<String>>) -> (r: String)
    requires
        raws@.len() == templates@.len(),
    ensures
        r@ == examples_of(texts(templates@), raws_view(raws@), templates@.len()),
{
    let ghost tv = texts(templates@);
    let ghost rv = raws_view(raws@);
    let mut out = String::new();
    let mut i: usize = 0;
    assert(out@ =~= examples_of(tv, rv, 0));
    while i < templates.len()
        invariant
            i <= templates@.len() == raws@.len(),
            tv == texts(templates@),
            rv == raws_view(raws@),
            out@ == examples_of(tv, rv, i as nat),
        decreases templates@.len() - i,
    {
        let ghost before = out@;
        out.append("template: ");
        out.append(templates[i].as_str());
        out.append("\n");
        let ghost head = out@;
        assert(head =~= before + "template: "@ + tv[i as int] + "\n"@);
        let some = &raws[i];
        let ghost sv = rv[i as int];
        let mut j: usize = 0;
        assert(head + example_lines(sv, 0) =~= head);
        while j < some.len()
            invariant
                j <= some@.len(),
                sv == texts(some@),
                out@ == head + example_lines(sv, j as nat),
            decreases some@.len() - j,
        {
            assert(sv[j as int] == some@[j as int]@);
            out.append("  e.g. ");
            out.append(head_line(some[j].as_str()).as_str());
            out.append("\n");
            j += 1;
            assert(out@ =~= head + example_lines(sv, j as nat));
        }
        i += 1;
    }
    out
}

/// The first `n` texts, each below a rule.
pub open spec fn quoted(s: Seq<Seq<char>>, n: nat) -> Seq<char>
    decreases n,
{
    if n == 0 {
        Seq::empty()
    } else {
        quoted(s, (n - 1) as nat) + "---\n"@ + s[n - 1] + "\n"@
    }
}

/// Adds texts, each below a rule.
fn quote(out: &mut String, s: &Vec<String>)
    ensures
        final(out)@ == old(out)@ + quoted(texts(s@), s@.len()),
{
    let ghost start = out@;
    let ghost sv = texts(s@);
    let mut i: usize = 0;
    assert(start + quoted(sv, 0) =~= start);
    while i < s.len()
        invariant
            i <= s@.len(),
            sv == texts(s@),
            out@ == start + quoted(sv, i as nat),
        decreases s@.len() - i,
    {
        assert(sv[i as int] == s@[i as int]@);
        out.append("---\n");
        out.append(s[i].as_str());
        out.append("\n");
        i += 1;
        assert(out@ =~= start + quoted(sv, i as nat));
    }
}

/// An error message with the signature it falls under, if any.
pub struct Snippet {
    pub signature: Option<String>,
    pub text: String,
}

/// The first messages of one signature among the first `n`, cut to size.
pub open spec fn of_signature(s: Seq<Snippet>, n: nat, signature: Seq<char>) -> Seq<Seq<char>>
    decreases n,
{
    if n == 0 {
        Seq::empty()
    } else {
        let before = of_signature(s, (n - 1) as nat, signature);
        if before.len() < MAX_QUOTES && opt_text(s[n - 1].signature) == Some(signature) {
            before.push(clipped(s[n - 1].text@))
        } else {
            before
        }
    }
}

/// The first messages of one signature.
fn with_signature(s: &Vec<Snippet>, signature: &str) -> (r: Vec<String>)
    ensures
        texts(r@) == of_signature(s@, s@.len(), signature@),
{
    let mut out: Vec<String> = Vec::new();
    let mut i: usize = 0;
    assert(texts(out@) =~= of_signature(s@, 0, signature@));
    while i < s.len()
        invariant
            i <= s@.len(),
            texts(out@) == of_signature(s@, i as nat, signature@),
        decreases s@.len() - i,
    {
        let ghost before = texts(out@);
        assert(before.len() == out@.len());
        let one = &s[i];
        let fits = match &one.signature {
            Some(g) => same(g.as_str(), signature),
            None => false,
        };
        if out.len() < MAX_QUOTES && fits {
            out.push(clip(one.text.as_str()));
            assert(texts(out@) =~= before.push(clipped(one.text@)));
        }
        i += 1;
    }
    out
}

// ---------------------------------------------------------------------------
// The whole prompt
// ---------------------------------------------------------------------------

/// What the history knows about a pattern.
pub struct Evidence {
    /// Commands that each template was made from.
    pub raws: Vec<Vec<String>>,
    /// Whether the user works inside agents.
    pub native: bool,
    /// Error output of the command of a fix loop.
    pub errors: Vec<String>,
    /// Messages of failed commands.
    pub snippets: Vec<Snippet>,
}

/// What is shown of an error that keeps coming back.
pub open spec fn error_examples(
    templates: Seq<Seq<char>>,
    count: nat,
    snippets: Seq<Snippet>,
) -> Seq<char> {
    let q = of_signature(snippets, snippets.len(), templates[0]);
    ERRORS_1@ + decimal(count) + ERRORS_2@ + templates[0] + ERRORS_3@ + joined(
        templates.skip(1),
        "\n"@,
    ) + ERRORS_4@ + quoted(q, q.len())
}

/// What is said of a user who works inside agents.
pub open spec fn native_note(product: Seq<char>) -> Seq<char> {
    NATIVE_1@ + product + NATIVE_2@ + product + NATIVE_3@
}

/// What is shown of a pattern's commands.
pub open spec fn command_examples(
    kind: Seq<char>,
    templates: Seq<Seq<char>>,
    raws: Seq<Seq<Seq<char>>>,
    native: bool,
    errors: Seq<Seq<char>>,
    product: Seq<char>,
) -> Seq<char> {
    (if kind == "prompt"@ {
        Seq::<char>::empty()
    } else {
        examples_of(templates, raws, templates.len())
    }) + (if native {
        native_note(product)
    } else {
        Seq::<char>::empty()
    }) + (if kind == "fixloop"@ && errors.len() > 0 {
        OUTPUT@ + quoted(errors, errors.len())
    } else {
        Seq::<char>::empty()
    })
}

/// The prompt for a pattern with what the history knows about it.
pub open spec fn prepared(
    kind: Seq<char>,
    templates: Seq<Seq<char>>,
    count: nat,
    raws: Seq<Seq<Seq<char>>>,
    native: bool,
    errors: Seq<Seq<char>>,
    snippets: Seq<Snippet>,
    product: Seq<char>,
) -> Seq<char> {
    full_prompt(
        kind,
        templates,
        count,
        if kind == "failure"@ {
            error_examples(templates, count, snippets)
        } else {
            command_examples(kind, templates, raws, native, errors, product)
        },
        product,
    )
}

/// Prepares the prompt for a pattern. The kinds that build on a first template
/// have one.
pub fn prepare_prompt(
    kind: &str,
    templates: &Vec<String>,
    count: usize,
    e: &Evidence,
    tool: &Tool,
) -> (r: String)
    requires
        kind@ == "failure"@ || kind@ == "intent"@ || kind@ == "fixloop"@ ==> templates@.len() > 0,
        e.raws@.len() == templates@.len(),
    ensures
        r@ == prepared(
            kind@,
            texts(templates@),
            count as nat,
            raws_view(e.raws@),
            e.native,
            texts(e.errors@),
            e.snippets@,
            tool@.product,
        ),
{
    let ghost tv = texts(templates@);
    if same(kind, "failure") {
        assert(tv[0] == templates@[0]@);
        let mut ex = ERRORS_1.to_owned();
        ex.append(to_decimal(count as u128).as_str());
        ex.append(ERRORS_2);
        ex.append(templates[0].as_str());
        ex.append(ERRORS_3);
        ex.append(join_from(templates, 1, "\n").as_str());
        ex.append(ERRORS_4);
        let found = with_signature(&e.snippets, templates[0].as_str());
        assert(texts(found@).len() == found@.len());
        quote(&mut ex, &found);
        return build_prompt(kind, templates, count, ex.as_str(), tool);
    }
    let mut ex = if same(kind, "prompt") {
        let s = String::new();
        assert(s@ =~= Seq::<char>::empty());
        s
    } else {
        examples(templates, &e.raws)
    };
    let ghost first = ex@;
    if e.native {
        ex.append(NATIVE_1);
        ex.append(tool.product.as_str());
        ex.append(NATIVE_2);
        ex.append(tool.product.as_str());
        ex.append(NATIVE_3);
    }
    let ghost second = ex@;
    assert(second =~= first + (if e.native {
        native_note(tool@.product)
    } else {
        Seq::<char>::empty()
    }));
    if same(kind, "fixloop") && e.errors.len() > 0 {
        ex.append(OUTPUT);
        quote(&mut ex, &e.errors);
    }
    assert(texts(e.errors@).len() == e.errors@.len());
    assert(ex@ =~= command_examples(
        kind@,
        tv,
        raws_view(e.raws@),
        e.native,
        texts(e.errors@),
        tool@.product,
    ));
    build_prompt(kind, templates, count, ex.as_str(), tool)
}

// ---------------------------------------------------------------------------
// Revisions
// ---------------------------------------------------------------------------

/// The request to revise an artifact that did not stick.
pub open spec fn revision_request(
    path: Seq<char>,
    current: Seq<char>,
    templates: Seq<Seq<char>>,
    examples: Seq<char>,
    uses: nat,
    manual: nat,
) -> Seq<char> {
    REVISE_1@ + decimal(uses) + REVISE_2@ + decimal(manual) + REVISE_3@ + joined(templates, "\n"@)
        + REVISE_4@ + examples + REVISE_5@ + path + REVISE_6@ + current + REVISE_7@
}

/// Asks for a revision of an artifact.
pub fn revision_prompt(
    path: &str,
    current: &str,
    templates: &Vec<String>,
    examples: &str,
    uses: u64,
    manual: usize,
) -> (r: String)
    ensures
        r@ == revision_request(
            path@,
            current@,
            texts(templates@),
            examples@,
            uses as nat,
            manual as nat,
        ),
{
    let mut out = REVISE_1.to_owned();
    out.append(to_decimal(uses as u128).as_str());
    out.append(REVISE_2);
    out.append(to_decimal(manual as u128).as_str());
    out.append(REVISE_3);
    out.append(join(templates, "\n").as_str());
    out.append(REVISE_4);
    out.append(examples);
    out.append(REVISE_5);
    out.append(path);
    out.append(REVISE_6);
    out.append(current);
    out.append(REVISE_7);
    out
}

/// An ask is read without its mark, and what has no mark is read as it is.
pub proof fn the_mark_is_taken_off_an_ask(ask: Seq<char>)
    ensures
        bare_ask("ask: "@ + ask) == ask,
        !begins_with(ask, "ask: "@) ==> bare_ask(ask) == ask,
{
    let t = "ask: "@ + ask;
    assert(t.subrange(0, "ask: "@.len() as int) =~= "ask: "@);
    assert(t.skip("ask: "@.len() as int) =~= ask);
}

/// The messages that are quoted of an error are its first three, each clipped.
pub proof fn the_first_three_messages_are_quoted(
    s: Seq<Snippet>,
    signature: Seq<char>,
    t: Seq<char>,
)
    ensures
        of_signature(s, s.len(), signature).contains(t) <==> exists|i: int|
            0 <= i < s.len() && opt_text((#[trigger] s[i]).signature) == Some(signature)
                && clipped(s[i].text@) == t && how_many(
                i as nat,
                |j: int| opt_text(s[j].signature) == Some(signature),
            ) < 3,
        of_signature(s, s.len(), signature).len() <= 3,
{
    lemma_quoted_of(s, s.len(), signature, t);
}

/// What is quoted of the first messages.
proof fn lemma_quoted_of(s: Seq<Snippet>, n: nat, signature: Seq<char>, t: Seq<char>)
    requires
        n <= s.len(),
    ensures
        ({
            let all = how_many(n, |j: int| opt_text(s[j].signature) == Some(signature));
            of_signature(s, n, signature).len() == if all < 3 {
                all
            } else {
                3
            }
        }),
        of_signature(s, n, signature).contains(t) <==> exists|i: int|
            0 <= i < n && opt_text((#[trigger] s[i]).signature) == Some(signature) && clipped(
                s[i].text@,
            ) == t && how_many(i as nat, |j: int| opt_text(s[j].signature) == Some(signature)) < 3,
    decreases n,
{
    if n > 0 {
        let m = (n - 1) as nat;
        let before = of_signature(s, m, signature);
        let all = of_signature(s, n, signature);
        lemma_quoted_of(s, m, signature, t);
        let x = s[m as int];
        if before.contains(t) {
            let k = choose|k: int| 0 <= k < before.len() && before[k] == t;
            assert(all[k] == t);
        }
        if all.len() > before.len() {
            assert(all[before.len() as int] == clipped(x.text@));
        }
        if all.contains(t) && !before.contains(t) {
            let k = choose|k: int| 0 <= k < all.len() && all[k] == t;
            if k < before.len() {
                assert(before[k] == t);
            }
            assert(opt_text(s[m as int].signature) == Some(signature));
        }
    }
}

/// The request for a draft holds what is known of a pattern: how often it was seen,
/// its steps one below the other, and the examples.
pub proof fn a_request_holds_what_is_known(
    kind: Seq<char>,
    templates: Seq<Seq<char>>,
    count: nat,
    examples: Seq<char>,
    product: Seq<char>,
)
    requires
        kind != "intent"@,
        kind != "failure"@,
    ensures
        has_part(full_prompt(kind, templates, count, examples, product), examples),
        has_part(
            full_prompt(kind, templates, count, examples, product),
            joined(templates, "\n"@),
        ),
        has_part(full_prompt(kind, templates, count, examples, product), decimal(count)),
{
    let s = situation(kind, templates, count, product);
    let all = joined(templates, "\n"@);
    let n = decimal(count);
    let p = full_prompt(kind, templates, count, examples, product);
    lemma_has_part(TASK_1@ + s + TASK_2@, examples, TASK_3@);
    if kind == "fixloop"@ {
        lemma_has_part(
            TASK_1@ + FIXLOOP_1@,
            n,
            FIXLOOP_2@ + all + FIXLOOP_3@ + product + FIXLOOP_4@ + TASK_2@ + examples + TASK_3@,
        );
        assert(p =~= TASK_1@ + FIXLOOP_1@ + n + (FIXLOOP_2@ + all + FIXLOOP_3@ + product
            + FIXLOOP_4@ + TASK_2@ + examples + TASK_3@));
        lemma_has_part(
            TASK_1@ + FIXLOOP_1@ + n + FIXLOOP_2@,
            all,
            FIXLOOP_3@ + product + FIXLOOP_4@ + TASK_2@ + examples + TASK_3@,
        );
        assert(p =~= TASK_1@ + FIXLOOP_1@ + n + FIXLOOP_2@ + all + (FIXLOOP_3@ + product
            + FIXLOOP_4@ + TASK_2@ + examples + TASK_3@));
    } else if kind == "prompt"@ {
        lemma_has_part(
            TASK_1@ + PROMPT_1@,
            n,
            PROMPT_2@ + all + PROMPT_3@ + product + PROMPT_4@ + TASK_2@ + examples + TASK_3@,
        );
        assert(p =~= TASK_1@ + PROMPT_1@ + n + (PROMPT_2@ + all + PROMPT_3@ + product + PROMPT_4@
            + TASK_2@ + examples + TASK_3@));
        lemma_has_part(
            TASK_1@ + PROMPT_1@ + n + PROMPT_2@,
            all,
            PROMPT_3@ + product + PROMPT_4@ + TASK_2@ + examples + TASK_3@,
        );
        assert(p =~= TASK_1@ + PROMPT_1@ + n + PROMPT_2@ + all + (PROMPT_3@ + product + PROMPT_4@
            + TASK_2@ + examples + TASK_3@));
    } else {
        lemma_has_part(
            TASK_1@ + SEQUENCE_1@,
            n,
            SEQUENCE_2@ + all + TASK_2@ + examples + TASK_3@,
        );
        assert(p =~= TASK_1@ + SEQUENCE_1@ + n + (SEQUENCE_2@ + all + TASK_2@ + examples
            + TASK_3@));
        lemma_has_part(
            TASK_1@ + SEQUENCE_1@ + n + SEQUENCE_2@,
            all,
            TASK_2@ + examples + TASK_3@,
        );
        assert(p =~= TASK_1@ + SEQUENCE_1@ + n + SEQUENCE_2@ + all + (TASK_2@ + examples
            + TASK_3@));
    }
}

/// The request for a draft of an intent holds the ask without its mark and the steps
/// behind it.
pub proof fn a_request_for_an_intent_holds_ask_and_steps(
    ask: Seq<char>,
    steps: Seq<Seq<char>>,
    count: nat,
    examples: Seq<char>,
    product: Seq<char>,
)
    ensures
        ({
            let p = full_prompt(
                "intent"@,
                seq!["ask: "@ + ask] + steps,
                count,
                examples,
                product,
            );
            has_part(p, ask) && has_part(p, joined(steps, "\n"@)) && has_part(p, examples)
                && has_part(p, decimal(count))
        }),
{
    reveal_strlit("intent");
    reveal_strlit("fixloop");
    assert("intent"@.len() != "fixloop"@.len());
    the_mark_is_taken_off_an_ask(ask);
    let t = seq!["ask: "@ + ask] + steps;
    assert(t[0] == "ask: "@ + ask);
    assert(t.skip(1) =~= steps);
    let all = joined(steps, "\n"@);
    let n = decimal(count);
    let p = full_prompt("intent"@, t, count, examples, product);
    let s = situation("intent"@, t, count, product);
    lemma_has_part(TASK_1@ + s + TASK_2@, examples, TASK_3@);
    let tail = INTENT_4@ + product + INTENT_5@ + TASK_2@ + examples + TASK_3@;
    lemma_has_part(TASK_1@ + INTENT_1@ + n + INTENT_2@ + ask + INTENT_3@, all, tail);
    assert(p =~= TASK_1@ + INTENT_1@ + n + INTENT_2@ + ask + INTENT_3@ + all + tail);
    lemma_has_part(TASK_1@ + INTENT_1@ + n + INTENT_2@, ask, INTENT_3@ + all + tail);
    assert(p =~= TASK_1@ + INTENT_1@ + n + INTENT_2@ + ask + (INTENT_3@ + all + tail));
    lemma_has_part(TASK_1@ + INTENT_1@, n, INTENT_2@ + ask + INTENT_3@ + all + tail);
    assert(p =~= TASK_1@ + INTENT_1@ + n + (INTENT_2@ + ask + INTENT_3@ + all + tail));
}

/// Examples are shown for each template, by the first line of each command.
pub proof fn examples_go_template_by_template(
    templates: Seq<Seq<char>>,
    raws: Seq<Seq<Seq<char>>>,
    i: int,
    k: int,
)
    requires
        templates.len() == raws.len(),
        0 <= i < templates.len(),
        0 <= k < raws[i].len(),
    ensures
        has_part(
            examples_of(templates, raws, templates.len()),
            "template: "@ + templates[i] + "\n"@,
        ),
        has_part(
            examples_of(templates, raws, templates.len()),
            "  e.g. "@ + first_line(raws[i][k]) + "\n"@,
        ),
{
    lemma_shown(templates, raws, templates.len(), i, k);
}

/// What is shown of the first templates.
proof fn lemma_shown(
    templates: Seq<Seq<char>>,
    raws: Seq<Seq<Seq<char>>>,
    n: nat,
    i: int,
    k: int,
)
    requires
        n <= templates.len() == raws.len(),
        0 <= i < n,
        0 <= k < raws[i].len(),
    ensures
        has_part(examples_of(templates, raws, n), "template: "@ + templates[i] + "\n"@),
        has_part(examples_of(templates, raws, n), "  e.g. "@ + first_line(raws[i][k]) + "\n"@),
    decreases n,
{
    let m = (n - 1) as nat;
    let before = examples_of(templates, raws, m);
    let head = "template: "@ + templates[m as int] + "\n"@;
    let rest = example_lines(raws[m as int], raws[m as int].len());
    let all = examples_of(templates, raws, n);
    assert(all =~= before + head + rest);
    if i < m {
        lemma_shown(templates, raws, m, i, k);
        lemma_part_stays(before, head + rest, "template: "@ + templates[i] + "\n"@);
        lemma_part_stays(before, head + rest, "  e.g. "@ + first_line(raws[i][k]) + "\n"@);
        assert(all =~= before + (head + rest));
    } else {
        lemma_has_part(before, head, rest);
        lemma_example_shown(raws[i], raws[i].len(), k);
        lemma_part_stays_behind(before + head, rest, "  e.g. "@ + first_line(raws[i][k]) + "\n"@);
    }
}

/// What is shown of the first commands.
proof fn lemma_example_shown(raws: Seq<Seq<char>>, n: nat, k: int)
    requires
        0 <= k < n <= raws.len(),
    ensures
        has_part(example_lines(raws, n), "  e.g. "@ + first_line(raws[k]) + "\n"@),
    decreases n,
{
    let m = (n - 1) as nat;
    let before = example_lines(raws, m);
    let line = "  e.g. "@ + first_line(raws[m as int]) + "\n"@;
    assert(example_lines(raws, n) =~= before + line);
    if k < m {
        lemma_example_shown(raws, m, k);
        lemma_part_stays(before, line, "  e.g. "@ + first_line(raws[k]) + "\n"@);
    } else {
        lemma_has_part(before, line, Seq::empty());
        assert(before + line + Seq::<char>::empty() =~= before + line);
    }
}

/// A part stays when a text goes on.
proof fn lemma_part_stays(a: Seq<char>, b: Seq<char>, p: Seq<char>)
    requires
        has_part(a, p),
    ensures
        has_part(a + b, p),
{
    let i = choose|i: int| #[trigger] stands_at(a, p, i);
    assert((a + b).subrange(i, i + p.len()) =~= a.subrange(i, i + p.len()));
    assert(stands_at(a + b, p, i));
}

/// A part stays when a text stands before it.
proof fn lemma_part_stays_behind(a: Seq<char>, b: Seq<char>, p: Seq<char>)
    requires
        has_part(b, p),
    ensures
        has_part(a + b, p),
{
    let i = choose|i: int| #[trigger] stands_at(b, p, i);
    let j = a.len() + i;
    assert((a + b).subrange(j, j + p.len()) =~= b.subrange(i, i + p.len()));
    assert(stands_at(a + b, p, j));
}

} // verus!
