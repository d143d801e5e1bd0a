//! What the output of a Codex call says about how it ended.
use crate::collect::claude::{clip, clipped};
use crate::json::{Json, JsonView};
use crate::number::{i64_value, integers_read_back, parse_i64, signed_decimal};
use crate::text::{
    begins_with, chars_of, first_word, head_word, is_space, lines, opt_text,
    parts_stand_character_by_character, same, split_lines, starts_with, text_of, texts,
    the_first_word_comes_first,
};
use vstd::prelude::*;

verus! {

/// The number that follows a mark at the start of a line.
pub open spec fn code_after(line: Seq<char>, mark: Seq<char>) -> Option<i64> {
    if begins_with(line, mark) {
        i64_value(first_word(line.skip(mark.len() as int)))
    } else {
        None
    }
}

/// The exit code that a line reports, if it reports one.
pub open spec fn line_code(line: Seq<char>) -> Option<i64> {
    match code_after(line, "Process exited with code "@) {
        Some(c) => Some(c),
        None => match code_after(line, "Exit code: "@) {
            Some(c) => Some(c),
            None => code_after(line, "exit code: "@),
        },
    }
}

/// The first exit code that the lines from `i` on report, before what the command
/// itself printed.
pub open spec fn header_code(v: Seq<Seq<char>>, i: int) -> Option<i64>
    decreases v.len() - i,
{
    if i < 0 || i >= v.len() || v[i] == "Output:"@ {
        None
    } else {
        match line_code(v[i]) {
            Some(c) => Some(c),
            None => header_code(v, i + 1),
        }
    }
}

/// The exit code under `metadata`, if it is there.
pub open spec fn recorded_code(v: JsonView) -> Option<i64> {
    v.at("metadata"@).at("exit_code"@).integer()
}

/// The exit code that the output of a call reports; `value` is what its text reads
/// as. Older sessions keep it in an object, newer ones say it in the lines before
/// what the command printed.
pub open spec fn reported_code(output: JsonView, value: Option<JsonView>) -> Option<i64> {
    match output {
        JsonView::Text(t) => {
            let kept = match value {
                Some(v) => recorded_code(v),
                None => None,
            };
            match kept {
                Some(c) => Some(c),
                None => header_code(lines(t), 0),
            }
        },
        _ => recorded_code(output),
    }
}

/// Whether the output of a call reports a failure: an exit code other than zero.
pub open spec fn reports_failure(output: JsonView, value: Option<JsonView>) -> bool {
    match reported_code(output, value) {
        Some(c) => c != 0,
        None => false,
    }
}

/// What a failed command printed: the text kept beside the exit code, or the whole
/// output.
pub open spec fn failure_text(output: JsonView, value: Option<JsonView>) -> Option<Seq<char>> {
    let kept = match value {
        Some(v) => v.at("output"@).text(),
        None => None,
    };
    match output {
        JsonView::Text(t) => match kept {
            Some(s) => Some(clipped(s)),
            None => Some(clipped(t)),
        },
        _ => match output.at("output"@).text() {
            Some(s) => Some(clipped(s)),
            None => None,
        },
    }
}

/// What an optional value holds.
pub open spec fn opt_json(v: Option<Json>) -> Option<JsonView> {
    match v {
        Some(j) => Some(j@),
        None => None,
    }
}

/// Reads the number that follows a mark.
fn read_code(line: &str, mark: &str) -> (r: Option<i64>)
    ensures
        r == code_after(line@, mark@),
{
    if !starts_with(line, mark) {
        return None;
    }
    let c = chars_of(line);
    let m = chars_of(mark);
    let rest = text_of(&c, m.len(), c.len());
    assert(rest@ =~= line@.skip(mark@.len() as int));
    parse_i64(&chars_of(head_word(rest.as_str()).as_str()))
}

/// The exit code that a line reports, if it reports one.
pub fn code_in(line: &str) -> (r: Option<i64>)
    ensures
        r == line_code(line@),
{
    match read_code(line, "Process exited with code ") {
        Some(c) => Some(c),
        None => match read_code(line, "Exit code: ") {
            Some(c) => Some(c),
            None => read_code(line, "exit code: "),
        },
    }
}

/// The exit code that a text reports before what the command itself printed.
fn code_in_header(text: &str) -> (r: Option<i64>)
    ensures
        r == header_code(lines(text@), 0),
{
    let v = split_lines(text);
    let ghost lv = texts(v@);
    let mut i: usize = 0;
    while i < v.len()
        invariant
            i <= v@.len(),
            lv == texts(v@),
            lv == lines(text@),
            header_code(lv, 0) == header_code(lv, i as int),
        decreases v@.len() - i,
    {
        assert(lv[i as int] == v@[i as int]@);
        if same(v[i].as_str(), "Output:") {
            return None;
        }
        match code_in(v[i].as_str()) {
            Some(c) => return Some(c),
            None => {},
        }
        i += 1;
    }
    None
}

/// The exit code under `metadata`, if it is there.
fn code_in_object(v: &Json) -> (r: Option<i64>)
    ensures
        r == recorded_code(v@),
{
    v.get("metadata").get("exit_code").as_integer()
}

/// The exit code that the output of a call reports; `value` is what its text reads
/// as.
pub fn exit_code(output: &Json, value: &Option<Json>) -> (r: Option<i64>)
    ensures
        r == reported_code(output@, opt_json(*value)),
{
    match output {
        Json::Text(t) => {
            let kept = match value {
                Some(v) => code_in_object(v),
                None => None,
            };
            match kept {
                Some(c) => Some(c),
                None => code_in_header(t.as_str()),
            }
        },
        _ => code_in_object(output),
    }
}

/// What a failed command printed.
pub fn printed(output: &Json, value: &Option<Json>) -> (r: Option<String>)
    ensures
        opt_text(r) == failure_text(output@, opt_json(*value)),
{
    match output {
        Json::Text(t) => {
            let kept = match value {
                Some(v) => v.get("output").as_text(),
                None => None,
            };
            match kept {
                Some(s) => Some(clip(s.as_str())),
                None => Some(clip(t.as_str())),
            }
        },
        _ => match output.get("output").as_text() {
            Some(s) => Some(clip(s.as_str())),
            None => None,
        },
    }
}

// ---------------------------------------------------------------------------
// Which code is reported
// ---------------------------------------------------------------------------

/// A line that begins with one of three marks and a number tells the code of a command,
/// whatever follows the number behind white space.
pub proof fn a_marked_number_is_a_code(n: i64, rest: Seq<char>)
    requires
        rest.len() == 0 || is_space(rest[0]),
    ensures
        line_code("Process exited with code "@ + signed_decimal(n as int) + rest) == Some(n),
        line_code("Exit code: "@ + signed_decimal(n as int) + rest) == Some(n),
        line_code("exit code: "@ + signed_decimal(n as int) + rest) == Some(n),
{
    reveal_strlit("Process exited with code ");
    reveal_strlit("Exit code: ");
    reveal_strlit("exit code: ");
    lemma_code_after("Process exited with code "@, n, rest);
    lemma_code_after("Exit code: "@, n, rest);
    lemma_code_after("exit code: "@, n, rest);
    let b = "Exit code: "@ + signed_decimal(n as int) + rest;
    let c = "exit code: "@ + signed_decimal(n as int) + rest;
    parts_stand_character_by_character(b, "Process exited with code "@, 0);
    parts_stand_character_by_character(c, "Process exited with code "@, 0);
    parts_stand_character_by_character(c, "Exit code: "@, 0);
    assert(b[0] == 'E' && c[0] == 'e');
    if begins_with(b, "Process exited with code "@) {
        assert(b[0int + 0] == "Process exited with code "@[0]);
    }
    if begins_with(c, "Process exited with code "@) {
        assert(c[0int + 0] == "Process exited with code "@[0]);
    }
    if begins_with(c, "Exit code: "@) {
        assert(c[0int + 0] == "Exit code: "@[0]);
    }
}

/// A number behind a mark is read.
proof fn lemma_code_after(mark: Seq<char>, n: i64, rest: Seq<char>)
    requires
        rest.len() == 0 || is_space(rest[0]),
    ensures
        code_after(mark + signed_decimal(n as int) + rest, mark) == Some(n),
{
    let d = signed_decimal(n as int);
    let line = mark + d + rest;
    let e = Seq::<char>::empty();
    crate::collect::zsh::lemma_number_chars(n);
    assert forall|i: int| 0 <= i < d.len() implies !is_space(#[trigger] d[i]) by {
        assert(d[i] == '-' || '0' <= d[i] <= '9');
    }
    the_first_word_comes_first(e, d, rest);
    assert(e + d + rest =~= d + rest);
    assert(line.subrange(0, mark.len() as int) =~= mark);
    assert(line.skip(mark.len() as int) =~= d + rest);
    integers_read_back(n, e, 0);
}

/// The code of an output is that of its first line that tells one, before the line with
/// which the output itself begins.
pub proof fn the_first_code_before_the_output_counts(v: Seq<Seq<char>>)
    ensures
        match header_code(v, 0) {
            Some(c) => exists|i: int|
                0 <= i < v.len() && line_code(#[trigger] v[i]) == Some(c) && forall|j: int|
                    0 <= j <= i ==> #[trigger] v[j] != "Output:"@ && (j < i ==> line_code(v[j])
                        is None),
            None => forall|i: int|
                0 <= i < v.len() && line_code(#[trigger] v[i]) is Some ==> exists|j: int|
                    0 <= j <= i && #[trigger] v[j] == "Output:"@,
        },
{
    lemma_header_code(v, 0);
}

/// The code that is found from a line on.
proof fn lemma_header_code(v: Seq<Seq<char>>, from: int)
    requires
        0 <= from <= v.len(),
    ensures
        match header_code(v, from) {
            Some(c) => exists|i: int|
                from <= i < v.len() && line_code(#[trigger] v[i]) == Some(c) && forall|j: int|
                    from <= j <= i ==> #[trigger] v[j] != "Output:"@ && (j < i ==> line_code(v[j])
                        is None),
            None => forall|i: int|
                from <= i < v.len() && line_code(#[trigger] v[i]) is Some ==> exists|j: int|
                    from <= j <= i && #[trigger] v[j] == "Output:"@,
        },
    decreases v.len() - from,
{
    if from < v.len() {
        if v[from] == "Output:"@ {
            assert forall|i: int|
                from <= i < v.len() && line_code(#[trigger] v[i]) is Some implies exists|j: int|
                from <= j <= i && #[trigger] v[j] == "Output:"@ by {
                assert(v[from] == "Output:"@);
            }
        } else if line_code(v[from]) is None {
            lemma_header_code(v, from + 1);
            match header_code(v, from + 1) {
                Some(c) => {
                    let i = choose|i: int|
                        from + 1 <= i < v.len() && line_code(#[trigger] v[i]) == Some(c) && forall|
                            j: int,
                        |
                            from + 1 <= j <= i ==> #[trigger] v[j] != "Output:"@ && (j < i
                                ==> line_code(v[j]) is None);
                    assert(line_code(v[i]) == Some(c));
                },
                None => {
                    assert forall|i: int|
                        from <= i < v.len() && line_code(#[trigger] v[i]) is Some implies exists|
                        j: int,
                    |
                        from <= j <= i && #[trigger] v[j] == "Output:"@ by {
                        let j = choose|j: int|
                            from + 1 <= j <= i && #[trigger] v[j] == "Output:"@;
                        assert(v[j] == "Output:"@);
                    }
                },
            }
        } else {
            assert(line_code(v[from]) == header_code(v, from));
        }
    }
}

/// A command failed exactly when a code other than zero is reported of it: the one in
/// the data about the output, if there is one, or else the one in its first lines.
pub proof fn any_other_code_than_zero_is_a_failure(
    output: JsonView,
    value: Option<JsonView>,
    t: Seq<char>,
)
    ensures
        reports_failure(output, value) <==> reported_code(output, value) is Some && reported_code(
            output,
            value,
        )->0 != 0,
        value is Some && value->0.at("metadata"@).at("exit_code"@).integer() is Some
            ==> reported_code(JsonView::Text(t), value) == value->0.at("metadata"@).at(
            "exit_code"@,
        ).integer(),
        value is None ==> reported_code(JsonView::Text(t), value) == header_code(lines(t), 0),
        output.text() is None ==> reported_code(output, value) == output.at("metadata"@).at(
            "exit_code"@,
        ).integer(),
{
}

/// What a failed command printed is the text in the data about its output, if there is
/// one, and else the output itself where that is a text, clipped in either way.
pub proof fn what_was_printed_is_clipped(
    output: JsonView,
    value: Option<JsonView>,
    t: Seq<char>,
    s: Seq<char>,
)
    ensures
        value is Some && value->0.at("output"@) == JsonView::Text(s) ==> failure_text(
            JsonView::Text(t),
            value,
        ) == Some(clipped(s)),
        value is None ==> failure_text(JsonView::Text(t), value) == Some(clipped(t)),
        output.text() is None && output.at("output"@) == JsonView::Text(s) ==> failure_text(
            output,
            value,
        ) == Some(clipped(s)),
        output.text() is None && output.at("output"@).text() is None ==> failure_text(output, value)
            is None,
{
}

} // verus!
