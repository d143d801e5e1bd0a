//! The local dashboard: what a request asks for, the answer, and the data.
use crate::gain::{gains_view, total, total_of, Gain, GainView};
use crate::json::{quote, quoted};
use crate::mine::candidates::{key_list, read_list};
use crate::number::{decimal, signed_decimal, to_decimal, to_signed_decimal};
use crate::text::{
    begins_with, first_line, from_utf8, has_part, head_line, is_space, join, joined,
    lemma_has_part, lines_end_at_their_breaks, opt_text, same, split_whitespace, texts, words,
    words_stand_between_spaces,
};
use vstd::prelude::*;
use vstd::utf8::{decode_utf8, encode_utf8, valid_utf8};

verus! {

// ---------------------------------------------------------------------------
// Requests
// ---------------------------------------------------------------------------

/// The text of a request; empty if it is no UTF-8.
pub open spec fn request_text(b: Seq<u8>) -> Seq<char> {
    if valid_utf8(b) {
        decode_utf8(b)
    } else {
        Seq::empty()
    }
}

/// The path that a request asks for: the second word of its first line.
pub open spec fn requested_path(b: Seq<u8>) -> Seq<char> {
    let w = words(first_line(request_text(b)));
    if w.len() > 1 {
        w[1]
    } else {
        "/"@
    }
}

/// The path that a request asks for.
pub fn request_path(b: &[u8]) -> (r: String)
    ensures
        r@ == requested_path(b@),
{
    let text = match from_utf8(b) {
        Some(s) => s,
        None => {
            let e = String::new();
            assert(e@ =~= Seq::<char>::empty());
            e
        },
    };
    let w = split_whitespace(head_line(text.as_str()).as_str());
    assert(texts(w@).len() == w@.len());
    if w.len() > 1 {
        assert(texts(w@)[1] == w@[1]@);
        w[1].clone()
    } else {
        "/".to_owned()
    }
}

/// What is asked for.
#[derive(Clone, Copy, PartialEq, Eq, Debug, Structural)]
pub enum Route {
    Page,
    Data,
    Unknown,
}

/// What a path asks for.
pub open spec fn route_of(path: Seq<char>) -> Route {
    if path == "/"@ {
        Route::Page
    } else if path == "/api/data"@ {
        Route::Data
    } else {
        Route::Unknown
    }
}

/// What a path asks for.
pub fn route(path: &str) -> (r: Route)
    ensures
        r == route_of(path@),
{
    if same(path, "/") {
        Route::Page
    } else if same(path, "/api/data") {
        Route::Data
    } else {
        Route::Unknown
    }
}

// ---------------------------------------------------------------------------
// Answers
// ---------------------------------------------------------------------------

/// An answer: a header that gives the length of the body in bytes, and the body.
pub open spec fn answer(status: Seq<char>, kind: Seq<char>, body: Seq<char>) -> Seq<char> {
    "HTTP/1.1 "@ + status + "\r\nContent-Type: "@ + kind + "\r\nContent-Length: "@ + decimal(
        encode_utf8(body).len(),
    ) + "\r\nCache-Control: no-store\r\n\r\n"@ + body
}

/// Composes an answer.
fn compose(status: &str, kind: &str, body: &str) -> (r: String)
    ensures
        r@ == answer(status@, kind@, body@),
{
    let mut out = "HTTP/1.1 ".to_owned();
    out.append(status);
    out.append("\r\nContent-Type: ");
    out.append(kind);
    out.append("\r\nContent-Length: ");
    out.append(to_decimal(body.as_bytes().len() as u128).as_str());
    out.append("\r\nCache-Control: no-store\r\n\r\n");
    out.append(body);
    out
}

/// The page as an answer.
pub fn page_answer(page: &str) -> (r: String)
    ensures
        r@ == answer("200 OK"@, "text/html; charset=utf-8"@, page@),
{
    compose("200 OK", "text/html; charset=utf-8", page)
}

/// The data as an answer, or why they could not be gathered.
pub fn data_answer(data: &Result<String, String>) -> (r: String)
    ensures
        r@ == (match *data {
            Ok(body) => answer("200 OK"@, "application/json"@, body@),
            Err(e) => answer("500 Internal Server Error"@, "text/plain"@, e@),
        }),
{
    match data {
        Ok(body) => compose("200 OK", "application/json", body.as_str()),
        Err(e) => compose("500 Internal Server Error", "text/plain", e.as_str()),
    }
}

/// The answer to a path that is not known.
pub fn unknown_answer() -> (r: String)
    ensures
        r@ == answer("404 Not Found"@, "text/plain"@, "not found"@),
{
    compose("404 Not Found", "text/plain", "not found")
}

// ---------------------------------------------------------------------------
// The data
// ---------------------------------------------------------------------------

/// What a JSON member is: its name and its value.
pub open spec fn member(name: Seq<char>, value: Seq<char>) -> Seq<char> {
    "\""@ + name + "\":"@ + value
}

/// A name with a number, as two members of an object.
pub struct Count {
    pub name: String,
    pub n: i64,
}

/// A JSON object with the members `first` and `second`.
pub open spec fn object2(
    first: Seq<char>,
    a: Seq<char>,
    second: Seq<char>,
    b: Seq<char>,
) -> Seq<char> {
    "{"@ + member(first, a) + ","@ + member(second, b) + "}"@
}

/// The object of a day.
pub open spec fn day_object(c: Count) -> Seq<char> {
    object2("d"@, quoted(c.name@), "n"@, signed_decimal(c.n as int))
}

/// The object of a source.
pub open spec fn source_object(c: Count) -> Seq<char> {
    object2("n"@, signed_decimal(c.n as int), "name"@, quoted(c.name@))
}

/// The object of a template.
pub open spec fn template_object(c: Count) -> Seq<char> {
    object2("n"@, signed_decimal(c.n as int), "tpl"@, quoted(c.name@))
}

/// A pattern as the dashboard shows it. The score comes as the JSON text of a
/// number.
pub struct PatternRow {
    pub id: i64,
    pub kind: String,
    pub key: String,
    pub count: i64,
    pub score: String,
    pub decision: String,
    pub artifact: Option<String>,
}

/// The steps of a pattern as one text, given what its key reads as.
pub open spec fn chain_of(key: Seq<char>, read: Option<Seq<Seq<char>>>) -> Seq<char> {
    match read {
        Some(t) => joined(t, "  →  "@),
        None => key,
    }
}

/// The steps of a pattern as one text; its key, if that cannot be read.
pub fn chain(key: &str) -> (r: String)
    ensures
        r@ == chain_of(key@, read_list(key@)),
{
    match key_list(key) {
        Some(t) => join(&t, "  →  "),
        None => key.to_owned(),
    }
}

/// The JSON text of an optional text.
pub open spec fn quoted_or_null(s: Option<Seq<char>>) -> Seq<char> {
    match s {
        Some(t) => quoted(t),
        None => "null"@,
    }
}

/// The object of a pattern whose steps are `chain`.
pub open spec fn pattern_object(p: PatternRow, chain: Seq<char>) -> Seq<char> {
    "{"@ + member("artifact"@, quoted_or_null(opt_text(p.artifact))) + ","@ + member(
        "chain"@,
        quoted(chain),
    ) + ","@ + member("count"@, signed_decimal(p.count as int)) + ","@ + member(
        "decision"@,
        quoted(p.decision@),
    ) + ","@ + member("id"@, signed_decimal(p.id as int)) + ","@ + member("kind"@, quoted(p.kind@))
        + ","@ + member("score"@, p.score@) + "}"@
}

/// The object of an artifact.
pub open spec fn gain_object(g: GainView) -> Seq<char> {
    "{"@ + member("name"@, quoted(g.name)) + ","@ + member("saved"@, decimal(g.saved)) + ","@
        + member("steps"@, decimal(g.steps)) + ","@ + member("uses"@, decimal(g.uses)) + "}"@
}

/// Everything the dashboard shows.
pub struct Dashboard {
    pub commands: i64,
    pub prompts: i64,
    pub patterns_total: i64,
    pub accepted: i64,
    pub daily: Vec<Count>,
    pub gain: Vec<Gain>,
    pub patterns: Vec<PatternRow>,
    pub sources: Vec<Count>,
    pub top_templates: Vec<Count>,
}

/// The objects of days.
pub open spec fn day_objects(v: Seq<Count>) -> Seq<Seq<char>> {
    Seq::new(v.len(), |i: int| day_object(v[i]))
}

/// The objects of sources.
pub open spec fn source_objects(v: Seq<Count>) -> Seq<Seq<char>> {
    Seq::new(v.len(), |i: int| source_object(v[i]))
}

/// The objects of templates.
pub open spec fn template_objects(v: Seq<Count>) -> Seq<Seq<char>> {
    Seq::new(v.len(), |i: int| template_object(v[i]))
}

/// The objects of patterns.
pub open spec fn pattern_objects(v: Seq<PatternRow>) -> Seq<Seq<char>> {
    Seq::new(v.len(), |i: int| pattern_object(v[i], chain_of(v[i].key@, read_list(v[i].key@))))
}

/// The objects of artifacts.
pub open spec fn gain_objects(g: Seq<GainView>) -> Seq<Seq<char>> {
    Seq::new(g.len(), |i: int| gain_object(g[i]))
}

/// A JSON array.
pub open spec fn array(items: Seq<Seq<char>>) -> Seq<char> {
    "["@ + joined(items, ","@) + "]"@
}

/// The object of totals.
pub open spec fn totals_object(d: Dashboard) -> Seq<char> {
    let g = gains_view(d.gain@);
    "{"@ + member("accepted"@, signed_decimal(d.accepted as int)) + ","@ + member(
        "commands"@,
        signed_decimal(d.commands as int),
    ) + ","@ + member("patterns"@, signed_decimal(d.patterns_total as int)) + ","@ + member(
        "prompts"@,
        signed_decimal(d.prompts as int),
    ) + ","@ + member("steps_saved"@, decimal(total_of(g, g.len()))) + "}"@
}

/// The whole of the data as JSON.
pub open spec fn dashboard_json(d: Dashboard) -> Seq<char> {
    "{"@ + member("daily"@, array(day_objects(d.daily@))) + ","@ + member(
        "gain"@,
        array(gain_objects(gains_view(d.gain@))),
    ) + ","@ + member("patterns"@, array(pattern_objects(d.patterns@))) + ","@ + member(
        "sources"@,
        array(source_objects(d.sources@)),
    ) + ","@ + member("top_templates"@, array(template_objects(d.top_templates@))) + ","@ + member(
        "totals"@,
        totals_object(d),
    ) + "}"@
}

/// Adds a member.
fn add_member(out: &mut String, name: &str, value: &str)
    ensures
        final(out)@ == old(out)@ + member(name@, value@),
{
    let ghost start = out@;
    out.append("\"");
    out.append(name);
    out.append("\":");
    out.append(value);
    assert(out@ =~= start + member(name@, value@));
}

/// A JSON object of two members.
fn pair(first: &str, a: &str, second: &str, b: &str) -> (r: String)
    ensures
        r@ == object2(first@, a@, second@, b@),
{
    let mut out = "{".to_owned();
    add_member(&mut out, first, a);
    out.append(",");
    add_member(&mut out, second, b);
    out.append("}");
    out
}

/// A JSON array.
fn list(items: &Vec<String>) -> (r: String)
    ensures
        r@ == array(texts(items@)),
{
    let mut out = "[".to_owned();
    out.append(join(items, ",").as_str());
    out.append("]");
    out
}

/// The array of days.
fn days(v: &Vec<Count>) -> (r: String)
    ensures
        r@ == array(day_objects(v@)),
{
    let mut out: Vec<String> = Vec::new();
    let mut i: usize = 0;
    while i < v.len()
        invariant
            i <= v@.len(),
            out@.len() == i,
            forall|k: int| 0 <= k < i ==> (#[trigger] out@[k])@ == day_object(v@[k]),
        decreases v@.len() - i,
    {
        let name = quote(v[i].name.as_str());
        let n = to_signed_decimal(v[i].n);
        out.push(pair("d", name.as_str(), "n", n.as_str()));
        i += 1;
    }
    assert(texts(out@) =~= day_objects(v@));
    list(&out)
}

/// The array of sources.
fn sources(v: &Vec<Count>) -> (r: String)
    ensures
        r@ == array(source_objects(v@)),
{
    let mut out: Vec<String> = Vec::new();
    let mut i: usize = 0;
    while i < v.len()
        invariant
            i <= v@.len(),
            out@.len() == i,
            forall|k: int| 0 <= k < i ==> (#[trigger] out@[k])@ == source_object(v@[k]),
        decreases v@.len() - i,
    {
        let name = quote(v[i].name.as_str());
        let n = to_signed_decimal(v[i].n);
        out.push(pair("n", n.as_str(), "name", name.as_str()));
        i += 1;
    }
    assert(texts(out@) =~= source_objects(v@));
    list(&out)
}

/// The array of templates.
fn templates(v: &Vec<Count>) -> (r: String)
    ensures
        r@ == array(template_objects(v@)),
{
    let mut out: Vec<String> = Vec::new();
    let mut i: usize = 0;
    while i < v.len()
        invariant
            i <= v@.len(),
            out@.len() == i,
            forall|k: int| 0 <= k < i ==> (#[trigger] out@[k])@ == template_object(v@[k]),
        decreases v@.len() - i,
    {
        let name = quote(v[i].name.as_str());
        let n = to_signed_decimal(v[i].n);
        out.push(pair("n", n.as_str(), "tpl", name.as_str()));
        i += 1;
    }
    assert(texts(out@) =~= template_objects(v@));
    list(&out)
}

/// The object of a pattern whose steps are `chain`.
pub fn pattern_json(p: &PatternRow, chain: &str) -> (r: String)
    ensures
        r@ == pattern_object(*p, chain@),
{
    let artifact = match &p.artifact {
        Some(a) => quote(a.as_str()),
        None => "null".to_owned(),
    };
    let mut out = "{".to_owned();
    add_member(&mut out, "artifact", artifact.as_str());
    out.append(",");
    add_member(&mut out, "chain", quote(chain).as_str());
    out.append(",");
    add_member(&mut out, "count", to_signed_decimal(p.count).as_str());
    out.append(",");
    add_member(&mut out, "decision", quote(p.decision.as_str()).as_str());
    out.append(",");
    add_member(&mut out, "id", to_signed_decimal(p.id).as_str());
    out.append(",");
    add_member(&mut out, "kind", quote(p.kind.as_str()).as_str());
    out.append(",");
    add_member(&mut out, "score", p.score.as_str());
    out.append("}");
    out
}

/// The array of patterns.
fn patterns(v: &Vec<PatternRow>) -> (r: String)
    ensures
        r@ == array(pattern_objects(v@)),
{
    let mut out: Vec<String> = Vec::new();
    let mut i: usize = 0;
    while i < v.len()
        invariant
            i <= v@.len(),
            out@.len() == i,
            forall|k: int|
                0 <= k < i ==> (#[trigger] out@[k])@ == pattern_object(
                    v@[k],
                    chain_of(v@[k].key@, read_list(v@[k].key@)),
                ),
        decreases v@.len() - i,
    {
        let steps = chain(v[i].key.as_str());
        out.push(pattern_json(&v[i], steps.as_str()));
        i += 1;
    }
    assert(texts(out@) =~= pattern_objects(v@));
    list(&out)
}

/// The object of an artifact.
pub fn gain_json(g: &Gain) -> (r: String)
    ensures
        r@ == gain_object(g@),
{
    let mut out = "{".to_owned();
    add_member(&mut out, "name", quote(g.name.as_str()).as_str());
    out.append(",");
    add_member(&mut out, "saved", to_decimal(g.saved).as_str());
    out.append(",");
    add_member(&mut out, "steps", to_decimal(g.steps as u128).as_str());
    out.append(",");
    add_member(&mut out, "uses", to_decimal(g.uses as u128).as_str());
    out.append("}");
    out
}

/// The array of artifacts.
fn gains(v: &Vec<Gain>) -> (r: String)
    ensures
        r@ == array(gain_objects(gains_view(v@))),
{
    let ghost gv = gains_view(v@);
    let mut out: Vec<String> = Vec::new();
    let mut i: usize = 0;
    while i < v.len()
        invariant
            i <= v@.len(),
            gv == gains_view(v@),
            out@.len() == i,
            forall|k: int| 0 <= k < i ==> (#[trigger] out@[k])@ == gain_object(gv[k]),
        decreases v@.len() - i,
    {
        assert(gv[i as int] == v@[i as int]@);
        out.push(gain_json(&v[i]));
        i += 1;
    }
    assert(texts(out@) =~= gain_objects(gv));
    list(&out)
}

/// The object of totals.
fn totals(d: &Dashboard) -> (r: String)
    ensures
        r@ == totals_object(*d),
{
    let mut out = "{".to_owned();
    add_member(&mut out, "accepted", to_signed_decimal(d.accepted).as_str());
    out.append(",");
    add_member(&mut out, "commands", to_signed_decimal(d.commands).as_str());
    out.append(",");
    add_member(&mut out, "patterns", to_signed_decimal(d.patterns_total).as_str());
    out.append(",");
    add_member(&mut out, "prompts", to_signed_decimal(d.prompts).as_str());
    out.append(",");
    add_member(&mut out, "steps_saved", to_decimal(total(&d.gain)).as_str());
    out.append("}");
    assert(gains_view(d.gain@).len() == d.gain@.len());
    out
}

/// The whole of the data as JSON.
pub fn data(d: &Dashboard) -> (r: String)
    ensures
        r@ == dashboard_json(*d),
{
    let mut out = "{".to_owned();
    add_member(&mut out, "daily", days(&d.daily).as_str());
    out.append(",");
    add_member(&mut out, "gain", gains(&d.gain).as_str());
    out.append(",");
    add_member(&mut out, "patterns", patterns(&d.patterns).as_str());
    out.append(",");
    add_member(&mut out, "sources", sources(&d.sources).as_str());
    out.append(",");
    add_member(&mut out, "top_templates", templates(&d.top_templates).as_str());
    out.append(",");
    add_member(&mut out, "totals", totals(d).as_str());
    out.append("}");
    out
}

/// The path that is asked for is the second word of the first line of a request.
pub proof fn the_second_word_is_the_path(
    b: Seq<u8>,
    method: Seq<char>,
    path: Seq<char>,
    version: Seq<char>,
    rest: Seq<char>,
)
    requires
        method.len() > 0,
        path.len() > 0,
        forall|i: int| 0 <= i < method.len() ==> !is_space(#[trigger] method[i]),
        forall|i: int| 0 <= i < path.len() ==> !is_space(#[trigger] path[i]),
        forall|i: int| 0 <= i < version.len() ==> #[trigger] version[i] != '\n',
        request_text(b) == (method + seq![' '] + path + seq![' '] + version).push('\n') + rest,
    ensures
        requested_path(b) == path,
{
    let line = method + seq![' '] + path + seq![' '] + version;
    assert forall|i: int| 0 <= i < line.len() implies #[trigger] line[i] != '\n' by {
        let (m, p) = (method.len() as int, path.len() as int);
        if i < m {
            assert(line[i] == method[i]);
        } else if m < i < m + 1 + p {
            assert(line[i] == path[i - m - 1]);
        } else if i > m + 1 + p {
            assert(line[i] == version[i - m - p - 2]);
        }
    }
    lines_end_at_their_breaks(line, rest);
    let tail = seq![' '] + version;
    let head = method + seq![' '] + path;
    let kept = if line.last() == '\r' {
        line.drop_last()
    } else {
        line
    };
    let cut = if line.last() == '\r' {
        tail.drop_last()
    } else {
        tail
    };
    assert(tail.last() == line.last());
    assert(kept =~= method + (seq![' '] + path + cut));
    let second = seq![' '] + path + cut;
    words_stand_between_spaces(method, second, method);
    let space = seq![' '];
    assert(second =~= space + (path + cut));
    words_stand_between_spaces(space, path + cut, path);
    assert(is_space(space.last()));
    assert forall|i: int| 0 <= i < space.len() implies is_space(#[trigger] space[i]) by {}
    assert(words(space).len() == 0);
    assert(words(second) =~= words(path + cut));
    if cut.len() > 0 {
        assert(cut[0] == ' ');
        words_stand_between_spaces(space, cut, path);
    } else {
        assert(path + cut =~= path);
    }
    assert(words(path + cut)[0] == path);
    assert(words(kept)[1] == path);
}

/// An answer tells the length of its body in bytes, and the body comes last.
pub proof fn an_answer_tells_the_length_of_its_body(
    status: Seq<char>,
    kind: Seq<char>,
    body: Seq<char>,
)
    ensures
        has_part(
            answer(status, kind, body),
            "Content-Length: "@ + decimal(encode_utf8(body).len()) + "\r\n"@,
        ),
        body.is_suffix_of(answer(status, kind, body)),
        begins_with(answer(status, kind, body), "HTTP/1.1 "@ + status + "\r\n"@),
{
    reveal_strlit("\r\nContent-Type: ");
    reveal_strlit("Content-Type: ");
    reveal_strlit("\r\nContent-Length: ");
    reveal_strlit("Content-Length: ");
    reveal_strlit("\r\nCache-Control: no-store\r\n\r\n");
    reveal_strlit("Cache-Control: no-store\r\n\r\n");
    reveal_strlit("\r\n");
    let n = decimal(encode_utf8(body).len());
    let a = answer(status, kind, body);
    let first = "HTTP/1.1 "@ + status + "\r\n"@;
    let type_line = "Content-Type: "@ + kind + "\r\n"@;
    let length = "Content-Length: "@ + n + "\r\n"@;
    let rest = "Cache-Control: no-store\r\n\r\n"@ + body;
    assert(a =~= first + type_line + length + rest);
    lemma_has_part(first + type_line, length, rest);
    assert(a.subrange(0, first.len() as int) =~= first);
    assert(a.subrange(a.len() - body.len(), a.len() as int) =~= body);
}

/// What is told of a pattern holds each thing that is known of it, under its name.
#[verifier::rlimit(60)]
pub proof fn a_pattern_is_told_with_all_that_is_known(p: PatternRow, chain: Seq<char>)
    ensures
        has_part(pattern_object(p, chain), "\"artifact\":"@ + quoted_or_null(opt_text(p.artifact))),
        has_part(pattern_object(p, chain), "\"chain\":"@ + quoted(chain)),
        has_part(pattern_object(p, chain), "\"count\":"@ + signed_decimal(p.count as int)),
        has_part(pattern_object(p, chain), "\"decision\":"@ + quoted(p.decision@)),
        has_part(pattern_object(p, chain), "\"id\":"@ + signed_decimal(p.id as int)),
        has_part(pattern_object(p, chain), "\"kind\":"@ + quoted(p.kind@)),
        has_part(pattern_object(p, chain), "\"score\":"@ + p.score@),
{
    reveal_strlit("\"");
    reveal_strlit("\":");
    let m0 = member("artifact"@, quoted_or_null(opt_text(p.artifact)));
    reveal_strlit("artifact");
    reveal_strlit("\"artifact\":");
    assert(m0 =~= "\"artifact\":"@ + quoted_or_null(opt_text(p.artifact)));
    let m1 = member("chain"@, quoted(chain));
    reveal_strlit("chain");
    reveal_strlit("\"chain\":");
    assert(m1 =~= "\"chain\":"@ + quoted(chain));
    let m2 = member("count"@, signed_decimal(p.count as int));
    reveal_strlit("count");
    reveal_strlit("\"count\":");
    assert(m2 =~= "\"count\":"@ + signed_decimal(p.count as int));
    let m3 = member("decision"@, quoted(p.decision@));
    reveal_strlit("decision");
    reveal_strlit("\"decision\":");
    assert(m3 =~= "\"decision\":"@ + quoted(p.decision@));
    let m4 = member("id"@, signed_decimal(p.id as int));
    reveal_strlit("id");
    reveal_strlit("\"id\":");
    assert(m4 =~= "\"id\":"@ + signed_decimal(p.id as int));
    let m5 = member("kind"@, quoted(p.kind@));
    reveal_strlit("kind");
    reveal_strlit("\"kind\":");
    assert(m5 =~= "\"kind\":"@ + quoted(p.kind@));
    let m6 = member("score"@, p.score@);
    reveal_strlit("score");
    reveal_strlit("\"score\":");
    assert(m6 =~= "\"score\":"@ + p.score@);
    lemma_has_part("{"@, m0, ","@ + m1 + ","@ + m2 + ","@ + m3 + ","@ + m4 + ","@ + m5 + ","@ + m6 + "}"@);
    assert(pattern_object(p, chain) =~= "{"@ + m0 + (","@ + m1 + ","@ + m2 + ","@ + m3 + ","@ + m4 + ","@ + m5 + ","@ + m6 + "}"@));
    lemma_has_part("{"@ + m0 + ","@, m1, ","@ + m2 + ","@ + m3 + ","@ + m4 + ","@ + m5 + ","@ + m6 + "}"@);
    assert(pattern_object(p, chain) =~= "{"@ + m0 + ","@ + m1 + (","@ + m2 + ","@ + m3 + ","@ + m4 + ","@ + m5 + ","@ + m6 + "}"@));
    lemma_has_part("{"@ + m0 + ","@ + m1 + ","@, m2, ","@ + m3 + ","@ + m4 + ","@ + m5 + ","@ + m6 + "}"@);
    assert(pattern_object(p, chain) =~= "{"@ + m0 + ","@ + m1 + ","@ + m2 + (","@ + m3 + ","@ + m4 + ","@ + m5 + ","@ + m6 + "}"@));
    lemma_has_part("{"@ + m0 + ","@ + m1 + ","@ + m2 + ","@, m3, ","@ + m4 + ","@ + m5 + ","@ + m6 + "}"@);
    assert(pattern_object(p, chain) =~= "{"@ + m0 + ","@ + m1 + ","@ + m2 + ","@ + m3 + (","@ + m4 + ","@ + m5 + ","@ + m6 + "}"@));
    lemma_has_part("{"@ + m0 + ","@ + m1 + ","@ + m2 + ","@ + m3 + ","@, m4, ","@ + m5 + ","@ + m6 + "}"@);
    assert(pattern_object(p, chain) =~= "{"@ + m0 + ","@ + m1 + ","@ + m2 + ","@ + m3 + ","@ + m4 + (","@ + m5 + ","@ + m6 + "}"@));
    lemma_has_part("{"@ + m0 + ","@ + m1 + ","@ + m2 + ","@ + m3 + ","@ + m4 + ","@, m5, ","@ + m6 + "}"@);
    assert(pattern_object(p, chain) =~= "{"@ + m0 + ","@ + m1 + ","@ + m2 + ","@ + m3 + ","@ + m4 + ","@ + m5 + (","@ + m6 + "}"@));
    lemma_has_part("{"@ + m0 + ","@ + m1 + ","@ + m2 + ","@ + m3 + ","@ + m4 + ","@ + m5 + ","@, m6, "}"@);
    assert(pattern_object(p, chain) =~= "{"@ + m0 + ","@ + m1 + ","@ + m2 + ","@ + m3 + ","@ + m4 + ","@ + m5 + ","@ + m6 + ("}"@));
}

/// What is told of an automation holds its name, its uses, its steps and what it saved.
#[verifier::rlimit(60)]
pub proof fn a_gain_is_told_with_its_counts(g: GainView)
    ensures
        has_part(gain_object(g), "\"name\":"@ + quoted(g.name)),
        has_part(gain_object(g), "\"saved\":"@ + decimal(g.saved)),
        has_part(gain_object(g), "\"steps\":"@ + decimal(g.steps)),
        has_part(gain_object(g), "\"uses\":"@ + decimal(g.uses)),
{
    reveal_strlit("\"");
    reveal_strlit("\":");
    let m0 = member("name"@, quoted(g.name));
    reveal_strlit("name");
    reveal_strlit("\"name\":");
    assert(m0 =~= "\"name\":"@ + quoted(g.name));
    let m1 = member("saved"@, decimal(g.saved));
    reveal_strlit("saved");
    reveal_strlit("\"saved\":");
    assert(m1 =~= "\"saved\":"@ + decimal(g.saved));
    let m2 = member("steps"@, decimal(g.steps));
    reveal_strlit("steps");
    reveal_strlit("\"steps\":");
    assert(m2 =~= "\"steps\":"@ + decimal(g.steps));
    let m3 = member("uses"@, decimal(g.uses));
    reveal_strlit("uses");
    reveal_strlit("\"uses\":");
    assert(m3 =~= "\"uses\":"@ + decimal(g.uses));
    lemma_has_part("{"@, m0, ","@ + m1 + ","@ + m2 + ","@ + m3 + "}"@);
    assert(gain_object(g) =~= "{"@ + m0 + (","@ + m1 + ","@ + m2 + ","@ + m3 + "}"@));
    lemma_has_part("{"@ + m0 + ","@, m1, ","@ + m2 + ","@ + m3 + "}"@);
    assert(gain_object(g) =~= "{"@ + m0 + ","@ + m1 + (","@ + m2 + ","@ + m3 + "}"@));
    lemma_has_part("{"@ + m0 + ","@ + m1 + ","@, m2, ","@ + m3 + "}"@);
    assert(gain_object(g) =~= "{"@ + m0 + ","@ + m1 + ","@ + m2 + (","@ + m3 + "}"@));
    lemma_has_part("{"@ + m0 + ","@ + m1 + ","@ + m2 + ","@, m3, "}"@);
    assert(gain_object(g) =~= "{"@ + m0 + ","@ + m1 + ","@ + m2 + ","@ + m3 + ("}"@));
}

/// The totals hold each count under its name.
#[verifier::rlimit(60)]
pub proof fn the_totals_are_told_by_name(d: Dashboard)
    ensures
        has_part(totals_object(d), "\"accepted\":"@ + signed_decimal(d.accepted as int)),
        has_part(totals_object(d), "\"commands\":"@ + signed_decimal(d.commands as int)),
        has_part(totals_object(d), "\"patterns\":"@ + signed_decimal(d.patterns_total as int)),
        has_part(totals_object(d), "\"prompts\":"@ + signed_decimal(d.prompts as int)),
        has_part(totals_object(d), "\"steps_saved\":"@ + decimal(total_of(gains_view(d.gain@), d.gain@.len()))),
{
    reveal_strlit("\"");
    reveal_strlit("\":");
    let m0 = member("accepted"@, signed_decimal(d.accepted as int));
    reveal_strlit("accepted");
    reveal_strlit("\"accepted\":");
    assert(m0 =~= "\"accepted\":"@ + signed_decimal(d.accepted as int));
    let m1 = member("commands"@, signed_decimal(d.commands as int));
    reveal_strlit("commands");
    reveal_strlit("\"commands\":");
    assert(m1 =~= "\"commands\":"@ + signed_decimal(d.commands as int));
    let m2 = member("patterns"@, signed_decimal(d.patterns_total as int));
    reveal_strlit("patterns");
    reveal_strlit("\"patterns\":");
    assert(m2 =~= "\"patterns\":"@ + signed_decimal(d.patterns_total as int));
    let m3 = member("prompts"@, signed_decimal(d.prompts as int));
    reveal_strlit("prompts");
    reveal_strlit("\"prompts\":");
    assert(m3 =~= "\"prompts\":"@ + signed_decimal(d.prompts as int));
    let m4 = member("steps_saved"@, decimal(total_of(gains_view(d.gain@), d.gain@.len())));
    reveal_strlit("steps_saved");
    reveal_strlit("\"steps_saved\":");
    assert(m4 =~= "\"steps_saved\":"@ + decimal(total_of(gains_view(d.gain@), d.gain@.len())));
    lemma_has_part("{"@, m0, ","@ + m1 + ","@ + m2 + ","@ + m3 + ","@ + m4 + "}"@);
    assert(totals_object(d) =~= "{"@ + m0 + (","@ + m1 + ","@ + m2 + ","@ + m3 + ","@ + m4 + "}"@));
    lemma_has_part("{"@ + m0 + ","@, m1, ","@ + m2 + ","@ + m3 + ","@ + m4 + "}"@);
    assert(totals_object(d) =~= "{"@ + m0 + ","@ + m1 + (","@ + m2 + ","@ + m3 + ","@ + m4 + "}"@));
    lemma_has_part("{"@ + m0 + ","@ + m1 + ","@, m2, ","@ + m3 + ","@ + m4 + "}"@);
    assert(totals_object(d) =~= "{"@ + m0 + ","@ + m1 + ","@ + m2 + (","@ + m3 + ","@ + m4 + "}"@));
    lemma_has_part("{"@ + m0 + ","@ + m1 + ","@ + m2 + ","@, m3, ","@ + m4 + "}"@);
    assert(totals_object(d) =~= "{"@ + m0 + ","@ + m1 + ","@ + m2 + ","@ + m3 + (","@ + m4 + "}"@));
    lemma_has_part("{"@ + m0 + ","@ + m1 + ","@ + m2 + ","@ + m3 + ","@, m4, "}"@);
    assert(totals_object(d) =~= "{"@ + m0 + ","@ + m1 + ","@ + m2 + ","@ + m3 + ","@ + m4 + ("}"@));
}

/// What is told of a pattern's steps is all of them, in order, and where they cannot be
/// read the stored text.
pub proof fn steps_are_told_in_order(key: Seq<char>, a: Seq<Seq<char>>, b: Seq<Seq<char>>)
    ensures
        a.len() > 0 && b.len() > 0 ==> chain_of(key, Some(a + b)) == chain_of(key, Some(a))
            + "  →  "@ + chain_of(key, Some(b)),
        a.len() == 1 ==> chain_of(key, Some(a)) == a[0],
        chain_of(key, None) == key,
{
    crate::text::joining_puts_the_separator_between(a, b, key, "  →  "@);
}

} // verus!
