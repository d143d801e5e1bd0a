//! JSON values as plain data.
use crate::text::{opt_text, same};
use vstd::prelude::*;

verus! {

// ---------------------------------------------------------------------------
// The parser
// ---------------------------------------------------------------------------

/// The value that `serde_json` parses text into.
#[verifier::external_type_specification]
#[verifier::external_body]
pub struct ExValue(serde_json::Value);

/// A JSON value. Of a number only the integer is kept, if it is one of 64 bits.
pub enum JsonView {
    Null,
    Bool(bool),
    Number(Option<i64>),
    Text(Seq<char>),
    List(Seq<JsonView>),
    Members(Seq<(Seq<char>, JsonView)>),
}

/// What a parsed value holds.
pub uninterp spec fn contents(v: serde_json::Value) -> JsonView;

/// What `serde_json` reads from a text, if it is JSON.
pub uninterp spec fn parsed(text: Seq<char>) -> Option<JsonView>;

/// One level of a parsed value.
pub enum Node {
    Null,
    Bool(bool),
    Number(Option<i64>),
    Text(String),
    List(Vec<serde_json::Value>),
    Members(Vec<(String, serde_json::Value)>),
}

/// `serde_json::from_str` to a `Value`. Whether a text is JSON and what it holds
/// depends on the text alone.
#[verifier::external_body]
fn from_str(text: &str) -> (r: Option<serde_json::Value>)
    ensures
        (match r {
            Some(v) => Some(contents(v)),
            None => None,
        }) == parsed(text@),
{
    serde_json::from_str::<serde_json::Value>(text).ok()
}

/// The variants of `serde_json::Value`, with the members of an object in the
/// order in which `serde_json::Map` hands them out and of a number what
/// `Number::as_i64` gives: the integer, where it is one of 64 bits with sign.
#[verifier::external_body]
fn open_value(v: serde_json::Value) -> (r: Node)
    ensures
        match r {
            Node::Null => contents(v) == JsonView::Null,
            Node::Bool(b) => contents(v) == JsonView::Bool(b),
            Node::Number(n) => contents(v) == JsonView::Number(n),
            Node::Text(s) => contents(v) == JsonView::Text(s@),
            Node::List(items) => contents(v) == JsonView::List(
                Seq::new(items@.len(), |i: int| contents(items@[i])),
            ),
            Node::Members(m) => contents(v) == JsonView::Members(
                Seq::new(m@.len(), |i: int| (m@[i].0@, contents(m@[i].1))),
            ),
        },
{
    match v {
        serde_json::Value::Null => Node::Null,
        serde_json::Value::Bool(b) => Node::Bool(b),
        serde_json::Value::Number(n) => Node::Number(n.as_i64()),
        serde_json::Value::String(s) => Node::Text(s),
        serde_json::Value::Array(items) => Node::List(items),
        serde_json::Value::Object(m) => Node::Members(m.into_iter().collect()),
    }
}

// ---------------------------------------------------------------------------
// The writer
// ---------------------------------------------------------------------------

/// How a character stands in a JSON string.
pub open spec fn escaped_char(c: char) -> Seq<char> {
    if c == '"' {
        seq!['\\', '"']
    } else if c == '\\' {
        seq!['\\', '\\']
    } else if c == '\u{8}' {
        seq!['\\', 'b']
    } else if c == '\t' {
        seq!['\\', 't']
    } else if c == '\n' {
        seq!['\\', 'n']
    } else if c == '\u{c}' {
        seq!['\\', 'f']
    } else if c == '\r' {
        seq!['\\', 'r']
    } else if (c as int) < 0x20 {
        seq!['\\', 'u', '0', '0', hex_digit(c as int / 16), hex_digit(c as int % 16)]
    } else {
        seq![c]
    }
}

/// A hexadecimal digit.
pub open spec fn hex_digit(n: int) -> char {
    if n < 10 {
        (n + '0' as int) as char
    } else {
        (n - 10 + 'a' as int) as char
    }
}

/// How a text stands in a JSON string.
pub open spec fn escaped(s: Seq<char>) -> Seq<char>
    decreases s.len(),
{
    if s.len() == 0 {
        Seq::empty()
    } else {
        escaped(s.drop_last()) + escaped_char(s.last())
    }
}

/// The JSON string of a text.
pub open spec fn quoted(s: Seq<char>) -> Seq<char> {
    seq!['"'] + escaped(s) + seq!['"']
}

/// `serde_json::to_string` on a text: the text between quotation marks, with
/// quotation marks, backslashes and control characters escaped. The conversion of
/// a text does not fail.
#[verifier::external_body]
pub(crate) fn quote(s: &str) -> (r: String)
    ensures
        r@ == quoted(s@),
{
    serde_json::to_string(s).unwrap_or_default()
}

// ---------------------------------------------------------------------------
// Plain values
// ---------------------------------------------------------------------------

/// A JSON value.
pub enum Json {
    Null,
    Bool(bool),
    Number(Option<i64>),
    Text(String),
    List(Vec<Json>),
    Members(Vec<(String, Json)>),
}

/// What a JSON value holds.
pub open spec fn json_view(v: Json) -> JsonView
    decreases v,
{
    match v {
        Json::Null => JsonView::Null,
        Json::Bool(b) => JsonView::Bool(b),
        Json::Number(n) => JsonView::Number(n),
        Json::Text(s) => JsonView::Text(s@),
        Json::List(items) => JsonView::List(list_view(items@)),
        Json::Members(m) => JsonView::Members(members_view(m@)),
    }
}

/// What a list of JSON values holds.
pub open spec fn list_view(v: Seq<Json>) -> Seq<JsonView>
    decreases v,
{
    if v.len() == 0 {
        Seq::empty()
    } else {
        list_view(v.drop_last()).push(json_view(v.last()))
    }
}

/// What a list of members holds.
pub open spec fn members_view(v: Seq<(String, Json)>) -> Seq<(Seq<char>, JsonView)>
    decreases v,
{
    if v.len() == 0 {
        Seq::empty()
    } else {
        members_view(v.drop_last()).push((v.last().0@, json_view(v.last().1)))
    }
}

impl View for Json {
    type V = JsonView;

    open spec fn view(&self) -> JsonView {
        json_view(*self)
    }
}

/// The elements of a list, one by one.
pub proof fn lemma_list_view(v: Seq<Json>)
    ensures
        list_view(v).len() == v.len(),
        forall|i: int| 0 <= i < v.len() ==> #[trigger] list_view(v)[i] == json_view(v[i]),
    decreases v.len(),
{
    if v.len() > 0 {
        lemma_list_view(v.drop_last());
    }
}

/// The members of an object, one by one.
pub proof fn lemma_members_view(v: Seq<(String, Json)>)
    ensures
        members_view(v).len() == v.len(),
        forall|i: int|
            0 <= i < v.len() ==> #[trigger] members_view(v)[i] == (v[i].0@, json_view(v[i].1)),
    decreases v.len(),
{
    if v.len() > 0 {
        lemma_members_view(v.drop_last());
    }
}

/// Turns a parsed value into plain data.
fn convert(v: serde_json::Value) -> (r: Json)
    ensures
        r@ == contents(v),
    decreases contents(v),
{
    let ghost whole = contents(v);
    match open_value(v) {
        Node::Null => Json::Null,
        Node::Bool(b) => Json::Bool(b),
        Node::Number(n) => Json::Number(n),
        Node::Text(s) => Json::Text(s),
        Node::List(items) => {
            let mut items = items;
            let ghost given = items@;
            let ghost n = given.len();
            let ghost inner = Seq::new(n, |i: int| contents(given[i]));
            let mut back: Vec<Json> = Vec::new();
            assert(whole == JsonView::List(inner));
            while items.len() > 0
                invariant
                    n == given.len(),
                    items@.len() <= n,
                    items@ == given.take(items@.len() as int),
                    back@.len() == n - items@.len(),
                    inner == Seq::new(n, |i: int| contents(given[i])),
                    whole == JsonView::List(inner),
                    whole == contents(v),
                    forall|k: int|
                        0 <= k < back@.len() ==> json_view(#[trigger] back@[k]) == inner[n - 1 - k],
                decreases items@.len(),
            {
                let ghost at = items@.len() - 1;
                match items.pop() {
                    Some(x) => {
                        assert(x == given[at]);
                        assert(inner[at] == contents(x));
                        assert(decreases_to!(whole => whole->List_0));
                        assert(decreases_to!(inner => inner[at]));
                        back.push(convert(x));
                        assert(items@ =~= given.take(items@.len() as int));
                    },
                    None => {},
                }
            }
            let mut out: Vec<Json> = Vec::new();
            while back.len() > 0
                invariant
                    inner.len() == n,
                    back@.len() <= n,
                    out@.len() == n - back@.len(),
                    forall|k: int|
                        0 <= k < back@.len() ==> json_view(#[trigger] back@[k]) == inner[n - 1 - k],
                    forall|k: int|
                        0 <= k < out@.len() ==> json_view(#[trigger] out@[k]) == inner[k],
                decreases back@.len(),
            {
                let ghost last = back@[back@.len() - 1];
                match back.pop() {
                    Some(x) => {
                        assert(x == last);
                        out.push(x);
                    },
                    None => {},
                }
            }
            proof {
                lemma_list_view(out@);
                assert(list_view(out@) =~= inner);
            }
            Json::List(out)
        },
        Node::Members(m) => {
            let mut m = m;
            let ghost given = m@;
            let ghost n = given.len();
            let ghost inner = Seq::new(n, |i: int| (given[i].0@, contents(given[i].1)));
            let mut back: Vec<(String, Json)> = Vec::new();
            assert(whole == JsonView::Members(inner));
            while m.len() > 0
                invariant
                    n == given.len(),
                    m@.len() <= n,
                    m@ == given.take(m@.len() as int),
                    back@.len() == n - m@.len(),
                    inner == Seq::new(n, |i: int| (given[i].0@, contents(given[i].1))),
                    whole == JsonView::Members(inner),
                    whole == contents(v),
                    forall|k: int|
                        0 <= k < back@.len() ==> ((#[trigger] back@[k]).0@, json_view(back@[k].1))
                            == inner[n - 1 - k],
                decreases m@.len(),
            {
                let ghost at = m@.len() - 1;
                match m.pop() {
                    Some((key, x)) => {
                        assert((key, x) == given[at]);
                        assert(inner[at] == (key@, contents(x)));
                        assert(decreases_to!(whole => whole->Members_0));
                        assert(decreases_to!(inner => inner[at]));
                        assert(decreases_to!(inner[at] => inner[at].1));
                        back.push((key, convert(x)));
                        assert(m@ =~= given.take(m@.len() as int));
                    },
                    None => {},
                }
            }
            let mut out: Vec<(String, Json)> = Vec::new();
            while back.len() > 0
                invariant
                    inner.len() == n,
                    back@.len() <= n,
                    out@.len() == n - back@.len(),
                    forall|k: int|
                        0 <= k < back@.len() ==> ((#[trigger] back@[k]).0@, json_view(back@[k].1))
                            == inner[n - 1 - k],
                    forall|k: int|
                        0 <= k < out@.len() ==> ((#[trigger] out@[k]).0@, json_view(out@[k].1))
                            == inner[k],
                decreases back@.len(),
            {
                let ghost last = back@[back@.len() - 1];
                match back.pop() {
                    Some(x) => {
                        assert(x == last);
                        out.push(x);
                    },
                    None => {},
                }
            }
            proof {
                lemma_members_view(out@);
                assert(members_view(out@) =~= inner);
            }
            Json::Members(out)
        },
    }
}

/// Reads JSON.
pub fn parse(text: &str) -> (r: Option<Json>)
    ensures
        (match r {
            Some(v) => Some(v@),
            None => None,
        }) == parsed(text@),
{
    match from_str(text) {
        Some(v) => Some(convert(v)),
        None => None,
    }
}

// ---------------------------------------------------------------------------
// Looking into values
// ---------------------------------------------------------------------------

/// The value of the first member with the given key, among the first `n`.
pub open spec fn first_member(
    m: Seq<(Seq<char>, JsonView)>,
    n: nat,
    key: Seq<char>,
) -> Option<JsonView>
    decreases n,
{
    if n == 0 {
        None
    } else {
        match first_member(m, (n - 1) as nat, key) {
            Some(v) => Some(v),
            None => if m[n - 1].0 == key {
                Some(m[n - 1].1)
            } else {
                None
            },
        }
    }
}

impl JsonView {
    /// The member of an object; `Null` where there is none or this is no object.
    pub open spec fn at(self, key: Seq<char>) -> JsonView {
        match self {
            JsonView::Members(m) => match first_member(m, m.len(), key) {
                Some(v) => v,
                None => JsonView::Null,
            },
            _ => JsonView::Null,
        }
    }

    /// The text, if this is one.
    pub open spec fn text(self) -> Option<Seq<char>> {
        match self {
            JsonView::Text(s) => Some(s),
            _ => None,
        }
    }

    /// The elements, if this is a list.
    pub open spec fn items(self) -> Option<Seq<JsonView>> {
        match self {
            JsonView::List(v) => Some(v),
            _ => None,
        }
    }

    /// The number, if this is an integer of 64 bits.
    pub open spec fn integer(self) -> Option<i64> {
        match self {
            JsonView::Number(n) => n,
            _ => None,
        }
    }

    /// Whether this is the text `s`.
    pub open spec fn is_text(self, s: Seq<char>) -> bool {
        self.text() == Some(s)
    }
}

/// The value that stands for a missing member.
fn null() -> (r: &'static Json)
    ensures
        r@ == JsonView::Null,
{
    &Json::Null
}

/// A later member does not hide an earlier one.
proof fn lemma_first_member(m: Seq<(Seq<char>, JsonView)>, n: nat, key: Seq<char>, k: nat)
    requires
        k <= n <= m.len(),
        first_member(m, k, key) is Some,
    ensures
        first_member(m, n, key) == first_member(m, k, key),
    decreases n,
{
    if k < n {
        lemma_first_member(m, (n - 1) as nat, key, k);
    }
}

impl Json {
    /// The member of an object; `Null` where there is none or this is no object.
    pub fn get(&self, key: &str) -> (r: &Json)
        ensures
            r@ == self@.at(key@),
    {
        match self {
            Json::Members(m) => {
                let ghost mv = members_view(m@);
                proof {
                    lemma_members_view(m@);
                }
                let mut i: usize = 0;
                while i < m.len()
                    invariant
                        i <= m@.len(),
                        mv == members_view(m@),
                        mv.len() == m@.len(),
                        forall|k: int|
                            0 <= k < m@.len() ==> #[trigger] mv[k] == (
                                m@[k].0@,
                                json_view(m@[k].1),
                            ),
                        first_member(mv, i as nat, key@) is None,
                        self@ == JsonView::Members(mv),
                    decreases m@.len() - i,
                {
                    assert(mv[i as int] == (m@[i as int].0@, json_view(m@[i as int].1)));
                    if same(m[i].0.as_str(), key) {
                        proof {
                            lemma_first_member(mv, mv.len(), key@, (i + 1) as nat);
                        }
                        return &m[i].1;
                    }
                    i += 1;
                }
                null()
            },
            _ => null(),
        }
    }

    /// The text, if this is one.
    pub fn as_text(&self) -> (r: Option<&String>)
        ensures
            (match r {
                Some(s) => Some(s@),
                None => None,
            }) == self@.text(),
    {
        match self {
            Json::Text(s) => Some(s),
            _ => None,
        }
    }

    /// A copy of the text, if this is one.
    pub fn to_text(&self) -> (r: Option<String>)
        ensures
            opt_text(r) == self@.text(),
    {
        match self {
            Json::Text(s) => Some(s.clone()),
            _ => None,
        }
    }

    /// The number, if this is an integer of 64 bits.
    pub fn as_integer(&self) -> (r: Option<i64>)
        ensures
            r == self@.integer(),
    {
        match self {
            Json::Number(n) => *n,
            _ => None,
        }
    }

    /// Whether this is the text `s`.
    pub fn is(&self, s: &str) -> (r: bool)
        ensures
            r == self@.is_text(s@),
    {
        match self {
            Json::Text(t) => same(t.as_str(), s),
            _ => false,
        }
    }

    /// Whether this is `true`.
    pub fn is_true(&self) -> (r: bool)
        ensures
            r == (self@ == JsonView::Bool(true)),
    {
        match self {
            Json::Bool(b) => *b,
            _ => false,
        }
    }

    /// The elements, if this is a list.
    pub fn as_list(&self) -> (r: Option<&Vec<Json>>)
        ensures
            (match r {
                Some(v) => Some(list_view(v@)),
                None => None,
            }) == self@.items(),
    {
        match self {
            Json::List(v) => Some(v),
            _ => None,
        }
    }
}

/// The member under a key is the first one with that key, and nothing where there is
/// none.
pub proof fn the_first_member_with_a_key_counts(
    m: Seq<(Seq<char>, JsonView)>,
    key: Seq<char>,
    i: int,
)
    requires
        0 <= i < m.len() ==> m[i].0 == key,
        forall|j: int| 0 <= j < i && j < m.len() ==> (#[trigger] m[j]).0 != key,
    ensures
        0 <= i < m.len() ==> JsonView::Members(m).at(key) == m[i].1,
        i >= m.len() ==> JsonView::Members(m).at(key) == JsonView::Null,
{
    if 0 <= i < m.len() {
        lemma_no_member(m, i as nat, key);
        lemma_first_member(m, m.len(), key, (i + 1) as nat);
    } else if i >= m.len() {
        lemma_no_member(m, m.len(), key);
    }
}

/// No member has a key that none of the first ones has.
proof fn lemma_no_member(m: Seq<(Seq<char>, JsonView)>, n: nat, key: Seq<char>)
    requires
        n <= m.len(),
        forall|j: int| 0 <= j < n ==> (#[trigger] m[j]).0 != key,
    ensures
        first_member(m, n, key) is None,
    decreases n,
{
    if n > 0 {
        lemma_no_member(m, (n - 1) as nat, key);
        assert(m[n - 1].0 != key);
    }
}

} // verus!
