//! Settings that are looked up one by one in the configuration file.
use crate::text::{opt_text, same};
use vstd::prelude::*;

verus! {

/// A value of the configuration, as far as it matters here.
pub enum Setting {
    Text(String),
    Flag(bool),
    Other,
}

/// What a [`Setting`] holds.
pub enum SettingView {
    Text(Seq<char>),
    Flag(bool),
    Other,
}

impl View for Setting {
    type V = SettingView;

    open spec fn view(&self) -> SettingView {
        match *self {
            Setting::Text(s) => SettingView::Text(s@),
            Setting::Flag(b) => SettingView::Flag(b),
            Setting::Other => SettingView::Other,
        }
    }
}

// ---------------------------------------------------------------------------
// The parser
// ---------------------------------------------------------------------------

/// The value that `toml` parses text into.
#[verifier::external_type_specification]
#[verifier::external_body]
pub struct ExToml(toml::Value);

/// A TOML value. Of what is neither a text, a flag nor a table nothing is kept.
pub enum TomlView {
    Text(Seq<char>),
    Flag(bool),
    Members(Seq<(Seq<char>, TomlView)>),
    Other,
}

/// What a parsed value holds.
pub uninterp spec fn toml_contents(v: toml::Value) -> TomlView;

/// The members of the table that `toml` reads from a text, if it is TOML.
pub uninterp spec fn toml_members(text: Seq<char>) -> Option<Seq<(Seq<char>, TomlView)>>;

/// What the members of a table hold.
pub open spec fn members_view(m: Seq<(String, toml::Value)>) -> Seq<(Seq<char>, TomlView)> {
    Seq::new(m.len(), |i: int| (m[i].0@, toml_contents(m[i].1)))
}

/// `str::parse` to a `toml::Table`, with the members in the order in which the
/// table hands them out. Whether a text is TOML and what it holds depends on the
/// text alone.
#[verifier::external_body]
fn read_table(text: &str) -> (r: Option<Vec<(String, toml::Value)>>)
    ensures
        (match r {
            Some(m) => Some(members_view(m@)),
            None => None,
        }) == toml_members(text@),
{
    match text.parse::<toml::Table>() {
        Ok(t) => Some(t.into_iter().collect()),
        Err(_) => None,
    }
}

/// One level of a parsed value.
pub enum Node {
    Text(String),
    Flag(bool),
    Members(Vec<(String, toml::Value)>),
    Other,
}

/// The variants of `toml::Value`, with the members of a table in the order in
/// which the table hands them out.
#[verifier::external_body]
fn open_value(v: &toml::Value) -> (r: Node)
    ensures
        match r {
            Node::Text(s) => toml_contents(*v) == TomlView::Text(s@),
            Node::Flag(b) => toml_contents(*v) == TomlView::Flag(b),
            Node::Members(m) => toml_contents(*v) == TomlView::Members(members_view(m@)),
            Node::Other => toml_contents(*v) == TomlView::Other,
        },
{
    match v {
        toml::Value::String(s) => Node::Text(s.clone()),
        toml::Value::Boolean(b) => Node::Flag(*b),
        toml::Value::Table(t) => Node::Members(t.clone().into_iter().collect()),
        toml::Value::Integer(_) => Node::Other,
        toml::Value::Float(_) => Node::Other,
        toml::Value::Datetime(_) => Node::Other,
        toml::Value::Array(_) => Node::Other,
    }
}

// ---------------------------------------------------------------------------
// Looking a setting up
// ---------------------------------------------------------------------------

/// The value of a member of a table; the first one of that name.
pub open spec fn member(m: Seq<(Seq<char>, TomlView)>, key: Seq<char>) -> Option<TomlView>
    decreases m.len(),
{
    if m.len() == 0 {
        None
    } else {
        match member(m.drop_last(), key) {
            Some(v) => Some(v),
            None => if m.last().0 == key {
                Some(m.last().1)
            } else {
                None
            },
        }
    }
}

/// What a value is as a setting.
pub open spec fn setting_of(v: TomlView) -> SettingView {
    match v {
        TomlView::Text(s) => SettingView::Text(s),
        TomlView::Flag(b) => SettingView::Flag(b),
        TomlView::Members(_) => SettingView::Other,
        TomlView::Other => SettingView::Other,
    }
}

/// What a document says under `[table]` for `key`; nothing if it does not say, or
/// if what goes by the table's name is none.
pub open spec fn configured(
    doc: Seq<(Seq<char>, TomlView)>,
    table: Seq<char>,
    key: Seq<char>,
) -> Option<SettingView> {
    match member(doc, table) {
        Some(TomlView::Members(m)) => match member(m, key) {
            Some(v) => Some(setting_of(v)),
            None => None,
        },
        _ => None,
    }
}

/// The value of a member, opened.
fn find_member(members: &Vec<(String, toml::Value)>, key: &str) -> (r: Option<Node>)
    ensures
        match r {
            None => member(members_view(members@), key@) is None,
            Some(Node::Text(s)) => member(members_view(members@), key@) == Some(
                TomlView::Text(s@),
            ),
            Some(Node::Flag(b)) => member(members_view(members@), key@) == Some(TomlView::Flag(b)),
            Some(Node::Members(m)) => member(members_view(members@), key@) == Some(
                TomlView::Members(members_view(m@)),
            ),
            Some(Node::Other) => member(members_view(members@), key@) == Some(TomlView::Other),
        },
{
    let ghost all = members_view(members@);
    let mut found: Option<usize> = None;
    let mut i: usize = 0;
    while i < members.len()
        invariant
            i <= members@.len(),
            all == members_view(members@),
            match found {
                Some(j) => j < i && member(all.take(i as int), key@) == Some(
                    toml_contents(members@[j as int].1),
                ),
                None => member(all.take(i as int), key@) is None,
            },
        decreases members@.len() - i,
    {
        assert(all.take(i + 1).drop_last() =~= all.take(i as int));
        assert(all.take(i + 1).last() == all[i as int]);
        if found.is_none() && same(members[i].0.as_str(), key) {
            found = Some(i);
        }
        i += 1;
    }
    assert(all.take(i as int) =~= all);
    match found {
        Some(j) => Some(open_value(&members[j].1)),
        None => None,
    }
}

/// Looks a setting up in the members of a document.
pub fn look_up(doc: &Vec<(String, toml::Value)>, table: &str, key: &str) -> (r: Option<Setting>)
    ensures
        (match r {
            Some(v) => Some(v@),
            None => None,
        }) == configured(members_view(doc@), table@, key@),
{
    match find_member(doc, table) {
        Some(Node::Members(m)) => match find_member(&m, key) {
            Some(Node::Text(s)) => Some(Setting::Text(s)),
            Some(Node::Flag(b)) => Some(Setting::Flag(b)),
            Some(Node::Members(_)) => Some(Setting::Other),
            Some(Node::Other) => Some(Setting::Other),
            None => None,
        },
        _ => None,
    }
}

/// What a configuration says, if there is one and it is TOML.
pub open spec fn said(
    config: Option<Seq<char>>,
    table: Seq<char>,
    key: Seq<char>,
) -> Option<SettingView> {
    match config {
        Some(text) => match toml_members(text) {
            Some(doc) => configured(doc, table, key),
            None => None,
        },
        None => None,
    }
}

/// Looks a setting up in a configuration, if there is one.
pub fn setting(config: &Option<String>, table: &str, key: &str) -> (r: Option<Setting>)
    ensures
        (match r {
            Some(v) => Some(v@),
            None => None,
        }) == said(opt_text(*config), table@, key@),
{
    match config {
        Some(text) => match read_table(text.as_str()) {
            Some(doc) => look_up(&doc, table, key),
            None => None,
        },
        None => None,
    }
}

/// Whether drafts should be skills: what the user prefers or, without a
/// preference, whether agents run more than half as many commands as the shell.
pub open spec fn skills_preferred(prefer: Option<SettingView>, agent: nat, shell: nat) -> bool {
    if prefer == Some(SettingView::Text("skill"@)) {
        true
    } else if prefer == Some(SettingView::Text("script"@)) {
        false
    } else {
        agent > shell / 2
    }
}

/// Decides [`skills_preferred`].
pub fn prefers_skills(prefer: &Option<Setting>, agent: u64, shell: u64) -> (r: bool)
    ensures
        r == skills_preferred(
            match *prefer {
                Some(v) => Some(v@),
                None => None,
            },
            agent as nat,
            shell as nat,
        ),
{
    match prefer {
        Some(Setting::Text(p)) => {
            if same(p.as_str(), "skill") {
                return true;
            }
            if same(p.as_str(), "script") {
                return false;
            }
        },
        _ => {},
    }
    agent > shell / 2
}

/// Whether a user works inside agents rather than in a shell, so that a script
/// would never be typed.
pub fn agent_native(config: &Option<String>, agent: u64, shell: u64) -> (r: bool)
    ensures
        r == skills_preferred(
            said(opt_text(*config), "draft"@, "prefer"@),
            agent as nat,
            shell as nat,
        ),
{
    let prefer = setting(config, "draft", "prefer");
    prefers_skills(&prefer, agent, shell)
}

/// Whether a setting is a flag that is on.
pub fn is_on(v: &Option<Setting>) -> (r: bool)
    ensures
        r == (match *v {
            Some(x) => x@ == SettingView::Flag(true),
            None => false,
        }),
{
    match v {
        Some(Setting::Flag(b)) => *b,
        _ => false,
    }
}

/// Whether installed artifacts are committed: only where the configuration says
/// so.
pub fn commit_enabled(config: &Option<String>) -> (r: bool)
    ensures
        r == (said(opt_text(*config), "skills"@, "commit"@) == Some(SettingView::Flag(true))),
{
    is_on(&setting(config, "skills", "commit"))
}

/// The member under a key is the first one with that key.
pub proof fn the_first_member_with_a_key_counts(
    m: Seq<(Seq<char>, TomlView)>,
    key: Seq<char>,
    i: int,
)
    requires
        0 <= i,
        i < m.len() ==> m[i].0 == key,
        forall|j: int| 0 <= j < i && j < m.len() ==> (#[trigger] m[j]).0 != key,
    ensures
        i < m.len() ==> member(m, key) == Some(m[i].1),
        i >= m.len() ==> member(m, key) is None,
    decreases m.len(),
{
    if m.len() > 0 {
        let front = m.drop_last();
        assert forall|j: int| 0 <= j < i && j < front.len() implies (#[trigger] front[j]).0
            != key by {
            assert(front[j] == m[j]);
        }
        if i >= m.len() {
            assert(m[m.len() - 1].0 != key);
        }
        the_first_member_with_a_key_counts(front, key, i);
    }
}

/// Skills are preferred where the settings say so, scripts where they do, and else
/// skills exactly when agents ran more than half as many commands as the shell.
pub proof fn the_larger_part_decides(prefer: Option<SettingView>, agent: nat, shell: nat)
    ensures
        skills_preferred(Some(SettingView::Text("skill"@)), agent, shell),
        !skills_preferred(Some(SettingView::Text("script"@)), agent, shell),
        prefer != Some(SettingView::Text("skill"@)) && prefer != Some(SettingView::Text("script"@))
            ==> (skills_preferred(prefer, agent, shell) <==> 2 * agent > shell),
{
    reveal_strlit("skill");
    reveal_strlit("script");
    assert("skill"@.len() != "script"@.len());
}

/// A setting is what stands under its key in its table, if the settings can be read and
/// have both.
pub proof fn a_setting_stands_under_its_key(
    doc: Seq<(Seq<char>, TomlView)>,
    table: Seq<char>,
    key: Seq<char>,
    m: Seq<(Seq<char>, TomlView)>,
)
    ensures
        member(doc, table) == Some(TomlView::Members(m)) ==> (configured(doc, table, key) is Some
            <==> member(m, key) is Some),
        member(doc, table) is None ==> configured(doc, table, key) is None,
        configured(doc, table, key) matches Some(SettingView::Text(s)) ==> member(doc, table)
            is Some && (member(doc, table)->0 matches TomlView::Members(x) ==> member(x, key)
            == Some(TomlView::Text(s))),
        configured(doc, table, key) matches Some(SettingView::Flag(b)) ==> member(doc, table)
            is Some && (member(doc, table)->0 matches TomlView::Members(x) ==> member(x, key)
            == Some(TomlView::Flag(b))),
        said(None, table, key) is None,
{
}

} // verus!
