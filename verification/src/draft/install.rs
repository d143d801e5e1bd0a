//! Where a draft is installed.
use crate::draft::reply::{concat, known_kind, plain_name, Draft, DraftView};
use crate::path::{
    a_plain_name_is_found_again, below, file_name, file_stem, name_of, path_below, resolve,
    resolved,
};
use crate::text::{begins_with, same, starts_with, trim, trimmed};
use crate::tool::Tool;
use vstd::prelude::*;

verus! {

/// What installing a draft writes.
pub enum Plan {
    /// A new executable file.
    Script { dir: String, path: String, content: String },
    /// An addition to the file of aliases.
    Alias { dir: String, path: String, addition: String },
    /// A new directory with one file.
    Skill { dir: String, path: String, content: String },
    /// Nothing: the kind is not known.
    Unknown,
}

/// What a [`Plan`] holds.
pub enum PlanView {
    Script { dir: Seq<char>, path: Seq<char>, content: Seq<char> },
    Alias { dir: Seq<char>, path: Seq<char>, addition: Seq<char> },
    Skill { dir: Seq<char>, path: Seq<char>, content: Seq<char> },
    Unknown,
}

impl View for Plan {
    type V = PlanView;

    open spec fn view(&self) -> PlanView {
        match *self {
            Plan::Script { dir, path, content } => PlanView::Script {
                dir: dir@,
                path: path@,
                content: content@,
            },
            Plan::Alias { dir, path, addition } => PlanView::Alias {
                dir: dir@,
                path: path@,
                addition: addition@,
            },
            Plan::Skill { dir, path, content } => PlanView::Skill {
                dir: dir@,
                path: path@,
                content: content@,
            },
            Plan::Unknown => PlanView::Unknown,
        }
    }
}

/// The text of a script: with an interpreter line, its own or one for zsh.
pub open spec fn script_text(content: Seq<char>) -> Seq<char> {
    if begins_with(content, "#!"@) {
        content
    } else {
        "#!/bin/zsh\n"@ + content
    }
}

/// What an alias adds to the file of aliases.
pub open spec fn alias_text(summary: Seq<char>, content: Seq<char>) -> Seq<char> {
    "\n# "@ + summary + "\n"@ + trimmed(content) + "\n"@
}

/// What installing a draft below a home directory writes, given where the agent
/// finds skills.
pub open spec fn planned(d: DraftView, home: Seq<char>, skills: Seq<char>) -> PlanView {
    if d.kind == "script"@ {
        let dir = below(home, ".local/bin"@);
        PlanView::Script { dir, path: resolved(dir, d.name), content: script_text(d.content) }
    } else if d.kind == "alias"@ {
        let dir = below(home, ".config/sisyphus"@);
        PlanView::Alias {
            dir,
            path: below(dir, "aliases.zsh"@),
            addition: alias_text(d.summary, d.content),
        }
    } else if d.kind == "skill"@ {
        let dir = resolved(resolved(home, skills), d.name);
        PlanView::Skill { dir, path: below(dir, "SKILL.md"@), content: d.content }
    } else {
        PlanView::Unknown
    }
}

/// Plans the installation of a draft.
pub fn plan(d: &Draft, home: &str, tool: &Tool) -> (r: Plan)
    ensures
        r@ == planned(d@, home@, tool@.skills),
{
    if same(d.kind.as_str(), "script") {
        let dir = path_below(home, ".local/bin");
        let path = resolve(dir.as_str(), d.name.as_str());
        let content = if starts_with(d.content.as_str(), "#!") {
            d.content.clone()
        } else {
            concat("#!/bin/zsh\n", d.content.as_str())
        };
        Plan::Script { dir, path, content }
    } else if same(d.kind.as_str(), "alias") {
        let dir = path_below(home, ".config/sisyphus");
        let path = path_below(dir.as_str(), "aliases.zsh");
        let mut addition = "\n# ".to_owned();
        addition.append(d.summary.as_str());
        addition.append("\n");
        addition.append(trim(d.content.as_str()).as_str());
        addition.append("\n");
        Plan::Alias { dir, path, addition }
    } else if same(d.kind.as_str(), "skill") {
        let skills = resolve(home, tool.skills.as_str());
        let dir = resolve(skills.as_str(), d.name.as_str());
        let path = path_below(dir.as_str(), "SKILL.md");
        Plan::Skill { dir, path, content: d.content.clone() }
    } else {
        Plan::Unknown
    }
}

/// An accepted draft stays where it belongs: a script is a file of its name right
/// below `.local/bin`, a skill a directory of its name right below where the agent
/// finds skills.
pub proof fn an_accepted_draft_stays_in_its_place(
    d: DraftView,
    home: Seq<char>,
    skills: Seq<char>,
)
    requires
        known_kind(d.kind),
        plain_name(d.name),
    ensures
        planned(d, home, skills) !is Unknown,
        planned(d, home, skills) matches PlanView::Script { dir, path, content } ==> path == below(
            below(home, ".local/bin"@),
            d.name,
        ) && file_name(path) == d.name && file_stem(path) == d.name,
        planned(d, home, skills) matches PlanView::Skill { dir, path, content } ==> dir == below(
            resolved(home, skills),
            d.name,
        ) && file_name(dir) == d.name,
{
    a_plain_name_is_found_again(below(home, ".local/bin"@), d.name);
    a_plain_name_is_found_again(resolved(home, skills), d.name);
}

/// The message of the commit for a new artifact.
pub open spec fn commit_text(kind: Seq<char>, name: Seq<char>) -> Seq<char> {
    "feat("@ + (if kind == "skill"@ {
        "skills"@
    } else {
        "bin"@
    }) + "): add "@ + name + " (via sisyphus)"@
}

/// The message of the commit for a new artifact.
pub fn commit_message(kind: &str, name: &str) -> (r: String)
    ensures
        r@ == commit_text(kind@, name@),
{
    let mut out = "feat(".to_owned();
    if same(kind, "skill") {
        out.append("skills");
    } else {
        out.append("bin");
    }
    out.append("): add ");
    out.append(name);
    out.append(" (via sisyphus)");
    out
}

/// What is said of a commit to the repository at `root`.
pub fn commit_summary(root: &str) -> (r: String)
    ensures
        r@ == "committed to "@ + file_name(root@),
{
    concat("committed to ", name_of(root).as_str())
}

/// A script begins with the line that names its interpreter, one of its own if it has
/// one, and holds what was drafted.
pub proof fn a_script_names_its_interpreter(content: Seq<char>)
    ensures
        begins_with(script_text(content), "#!"@),
        begins_with(content, "#!"@) ==> script_text(content) == content,
        !begins_with(content, "#!"@) ==> script_text(content) == "#!/bin/zsh\n"@ + content,
{
    reveal_strlit("#!");
    reveal_strlit("#!/bin/zsh\n");
    let s = "#!/bin/zsh\n"@ + content;
    assert(s.subrange(0, 2) =~= "#!"@);
}

/// Scripts go to the user's programs, aliases to one file that all of them share, and
/// each skill to a directory of its own.
pub proof fn each_kind_has_its_place(d: DraftView, home: Seq<char>, skills: Seq<char>)
    requires
        home.len() > 0,
        home.last() != '/',
        skills.len() > 0,
        skills[0] != '/',
        skills.last() != '/',
        plain_name(d.name),
    ensures
        d.kind == "script"@ ==> (planned(d, home, skills) matches PlanView::Script {
            dir,
            path,
            content,
        } && path == home + "/.local/bin/"@ + d.name && content == script_text(d.content)),
        d.kind == "alias"@ ==> (planned(d, home, skills) matches PlanView::Alias {
            dir,
            path,
            addition,
        } && path == home + "/.config/sisyphus/aliases.zsh"@ && crate::text::has_part(
            addition,
            trimmed(d.content),
        )),
        d.kind == "skill"@ ==> (planned(d, home, skills) matches PlanView::Skill {
            dir,
            path,
            content,
        } && path == home + "/"@ + skills + "/"@ + d.name + "/SKILL.md"@ && content == d.content),
{
    reveal_strlit("script");
    reveal_strlit("alias");
    reveal_strlit("skill");
    reveal_strlit("/");
    reveal_strlit(".local/bin");
    reveal_strlit("/.local/bin/");
    reveal_strlit(".config/sisyphus");
    reveal_strlit("aliases.zsh");
    reveal_strlit("/.config/sisyphus/aliases.zsh");
    reveal_strlit("SKILL.md");
    reveal_strlit("/SKILL.md");
    assert("script"@.len() == 6 && "alias"@.len() == 5 && "skill"@.len() == 5);
    assert("alias"@[0] != "skill"@[0]);
    assert(d.name[0] != '/');
    assert(d.name[d.name.len() - 1] != '/');
    if d.kind == "script"@ {
        let dir = below(home, ".local/bin"@);
        assert(resolved(dir, d.name) =~= home + "/.local/bin/"@ + d.name);
    } else if d.kind == "alias"@ {
        let dir = below(home, ".config/sisyphus"@);
        assert(below(dir, "aliases.zsh"@) =~= home + "/.config/sisyphus/aliases.zsh"@);
        crate::text::lemma_has_part("\n# "@ + d.summary + "\n"@, trimmed(d.content), "\n"@);
    } else if d.kind == "skill"@ {
        let dir = resolved(resolved(home, skills), d.name);
        assert(below(dir, "SKILL.md"@) =~= home + "/"@ + skills + "/"@ + d.name + "/SKILL.md"@);
    }
}

} // verus!
