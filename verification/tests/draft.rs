use sisyphus::draft::install::{commit_message, commit_summary, plan, Plan};
use sisyphus::draft::prompt::{
    build_prompt, examples, prepare_prompt, revision_prompt, Evidence, Snippet,
};
use sisyphus::draft::reply::{
    check_draft, check_revision, draft_object, frame, parse_groups, to_groups, unparseable, Draft, DraftError,
    Framed, GroupError, Revision,
};
use sisyphus::settings::{agent_native, commit_enabled, look_up, prefers_skills, setting, Setting};
use sisyphus::tool::Tool;

fn tool() -> Tool {
    Tool {
        command: "quill".to_string(),
        product: "Quill Pen".to_string(),
        skills: ".quill/skills".to_string(),
    }
}

fn strings(v: &[&str]) -> Vec<String> {
    v.iter().map(|s| s.to_string()).collect()
}

/// Reads a draft out of an answer, as a program does.
fn parse_draft(text: &str) -> Result<Draft, DraftError> {
    let object = draft_object(text)?;
    let Ok(v) = serde_json::from_str::<serde_json::Value>(&object) else {
        return Err(unparseable(text));
    };
    let field = |k: &str| v[k].as_str().map(|s| s.to_string());
    match (field("name"), field("kind"), field("summary"), field("content")) {
        (Some(name), Some(kind), Some(summary), Some(content)) => {
            check_draft(Draft { name, kind, summary, content })
        }
        _ => Err(unparseable(text)),
    }
}

#[test]
fn parses_fenced_json() {
    let d = parse_draft("```json\n{\"name\":\"git-init-push\",\"kind\":\"script\",\"summary\":\"s\",\"content\":\"c\"}\n```");
    match d {
        Ok(d) => assert_eq!(d.name, "git-init-push"),
        Err(_) => panic!("not parsed"),
    }
}

#[test]
fn parses_group_json() {
    assert_eq!(parse_groups("[[0,4,9],[2,3]]").unwrap(), vec![vec![0, 4, 9], vec![2, 3]]);
    // fenced / prose-wrapped
    assert_eq!(parse_groups("here:\n```json\n[[1,2,3]]\n```").unwrap(), vec![vec![1, 2, 3]]);
    assert!(parse_groups("no array here").is_err());
}

#[test]
fn malformed_output_errors_without_panicking() {
    // '}' before '{' must not panic on the reversed slice range
    assert!(parse_draft("} then {").is_err());
    // braces present but invalid JSON with multibyte >200 bytes: the error
    // context must not slice mid-char (chars().take, not byte index)
    assert!(parse_draft(&format!("{{ {} }}", "中".repeat(150))).is_err());
}

#[test]
fn rejects_path_traversal_names() {
    assert!(parse_draft("{\"name\":\"../evil\",\"kind\":\"script\",\"summary\":\"s\",\"content\":\"c\"}").is_err());
}

#[test]
fn rejects_unknown_kind() {
    assert!(parse_draft("{\"name\":\"x\",\"kind\":\"daemon\",\"summary\":\"s\",\"content\":\"c\"}").is_err());
}

#[test]
fn every_refusal_says_why() {
    let message = |text: &str| match parse_draft(text) {
        Ok(_) => "accepted".to_string(),
        Err(e) => e.message(&tool()),
    };
    assert_eq!(message("nothing"), "no JSON in quill output");
    assert_eq!(message("only {"), "no JSON in quill output");
    assert_eq!(message("} {"), "no JSON object in quill output");
    assert_eq!(message("{x}"), "unparseable draft: {x}");
    let long = format!("{{{}}}", "中".repeat(300));
    assert_eq!(message(&long).chars().count(), "unparseable draft: ".len() + 200);
    assert_eq!(
        message("{\"name\":\"x\",\"kind\":\"daemon\",\"summary\":\"s\",\"content\":\"c\"}"),
        "unknown draft kind: daemon"
    );
    assert_eq!(
        message("{\"name\":\"a.b\",\"kind\":\"skill\",\"summary\":\"s\",\"content\":\"c\"}"),
        "bad draft name: a.b"
    );
    assert_eq!(
        message("{\"name\":\"\",\"kind\":\"alias\",\"summary\":\"s\",\"content\":\"c\"}"),
        "bad draft name: "
    );
    // the kind is looked at first
    assert_eq!(
        message("{\"name\":\"a/b\",\"kind\":\"x\",\"summary\":\"s\",\"content\":\"c\"}"),
        "unknown draft kind: x"
    );
}

#[test]
fn groups_are_refused_in_three_ways() {
    assert_eq!(parse_groups("no array here"), Err(GroupError::NoArray));
    assert_eq!(parse_groups("] and ["), Err(GroupError::Malformed));
    assert_eq!(parse_groups("[[1,-2]]"), Err(GroupError::Unparseable));
    assert_eq!(parse_groups("[[18446744073709551616]]"), Err(GroupError::Unparseable));
    assert_eq!(parse_groups("[]"), Ok(vec![]));
    assert_eq!(to_groups(&vec![vec![3], vec![]]), Ok(vec![vec![3], vec![]]));
}

#[test]
fn prose_around_an_object_is_passed_over() {
    match frame("well: {\"a\":{}} done", '{', '}') {
        Framed::Found(s) => assert_eq!(s, "{\"a\":{}}"),
        _ => panic!("not found"),
    }
}

#[test]
fn a_revision_revises_or_retires() {
    let rev = |action: &str| {
        check_revision(Revision {
            action: action.to_string(),
            reason: "r".to_string(),
            content: String::new(),
        })
    };
    assert!(rev("revise").is_ok());
    assert!(rev("retire").is_ok());
    match rev("keep") {
        Err(e) => assert_eq!(e, "unknown revision action: keep"),
        Ok(_) => panic!("accepted"),
    }
}

fn draft(name: &str, kind: &str, content: &str) -> Draft {
    Draft {
        name: name.to_string(),
        kind: kind.to_string(),
        summary: "saves time".to_string(),
        content: content.to_string(),
    }
}

#[test]
fn each_kind_has_its_place() {
    match plan(&draft("up", "script", "echo hi"), "/home/me", &tool()) {
        Plan::Script { dir, path, content } => {
            assert_eq!(dir, "/home/me/.local/bin");
            assert_eq!(path, "/home/me/.local/bin/up");
            assert_eq!(content, "#!/bin/zsh\necho hi");
        }
        _ => panic!("no script"),
    }
    match plan(&draft("up", "script", "#!/bin/sh\n:"), "/home/me", &tool()) {
        Plan::Script { content, .. } => assert_eq!(content, "#!/bin/sh\n:"),
        _ => panic!("no script"),
    }
    match plan(&draft("up", "alias", "  alias up='x'\n"), "/home/me", &tool()) {
        Plan::Alias { dir, path, addition } => {
            assert_eq!(dir, "/home/me/.config/sisyphus");
            assert_eq!(path, "/home/me/.config/sisyphus/aliases.zsh");
            assert_eq!(addition, "\n# saves time\nalias up='x'\n");
        }
        _ => panic!("no alias"),
    }
    match plan(&draft("up", "skill", "# Up"), "/home/me", &tool()) {
        Plan::Skill { dir, path, content } => {
            assert_eq!(dir, "/home/me/.quill/skills/up");
            assert_eq!(path, "/home/me/.quill/skills/up/SKILL.md");
            assert_eq!(content, "# Up");
        }
        _ => panic!("no skill"),
    }
    match plan(&draft("up", "daemon", "x"), "/home/me", &tool()) {
        Plan::Unknown => {}
        _ => panic!("planned"),
    }
}

#[test]
fn commits_are_scoped() {
    assert_eq!(commit_message("skill", "up"), "feat(skills): add up (via sisyphus)");
    assert_eq!(commit_message("script", "up"), "feat(bin): add up (via sisyphus)");
    assert_eq!(commit_summary("/home/me/dotfiles"), "committed to dotfiles");
}

#[test]
fn settings_are_looked_up_in_their_table() {
    let text = |s: &str| toml::Value::String(s.to_string());
    let inner: toml::Table =
        [("prefer".to_string(), text("skill")), ("on".to_string(), toml::Value::Boolean(true))]
            .into_iter()
            .collect();
    let doc = vec![
        ("draft".to_string(), toml::Value::Table(inner)),
        ("name".to_string(), text("x")),
        ("list".to_string(), toml::Value::Array(Vec::new())),
    ];
    assert!(matches!(look_up(&doc, "draft", "prefer"), Some(Setting::Text(s)) if s == "skill"));
    assert!(matches!(look_up(&doc, "draft", "on"), Some(Setting::Flag(true))));
    assert!(look_up(&doc, "draft", "other").is_none());
    assert!(look_up(&doc, "name", "prefer").is_none());
    assert!(look_up(&doc, "missing", "prefer").is_none());
    let config = Some("draft = 1\n[a]\nn = 3\nf = 1.5\nl = [1]\nt.u = \"v\"\ns = \"q\"".to_string());
    assert!(setting(&config, "draft", "prefer").is_none());
    for key in ["n", "f", "l", "t"] {
        assert!(matches!(setting(&config, "a", key), Some(Setting::Other)));
    }
    assert!(matches!(setting(&config, "a", "s"), Some(Setting::Text(s)) if s == "q"));
    assert!(setting(&config, "t", "u").is_none());
}

#[test]
fn the_configuration_decides_first() {
    let config = |s: &str| Some(s.to_string());
    assert!(agent_native(&config("[draft]\nprefer = \"skill\""), 0, 100));
    assert!(!agent_native(&config("[draft]\nprefer = \"script\""), 100, 0));
    assert!(agent_native(&config("[draft]\nprefer = \"auto\""), 51, 100));
    assert!(!agent_native(&config("[draft]\nprefer = \"auto\""), 50, 100));
    assert!(agent_native(&config("[draft]\nprefer = true"), 1, 1));
    assert!(!agent_native(&config("not toml ["), 0, 0));
    assert!(agent_native(&None, 1, 1));
    assert!(prefers_skills(&Some(Setting::Text("skill".to_string())), 0, 9));
    assert!(commit_enabled(&config("[skills]\ncommit = true")));
    assert!(!commit_enabled(&config("[skills]\ncommit = false")));
    assert!(!commit_enabled(&config("[skills]\ncommit = \"yes\"")));
    assert!(!commit_enabled(&config("skills = 3")));
    assert!(!commit_enabled(&None));
}

#[test]
fn examples_show_first_lines() {
    let raws = vec![strings(&["make a", "make b\nmore"]), Vec::new()];
    assert_eq!(
        examples(&strings(&["make <x>", "ls"]), &raws),
        "template: make <x>\n  e.g. make a\n  e.g. make b\ntemplate: ls\n"
    );
}

fn evidence(n: usize, native: bool) -> Evidence {
    Evidence {
        raws: vec![Vec::new(); n],
        native,
        errors: Vec::new(),
        snippets: Vec::new(),
    }
}

#[test]
fn prompts_tell_the_situation() {
    let p = build_prompt("sequence", &strings(&["a", "b"]), 4, "EX", &tool());
    assert!(p.starts_with("You are drafting an automation for a developer.\n\nThe developer has manually repeated this command sequence 4 times (mined from their real shell/agent history):\n\na\nb\n\nConcrete examples of each step from their history:\nEX\n\nDraft the best automation."));
    assert!(p.ends_with("{\"name\": \"...\", \"kind\": \"script|alias|skill\", \"summary\": \"...\", \"content\": \"full artifact text\"}"));
    let p = build_prompt("intent", &strings(&["ask: do it", "x", "y"]), 3, "", &tool());
    assert!(p.contains("essentially this 3 separate times:\n\n\"do it\"\n\nand each time, the agent ended up running these same steps:\nx\ny\n\nDraft a Quill Pen skill"));
    let p = build_prompt("prompt", &strings(&["do it"]), 5, "", &tool());
    assert!(p.contains("to AI coding tools 5 separate times:\n\n\"do it\"\n\nDraft"));
    let p = build_prompt("fixloop", &strings(&["cargo build"]), 6, "", &tool());
    assert!(p.contains("This command was re-run 6 times"));
    assert!(p.contains("retry loop:\n\ncargo build\n\nDraft"));
    let p = build_prompt("failure", &Vec::new(), 6, "", &tool());
    assert!(p.contains("Signature: \n\nConcrete"));
}

#[test]
fn a_prompt_holds_what_history_knows() {
    let mut e = evidence(1, true);
    e.errors = strings(&["boom"]);
    let p = prepare_prompt("fixloop", &strings(&["cargo build"]), 3, &e, &tool());
    assert!(p.contains("template: cargo build\n\nIMPORTANT context about this user"));
    assert!(p.contains("\nActual error output seen when it failed:\n---\nboom\n"));
    // errors belong to fix loops alone
    let p = prepare_prompt("sequence", &strings(&["cargo build"]), 3, &e, &tool());
    assert!(!p.contains("Actual error output"));
    // the text of an ask is no command
    let p = prepare_prompt("prompt", &strings(&["do it"]), 3, &evidence(1, false), &tool());
    assert!(p.contains("from their history:\n\n\nDraft"));
    assert!(!p.contains("IMPORTANT context"));
}

#[test]
fn a_failure_quotes_messages_of_its_signature() {
    let snip = |sig: Option<&str>, text: &str| Snippet {
        signature: sig.map(|s| s.to_string()),
        text: text.to_string(),
    };
    let mut e = evidence(2, true);
    e.snippets = vec![
        snip(Some("E1"), "one"),
        snip(None, "none"),
        snip(Some("E2"), "other"),
        snip(Some("E1"), &"x".repeat(400)),
        snip(Some("E1"), "three"),
        snip(Some("E1"), "four"),
    ];
    let p = prepare_prompt("failure", &strings(&["E1", "rg ("]), 7, &e, &tool());
    let long = "x".repeat(300);
    assert!(p.contains(&format!(
        "this error, 7 times across different commands:\n\n\"E1\"\n\nExample commands that triggered it:\nrg (\n---\none\n---\n{long}\n---\nthree\n\n"
    )));
    assert!(!p.contains("four"));
    assert!(!p.contains("IMPORTANT context"));
}

#[test]
fn a_revision_is_asked_for_with_numbers() {
    let p = revision_prompt("/bin/up", "echo", &strings(&["a", "b"]), "EX\n", 0, 3);
    assert!(p.contains("- artifact invoked 0 time(s) since install\n"));
    assert!(p.contains("still performed 3 more time(s)\n\nThe manual sequence:\na\nb\n"));
    assert!(p.contains("Current artifact (/bin/up):\n---\necho\n---\n"));
    assert!(p.ends_with("{\"action\": \"revise|retire\", \"reason\": \"one sentence\", \"content\": \"full revised artifact text (empty if retire)\"}"));
}
