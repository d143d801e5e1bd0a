use sisyphus::doctor;
use sisyphus::doctor::{has_extended, Facts};
use sisyphus::draft::reply::{Draft, Revision};
use sisyphus::evolve::{
    after_diagnosis, answer, artifact_name, count_manual, describe, evolve_findings, judge, opening, words_of,
    Act, DecisionRow, FindingKind, Question,
};
use sisyphus::gain::{gain_text, gains, measure, pad_left, pad_right, total, Artifact};
use sisyphus::mine::candidates::Candidate;
use sisyphus::mine::prompts::AskRow;
use sisyphus::mine::streams::StreamRow;
use sisyphus::report::{
    ask, auto_summary, candidate_question, choose_candidate, choose_draft, draft_text, ingest_text,
    installed_line, report_text, review_text, share_of, title_of, Choice,
};
use sisyphus::scan::{fresh, message, notification_script};
use sisyphus::serve::{
    chain, data, data_answer, page_answer, request_path, route, unknown_answer, Count, Dashboard,
    PatternRow, Route,
};
use sisyphus::stats::{stats_text, Tally};
use sisyphus::tool::Tool;
use sisyphus::watch;

fn tool() -> Tool {
    Tool {
        command: "quill".to_string(),
        product: "Quill Pen".to_string(),
        skills: ".quill/skills".to_string(),
    }
}

fn strings(v: &[&str]) -> Vec<String> {
    v.iter().map(|s| s.to_string()).collect()
}

fn candidate(id: i64, kind: &str, templates: &[&str], score: u128) -> Candidate {
    Candidate {
        id,
        kind: kind.to_string(),
        templates: strings(templates),
        count: 4,
        score,
        project: None,
    }
}

#[test]
fn a_report_has_a_heading_where_the_kind_changes() {
    let c = vec![
        candidate(7, "sequence", &["a", "b"], 4_000 * 120),
        candidate(9, "sequence", &["c", "d"], 4_000 * 30),
        candidate(2, "prompt", &["do it"], 4_000 * 8),
    ];
    assert_eq!(
        report_text(&c),
        "\n⚡ repeated workflows\n\n  #1 (pattern 7) — seen 4× · ~2 min by hand\n       a\n     → b\n\
         \n  #2 (pattern 9) — seen 4× · ~30s by hand\n       c\n     → d\n\
         \n💬 things you keep asking AI tools\n\n  #3 (pattern 2) — seen 4× · score 8\n       do it\n"
    );
    assert_eq!(report_text(&Vec::new()), "");
    assert_eq!(
        candidate_question(2, 4, &tool()),
        "#2 (4×): [d]raft with quill / [i]gnore forever / [s]kip / [q]uit? "
    );
}

#[test]
fn answers_are_one_letter() {
    assert_eq!(ask("  Draft it\n"), 'd');
    assert_eq!(ask("\n"), 's');
    assert_eq!(ask("Ä"), 'Ä');
    assert_eq!(choose_candidate('d'), Choice::Draft);
    assert_eq!(choose_candidate('i'), Choice::Ignore);
    assert_eq!(choose_candidate('q'), Choice::Quit);
    assert_eq!(choose_candidate('a'), Choice::Skip);
    assert_eq!(choose_draft('a'), Choice::Accept);
    assert_eq!(choose_draft('e'), Choice::Edit);
    assert_eq!(choose_draft('i'), Choice::Ignore);
    assert_eq!(choose_draft('q'), Choice::Skip);
}

#[test]
fn drafts_are_shown_between_rules() {
    let d = Draft {
        name: "up".to_string(),
        kind: "script".to_string(),
        summary: "saves time".to_string(),
        content: "echo".to_string(),
    };
    assert_eq!(title_of(&d), "up (script) — saves time");
    let rule = "─".repeat(60);
    assert_eq!(
        review_text(&d),
        format!("\n── up (script) — saves time\n{rule}\necho\n{rule}\n")
    );
    assert_eq!(draft_text(&d), "── up (script) — saves time\necho");
    assert_eq!(installed_line(&d, "/bin/up"), "✓ up (script) — saves time\n    → /bin/up");
    assert_eq!(
        auto_summary(2, 1),
        "\n2 installed, 1 failed — `sisyphus gain` will track adoption"
    );
}

#[test]
fn every_prompt_has_one_worker() {
    assert_eq!(share_of(0, 7), vec![0, 3, 6]);
    assert_eq!(share_of(1, 7), vec![1, 4]);
    assert_eq!(share_of(2, 7), vec![2, 5]);
    assert!(share_of(2, 2).is_empty());
}

#[test]
fn ingestion_is_summed_up() {
    assert_eq!(
        ingest_text(1, 2, 3, 4, 5, 0, &tool()),
        "ingested: 1 zsh, 2 quill, 3 codex commands; 4 prompts (5 templated)\n"
    );
    assert!(ingest_text(1, 2, 3, 4, 5, 6, &tool())
        .starts_with("collapsed 6 overlapping (replayed) session file(s)\ningested: 1 zsh"));
}

#[test]
fn gains_count_the_steps_between() {
    let v = vec![
        Artifact { path: "/bin/up.sh".to_string(), key: "[\"a\",\"b\",\"c\"]".to_string(), uses: 4 },
        Artifact { path: "/s/x/SKILL.md".to_string(), key: "broken".to_string(), uses: 9 },
    ];
    let g = gains(&v);
    assert_eq!(g[0].name, "up");
    assert_eq!(g[0].saved, 8);
    assert_eq!(g[1].name, "SKILL");
    assert_eq!(g[1].steps, 1);
    assert_eq!(g[1].saved, 0);
    assert_eq!(total(&g), 8);
    assert_eq!(
        gain_text(&g),
        format!(
            "{:<24} used 4× · replaces 3 steps · 8 manual steps avoided\n{:<24} used 9× · replaces 1 steps · 0 manual steps avoided\n\ntotal manual steps avoided: 8\n",
            "up", "SKILL"
        )
    );
    assert_eq!(gain_text(&Vec::new()), "no accepted automations yet — run `sisyphus report`\n");
    assert_eq!(measure("/bin/up", 0, 3).saved, 0);
    assert_eq!(pad_right("äb", 4), "äb  ");
    assert_eq!(pad_left("7", 3), "  7");
    assert_eq!(pad_left("1234", 3), "1234");
}

#[test]
fn only_new_and_costly_patterns_notify() {
    let c = vec![
        candidate(1, "sequence", &["a", "b"], 31_999),
        candidate(2, "sequence", &["c", "d"], 32_000),
        candidate(3, "sequence", &["e", "f"], 99_000),
    ];
    let f = fresh(&c, &vec![false, false, true]);
    assert_eq!(f, vec![1]);
    assert_eq!(
        message(&c, &f, 0).unwrap(),
        "1 automatable pattern(s) — top: c → d (4×). Run `sisyphus report`."
    );
    assert_eq!(
        message(&c, &f, 2).unwrap(),
        "1 new pattern(s) + 2 automation(s) need attention. Run `sisyphus report` and `sisyphus evolve`."
    );
    assert_eq!(
        message(&c, &Vec::new(), 2).unwrap(),
        "2 accepted automation(s) aren't sticking. Run `sisyphus evolve`."
    );
    assert_eq!(message(&c, &Vec::new(), 0), None);
    let long = vec![candidate(1, "sequence", &["ä".repeat(90).as_str()], 99_000)];
    assert!(message(&long, &vec![0], 0).unwrap().contains(&format!("top: {} (4×)", "ä".repeat(80))));
    assert_eq!(
        notification_script("say \"hi\""),
        "display notification \"say 'hi'\" with title \"sisyphus\""
    );
}

#[test]
fn statistics_are_aligned() {
    let top = vec![
        Tally { template: "ls".to_string(), count: 12 },
        Tally { template: "make".to_string(), count: 123456 },
    ];
    assert_eq!(
        stats_text(1, 2, 3, 4, &top, &tool()),
        "commands   zsh: 1   quill: 2 (across 3 sessions)   prompts: 4\n\ntop command templates:\n     12×  ls\n  123456×  make\n"
    );
}

fn rows(n: i64) -> Vec<StreamRow> {
    let mut v = Vec::new();
    for i in 0..n {
        for t in ["git add .", "git push"] {
            v.push(StreamRow {
                source: "zsh".to_string(),
                session: String::new(),
                template: t.to_string(),
                id: 2 * i + if t == "git push" { 2 } else { 1 },
            });
        }
    }
    v
}

fn decision(id: i64, decision: &str, path: Option<&str>, at_id: i64) -> DecisionRow {
    DecisionRow {
        pattern_id: id,
        decision: decision.to_string(),
        artifact_path: path.map(|p| p.to_string()),
        at_id,
        key: "[\"git add .\",\"git push\"]".to_string(),
        kind: "sequence".to_string(),
    }
}

#[test]
fn decisions_that_do_not_stick_are_found() {
    let d = vec![
        decision(1, "accepted", Some("/bin/up"), 4),
        decision(2, "accepted", Some("/bin/up"), 4),
        decision(3, "accepted", None, 0),
        decision(4, "ignored", None, 0),
        decision(5, "ignored", None, 2),
        decision(6, "other", None, 0),
    ];
    let f = evolve_findings(&rows(4), &Vec::new(), &d, &vec![0, 1, 0, 0, 0, 0]).unwrap();
    assert_eq!(f.len(), 2);
    assert_eq!(f[0].pattern_id, 1);
    assert_eq!(f[0].kind, FindingKind::NotAdopted);
    assert_eq!(f[0].manual_since, 2);
    assert_eq!(
        describe(&f[0]),
        "\n✗ not adopted: /bin/up\n  used 0×, but you did the manual sequence 2 more time(s):\n    git add .\n    git push\n"
    );
    assert_eq!(f[1].pattern_id, 4);
    assert_eq!(f[1].kind, FindingKind::Resurfaced);
    assert_eq!(f[1].artifact_path, None);
    assert_eq!(
        describe(&f[1]),
        "\n↩ you ignored this, but it happened 4 more time(s) since:\n    git add .\n    git push\n"
    );
    // a key that cannot be read stops the search
    let mut bad = d;
    bad[5].key = "?".to_string();
    assert!(evolve_findings(&rows(4), &Vec::new(), &bad, &vec![0; 6]).is_none());
    assert_eq!(artifact_name("/home/me/.local/bin/up.sh"), "up");
}

#[test]
fn an_ask_resurfaces_by_being_typed_again() {
    let asks: Vec<AskRow> = (1..=6)
        .map(|id| AskRow { id, raw: "summarize this PR and check the types".to_string() })
        .chain([AskRow { id: 9, raw: "deploy the staging cluster".to_string() }])
        .collect();
    let key = "[\"ask: please summarize this PR and check types\",\"gh pr view <n>\"]".to_string();
    let ask = |id: i64, what: &str, kind: &str, at: i64| DecisionRow {
        key: key.clone(),
        kind: kind.to_string(),
        ..decision(id, what, if what == "accepted" { Some("/bin/sum") } else { None }, at)
    };
    let d = vec![
        ask(1, "ignored", "intent", 2),
        ask(2, "ignored", "prompt", 3),
        ask(3, "accepted", "prompt", 4),
        // as a sequence of commands it never came back
        ask(4, "ignored", "sequence", 0),
    ];
    let f = evolve_findings(&rows(4), &asks, &d, &vec![0; 4]).unwrap();
    let found: Vec<(i64, usize)> = f.iter().map(|x| (x.pattern_id, x.manual_since)).collect();
    assert_eq!(found, vec![(1, 4), (3, 2)]);
    assert_eq!(f[0].kind, FindingKind::Resurfaced);
    assert_eq!(f[1].kind, FindingKind::NotAdopted);
    let templates = strings(&["ask: summarize this PR and check the types"]);
    assert_eq!(count_manual(&Vec::new(), &asks, "prompt", &templates, 5), 1);
    assert_eq!(count_manual(&Vec::new(), &asks, "intent", &Vec::new(), 0), 0);
    assert_eq!(count_manual(&rows(4), &asks, "fixloop", &strings(&["git add .", "git push"]), 0), 4);
}

#[test]
fn one_decision_is_judged_by_its_evidence() {
    let t = || strings(&["a", "b"]);
    assert!(judge(&decision(1, "accepted", Some("/x"), 0), t(), 0, 1).is_none());
    assert!(judge(&decision(1, "accepted", Some("/x"), 0), t(), 0, 2).is_some());
    assert!(judge(&decision(1, "accepted", Some("/x"), 0), t(), 1, 9).is_none());
    assert!(judge(&decision(1, "ignored", None, 0), t(), 0, 3).is_none());
    assert!(judge(&decision(1, "ignored", None, 0), t(), 0, 4).is_some());
}

#[test]
fn the_dialogue_leads_to_acts() {
    assert_eq!(opening(FindingKind::NotAdopted), Question::Unused);
    assert_eq!(opening(FindingKind::Resurfaced), Question::CameBack);
    assert_eq!(answer(Question::Unused, 'r'), Act::Diagnose);
    assert_eq!(answer(Question::Unused, 'x'), Act::Retire);
    assert_eq!(answer(Question::Unused, 's'), Act::Leave);
    assert_eq!(answer(Question::CameBack, 'r'), Act::Reopen);
    assert_eq!(answer(Question::CameBack, 'x'), Act::Leave);
    assert_eq!(answer(Question::Apply, 'a'), Act::Apply);
    assert_eq!(answer(Question::Apply, 'x'), Act::Leave);
    assert_eq!(answer(Question::Retire, 'x'), Act::Retire);
    assert_eq!(answer(Question::Retire, 'a'), Act::Leave);
    let rev = |a: &str| Revision {
        action: a.to_string(),
        reason: String::new(),
        content: String::new(),
    };
    assert_eq!(after_diagnosis(&rev("revise")), Question::Apply);
    assert_eq!(after_diagnosis(&rev("retire")), Question::Retire);
    assert_eq!(words_of(Question::Retire, &tool()), "  [x] retire / [s]kip? ");
    assert_eq!(
        words_of(Question::Unused, &tool()),
        "  [r]evise with quill / [x] retire artifact & reopen pattern / [s]kip? "
    );
}

#[test]
fn requests_are_routed() {
    assert_eq!(request_path(b"GET /api/data HTTP/1.1\r\nHost: x\r\n"), "/api/data");
    assert_eq!(request_path(b"GET\r\nfoo bar"), "/");
    assert_eq!(request_path(b""), "/");
    // bytes that are no text hold no request
    assert_eq!(request_path(&[b'G', b' ', b'x', 0xff]), "/");
    assert_eq!(route("/"), Route::Page);
    assert_eq!(route("/api/data"), Route::Data);
    assert_eq!(route("/x"), Route::Unknown);
    assert_eq!(
        unknown_answer(),
        "HTTP/1.1 404 Not Found\r\nContent-Type: text/plain\r\nContent-Length: 9\r\nCache-Control: no-store\r\n\r\nnot found"
    );
    assert!(page_answer("ä").contains("200 OK\r\nContent-Type: text/html; charset=utf-8\r\nContent-Length: 2\r\n"));
    assert!(data_answer(&Ok("{}".to_string())).contains("application/json\r\nContent-Length: 2\r\n"));
    assert!(data_answer(&Err("no".to_string())).starts_with("HTTP/1.1 500 Internal Server Error\r\nContent-Type: text/plain\r\n"));
}

#[test]
fn the_dashboard_is_json() {
    let d = Dashboard {
        commands: 5,
        prompts: 6,
        patterns_total: 1,
        accepted: 1,
        daily: vec![Count { name: "2026-01-01".to_string(), n: 3 }],
        gain: gains(&vec![Artifact {
            path: "/bin/up".to_string(),
            key: "[\"a\",\"b\"]".to_string(),
            uses: 2,
        }]),
        patterns: vec![
            PatternRow {
                id: 1,
                kind: "sequence".to_string(),
                key: "[\"a\",\"b \\\"c\\\"\"]".to_string(),
                count: 4,
                score: "12.5".to_string(),
                decision: "undecided".to_string(),
                artifact: None,
            },
            PatternRow {
                id: -2,
                kind: "x".to_string(),
                key: "raw".to_string(),
                count: 0,
                score: "0.0".to_string(),
                decision: "accepted".to_string(),
                artifact: Some("/bin/up".to_string()),
            },
        ],
        sources: vec![Count { name: "zsh".to_string(), n: 5 }],
        top_templates: vec![Count { name: "a\nb".to_string(), n: 2 }],
    };
    let text = data(&d);
    assert_eq!(
        text,
        "{\"daily\":[{\"d\":\"2026-01-01\",\"n\":3}],\"gain\":[{\"name\":\"up\",\"saved\":2,\"steps\":2,\"uses\":2}],\"patterns\":[{\"artifact\":null,\"chain\":\"a  →  b \\\"c\\\"\",\"count\":4,\"decision\":\"undecided\",\"id\":1,\"kind\":\"sequence\",\"score\":12.5},{\"artifact\":\"/bin/up\",\"chain\":\"raw\",\"count\":0,\"decision\":\"accepted\",\"id\":-2,\"kind\":\"x\",\"score\":0.0}],\"sources\":[{\"n\":5,\"name\":\"zsh\"}],\"top_templates\":[{\"n\":2,\"tpl\":\"a\\nb\"}],\"totals\":{\"accepted\":1,\"commands\":5,\"patterns\":1,\"prompts\":6,\"steps_saved\":2}}"
    );
    // another reader finds the same text in it, written the same way
    let v = serde_json::from_str::<serde_json::Value>(&text).unwrap();
    assert_eq!(v.to_string(), text);
    assert_eq!(v["totals"]["steps_saved"].as_i64(), Some(2));
    assert_eq!(chain("raw"), "raw");
}

fn facts() -> Facts {
    Facts {
        tool: tool(),
        claude: true,
        home: "/home/me".to_string(),
        zshrc: "setopt extended_history\neval \"$(sisyphus hook zsh)\"".to_string(),
        history: None,
        hook_log: false,
        path: Some("/bin:/home/me/.local/bin".to_string()),
        aliases: false,
        agent: true,
        zsh_count: 3,
        claude_count: 0,
        codex_count: 1,
        undecided: 2,
    }
}

#[test]
fn the_doctor_checks_everything() {
    assert_eq!(
        doctor::run(&facts()),
        "environment\n  ✓ quill CLI on PATH (needed for drafting)\n  ✓ zsh EXTENDED_HISTORY (timestamps make mining smarter)\n  ✓ shell hook installed (exit codes + durations for every command)\n  ✓ ~/.local/bin on PATH (where accepted scripts install)\n\nambient\n  ✓ hourly background scan installed\n\ndata\n  ✓ zsh history ingested (3 commands)\n  ✗ quill history ingested (0 commands)\n      fix: sisyphus ingest\n  ✓ codex history ingested (1 commands)\n  · 2 undecided pattern(s) waiting in `sisyphus report`\n"
    );
    let mut f = facts();
    f.claude = false;
    f.zshrc = String::new();
    f.path = None;
    f.aliases = true;
    f.agent = false;
    let text = doctor::run(&f);
    assert!(text.contains("  ✗ quill CLI on PATH (needed for drafting)\n      fix: install Quill Pen\n"));
    assert!(text.contains("fix: echo 'setopt EXTENDED_HISTORY' >> ~/.zshrc\n"));
    assert!(text.contains("fix: echo 'eval \"$(sisyphus hook zsh)\"' >> ~/.zshrc\n"));
    assert!(text.contains("fix: echo 'export PATH=\"$HOME/.local/bin:$PATH\"' >> ~/.zshrc\n"));
    assert!(text.contains("  ✗ accepted aliases sourced in ~/.zshrc\n      fix: echo 'source ~/.config/sisyphus/aliases.zsh' >> ~/.zshrc\n"));
    assert!(text.contains("fix: sisyphus watch --install\n"));
    assert!(has_extended("", &Some(b": 1:0;ls".to_vec())));
    assert!(!has_extended("", &Some(b":".to_vec())));
    assert!(!has_extended("", &None));
}

#[test]
fn the_agent_runs_both_commands() {
    let a = watch::agent("/opt/sisyphus");
    assert!(a.contains("<string>\"/opt/sisyphus\" ingest >/dev/null 2>&1 && \"/opt/sisyphus\" scan</string></array>"));
    assert!(a.starts_with("<?xml version=\"1.0\" encoding=\"UTF-8\"?>\n"));
    assert_eq!(watch::status(true), "installed: yes");
    assert_eq!(watch::status(false), "installed: no — run `sisyphus watch --install`");
}
