use sisyphus::mine::candidates::{
    choose_undecided, distinctive_step, drop_subsumed, key_list, make_candidate, pattern_key,
    pattern_project, project_name, propose, Candidate, History, Proposal,
};
use sisyphus::mine::clusters::{cluster_prompts, prompt_clusters, representative};
use sisyphus::mine::intents::{command_source, find_common, intents, steps_after, CommandRow};
use sisyphus::mine::loops::{fix_loops, RunRow};
use sisyphus::mine::pattern::{sort_by_score, weigh, Pattern};
use sisyphus::mine::prompts::{
    ask_recurrence_since, is_askable, is_directive, is_similar, is_stopword, load_prompts,
    word_set, AskRow, PromptRow,
};
use sisyphus::mine::sequences::{canonical_rotation, is_noise, is_quasi_periodic, retry_loop};
use sisyphus::mine::sessions::{dedupe_sessions, SessionRow};
use sisyphus::mine::streams::{dedup_runs, load_streams, occurrences_since, Step, StreamRow};
use sisyphus::mine::timing::{template_seconds, TimingRow};
use sisyphus::mine::workflows::mine;

#[derive(Debug)]
enum Agent {
    Claude,
}

/// The name of an agent's history.
fn agent(a: Agent) -> String {
    format!("{a:?}").to_lowercase()
}

fn strings(v: &[&str]) -> Vec<String> {
    v.iter().map(|s| s.to_string()).collect()
}

/// Rows as the history hands them out: by source, session and position.
fn stream(cmds: &[(&str, &str, i64)]) -> Vec<StreamRow> {
    let mut rows: Vec<(String, i64, String, i64)> = Vec::new();
    for (i, (src, tpl, seq)) in cmds.iter().enumerate() {
        rows.push((src.to_string(), *seq, tpl.to_string(), i as i64 + 1));
    }
    rows.sort();
    rows.into_iter()
        .map(|(source, _, template, id)| StreamRow { source, session: String::new(), template, id })
        .collect()
}

fn timing(cmds: &[(&str, &str, i64)]) -> Vec<TimingRow> {
    stream(cmds)
        .into_iter()
        .map(|r| TimingRow { session: r.session, template: r.template, ts: None, duration_ms: None })
        .collect()
}

fn prompts(raws: &[&str]) -> Vec<PromptRow> {
    raws.iter()
        .enumerate()
        .map(|(i, raw)| PromptRow {
            source: format!("{}_prompt", agent(Agent::Claude)),
            session: "s1".to_string(),
            seq: i as i64,
            raw: raw.to_string(),
        })
        .collect()
}

#[test]
fn finds_repeated_sequence() {
    let mut rows = Vec::new();
    let mut seq = 0;
    for _ in 0..4 {
        for t in ["git add .", "git commit -m <msg>", "git push", "vim"] {
            rows.push(("zsh", t, seq));
            seq += 1;
        }
    }
    let patterns = mine(&stream(&rows), &timing(&rows));
    assert!(!patterns.is_empty());
    let top = &patterns[0];
    assert!(top.templates.contains(&"git push".to_string()), "{:?}", top.templates);
    assert!(top.count >= 3);
}

#[test]
fn drops_noise_only_patterns() {
    let mut rows = Vec::new();
    for i in 0..10 {
        rows.push(("zsh", if i % 2 == 0 { "ls" } else { "cd <path>" }, i));
    }
    let patterns = mine(&stream(&rows), &timing(&rows));
    assert!(patterns.is_empty(), "{:?}", patterns.iter().map(|p| &p.templates).collect::<Vec<_>>());
}

#[test]
fn counts_occurrences_after_a_boundary() {
    let mut rows = Vec::new();
    let mut seq = 0;
    for _ in 0..4 {
        for t in ["git add .", "git push"] {
            rows.push(("zsh", t, seq));
            seq += 1;
        }
    }
    let boundary = rows.len() as i64;
    let tpls = vec!["git add .".to_string(), "git push".to_string()];
    assert_eq!(occurrences_since(&stream(&rows), &tpls, 0), 4);
    assert_eq!(occurrences_since(&stream(&rows), &tpls, boundary), 0);
    // two more manual repetitions after the boundary
    for t in ["git add .", "git push", "git add .", "git push"] {
        rows.push(("zsh", t, seq));
        seq += 1;
    }
    assert_eq!(occurrences_since(&stream(&rows), &tpls, boundary), 2);
}

#[test]
fn detects_fix_loop() {
    let mut rows = Vec::new();
    for i in 0..4 {
        rows.push(RunRow {
            source: agent(Agent::Claude),
            bucket: Some("s1".to_string()),
            template: "cargo build".to_string(),
            failed: i < 2,
        });
    }
    let loops = fix_loops(&rows, &Vec::new());
    assert_eq!(loops.len(), 1);
    assert_eq!(loops[0].templates, vec!["cargo build".to_string()]);
    assert_eq!(loops[0].count, 4);
}

#[test]
fn clusters_similar_prompts() {
    let rows = prompts(&[
        "summarize this PR and check the types please",
        "summarize the PR then check types",
        "please summarize this PR and check its types",
        "write a haiku about rust",
    ]);
    let clusters = prompt_clusters(&rows);
    assert_eq!(clusters.len(), 1);
    assert_eq!(clusters[0].count, 3);
    assert!(clusters[0].templates[0].contains("summarize"));
}

#[test]
fn dedupes_replayed_sessions() {
    let a = ["npm ci", "npm run build", "npm test"];
    // session B replays A's three commands then adds one more (a continuation)
    let b = ["npm ci", "npm run build", "npm test", "npm run deploy"];
    let mut rows = Vec::new();
    for t in a {
        rows.push(SessionRow { session: "A".to_string(), event: t.to_string() });
    }
    for t in b {
        rows.push(SessionRow { session: "B".to_string(), event: t.to_string() });
    }
    let gone = dedupe_sessions(&rows);
    assert_eq!(gone.len(), 1); // A is a prefix of B → superseded
    assert_eq!(gone[0], "A");
    // the replayed sequence must now be counted once, not twice
    let mut left = Vec::new();
    for (i, r) in rows.iter().enumerate() {
        if !gone.contains(&r.session) {
            left.push(StreamRow {
                source: "codex".to_string(),
                session: r.session.clone(),
                template: r.event.clone(),
                id: i as i64 + 1,
            });
        }
    }
    let seqs = mine(&left, &Vec::new());
    let build = seqs.iter().find(|p| p.templates.iter().any(|t| t == "npm run build"));
    assert!(build.is_none() || build.unwrap().count == 1);
}

#[test]
fn ask_recurrence_counts_matches_after_boundary() {
    let rows = vec![
        AskRow { id: 1, raw: "summarize this PR and check the types".to_string() },
        AskRow { id: 2, raw: "please summarize the PR then check its types".to_string() },
        AskRow { id: 3, raw: "write a poem about the ocean".to_string() },
    ];
    let boundary = 1;
    let n = ask_recurrence_since(&rows, "summarize this PR and check the types", boundary);
    assert_eq!(n, 1);
    // the ask itself counts when the boundary lies before it
    assert_eq!(ask_recurrence_since(&rows, "summarize this PR and check the types", 0), 2);
    assert_eq!(ask_recurrence_since(&rows, "the and for", 0), 0);
}

#[test]
fn short_oneoffs_do_not_pool() {
    // distinct short asks sharing at most one incidental word, plus a
    // skill directive — none should cluster or inflate a count
    let rows = prompts(&[
        "add certificate",
        "add license file",
        "fix the build",
        "$autonomous-skill build recommended features autonomously",
        "yes change to wendy pan",
    ]);
    assert!(prompt_clusters(&rows).is_empty());
}

#[test]
fn collapses_immediate_repeats() {
    let mut rows = Vec::new();
    for i in 0..20 {
        rows.push(("zsh", "pnpm run dev", i));
    }
    let patterns = mine(&stream(&rows), &timing(&rows));
    assert!(patterns.is_empty());
}

#[test]
fn noise_is_navigation() {
    assert!(is_noise("ls -la"));
    assert!(is_noise("cd <path>"));
    assert!(is_noise("git status"));
    assert!(!is_noise("cd <path> && make"));
    assert!(!is_noise("git status --short"));
    assert!(!is_noise("cargo build"));
}

#[test]
fn repetitions_of_a_unit_are_told() {
    assert!(is_quasi_periodic(&strings(&["a", "b", "a", "b"])));
    assert!(is_quasi_periodic(&strings(&["a", "b", "a"])));
    assert!(!is_quasi_periodic(&strings(&["a", "b", "c"])));
    assert!(!is_quasi_periodic(&strings(&["a"])));
    assert!(retry_loop(&strings(&["a", "b", "a", "c", "a"])));
    assert!(!retry_loop(&strings(&["a", "b", "a", "c"])));
}

#[test]
fn rotations_share_one_canonical_form() {
    let a = canonical_rotation(&strings(&["git push", "git add", "git commit"]));
    let b = canonical_rotation(&strings(&["git commit", "git push", "git add"]));
    assert_eq!(a, b);
    assert_eq!(a, strings(&["git add", "git commit", "git push"]));
    // no rotation comes before it
    for r in [["git push", "git add", "git commit"], ["git commit", "git push", "git add"]] {
        assert!(a <= strings(&r));
    }
    // another order of the same steps is another cycle
    let c = canonical_rotation(&strings(&["git add", "git push", "git commit"]));
    assert_ne!(a, c);
}

#[test]
fn rotations_of_a_cycle_are_one_pattern() {
    let mut rows = Vec::new();
    for i in 0..12 {
        rows.push(("zsh", if i % 2 == 0 { "make build" } else { "make test" }, i));
    }
    let patterns = mine(&stream(&rows), &timing(&rows));
    assert_eq!(patterns.len(), 1);
    assert_eq!(patterns[0].templates.len(), 2);
    assert_eq!(patterns[0].count, 6);
    // two steps of the default twelve seconds, six times, four units a millisecond
    assert_eq!(patterns[0].score, 4 * 6 * 24_000);
}

#[test]
fn shifted_windows_of_one_workflow_are_one_pattern() {
    let mut rows = Vec::new();
    let mut seq = 0;
    for i in 0..4 {
        for t in ["w1", "w2", "w3", "w4"] {
            rows.push(("zsh", t.to_string(), seq));
            seq += 1;
        }
        rows.push(("zsh", format!("other {i}"), seq));
        seq += 1;
    }
    let borrowed: Vec<(&str, &str, i64)> = rows.iter().map(|(s, t, n)| (*s, t.as_str(), *n)).collect();
    let patterns = mine(&stream(&borrowed), &timing(&borrowed));
    assert_eq!(patterns.len(), 1);
    assert_eq!(patterns[0].templates, strings(&["w1", "w2", "w3", "w4"]));
    assert_eq!(patterns[0].count, 4);
}

#[test]
fn two_occurrences_are_no_pattern() {
    let rows = [
        ("zsh", "a b", 0),
        ("zsh", "c d", 1),
        ("zsh", "e f", 2),
        ("zsh", "a b", 3),
        ("zsh", "c d", 4),
    ];
    assert!(mine(&stream(&rows), &timing(&rows)).is_empty());
}

#[test]
fn streams_end_where_the_session_changes() {
    let row = |session: &str, template: &str, id: i64| StreamRow {
        source: agent(Agent::Claude),
        session: session.to_string(),
        template: template.to_string(),
        id,
    };
    let rows = vec![row("a", "x", 1), row("a", "x", 2), row("a", "y", 3), row("b", "y", 4)];
    let streams = load_streams(&rows);
    assert_eq!(streams.len(), 2);
    assert_eq!(streams[0].len(), 3);
    assert_eq!(streams[1].len(), 1);
    let collapsed = dedup_runs(&streams[0]);
    assert_eq!(collapsed.len(), 2);
    assert_eq!(collapsed[0].id, 1);
    assert_eq!(collapsed[1].template, "y");
    // nothing is left to collapse
    assert_eq!(dedup_runs(&collapsed).len(), 2);
    // a sequence does not reach over the end of a session
    assert_eq!(occurrences_since(&rows, &strings(&["x", "y"]), 0), 1);
    assert_eq!(occurrences_since(&rows, &strings(&["y", "y"]), 0), 0);
    assert_eq!(occurrences_since(&rows, &Vec::new(), 0), 0);
}

#[test]
fn occurrences_do_not_overlap() {
    let steps: Vec<(&str, &str, i64)> = (0..7)
        .map(|i| ("zsh", if i % 2 == 0 { "a" } else { "b" }, i))
        .collect();
    // a b a b a b a: "a b a" stands at 0 and at 4
    assert_eq!(occurrences_since(&stream(&steps), &strings(&["a", "b", "a"]), 0), 2);
}

#[test]
fn steps_cost_their_median_time() {
    let row = |session: &str, template: &str, ts: Option<i64>, ms: Option<i64>| TimingRow {
        session: session.to_string(),
        template: template.to_string(),
        ts,
        duration_ms: ms,
    };
    let rows = vec![
        row("s", "build", None, Some(1_000)),
        row("s", "build", None, Some(3_000)),
        row("s", "build", None, Some(9_000_000)),
        row("s", "edit", Some(100), None),
        row("s", "test", Some(107), None),
        row("t", "test", Some(200), None),
    ];
    let t = template_seconds(&rows);
    // 1 s, 3 s and a capped 300 s
    assert_eq!(t.step("build"), 3_000);
    // the gap to the next step of the session
    assert_eq!(t.step("edit"), 7_000);
    // no step follows in its session: the median of 3 s and 7 s, the upper one
    assert_eq!(t.step("test"), 7_000);
    assert_eq!(t.run(&strings(&["build", "edit", "build"])), 13_000);
    assert_eq!(template_seconds(&Vec::new()).step("anything"), 12_000);
}

#[test]
fn a_negative_gap_counts_as_nothing() {
    let rows = vec![
        TimingRow { session: "s".into(), template: "a".into(), ts: Some(50), duration_ms: None },
        TimingRow { session: "s".into(), template: "b".into(), ts: Some(10), duration_ms: Some(-5) },
    ];
    let t = template_seconds(&rows);
    assert_eq!(t.step("a"), 0);
    assert_eq!(t.step("b"), 0);
}

#[test]
fn costlier_patterns_come_first_and_equal_ones_stay_in_order() {
    let p = |name: &str, score: u128| Pattern { templates: strings(&[name]), count: 1, score };
    let sorted = sort_by_score(&vec![p("a", 5), p("b", 9), p("c", 5), p("d", 7)]);
    let names: Vec<&str> = sorted.iter().map(|p| p.templates[0].as_str()).collect();
    assert_eq!(names, vec!["b", "d", "a", "c"]);
    assert_eq!(weigh(4, 3, 1000), 12_000);
    assert_eq!(weigh(4, usize::MAX, u128::MAX), u128::MAX);
}

#[test]
fn fix_loops_need_runs_and_failures_in_one_session() {
    let run = |source: &str, bucket: Option<&str>, template: &str, failed: bool| RunRow {
        source: source.to_string(),
        bucket: bucket.map(|b| b.to_string()),
        template: template.to_string(),
        failed,
    };
    let mut rows = Vec::new();
    // three runs but only one failure
    for i in 0..3 {
        rows.push(run("codex", Some("s1"), "npm test", i == 0));
    }
    // failures spread over two sessions
    for s in ["s1", "s2"] {
        for _ in 0..2 {
            rows.push(run("codex", Some(s), "make", true));
        }
    }
    assert!(fix_loops(&rows, &Vec::new()).is_empty());
    // noise is no fix loop
    for _ in 0..5 {
        rows.push(run("zsh", None, "ls", true));
    }
    assert!(fix_loops(&rows, &Vec::new()).is_empty());
    // two sessions of cargo build, one of go test with more runs
    for s in ["s1", "s2"] {
        for i in 0..3 {
            rows.push(run("codex", Some(s), "cargo build", i < 2));
        }
    }
    for i in 0..7 {
        rows.push(run("zsh", Some("2026-01-01"), "go test", i < 2));
    }
    let loops = fix_loops(&rows, &Vec::new());
    assert_eq!(loops.len(), 2);
    assert_eq!(loops[0].templates, strings(&["go test"]));
    assert_eq!(loops[0].count, 7);
    // one session: five quarters of seven times twelve seconds
    assert_eq!(loops[0].score, 5 * 7 * 12_000);
    assert_eq!(loops[1].templates, strings(&["cargo build"]));
    assert_eq!(loops[1].count, 6);
    assert_eq!(loops[1].score, 6 * 6 * 12_000);
    // of commands with equally many runs the first by name comes first
    for i in 0..7 {
        rows.push(run("zsh", Some("2026-01-02"), "ant", i < 2));
    }
    let loops = fix_loops(&rows, &Vec::new());
    let found: Vec<(&str, usize)> =
        loops.iter().map(|p| (p.templates[0].as_str(), p.count)).collect();
    assert_eq!(found, vec![("ant", 7), ("go test", 7), ("cargo build", 6)]);
}

#[test]
fn content_words_leave_out_glue() {
    let mut words = word_set("Please WRITE the Release-Notes for v2, then ÜBER notes");
    words.sort();
    assert_eq!(words, strings(&["notes", "release", "über"]));
    assert!(is_stopword("please"));
    assert!(!is_stopword("release"));
    // two bytes are too short, three bytes in two letters are enough
    assert!(word_set("go üa").len() == 1);
}

#[test]
fn similarity_needs_two_words_and_two_fifths() {
    let set = |t: &str| word_set(t);
    assert!(is_similar(&set("alpha beta gamma"), &set("alpha beta delta")));
    assert!(!is_similar(&set("alpha gamma"), &set("alpha delta")));
    // two of seven words are shared
    assert!(!is_similar(&set("alpha beta gam1 gam2"), &set("alpha beta del1 del2 del3")));
    // two of five words are shared
    assert!(is_similar(&set("alpha beta gam1"), &set("alpha beta del1 del2")));
    // similarity goes both ways
    assert!(is_similar(&set("alpha beta del1 del2"), &set("alpha beta gam1")));
}

#[test]
fn directives_are_no_asks() {
    assert!(is_directive("  $skill go"));
    assert!(is_directive("/help"));
    assert!(is_directive("!ls"));
    assert!(!is_directive("explain $PATH"));
    assert!(!is_directive(""));
    assert!(is_askable("explain lifetime errors"));
    assert!(!is_askable("explain it"));
    assert!(!is_askable(&"word another third ".repeat(20)));
    // what follows a NUL does not count
    assert!(!is_askable("alpha\0 beta gamma delta"));
}

#[test]
fn identical_prompts_count_once() {
    let rows = prompts(&[
        "summarize the parser module",
        "summarize the parser module",
        "summarize the lexer module",
        "short",
    ]);
    let loaded = load_prompts(&rows);
    assert_eq!(loaded.len(), 2);
    assert_eq!(loaded[0].seq, 0);
    assert_eq!(loaded[1].seq, 2);
}

#[test]
fn clusters_are_linked_over_other_prompts() {
    // the first and the third share too little, but both are like the second
    let rows = prompts(&[
        "alpha beta gamma delta",
        "unrelated words stand here",
        "gamma delta epsilon zeta",
        "beta gamma delta epsilon",
    ]);
    let c = cluster_prompts(&rows);
    assert_eq!(c, vec![vec![0, 2, 3]]);
    // the shortest speaks for all, the first of equally short ones
    assert_eq!(representative(&rows, &c[0]), "alpha beta gamma delta");
}

#[test]
fn session_streams_supersede_only_true_prefixes() {
    let mut rows = Vec::new();
    for (session, events) in [
        ("long", vec!["a", "b", "c", "d"]),
        ("short", vec!["a", "b"]),
        ("twin1", vec!["x", "y", "z"]),
        ("twin2", vec!["x", "y", "z"]),
        ("other", vec!["a", "b", "x"]),
    ] {
        for e in events {
            rows.push(SessionRow { session: session.to_string(), event: e.to_string() });
        }
    }
    // two events may coincide; of twins the first by name stays
    assert_eq!(dedupe_sessions(&rows), strings(&["twin2"]));
    assert!(dedupe_sessions(&Vec::new()).is_empty());
}

#[test]
fn commands_belong_to_the_prompt_before_them() {
    let rows = prompts(&["first ask of the session", "second ask of the session"]);
    let cmd = |source: &str, session: Option<&str>, seq: i64, template: &str| CommandRow {
        source: source.to_string(),
        session: session.map(|s| s.to_string()),
        seq,
        template: template.to_string(),
    };
    let mut rows2 = rows;
    for r in rows2.iter_mut() {
        r.source = "codex_prompt".to_string();
    }
    rows2[1].seq = 10;
    let commands = vec![
        cmd("codex", Some("s1"), 0, "too early"),
        cmd("codex", Some("s1"), 1, "git fetch"),
        cmd("zsh", Some("s1"), 2, "other tool"),
        cmd("codex", Some("s2"), 3, "other session"),
        cmd("codex", None, 4, "no session"),
        cmd("codex", Some("s1"), 5, "git fetch"),
        cmd("codex", Some("s1"), 6, "cargo test"),
        cmd("codex", Some("s1"), 11, "after the next"),
    ];
    assert_eq!(steps_after(&rows2, &commands, &rows2[0]), strings(&["git fetch", "cargo test"]));
    assert_eq!(steps_after(&rows2, &commands, &rows2[1]), strings(&["after the next"]));
    assert_eq!(command_source("codex_prompt"), "codex");
    assert_eq!(command_source("x_prompt_prompt"), "x");
    assert_eq!(command_source("codex"), "codex");
}

#[test]
fn any_next_prompt_ends_what_belongs_to_an_ask() {
    let asks = [
        "summarize this PR and check the types",
        "please summarize the PR then check types",
        "can you summarize this PR and check its types",
    ];
    let prompt = |session: &str, seq: i64, raw: &str| PromptRow {
        source: "codex_prompt".to_string(),
        session: session.to_string(),
        seq,
        raw: raw.to_string(),
    };
    let command = |session: &str, seq: i64, template: &str| CommandRow {
        source: "codex".to_string(),
        session: Some(session.to_string()),
        seq,
        template: template.to_string(),
    };
    let mut rows = Vec::new();
    let mut commands = Vec::new();
    for (i, a) in asks.iter().enumerate() {
        let s = format!("s{i}");
        rows.push(prompt(&s, 0, a));
        commands.push(command(&s, 1, "gh pr view <n>"));
        commands.push(command(&s, 2, "npx tsc --noEmit"));
        // too short to be an ask of its own
        rows.push(prompt(&s, 3, "ok go"));
        commands.push(command(&s, 4, "git push"));
    }
    let found = intents(&rows, &commands, &Vec::new());
    assert_eq!(found.len(), 1);
    assert_eq!(found[0].templates[1..], strings(&["gh pr view <n>", "npx tsc --noEmit"])[..]);
    assert_eq!(steps_after(&rows, &commands, &rows[1]), strings(&["git push"]));
}

#[test]
fn of_equal_sessions_the_first_by_name_counts() {
    let events = ["a", "b", "c"];
    let session = |name: &str, events: &[&str]| -> Vec<SessionRow> {
        events
            .iter()
            .map(|e| SessionRow { session: name.to_string(), event: e.to_string() })
            .collect()
    };
    let mut rows = session("y", &events);
    rows.extend(session("x", &events));
    assert_eq!(dedupe_sessions(&rows), strings(&["y"]));
    // a chain of continuations leaves the longest
    rows.extend(session("z", &["a", "b", "c", "d"]));
    assert_eq!(dedupe_sessions(&rows), strings(&["x", "y"]));
    // two events are too few to tell
    let mut short = session("p", &["a", "b"]);
    short.extend(session("q", &events));
    assert!(dedupe_sessions(&short).is_empty());
}

#[test]
fn a_count_agrees_with_counting_from_the_beginning() {
    let mut rows = Vec::new();
    let mut seq = 0;
    for _ in 0..4 {
        for t in ["git add .", "git commit", "git push", "echo"] {
            rows.push(("zsh", t, seq));
            seq += 1;
        }
    }
    // the part occurs on its own so often that it is listed beside the whole
    for _ in 0..6 {
        for t in ["git commit", "git push", "other"] {
            rows.push(("zsh", t, seq));
            seq += 1;
        }
    }
    let rows = stream(&rows);
    let found = mine(&rows, &Vec::new());
    assert!(!found.is_empty());
    for p in &found {
        assert_eq!(p.count, occurrences_since(&rows, &p.templates, 0));
        assert!(occurrences_since(&rows, &p.templates, 9) <= p.count);
        for q in &found {
            let part = q.templates.len() > p.templates.len()
                && q.templates.windows(p.templates.len()).any(|w| w == &p.templates[..]);
            assert!(!part || 5 * q.count < 3 * p.count);
        }
    }
    assert_eq!(occurrences_since(&rows, &Vec::new(), 0), 0);
}

#[test]
fn a_repetition_gives_way_to_its_unit() {
    let mut cmds = Vec::new();
    let others = ["one", "two", "three", "four"];
    for (i, other) in others.iter().enumerate() {
        for t in ["make", "./run", "make", "./run", *other] {
            cmds.push(("zsh", t, cmds.len() as i64 + i as i64));
        }
    }
    let found = mine(&stream(&cmds), &Vec::new());
    assert_eq!(found.len(), 1);
    assert_eq!(found[0].templates, strings(&["make", "./run"]));
    assert_eq!(found[0].count, 8);
}

#[test]
fn the_routine_is_what_most_instances_share() {
    let instances = vec![
        strings(&["gh pr view", "gh pr diff", "npx tsc", "ls"]),
        strings(&["gh pr view", "npx tsc", "ls"]),
        strings(&["gh pr diff", "gh pr view", "ls", "once"]),
    ];
    // two of three are enough; noise is left out; earlier steps come first
    assert_eq!(find_common(&instances), strings(&["gh pr view", "gh pr diff", "npx tsc"]));
    assert!(find_common(&Vec::new()).is_empty());
}

#[test]
fn an_intent_is_an_ask_with_its_steps() {
    let asks = [
        "summarize this PR and check the types",
        "please summarize the PR then check types",
        "can you summarize this PR and check its types",
    ];
    let mut rows = Vec::new();
    let mut commands = Vec::new();
    for (i, a) in asks.iter().enumerate() {
        rows.push(PromptRow {
            source: "codex_prompt".to_string(),
            session: format!("s{i}"),
            seq: 0,
            raw: a.to_string(),
        });
        for (k, t) in ["gh pr view <n>", "npx tsc --noEmit"].iter().enumerate() {
            commands.push(CommandRow {
                source: "codex".to_string(),
                session: Some(format!("s{i}")),
                seq: k as i64 + 1,
                template: t.to_string(),
            });
        }
    }
    let found = intents(&rows, &commands, &Vec::new());
    assert_eq!(found.len(), 1);
    assert_eq!(
        found[0].templates,
        strings(&["ask: summarize this PR and check the types", "gh pr view <n>", "npx tsc --noEmit"])
    );
    assert_eq!(found[0].count, 3);
    // three halves of three times twenty-four seconds
    assert_eq!(found[0].score, 6 * 3 * 24_000);
    // what followed a single one of the asks is no routine
    let few: Vec<CommandRow> = commands
        .iter()
        .filter(|c| c.session.as_deref() == Some("s0"))
        .map(|c| CommandRow {
            source: c.source.clone(),
            session: c.session.clone(),
            seq: c.seq,
            template: c.template.clone(),
        })
        .collect();
    assert!(intents(&rows, &few, &Vec::new()).is_empty());
    // the bare cluster of the same ask is part of the intent
    let clusters = prompt_clusters(&rows);
    assert_eq!(clusters.len(), 1);
    assert_eq!(clusters[0].score, 3 * 8_000);
    assert!(drop_subsumed(&found, &clusters).is_empty());
    assert_eq!(drop_subsumed(&Vec::new(), &clusters).len(), 1);
}

fn proposal(kind: &str, name: &str) -> Proposal {
    Proposal {
        kind: kind.to_string(),
        pattern: Pattern { templates: strings(&[name]), count: 3, score: 12_000 },
    }
}

#[test]
fn each_kind_shows_its_first_undecided_patterns() {
    let all = vec![
        proposal("sequence", "a"),
        proposal("sequence", "b"),
        proposal("sequence", "c"),
        proposal("prompt", "d"),
        proposal("sequence", "e"),
    ];
    let decided = vec![false, true, false, false, false];
    assert_eq!(choose_undecided(&all, &decided, 2), vec![0, 2, 3]);
    assert!(choose_undecided(&all, &decided, 0).is_empty());
}

#[test]
fn a_stored_pattern_reads_back() {
    let t = strings(&["git \"commit\"", "a\\b\n", "ask: ünï"]);
    let key = pattern_key(&t);
    assert_eq!(key, "[\"git \\\"commit\\\"\",\"a\\\\b\\n\",\"ask: ünï\"]");
    assert_eq!(key_list(&key), Some(t));
    let odd = strings(&["\u{1}\u{8}\t\u{b}\u{c}\r\u{1f}\u{7f}/"]);
    assert_eq!(pattern_key(&odd), "[\"\\u0001\\b\\t\\u000b\\f\\r\\u001f\u{7f}/\"]");
    assert_eq!(key_list(&pattern_key(&odd)), Some(odd));
    assert_eq!(pattern_key(&Vec::new()), "[]");
    assert_eq!(key_list("{}"), None);
    assert_eq!(key_list("[1]"), None);
}

#[test]
fn a_pattern_lives_in_a_project() {
    assert_eq!(distinctive_step(&strings(&["ask: do it", "make"])), Some("make".to_string()));
    assert_eq!(distinctive_step(&strings(&["ask: do it"])), None);
    assert_eq!(project_name("/home/me/fitlens//"), Some("fitlens".to_string()));
    assert_eq!(project_name("plain"), Some("plain".to_string()));
    assert_eq!(project_name("///"), None);
    assert_eq!(project_name(""), None);
    let c = make_candidate(&proposal("sequence", "make"), 7, &Some("/srv/app".to_string()));
    assert_eq!(c.id, 7);
    assert_eq!(c.project, Some("app".to_string()));
    assert_eq!(c.kind, "sequence");
    assert_eq!(make_candidate(&proposal("sequence", "make"), 7, &None).project, None);
    // an ask alone is run nowhere
    let dir = Some("/srv/app".to_string());
    assert_eq!(pattern_project(&strings(&["ask: do it"]), &dir), None);
    assert_eq!(pattern_project(&strings(&["ask: do it", "make"]), &dir), Some("app".to_string()));
}

fn costed(kind: &str, score: u128) -> String {
    let c = Candidate {
        id: 1,
        kind: kind.to_string(),
        templates: strings(&["x"]),
        count: 3,
        score,
        project: None,
    };
    c.cost_label()
}

#[test]
fn costs_are_told_in_minutes_or_seconds() {
    assert_eq!(costed("prompt", 24_000), "score 6");
    assert_eq!(costed("sequence", 4_000 * 59), "~59s by hand");
    assert_eq!(costed("sequence", 4_000 * 60), "~1 min by hand");
    assert_eq!(costed("fixloop", 4_000 * 84 * 60), "~84 min by hand");
    // halves go to the even neighbour
    assert_eq!(costed("sequence", 4_000 * 150), "~2 min by hand");
    assert_eq!(costed("sequence", 10_000), "~2s by hand");
    assert_eq!(costed("sequence", 14_000), "~4s by hand");
}

#[test]
fn an_empty_history_proposes_nothing() {
    let h = History {
        rows: Vec::new(),
        runs: Vec::new(),
        prompts: Vec::new(),
        commands: Vec::new(),
        times: Vec::new(),
    };
    assert!(propose(&h).is_empty());
}

#[test]
fn steps_keep_their_numbers() {
    let s = vec![
        Step { template: "a".to_string(), id: 4 },
        Step { template: "a".to_string(), id: 5 },
        Step { template: "b".to_string(), id: 6 },
        Step { template: "a".to_string(), id: 7 },
    ];
    let ids: Vec<i64> = dedup_runs(&s).iter().map(|x| x.id).collect();
    assert_eq!(ids, vec![4, 6, 7]);
}
