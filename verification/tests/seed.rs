use sisyphus::mine::candidates::{choose_undecided, make_candidate, propose, Candidate, History};
use sisyphus::mine::intents::CommandRow;
use sisyphus::mine::loops::RunRow;
use sisyphus::mine::prompts::PromptRow;
use sisyphus::mine::streams::StreamRow;
use sisyphus::mine::timing::TimingRow;
use sisyphus::normalize::template;
use sisyphus::seed::{run, Rng, SeedRow, Source};

const NOW: i64 = 1_784_127_824;

/// The name of a source in the history.
fn name(s: Source) -> String {
    match s {
        Source::ClaudePrompt => format!("{}_prompt", name(Source::Claude)),
        other => format!("{other:?}").to_lowercase(),
    }
}

/// What the miner reads of synthetic rows.
fn history(mut seeded: Vec<SeedRow>) -> History {
    seeded.sort_by(|a, b| {
        (name(a.source), &a.session, a.seq).cmp(&(name(b.source), &b.session, b.seq))
    });
    let mut h = History {
        rows: Vec::new(),
        runs: Vec::new(),
        prompts: Vec::new(),
        commands: Vec::new(),
        times: Vec::new(),
    };
    for (i, r) in seeded.iter().enumerate() {
        if r.source == Source::ClaudePrompt {
            h.prompts.push(PromptRow {
                source: name(r.source),
                session: r.session.clone(),
                seq: r.seq,
                raw: r.raw.clone(),
            });
            continue;
        }
        let t = template(&r.raw);
        h.rows.push(StreamRow {
            source: name(r.source),
            session: r.session.clone(),
            template: t.clone(),
            id: i as i64 + 1,
        });
        h.runs.push(RunRow {
            source: name(r.source),
            bucket: Some(r.session.clone()),
            template: t.clone(),
            failed: r.failed,
        });
        h.commands.push(CommandRow {
            source: name(r.source),
            session: Some(r.session.clone()),
            seq: r.seq,
            template: t.clone(),
        });
        h.times.push(TimingRow {
            session: r.session.clone(),
            template: t,
            ts: Some(r.ts),
            duration_ms: None,
        });
    }
    h.commands.sort_by_key(|c| c.seq);
    h
}

/// The undecided candidates, up to `limit` of each kind.
fn candidates(h: &History, limit: usize) -> Vec<Candidate> {
    let all = propose(h);
    let decided = vec![false; all.len()];
    choose_undecided(&all, &decided, limit)
        .into_iter()
        .map(|i| make_candidate(&all[i], i as i64 + 1, &None))
        .collect()
}

/// End-to-end: seed a fresh history, mine it, and assert the miner
/// finds each kind of planted pattern.
#[test]
fn miner_finds_planted_patterns() {
    let seeded = run(NOW, 21);
    let n = seeded.len();
    assert!(n > 100, "seeded only {n} commands");

    let cands = candidates(&history(seeded), 10);
    let kinds: std::collections::HashSet<_> = cands.iter().map(|c| c.kind.clone()).collect();
    assert!(kinds.contains("sequence"), "no sequences found");
    assert!(kinds.contains("fixloop"), "no fix-loops found");
    assert!(kinds.contains("prompt"), "no prompt clusters found");

    // the planted deploy workflow must surface as one sequence
    let deploy = cands.iter().any(|c| {
        c.kind == "sequence"
            && c.templates.iter().any(|t| t.starts_with("git pull"))
            && c.templates.iter().any(|t| t.starts_with("npm run build"))
    });
    assert!(
        deploy,
        "deploy workflow not mined: {:?}",
        cands.iter().map(|c| &c.templates).collect::<Vec<_>>()
    );

    // the cargo build fix-loop must be detected
    let fixloop = cands
        .iter()
        .any(|c| c.kind == "fixloop" && c.templates[0].starts_with("cargo build"));
    assert!(fixloop, "cargo build fix-loop not mined");

    // the PR ask + its routine must fuse into an intent
    let intent = cands.iter().find(|c| c.kind == "intent");
    let intent = intent.expect("no intent mined");
    assert!(intent.templates[0].starts_with("ask: "), "{:?}", intent.templates);
    assert!(
        intent.templates.iter().any(|t| t.starts_with("gh pr view")),
        "intent missing agent steps: {:?}",
        intent.templates
    );
    // and the bare prompt cluster it grew from must not also appear
    let ask = intent.templates[0].strip_prefix("ask: ").unwrap();
    assert!(
        !cands.iter().any(|c| c.kind == "prompt" && c.templates[0] == ask),
        "intent's prompt cluster leaked through as separate candidate"
    );
}

#[test]
fn synthetic_history_is_reproducible() {
    let (a, b) = (run(NOW, 5), run(NOW, 5));
    assert_eq!(a.len(), b.len());
    for (i, (x, y)) in a.iter().zip(&b).enumerate() {
        assert_eq!(x.raw, y.raw);
        assert_eq!(x.ts, y.ts);
        // rows are numbered one by one
        assert_eq!(x.seq, 1_000_001 + i as i64);
    }
    assert!(run(NOW, 0).is_empty());
    assert!(run(NOW, -3).is_empty());
}

#[test]
fn the_generator_is_a_fixed_one() {
    let mut rng = Rng(42);
    // 42 * 6364136223846793005 + 1442695040888963407, wrapped, without its low 33 bits
    let state = 42u64.wrapping_mul(6364136223846793005).wrapping_add(1442695040888963407);
    assert_eq!(rng.next(), state >> 33);
    assert_eq!(rng.0, state);
    let xs = vec![10, 20, 30];
    let mut twin = Rng(rng.0);
    let n = twin.next();
    assert_eq!(*rng.pick(&xs), xs[(n % 3) as usize]);
    assert!(!rng.chance(0));
    assert!(rng.chance(100));
}
