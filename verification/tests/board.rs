use sisyphus::draft::reply::Draft;
use sisyphus::mine::candidates::Candidate;
use sisyphus::theme::Theme;
use sisyphus::tool::Tool;
use sisyphus::tui::board::{Board, Effect, Key, State};
use sisyphus::tui::view::{detail, draw_rule, kind_icon, list_row, state_span, status, Span};

fn tool() -> Tool {
    Tool {
        command: "quill".to_string(),
        product: "Quill Pen".to_string(),
        skills: ".quill/skills".to_string(),
    }
}

fn draft(name: &str) -> Draft {
    Draft {
        name: name.to_string(),
        kind: "script".to_string(),
        summary: "saves time".to_string(),
        content: "one\ntwo".to_string(),
    }
}

fn candidate(kind: &str) -> Candidate {
    Candidate {
        id: 3,
        kind: kind.to_string(),
        templates: vec!["a very long first template indeed".to_string(), "second".to_string()],
        count: 5,
        score: 4_000 * 90,
        project: None,
    }
}

fn line(v: &[Span]) -> String {
    v.iter().map(|s| s.text.as_str()).collect()
}

#[test]
fn the_selection_stays_on_the_board() {
    let mut b = Board::new(2);
    assert!(b.press(Key::Up) == Effect::Stay && b.selected == 0);
    b.press(Key::Down);
    b.press(Key::Down);
    assert_eq!(b.selected, 1);
    assert!(b.press(Key::Quit) == Effect::Quit);
    assert!(b.press(Key::Other) == Effect::Stay);
}

#[test]
fn drafts_go_through_the_queue() {
    let mut b = Board::new(5);
    for _ in 0..5 {
        b.press(Key::Draft);
        b.press(Key::Down);
    }
    // a queued candidate is not queued again
    b.press(Key::Draft);
    assert_eq!(b.queue, vec![0, 1, 2, 3, 4]);
    assert_eq!(b.feed(), Some(0));
    assert_eq!(b.feed(), Some(1));
    assert_eq!(b.feed(), Some(2));
    // no more than three at a time
    assert_eq!(b.feed(), None);
    assert_eq!(b.active, 3);
    assert!(!b.installs(&Ok(draft("x"))));
    b.drafted(1, Ok(draft("x")));
    assert_eq!(b.active, 2);
    assert!(matches!(&b.states[1], State::Drafted(d) if d.name == "x"));
    assert_eq!(b.feed(), Some(3));
    b.drafted(0, Err("no luck".to_string()));
    assert!(matches!(&b.states[0], State::Failed(e) if e == "draft failed: no luck"));
}

#[test]
fn an_accepted_draft_is_done() {
    let mut b = Board::new(1);
    // nothing to accept yet
    assert!(b.press(Key::Accept) == Effect::Stay);
    b.press(Key::Draft);
    b.feed();
    b.drafted(0, Ok(draft("up")));
    assert!(b.press(Key::Accept) == Effect::Install);
    assert_eq!(b.selected_draft().unwrap().name, "up");
    b.accepted(Ok("/bin/up".to_string()));
    assert!(matches!(&b.states[0], State::Done(m) if m == "✓ up installed → /bin/up"));
    // what is done stays done
    assert!(b.press(Key::Ignore) == Effect::Stay);
    b.press(Key::Draft);
    b.press(Key::AcceptAll);
    assert!(matches!(&b.states[0], State::Done(_)));
    assert!(b.queue.is_empty());
}

#[test]
fn a_failed_installation_can_be_drafted_again() {
    let mut b = Board::new(1);
    b.press(Key::Draft);
    b.feed();
    b.drafted(0, Ok(draft("up")));
    b.press(Key::Accept);
    b.accepted(Err("exists".to_string()));
    assert!(matches!(&b.states[0], State::Failed(m) if m == "install failed: exists"));
    b.press(Key::Draft);
    assert!(matches!(&b.states[0], State::Queued));
}

#[test]
fn accepting_all_queues_all_and_installs() {
    let mut b = Board::new(3);
    assert!(b.press(Key::Ignore) == Effect::Ignore);
    assert!(matches!(&b.states[0], State::Done(m) if m == "ignored"));
    b.press(Key::AcceptAll);
    assert_eq!(b.queue, vec![1, 2]);
    assert!(b.auto_accept);
    assert_eq!(b.feed(), Some(1));
    assert!(b.installs(&Ok(draft("x"))));
    assert!(!b.installs(&Err("no".to_string())));
    b.auto_installed(1, "x", Ok("/bin/x".to_string()));
    assert!(matches!(&b.states[1], State::Done(m) if m == "✓ x installed → /bin/x"));
    assert_eq!(b.feed(), Some(2));
    b.auto_installed(2, "x", Err("exists".to_string()));
    assert!(matches!(&b.states[2], State::Failed(m) if m == "install failed: exists"));
    assert_eq!(b.active, 0);
}

#[test]
fn rows_show_state_kind_head_and_count() {
    let t = Theme::terminal();
    let row = list_row(&candidate("fixloop"), &State::Idle, &t);
    assert_eq!(line(&row), "○ 🔁 a very long first template ind  5×");
    assert_eq!(row[1].color, t.fixloop);
    assert_eq!(kind_icon("sequence"), "⚡");
    assert_eq!(kind_icon("prompt"), "💬");
    assert_eq!(kind_icon("intent"), "•");
    let mark = |s: &State| state_span(s, &t).text;
    assert_eq!(mark(&State::Queued), "…");
    assert_eq!(mark(&State::Drafting), "◐");
    assert_eq!(mark(&State::Drafted(draft("x"))), "●");
    assert_eq!(mark(&State::Failed(String::new())), "✗");
    assert_eq!(mark(&State::Done(String::new())), "✓");
    assert_eq!(state_span(&State::Done(String::new()), &t).color, t.ok);
}

#[test]
fn details_show_steps_and_draft() {
    let t = Theme::muted();
    let d = detail(&candidate("sequence"), &State::Drafted(draft("up")), &t, &tool(), 10);
    let lines: Vec<String> = d.iter().map(|l| line(l)).collect();
    assert_eq!(
        lines,
        vec![
            "⚡ sequence seen 5× · score 90",
            "",
            "  a very long first template indeed",
            "→ second",
            "",
            "up (script) — saves time",
            "──────",
            "one",
            "two",
        ]
    );
    assert!(d[0][0].bold && !d[0][1].bold);
    let idle = detail(&candidate("sequence"), &State::Idle, &t, &tool(), 2);
    assert_eq!(line(idle.last().unwrap()), "press d to draft with quill");
    let queued = detail(&candidate("sequence"), &State::Queued, &t, &tool(), 2);
    assert_eq!(line(queued.last().unwrap()), "drafting via quill -p …");
    assert_eq!(draw_rule(0), "");
}

#[test]
fn the_status_line_tells_what_goes_on() {
    let base = " j/k move · d draft · a accept · i ignore · A draft+accept ALL · q quit ";
    assert_eq!(status(0, false), base);
    assert_eq!(status(2, true), format!("{base}· 2 drafting · AUTO "));
}
