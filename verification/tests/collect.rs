use sisyphus::collect::claude::{ingest_file, parse_iso, Action, CallLog};
use sisyphus::collect::codex;
use sisyphus::collect::codex::{command_from, extract_command};
use sisyphus::collect::gemini;
use sisyphus::collect::hook;
use sisyphus::collect::hook::{clean_err, log_lines, new_lines, snippet_in, zsh_snippet};
use sisyphus::collect::outcome::{code_in, exit_code, printed};
use sisyphus::collect::zsh::{
    ingest, number_entries, parse, parse_entry, parse_text, resume, unmetafy,
};
use sisyphus::json::Json;

fn text(s: &str) -> Json {
    Json::Text(s.to_string())
}

fn call(name: &str, arguments: &str) -> Json {
    Json::Members(vec![
        ("name".to_string(), text(name)),
        ("arguments".to_string(), text(arguments)),
    ])
}

fn some_lines(v: &[&str]) -> Vec<Option<String>> {
    v.iter().map(|s| Some(s.to_string())).collect()
}

#[test]
fn iso_parse() {
    // spot-checked against `date -u -d @1752591824`
    assert_eq!(parse_iso("2026-07-15T15:03:44.818Z"), Some(1784127824));
    assert_eq!(parse_iso("1970-01-01T00:00:00Z"), Some(0));
}

#[test]
fn timestamps_follow_the_calendar() {
    let day = |s: &str| parse_iso(&format!("{s}T00:00:00Z")).unwrap() / 86400;
    assert_eq!(day("2000-03-01") - day("2000-02-28"), 2);
    assert_eq!(day("1900-03-01") - day("1900-02-28"), 1);
    assert_eq!(day("2024-01-01") - day("2023-01-01"), 365);
    assert_eq!(day("2025-01-01") - day("2024-01-01"), 366);
    assert_eq!(parse_iso("1969-12-31T23:59:59Z"), Some(-1));
    assert_eq!(parse_iso("1970-01-01"), None);
    assert_eq!(parse_iso("19x0-01-01T00:00:00Z"), None);
    assert_eq!(parse_iso(""), None);
}

#[test]
fn extracts_exec_command() {
    let p = call("exec_command", "{\"cmd\":\"pwd\",\"workdir\":\"/x\"}");
    assert_eq!(extract_command(&p).as_deref(), Some("pwd"));
}

#[test]
fn extracts_legacy_shell_argv() {
    let p = call("shell", "{\"command\":[\"bash\",\"-lc\",\"cargo build\"]}");
    assert_eq!(extract_command(&p).as_deref(), Some("cargo build"));
}

#[test]
fn ignores_other_tools() {
    let p = call("apply_patch", "{}");
    assert_eq!(extract_command(&p), None);
}

#[test]
fn other_argument_vectors_are_joined() {
    let p = call("local_shell", "{\"command\":[\"ls\",7,\"-l\"]}");
    assert_eq!(extract_command(&p).as_deref(), Some("ls -l"));
    assert_eq!(extract_command(&call("shell", "not json")), None);
    assert_eq!(extract_command(&call("shell", "{}")), None);
    assert_eq!(extract_command(&Json::Null), None);
    let args = Json::Members(vec![(
        "command".to_string(),
        Json::List(vec![text("zsh"), text("-c"), text("make all")]),
    )]);
    assert_eq!(command_from(&args).as_deref(), Some("make all"));
}

#[test]
fn a_transcript_gives_commands_failures_and_prompts() {
    let lines = some_lines(&[
        r#"{"type":"user","timestamp":"1970-01-01T00:01:00Z","cwd":"/w","message":{"content":"  fix the build  "}}"#,
        r#"{"type":"assistant","cwd":"/w","message":{"content":[{"type":"text","text":"ok"},{"type":"tool_use","name":"Bash","id":"c1","input":{"command":"cargo  build --all"}},{"type":"tool_use","name":"Read","id":"c2","input":{"command":"x"}}]}}"#,
        "not json at all",
        r#"{"type":"user","message":{"content":[{"type":"tool_result","is_error":true,"tool_use_id":"c1","content":[{"type":"image"},{"type":"text","text":"boom"}]},{"type":"tool_result","is_error":false,"tool_use_id":"c1","content":"fine"}]}}"#,
        r#"{"type":"user","isMeta":true,"message":{"content":"hidden"}}"#,
        r#"{"type":"user","message":{"content":"<command-name>x</command-name>"}}"#,
        r#"{"type":"user","message":{"content":[{"type":"text","text":"second ask"}]}}"#,
        r#"{"type":"system","message":{"content":"x"}}"#,
    ]);
    let (actions, next) = ingest_file(&lines, 0);
    assert_eq!(next, 8);
    assert_eq!(actions.len(), 4);
    match &actions[0] {
        Action::Prompt { raw, ts, cwd, line } => {
            assert_eq!(raw, "fix the build");
            assert_eq!(*ts, Some(60));
            assert_eq!(cwd.as_deref(), Some("/w"));
            assert_eq!(*line, 0);
        }
        _ => panic!("no prompt"),
    }
    match &actions[1] {
        Action::Command { raw, head, ts, call, line, .. } => {
            assert_eq!(raw, "cargo  build --all");
            assert_eq!(head, "cargo");
            assert_eq!(*ts, None);
            assert_eq!(call.as_deref(), Some("c1"));
            assert_eq!(*line, 1);
        }
        _ => panic!("no command"),
    }
    match &actions[2] {
        Action::Failure { of, snippet } => {
            assert_eq!(of, "c1");
            assert_eq!(snippet.as_deref(), Some("boom"));
        }
        _ => panic!("no failure"),
    }
    match &actions[3] {
        Action::Prompt { raw, line, .. } => {
            assert_eq!(raw, "second ask");
            assert_eq!(*line, 6);
        }
        _ => panic!("no second prompt"),
    }
    // going on at line 6 gives the rest, with the same line numbers
    let (rest, next) = ingest_file(&lines, 6);
    assert_eq!(next, 8);
    assert_eq!(rest.len(), 1);
    // lines that cannot be read are counted
    let (none, next) = ingest_file(&vec![None, None], 0);
    assert!(none.is_empty());
    assert_eq!(next, 2);
}

#[test]
fn long_error_messages_are_cut() {
    let line = format!(
        r#"{{"type":"user","message":{{"content":[{{"type":"tool_result","is_error":true,"tool_use_id":"c","content":"{}"}}]}}}}"#,
        "é".repeat(400)
    );
    let (actions, _) = ingest_file(&some_lines(&[&line]), 0);
    match &actions[0] {
        Action::Failure { snippet: Some(s), .. } => assert_eq!(s.chars().count(), 300),
        _ => panic!("no failure"),
    }
}

#[test]
fn failures_find_the_rows_of_their_calls() {
    let mut log = CallLog::new();
    log.record(&Some("c1".to_string()), 1, 41);
    log.record(&Some("c2".to_string()), 0, 42);
    log.record(&None, 1, 43);
    log.record(&Some("c1".to_string()), 1, 44);
    assert_eq!(log.find("c1"), Some(44));
    assert_eq!(log.find("c2"), None);
}

#[test]
fn a_codex_session_carries_its_directory_on() {
    let lines = some_lines(&[
        r#"{"type":"session_meta","payload":{"cwd":"/repo"}}"#,
        r#"{"type":"response_item","timestamp":"1970-01-01T00:00:05Z","payload":{"type":"function_call","name":"shell","arguments":"{\"command\":[\"bash\",\"-lc\",\"make test\"]}"}}"#,
        r#"{"type":"event_msg","payload":{"type":"user_message","message":" run it "}}"#,
        r#"{"type":"event_msg","payload":{"type":"user_message","message":"   "}}"#,
        r#"{"type":"response_item","payload":{"type":"message"}}"#,
    ]);
    let (records, next) = codex::ingest_file(&lines, 0);
    assert_eq!(next, 5);
    assert_eq!(records.len(), 2);
    assert!(!records[0].prompt);
    assert_eq!(records[0].raw, "make test");
    assert_eq!(records[0].head, "make");
    assert_eq!(records[0].ts, Some(5));
    assert_eq!(records[0].cwd.as_deref(), Some("/repo"));
    assert_eq!(records[0].line, 1);
    assert!(records[1].prompt);
    assert_eq!(records[1].raw, "run it");
    assert_eq!(records[1].head, "");
    // after the first line the directory is not known
    let (records, _) = codex::ingest_file(&lines, 1);
    assert_eq!(records[0].cwd, None);
}

#[test]
fn a_gemini_log_gives_prompts() {
    let log = r#"[{"type":"user","message":" hello ","timestamp":"1970-01-01T00:00:09Z"},{"type":"model","message":"x"},{"type":"user","message":7},{"type":"user","message":"again"}]"#;
    let (records, next) = gemini::ingest(log, 0).unwrap();
    assert_eq!(next, 4);
    assert_eq!(records.len(), 2);
    assert_eq!(records[0].raw, "hello");
    assert_eq!(records[0].ts, Some(9));
    assert_eq!(records[1].line, 3);
    assert_eq!(gemini::ingest(log, 1).unwrap().0.len(), 1);
    assert_eq!(gemini::ingest(log, -1).unwrap().0.len(), 0);
    assert!(gemini::ingest("{}", 0).is_none());
    assert!(gemini::ingest("nope", 0).is_none());
}

#[test]
fn cleans_ansi_residue() {
    assert_eq!(clean_err("[0m[31merror[0m: boom"), Some("error: boom".into()));
    assert_eq!(clean_err("   "), None);
}

#[test]
fn only_control_sequences_are_cleaned() {
    assert_eq!(clean_err("[1;31mred[?25l [12] [x"), Some("red [12] ".trim().to_string()));
    assert_eq!(clean_err("a [é] b"), Some("a [é] b".to_string()));
}

#[test]
fn snippet_variants() {
    let base = zsh_snippet(false);
    assert!(base.contains("add-zsh-hook preexec"));
    assert!(base.contains("shell.jsonl"));
    assert!(!base.contains("tee -a"));
    let errs = zsh_snippet(true);
    assert!(errs.contains("tee -a"));
    assert!(errs.contains("stderr.log"));
    assert!(errs.contains("\\\"err\\\":"));
}

#[test]
fn the_snippet_names_its_files() {
    let s = snippet_in("/data", true);
    assert!(s.contains("_sisyphus_log=\"/data/sisyphus/shell.jsonl\""));
    assert!(s.contains("_sisyphus_err=\"/data/sisyphus/stderr.log\""));
    assert!(!s.contains("__LOG__"));
    assert!(!s.contains("__ERR__"));
    assert!(snippet_in("", false).contains("_sisyphus_log=\"sisyphus/shell.jsonl\""));
    assert!(hook::log_path().ends_with("sisyphus/shell.jsonl"));
    assert!(hook::err_log_path().ends_with("sisyphus/stderr.log"));
}

#[test]
fn hook_entries_become_rows() {
    let e = |exit: i32, err: Option<&str>| hook::Entry {
        ts: 1784000000,
        dur: 3,
        exit,
        cwd: "/x".to_string(),
        cmd: "cargo build".to_string(),
        err: err.map(|s| s.to_string()),
    };
    let rows = hook::number_entries(&vec![e(1, Some("[31mboom[0m")), e(0, None)], 3_000_000);
    assert_eq!(rows.len(), 2);
    assert_eq!(rows[0].head, "cargo");
    assert_eq!(rows[0].duration_ms, 3000);
    assert!(rows[0].failed);
    assert_eq!(rows[0].error.as_deref(), Some("boom"));
    assert_eq!(rows[0].seq, 3_000_001);
    assert!(!rows[1].failed);
    assert_eq!(rows[1].error, None);
    assert_eq!(rows[1].seq, 3_000_002);
}

#[test]
fn log_lines_survive_bad_bytes() {
    assert_eq!(log_lines(b"a\r\nb\n"), vec!["a".to_string(), "b".to_string()]);
    let bad = log_lines(&[b'x', 0xff, b'\n', b'y']);
    assert_eq!(bad.len(), 2);
    assert_eq!(bad[0], "x\u{fffd}");
}

#[test]
fn plain_lines() {
    let e = parse(b"ls\ncd src\n");
    assert_eq!(e.len(), 2);
    assert_eq!(e[0].cmd, "ls");
    assert!(e[0].ts.is_none());
}

#[test]
fn extended_history() {
    let e = parse(b": 1720000000:2;cargo build\n");
    assert_eq!(e[0].cmd, "cargo build");
    assert_eq!(e[0].ts, Some(1720000000));
    assert_eq!(e[0].duration_ms, Some(2000));
}

#[test]
fn backslash_continuation() {
    let e = parse(b"npm install -g npm@11.3\\\n.0\nls\n");
    assert_eq!(e.len(), 2);
    assert_eq!(e[0].cmd, "npm install -g npm@11.3\n.0");
    assert_eq!(e[1].cmd, "ls");
}

#[test]
fn metafied_bytes_survive() {
    // 0x83 followed by 0xa5 decodes to 0x85; just ensure no panic and lossy utf8
    let e = parse(&[b'e', b'c', b'h', b'o', b' ', 0x83, 0xa5, b'\n']);
    assert_eq!(e.len(), 1);
    assert!(e[0].cmd.starts_with("echo "));
}

#[test]
fn unmetafying_restores_bytes() {
    // an escaped escape byte, an escaped NUL and an escape at the end
    assert_eq!(unmetafy(&[0x83, 0xa3, b'a', 0x83, 0x20, 0x83]), vec![0x83, b'a', 0]);
    assert!(unmetafy(&[]).is_empty());
}

#[test]
fn odd_lines_are_plain_commands() {
    assert_eq!(parse_entry(": x:2;ls").cmd, ": x:2;ls");
    assert_eq!(parse_entry(": 12;ls").ts, None);
    assert_eq!(parse_entry(": 12:3").ts, None);
    let e = parse_entry(":  12 : 3 ;ls; pwd");
    assert_eq!(e.cmd, "ls; pwd");
    assert_eq!(e.ts, Some(12));
    assert_eq!(e.duration_ms, Some(3000));
}

#[test]
fn even_backslashes_end_a_command() {
    let e = parse_text("echo a\\\\\nls\n   \n\nlast\\\n");
    assert_eq!(e.len(), 3);
    assert_eq!(e[0].cmd, "echo a\\\\");
    assert_eq!(e[1].cmd, "ls");
    assert_eq!(e[2].cmd, "last\n");
    // a command that is still being continued at the end is not there yet
    assert_eq!(parse_text("ls\necho a\\").len(), 1);
}

#[test]
fn reading_goes_on_where_it_stopped() {
    let r = resume(100, 60, 60);
    assert_eq!((r.offset, r.rewritten), (60, false));
    let r = resume(50, 60, 60);
    assert_eq!((r.offset, r.rewritten), (0, true));
    let rows = number_entries(&parse(b"ls -l\ncd src\n"), -1);
    assert_eq!(rows[0].seq, 0);
    assert_eq!(rows[0].head, "ls");
    assert_eq!(rows[1].seq, 1);
    assert_eq!(rows[1].raw, "cd src");
}

#[test]
fn histories_can_be_read_in_parts() {
    let (a, b) = ("ls\necho a\\\nb\n", ": 5:1;make\nlast\n");
    let whole = parse_text(&format!("{a}{b}"));
    let parts: Vec<String> =
        parse_text(a).into_iter().chain(parse_text(b)).map(|e| e.cmd).collect();
    assert_eq!(whole.into_iter().map(|e| e.cmd).collect::<Vec<_>>(), parts);
    // a part that ends within a command breaks it
    assert_eq!(parse_text("echo a\\\nb\n").len(), 1);
    assert_eq!(parse_text("echo a\\\n").len() + parse_text("b\n").len(), 2);
}

#[test]
fn history_files_can_be_read_in_parts() {
    // whole commands with an umlaut, then ones with a metafied byte
    let a = "echo ä\nls\\\nx\n".as_bytes().to_vec();
    let b = [b": 5:1;make ".as_slice(), &[0xc3, 0x83, 0x84], b"\nlast\n".as_slice()].concat();
    let whole = [a.clone(), b.clone()].concat();
    let cmds = |bytes: &[u8]| parse(bytes).into_iter().map(|e| e.cmd).collect::<Vec<_>>();
    let parts = [cmds(&a), cmds(&b)].concat();
    assert_eq!(cmds(&whole), parts);
    assert_eq!(parts.len(), 4);
    assert_eq!(parts[2], "make ä");
    // reading on finds what was added
    let end = ingest(&a, 0, 0).next.unwrap();
    let added = ingest(&whole, end, end);
    assert!(!added.rewritten);
    assert_eq!(added.entries.into_iter().map(|e| e.cmd).collect::<Vec<_>>(), cmds(&b));
    // bytes that end within an escape are no whole commands
    assert_eq!(cmds(&[b"ls\n".as_slice(), &[0x83], b"Mx\n".as_slice()].concat())[1], "mx");
    assert_eq!(cmds(b"Mx\n"), vec!["Mx".to_string()]);
}

#[test]
fn sessions_and_logs_can_be_read_in_parts() {
    let lines = some_lines(&[
        r#"{"type":"session_meta","payload":{"cwd":"/repo"}}"#,
        r#"{"type":"event_msg","payload":{"type":"user_message","message":"one"}}"#,
        r#"{"type":"event_msg","payload":{"type":"user_message","message":"two"}}"#,
    ]);
    let (whole, end) = codex::ingest_file(&lines, 0);
    let (first, _) = codex::ingest_file(&some_lines(&[lines[0].as_deref().unwrap(), lines[1].as_deref().unwrap()]), 0);
    let (second, _) = codex::ingest_file(&lines, 2);
    assert_eq!(whole.len(), first.len() + second.len());
    assert_eq!(whole[1].raw, second[0].raw);
    assert_eq!(whole[1].line, second[0].line);
    // the directory was given before
    assert_eq!(whole[1].cwd.as_deref(), Some("/repo"));
    assert_eq!(second[0].cwd, None);
    assert!(codex::ingest_file(&lines, end).0.is_empty());

    let log = r#"[{"type":"user","message":"a"},{"type":"user","message":"b"}]"#;
    let (_, end) = gemini::ingest(log, 0).unwrap();
    assert!(gemini::ingest(log, end).unwrap().0.is_empty());
    assert_eq!(gemini::ingest(log, 1).unwrap().0[0].raw, "b");
}

/// A session with one command and the output of a call.
fn codex_outcome(output: &str) -> Vec<Option<String>> {
    let run = r#"{"type":"response_item","payload":{"type":"function_call","name":"exec_command","arguments":"{\"cmd\":\"make test\"}","call_id":"c1"}}"#;
    let out = format!(
        r#"{{"type":"response_item","payload":{{"type":"function_call_output","call_id":"c1","output":{output}}}}}"#
    );
    some_lines(&[run, &out])
}

#[test]
fn a_codex_command_that_exits_with_an_error_has_failed() {
    let first = |lines: Vec<Option<String>>| codex::ingest_file(&lines, 0).0.remove(0);
    // older sessions keep the exit code in an object
    let r = first(codex_outcome(r#""{\"output\":\"boom\",\"metadata\":{\"exit_code\":2}}""#));
    assert!(r.failed);
    assert_eq!(r.error.as_deref(), Some("boom"));
    assert_eq!(r.raw, "make test");
    let r = first(codex_outcome(r#"{"output":"boom","metadata":{"exit_code":1}}"#));
    assert!(r.failed);
    // newer ones say it before the output
    let r = first(codex_outcome(r#""Chunk ID: 7\nProcess exited with code 101\nOutput:\nnope""#));
    assert!(r.failed);
    assert!(r.error.unwrap().contains("nope"));
    let r = first(codex_outcome(r#""Exit code: 1\nOutput:\n""#));
    assert!(r.failed);
    for fine in [
        r#""{\"output\":\"ok\",\"metadata\":{\"exit_code\":0}}""#,
        r#""Process exited with code 0\nOutput:\nExit code: 1""#,
        r#""just text""#,
        r#"7"#,
    ] {
        let r = first(codex_outcome(fine));
        assert!(!r.failed);
        assert_eq!(r.error, None);
    }
    // the output of another call says nothing about this one
    let mut lines = codex_outcome(r#""Exit code: 1""#);
    lines[1] = lines[1].as_ref().map(|l| l.replace("c1", "c2"));
    assert!(!first(lines).failed);
}

#[test]
fn outputs_tell_their_exit_code() {
    assert_eq!(code_in("Process exited with code 3"), Some(3));
    assert_eq!(code_in("exit code: -1 (signal)"), Some(-1));
    assert_eq!(code_in("Exit code: none"), None);
    assert_eq!(code_in("the exit code: 1"), None);
    assert_eq!(exit_code(&text("a\nExit code: 4\nOutput:\nExit code: 5"), &None), Some(4));
    assert_eq!(exit_code(&Json::Null, &None), None);
    assert_eq!(printed(&text("all of it"), &None).as_deref(), Some("all of it"));
    assert_eq!(printed(&Json::Null, &None), None);
}

#[test]
fn only_rollouts_hold_sessions() {
    assert!(codex::is_rollout("rollout-2026-07-15.jsonl"));
    assert!(codex::is_rollout("rollout-.jsonl"));
    assert!(!codex::is_rollout("rollout-2026-07-15.json"));
    assert!(!codex::is_rollout("history.jsonl"));
    assert!(!codex::is_rollout("rollout.jsonl"));
    assert!(!codex::is_rollout(""));
}

#[test]
fn nothing_is_read_twice() {
    let bytes = b"ls\ncd src\n";
    let first = ingest(bytes, 0, 0);
    assert_eq!(first.entries.len(), 2);
    assert!(!first.rewritten);
    assert_eq!(first.next, Some(10));
    let again = ingest(bytes, 10, 10);
    assert!(again.entries.is_empty());
    assert!(!again.rewritten);
    assert_eq!(again.next, None);
    // what was added is read
    let more = ingest(b"ls\ncd src\nmake\n", 10, 10);
    assert_eq!(more.entries.len(), 1);
    assert_eq!(more.entries[0].cmd, "make");
    assert_eq!(more.next, Some(15));
    // a file that shrank is read anew
    let anew = ingest(b"pwd\n", 10, 10);
    assert!(anew.rewritten);
    assert_eq!(anew.entries[0].cmd, "pwd");
    assert_eq!(anew.next, Some(4));
    assert!(ingest(b"pwd\n", 4, 4).entries.is_empty());

    let (lines, next) = new_lines(b"{}\n[]\n", 0, 0);
    assert_eq!(lines, vec!["{}".to_string(), "[]".to_string()]);
    assert_eq!(next, 6);
    assert_eq!(new_lines(b"{}\n[]\n", next, next), (Vec::new(), 6));
    assert_eq!(new_lines(b"{}\n[]\n", 3, 3).0, vec!["[]".to_string()]);
    assert_eq!(new_lines(b"[1]", 6, 6), (vec!["[1]".to_string()], 3));

    let transcript = some_lines(&[
        r#"{"type":"user","message":{"content":"please run the tests again"}}"#,
    ]);
    let (actions, next) = ingest_file(&transcript, 0);
    assert_eq!(actions.len(), 1);
    assert!(ingest_file(&transcript, next).0.is_empty());
}

#[test]
fn timestamps_sort_as_texts() {
    let stamps = [
        "1969-12-31T23:59:59Z",
        "1970-01-01T00:00:00Z",
        "1999-12-31T23:59:59Z",
        "2000-02-29T00:00:00Z",
        "2000-03-01T00:00:00Z",
        "2026-07-15T09:59:59Z",
        "2026-07-15T10:00:00Z",
        "2026-07-15T10:00:01Z",
        "2026-10-01T00:00:00Z",
    ];
    for pair in stamps.windows(2) {
        assert!(pair[0] < pair[1]);
        assert!(parse_iso(pair[0]).unwrap() < parse_iso(pair[1]).unwrap());
    }
}
