use sisyphus::normalize::{normalize_token, run, template, RawRow};

#[test]
fn collapses_variable_args() {
    assert_eq!(template("git checkout a1b2c3d4e9f"), "git checkout <hash>");
    assert_eq!(template("npm install -g npm@11.3.0"), "npm install -g <ver>");
    assert_eq!(template("cd ../foo"), "cd <path>");
    assert_eq!(template("curl https://x.dev/health"), "curl <path>");
    assert_eq!(template("kill 12345"), "kill <n>");
}

#[test]
fn keeps_structure() {
    assert_eq!(template("pnpm run dev"), "pnpm run dev");
    assert_eq!(template("cargo build --release"), "cargo build --release");
}

#[test]
fn tokens_are_told_apart() {
    assert_eq!(normalize_token("./run.sh", 0), "./run.sh");
    assert_eq!(normalize_token("./run.sh", 1), "<path>");
    assert_eq!(normalize_token("--path=/x", 1), "--path=/x");
    assert_eq!(normalize_token("&&", 1), "&&");
    assert_eq!(normalize_token("'~/x'", 1), "<path>");
    assert_eq!(normalize_token("http://a", 1), "<path>");
    assert_eq!(normalize_token("ftp://a", 1), "ftp://a");
    assert_eq!(normalize_token("abcdef", 1), "abcdef");
    assert_eq!(normalize_token("abcdef0", 1), "<hash>");
    assert_eq!(normalize_token("ABCDEF0", 1), "ABCDEF0");
    assert_eq!(normalize_token(&"a".repeat(41), 1), "a".repeat(41));
    assert_eq!(normalize_token("v1.2-rc", 1), "<ver>");
    assert_eq!(normalize_token("1.2", 1), "<ver>");
    assert_eq!(normalize_token("1.", 1), "1.");
    assert_eq!(normalize_token("a@b@2.0", 1), "<ver>");
    assert_eq!(normalize_token("a@b", 1), "a@b");
    assert_eq!(normalize_token("42", 1), "<n>");
    // digits beyond ASCII are digits too
    assert_eq!(normalize_token("٤٢", 1), "<n>");
    assert_eq!(normalize_token("４.２", 1), "<ver>");
    assert_eq!(normalize_token("4x", 1), "4x");
}

#[test]
fn only_the_first_line_counts() {
    assert_eq!(template("make   all\r\nmake test"), "make all");
    assert_eq!(template(""), "");
    assert_eq!(template("\nls"), "");
}

#[test]
fn a_template_is_its_own_template() {
    for cmd in ["git checkout a1b2c3d4e9f && cd ../x", "kill 12345", "npm i a@1.2.3 'b c'"] {
        let t = template(cmd);
        assert_eq!(template(&t), t);
    }
}

fn row(id: i64, raw: &str, template: Option<&str>) -> RawRow {
    RawRow { id, raw: raw.to_string(), template: template.map(|t| t.to_string()) }
}

#[test]
fn rows_without_a_template_get_one() {
    let mut rows = vec![
        row(7, "kill 1", None),
        row(8, "ls /tmp", Some("kept as it is")),
        row(9, "ls /tmp", None),
    ];
    let fills: Vec<(i64, String)> = run(&rows).into_iter().map(|f| (f.id, f.template)).collect();
    assert_eq!(fills, vec![(7, "kill <n>".to_string()), (9, "ls <path>".to_string())]);
    // a second pass finds nothing to fill
    rows[0].template = Some(fills[0].1.clone());
    rows[2].template = Some(fills[1].1.clone());
    assert!(run(&rows).is_empty());
}

#[test]
fn every_program_name_is_kept() {
    assert_eq!(template("cd ../x && ./build.sh ../y"), "cd <path> && ./build.sh <path>");
    assert_eq!(template("./a.sh || ./b.sh ; ./c.sh | ./d.sh"), "./a.sh || ./b.sh ; ./c.sh | ./d.sh");
    // what follows a redirection is no program
    assert_eq!(template("make > ./log.txt"), "make > <path>");
    assert_eq!(template("12345 && 12345 12345"), "12345 && 12345 <n>");
}

#[test]
fn repositories_group_however_they_are_given() {
    let t = template("git clone https://example.com/a.git");
    assert_eq!(t, template("git clone ../a"));
    assert_eq!(t, template("git clone \"~/src/a\""));
    assert_eq!(t, "git clone <path>");
}
