use sisyphus::config::Report;
use sisyphus::theme::{config_path, load, parse_hex, Color, ColorOverrides, Theme};

fn none() -> ColorOverrides {
    ColorOverrides {
        accent: None,
        ok: None,
        warn: None,
        err: None,
        dim: None,
        text: None,
        highlight_bg: None,
        seq: None,
        fixloop: None,
        failure: None,
        intent: None,
        prompt: None,
    }
}

#[test]
fn parses_hex() {
    assert_eq!(parse_hex("#7a8cb2"), Some(Color::Rgb(0x7a, 0x8c, 0xb2)));
    assert_eq!(parse_hex("7a8cb2"), Some(Color::Rgb(0x7a, 0x8c, 0xb2)));
    assert_eq!(parse_hex("#zzz"), None);
}

#[test]
fn overrides_apply() {
    let cfg = "theme = \"terminal\"\n[colors]\naccent = \"#112233\"".parse::<toml::Table>().unwrap();
    let name = cfg.get("theme").and_then(|t| t.as_str()).map(|s| s.to_string());
    assert_eq!(name.as_deref(), Some("terminal"));
    let accent = cfg["colors"].get("accent").and_then(|t| t.as_str()).map(|s| s.to_string());
    assert_eq!(parse_hex(accent.as_deref().unwrap()), Some(Color::Rgb(0x11, 0x22, 0x33)));
    let mut o = none();
    o.accent = accent;
    o.ok = Some("no colour".to_string());
    let t = load(&name, &o);
    assert_eq!(t.accent, Color::Rgb(0x11, 0x22, 0x33));
    assert_eq!(t.ok, Color::Green);
    assert_eq!(t.err, Color::Red);
}

#[test]
fn odd_colours() {
    assert_eq!(parse_hex("  ##FFffFF "), Some(Color::Rgb(255, 255, 255)));
    assert_eq!(parse_hex("+12345"), Some(Color::Rgb(0x01, 0x23, 0x45)));
    assert_eq!(parse_hex("-12345"), None);
    assert_eq!(parse_hex("12345"), None);
    assert_eq!(parse_hex("1234567"), None);
    assert_eq!(parse_hex("中中"), None);
    assert_eq!(parse_hex(""), None);
}

#[test]
fn themes_have_a_colour_for_each_kind() {
    let t = Theme::muted();
    assert_eq!(t.kind("sequence"), t.seq);
    assert_eq!(t.kind("fixloop"), Color::Rgb(200, 172, 122));
    assert_eq!(t.kind("failure"), t.failure);
    assert_eq!(t.kind("intent"), t.intent);
    assert_eq!(t.kind("prompt"), t.prompt);
    assert_eq!(t.kind("other"), t.text);
    assert_eq!(load(&None, &none()), Theme::muted());
    assert_eq!(load(&Some("neon".to_string()), &none()), Theme::muted());
    assert_eq!(load(&Some("terminal".to_string()), &none()), Theme::terminal());
    assert!(config_path().ends_with(".config/sisyphus/config.toml"));
}

#[test]
fn the_command_line_overrides_the_limit() {
    assert_eq!(Report::default().shown(None, 10), 10);
    assert_eq!(Report { limit: Some(4) }.shown(None, 10), 4);
    assert_eq!(Report { limit: Some(4) }.shown(Some(7), 10), 7);
}
