use hilite::color::{Color, PresetColor};
use hilite::highlight::{render_scan, HighlightingEngine, LineMatch};
use hilite::rules::Rule;

fn rule(keyword: &str, color: Color, is_regex: bool) -> Rule {
    Rule { keyword: keyword.to_string(), color, is_regex }
}

fn red() -> Color {
    Color::Preset(PresetColor::Red)
}

fn render(rules: &[Rule], ignore_case: bool, line: &str) -> String {
    let engine = HighlightingEngine::new(rules, ignore_case).expect("rules compile");
    let mut out = String::new();
    engine.render_line(line, &mut out);
    out
}

#[test]
fn two_keywords_on_one_line() {
    let rules = vec![
        rule("ERROR", red(), false),
        rule("WARN", Color::Preset(PresetColor::Yellow), false),
    ];
    assert_eq!(
        render(&rules, false, "ERROR: WARN: ok"),
        "\x1b[31mERROR\x1b[0m: \x1b[33mWARN\x1b[0m: ok"
    );
}

#[test]
fn earlier_rule_wins_over_longer_match() {
    let rules = vec![
        rule("a", red(), false),
        rule("a|ab", Color::Preset(PresetColor::Blue), true),
    ];
    assert_eq!(render(&rules, false, "ab"), "\x1b[31ma\x1b[0mb");
}

#[test]
fn adjacent_matches_do_not_overlap() {
    let rules = vec![
        rule("ab", red(), false),
        rule("cd", Color::Preset(PresetColor::Green), false),
    ];
    assert_eq!(
        render(&rules, false, "abcd"),
        "\x1b[31mab\x1b[0m\x1b[32mcd\x1b[0m"
    );
}

#[test]
fn line_without_match_is_unchanged() {
    let rules = vec![rule("ERROR", red(), false)];
    assert_eq!(render(&rules, false, "all is well\n"), "all is well\n");
}

#[test]
fn no_rules_leave_the_line_unchanged() {
    assert_eq!(render(&[], false, "anything at all"), "anything at all");
}

#[test]
fn ignore_case_decides_matching() {
    let rules = vec![rule("Error", red(), false)];
    assert_eq!(render(&rules, true, "error"), "\x1b[31merror\x1b[0m");
    assert_eq!(render(&rules, false, "error"), "error");
}

#[test]
fn keyword_meta_characters_match_verbatim() {
    let rules = vec![rule("a.b", red(), false)];
    assert_eq!(render(&rules, false, "axb a.b"), "axb \x1b[31ma.b\x1b[0m");
}

#[test]
fn regex_rule_uses_its_pattern() {
    let rules = vec![rule("a.b", red(), true)];
    assert_eq!(render(&rules, false, "axb"), "\x1b[31maxb\x1b[0m");
}

#[test]
fn user_groups_do_not_shift_colors() {
    let rules = vec![
        rule("(x)(y)", red(), true),
        rule("z", Color::RGB { r: 1, g: 2, b: 3 }, false),
    ];
    assert_eq!(
        render(&rules, false, "xy z"),
        "\x1b[31mxy\x1b[0m \x1b[38;2;1;2;3mz\x1b[0m"
    );
}

#[test]
fn anchors_bind_to_the_line() {
    let rules = vec![rule("^foo$", red(), true)];
    assert_eq!(render(&rules, false, "foo\n"), "\x1b[31mfoo\x1b[0m\n");
}

#[test]
fn output_buffer_is_cleared() {
    let engine = HighlightingEngine::new(&[rule("x", red(), false)], false).unwrap();
    let mut out = String::from("stale");
    engine.render_line("x", &mut out);
    engine.render_line("yx", &mut out);
    assert_eq!(out, "y\x1b[31mx\x1b[0m");
}

#[test]
fn invalid_regex_fails_to_compile() {
    let rules = vec![rule("ok", red(), false), rule("(", red(), true)];
    let r = HighlightingEngine::new(&rules, false);
    assert!(r.is_err());
    assert!(!r.err().unwrap().message.is_empty());
}

#[test]
fn render_scan_wraps_each_match() {
    let matches = vec![
        LineMatch { gap: "a ".to_string(), text: "b".to_string(), hits: vec![false, true] },
        LineMatch { gap: String::new(), text: "c".to_string(), hits: vec![false, false] },
    ];
    let colors = vec!["<0>".to_string(), "<1>".to_string()];
    let mut out = String::new();
    render_scan(&matches, " d", &colors, &mut out);
    assert_eq!(out, "a <1>b\x1b[0mc d");
}
