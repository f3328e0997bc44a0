use hilite::cli::{CliArgs, UsageError};
use hilite::color::{Color, PresetColor};
use hilite::config::{load_rules_from_file, ConfigNode, FileConfig};
use hilite::rules::Rule;

fn rule(keyword: &str) -> Rule {
    Rule { keyword: keyword.to_string(), color: Color::Preset(PresetColor::Cyan), is_regex: false }
}

fn node(imports: Vec<usize>, keywords: &[&str]) -> ConfigNode {
    ConfigNode { imports, rules: keywords.iter().map(|k| rule(k)).collect() }
}

fn keywords(rules: &[Rule]) -> Vec<String> {
    rules.iter().map(|r| r.keyword.clone()).collect()
}

#[test]
fn direct_cycle_contributes_each_document_once() {
    let graph = vec![node(vec![1], &["a"]), node(vec![0], &["b"])];
    assert_eq!(keywords(&load_rules_from_file(&graph, 0)), vec!["b", "a"]);
    assert_eq!(keywords(&load_rules_from_file(&graph, 1)), vec!["a", "b"]);
}

#[test]
fn longer_cycle_terminates() {
    let graph = vec![node(vec![1], &["a"]), node(vec![2], &["b"]), node(vec![0, 2], &["c"])];
    assert_eq!(keywords(&load_rules_from_file(&graph, 0)), vec!["c", "b", "a"]);
}

#[test]
fn imports_come_before_own_rules_in_order() {
    let graph = vec![
        node(vec![1, 2], &["root1", "root2"]),
        node(vec![3], &["left"]),
        node(vec![], &["right"]),
        node(vec![], &["leaf"]),
    ];
    assert_eq!(
        keywords(&load_rules_from_file(&graph, 0)),
        vec!["leaf", "left", "right", "root1", "root2"]
    );
}

#[test]
fn shared_import_is_visited_once() {
    let graph = vec![node(vec![1, 2], &["top"]), node(vec![2], &["mid"]), node(vec![], &["base"])];
    assert_eq!(keywords(&load_rules_from_file(&graph, 0)), vec!["base", "mid", "top"]);
}

#[test]
fn self_import_is_skipped() {
    let graph = vec![node(vec![0, 0], &["only"])];
    assert_eq!(keywords(&load_rules_from_file(&graph, 0)), vec!["only"]);
}

#[test]
fn root_outside_graph_gives_nothing() {
    let graph = vec![node(vec![], &["a"])];
    assert!(load_rules_from_file(&graph, 3).is_empty());
}

#[test]
fn file_config_without_rules_has_none() {
    let cfg = FileConfig { imports: Some(vec!["x.yaml".to_string()]), rules: None };
    let n = cfg.into_node(vec![4]);
    assert_eq!(n.imports, vec![4]);
    assert!(n.rules.is_empty());
    let cfg = FileConfig { imports: None, rules: Some(vec![rule("k")]) };
    assert_eq!(keywords(&cfg.into_node(vec![]).rules), vec!["k"]);
}

#[test]
fn config_path_is_required() {
    let args = CliArgs { ignore_case: false, file: None, config: None };
    assert_eq!(args.config_path(), Err(UsageError::MissingConfig));
    let args = CliArgs { ignore_case: true, file: None, config: Some("c.yaml".to_string()) };
    assert_eq!(args.config_path(), Ok("c.yaml".to_string()));
}

#[test]
fn import_outside_graph_is_skipped() {
    let graph = vec![node(vec![7, 1], &["a"]), node(vec![], &["b"])];
    assert_eq!(keywords(&load_rules_from_file(&graph, 0)), vec!["b", "a"]);
}
