//! The reachability matrix, on hand-made firewall rules.

use mlab_unifi::blast::{build_matrix, verdict_between, Verdict};
use mlab_unifi::json::Json;

fn conv(v: serde_json::Value) -> Json {
    match v {
        serde_json::Value::Null => Json::Null,
        serde_json::Value::Bool(b) => Json::Bool(b),
        serde_json::Value::Number(n) => match n.as_i64() {
            Some(i) => Json::Int(i),
            None => Json::Num(n.to_string()),
        },
        serde_json::Value::String(s) => Json::Str(s),
        serde_json::Value::Array(a) => Json::Arr(a.into_iter().map(conv).collect()),
        serde_json::Value::Object(m) => {
            Json::Obj(m.into_iter().map(|(k, v)| (k, conv(v))).collect())
        }
    }
}

/// A document from its JSON text.
fn j(text: &str) -> Json {
    conv(serde_json::from_str(text).expect("test JSON parses"))
}

fn rule_with(src: &str, dst: &str, action: &str, index: i64, state: &str, enabled: bool, target: &str) -> Json {
    j(&format!(
        r#"{{
            "enabled": {enabled}, "index": {index}, "action": "{action}",
            "connection_state_type": "{state}", "protocol": "all",
            "source": {{"zone_id": "{src}", "matching_target": "ANY", "port_matching_type": "ANY"}},
            "destination": {{"zone_id": "{dst}", "matching_target": "{target}", "port_matching_type": "ANY"}}
        }}"#
    ))
}

fn rule(src: &str, dst: &str, action: &str, index: i64, state: &str) -> Json {
    rule_with(src, dst, action, index, state, true, "ANY")
}

#[test]
fn a_stateful_block_does_not_close_a_pair() {
    let m = build_matrix(&vec![
        rule("a", "b", "BLOCK", 30_000, "CUSTOM"),
        rule("a", "b", "ALLOW", 2_147_483_647, "ALL"),
    ]);
    assert!(matches!(verdict_between(&m, "a", "b"), Some(Verdict::Open)));
}

#[test]
fn the_lowest_index_that_applies_to_every_state_decides() {
    let m = build_matrix(&vec![
        rule("a", "b", "BLOCK", 100, "ALL"),
        rule("a", "b", "ALLOW", 200, "ALL"),
    ]);
    assert!(matches!(verdict_between(&m, "a", "b"), Some(Verdict::Blocked)));
}

#[test]
fn a_narrowed_allow_opens_part_of_a_closed_pair() {
    let narrow = rule_with("a", "b", "ALLOW", 10, "ALL", true, "IP");
    let m = build_matrix(&vec![narrow, rule("a", "b", "BLOCK", 2_147_483_647, "ALL")]);
    assert!(matches!(verdict_between(&m, "a", "b"), Some(Verdict::Partial)));
}

#[test]
fn a_disabled_rule_decides_nothing() {
    let off = rule_with("a", "b", "ALLOW", 10, "ALL", false, "ANY");
    let m = build_matrix(&vec![off, rule("a", "b", "BLOCK", 20, "ALL")]);
    assert!(matches!(verdict_between(&m, "a", "b"), Some(Verdict::Blocked)));
}

#[test]
fn a_pair_with_no_rule_at_all_is_absent_rather_than_open() {
    let m = build_matrix(&vec![rule("a", "b", "ALLOW", 10, "ALL")]);
    assert!(verdict_between(&m, "a", "c").is_none());
}

#[test]
fn each_pair_appears_once_in_the_matrix() {
    let m = build_matrix(&vec![
        rule("a", "b", "ALLOW", 10, "ALL"),
        rule("a", "b", "BLOCK", 20, "ALL"),
        rule("b", "a", "BLOCK", 5, "ALL"),
    ]);
    assert_eq!(m.len(), 2);
    assert!(matches!(verdict_between(&m, "b", "a"), Some(Verdict::Blocked)));
}

#[test]
fn verdicts_read_as_what_they_let_through() {
    assert_eq!(Verdict::Open.label(), "everything");
    assert_eq!(Verdict::Partial.label(), "specific hosts or ports");
    assert_eq!(Verdict::Blocked.label(), "nothing");
}
