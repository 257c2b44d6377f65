//! The posture checks, on hand-made settings sections.

use mlab_unifi::json::Json;
use mlab_unifi::posture::{access, checks, inspection, logging, secret_count, tally, threats, upkeep};

fn conv(v: serde_json::Value) -> Json {
    match v {
        serde_json::Value::Null => Json::Null,
        serde_json::Value::Bool(b) => Json::Bool(b),
        serde_json::Value::Number(n) => match n.as_i64() {
            Some(i) => Json::Int(i),
            None => Json::Num(n.to_string()),
        },
        serde_json::Value::String(s) => Json::Str(s),
        serde_json::Value::Array(a) => Json::Arr(a.into_iter().map(conv).collect()),
        serde_json::Value::Object(m) => {
            Json::Obj(m.into_iter().map(|(k, v)| (k, conv(v))).collect())
        }
    }
}

/// A document from its JSON text.
fn j(text: &str) -> Json {
    conv(serde_json::from_str(text).expect("test JSON parses"))
}

#[test]
fn posture_a_section_name_is_not_a_secret() {
    let sections = vec![
        j(r#"{"key": "ips", "utm_token": "x"}"#),
        j(r#"{"key": "mgmt", "x_ssh_password": "hunter2", "x_ssh_keys": []}"#),
    ];
    assert_eq!(secret_count(&sections), 1, "only the password counts");
}

#[test]
fn an_empty_secret_field_is_not_an_exposure() {
    assert_eq!(secret_count(&vec![j(r#"{"x_passphrase": ""}"#)]), 0);
}

#[test]
fn prevention_with_no_category_reads_as_weak_not_as_on() {
    let raw = j(r#"{"enabled": true, "enabled_categories": []}"#);
    let map: Vec<(String, Json)> = vec![("ips".to_string(), raw)];
    let ips = threats(&map).into_iter().find(|c| c.name == "intrusion prevention").unwrap();
    assert_eq!(ips.state, "weak");
    assert!(ips.attention, "a control that inspects nothing must be raised");
}

#[test]
fn a_missing_section_is_never_a_pass() {
    let empty: Vec<(String, Json)> = Vec::new();
    let mut all = threats(&empty);
    all.extend(inspection(&empty));
    all.extend(access(&empty));
    all.extend(logging(&empty));
    assert!(all.iter().all(|c| c.state == "unknown"));
    assert!(all.iter().all(|c| !c.attention), "absence is not a finding either");
}

#[test]
fn every_check_is_counted_under_exactly_one_state() {
    let raw = vec![
        j(r#"{"key": "ips", "enabled": true, "enabled_categories": ["malware"]}"#),
        j(r#"{"key": "mgmt", "x_ssh_enabled": false}"#),
    ];
    let all = checks(raw);
    let n = tally(&all, "ok") + tally(&all, "off") + tally(&all, "weak") + tally(&all, "unknown");
    assert_eq!(n, all.len());
    assert!(!upkeep(&Vec::new()).is_empty());
}
