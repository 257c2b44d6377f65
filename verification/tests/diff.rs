//! Comparing two snapshots.

use mlab_unifi::diff::{change, check_version, compare_snapshots, listed_rows, fields, index, label, resource, same_console, sort_changes, weight, VersionError};
use mlab_unifi::json::Json;

fn conv(v: serde_json::Value) -> Json {
    match v {
        serde_json::Value::Null => Json::Null,
        serde_json::Value::Bool(b) => Json::Bool(b),
        serde_json::Value::Number(n) => match n.as_i64() {
            Some(i) => Json::Int(i),
            None => Json::Num(n.to_string()),
        },
        serde_json::Value::String(s) => Json::Str(s),
        serde_json::Value::Array(a) => Json::Arr(a.into_iter().map(conv).collect()),
        serde_json::Value::Object(m) => {
            Json::Obj(m.into_iter().map(|(k, v)| (k, conv(v))).collect())
        }
    }
}

/// A document from its JSON text.
fn j(text: &str) -> Json {
    conv(serde_json::from_str(text).expect("test JSON parses"))
}

fn snap(items: &str) -> Json {
    j(&format!(r#"{{"items": {items}}}"#))
}

fn watch(names: &[&str]) -> Vec<String> {
    names.iter().map(|s| s.to_string()).collect()
}

fn has(ix: &[(String, Json)], k: &str) -> bool {
    ix.iter().any(|(key, _)| key == k)
}

#[test]
fn presence_is_read_from_the_identifying_field() {
    let old = index(&snap(r#"[{"mac": "a", "name": "one"}]"#), "mac");
    let new = index(
        &snap(r#"[{"mac": "a", "name": "one"}, {"mac": "b", "name": "two"}]"#),
        "mac",
    );
    assert!(!has(&old, "b") && has(&new, "b"));
}

#[test]
fn only_the_watched_fields_are_compared() {
    let before = j(r#"{"version": "7.5.10", "uptime": 100}"#);
    let after = j(r#"{"version": "7.5.10", "uptime": 200}"#);
    assert!(fields(&before, &after, &watch(&["version"])).is_empty());
    assert_eq!(fields(&before, &after, &watch(&[])).len(), 1, "with no list, everything counts");
}

#[test]
fn a_changed_field_reads_as_old_to_new() {
    let d = fields(&j(r#"{"log": false}"#), &j(r#"{"log": true}"#), &watch(&["log"]));
    assert_eq!(d, vec!["log: false -> true"]);
}

#[test]
fn an_appearing_field_is_shown_as_absent_before() {
    let d = fields(&j(r#"{}"#), &j(r#"{"log": true}"#), &watch(&["log"]));
    assert_eq!(d, vec!["log: absent -> true"]);
}

#[test]
fn a_resource_that_failed_to_collect_is_not_readable() {
    let s = j(r#"{"resources": {"x": {"status": "unavailable", "error": "404"}}}"#);
    assert!(resource(&s, "x").is_none(), "unavailable must not read as empty");

    let ok = j(r#"{"resources": {"x": {"status": "ok", "items": []}}}"#);
    assert!(resource(&ok, "x").is_some());
}

#[test]
fn configuration_outranks_a_client_coming_and_going() {
    let rule = change("firewall-policies", "changed", "r".into(), String::new());
    let arrival = change("clients-known", "appeared", "c".into(), String::new());
    let departure = change("clients-known", "disappeared", "c".into(), String::new());
    assert!(weight(&rule) > weight(&arrival));
    assert_eq!(weight(&departure), 0, "a client leaving is ordinary traffic");
}

#[test]
fn heavier_changes_sort_first() {
    let sorted = sort_changes(vec![
        change("clients-known", "disappeared", "c".into(), String::new()),
        change("firewall-policies", "changed", "r".into(), String::new()),
    ]);
    assert_eq!(sorted[0].resource, "firewall-policies");
    assert_eq!(sorted.len(), 2);
}

#[test]
fn an_item_is_labelled_by_its_name_when_it_has_one() {
    let item = j(r#"{"mac": "aa", "name": "printer"}"#);
    assert!(label(&item, "mac").contains("printer"));
}

#[test]
fn snapshots_of_two_consoles_are_not_compared() {
    let a = j(r#"{"console": {"id": "a", "host": "10.0.0.1"}}"#);
    let b = j(r#"{"console": {"id": "b", "host": "10.0.0.1"}}"#);
    assert!(same_console(&a, &a).is_ok());
    assert!(same_console(&a, &b).is_err());
}

#[test]
fn only_the_first_format_version_is_read() {
    assert!(check_version(&j(r#"{"version": 1}"#)).is_ok());
    assert_eq!(check_version(&j(r#"{"version": 2}"#)), Err(VersionError::Other(2)));
    assert_eq!(check_version(&j(r#"{}"#)), Err(VersionError::Missing));
}

#[test]
fn a_resource_missing_on_one_side_is_incomparable_not_unchanged() {
    let before = j(r#"{"version": 1, "resources": {
        "networks": {"status": "ok", "items": [{"id": "n1", "name": "LAN"}, {"id": "n2", "name": "IoT"}]},
        "wlans": {"status": "ok", "items": [{"_id": "w1", "name": "home"}]},
        "clients": {"status": "unavailable", "error": "403"}
    }}"#);
    let after = j(r#"{"version": 1, "resources": {
        "networks": {"status": "ok", "items": [{"id": "n1", "name": "LAN"}, {"id": "n3", "name": "Guest"}]},
        "wlans": {"status": "ok", "items": [{"_id": "w1", "name": "home"}, {"_id": "w2", "name": "open"}]},
        "clients": {"status": "ok", "items": []}
    }}"#);
    let found = compare_snapshots(&before, &after);
    let got: Vec<(String, &str, String)> =
        found.changes.iter().map(|c| (c.resource.clone(), c.change, c.item.clone())).collect();
    assert_eq!(
        got,
        vec![
            ("networks".to_string(), "appeared", "Guest".to_string()),
            ("networks".to_string(), "disappeared", "IoT".to_string()),
            ("wlans".to_string(), "appeared", "open".to_string()),
        ]
    );
    assert!(found.incomparable.contains(&"clients".to_string()));
    assert!(!found.incomparable.contains(&"networks".to_string()));
    assert!(found.incomparable.contains(&"sites".to_string()), "absent from both sides");
}

#[test]
fn an_edited_rule_is_a_change_but_a_moving_counter_is_not() {
    let before = j(r#"{"version": 1, "resources": {
        "firewall-policies": {"status": "ok", "items": [{"id": "p1", "name": "guests out", "action": "BLOCK"}]},
        "clients": {"status": "ok", "items": [{"id": "c1", "name": "phone", "rx_bytes": 10}]}
    }}"#);
    let after = j(r#"{"version": 1, "resources": {
        "firewall-policies": {"status": "ok", "items": [{"id": "p1", "name": "guests out", "action": "ALLOW"}]},
        "clients": {"status": "ok", "items": [{"id": "c1", "name": "phone", "rx_bytes": 99}]}
    }}"#);
    let found = compare_snapshots(&before, &after);
    let got: Vec<(String, &str, String, String)> = found
        .changes
        .iter()
        .map(|c| (c.resource.clone(), c.change, c.item.clone(), c.detail.clone()))
        .collect();
    assert_eq!(
        got,
        vec![(
            "firewall-policies".to_string(),
            "changed",
            "guests out".to_string(),
            "action: BLOCK -> ALLOW".to_string()
        )]
    );
}

#[test]
fn only_changes_with_a_security_reading_are_listed_unless_all_are_asked_for() {
    let changes = vec![
        change("firewall-policies", "changed", "r".into(), "action: BLOCK -> ALLOW".into()),
        change("clients-known", "disappeared", "phone".into(), String::new()),
    ];
    let rows = listed_rows(&changes, false);
    assert_eq!(rows.len(), 1);
    assert_eq!(rows[0].text("resource"), "firewall-policies");
    assert_eq!(rows[0].text("detail"), "action: BLOCK -> ALLOW");
    assert_eq!(listed_rows(&changes, true).len(), 2);
}

#[test]
fn a_zero_that_turns_negative_is_the_same_number() {
    let before = j(r#"{"gain": 0.0, "loss": 1.5}"#);
    let after = j(r#"{"gain": -0.0, "loss": 2.5}"#);
    assert_eq!(fields(&before, &after, &vec![]), vec!["loss: 1.5 -> 2.5".to_string()]);
}
