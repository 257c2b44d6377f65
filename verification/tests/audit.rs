//! The audit checks, on hand-made console data.

use mlab_unifi::audit::{credentials, detection, run, segmentation, skipped, Input, Severity};
use mlab_unifi::json::Json;

fn conv(v: serde_json::Value) -> Json {
    match v {
        serde_json::Value::Null => Json::Null,
        serde_json::Value::Bool(b) => Json::Bool(b),
        serde_json::Value::Number(n) => match n.as_i64() {
            Some(i) => Json::Int(i),
            None => Json::Num(n.to_string()),
        },
        serde_json::Value::String(s) => Json::Str(s),
        serde_json::Value::Array(a) => Json::Arr(a.into_iter().map(conv).collect()),
        serde_json::Value::Object(m) => {
            Json::Obj(m.into_iter().map(|(k, v)| (k, conv(v))).collect())
        }
    }
}

/// A document from its JSON text.
fn j(text: &str) -> Json {
    conv(serde_json::from_str(text).expect("test JSON parses"))
}

fn with_settings(pairs: Vec<(&str, Json)>) -> Input {
    Input {
        settings: pairs.into_iter().map(|(k, v)| (k.to_string(), v)).collect(),
        ..Input::empty()
    }
}

#[test]
fn ssh_without_a_key_is_critical_only_when_the_password_is_readable() {
    let readable = with_settings(vec![(
        "mgmt",
        j(r#"{"x_ssh_enabled": true, "x_ssh_keys": [], "x_ssh_password": "hunter2"}"#),
    )]);
    assert_eq!(credentials(&readable)[0].severity, Severity::Critical);

    let hidden = with_settings(vec![(
        "mgmt",
        j(r#"{"x_ssh_enabled": true, "x_ssh_keys": []}"#),
    )]);
    assert_eq!(credentials(&hidden)[0].severity, Severity::Medium);
}

#[test]
fn ssh_with_a_key_installed_is_not_a_finding() {
    let keyed = with_settings(vec![(
        "mgmt",
        j(r#"{"x_ssh_enabled": true, "x_ssh_keys": ["ssh-ed25519 AAA"]}"#),
    )]);
    assert!(credentials(&keyed)
        .iter()
        .all(|f| f.area != "credentials" || !f.title.contains("password and no key")));
}

#[test]
fn a_rule_pointing_at_an_empty_zone_is_reported_as_not_in_force() {
    let i = Input {
        zones: vec![j(r#"{"id": "empty", "name": "Z-200", "networkIds": []}"#)],
        policies: vec![j(r#"{
            "name": "ALICE TO SECU",
            "metadata": {"origin": "USER_DEFINED"},
            "source": {"zoneId": "live"},
            "destination": {"zoneId": "empty"}
        }"#)],
        ..Input::empty()
    };
    let f = segmentation(&i);
    let dead = f.iter().find(|f| f.title.contains("matches nothing")).unwrap();
    assert_eq!(dead.severity, Severity::High);
    assert!(dead.detail.contains("ALICE TO SECU"));
}

#[test]
fn a_system_rule_on_an_empty_zone_is_not_your_problem() {
    let i = Input {
        zones: vec![j(r#"{"id": "empty", "name": "Dmz", "networkIds": []}"#)],
        policies: vec![j(r#"{
            "name": "Block All Traffic",
            "metadata": {"origin": "SYSTEM_DEFINED"},
            "source": {"zoneId": "empty"},
            "destination": {"zoneId": "empty"}
        }"#)],
        ..Input::empty()
    };
    assert!(segmentation(&i).iter().all(|f| !f.title.contains("matches nothing")));
}

#[test]
fn prevention_with_no_category_is_raised_and_a_disabled_engine_is_not() {
    let armed = with_settings(vec![("ips", j(r#"{"enabled_categories": ["malware"]}"#))]);
    assert!(detection(&armed).iter().all(|f| !f.title.contains("inspects nothing")));

    let hollow = with_settings(vec![("ips", j(r#"{"enabled_categories": []}"#))]);
    assert!(detection(&hollow).iter().any(|f| f.title.contains("inspects nothing")));
}

#[test]
fn findings_come_back_worst_first() {
    let i = Input {
        wlans: vec![j(r#"{"name": "w", "pmf_mode": "optional", "wpa3_transition": true}"#)],
        ..with_settings(vec![(
            "mgmt",
            j(r#"{"x_ssh_enabled": true, "x_ssh_keys": [], "x_ssh_password": "x"}"#),
        )])
    };
    let all = run(&i);
    assert_eq!(all[0].severity, Severity::Critical);
    assert!(all.windows(2).all(|w| w[0].severity >= w[1].severity));
    assert!(all.windows(2).all(|w| w[0].severity > w[1].severity || w[0].area <= w[1].area));
    let each = credentials(&i).len() + mlab_unifi::audit::wireless(&i).len() + segmentation(&i).len()
        + mlab_unifi::audit::exposure(&i).len() + detection(&i).len() + mlab_unifi::audit::inventory(&i).len();
    assert_eq!(all.len(), each, "every finding of every area, once");
}

#[test]
fn missing_data_produces_no_findings_and_is_reported_as_skipped() {
    let empty = Input::empty();
    assert!(run(&empty).is_empty(), "absence is never a finding");
    assert_eq!(skipped(&empty).len(), 4, "and never a pass either");
}

#[test]
fn severities_read_as_their_names() {
    assert_eq!(Severity::Critical.label(), "critical");
    assert_eq!(Severity::Low.label(), "low");
    assert!(Severity::High.at_least(Severity::Medium));
    assert!(!Severity::Low.at_least(Severity::Medium));
}
