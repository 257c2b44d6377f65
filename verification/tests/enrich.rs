//! Identifying devices: the OUI, randomized addresses, the console's
//! fingerprint table, and firmware posture.

use std::cmp::Ordering;

use mlab_unifi::enrich::{fresh, is_randomized, lookup_address, oui_of, parse_table, resolve, safe_host, Identity, Table};
use mlab_unifi::firmware::{assess, compare};
use mlab_unifi::json::Json;

fn conv(v: serde_json::Value) -> Json {
    match v {
        serde_json::Value::Null => Json::Null,
        serde_json::Value::Bool(b) => Json::Bool(b),
        serde_json::Value::Number(n) => match n.as_i64() {
            Some(i) => Json::Int(i),
            None => Json::Num(n.to_string()),
        },
        serde_json::Value::String(s) => Json::Str(s),
        serde_json::Value::Array(a) => Json::Arr(a.into_iter().map(conv).collect()),
        serde_json::Value::Object(m) => {
            Json::Obj(m.into_iter().map(|(k, v)| (k, conv(v))).collect())
        }
    }
}

/// A document from its JSON text.
fn j(text: &str) -> Json {
    conv(serde_json::from_str(text).expect("test JSON parses"))
}

#[test]
fn an_oui_is_the_first_three_bytes_however_the_mac_is_written() {
    assert_eq!(oui_of("88:A2:9E:5F:36:85").as_deref(), Some("88a29e"));
    assert_eq!(oui_of("88-a2-9e-5f-36-85").as_deref(), Some("88a29e"));
    assert_eq!(oui_of("88a2.9e5f.3685").as_deref(), Some("88a29e"));
    assert_eq!(oui_of("zz"), None);
}

#[test]
fn the_locally_administered_bit_marks_a_randomized_address() {
    assert!(is_randomized("c2:34:34:6a:7c:31"));
    assert!(is_randomized("da:e8:b0:d3:bb:88"));
    assert!(is_randomized("56:6f:4b:41:7d:2c"));
    assert!(!is_randomized("88:a2:9e:5f:36:85"));
    assert!(!is_randomized("a8:9c:6c:20:16:e6"));
    assert!(!is_randomized("00:0c:29:11:22:33"));
}

#[test]
fn a_stale_entry_is_not_served() {
    let ttl: i64 = 90 * 24 * 3600;
    let now: i64 = 1_788_000_000;
    assert!(!fresh(now - ttl - 1, now, ttl));
    assert!(fresh(now, now, ttl));
}

#[test]
fn a_host_becomes_a_safe_file_name() {
    assert_eq!(safe_host("192.168.1.1"), "192-168-1-1");
    assert_eq!(safe_host("unifi.lan:8443"), "unifi-lan-8443");
}

fn table() -> Table {
    parse_table(
        &j(r#"{
            "dev_ids": {
                "4841": {"name": "iPhone ", "vendor_id": "320", "family_id": "9", "os_name_id": "24"},
                "38":   {"name": "",        "vendor_id": "17",  "family_id": "7", "os_name_id": "3"}
            },
            "vendor_ids": {"320": "Apple, Inc.", "17": "Raspberry Pi (Trading) Ltd"},
            "family_ids": {"9": "Smartphone", "7": "Network & Peripheral"},
            "os_name_ids": {"24": "Apple iOS", "3": "Linux"}
        }"#),
        0,
    )
}

#[test]
fn a_device_signature_resolves_to_names() {
    let got = resolve(&table(), &j(r#"{"dev_id": 4841, "confidence": 99}"#));
    assert_eq!(got.device.as_deref(), Some("iPhone"), "trailing spaces are trimmed");
    assert_eq!(got.vendor.as_deref(), Some("Apple, Inc."));
    assert_eq!(got.os.as_deref(), Some("Apple iOS"));
    assert_eq!(got.family.as_deref(), Some("Smartphone"));
    assert_eq!(got.confidence, Some(99));
}

#[test]
fn per_client_ids_win_over_the_signature() {
    let got = resolve(&table(), &j(r#"{"dev_id": 4841, "dev_vendor": 17}"#));
    assert_eq!(got.vendor.as_deref(), Some("Raspberry Pi (Trading) Ltd"));
    assert_eq!(got.device.as_deref(), Some("iPhone"));
}

#[test]
fn a_client_with_no_fingerprint_resolves_to_nothing() {
    let got = resolve(&table(), &j(r#"{"mac": "88:a2:9e:5f:36:85"}"#));
    assert!(got.is_unknown());
    assert_eq!(got.confidence, None);
}

#[test]
fn an_empty_signature_name_is_not_an_identity() {
    let got = resolve(&table(), &j(r#"{"dev_id": 38}"#));
    assert_eq!(got.device, None, "an empty name must not become a model");
    assert_eq!(got.vendor.as_deref(), Some("Raspberry Pi (Trading) Ltd"));
    assert!(!got.is_unknown(), "the vendor still names it");
}

#[test]
fn a_registry_vendor_carries_no_confidence_and_needs_none() {
    let vendor_only = Identity { vendor: Some("Dell Inc.".into()), ..Default::default() };
    assert!(!vendor_only.is_inferred());
    assert!(!vendor_only.is_uncertain(90));
    assert!(!vendor_only.is_unknown());
}

#[test]
fn confidence_gates_assertion_but_not_knowledge() {
    let sure = resolve(&table(), &j(r#"{"dev_id": 4841, "confidence": 99}"#));
    let guess = resolve(&table(), &j(r#"{"dev_id": 4841, "confidence": 60}"#));
    assert!(!sure.is_uncertain(90));
    assert!(guess.is_uncertain(90));
    assert!(!guess.is_unknown(), "a low score is still an identification");
}

#[test]
fn a_missing_confidence_counts_as_uncertain_not_as_perfect() {
    let got = resolve(&table(), &j(r#"{"dev_id": 4841}"#));
    assert!(got.is_uncertain(90));
}

#[test]
fn an_empty_table_is_empty() {
    assert!(Table::empty().is_empty());
    assert!(!table().is_empty());
}

#[test]
fn versions_compare_numerically_not_lexically() {
    assert_eq!(compare("7.5.10.17129", "6.3.10"), Ordering::Greater);
    assert_eq!(compare("7.10.0", "7.9.0"), Ordering::Greater);
    assert_eq!(compare("2.1.8.971", "1.1.7"), Ordering::Greater);
    assert_eq!(compare("5.1.31.34074", "5.1.31.34074"), Ordering::Equal);
}

#[test]
fn a_missing_component_counts_as_zero() {
    assert_eq!(compare("7.5", "7.5.0"), Ordering::Equal);
    assert_eq!(compare("7.5", "7.5.1"), Ordering::Less);
}

#[test]
fn firmware_freshness_and_model_support_are_separate_axes() {
    let stranded = assess(&j(r#"{
        "version": "4.3.20", "required_version": "4.0.0",
        "upgradable": false, "model_in_eol": true
    }"#));
    assert_eq!(stranded.label(), "current", "the firmware really is up to date");
    assert_eq!(stranded.support(), "end of life", "and the model is still stranded");
    assert!(stranded.needs_action());
}

#[test]
fn the_console_verdict_is_read_as_given() {
    let up_to_date = assess(&j(r#"{
        "version": "7.5.10.17129", "required_version": "6.3.10",
        "upgradable": false, "model_in_eol": false, "model_in_lts": false, "unsupported": false
    }"#));
    assert_eq!(up_to_date.label(), "current");
    assert_eq!(up_to_date.support(), "supported");
    assert!(!up_to_date.needs_action());
    assert!(!up_to_date.below_minimum);
}

#[test]
fn the_worst_finding_is_the_one_that_shows() {
    let bad = assess(&j(r#"{
        "version": "1.0.0", "required_version": "6.3.10",
        "upgradable": true, "model_in_eol": true, "unsupported": true
    }"#));
    assert_eq!(bad.label(), "below minimum", "the worst firmware finding wins its column");
    assert_eq!(bad.support(), "unsupported", "and the worst support finding wins its own");
    assert!(bad.eol && bad.below_minimum && bad.upgradable, "the rest stays in the data");
}

#[test]
fn being_behind_the_minimum_is_detected_from_the_versions() {
    let stale = assess(&j(r#"{"version": "6.0.0", "required_version": "6.3.10"}"#));
    assert!(stale.below_minimum);
    assert_eq!(stale.label(), "below minimum");
}

#[test]
fn a_record_with_no_versions_claims_nothing() {
    let empty = assess(&j(r#"{}"#));
    assert!(!empty.below_minimum, "absent data is not a finding");
    assert_eq!(empty.label(), "unknown", "and absent data is not a clean bill either");
    assert!(!empty.needs_action());
}

#[test]
fn nothing_leaves_the_machine_without_the_flag() {
    let want = vec!["000000".to_string()];
    assert!(mlab_unifi::enrich::lookups(&want, false).is_empty(), "declining to ask sends nothing");
    assert_eq!(mlab_unifi::enrich::lookups(&want, true), want);
    let many: Vec<String> = (0..100).map(|i| format!("{i:06}")).collect();
    assert_eq!(mlab_unifi::enrich::lookups(&many, true).len(), mlab_unifi::enrich::MAX_LOOKUPS);
}

#[test]
fn a_vendor_lookup_sends_the_prefix_with_the_device_bytes_zeroed() {
    assert_eq!(lookup_address("88a29e").as_deref(), Some("88:a2:9e:00:00:00"));
    let a = oui_of("88:A2:9E:5F:36:85").unwrap();
    let b = oui_of("88-a2-9e-01-02-03").unwrap();
    assert_eq!(lookup_address(&a), lookup_address(&b), "two devices, one prefix, one query");
    assert_eq!(lookup_address("88a2"), None);
    assert_eq!(lookup_address("88a29é"), None);
}

#[test]
fn the_case_of_an_address_does_not_change_its_oui() {
    let mac = "88:a2:9e:5f:36:85";
    assert_eq!(oui_of(mac), oui_of(&mac.to_ascii_uppercase()));
    assert_eq!(oui_of(&mac.to_ascii_uppercase()).as_deref(), Some("88a29e"));
}

#[test]
fn a_trailing_zero_component_changes_nothing() {
    assert_eq!(compare("7.5", "7.5.0"), Ordering::Equal);
    assert_eq!(compare("7.5.0", "7.5"), Ordering::Equal);
    assert_eq!(compare("7.5", "7.5.1"), Ordering::Less);
}
