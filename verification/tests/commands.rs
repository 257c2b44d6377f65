//! Wireless checks, event frames, arrivals and the smaller commands.

use mlab_unifi::api::{body_source, query_pair, root_path, BodySource};
use mlab_unifi::devices::{action_body, client_actions_path, device_path, port_actions_path};
use mlab_unifi::enrich::Identity;
use mlab_unifi::json::Json;
use mlab_unifi::live::{channel_path, close_detail, closed_early, label, reached, turned_away};
use mlab_unifi::login::{chosen_site, api_key, pick_site, settle_key, KeyError, KeyStep, SitePick};
use mlab_unifi::shadow::{adopted, adopted_at, adoption_seconds, arrival, cutoff, newest_first, one_off, screen, tally, Screening};
use mlab_unifi::snapshot::{default_path, file_name, ok_entry, record_all, stored_row, unavailable_entry};
use mlab_unifi::enrich::fingerprint_file;
use mlab_unifi::wifi::{describe_secret, mac_adjacent, on_off};

fn conv(v: serde_json::Value) -> Json {
    match v {
        serde_json::Value::Null => Json::Null,
        serde_json::Value::Bool(b) => Json::Bool(b),
        serde_json::Value::Number(n) => match n.as_i64() {
            Some(i) => Json::Int(i),
            None => Json::Num(n.to_string()),
        },
        serde_json::Value::String(s) => Json::Str(s),
        serde_json::Value::Array(a) => Json::Arr(a.into_iter().map(conv).collect()),
        serde_json::Value::Object(m) => {
            Json::Obj(m.into_iter().map(|(k, v)| (k, conv(v))).collect())
        }
    }
}

/// A document from its JSON text.
fn j(text: &str) -> Json {
    conv(serde_json::from_str(text).expect("test JSON parses"))
}

#[test]
fn a_bridged_access_point_sits_next_to_its_wired_address() {
    assert!(mac_adjacent("6c63f8000001", "6c63f8000003"));
    assert!(!mac_adjacent("6c63f8000001", "6c63f8000020"), "too far apart");
    assert!(!mac_adjacent("6c63f8000001", "aabbcc000003"), "different vendor");
    assert!(!mac_adjacent("6c63f8000001", "6c63f8000001"), "the same address is not a pair");
    assert!(!mac_adjacent("short", "6c63f8000001"));
}

#[test]
fn a_secret_is_described_by_shape_and_never_by_value() {
    let got = describe_secret("Tr0ub4dor&3");
    assert_eq!(got, "11 ch, 4 class");
    assert!(!got.contains("Tr0"), "the value never appears");
    assert_eq!(describe_secret("abcdefgh"), "8 ch, 1 class");
    assert_eq!(describe_secret(""), "");
}

#[test]
fn a_switch_reads_as_on_or_off() {
    assert_eq!(on_off(true), "on");
    assert_eq!(on_off(false), "off");
}

#[test]
fn a_frame_is_named_from_whatever_it_offers() {
    assert_eq!(label(&j(r#"{"meta": {"message": "device:sync"}}"#)), "device:sync");
    assert_eq!(label(&j(r#"{"type": "add"}"#)), "add");
    assert_eq!(label(&j(r#"{"modelKey": "camera"}"#)), "camera");
}

#[test]
fn an_unrecognised_frame_is_described_rather_than_called_unknown() {
    assert_eq!(label(&j(r#"{"alpha": 1, "beta": 2}"#)), "alpha, beta");
    assert_eq!(label(&j("[1, 2]")), "frame");
}

#[test]
fn only_four_keys_describe_a_frame() {
    assert_eq!(label(&j(r#"{"a": 1, "b": 2, "c": 3, "d": 4, "e": 5}"#)), "a, b, c, d");
}

#[test]
fn each_channel_has_its_own_stream() {
    assert_eq!(channel_path("protect-events", "default"), "/proxy/protect/integration/v1/subscribe/events");
    assert_eq!(channel_path("network", "my site"), "/proxy/network/wss/s/my%20site/events");
    assert!(reached(3, Some(3)));
    assert!(!reached(3, None));
}

#[test]
fn a_visit_is_not_an_arrival() {
    let visit: i64 = 1_788_000_000;
    assert!(one_off(visit, visit + 1800));
    assert!(!one_off(visit, visit + 86_400), "a device that stayed a day is an arrival");
}

#[test]
fn adoption_timestamps_are_accepted_in_either_unit() {
    let seconds = 1_788_000_000_i64;
    let millis = seconds * 1000;
    assert_eq!(adoption_seconds(seconds), seconds);
    assert_eq!(adoption_seconds(millis), seconds);
}

#[test]
fn the_window_reaches_back_whole_days_and_never_forward() {
    assert_eq!(cutoff(1_000_000, 2), 1_000_000 - 2 * 86_400);
    assert_eq!(cutoff(1_000_000, -5), 1_000_000);
}

#[test]
fn a_rotating_address_is_hidden_unless_asked_for() {
    let k = j(r#"{"mac": "C2:34:34:6A:7C:31", "first_seen": 500}"#);
    assert_eq!(screen(&k, 100, false), Screening::Hidden);
    assert_eq!(screen(&k, 100, true), Screening::Shown(true));
    assert_eq!(screen(&k, 600, true), Screening::Outside);
    assert_eq!(screen(&j(r#"{"mac": "88:a2:9e:5f:36:85"}"#), -10, false), Screening::Outside, "no first sighting");
}

#[test]
fn an_arrival_is_named_by_the_same_cascade_that_counts_it() {
    let k = j(r#"{"mac": "88:A2:9E:5F:36:85", "hostname": "pi", "first_seen": 100, "last_seen": 200, "is_wired": true}"#);
    let row = arrival(&k, &Identity::default(), Some("Raspberry Pi".into()), true, 90);
    assert!(row.get("firstSeen").unwrap().same(&j(r#""1970-01-01T00:01:40Z""#)));
    assert!(row.get("lastSeen").unwrap().same(&j(r#""1970-01-01T00:03:20Z""#)));
    assert!(row.get("name").unwrap().same(&j(r#""pi""#)));
    assert!(row.get("vendor").unwrap().same(&j(r#""Raspberry Pi""#)));
    assert!(row.get("identified").unwrap().same(&j("true")));
    assert!(row.get("macAddress").unwrap().same(&j(r#""88:a2:9e:5f:36:85""#)));
    assert!(row.get("oneOff").unwrap().same(&j("true")));
    let t = tally(&vec![row]);
    assert_eq!((t.wired, t.unnamed, t.visits, t.here), (1, 0, 1, 1));
}

#[test]
fn the_newest_arrival_comes_first() {
    let rows = vec![j(r#"{"firstSeenEpoch": 10}"#), j(r#"{"firstSeenEpoch": 30}"#), j(r#"{"firstSeenEpoch": 20}"#)];
    let got: Vec<i64> = newest_first(&rows).iter().map(|r| r.int_at("firstSeenEpoch").unwrap()).collect();
    assert_eq!(got, vec![30, 20, 10]);
}

#[test]
fn an_adoption_outside_the_window_is_left_out() {
    assert_eq!(adopted_at(&j(r#"{"adopted_at": 1788000000000}"#), 1_700_000_000), Some(1_788_000_000));
    assert_eq!(adopted_at(&j(r#"{"adopted_at": 1600000000}"#), 1_700_000_000), None);
}

#[test]
fn an_adoption_is_stamped_in_utc() {
    let row = adopted(&j(r#"{"name": "ap", "adopted_at": 1700000000, "mac": "aa"}"#), 1_700_000_000);
    assert!(row.get("adoptedAt").unwrap().same(&j(r#""2023-11-14T22:13:20Z""#)));
    assert!(row.get("model").unwrap().same(&j("null")));
}

#[test]
fn a_key_is_taken_from_the_flags_then_the_profile_then_the_terminal() {
    assert_eq!(api_key(" k1 ", "stored", false), KeyStep::Use { key: "k1".into(), kept: false });
    assert_eq!(api_key("", "stored", false), KeyStep::Use { key: "stored".into(), kept: true });
    assert_eq!(api_key("", "", true), KeyStep::Ask);
    assert_eq!(api_key("", "", false), KeyStep::Fail(KeyError::Required));
    assert_eq!(api_key("   ", "", false), KeyStep::Fail(KeyError::Empty));
    assert_eq!(settle_key("  "), Err(KeyError::Empty));
}

#[test]
fn a_configured_site_is_confirmed_by_id_or_name() {
    let sites = vec![j(r#"{"id": "a1", "name": "Default"}"#), j(r#"{"id": "b2", "name": "Lab"}"#)];
    assert_eq!(pick_site(&sites, "LAB"), SitePick::Chosen("b2".into()));
    assert_eq!(pick_site(&sites, "zz"), SitePick::NoMatch);
    assert_eq!(pick_site(&sites, ""), SitePick::Several);
    assert_eq!(pick_site(&Vec::new(), "x"), SitePick::NoSites);
    assert_eq!(chosen_site(&sites, "2"), "b2");
    assert_eq!(chosen_site(&sites, "nine"), "a1");
    assert_eq!(chosen_site(&sites, "9"), "a1");
}

#[test]
fn identifiers_are_escaped_into_device_paths() {
    assert_eq!(device_path("s1", "a/b"), "/sites/s1/devices/a%2Fb");
    assert_eq!(port_actions_path("s1", "d", 7), "/sites/s1/devices/d/interfaces/ports/7/actions");
    assert_eq!(client_actions_path("s1", "c"), "/sites/s1/clients/c/actions");
    assert!(action_body("RESTART").same(&j(r#"{"action": "RESTART"}"#)));
}

#[test]
fn the_raw_command_reads_its_arguments() {
    assert_eq!(root_path("sites"), "/sites");
    assert_eq!(root_path("/sites"), "/sites");
    assert_eq!(query_pair("a=b=c"), Some(("a".into(), "b=c".into())));
    assert_eq!(query_pair("nothing"), None);
    assert_eq!(body_source("-"), BodySource::Stdin);
    assert_eq!(body_source("@x.json"), BodySource::File("x.json".into()));
    assert_eq!(body_source("{}"), BodySource::Inline("{}".into()));
}

#[test]
fn a_collected_resource_is_stored_without_its_secrets() {
    let (entry, n) = ok_entry(vec![j(r#"{"x_passphrase": "abc", "name": "w"}"#)]);
    assert_eq!(n, 1);
    assert!(entry.get("count").unwrap().same(&j("1")));
    assert!(entry.get("status").unwrap().same(&j(r#""ok""#)));
    let failed = unavailable_entry("404".into());
    assert!(failed.get("status").unwrap().same(&j(r#""unavailable""#)));
}

#[test]
fn a_snapshot_file_is_named_by_its_time() {
    assert_eq!(file_name("2025-01-02T03:04:05Z"), "2025-01-02T030405Z.json");
    assert!(stored_row("a.json".into(), 4096).get("kb").unwrap().same(&j("4")));
}

#[test]
fn a_resource_that_failed_is_recorded_rather_than_left_out() {
    let names = vec!["wlans".to_string(), "health".to_string()];
    let got = record_all(&names, vec![Ok(vec![j(r#"{"x_passphrase": "secret"}"#)]), Err("404".to_string())]);
    assert_eq!(got.resources.len(), 2);
    assert_eq!(got.resources[1].0, "health");
    assert!(got.resources[1].1.get("status").unwrap().same(&j(r#""unavailable""#)));
    assert_eq!(got.read, 1);
    assert_eq!(got.unavailable, vec!["health".to_string()]);
    assert_eq!(got.redacted, 1);
}

#[test]
fn files_are_kept_per_console() {
    assert_eq!(default_path("10.0.0.1", "2025-01-02T03:04:05Z"), "snapshots/10-0-0-1/2025-01-02T030405Z.json");
    assert_eq!(fingerprint_file("unifi.lan"), "fingerprints-unifi-lan.json");
}

#[test]
fn a_site_is_known_to_the_internal_surfaces_by_its_reference() {
    let sites = vec![j(r#"{"id": "u1", "internalReference": "default"}"#)];
    assert_eq!(mlab_unifi::site::legacy_name(&sites, "u1"), Some("default".to_string()));
    assert_eq!(mlab_unifi::site::legacy_name(&sites, "u2"), None);
}

#[test]
fn an_address_cut_inside_a_character_is_refused_rather_than_read() {
    assert!(mlab_unifi::wifi::cuts_at_nine("6c63f8000001"));
    assert!(mlab_unifi::wifi::cuts_at_nine("short"));
    assert!(!mlab_unifi::wifi::cuts_at_nine("6c63f800é01"));
    let seen = vec![j(r#"{"bssid": "6c:63:f8:00:00:03"}"#)];
    let clients = vec![j(r#"{"mac": "6c:63:f8:00:00:01"}"#)];
    assert_eq!(mlab_unifi::wifi::adjacent_checked(&seen, &clients).unwrap().len(), 1);
    let odd = vec![j(r#"{"bssid": "aaaaaaaaéaa"}"#)];
    assert_eq!(
        mlab_unifi::wifi::adjacent_checked(&odd, &vec![j(r#"{"mac": "short"}"#)]).map(|v| v.len()),
        Some(0),
        "an address that is never compared is never cut"
    );
    assert!(mlab_unifi::wifi::adjacent_checked(&odd, &clients).is_none(), "both twelve bytes: the cut is needed");
    assert!(!mlab_unifi::wifi::mac_adjacent("aaaaaaaaéaa", "short"));
}

#[test]
fn the_uplink_record_is_the_wan_subsystem() {
    let health = vec![j(r#"{"subsystem": "lan"}"#), j(r#"{"subsystem": "wan", "wan_ip": "1.2.3.4"}"#)];
    assert_eq!(mlab_unifi::network::wan_health(&health).unwrap().text("wan_ip"), "1.2.3.4");
}

#[test]
fn a_check_reads_as_a_row() {
    let all = mlab_unifi::posture::checks(Vec::new());
    let row = all[0].row();
    assert!(row.get("state").unwrap().same(&j(r#""unknown""#)));
}

#[test]
fn a_close_frame_is_described_by_its_code_and_reason() {
    assert_eq!(close_detail(Some((1008, "policy".into()))), " with code 1008 (policy)");
    assert_eq!(close_detail(Some((1000, String::new()))), " with code 1000 (no reason given)");
    assert_eq!(close_detail(None), "");
    assert!(closed_early(1999) && !closed_early(2000));
    assert!(turned_away(0, true) && !turned_away(1, true) && !turned_away(0, false));
}
