//! What the output layer decides: format, columns, cells and words.

use mlab_unifi::json::Json;
use mlab_unifi::render::{
    auto_spec, clip, dig, duration, first, has_content, init, name_of, plural, rank, scalar, tint, widths, Format,
    Tint, MAX_CELL,
};
use mlab_unifi::ui;

fn conv(v: serde_json::Value) -> Json {
    match v {
        serde_json::Value::Null => Json::Null,
        serde_json::Value::Bool(b) => Json::Bool(b),
        serde_json::Value::Number(n) => match n.as_i64() {
            Some(i) => Json::Int(i),
            None => Json::Num(n.to_string()),
        },
        serde_json::Value::String(s) => Json::Str(s),
        serde_json::Value::Array(a) => Json::Arr(a.into_iter().map(conv).collect()),
        serde_json::Value::Object(m) => {
            Json::Obj(m.into_iter().map(|(k, v)| (k, conv(v))).collect())
        }
    }
}

/// A document from its JSON text.
fn j(text: &str) -> Json {
    conv(serde_json::from_str(text).expect("test JSON parses"))
}

fn paths(p: &[&str]) -> Vec<String> {
    p.iter().map(|s| s.to_string()).collect()
}

#[test]
fn an_unknown_or_missing_format_falls_back_to_human() {
    assert_eq!(init(None), Format::Human);
    assert_eq!(init(Some("banana")), Format::Human);
    assert!(init(Some("JSON")).is_json(), "the format is matched case-insensitively");
    assert_eq!(init(None), Format::Human);
}

#[test]
fn auto_columns_are_scalars_only_with_identity_first() {
    let rows = vec![j(r#"{"zzz": 1, "name": "ap", "ports": [{"idx": 1}], "id": "x"}"#)];
    let cols: Vec<String> = auto_spec(&rows).into_iter().map(|c| c.0).collect();
    assert_eq!(cols, vec!["NAME", "ID", "ZZZ"], "nested fields stay out of the table");
}

#[test]
fn a_path_can_be_dotted_with_fallbacks() {
    let v = j(r#"{"meta": {"name": "HQ"}}"#);
    assert_eq!(first(&v, &paths(&["name", "meta.name"])), "HQ");
    assert_eq!(first(&v, &paths(&["nope"])), "");
}

#[test]
fn a_branch_with_nothing_in_it_is_not_printable() {
    assert!(!has_content(&j(r#"{"switching": {"lags": []}}"#)));
    assert!(!has_content(&j(r#"{}"#)));
    assert!(has_content(&j(r#"{"switching": {"lags": [{"id": 1}]}}"#)));
    assert!(has_content(&j("false")), "false is a value, not an absence");
}

#[test]
fn nouns_are_pluralized_rather_than_suffixed() {
    assert_eq!(plural("device", 2), "devices");
    assert_eq!(plural("policy", 2), "policies", "not \"policys\"");
    assert_eq!(plural("client", 1), "client");
    assert_eq!(plural("zone", 0), "zones", "none is still plural");
}

#[test]
fn a_vowel_before_the_y_keeps_it_and_a_hissing_end_takes_es() {
    assert_eq!(plural("day", 2), "days");
    assert_eq!(plural("address", 2), "addresses");
    assert_eq!(plural("box", 3), "boxes");
}

#[test]
fn lists_read_as_lists_and_an_empty_one_reads_as_nothing() {
    assert_eq!(scalar(&j("[]")), "", "an empty list is an absence");
    assert_eq!(scalar(&j(r#"["CVE-1", "CVE-2"]"#)), "CVE-1, CVE-2");
    assert_eq!(scalar(&j(r#"[{"a": 1}]"#)), "[{\"a\":1}]", "objects still fall back to JSON");
}

#[test]
fn long_cells_are_clipped_to_keep_columns_aligned() {
    let long = "x".repeat(80);
    assert_eq!(clip(&long).chars().count(), MAX_CELL);
    assert!(clip(&long).ends_with('…'));
    assert_eq!(clip("short"), "short");
}

#[test]
fn a_dotted_path_walks_into_objects() {
    let v = j(r#"{"reportedState": {"hostname": "gw"}}"#);
    assert!(dig(&v, "reportedState.hostname").unwrap().same(&j(r#""gw""#)));
    assert!(dig(&v, "reportedState.missing").is_none());
}

#[test]
fn a_title_is_the_name_or_else_the_id() {
    assert_eq!(name_of(&j(r#"{"name": "office"}"#), "abc"), "office");
    assert_eq!(name_of(&j(r#"{}"#), "abc"), "abc");
}

#[test]
fn durations_read_in_days_and_hours() {
    assert_eq!(duration(561_466), "6d 11h");
}

#[test]
fn identity_keys_rank_before_the_rest() {
    assert!(rank("name") < rank("zzz"));
}

#[test]
fn states_are_coloured_by_what_they_mean() {
    assert_eq!(tint("ok"), Tint::Green);
    assert_eq!(tint("critical"), Tint::RedBold);
    assert_eq!(tint("banana"), Tint::Normal);
}

#[test]
fn a_column_is_as_wide_as_its_widest_cell() {
    let w = widths(&paths(&["ID", "NAME"]), &vec![paths(&["1", "gateway"]), paths(&["22", "ap"])]);
    assert_eq!(w, vec![2, 7]);
}

#[test]
fn quiet_disables_drawing_whatever_the_terminal_says() {
    let u = ui::init(true, None, None, true);
    assert!(u.quiet());
    assert!(!u.enabled());
}

#[test]
fn a_ci_switch_stops_animation_but_not_output() {
    let u = ui::init(false, None, Some("1"), true);
    assert!(!u.quiet());
    assert!(!u.enabled());
    assert!(ui::init(false, Some("0"), None, true).enabled(), "a zero switch is off");
}
