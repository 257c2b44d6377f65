//! The console side: paths, envelopes, errors, profiles and sites.

use mlab_unifi::client::{array_of, esc, parse_error, unwrap_data, unwrap_legacy, Endpoints};
use mlab_unifi::config::{env_setting, flag_or_env, normalize_host, parse_mode, redact, tls_choice, ConfigFile, Mode, Overrides, Profile};
use mlab_unifi::json::Json;
use mlab_unifi::registry::{resources, Surface};
use mlab_unifi::secrets;
use mlab_unifi::site::{choose_site, looks_like_id, site_step, SiteStep};

fn conv(v: serde_json::Value) -> Json {
    match v {
        serde_json::Value::Null => Json::Null,
        serde_json::Value::Bool(b) => Json::Bool(b),
        serde_json::Value::Number(n) => match n.as_i64() {
            Some(i) => Json::Int(i),
            None => Json::Num(n.to_string()),
        },
        serde_json::Value::String(s) => Json::Str(s),
        serde_json::Value::Array(a) => Json::Arr(a.into_iter().map(conv).collect()),
        serde_json::Value::Object(m) => {
            Json::Obj(m.into_iter().map(|(k, v)| (k, conv(v))).collect())
        }
    }
}

/// A document from its JSON text.
fn j(text: &str) -> Json {
    conv(serde_json::from_str(text).expect("test JSON parses"))
}

#[test]
fn esc_escapes_path_separators() {
    assert_eq!(esc("abc-123_x.y~z"), "abc-123_x.y~z");
    assert_eq!(esc("a/b c"), "a%2Fb%20c");
}

#[test]
fn unwrap_data_only_unwraps_envelopes() {
    assert!(unwrap_data(j(r#"{"data": {"id": 1}}"#)).same(&j(r#"{"id": 1}"#)));
    let plain = j(r#"{"id": 1, "name": "x", "data": 2}"#);
    assert!(unwrap_data(plain.deep_clone()).same(&plain), "a real field named data stays put");
}

#[test]
fn array_of_normalizes_page_data() {
    assert_eq!(array_of(&j("[1, 2]")).len(), 2);
    assert!(array_of(&Json::Null).is_empty());
}

#[test]
fn parse_error_reads_both_error_shapes() {
    let body = r#"{"code":"NF","message":"gone"}"#;
    let e = parse_error(404, body, Some(&j(body)), None);
    assert_eq!(e.code, "NF");
    assert_eq!(e.message, "gone");

    let body = r#"{"statusName":"Unauthorized"}"#;
    let e = parse_error(401, body, Some(&j(body)), Some(3));
    assert_eq!(e.code, "Unauthorized");
    assert!(e.describe().contains("retry after 3s"));

    let e = parse_error(502, "<html>nope</html>", None, None);
    assert_eq!(e.message, "<html>nope</html>");
}

#[test]
fn a_legacy_refusal_is_an_error_and_its_data_is_the_answer() {
    assert!(unwrap_legacy(j(r#"{"meta": {"rc": "error", "msg": "api.err.NoSiteContext"}}"#)).is_err());
    let ok = unwrap_legacy(j(r#"{"meta": {"rc": "ok"}, "data": [1]}"#)).unwrap();
    assert!(ok.same(&j("[1]")));
}

#[test]
fn normalize_host_strips_scheme_and_slashes() {
    assert_eq!(normalize_host("https://10.0.0.1/").unwrap(), "10.0.0.1");
    assert_eq!(normalize_host(" unifi.lan:8443 ").unwrap(), "unifi.lan:8443");
    assert!(normalize_host("10.0.0.1/proxy").is_err());
    assert!(normalize_host("  ").is_err());
}

#[test]
fn tls_defaults_per_mode() {
    let local = Profile { mode: Mode::Local, ..Default::default() };
    assert!(local.insecure(), "local consoles are self-signed, skip verification");

    let strict = Profile { insecure: Some(false), ..local.clone() };
    assert!(!strict.insecure());

    let cloud = Profile { mode: Mode::Cloud, insecure: Some(true), ..Default::default() };
    assert!(!cloud.insecure(), "the cloud endpoint is always verified");
}

#[test]
fn validate_requires_key_and_host() {
    let mut p = Profile::default();
    assert!(p.validate().is_err());
    p.api_key = "k".into();
    assert!(p.validate().is_err(), "local mode still needs a host");
    p.host = "10.0.0.1".into();
    assert!(p.validate().is_ok());

    let cloud = Profile { mode: Mode::Cloud, api_key: "k".into(), ..Default::default() };
    assert!(cloud.validate().is_ok(), "cloud has a fixed base URL");
}

#[test]
fn redact_keeps_only_the_tail() {
    assert_eq!(redact("abcdefgh"), "****efgh");
    assert_eq!(redact(""), "");
}

#[test]
fn mode_parses_aliases() {
    assert_eq!(parse_mode("LOCAL").unwrap(), Mode::Local);
    assert_eq!(parse_mode("site-manager").unwrap(), Mode::Cloud);
    assert!(parse_mode("nope").is_err());
}

#[test]
fn profile_falls_back_to_the_only_one() {
    let mut cfg = ConfigFile::default();
    cfg.insert("only".into(), Profile::default());
    assert_eq!(cfg.profile(None).unwrap().0, "only");
    assert!(cfg.profile(Some("other")).is_err());
}

#[test]
fn a_stored_profile_reads_back_as_written_and_replaces_the_old_one() {
    let mut cfg = ConfigFile::default();
    cfg.insert("lab".into(), Profile { host: "10.0.0.1".into(), ..Default::default() });
    cfg.insert("lab".into(), Profile { host: "10.0.0.2".into(), ..Default::default() });
    assert_eq!(cfg.profiles.len(), 1);
    assert_eq!(cfg.profile(Some("lab")).unwrap().1.host, "10.0.0.2");
}

#[test]
fn a_local_profile_talks_to_its_console_and_a_cloud_one_to_the_account() {
    let local = Profile { host: "10.0.0.1".into(), api_key: "k".into(), ..Default::default() };
    let e = Endpoints::new(&local, None).unwrap();
    assert_eq!(e.base, "https://10.0.0.1/proxy/network/integration/v1");
    assert!(Endpoints::new(&Profile::default(), None).is_err());
}

#[test]
fn names_are_unique_because_a_snapshot_keys_on_them() {
    let all = resources();
    for (i, a) in all.iter().enumerate() {
        for b in &all[i + 1..] {
            assert_ne!(a.name, b.name, "duplicate resource name: {}", a.name);
        }
    }
}

#[test]
fn each_surface_gets_the_site_identifier_it_understands() {
    for r in resources() {
        match r.surface {
            Surface::Integration => assert!(!r.path.contains("{legacy}"), "{} takes the documented UUID", r.name),
            _ => assert!(!r.path.contains("{site}"), "{} takes the short name", r.name),
        }
    }
}

#[test]
fn a_path_is_filled_with_the_right_identifier() {
    let all = resources();
    let dev = all.iter().find(|r| r.name == "devices").unwrap();
    assert_eq!(dev.path_for("uuid-1", "default"), "/sites/uuid-1/devices");
    let legacy = all.iter().find(|r| r.name == "settings").unwrap();
    assert_eq!(legacy.path_for("uuid-1", "default"), "/s/default/rest/setting");
}

#[test]
fn a_secret_is_replaced_by_its_length_and_nothing_else() {
    let mut v = j(r#"{"x_ssh_password": "hunter2!"}"#);
    assert_eq!(secrets::redact(&mut v), 1);
    assert!(v.get("x_ssh_password").unwrap().same(&j(r#""<redacted:8>""#)));
}

#[test]
fn secrets_are_found_however_deeply_they_sit() {
    let mut v = j(r#"{"a": [{"b": {"x_passphrase": "abcdef"}}]}"#);
    assert_eq!(secrets::redact(&mut v), 1);
    let inner = &v.get("a").unwrap().as_array().unwrap()[0];
    assert!(inner.get2("b", "x_passphrase").unwrap().same(&j(r#""<redacted:6>""#)));
}

#[test]
fn secrets_a_section_name_is_not_a_secret() {
    let mut v = j(r#"{"key": "mgmt", "x_ssh_keys": []}"#);
    assert_eq!(secrets::redact(&mut v), 0);
    assert!(v.get("key").unwrap().same(&j(r#""mgmt""#)));
}

#[test]
fn an_empty_secret_is_left_alone_rather_than_marked() {
    let mut v = j(r#"{"x_mesh_psk": ""}"#);
    assert_eq!(secrets::redact(&mut v), 0);
    assert!(v.get("x_mesh_psk").unwrap().same(&j(r#""""#)));
}

#[test]
fn everything_else_survives_untouched() {
    let mut v = j(r#"{"name": "arasaka", "pmf_mode": "optional", "vlan": 30}"#);
    assert_eq!(secrets::redact(&mut v), 0);
    assert!(v.get("name").unwrap().same(&j(r#""arasaka""#)));
    assert!(v.get("vlan").unwrap().same(&j("30")));
}

#[test]
fn only_a_uuid_skips_the_lookup() {
    assert!(looks_like_id("88f7af54-98f8-306a-a1c7-c9349722b1f6"));
    assert!(!looks_like_id("Default"));
    assert!(!looks_like_id(""), "an empty setting means: go and find out");
    assert!(!looks_like_id("zzzzzzzz-98f8-306a-a1c7-c9349722b1f6"), "not hex");
    assert!(!looks_like_id("88f7af5498f8306aa1c7c9349722b1f6----"), "not grouped 8-4-4-4-12");
    assert_eq!(site_step("88f7af54-98f8-306a-a1c7-c9349722b1f6"), SiteStep::Known("88f7af54-98f8-306a-a1c7-c9349722b1f6".into()));
    assert_eq!(site_step("Default"), SiteStep::Lookup);
}

#[test]
fn a_site_is_found_by_id_or_by_name_in_any_case() {
    let sites = vec![
        j(r#"{"id": "88f7af54-98f8-306a-a1c7-c9349722b1f6", "name": "Default"}"#),
        j(r#"{"id": "b2", "name": "Lab"}"#),
    ];
    assert_eq!(choose_site("lab", &sites).unwrap(), "b2");
    assert_eq!(choose_site("b2", &sites).unwrap(), "b2");
    assert!(choose_site("", &sites).is_err(), "several sites and no setting");
    assert!(choose_site("nowhere", &sites).is_err());
    assert_eq!(choose_site("", &sites[..1].iter().map(|s| s.deep_clone()).collect()).unwrap(), sites[0].text("id"));
}

#[test]
fn secrets_are_counted_without_being_touched() {
    let v = j(r#"{"a": [{"x_passphrase": "abc"}, {"x_ssh_password": ""}], "x_mgmt_key": "k"}"#);
    assert_eq!(secrets::counted(&v), Some(2));
    assert!(secrets::is_secret_field("x_ssh_password"));
    assert!(!secrets::is_secret_field("key"));
    assert_eq!(secrets::marker(8), "<redacted:8>");
}

#[test]
fn flags_win_over_the_environment_which_wins_over_the_profile() {
    let host = flag_or_env(Some("flag.lan".into()), Some("env.lan".into()));
    let site = flag_or_env(None, Some("env-site".into()));
    let key = flag_or_env(None, None);
    assert_eq!(host.as_deref(), Some("flag.lan"));
    assert_eq!(site.as_deref(), Some("env-site"));
    assert_eq!(key, None);
    let stored = Profile {
        mode: Mode::Cloud,
        host: "stored.lan".into(),
        api_key: "stored-key".into(),
        site: "default".into(),
        insecure: Some(false),
        output: Some("json".into()),
    };
    let ov = Overrides { host, site, api_key: key, mode: Some(" LAN ".into()), output: None, insecure: tls_choice(false, false, Some(true)) };
    let p = stored.overridden(&ov).unwrap();
    assert_eq!(p.mode, Mode::Local);
    assert_eq!(p.host, "flag.lan");
    assert_eq!(p.site, "env-site");
    assert_eq!(p.api_key, "stored-key");
    assert_eq!(p.insecure, Some(true));
    assert_eq!(p.output.as_deref(), Some("json"));
}

#[test]
fn the_insecure_flag_beats_secure_which_beats_the_environment() {
    assert_eq!(tls_choice(true, true, Some(false)), Some(true));
    assert_eq!(tls_choice(false, true, Some(true)), Some(false));
    assert_eq!(tls_choice(false, false, None), None);
}

#[test]
fn a_mode_override_that_names_no_mode_is_refused() {
    let ov = Overrides { mode: Some("Moon".into()), ..Overrides::default() };
    assert!(Profile::default().overridden(&ov).is_err());
}

#[test]
fn the_first_profile_saved_becomes_the_default() {
    let mut cfg = ConfigFile::default();
    let lab = Profile { api_key: "k1".into(), host: "lab.lan".into(), ..Profile::default() };
    cfg.save_profile("lab".into(), lab.copy(), false);
    assert_eq!(cfg.default_profile.as_deref(), Some("lab"));
    cfg.save_profile("home".into(), lab.copy(), false);
    assert_eq!(cfg.default_profile.as_deref(), Some("lab"), "a later profile does not take over");
    cfg.save_profile("home".into(), lab, true);
    assert_eq!(cfg.default_profile.as_deref(), Some("home"));
    assert_eq!(cfg.profiles.len(), 2);
}

#[test]
fn only_a_stored_profile_can_become_the_default() {
    let mut cfg = ConfigFile::default();
    cfg.save_profile("lab".into(), Profile { api_key: "k".into(), ..Profile::default() }, false);
    cfg.save_profile("home".into(), Profile { api_key: "k".into(), ..Profile::default() }, false);
    assert!(!cfg.set_default("nowhere"));
    assert_eq!(cfg.default_profile.as_deref(), Some("lab"));
    assert!(cfg.set_default("home"));
    assert_eq!(cfg.default_profile.as_deref(), Some("home"));
}

#[test]
fn the_mlab_variable_wins_and_an_empty_one_counts_as_unset() {
    assert_eq!(env_setting(Some("a".into()), Some("b".into())).as_deref(), Some("a"));
    assert_eq!(env_setting(Some(String::new()), Some("b".into())).as_deref(), Some("b"));
    assert_eq!(env_setting(None, Some(String::new())), None);
}

#[test]
fn a_normalized_host_normalizes_to_itself() {
    for h in ["https://Console.lan:8443/", "  192.168.1.1//", "unifi.lan"] {
        let once = normalize_host(h).unwrap();
        assert_eq!(normalize_host(&once).unwrap(), once);
    }
}

fn percent_decode(e: &str) -> Vec<u8> {
    let b = e.as_bytes();
    let mut out = Vec::new();
    let mut i = 0;
    while i < b.len() {
        if b[i] == b'%' && i + 2 < b.len() {
            out.push(u8::from_str_radix(&e[i + 1..i + 3], 16).unwrap());
            i += 3;
        } else {
            out.push(b[i]);
            i += 1;
        }
    }
    out
}

#[test]
fn an_escaped_segment_decodes_back_to_its_bytes() {
    for s in ["plain-name_1.~", "a b/c?d#e", "été 100%", ""] {
        let e = esc(s);
        assert_eq!(percent_decode(&e), s.as_bytes());
        assert!(e.chars().all(|c| c.is_ascii_alphanumeric() || "-_.~%".contains(c)));
        for (i, _) in e.match_indices('%') {
            assert!(e[i + 1..i + 3].chars().all(|c| c.is_ascii_digit() || ('A'..='F').contains(&c)));
        }
        assert_eq!(e == s, s.bytes().all(|b| b.is_ascii_alphanumeric() || b"-_.~".contains(&b)));
    }
}
