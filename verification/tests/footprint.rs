//! What a site looks like from the outside.

use mlab_unifi::footprint::{target, uplink, uplink_pairs};
use mlab_unifi::json::Json;
use mlab_unifi::network::is_private;

fn conv(v: serde_json::Value) -> Json {
    match v {
        serde_json::Value::Null => Json::Null,
        serde_json::Value::Bool(b) => Json::Bool(b),
        serde_json::Value::Number(n) => match n.as_i64() {
            Some(i) => Json::Int(i),
            None => Json::Num(n.to_string()),
        },
        serde_json::Value::String(s) => Json::Str(s),
        serde_json::Value::Array(a) => Json::Arr(a.into_iter().map(conv).collect()),
        serde_json::Value::Object(m) => {
            Json::Obj(m.into_iter().map(|(k, v)| (k, conv(v))).collect())
        }
    }
}

/// A document from its JSON text.
fn j(text: &str) -> Json {
    conv(serde_json::from_str(text).expect("test JSON parses"))
}

#[test]
fn an_unroutable_uplink_is_recognised() {
    assert!(is_private("192.168.1.61"));
    assert!(is_private("10.0.0.1"));
    assert!(is_private("172.20.5.4"));
    assert!(is_private("100.64.0.1"), "carrier-grade NAT is not routable either");
    assert!(!is_private("172.32.0.1"), "just outside the block");
    assert!(!is_private("81.250.4.1"));
    assert!(!is_private("not an address"));
}

#[test]
fn the_uplink_block_says_which_kind_of_address_it_is() {
    let wan = j(r#"{"wan_ip": "192.168.1.61", "isp_name": "Example", "asn": 12322}"#);
    let v = uplink(&wan, true);
    assert!(v.get("wanIpScope").unwrap().same(&j(r#""private""#)));
    assert!(v.get("asn").unwrap().same(&j("12322")), "the network number is known even so");
}

#[test]
fn loopback_counts_as_private_and_a_short_address_does_not() {
    assert!(is_private("127.0.0.1"));
    assert!(!is_private("10.0.0"));
    assert!(!is_private("10.0.0.x.1"), "a part that is not a byte makes it no address");
    assert!(!is_private("10.0.0.1.5"), "five parts are no IPv4 address");
    assert!(is_private("+10.0.0.1"), "a byte may carry a plus sign, as the standard parser allows");
    assert!(!is_private("10.0.0.256"));
}

#[test]
fn the_uplink_lines_name_the_scope_and_the_network_number() {
    let wan = j(r#"{"wan_ip": "81.250.4.1", "asn": 12322, "nameservers": ["1.1.1.1", "9.9.9.9"]}"#);
    let lines = uplink_pairs(&wan, false);
    assert_eq!(lines[0], ("address", "81.250.4.1 (public)".to_string()));
    assert_eq!(lines[3], ("network number", "AS12322".to_string()));
    assert_eq!(lines[4], ("resolvers", "1.1.1.1, 9.9.9.9".to_string()));
}

#[test]
fn only_a_routable_or_supplied_address_is_looked_up() {
    assert_eq!(target(None, "192.168.1.61"), None);
    assert_eq!(target(None, "81.250.4.1"), Some("81.250.4.1".to_string()));
    assert_eq!(target(Some("203.0.113.9"), "192.168.1.61"), Some("203.0.113.9".to_string()));
}
