//! What a site looks like from the outside.
//!
//! A console behind another router does not know its own public address at
//! all; reporting the private WAN address as an external footprint would be
//! exactly wrong. So the uplink says which kind of address it is, and only a
//! routable one, or one the operator supplies, is looked up from outside.

use vstd::prelude::*;
use crate::json::{jflag, jget, jget2, jitems, jstr, jtext, or_null, put, Json, JsonV};
use crate::json_text::json_text;
use crate::network::{is_private, private_spec};
use crate::posture::{sections_of, Sections};
use crate::table::{value_at, view_at};
use crate::text::{chars_of, join, join_strings, str_eq};

verus! {

pub open spec fn scope(private: bool) -> Seq<char> {
    if private {
        "private"@
    } else {
        "public"@
    }
}

/// The first gateway the uplink reports.
pub open spec fn first_gateway(wan: JsonV) -> Option<JsonV> {
    match jget(wan, "gateways"@) {
        Some(JsonV::Arr(g)) => if g.len() > 0 {
            Some(g[0])
        } else {
            None
        },
        _ => None,
    }
}

/// The uplink, saying which kind of address it is.
pub open spec fn uplink_spec(wan: JsonV, private: bool) -> JsonV {
    JsonV::Obj(
        seq![
            ("wanIp"@, JsonV::Str(jtext(wan, "wan_ip"@))),
            ("wanIpScope"@, JsonV::Str(scope(private))),
            ("gateway"@, or_null(first_gateway(wan))),
            ("isp"@, JsonV::Str(jtext(wan, "isp_name"@))),
            ("organization"@, JsonV::Str(jtext(wan, "isp_organization"@))),
            ("asn"@, or_null(jget(wan, "asn"@))),
            ("nameservers"@, or_null(jget(wan, "nameservers"@))),
            ("status"@, JsonV::Str(jtext(wan, "status"@))),
        ],
    )
}

fn gateway(wan: &Json) -> (r: Option<&Json>)
    ensures
        match r {
            Some(x) => first_gateway(wan@) == Some(x@),
            None => first_gateway(wan@) is None,
        },
{
    match wan.get("gateways") {
        Some(Json::Arr(g)) => {
            proof {
                crate::json::lemma_items_view(g@);
            }
            if g.len() > 0 {
                Some(&g[0])
            } else {
                None
            }
        },
        _ => None,
    }
}

/// The uplink, saying which kind of address it is.
pub fn uplink(wan: &Json, private: bool) -> (r: Json)
    ensures
        r@ == uplink_spec(wan@, private),
{
    let mut m: Vec<(String, Json)> = Vec::new();
    assert(Json::members_view(m@) =~= Seq::<(Seq<char>, JsonV)>::empty());
    put(&mut m, "wanIp", Json::Str(wan.text("wan_ip")));
    put(&mut m, "wanIpScope", Json::Str(String::from_str(if private {
        "private"
    } else {
        "public"
    })));
    let gw = match gateway(wan) {
        Some(g) => g.deep_clone(),
        None => Json::Null,
    };
    put(&mut m, "gateway", gw);
    put(&mut m, "isp", Json::Str(wan.text("isp_name")));
    put(&mut m, "organization", Json::Str(wan.text("isp_organization")));
    put(&mut m, "asn", wan.get_or_null("asn"));
    put(&mut m, "nameservers", wan.get_or_null("nameservers"));
    put(&mut m, "status", Json::Str(wan.text("status")));
    let ghost mv = Json::members_view(m@);
    assert(mv =~= uplink_spec(wan@, private)->Obj_0);
    Json::Obj(m)
}

/// The uplink as labelled lines.
pub open spec fn uplink_pairs_spec(wan: JsonV, private: bool) -> Seq<(Seq<char>, Seq<char>)> {
    let dns = join(crate::json::str_items(jitems(wan, "nameservers"@)), ", "@);
    seq![
        ("address"@, jtext(wan, "wan_ip"@) + " ("@ + scope(private) + ")"@),
        ("gateway"@, match first_gateway(wan) {
            Some(JsonV::Str(g)) => g,
            _ => Seq::empty(),
        }),
        ("operator"@, jtext(wan, "isp_name"@)),
        ("network number"@, match jget(wan, "asn"@) {
            Some(a) => "AS"@ + json_text(a),
            None => Seq::empty(),
        }),
        ("resolvers"@, if dns.len() == 0 {
            "none reported"@
        } else {
            dns
        }),
        ("link"@, jtext(wan, "status"@)),
    ]
}

fn strings_joined(a: &Vec<Json>) -> (r: String)
    ensures
        r@ == join(crate::json::str_items(Json::items_view(a@)), ", "@),
{
    proof {
        crate::json::lemma_items_view(a@);
    }
    let ghost av = Json::items_view(a@);
    let mut names: Vec<String> = Vec::new();
    let mut k: usize = 0;
    while k < a.len()
        invariant
            k <= a@.len(),
            av == Json::items_view(a@),
            av.len() == a@.len(),
            forall|j: int| 0 <= j < av.len() ==> #[trigger] av[j] == a@[j]@,
            names@.map_values(|s: String| s@) == crate::json::str_items(av.take(k as int)),
        decreases a.len() - k,
    {
        assert(av.take(k + 1).drop_last() =~= av.take(k as int));
        assert(av.take(k + 1).last() == a@[k as int]@);
        let ghost before = names@;
        match &a[k] {
            Json::Str(x) => {
                names.push(x.clone());
                proof {
                    crate::text::lemma_map_push(before, names@.last(), |s: String| s@);
                }
            },
            _ => {},
        }
        k += 1;
    }
    assert(av.take(k as int) =~= av);
    join_strings(&names, ", ")
}

/// The uplink as labelled lines.
pub fn uplink_pairs(wan: &Json, private: bool) -> (r: Vec<(&'static str, String)>)
    ensures
        r@.map_values(|p: (&'static str, String)| (p.0@, p.1@)) == uplink_pairs_spec(wan@, private),
{
    let dns = match wan.get("nameservers") {
        Some(Json::Arr(a)) => strings_joined(a),
        _ => {
            assert(crate::json::str_items(Seq::<JsonV>::empty()) =~= Seq::<Seq<char>>::empty());
            String::new()
        },
    };
    let mut address = wan.text("wan_ip");
    address.append(" (");
    address.append(if private {
        "private"
    } else {
        "public"
    });
    address.append(")");
    let gw = match gateway(wan) {
        Some(Json::Str(g)) => g.clone(),
        _ => String::new(),
    };
    let asn = match wan.get("asn") {
        Some(a) => {
            let mut t = String::from_str("AS");
            t.append(a.to_text().as_str());
            t
        },
        None => String::new(),
    };
    let resolvers = if chars_of(dns.as_str()).len() == 0 {
        String::from_str("none reported")
    } else {
        dns
    };
    let mut out: Vec<(&'static str, String)> = Vec::new();
    out.push(("address", address));
    out.push(("gateway", gw));
    out.push(("operator", wan.text("isp_name")));
    out.push(("network number", asn));
    out.push(("resolvers", resolvers));
    out.push(("link", wan.text("status")));
    assert(out@.map_values(|p: (&'static str, String)| (p.0@, p.1@)) =~= uplink_pairs_spec(wan@, private));
    out
}

/// Whether a teleport section is on, false where there is none.
pub open spec fn remote_vpn(sec: Sections) -> bool {
    match sec("teleport"@) {
        Some(t) => jflag(t, "enabled"@),
        None => false,
    }
}

/// The management section, null where there is none.
pub open spec fn mgmt_of(sec: Sections) -> JsonV {
    or_null(sec("mgmt"@))
}

/// How reachable the console is.
pub open spec fn reachability_spec(sys: JsonV, sec: Sections) -> JsonV {
    let mgmt = mgmt_of(sec);
    JsonV::Obj(
        seq![
            ("cloudConsole"@, or_null(jget(sys, "is_cloud_console"@))),
            ("identityProvider"@, JsonV::Bool(jflag(mgmt, "unifi_idp_enabled"@))),
            ("wifiman"@, JsonV::Bool(jflag(mgmt, "wifiman_enabled"@))),
            ("remoteVpn"@, JsonV::Bool(remote_vpn(sec))),
            ("sshBindsEverywhere"@, JsonV::Bool(jflag(mgmt, "x_ssh_bind_wildcard"@))),
            ("httpsPort"@, or_null(jget(sys, "https_port"@))),
            ("informPort"@, or_null(jget(sys, "inform_port"@))),
            ("hostname"@, JsonV::Str(jtext(sys, "hostname"@))),
        ],
    )
}

fn flag_in(v: Option<&Json>, k: &str) -> (r: bool)
    ensures
        r == jflag(
            or_null(
                match v {
                    Some(x) => Some(x@),
                    None => None,
                },
            ),
            k@,
        ),
{
    match v {
        Some(x) => x.flag(k),
        None => false,
    }
}

/// How reachable the console is, from its system record and its settings
/// sections.
pub fn reachability(sys: &Json, settings: &Vec<(String, Json)>) -> (r: Json)
    ensures
        r@ == reachability_spec(sys@, sections_of(settings@)),
{
    let mgmt = value_at(settings, "mgmt");
    let vpn = match value_at(settings, "teleport") {
        Some(t) => t.flag("enabled"),
        None => false,
    };
    let mut m: Vec<(String, Json)> = Vec::new();
    assert(Json::members_view(m@) =~= Seq::<(Seq<char>, JsonV)>::empty());
    put(&mut m, "cloudConsole", sys.get_or_null("is_cloud_console"));
    put(&mut m, "identityProvider", Json::Bool(flag_in(mgmt, "unifi_idp_enabled")));
    put(&mut m, "wifiman", Json::Bool(flag_in(mgmt, "wifiman_enabled")));
    put(&mut m, "remoteVpn", Json::Bool(vpn));
    put(&mut m, "sshBindsEverywhere", Json::Bool(flag_in(mgmt, "x_ssh_bind_wildcard")));
    put(&mut m, "httpsPort", sys.get_or_null("https_port"));
    put(&mut m, "informPort", sys.get_or_null("inform_port"));
    put(&mut m, "hostname", Json::Str(sys.text("hostname")));
    let ghost mv = Json::members_view(m@);
    assert(mv =~= reachability_spec(sys@, sections_of(settings@))->Obj_0);
    Json::Obj(m)
}

pub open spec fn yes_no(b: bool) -> Seq<char> {
    if b {
        "yes"@
    } else {
        "no"@
    }
}

/// How reachable the console is, as labelled lines.
pub open spec fn reachability_pairs_spec(sys: JsonV, sec: Sections) -> Seq<(Seq<char>, Seq<char>)> {
    let mgmt = mgmt_of(sec);
    seq![
        ("hosted by the vendor"@, yes_no(jflag(sys, "is_cloud_console"@))),
        ("vendor sign-in"@, yes_no(jflag(mgmt, "unifi_idp_enabled"@))),
        ("wifiman"@, yes_no(jflag(mgmt, "wifiman_enabled"@))),
        ("remote vpn"@, yes_no(remote_vpn(sec))),
        ("ssh on every interface"@, yes_no(jflag(mgmt, "x_ssh_bind_wildcard"@))),
        ("management port"@, match jget(sys, "https_port"@) {
            Some(p) => json_text(p),
            None => Seq::empty(),
        }),
    ]
}

fn yes_no_text(b: bool) -> (r: String)
    ensures
        r@ == yes_no(b),
{
    String::from_str(if b {
        "yes"
    } else {
        "no"
    })
}

/// How reachable the console is, as labelled lines.
pub fn reachability_pairs(sys: &Json, settings: &Vec<(String, Json)>) -> (r: Vec<(&'static str, String)>)
    ensures
        r@.map_values(|p: (&'static str, String)| (p.0@, p.1@)) == reachability_pairs_spec(
            sys@,
            sections_of(settings@),
        ),
{
    let mgmt = value_at(settings, "mgmt");
    let vpn = match value_at(settings, "teleport") {
        Some(t) => t.flag("enabled"),
        None => false,
    };
    let port = match sys.get("https_port") {
        Some(p) => p.to_text(),
        None => String::new(),
    };
    let mut out: Vec<(&'static str, String)> = Vec::new();
    out.push(("hosted by the vendor", yes_no_text(sys.flag("is_cloud_console"))));
    out.push(("vendor sign-in", yes_no_text(flag_in(mgmt, "unifi_idp_enabled"))));
    out.push(("wifiman", yes_no_text(flag_in(mgmt, "wifiman_enabled"))));
    out.push(("remote vpn", yes_no_text(vpn)));
    out.push(("ssh on every interface", yes_no_text(flag_in(mgmt, "x_ssh_bind_wildcard"))));
    out.push(("management port", port));
    assert(out@.map_values(|p: (&'static str, String)| (p.0@, p.1@)) =~= reachability_pairs_spec(
        sys@,
        sections_of(settings@),
    ));
    out
}

/// The address to look up from outside: the one the operator supplies,
/// else the WAN address when it is routable; the console cannot know its
/// public address when it sits behind another router.
pub open spec fn target_spec(public_ip: Option<Seq<char>>, wan_ip: Seq<char>) -> Option<Seq<char>> {
    match public_ip {
        Some(p) => if p.len() > 0 {
            Some(p)
        } else if wan_ip.len() > 0 && !private_spec(wan_ip) {
            Some(wan_ip)
        } else {
            None
        },
        None => if wan_ip.len() > 0 && !private_spec(wan_ip) {
            Some(wan_ip)
        } else {
            None
        },
    }
}

/// The address to look up from outside.
pub fn target(public_ip: Option<&str>, wan_ip: &str) -> (r: Option<String>)
    ensures
        match r {
            Some(t) => target_spec(
                match public_ip {
                    Some(p) => Some(p@),
                    None => None,
                },
                wan_ip@,
            ) == Some(t@),
            None => target_spec(
                match public_ip {
                    Some(p) => Some(p@),
                    None => None,
                },
                wan_ip@,
            ) is None,
        },
{
    match public_ip {
        Some(p) => if chars_of(p).len() > 0 {
            return Some(String::from_str(p));
        },
        None => {},
    }
    if chars_of(wan_ip).len() > 0 && !is_private(wan_ip) {
        Some(String::from_str(wan_ip))
    } else {
        None
    }
}

/// What an outside observer says about an address, as the report shows it;
/// nothing when the reply carries no address, which means the service
/// refused or rate-limited.
pub open spec fn outside_view_spec(v: JsonV) -> Option<JsonV> {
    if jget(v, "ip"@) is None {
        None
    } else {
        Some(
            JsonV::Obj(
                seq![
                    ("address"@, or_null(jget(v, "ip"@))),
                    ("reverseName"@, or_null(jget(v, "rdns"@))),
                    ("autonomousSystem"@, or_null(jget(v, "as"@))),
                    ("operator"@, or_null(jget(v, "isp"@))),
                    ("organization"@, or_null(jget(v, "org"@))),
                    ("country"@, or_null(jget(v, "country"@))),
                    ("prefix"@, or_null(jget2(v, "rdap"@, "cidr"@))),
                    ("abuseContact"@, or_null(jget2(v, "rdap"@, "abuse_email"@))),
                    ("hosting"@, or_null(jget(v, "hosting"@))),
                    ("proxy"@, or_null(jget(v, "proxy"@))),
                ],
            ),
        )
    }
}

fn copy_of(v: Option<&Json>) -> (r: Json)
    ensures
        r@ == or_null(
            match v {
                Some(x) => Some(x@),
                None => None,
            },
        ),
{
    match v {
        Some(x) => x.deep_clone(),
        None => Json::Null,
    }
}

/// What an outside observer says about an address, as the report shows it.
pub fn outside_view(v: &Json) -> (r: Option<Json>)
    ensures
        match r {
            Some(x) => outside_view_spec(v@) == Some(x@),
            None => outside_view_spec(v@) is None,
        },
{
    if v.get("ip").is_none() {
        return None;
    }
    let mut m: Vec<(String, Json)> = Vec::new();
    assert(Json::members_view(m@) =~= Seq::<(Seq<char>, JsonV)>::empty());
    put(&mut m, "address", v.get_or_null("ip"));
    put(&mut m, "reverseName", v.get_or_null("rdns"));
    put(&mut m, "autonomousSystem", v.get_or_null("as"));
    put(&mut m, "operator", v.get_or_null("isp"));
    put(&mut m, "organization", v.get_or_null("org"));
    put(&mut m, "country", v.get_or_null("country"));
    put(&mut m, "prefix", copy_of(v.get2("rdap", "cidr")));
    put(&mut m, "abuseContact", copy_of(v.get2("rdap", "abuse_email")));
    put(&mut m, "hosting", v.get_or_null("hosting"));
    put(&mut m, "proxy", v.get_or_null("proxy"));
    let ghost mv = Json::members_view(m@);
    assert(mv =~= outside_view_spec(v@)->0->Obj_0);
    Some(Json::Obj(m))
}

} // verus!
