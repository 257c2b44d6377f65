//! What a site's own settings say it is defending, and with what.
//!
//! Two states are deliberately kept apart, because conflating them is how a
//! posture report becomes noise. A control that is **off** is usually a
//! decision: nobody runs TLS inspection or a NetFlow collector by accident. A
//! control that **looks on and does nothing** is a different thing entirely,
//! and it is the only kind raised as needing attention.

use vstd::prelude::*;
use crate::json::{
    count_if, jflag, jget, jget2, jint, jitems, jlen, jtext, jtext2, str_items, Json, JsonV,
};
use crate::json_text::json_text;
use crate::secrets::replaceable;
use crate::audit::{capped, exposed_in};
use crate::table::{sections_by_key, value_at, view_at};
use crate::text::{
    chars_of, contains_seq, decimal, decimal_int, decimal_string, decimal_string_i64, find_chars,
    join, join_strings, str_eq,
};

verus! {

/// One thing looked at, and what was found.
#[derive(Debug)]
pub struct Check {
    pub area: &'static str,
    pub name: &'static str,
    /// `ok`, `off`, `weak` or `unknown`.
    pub state: &'static str,
    pub detail: String,
    /// True when the setting misleads: it reads as protection but is not one.
    pub attention: bool,
}


impl Check {
    /// The check as a row of the posture table.
    pub fn row(&self) -> (r: Json)
        ensures
            r@ == JsonV::Obj(
                seq![
                    ("area"@, JsonV::Str(self.area@)),
                    ("check"@, JsonV::Str(self.name@)),
                    ("state"@, JsonV::Str(self.state@)),
                    ("detail"@, JsonV::Str(self.detail@)),
                    ("attention"@, JsonV::Bool(self.attention)),
                ],
            ),
    {
        let mut m: Vec<(String, Json)> = Vec::new();
        assert(Json::members_view(m@) =~= Seq::<(Seq<char>, JsonV)>::empty());
        crate::json::put(&mut m, "area", Json::Str(String::from_str(self.area)));
        crate::json::put(&mut m, "check", Json::Str(String::from_str(self.name)));
        crate::json::put(&mut m, "state", Json::Str(String::from_str(self.state)));
        crate::json::put(&mut m, "detail", Json::Str(self.detail.clone()));
        crate::json::put(&mut m, "attention", Json::Bool(self.attention));
        assert(Json::members_view(m@) =~= seq![
            ("area"@, JsonV::Str(self.area@)),
            ("check"@, JsonV::Str(self.name@)),
            ("state"@, JsonV::Str(self.state@)),
            ("detail"@, JsonV::Str(self.detail@)),
            ("attention"@, JsonV::Bool(self.attention)),
        ]);
        Json::Obj(m)
    }
}

/// A check as values: area, name, state, detail, attention.
pub type CheckV = (Seq<char>, Seq<char>, Seq<char>, Seq<char>, bool);

pub open spec fn cv(c: Check) -> CheckV {
    (c.area@, c.name@, c.state@, c.detail@, c.attention)
}

pub open spec fn cvs(s: Seq<Check>) -> Seq<CheckV> {
    s.map_values(|c: Check| cv(c))
}

/// Where the settings sections are looked up: by their key.
pub type Sections = spec_fn(Seq<char>) -> Option<JsonV>;

/// The sections a table holds.
pub open spec fn sections_of(t: Seq<(String, Json)>) -> Sections {
    |k: Seq<char>| view_at(t, k)
}

pub open spec fn ok_v(area: Seq<char>, name: Seq<char>, detail: Seq<char>) -> CheckV {
    (area, name, "ok"@, detail, false)
}

pub open spec fn off_v(area: Seq<char>, name: Seq<char>, detail: Seq<char>) -> CheckV {
    (area, name, "off"@, detail, false)
}

/// Present, but not doing what its name suggests.
pub open spec fn weak_v(area: Seq<char>, name: Seq<char>, detail: Seq<char>) -> CheckV {
    (area, name, "weak"@, detail, true)
}

/// The section was not returned, so nothing is claimed either way.
pub open spec fn unknown_v(area: Seq<char>, name: Seq<char>) -> CheckV {
    (area, name, "unknown"@, "the console did not report this section"@, false)
}

fn check(area: &'static str, name: &'static str, state: &'static str, detail: String, attention: bool) -> (r: Check)
    ensures
        cv(r) == (area@, name@, state@, detail@, attention),
{
    Check { area, name, state, detail, attention }
}

fn ok(area: &'static str, name: &'static str, detail: String) -> (r: Check)
    ensures
        cv(r) == ok_v(area@, name@, detail@),
{
    check(area, name, "ok", detail, false)
}

fn off(area: &'static str, name: &'static str, detail: String) -> (r: Check)
    ensures
        cv(r) == off_v(area@, name@, detail@),
{
    check(area, name, "off", detail, false)
}

fn weak(area: &'static str, name: &'static str, detail: String) -> (r: Check)
    ensures
        cv(r) == weak_v(area@, name@, detail@),
{
    check(area, name, "weak", detail, true)
}

fn unknown(area: &'static str, name: &'static str) -> (r: Check)
    ensures
        cv(r) == unknown_v(area@, name@),
{
    check(area, name, "unknown", String::from_str("the console did not report this section"), false)
}

fn push(out: &mut Vec<Check>, c: Check)
    ensures
        cvs(final(out)@) == cvs(old(out)@).push(cv(c)),
{
    out.push(c);
    assert(cvs(out@) =~= cvs(old(out)@).push(cv(c)));
}

/// `a` followed by `b`.
fn cat(a: &str, b: &str) -> (r: String)
    ensures
        r@ == a@ + b@,
{
    let mut out = String::from_str(a);
    out.append(b);
    out
}

/// A DNS filter that filters something.
pub open spec fn live_filter() -> spec_fn(JsonV) -> bool {
    |f: JsonV| jtext(f, "filter"@) != "none"@
}

// ---- threats ----------------------------------------------------------------

/// The checks on threat prevention.
pub open spec fn threats_spec(sec: Sections) -> Seq<CheckV> {
    (match sec("ips"@) {
        None => seq![unknown_v("threats"@, "intrusion prevention"@)],
        Some(ips) => {
            let categories = jlen(ips, "enabled_categories"@);
            let filtering = jtext(ips, "advanced_filtering_preference"@);
            let filters = jitems(ips, "dns_filters"@);
            let live = count_if(filters, live_filter());
            seq![
                if categories == 0 {
                    weak_v(
                        "threats"@,
                        "intrusion prevention"@,
                        "no signature category is selected, so nothing is inspected"@,
                    )
                } else {
                    ok_v(
                        "threats"@,
                        "intrusion prevention"@,
                        decimal(categories) + " categor(y|ies) armed"@,
                    )
                },
                if jflag(ips, "ad_blocking_enabled"@) {
                    ok_v("threats"@, "ad blocking"@, Seq::empty())
                } else {
                    off_v("threats"@, "ad blocking"@, Seq::empty())
                },
                if filters.len() == 0 {
                    off_v("threats"@, "DNS filtering"@, Seq::empty())
                } else if live == 0 {
                    weak_v(
                        "threats"@,
                        "DNS filtering"@,
                        decimal(filters.len()) + " network(s) carry a filter set to none"@,
                    )
                } else {
                    ok_v("threats"@, "DNS filtering"@, decimal(live) + " network(s) filtered"@)
                },
                if filtering != "disabled"@ && filtering.len() > 0 {
                    ok_v("threats"@, "advanced filtering"@, filtering)
                } else {
                    off_v("threats"@, "advanced filtering"@, Seq::empty())
                },
            ]
        },
    }) + seq![
        match sec("usg_geo"@) {
            None => unknown_v("threats"@, "geo IP filtering"@),
            Some(g) => if jget2(g, "ip_filtering"@, "enabled"@) == Some(JsonV::Bool(true)) {
                ok_v("threats"@, "geo IP filtering"@, jtext2(g, "ip_filtering"@, "action"@))
            } else {
                off_v("threats"@, "geo IP filtering"@, Seq::empty())
            },
        },
    ]
}

/// How many DNS filters filter something.
fn live_filters(a: &Vec<Json>) -> (r: usize)
    ensures
        r == count_if(Json::items_view(a@), live_filter()),
{
    proof {
        crate::json::lemma_items_view(a@);
        reveal_strlit("none");
    }
    let ghost av = Json::items_view(a@);
    let mut n: usize = 0;
    let mut k: usize = 0;
    while k < a.len()
        invariant
            k <= a@.len(),
            av == Json::items_view(a@),
            av.len() == a@.len(),
            forall|j: int| 0 <= j < av.len() ==> #[trigger] av[j] == a@[j]@,
            n == count_if(av.take(k as int), live_filter()),
            n <= k,
        decreases a.len() - k,
    {
        assert(av.take(k + 1).drop_last() =~= av.take(k as int));
        assert(av.take(k + 1).last() == a@[k as int]@);
        if !str_eq(a[k].text("filter").as_str(), "none") {
            n += 1;
        }
        k += 1;
    }
    assert(av.take(k as int) =~= av);
    n
}

/// The checks on threat prevention.
pub fn threats(s: &Vec<(String, Json)>) -> (r: Vec<Check>)
    ensures
        cvs(r@) == threats_spec(sections_of(s@)),
{
    proof {
        reveal_strlit("disabled");
    }
    let mut out: Vec<Check> = Vec::new();
    let ghost s0 = cvs(out@);
    match value_at(s, "ips") {
        None => push(&mut out, unknown("threats", "intrusion prevention")),
        Some(ips) => {
            let categories = ips.len_at("enabled_categories");
            let filtering = ips.text("advanced_filtering_preference");
            if categories == 0 {
                push(
                    &mut out,
                    weak(
                        "threats",
                        "intrusion prevention",
                        String::from_str("no signature category is selected, so nothing is inspected"),
                    ),
                );
            } else {
                let mut d = decimal_string(categories as u64);
                d.append(" categor(y|ies) armed");
                push(&mut out, ok("threats", "intrusion prevention", d));
            }
            if ips.flag("ad_blocking_enabled") {
                push(&mut out, ok("threats", "ad blocking", String::new()));
            } else {
                push(&mut out, off("threats", "ad blocking", String::new()));
            }
            let (total, live) = match ips.get("dns_filters") {
                Some(Json::Arr(a)) => {
                    proof {
                        crate::json::lemma_items_view(a@);
                    }
                    (a.len(), live_filters(a))
                },
                _ => {
                    assert(count_if(Seq::<JsonV>::empty(), live_filter()) == 0);
                    (0, 0)
                },
            };
            if total == 0 {
                push(&mut out, off("threats", "DNS filtering", String::new()));
            } else if live == 0 {
                let mut d = decimal_string(total as u64);
                d.append(" network(s) carry a filter set to none");
                push(&mut out, weak("threats", "DNS filtering", d));
            } else {
                let mut d = decimal_string(live as u64);
                d.append(" network(s) filtered");
                push(&mut out, ok("threats", "DNS filtering", d));
            }
            if !str_eq(filtering.as_str(), "disabled") && !filtering.as_str().is_empty() {
                push(&mut out, ok("threats", "advanced filtering", filtering));
            } else {
                push(&mut out, off("threats", "advanced filtering", String::new()));
            }
        },
    }
    let geo = match value_at(s, "usg_geo") {
        None => unknown("threats", "geo IP filtering"),
        Some(g) => {
            let on = match g.get2("ip_filtering", "enabled") {
                Some(Json::Bool(b)) => *b,
                _ => false,
            };
            if on {
                let action = match g.get("ip_filtering") {
                    Some(f) => f.text("action"),
                    None => String::new(),
                };
                ok("threats", "geo IP filtering", action)
            } else {
                off("threats", "geo IP filtering", String::new())
            }
        },
    };
    push(&mut out, geo);
    assert(cvs(out@) =~= threats_spec(sections_of(s@)));
    out
}

// ---- inspection -------------------------------------------------------------

/// The checks on traffic inspection.
pub open spec fn inspection_spec(sec: Sections) -> Seq<CheckV> {
    seq![
        match sec("dpi"@) {
            None => unknown_v("inspection"@, "deep packet inspection"@),
            Some(d) => if jflag(d, "enabled"@) {
                ok_v(
                    "inspection"@,
                    "deep packet inspection"@,
                    if jflag(d, "fingerprintingEnabled"@) {
                        "with fingerprinting"@
                    } else {
                        Seq::empty()
                    },
                )
            } else {
                off_v("inspection"@, "deep packet inspection"@, Seq::empty())
            },
        },
        match sec("ssl_inspection"@) {
            None => unknown_v("inspection"@, "TLS inspection"@),
            Some(v) => if jtext(v, "state"@) != "off"@ {
                ok_v("inspection"@, "TLS inspection"@, jtext(v, "state"@))
            } else {
                off_v("inspection"@, "TLS inspection"@, Seq::empty())
            },
        },
        match sec("doh"@) {
            None => unknown_v("inspection"@, "DNS over HTTPS"@),
            Some(v) => if jtext(v, "state"@) == "off"@ {
                off_v("inspection"@, "DNS over HTTPS"@, Seq::empty())
            } else {
                ok_v("inspection"@, "DNS over HTTPS"@, join(str_items(jitems(v, "server_names"@)), ", "@))
            },
        },
    ]
}

/// The strings among the items of `a`, joined with commas.
fn joined_strings(a: &Vec<Json>) -> (r: String)
    ensures
        r@ == join(str_items(Json::items_view(a@)), ", "@),
{
    proof {
        crate::json::lemma_items_view(a@);
    }
    let ghost av = Json::items_view(a@);
    let mut names: Vec<String> = Vec::new();
    let mut k: usize = 0;
    while k < a.len()
        invariant
            k <= a@.len(),
            av == Json::items_view(a@),
            av.len() == a@.len(),
            forall|j: int| 0 <= j < av.len() ==> #[trigger] av[j] == a@[j]@,
            names@.map_values(|s: String| s@) == str_items(av.take(k as int)),
        decreases a.len() - k,
    {
        assert(av.take(k + 1).drop_last() =~= av.take(k as int));
        assert(av.take(k + 1).last() == a@[k as int]@);
        let ghost before = names@;
        match &a[k] {
            Json::Str(x) => names.push(x.clone()),
            _ => {},
        }
        assert(names@.map_values(|s: String| s@) =~= str_items(av.take(k + 1))) by {
            assert(before.map_values(|s: String| s@) == str_items(av.take(k as int)));
        }
        k += 1;
    }
    assert(av.take(k as int) =~= av);
    join_strings(&names, ", ")
}

/// The checks on traffic inspection.
pub fn inspection(s: &Vec<(String, Json)>) -> (r: Vec<Check>)
    ensures
        cvs(r@) == inspection_spec(sections_of(s@)),
{
    proof {
        reveal_strlit("off");
    }
    let mut out: Vec<Check> = Vec::new();
    let ghost s0 = cvs(out@);
    let dpi = match value_at(s, "dpi") {
        None => unknown("inspection", "deep packet inspection"),
        Some(d) => if d.flag("enabled") {
            let detail = if d.flag("fingerprintingEnabled") {
                String::from_str("with fingerprinting")
            } else {
                String::new()
            };
            ok("inspection", "deep packet inspection", detail)
        } else {
            off("inspection", "deep packet inspection", String::new())
        },
    };
    push(&mut out, dpi);
    let tls = match value_at(s, "ssl_inspection") {
        None => unknown("inspection", "TLS inspection"),
        Some(v) => {
            let state = v.text("state");
            if !str_eq(state.as_str(), "off") {
                ok("inspection", "TLS inspection", state)
            } else {
                off("inspection", "TLS inspection", String::new())
            }
        },
    };
    push(&mut out, tls);
    let doh = match value_at(s, "doh") {
        None => unknown("inspection", "DNS over HTTPS"),
        Some(v) => {
            let servers = match v.get("server_names") {
                Some(Json::Arr(a)) => joined_strings(a),
                _ => {
                    assert(str_items(Seq::<JsonV>::empty()) =~= Seq::<Seq<char>>::empty());
                    String::new()
                },
            };
            if str_eq(v.text("state").as_str(), "off") {
                off("inspection", "DNS over HTTPS", String::new())
            } else {
                ok("inspection", "DNS over HTTPS", servers)
            }
        },
    };
    push(&mut out, doh);
    assert(cvs(out@) =~= inspection_spec(sections_of(s@)));
    out
}

// ---- access -----------------------------------------------------------------

/// The checks on who and what can get in.
pub open spec fn access_spec(sec: Sections) -> Seq<CheckV> {
    seq![
        match sec("mgmt"@) {
            None => unknown_v("access"@, "device SSH"@),
            Some(m) => if !jflag(m, "x_ssh_enabled"@) {
                off_v("access"@, "device SSH"@, Seq::empty())
            } else if jlen(m, "x_ssh_keys"@) == 0 {
                weak_v("access"@, "device SSH"@, "enabled with no key, so password only"@)
            } else {
                ok_v("access"@, "device SSH"@, decimal(jlen(m, "x_ssh_keys"@)) + " key(s) installed"@)
            },
        },
        match sec("guest_access"@) {
            None => unknown_v("access"@, "guest portal"@),
            Some(g) => if !jflag(g, "portal_enabled"@) {
                off_v("access"@, "guest portal"@, Seq::empty())
            } else if jtext(g, "auth"@) == "none"@ {
                weak_v("access"@, "guest portal"@, "open, anyone reaching it is admitted"@)
            } else {
                ok_v("access"@, "guest portal"@, jtext(g, "auth"@))
            },
        },
        match sec("teleport"@) {
            None => unknown_v("access"@, "remote VPN"@),
            Some(t) => if jflag(t, "enabled"@) {
                ok_v("access"@, "remote VPN"@, "on, "@ + jtext(t, "subnet_cidr"@))
            } else {
                off_v("access"@, "remote VPN"@, Seq::empty())
            },
        },
        match sec("global_switch"@) {
            None => unknown_v("access"@, "802.1X on switch ports"@),
            Some(g) => if jflag(g, "dot1x_portctrl_enabled"@) {
                ok_v("access"@, "802.1X on switch ports"@, Seq::empty())
            } else {
                off_v(
                    "access"@,
                    "802.1X on switch ports"@,
                    "a device plugged into a port joins without authenticating"@,
                )
            },
        },
        match sec("usg"@) {
            None => unknown_v("access"@, "UPnP on the gateway"@),
            Some(u) => if jflag(u, "upnp_enabled"@) {
                weak_v("access"@, "UPnP on the gateway"@, "a host can publish its own inbound port"@)
            } else {
                ok_v("access"@, "UPnP on the gateway"@, "off"@)
            },
        },
        match sec("global_network"@) {
            None => unknown_v("access"@, "default posture between zones"@),
            Some(g) => {
                let p = jtext(g, "default_security_posture"@);
                if contains_seq(p, "ALLOW"@) {
                    weak_v(
                        "access"@,
                        "default posture between zones"@,
                        p + ", so a zone pair with no rule is permitted"@,
                    )
                } else {
                    ok_v("access"@, "default posture between zones"@, p)
                }
            },
        },
    ]
}

/// The checks on who and what can get in.
pub fn access(s: &Vec<(String, Json)>) -> (r: Vec<Check>)
    ensures
        cvs(r@) == access_spec(sections_of(s@)),
{
    proof {
        reveal_strlit("none");
    }
    let mut out: Vec<Check> = Vec::new();
    let ghost s0 = cvs(out@);
    let ssh = match value_at(s, "mgmt") {
        None => unknown("access", "device SSH"),
        Some(m) => if !m.flag("x_ssh_enabled") {
            off("access", "device SSH", String::new())
        } else {
            let keys = m.len_at("x_ssh_keys");
            if keys == 0 {
                weak("access", "device SSH", String::from_str("enabled with no key, so password only"))
            } else {
                let mut d = decimal_string(keys as u64);
                d.append(" key(s) installed");
                ok("access", "device SSH", d)
            }
        },
    };
    push(&mut out, ssh);
    let guest = match value_at(s, "guest_access") {
        None => unknown("access", "guest portal"),
        Some(g) => if !g.flag("portal_enabled") {
            off("access", "guest portal", String::new())
        } else {
            let auth = g.text("auth");
            if str_eq(auth.as_str(), "none") {
                weak("access", "guest portal", String::from_str("open, anyone reaching it is admitted"))
            } else {
                ok("access", "guest portal", auth)
            }
        },
    };
    push(&mut out, guest);
    let vpn = match value_at(s, "teleport") {
        None => unknown("access", "remote VPN"),
        Some(t) => if t.flag("enabled") {
            ok("access", "remote VPN", cat("on, ", t.text("subnet_cidr").as_str()))
        } else {
            off("access", "remote VPN", String::new())
        },
    };
    push(&mut out, vpn);
    let dot1x = match value_at(s, "global_switch") {
        None => unknown("access", "802.1X on switch ports"),
        Some(g) => if g.flag("dot1x_portctrl_enabled") {
            ok("access", "802.1X on switch ports", String::new())
        } else {
            off(
                "access",
                "802.1X on switch ports",
                String::from_str("a device plugged into a port joins without authenticating"),
            )
        },
    };
    push(&mut out, dot1x);
    let upnp = match value_at(s, "usg") {
        None => unknown("access", "UPnP on the gateway"),
        Some(u) => if u.flag("upnp_enabled") {
            weak("access", "UPnP on the gateway", String::from_str("a host can publish its own inbound port"))
        } else {
            ok("access", "UPnP on the gateway", String::from_str("off"))
        },
    };
    push(&mut out, upnp);
    let zones = match value_at(s, "global_network") {
        None => unknown("access", "default posture between zones"),
        Some(g) => {
            let p = g.text("default_security_posture");
            if find_chars(&chars_of(p.as_str()), &chars_of("ALLOW")).is_some() {
                weak(
                    "access",
                    "default posture between zones",
                    cat(p.as_str(), ", so a zone pair with no rule is permitted"),
                )
            } else {
                ok("access", "default posture between zones", p)
            }
        },
    };
    push(&mut out, zones);
    assert(cvs(out@) =~= access_spec(sections_of(s@)));
    out
}

// ---- logging ----------------------------------------------------------------

/// `h / 24`, rounded toward zero.
pub open spec fn days(h: int) -> int {
    if h >= 0 {
        h / 24
    } else {
        -((-h) / 24)
    }
}

/// The integer under `k`, 0 when there is none.
pub open spec fn hours(m: JsonV, k: Seq<char>) -> int {
    match jint(m, k) {
        Some(n) => n,
        None => 0,
    }
}

/// The value under `k` as JSON text, `null` when there is none.
pub open spec fn shown(v: JsonV, k: Seq<char>) -> Seq<char> {
    match jget(v, k) {
        Some(x) => json_text(x),
        None => "null"@,
    }
}

/// The checks on what the site records and where it goes.
pub open spec fn logging_spec(sec: Sections) -> Seq<CheckV> {
    seq![
        match sec("rsyslogd"@) {
            None => unknown_v("logging"@, "syslog"@),
            Some(r) => if !jflag(r, "enabled"@) {
                off_v("logging"@, "syslog"@, Seq::empty())
            } else if jtext(r, "ip"@).len() > 0 {
                ok_v("logging"@, "syslog"@, "forwarded to "@ + jtext(r, "ip"@))
            } else {
                weak_v("logging"@, "syslog"@, "kept on the console only, nothing is forwarded"@)
            },
        },
        match sec("netflow"@) {
            None => unknown_v("logging"@, "flow export"@),
            Some(n) => if jflag(n, "enabled"@) {
                ok_v("logging"@, "flow export"@, "to port "@ + shown(n, "port"@))
            } else {
                off_v("logging"@, "flow export"@, Seq::empty())
            },
        },
        match sec("super_smtp"@) {
            None => unknown_v("logging"@, "mail alerting"@),
            Some(m) => if jflag(m, "enabled"@) {
                ok_v("logging"@, "mail alerting"@, jtext(m, "host"@))
            } else {
                off_v("logging"@, "mail alerting"@, "no alert leaves the console"@)
            },
        },
        match sec("super_mgmt"@) {
            None => unknown_v("logging"@, "statistics retention"@),
            Some(m) => ok_v(
                "logging"@,
                "statistics retention"@,
                decimal_int(hours(m, "data_retention_time_in_hours_for_5minutes_scale"@))
                    + "h at 5 minutes, "@ + decimal_int(
                    days(hours(m, "data_retention_time_in_hours_for_hourly_scale"@)),
                ) + "d hourly, "@ + decimal_int(
                    days(hours(m, "data_retention_time_in_hours_for_daily_scale"@)),
                ) + "d daily"@,
            ),
        },
    ]
}

fn hours_at(m: &Json, k: &str) -> (r: i64)
    ensures
        r == hours(m@, k@),
{
    match m.int_at(k) {
        Some(n) => n,
        None => 0,
    }
}

fn days_of(h: i64) -> (r: i64)
    ensures
        r == days(h as int),
{
    if h >= 0 {
        h / 24
    } else {
        let m: i128 = -(h as i128);
        let q: i128 = m / 24;
        (-q) as i64
    }
}

/// The checks on what the site records and where it goes.
pub fn logging(s: &Vec<(String, Json)>) -> (r: Vec<Check>)
    ensures
        cvs(r@) == logging_spec(sections_of(s@)),
{
    let mut out: Vec<Check> = Vec::new();
    let ghost s0 = cvs(out@);
    let syslog = match value_at(s, "rsyslogd") {
        None => unknown("logging", "syslog"),
        Some(r) => if !r.flag("enabled") {
            off("logging", "syslog", String::new())
        } else {
            let ip = r.text("ip");
            if !ip.as_str().is_empty() {
                ok("logging", "syslog", cat("forwarded to ", ip.as_str()))
            } else {
                weak("logging", "syslog", String::from_str("kept on the console only, nothing is forwarded"))
            }
        },
    };
    push(&mut out, syslog);
    let flow = match value_at(s, "netflow") {
        None => unknown("logging", "flow export"),
        Some(n) => if n.flag("enabled") {
            let port = match n.get("port") {
                Some(p) => p.to_text(),
                None => String::from_str("null"),
            };
            ok("logging", "flow export", cat("to port ", port.as_str()))
        } else {
            off("logging", "flow export", String::new())
        },
    };
    push(&mut out, flow);
    let mail = match value_at(s, "super_smtp") {
        None => unknown("logging", "mail alerting"),
        Some(m) => if m.flag("enabled") {
            ok("logging", "mail alerting", m.text("host"))
        } else {
            off("logging", "mail alerting", String::from_str("no alert leaves the console"))
        },
    };
    push(&mut out, mail);
    let retention = match value_at(s, "super_mgmt") {
        None => unknown("logging", "statistics retention"),
        Some(m) => {
            let mut d = decimal_string_i64(
                hours_at(m, "data_retention_time_in_hours_for_5minutes_scale"),
            );
            d.append("h at 5 minutes, ");
            d.append(
                decimal_string_i64(
                    days_of(hours_at(m, "data_retention_time_in_hours_for_hourly_scale")),
                ).as_str(),
            );
            d.append("d hourly, ");
            d.append(
                decimal_string_i64(
                    days_of(hours_at(m, "data_retention_time_in_hours_for_daily_scale")),
                ).as_str(),
            );
            d.append("d daily");
            ok("logging", "statistics retention", d)
        },
    };
    push(&mut out, retention);
    assert(cvs(out@) =~= logging_spec(sections_of(s@)));
    out
}

// ---- upkeep -----------------------------------------------------------------

/// The checks on how the site keeps itself current.
pub open spec fn upkeep_spec(sec: Sections) -> Seq<CheckV> {
    seq![
        match sec("super_mgmt"@) {
            None => unknown_v("upkeep"@, "automatic backup"@),
            Some(m) => if jflag(m, "autobackup_enabled"@) {
                ok_v("upkeep"@, "automatic backup"@, Seq::empty())
            } else {
                off_v("upkeep"@, "automatic backup"@, Seq::empty())
            },
        },
        match sec("mgmt"@) {
            None => unknown_v("upkeep"@, "automatic firmware upgrade"@),
            Some(m) => if jflag(m, "auto_upgrade"@) {
                ok_v("upkeep"@, "automatic firmware upgrade"@, Seq::empty())
            } else {
                off_v("upkeep"@, "automatic firmware upgrade"@, Seq::empty())
            },
        },
        match sec("super_mgmt"@) {
            None => unknown_v("upkeep"@, "usage analytics"@),
            Some(m) => if jflag(m, "enable_analytics"@) {
                ok_v("upkeep"@, "usage analytics"@, "on, telemetry leaves the console"@)
            } else {
                ok_v("upkeep"@, "usage analytics"@, "off"@)
            },
        },
    ]
}

/// The checks on how the site keeps itself current.
pub fn upkeep(s: &Vec<(String, Json)>) -> (r: Vec<Check>)
    ensures
        cvs(r@) == upkeep_spec(sections_of(s@)),
{
    let mut out: Vec<Check> = Vec::new();
    let ghost s0 = cvs(out@);
    let backup = match value_at(s, "super_mgmt") {
        None => unknown("upkeep", "automatic backup"),
        Some(m) => if m.flag("autobackup_enabled") {
            ok("upkeep", "automatic backup", String::new())
        } else {
            off("upkeep", "automatic backup", String::new())
        },
    };
    push(&mut out, backup);
    let upgrade = match value_at(s, "mgmt") {
        None => unknown("upkeep", "automatic firmware upgrade"),
        Some(m) => if m.flag("auto_upgrade") {
            ok("upkeep", "automatic firmware upgrade", String::new())
        } else {
            off("upkeep", "automatic firmware upgrade", String::new())
        },
    };
    push(&mut out, upgrade);
    let analytics = match value_at(s, "super_mgmt") {
        None => unknown("upkeep", "usage analytics"),
        Some(m) => if m.flag("enable_analytics") {
            ok("upkeep", "usage analytics", String::from_str("on, telemetry leaves the console"))
        } else {
            ok("upkeep", "usage analytics", String::from_str("off"))
        },
    };
    push(&mut out, analytics);
    assert(cvs(out@) =~= upkeep_spec(sections_of(s@)));
    out
}

// ---- secrets and the whole report -------------------------------------------

/// How many top-level fields of the records hold a readable secret.
pub open spec fn raw_secrets(raw: Seq<JsonV>) -> nat
    decreases raw.len(),
{
    if raw.len() == 0 {
        0
    } else {
        raw_secrets(raw.drop_last()) + match raw.last() {
            JsonV::Obj(m) => exposed_in(m),
            _ => 0,
        }
    }
}

/// How many fields of the settings records come back as readable secrets.
pub fn secret_count(raw: &Vec<Json>) -> (r: u64)
    ensures
        r == capped(raw_secrets(Json::items_view(raw@))),
{
    proof {
        crate::json::lemma_items_view(raw@);
    }
    let ghost rv = Json::items_view(raw@);
    let mut n: u64 = 0;
    let mut k: usize = 0;
    while k < raw.len()
        invariant
            k <= raw@.len(),
            rv == Json::items_view(raw@),
            rv.len() == raw@.len(),
            forall|j: int| 0 <= j < rv.len() ==> #[trigger] rv[j] == raw@[j]@,
            n == capped(raw_secrets(rv.take(k as int))),
        decreases raw.len() - k,
    {
        assert(rv.take(k + 1).drop_last() =~= rv.take(k as int));
        assert(rv.take(k + 1).last() == raw@[k as int]@);
        let e = crate::audit::exposed_of(&raw[k]);
        n = n.saturating_add(e as u64);
        k += 1;
    }
    assert(rv.take(k as int) =~= rv);
    n
}

/// The check on the secrets this key reads.
pub open spec fn secrets_v(count: nat) -> CheckV {
    if count > 0 {
        weak_v(
            "secrets"@,
            "readable by this API key"@,
            decimal(count) + " field(s) come back in clear text"@,
        )
    } else {
        ok_v("secrets"@, "readable by this API key"@, "none"@)
    }
}

/// Every check, in the order they are reported.
pub open spec fn checks_spec(sec: Sections, secrets: nat) -> Seq<CheckV> {
    threats_spec(sec) + inspection_spec(sec) + access_spec(sec) + logging_spec(sec) + upkeep_spec(sec)
        + seq![secrets_v(secrets)]
}

/// Every check over the settings records of a site: the sections are read by
/// their key, the later record winning where two share one.
pub fn checks(raw: Vec<Json>) -> (r: Vec<Check>)
    ensures
        cvs(r@) == checks_spec(
            |k: Seq<char>| crate::table::last_keyed(Json::items_view(raw@), k),
            capped(raw_secrets(Json::items_view(raw@))),
        ),
{
    let ghost rv = Json::items_view(raw@);
    let secrets = secret_count(&raw);
    let t = sections_by_key(raw);
    assert(sections_of(t@) =~= (|k: Seq<char>| crate::table::last_keyed(rv, k)));
    let mut out = threats(&t);
    let mut a = inspection(&t);
    let mut b = access(&t);
    let mut c = logging(&t);
    let mut d = upkeep(&t);
    let ghost parts = (cvs(out@), cvs(a@), cvs(b@), cvs(c@), cvs(d@));
    out.append(&mut a);
    out.append(&mut b);
    out.append(&mut c);
    out.append(&mut d);
    let last = if secrets > 0 {
        let mut detail = decimal_string(secrets);
        detail.append(" field(s) come back in clear text");
        weak("secrets", "readable by this API key", detail)
    } else {
        ok("secrets", "readable by this API key", String::from_str("none"))
    };
    let ghost lv = cv(last);
    out.push(last);
    assert(cvs(out@) =~= parts.0 + parts.1 + parts.2 + parts.3 + parts.4 + seq![lv]);
    out
}

/// How many checks are in a state.
pub open spec fn count_state(s: Seq<CheckV>, state: Seq<char>) -> nat
    decreases s.len(),
{
    if s.len() == 0 {
        0
    } else {
        count_state(s.drop_last(), state) + if s.last().2 == state {
            1nat
        } else {
            0nat
        }
    }
}

/// How many checks are in `state`.
pub fn tally(checks: &Vec<Check>, state: &str) -> (r: usize)
    ensures
        r == count_state(cvs(checks@), state@),
{
    let ghost v = cvs(checks@);
    let mut n: usize = 0;
    let mut k: usize = 0;
    while k < checks.len()
        invariant
            k <= checks@.len(),
            v == cvs(checks@),
            n == count_state(v.take(k as int), state@),
            n <= k,
        decreases checks.len() - k,
    {
        assert(v.take(k + 1).drop_last() =~= v.take(k as int));
        assert(v.take(k + 1).last() == cv(checks@[k as int]));
        if str_eq(checks[k].state, state) {
            n += 1;
        }
        k += 1;
    }
    assert(v.take(k as int) =~= v);
    n
}

/// A missing section is never a pass: where the console reported no section
/// at all, every check reads `unknown`, and none is raised as needing
/// attention.
pub proof fn law_missing_section_is_never_a_pass(sec: Sections)
    requires
        forall|k: Seq<char>| #[trigger] sec(k) is None,
    ensures
        forall|j: int|
            0 <= j < (threats_spec(sec) + inspection_spec(sec) + access_spec(sec) + logging_spec(sec)
                + upkeep_spec(sec)).len() ==> {
                let c = #[trigger] (threats_spec(sec) + inspection_spec(sec) + access_spec(sec)
                    + logging_spec(sec) + upkeep_spec(sec))[j];
                c.2 == "unknown"@ && !c.4
            },
{
    assert(sec("ips"@) is None);
    assert(sec("usg_geo"@) is None);
    assert(sec("dpi"@) is None);
    assert(sec("ssl_inspection"@) is None);
    assert(sec("doh"@) is None);
    assert(sec("mgmt"@) is None);
    assert(sec("guest_access"@) is None);
    assert(sec("teleport"@) is None);
    assert(sec("global_switch"@) is None);
    assert(sec("usg"@) is None);
    assert(sec("global_network"@) is None);
    assert(sec("rsyslogd"@) is None);
    assert(sec("netflow"@) is None);
    assert(sec("super_smtp"@) is None);
    assert(sec("super_mgmt"@) is None);
}

} // verus!
