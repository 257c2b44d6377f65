//! The graded checks, as pure functions over already-fetched data.
//!
//! Two rules govern what may appear:
//!
//! * **A severity is about what it costs, not how it looks.** A control that
//!   is simply switched off is usually a decision and stays out; a control
//!   that reads as protection without being one belongs here.
//! * **A check that could not run produces nothing.** Never a pass. The
//!   command reports how many were skipped so an incomplete audit cannot pass
//!   for a clean one.

use vstd::prelude::*;
use crate::firmware::{assess, assessed, version_sign, Posture};
use crate::json::{count_if, jflag, jget, jget2, jlen, jstr, jtext, names_where, Json, JsonV};
use crate::secrets::{is_secret_field, replaceable, secret_field};
use crate::sort::{
    in_key_order, key_le, kview, kviews, law_sorted_in_key_order, law_sorted_is_permutation,
    law_sorted_maps_items, lemma_permutation_maps, map_item, sort_keyed, sorted_by_key, Keyed,
};
use crate::table::{find_key, lookup, view_at};
use crate::text::{
    chars_of, contains_seq, decimal, decimal_string, find_chars, lex_sign, join, join_strings, str_eq,
};

verus! {

/// How much a finding costs.
#[derive(Clone, Copy, Debug, PartialEq, Eq, PartialOrd, Ord, Structural)]
pub enum Severity {
    Low,
    Medium,
    High,
    Critical,
}

/// The rank of a severity, `Low` lowest.
pub open spec fn severity_rank(s: Severity) -> nat {
    match s {
        Severity::Low => 0,
        Severity::Medium => 1,
        Severity::High => 2,
        Severity::Critical => 3,
    }
}

pub open spec fn severity_label(s: Severity) -> Seq<char> {
    match s {
        Severity::Critical => "critical"@,
        Severity::High => "high"@,
        Severity::Medium => "medium"@,
        Severity::Low => "low"@,
    }
}

impl Severity {
    pub fn label(self) -> (r: &'static str)
        ensures
            r@ == severity_label(self),
    {
        match self {
            Severity::Critical => "critical",
            Severity::High => "high",
            Severity::Medium => "medium",
            Severity::Low => "low",
        }
    }

    /// Whether `self` is at least as severe as `other`.
    pub fn at_least(self, other: Severity) -> (r: bool)
        ensures
            r == (severity_rank(self) >= severity_rank(other)),
    {
        self.rank() >= other.rank()
    }

    fn rank(self) -> (r: u64)
        ensures
            r == severity_rank(self),
    {
        match self {
            Severity::Low => 0,
            Severity::Medium => 1,
            Severity::High => 2,
            Severity::Critical => 3,
        }
    }
}

/// One finding: how severe, where, what, why and how to fix it.
#[derive(Debug)]
pub struct Finding {
    pub severity: Severity,
    pub area: &'static str,
    pub title: String,
    pub detail: String,
    pub fix: String,
}

/// A finding as values.
pub type FindingV = (Severity, Seq<char>, Seq<char>, Seq<char>, Seq<char>);

pub open spec fn fv(f: Finding) -> FindingV {
    (f.severity, f.area@, f.title@, f.detail@, f.fix@)
}

pub open spec fn fvs(s: Seq<Finding>) -> Seq<FindingV> {
    s.map_values(|f: Finding| fv(f))
}

fn finding(severity: Severity, area: &'static str, title: String, detail: String, fix: &str) -> (r:
    Finding)
    ensures
        fv(r) == (severity, area@, title@, detail@, fix@),
{
    Finding { severity, area, title, detail, fix: String::from_str(fix) }
}

fn push(out: &mut Vec<Finding>, f: Finding)
    ensures
        fvs(final(out)@) == fvs(old(out)@).push(fv(f)),
{
    out.push(f);
    assert(fvs(out@) =~= fvs(old(out)@).push(fv(f)));
}

/// Everything the checks read. A missing piece means the checks that need it
/// are skipped, and counted as skipped.
pub struct Input {
    /// The settings sections, by their key.
    pub settings: Vec<(String, Json)>,
    pub wlans: Vec<Json>,
    pub forwards: Vec<Json>,
    /// Collected for the segmentation checks that will need it; nothing
    /// reads it yet.
    pub networks: Vec<Json>,
    pub zones: Vec<Json>,
    pub policies: Vec<Json>,
    pub devices: Vec<Json>,
}

impl Input {
    /// An input with nothing collected.
    pub fn empty() -> (r: Input)
        ensures
            r.settings@.len() == 0 && r.wlans@.len() == 0 && r.forwards@.len() == 0
                && r.networks@.len() == 0 && r.zones@.len() == 0 && r.policies@.len() == 0
                && r.devices@.len() == 0,
    {
        Input {
            settings: Vec::new(),
            wlans: Vec::new(),
            forwards: Vec::new(),
            networks: Vec::new(),
            zones: Vec::new(),
            policies: Vec::new(),
            devices: Vec::new(),
        }
    }
}

/// The settings section stored under `k`.
pub open spec fn section(i: Input, k: Seq<char>) -> Option<JsonV> {
    view_at(i.settings@, k)
}

fn section_of<'a>(i: &'a Input, k: &str) -> (r: Option<&'a Json>)
    ensures
        match r {
            Some(v) => section(*i, k@) == Some(v@),
            None => section(*i, k@) is None,
        },
{
    match find_key(&i.settings, k) {
        Some(j) => Some(&i.settings[j].1),
        None => None,
    }
}

// ---- credentials ------------------------------------------------------------

/// How many top-level members of a section hold a readable secret.
pub open spec fn exposed_in(m: Seq<(Seq<char>, JsonV)>) -> nat
    decreases m.len(),
{
    if m.len() == 0 {
        0
    } else {
        exposed_in(m.drop_last()) + if replaceable(m.last().0, m.last().1) {
            1nat
        } else {
            0nat
        }
    }
}

/// How many secrets the sections expose, over all of them.
pub open spec fn exposed_total(s: Seq<(String, Json)>) -> nat
    decreases s.len(),
{
    if s.len() == 0 {
        0
    } else {
        exposed_total(s.drop_last()) + match s.last().1@ {
            JsonV::Obj(m) => exposed_in(m),
            _ => 0,
        }
    }
}

pub open spec fn ssh_title() -> Seq<char> {
    "device SSH accepts a password and no key"@
}

/// The credential findings.
pub open spec fn credentials_spec(i: Input) -> Seq<FindingV> {
    match section(i, "mgmt"@) {
        None => Seq::empty(),
        Some(mgmt) => {
            let readable = match jstr(mgmt, "x_ssh_password"@) {
                Some(s) => s.len() > 0,
                None => false,
            };
            let ssh: Seq<FindingV> = if jflag(mgmt, "x_ssh_enabled"@) && jlen(mgmt, "x_ssh_keys"@)
                == 0 {
                seq![
                    (
                        if readable {
                            Severity::Critical
                        } else {
                            Severity::Medium
                        },
                        "credentials"@,
                        ssh_title(),
                        if readable {
                            "the password is returned in clear text by the same API key that reads this configuration, so holding the key is holding root on every device"@
                        } else {
                            "a password is the only factor protecting shell access to every device"@
                        },
                        "install an SSH key and disable password authentication, or turn device SSH off"@,
                    ),
                ]
            } else {
                Seq::empty()
            };
            let exposed = exposed_total(i.settings@);
            ssh + if exposed > 0 {
                seq![
                    (
                        Severity::High,
                        "credentials"@,
                        "the API key reads secrets in clear text"@,
                        decimal(capped(exposed)) + " field(s) come back readable, including keys and passphrases"@,
                        "treat the API key as an administrator credential: store and rotate it as one, and never give it to anything that only needs an inventory"@,
                    ),
                ]
            } else {
                Seq::empty()
            }
        },
    }
}

pub(crate) fn exposed_of(v: &Json) -> (r: usize)
    ensures
        r == match v@ {
            JsonV::Obj(m) => exposed_in(m),
            _ => 0,
        },
{
    match v {
        Json::Obj(m) => {
            proof {
                crate::json::lemma_members_view(m@);
            }
            let ghost mv = Json::members_view(m@);
            let mut n: usize = 0;
            let mut i: usize = 0;
            while i < m.len()
                invariant
                    i <= m@.len(),
                    mv == Json::members_view(m@),
                    mv.len() == m@.len(),
                    forall|j: int| 0 <= j < m@.len() ==> #[trigger] mv[j] == (m@[j].0@, m@[j].1@),
                    n == exposed_in(mv.take(i as int)),
                    n <= i,
                decreases m.len() - i,
            {
                assert(mv.take(i + 1).drop_last() =~= mv.take(i as int));
                let hit = is_secret_field(m[i].0.as_str()) && match &m[i].1 {
                    Json::Str(s) => !s.as_str().is_empty(),
                    _ => false,
                };
                if hit {
                    n += 1;
                }
                i += 1;
            }
            assert(mv.take(m@.len() as int) =~= mv);
            n
        },
        _ => 0,
    }
}

/// `n`, or `u64::MAX` where it does not fit.
pub open spec fn capped(n: nat) -> nat {
    if n > u64::MAX {
        u64::MAX as nat
    } else {
        n
    }
}

fn exposed_count(s: &Vec<(String, Json)>) -> (r: u64)
    ensures
        r == capped(exposed_total(s@)),
{
    let mut n: u64 = 0;
    let mut i: usize = 0;
    while i < s.len()
        invariant
            i <= s@.len(),
            n == capped(exposed_total(s@.take(i as int))),
        decreases s.len() - i,
    {
        assert(s@.take(i + 1).drop_last() =~= s@.take(i as int));
        let e = exposed_of(&s[i].1);
        n = n.saturating_add(e as u64);
        i += 1;
    }
    assert(s@.take(s@.len() as int) =~= s@);
    n
}

pub fn credentials(i: &Input) -> (r: Vec<Finding>)
    ensures
        fvs(r@) == credentials_spec(*i),
{
    let mut out: Vec<Finding> = Vec::new();
    assert(fvs(out@) =~= Seq::<FindingV>::empty());
    let mgmt = match section_of(i, "mgmt") {
        Some(m) => m,
        None => {
            return out;
        },
    };
    let keys = mgmt.len_at("x_ssh_keys");
    let readable = match mgmt.str_at("x_ssh_password") {
        Some(p) => chars_of(p.as_str()).len() > 0,
        None => false,
    };
    if mgmt.flag("x_ssh_enabled") && keys == 0 {
        let severity = if readable {
            Severity::Critical
        } else {
            Severity::Medium
        };
        let detail = if readable {
            String::from_str(
                "the password is returned in clear text by the same API key that reads this configuration, so holding the key is holding root on every device",
            )
        } else {
            String::from_str(
                "a password is the only factor protecting shell access to every device",
            )
        };
        push(
            &mut out,
            finding(
                severity,
                "credentials",
                String::from_str("device SSH accepts a password and no key"),
                detail,
                "install an SSH key and disable password authentication, or turn device SSH off",
            ),
        );
    }
    let exposed = exposed_count(&i.settings);
    if exposed > 0 {
        let mut detail = decimal_string(exposed);
        detail.append(" field(s) come back readable, including keys and passphrases");
        push(
            &mut out,
            finding(
                Severity::High,
                "credentials",
                String::from_str("the API key reads secrets in clear text"),
                detail,
                "treat the API key as an administrator credential: store and rotate it as one, and never give it to anything that only needs an inventory",
            ),
        );
    }
    out
}

// ---- wireless ---------------------------------------------------------------

/// How many characters the pre-shared key of a network holds.
pub open spec fn psk_len(w: JsonV) -> nat {
    match jstr(w, "x_passphrase"@) {
        Some(s) => s.len(),
        None => 0,
    }
}

/// The findings on one wireless network.
pub open spec fn wlan_findings(w: JsonV) -> Seq<FindingV> {
    let name = jtext(w, "name"@);
    let pmf = jtext(w, "pmf_mode"@);
    let psk = psk_len(w);
    (if pmf != "required"@ {
        seq![
            (
                Severity::High,
                "wireless"@,
                name + ": management frames are unprotected"@,
                "protected management frames are "@ + (if pmf.len() == 0 {
                    "unset"@
                } else {
                    pmf
                }) + ", which is what lets a deauthentication burst throw clients off the network"@,
                "set protected management frames to required, and leave WPA3 transition mode so no client falls back past it"@,
            ),
        ]
    } else {
        Seq::empty()
    }) + (if jflag(w, "wpa3_transition"@) {
        seq![
            (
                Severity::Medium,
                "wireless"@,
                name + ": WPA3 is optional in practice"@,
                "transition mode lets a client negotiate WPA2, so none of WPA3's guarantees hold for any client that asks not to"@,
                "move to WPA3 only once every client supports it"@,
            ),
        ]
    } else {
        Seq::empty()
    }) + (if psk > 0 && psk < 12 {
        seq![
            (
                Severity::Medium,
                "wireless"@,
                name + ": the pre-shared key is short"@,
                decimal(psk) + " characters, which is within reach of an offline attack once a handshake is captured"@,
                "lengthen it, or move to per-device keys so one compromise does not hand over the whole network"@,
            ),
        ]
    } else {
        Seq::empty()
    }) + (if !jflag(w, "private_preshared_keys_enabled"@) && psk > 0 {
        seq![
            (
                Severity::Low,
                "wireless"@,
                name + ": one key for every device"@,
                "rotating it means reprovisioning everything, which is why it never gets rotated"@,
                "enable per-device pre-shared keys"@,
            ),
        ]
    } else {
        Seq::empty()
    })
}

/// The findings on every wireless network, in order.
pub open spec fn wireless_spec(ws: Seq<JsonV>) -> Seq<FindingV>
    decreases ws.len(),
{
    if ws.len() == 0 {
        Seq::empty()
    } else {
        wireless_spec(ws.drop_last()) + wlan_findings(ws.last())
    }
}

/// Every wireless network whose management frames are not required to be
/// protected (optional, disabled or unset) is reported: a High wireless
/// finding named after it says its management frames are unprotected.
pub proof fn law_unprotected_frames_are_reported(ws: Seq<JsonV>, k: int)
    requires
        0 <= k < ws.len(),
        jtext(ws[k], "pmf_mode"@) != "required"@,
    ensures
        exists|j: int|
            0 <= j < wireless_spec(ws).len() && (#[trigger] wireless_spec(ws)[j]).0 == Severity::High
                && wireless_spec(ws)[j].1 == "wireless"@ && wireless_spec(ws)[j].2 == jtext(
                ws[k],
                "name"@,
            ) + ": management frames are unprotected"@,
    decreases ws.len(),
{
    let p = ws.drop_last();
    assert(wireless_spec(ws) == wireless_spec(p) + wlan_findings(ws.last()));
    if k == ws.len() - 1 {
        let j = wireless_spec(p).len() as int;
        assert(wireless_spec(ws)[j] == wlan_findings(ws.last())[0]);
    } else {
        assert(p[k] == ws[k]);
        law_unprotected_frames_are_reported(p, k);
        let j = choose|j: int|
            0 <= j < wireless_spec(p).len() && (#[trigger] wireless_spec(p)[j]).0 == Severity::High
                && wireless_spec(p)[j].1 == "wireless"@ && wireless_spec(p)[j].2 == jtext(
                p[k],
                "name"@,
            ) + ": management frames are unprotected"@;
        assert(wireless_spec(ws)[j] == wireless_spec(p)[j]);
    }
}

/// `a` followed by `b`.
fn cat(a: &str, b: &str) -> (r: String)
    ensures
        r@ == a@ + b@,
{
    let mut out = String::from_str(a);
    out.append(b);
    out
}

fn wlan(w: &Json, out: &mut Vec<Finding>)
    ensures
        fvs(final(out)@) == fvs(old(out)@) + wlan_findings(w@),
{
    let ghost start = fvs(out@);
    let name = w.text("name");
    let pmf = w.text("pmf_mode");
    let psk: usize = match w.str_at("x_passphrase") {
        Some(p) => chars_of(p.as_str()).len(),
        None => 0,
    };
    let ghost a = fvs(out@);
    if !str_eq(pmf.as_str(), "required") {
        let mut detail = String::from_str("protected management frames are ");
        if pmf.as_str().is_empty() {
            detail.append("unset");
        } else {
            detail.append(pmf.as_str());
        }
        detail.append(", which is what lets a deauthentication burst throw clients off the network");
        push(
            out,
            finding(
                Severity::High,
                "wireless",
                cat(name.as_str(), ": management frames are unprotected"),
                detail,
                "set protected management frames to required, and leave WPA3 transition mode so no client falls back past it",
            ),
        );
    }
    let ghost b = fvs(out@);
    if w.flag("wpa3_transition") {
        push(
            out,
            finding(
                Severity::Medium,
                "wireless",
                cat(name.as_str(), ": WPA3 is optional in practice"),
                String::from_str(
                    "transition mode lets a client negotiate WPA2, so none of WPA3's guarantees hold for any client that asks not to",
                ),
                "move to WPA3 only once every client supports it",
            ),
        );
    }
    let ghost c = fvs(out@);
    if psk > 0 && psk < 12 {
        let mut detail = decimal_string(psk as u64);
        detail.append(
            " characters, which is within reach of an offline attack once a handshake is captured",
        );
        push(
            out,
            finding(
                Severity::Medium,
                "wireless",
                cat(name.as_str(), ": the pre-shared key is short"),
                detail,
                "lengthen it, or move to per-device keys so one compromise does not hand over the whole network",
            ),
        );
    }
    let ghost d = fvs(out@);
    if !w.flag("private_preshared_keys_enabled") && psk > 0 {
        push(
            out,
            finding(
                Severity::Low,
                "wireless",
                cat(name.as_str(), ": one key for every device"),
                String::from_str(
                    "rotating it means reprovisioning everything, which is why it never gets rotated",
                ),
                "enable per-device pre-shared keys",
            ),
        );
    }
    assert(fvs(out@) =~= start + wlan_findings(w@));
}

pub fn wireless(i: &Input) -> (r: Vec<Finding>)
    ensures
        fvs(r@) == wireless_spec(Json::items_view(i.wlans@)),
{
    proof {
        crate::json::lemma_items_view(i.wlans@);
    }
    let ghost ws = Json::items_view(i.wlans@);
    let mut out: Vec<Finding> = Vec::new();
    assert(fvs(out@) =~= wireless_spec(ws.take(0)));
    let mut k: usize = 0;
    while k < i.wlans.len()
        invariant
            k <= i.wlans@.len(),
            ws == Json::items_view(i.wlans@),
            ws.len() == i.wlans@.len(),
            forall|j: int| 0 <= j < ws.len() ==> #[trigger] ws[j] == i.wlans@[j]@,
            fvs(out@) == wireless_spec(ws.take(k as int)),
        decreases i.wlans.len() - k,
    {
        assert(ws.take(k + 1).drop_last() =~= ws.take(k as int));
        assert(ws.take(k + 1).last() == i.wlans@[k as int]@);
        wlan(&i.wlans[k], &mut out);
        k += 1;
    }
    assert(ws.take(k as int) =~= ws);
    out
}

// ---- segmentation -----------------------------------------------------------

/// A zone that holds no network.
pub open spec fn zone_is_empty(z: JsonV) -> bool {
    jget(z, "networkIds"@) matches Some(JsonV::Arr(a)) && a.len() == 0
}

/// Whether `id` names one of the first `n` zones and that zone holds no network.
pub open spec fn empty_zone_in(zones: Seq<JsonV>, n: int, id: Seq<char>) -> bool {
    exists|j: int|
        0 <= j < n && j < zones.len() && zone_is_empty(#[trigger] zones[j]) && jstr(zones[j], "id"@)
            == Some(id)
}

/// Whether `id` names a zone that holds no network.
pub open spec fn empty_zone(zones: Seq<JsonV>, id: Seq<char>) -> bool {
    empty_zone_in(zones, zones.len() as int, id)
}

/// Whether `t` is one of `ids`.
pub open spec fn holds_text(ids: Seq<String>, t: Seq<char>) -> bool {
    exists|m: int| 0 <= m < ids.len() && #[trigger] ids[m]@ == t
}

/// A rule someone wrote, as opposed to one the console ships.
pub open spec fn user_defined(p: JsonV) -> bool {
    jget2(p, "metadata"@, "origin"@) == Some(JsonV::Str("USER_DEFINED"@))
}

/// Whether a rule names an empty zone as its source or destination.
pub open spec fn names_empty_zone(p: JsonV, zones: Seq<JsonV>) -> bool {
    ||| (jget2(p, "source"@, "zoneId"@) matches Some(JsonV::Str(z)) && empty_zone(zones, z))
    ||| (jget2(p, "destination"@, "zoneId"@) matches Some(JsonV::Str(z)) && empty_zone(zones, z))
}

/// A rule that opens a whole zone to another: no traffic filter on either side.
pub open spec fn zone_wide(p: JsonV) -> bool {
    jget2(p, "source"@, "trafficFilter"@) is None && jget2(p, "destination"@, "trafficFilter"@) is None
}

/// A rule someone wrote that names an empty zone.
pub open spec fn dead_rule(zones: Seq<JsonV>) -> spec_fn(JsonV) -> bool {
    |p: JsonV| user_defined(p) && names_empty_zone(p, zones)
}

/// A rule someone wrote.
pub open spec fn user_rule() -> spec_fn(JsonV) -> bool {
    |p: JsonV| user_defined(p)
}

/// A rule someone wrote that opens a whole zone to another.
pub open spec fn wide_rule() -> spec_fn(JsonV) -> bool {
    |p: JsonV| user_defined(p) && zone_wide(p)
}

/// The segmentation findings.
pub open spec fn segmentation_spec(i: Input) -> Seq<FindingV> {
    let zones = Json::items_view(i.zones@);
    let ps = Json::items_view(i.policies@);
    let dead = names_where(ps, dead_rule(zones));
    let user = count_if(ps, user_rule());
    let wide = count_if(ps, wide_rule());
    (match section(i, "global_network"@) {
        Some(g) => if contains_seq(jtext(g, "default_security_posture"@), "ALLOW"@) {
            seq![
                (
                    Severity::High,
                    "segmentation"@,
                    "zones permit each other by default"@,
                    "the default posture is "@ + jtext(g, "default_security_posture"@)
                        + ", so the rule set is a list of permissions on top of a default that already permits"@,
                    "set the default posture to deny and let the rules grant what is needed"@,
                ),
            ]
        } else {
            Seq::empty()
        },
        None => Seq::empty(),
    }) + (match section(i, "global_switch"@) {
        Some(g) => if !jflag(g, "dot1x_portctrl_enabled"@) {
            seq![
                (
                    Severity::Medium,
                    "segmentation"@,
                    "a switch port authenticates nobody"@,
                    "802.1X is off, so anything plugged into a port joins the network it is patched to"@,
                    "enable 802.1X on the ports that are physically reachable"@,
                ),
            ]
        } else {
            Seq::empty()
        },
        None => Seq::empty(),
    }) + (if dead.len() > 0 {
        seq![
            (
                Severity::High,
                "segmentation"@,
                "a rule you wrote matches nothing"@,
                decimal(dead.len())
                    + " rule(s) point at a zone holding no network, so the restriction they express is not in force and the traffic is decided elsewhere: "@
                    + join(dead, ", "@),
                "move the network into the zone the rule names, or rewrite the rule against the zone the network is actually in"@,
            ),
        ]
    } else {
        Seq::empty()
    }) + (if wide > 0 && user > 0 {
        seq![
            (
                Severity::Medium,
                "segmentation"@,
                "most rules open a whole zone to another"@,
                decimal(wide) + " of "@ + decimal(user)
                    + " rules match any traffic between their zones, so segmentation stops at zone granularity"@,
                "narrow the rules that only need one host or one port"@,
            ),
        ]
    } else {
        Seq::empty()
    })
}

/// The ids of the zones that hold no network, in order.
fn empty_zone_ids(zones: &Vec<Json>) -> (r: Vec<String>)
    ensures
        forall|id: Seq<char>|
            #[trigger] empty_zone(Json::items_view(zones@), id) <==> holds_text(r@, id),
{
    proof {
        crate::json::lemma_items_view(zones@);
    }
    let ghost zs = Json::items_view(zones@);
    let mut out: Vec<String> = Vec::new();
    let mut k: usize = 0;
    while k < zones.len()
        invariant
            k <= zones@.len(),
            zs == Json::items_view(zones@),
            zs.len() == zones@.len(),
            forall|j: int| 0 <= j < zs.len() ==> #[trigger] zs[j] == zones@[j]@,
            forall|id: Seq<char>| #[trigger] empty_zone_in(zs, k as int, id) <==> holds_text(out@, id),
        decreases zones.len() - k,
    {
        let z = &zones[k];
        let empty = match z.get("networkIds") {
            Some(Json::Arr(a)) => {
                proof {
                    crate::json::lemma_items_view(a@);
                }
                a.len() == 0
            },
            _ => false,
        };
        assert(empty == zone_is_empty(zs[k as int]));
        let ghost before = out@;
        let mut pushed = false;
        if empty {
            match z.str_at("id") {
                Some(id) => {
                    out.push(id.clone());
                    pushed = true;
                },
                None => {},
            }
        }
        proof {
            assert forall|id: Seq<char>| #[trigger]
                empty_zone_in(zs, k + 1, id) <==> holds_text(out@, id) by {
                if empty_zone_in(zs, k + 1, id) {
                    let j = choose|j: int|
                        0 <= j < k + 1 && j < zs.len() && zone_is_empty(#[trigger] zs[j]) && jstr(
                            zs[j],
                            "id"@,
                        ) == Some(id);
                    if j < k {
                        assert(empty_zone_in(zs, k as int, id));
                        assert(holds_text(before, id));
                        let m = choose|m: int| 0 <= m < before.len() && #[trigger] before[m]@ == id;
                        assert(out@[m] == before[m]);
                        assert(holds_text(out@, id));
                    } else {
                        assert(pushed);
                        assert(out@[before.len() as int]@ == id);
                        assert(holds_text(out@, id));
                    }
                }
                if holds_text(out@, id) {
                    let m = choose|m: int| 0 <= m < out@.len() && #[trigger] out@[m]@ == id;
                    if m < before.len() {
                        assert(before[m] == out@[m]);
                        assert(holds_text(before, id));
                        assert(empty_zone_in(zs, k as int, id));
                        let j = choose|j: int|
                            0 <= j < k && j < zs.len() && zone_is_empty(#[trigger] zs[j]) && jstr(
                                zs[j],
                                "id"@,
                            ) == Some(id);
                        assert(zone_is_empty(zs[j]));
                        assert(empty_zone_in(zs, k + 1, id));
                    } else {
                        assert(zone_is_empty(zs[k as int]) && jstr(zs[k as int], "id"@) == Some(id));
                        assert(empty_zone_in(zs, k + 1, id));
                    }
                }
            }
        }
        k += 1;
    }
    proof {
        assert forall|id: Seq<char>| #[trigger]
            empty_zone(zs, id) <==> holds_text(out@, id) by {
            assert(empty_zone_in(zs, k as int, id) <==> holds_text(out@, id));
        }
    }
    out
}

/// Whether `z` is one of `ids`.
fn listed(ids: &Vec<String>, z: &str) -> (r: bool)
    ensures
        r == holds_text(ids@, z@),
{
    let mut k: usize = 0;
    while k < ids.len()
        invariant
            k <= ids@.len(),
            forall|m: int| 0 <= m < k ==> #[trigger] ids@[m]@ != z@,
        decreases ids.len() - k,
    {
        if str_eq(ids[k].as_str(), z) {
            return true;
        }
        k += 1;
    }
    false
}

/// Whether the zone a rule names under `side` is one of `ids`.
fn side_in(p: &Json, side: &str, ids: &Vec<String>) -> (r: bool)
    ensures
        r == (jget2(p@, side@, "zoneId"@) matches Some(JsonV::Str(z)) && holds_text(ids@, z)),
{
    match p.get2(side, "zoneId") {
        Some(Json::Str(z)) => listed(ids, z.as_str()),
        _ => false,
    }
}

fn is_user_defined(p: &Json) -> (r: bool)
    ensures
        r == user_defined(p@),
{
    proof {
        reveal_strlit("USER_DEFINED");
    }
    match p.get2("metadata", "origin") {
        Some(Json::Str(o)) => str_eq(o.as_str(), "USER_DEFINED"),
        _ => false,
    }
}

pub fn segmentation(i: &Input) -> (r: Vec<Finding>)
    ensures
        fvs(r@) == segmentation_spec(*i),
{
    proof {
        crate::json::lemma_items_view(i.zones@);
        crate::json::lemma_items_view(i.policies@);
        reveal_strlit("ALLOW");
    }
    let ghost zones = Json::items_view(i.zones@);
    let ghost ps = Json::items_view(i.policies@);
    let mut out: Vec<Finding> = Vec::new();
    let ghost s0 = fvs(out@);
    match section_of(i, "global_network") {
        Some(g) => {
            let posture = g.text("default_security_posture");
            if find_chars(&chars_of(posture.as_str()), &chars_of("ALLOW")).is_some() {
                let mut detail = String::from_str("the default posture is ");
                detail.append(posture.as_str());
                detail.append(
                    ", so the rule set is a list of permissions on top of a default that already permits",
                );
                push(
                    &mut out,
                    finding(
                        Severity::High,
                        "segmentation",
                        String::from_str("zones permit each other by default"),
                        detail,
                        "set the default posture to deny and let the rules grant what is needed",
                    ),
                );
            }
        },
        None => {},
    }
    let ghost s1 = fvs(out@);
    match section_of(i, "global_switch") {
        Some(g) => {
            if !g.flag("dot1x_portctrl_enabled") {
                push(
                    &mut out,
                    finding(
                        Severity::Medium,
                        "segmentation",
                        String::from_str("a switch port authenticates nobody"),
                        String::from_str(
                            "802.1X is off, so anything plugged into a port joins the network it is patched to",
                        ),
                        "enable 802.1X on the ports that are physically reachable",
                    ),
                );
            }
        },
        None => {},
    }
    let ghost s2 = fvs(out@);
    let empty = empty_zone_ids(&i.zones);
    let mut dead: Vec<String> = Vec::new();
    let mut user: usize = 0;
    let mut wide: usize = 0;
    let mut k: usize = 0;
    while k < i.policies.len()
        invariant
            k <= i.policies@.len(),
            ps == Json::items_view(i.policies@),
            zones == Json::items_view(i.zones@),
            ps.len() == i.policies@.len(),
            forall|j: int| 0 <= j < ps.len() ==> #[trigger] ps[j] == i.policies@[j]@,
            forall|id: Seq<char>| #[trigger] empty_zone(zones, id) <==> holds_text(empty@, id),
            dead@.map_values(|s: String| s@) == names_where(ps.take(k as int), dead_rule(zones)),
            user == count_if(ps.take(k as int), user_rule()),
            wide == count_if(ps.take(k as int), wide_rule()),
            user <= k,
            wide <= k,
        decreases i.policies.len() - k,
    {
        let p = &i.policies[k];
        assert(ps.take(k + 1).drop_last() =~= ps.take(k as int));
        assert(ps.take(k + 1).last() == p@);
        let u = is_user_defined(p);
        let src = side_in(p, "source", &empty);
        let dst = side_in(p, "destination", &empty);
        proof {
            if let Some(JsonV::Str(z)) = jget2(p@, "source"@, "zoneId"@) {
                assert(empty_zone(zones, z) <==> holds_text(empty@, z));
            }
            if let Some(JsonV::Str(z)) = jget2(p@, "destination"@, "zoneId"@) {
                assert(empty_zone(zones, z) <==> holds_text(empty@, z));
            }
        }
        let ghost before = dead@;
        if u && (src || dst) {
            dead.push(p.text("name"));
        }
        assert(dead@.map_values(|s: String| s@) =~= names_where(
            ps.take(k + 1),
            dead_rule(zones),
        )) by {
            assert(before.map_values(|s: String| s@) == names_where(
                ps.take(k as int),
                dead_rule(zones),
            ));
        }
        if u {
            user += 1;
        }
        if u && p.get2("source", "trafficFilter").is_none() && p.get2(
            "destination",
            "trafficFilter",
        ).is_none() {
            wide += 1;
        }
        k += 1;
    }
    assert(ps.take(k as int) =~= ps);
    let ghost s3 = fvs(out@);
    if dead.len() > 0 {
        let mut detail = decimal_string(dead.len() as u64);
        detail.append(
            " rule(s) point at a zone holding no network, so the restriction they express is not in force and the traffic is decided elsewhere: ",
        );
        detail.append(join_strings(&dead, ", ").as_str());
        push(
            &mut out,
            finding(
                Severity::High,
                "segmentation",
                String::from_str("a rule you wrote matches nothing"),
                detail,
                "move the network into the zone the rule names, or rewrite the rule against the zone the network is actually in",
            ),
        );
    }
    let ghost s4 = fvs(out@);
    if wide > 0 && user > 0 {
        let mut detail = decimal_string(wide as u64);
        detail.append(" of ");
        detail.append(decimal_string(user as u64).as_str());
        detail.append(
            " rules match any traffic between their zones, so segmentation stops at zone granularity",
        );
        push(
            &mut out,
            finding(
                Severity::Medium,
                "segmentation",
                String::from_str("most rules open a whole zone to another"),
                detail,
                "narrow the rules that only need one host or one port",
            ),
        );
    }
    assert(fvs(out@) =~= segmentation_spec(*i));
    out
}

// ---- exposure ---------------------------------------------------------------

/// An active forward that does not log.
pub open spec fn unlogged_forward() -> spec_fn(JsonV) -> bool {
    |f: JsonV| jflag(f, "enabled"@) && !jflag(f, "log"@)
}

/// An active forward open to any source.
pub open spec fn open_forward() -> spec_fn(JsonV) -> bool {
    |f: JsonV| jflag(f, "enabled"@) && !jflag(f, "src_limiting_enabled"@)
}

/// The exposure findings.
pub open spec fn exposure_spec(i: Input) -> Seq<FindingV> {
    let fs = Json::items_view(i.forwards@);
    let unlogged = count_if(fs, unlogged_forward());
    let open = count_if(fs, open_forward());
    (if unlogged > 0 {
        seq![
            (
                Severity::Medium,
                "exposure"@,
                "inbound traffic is accepted without a trace"@,
                decimal(unlogged) + " active port forward(s) have logging off"@,
                "turn logging on for every forward: it is the only record that a connection through them ever happened"@,
            ),
        ]
    } else {
        Seq::empty()
    }) + (if open > 0 {
        seq![
            (
                Severity::Medium,
                "exposure"@,
                "inbound rules accept any source"@,
                decimal(open) + " active port forward(s) have no source restriction"@,
                "restrict the source where the service is not meant for the whole internet"@,
            ),
        ]
    } else {
        Seq::empty()
    }) + (if section(i, "usg"@) matches Some(u) && jflag(u, "upnp_enabled"@) {
        seq![
            (
                Severity::High,
                "exposure"@,
                "hosts may publish their own ports"@,
                "UPnP is enabled on the gateway, so any host can open an inbound port without asking anyone"@,
                "disable UPnP and declare the forwards you actually want"@,
            ),
        ]
    } else {
        Seq::empty()
    })
}

pub fn exposure(i: &Input) -> (r: Vec<Finding>)
    ensures
        fvs(r@) == exposure_spec(*i),
{
    proof {
        crate::json::lemma_items_view(i.forwards@);
    }
    let ghost fs = Json::items_view(i.forwards@);
    let mut unlogged: usize = 0;
    let mut open: usize = 0;
    let mut k: usize = 0;
    while k < i.forwards.len()
        invariant
            k <= i.forwards@.len(),
            fs == Json::items_view(i.forwards@),
            fs.len() == i.forwards@.len(),
            forall|j: int| 0 <= j < fs.len() ==> #[trigger] fs[j] == i.forwards@[j]@,
            unlogged == count_if(fs.take(k as int), unlogged_forward()),
            open == count_if(fs.take(k as int), open_forward()),
            unlogged <= k,
            open <= k,
        decreases i.forwards.len() - k,
    {
        let f = &i.forwards[k];
        assert(fs.take(k + 1).drop_last() =~= fs.take(k as int));
        assert(fs.take(k + 1).last() == f@);
        if f.flag("enabled") && !f.flag("log") {
            unlogged += 1;
        }
        if f.flag("enabled") && !f.flag("src_limiting_enabled") {
            open += 1;
        }
        k += 1;
    }
    assert(fs.take(k as int) =~= fs);
    let mut out: Vec<Finding> = Vec::new();
    let ghost s0 = fvs(out@);
    if unlogged > 0 {
        let mut detail = decimal_string(unlogged as u64);
        detail.append(" active port forward(s) have logging off");
        push(
            &mut out,
            finding(
                Severity::Medium,
                "exposure",
                String::from_str("inbound traffic is accepted without a trace"),
                detail,
                "turn logging on for every forward: it is the only record that a connection through them ever happened",
            ),
        );
    }
    if open > 0 {
        let mut detail = decimal_string(open as u64);
        detail.append(" active port forward(s) have no source restriction");
        push(
            &mut out,
            finding(
                Severity::Medium,
                "exposure",
                String::from_str("inbound rules accept any source"),
                detail,
                "restrict the source where the service is not meant for the whole internet",
            ),
        );
    }
    let upnp = match section_of(i, "usg") {
        Some(u) => u.flag("upnp_enabled"),
        None => false,
    };
    if upnp {
        push(
            &mut out,
            finding(
                Severity::High,
                "exposure",
                String::from_str("hosts may publish their own ports"),
                String::from_str(
                    "UPnP is enabled on the gateway, so any host can open an inbound port without asking anyone",
                ),
                "disable UPnP and declare the forwards you actually want",
            ),
        );
    }
    assert(fvs(out@) =~= exposure_spec(*i));
    out
}

// ---- detection and logging --------------------------------------------------

/// The detection findings.
pub open spec fn detection_spec(i: Input) -> Seq<FindingV> {
    (if section(i, "ips"@) matches Some(ips) && jlen(ips, "enabled_categories"@) == 0 {
        seq![
            (
                Severity::High,
                "detection"@,
                "intrusion prevention inspects nothing"@,
                "the engine is on and no signature category is selected, so the interface reads as protected while nothing is examined"@,
                "select the signature categories that match what this site runs, or turn the engine off so it stops claiming to protect"@,
            ),
        ]
    } else {
        Seq::empty()
    }) + (if section(i, "rsyslogd"@) matches Some(r) && jflag(r, "enabled"@) && jtext(r, "ip"@).len()
        == 0 {
        seq![
            (
                Severity::Medium,
                "detection"@,
                "logs do not leave the console"@,
                "logging is on but nothing is forwarded, so the record disappears with the console, which is the case an investigation needs it for"@,
                "forward syslog to a host that is not the console"@,
            ),
        ]
    } else {
        Seq::empty()
    }) + (if section(i, "super_smtp"@) matches Some(m) && !jflag(m, "enabled"@) {
        seq![
            (
                Severity::Low,
                "detection"@,
                "no alert leaves the console"@,
                "mail alerting is not configured, so anything the console notices is only seen by someone who opens it"@,
                "configure an alert destination"@,
            ),
        ]
    } else {
        Seq::empty()
    })
}

pub fn detection(i: &Input) -> (r: Vec<Finding>)
    ensures
        fvs(r@) == detection_spec(*i),
{
    let mut out: Vec<Finding> = Vec::new();
    let ghost s0 = fvs(out@);
    let hollow = match section_of(i, "ips") {
        Some(ips) => ips.len_at("enabled_categories") == 0,
        None => false,
    };
    if hollow {
        push(
            &mut out,
            finding(
                Severity::High,
                "detection",
                String::from_str("intrusion prevention inspects nothing"),
                String::from_str(
                    "the engine is on and no signature category is selected, so the interface reads as protected while nothing is examined",
                ),
                "select the signature categories that match what this site runs, or turn the engine off so it stops claiming to protect",
            ),
        );
    }
    let local = match section_of(i, "rsyslogd") {
        Some(r) => r.flag("enabled") && r.text("ip").as_str().is_empty(),
        None => false,
    };
    if local {
        push(
            &mut out,
            finding(
                Severity::Medium,
                "detection",
                String::from_str("logs do not leave the console"),
                String::from_str(
                    "logging is on but nothing is forwarded, so the record disappears with the console, which is the case an investigation needs it for",
                ),
                "forward syslog to a host that is not the console",
            ),
        );
    }
    let silent = match section_of(i, "super_smtp") {
        Some(m) => !m.flag("enabled"),
        None => false,
    };
    if silent {
        push(
            &mut out,
            finding(
                Severity::Low,
                "detection",
                String::from_str("no alert leaves the console"),
                String::from_str(
                    "mail alerting is not configured, so anything the console notices is only seen by someone who opens it",
                ),
                "configure an alert destination",
            ),
        );
    }
    assert(fvs(out@) =~= detection_spec(*i));
    out
}

// ---- inventory --------------------------------------------------------------

/// Whether a device runs firmware below the minimum the controller accepts.
pub open spec fn below_minimum(d: JsonV) -> bool {
    let version = jtext(d, "version"@);
    let required = jtext(d, "required_version"@);
    version.len() > 0 && required.len() > 0 && version_sign(version, required) < 0
}

/// A device past the end of its support.
pub open spec fn past_support() -> spec_fn(JsonV) -> bool {
    |d: JsonV| jflag(d, "model_in_eol"@) || jflag(d, "unsupported"@)
}

/// A device below the minimum firmware.
pub open spec fn behind_minimum() -> spec_fn(JsonV) -> bool {
    |d: JsonV| below_minimum(d)
}

/// A device with a newer firmware waiting, and not below the minimum.
pub open spec fn upgrade_waiting() -> spec_fn(JsonV) -> bool {
    |d: JsonV| !below_minimum(d) && jflag(d, "upgradable"@)
}

/// The inventory findings.
pub open spec fn inventory_spec(ds: Seq<JsonV>) -> Seq<FindingV> {
    let eol = names_where(ds, past_support());
    let behind = names_where(ds, behind_minimum());
    let stale = names_where(ds, upgrade_waiting());
    (if eol.len() > 0 {
        seq![
            (
                Severity::High,
                "inventory"@,
                "hardware past end of support"@,
                decimal(eol.len()) + " device(s) receive no further fix whatever their firmware says: "@
                    + join(eol, ", "@),
                "plan their replacement; a current firmware on an unsupported model is still a dead end"@,
            ),
        ]
    } else {
        Seq::empty()
    }) + (if behind.len() > 0 {
        seq![
            (
                Severity::High,
                "inventory"@,
                "firmware below the minimum the controller accepts"@,
                join(behind, ", "@),
                "upgrade these first: the vendor itself considers the running version too old"@,
            ),
        ]
    } else {
        Seq::empty()
    }) + (if stale.len() > 0 {
        seq![
            (
                Severity::Low,
                "inventory"@,
                "a newer firmware is available"@,
                join(stale, ", "@),
                "upgrade when convenient"@,
            ),
        ]
    } else {
        Seq::empty()
    })
}

pub fn inventory(i: &Input) -> (r: Vec<Finding>)
    ensures
        fvs(r@) == inventory_spec(Json::items_view(i.devices@)),
{
    proof {
        crate::json::lemma_items_view(i.devices@);
    }
    let ghost ds = Json::items_view(i.devices@);
    let mut eol: Vec<String> = Vec::new();
    let mut behind: Vec<String> = Vec::new();
    let mut stale: Vec<String> = Vec::new();
    let mut k: usize = 0;
    while k < i.devices.len()
        invariant
            k <= i.devices@.len(),
            ds == Json::items_view(i.devices@),
            ds.len() == i.devices@.len(),
            forall|j: int| 0 <= j < ds.len() ==> #[trigger] ds[j] == i.devices@[j]@,
            eol@.map_values(|s: String| s@) == names_where(ds.take(k as int), past_support()),
            behind@.map_values(|s: String| s@) == names_where(ds.take(k as int), behind_minimum()),
            stale@.map_values(|s: String| s@) == names_where(ds.take(k as int), upgrade_waiting()),
        decreases i.devices.len() - k,
    {
        let d = &i.devices[k];
        assert(ds.take(k + 1).drop_last() =~= ds.take(k as int));
        assert(ds.take(k + 1).last() == d@);
        let p = assess(d);
        let ghost (e0, b0, s0) = (eol@, behind@, stale@);
        if p.eol || p.unsupported {
            eol.push(d.text("name"));
        }
        if p.below_minimum {
            behind.push(d.text("name"));
        } else if p.upgradable {
            stale.push(d.text("name"));
        }
        assert(eol@.map_values(|s: String| s@) =~= names_where(ds.take(k + 1), past_support())) by {
            assert(e0.map_values(|s: String| s@) == names_where(ds.take(k as int), past_support()));
        }
        assert(behind@.map_values(|s: String| s@) =~= names_where(ds.take(k + 1), behind_minimum()))
            by {
            assert(b0.map_values(|s: String| s@) == names_where(
                ds.take(k as int),
                behind_minimum(),
            ));
        }
        assert(stale@.map_values(|s: String| s@) =~= names_where(ds.take(k + 1), upgrade_waiting()))
            by {
            assert(s0.map_values(|s: String| s@) == names_where(
                ds.take(k as int),
                upgrade_waiting(),
            ));
        }
        k += 1;
    }
    assert(ds.take(k as int) =~= ds);
    let mut out: Vec<Finding> = Vec::new();
    let ghost f0 = fvs(out@);
    if eol.len() > 0 {
        let mut detail = decimal_string(eol.len() as u64);
        detail.append(" device(s) receive no further fix whatever their firmware says: ");
        detail.append(join_strings(&eol, ", ").as_str());
        push(
            &mut out,
            finding(
                Severity::High,
                "inventory",
                String::from_str("hardware past end of support"),
                detail,
                "plan their replacement; a current firmware on an unsupported model is still a dead end",
            ),
        );
    }
    if behind.len() > 0 {
        push(
            &mut out,
            finding(
                Severity::High,
                "inventory",
                String::from_str("firmware below the minimum the controller accepts"),
                join_strings(&behind, ", "),
                "upgrade these first: the vendor itself considers the running version too old",
            ),
        );
    }
    if stale.len() > 0 {
        push(
            &mut out,
            finding(
                Severity::Low,
                "inventory",
                String::from_str("a newer firmware is available"),
                join_strings(&stale, ", "),
                "upgrade when convenient",
            ),
        );
    }
    assert(fvs(out@) =~= inventory_spec(ds));
    out
}

// ---- the whole audit --------------------------------------------------------

/// Every finding, in the order the checks produce them.
pub open spec fn all_findings(i: Input) -> Seq<FindingV> {
    credentials_spec(i) + wireless_spec(Json::items_view(i.wlans@)) + segmentation_spec(i)
        + exposure_spec(i) + detection_spec(i) + inventory_spec(Json::items_view(i.devices@))
}

/// The key a finding is ordered by: the most severe first, then by area.
pub open spec fn ranked(f: FindingV) -> (int, Seq<char>, FindingV) {
    (3 - severity_rank(f.0), f.1, f)
}

/// Findings worst first; findings of one severity by area, and in the order
/// they came where the area is the same too.
pub open spec fn worst_first(s: Seq<FindingV>) -> Seq<FindingV> {
    sorted_by_key(s.map_values(|f: FindingV| ranked(f))).map_values(
        |t: (int, Seq<char>, FindingV)| t.2,
    )
}

/// The audit lists every finding worst first: no finding comes after a less
/// severe one, and one of equal severity comes after it only by area.
pub proof fn law_worst_first(s: Seq<FindingV>)
    ensures
        worst_first(s).len() == s.len(),
        forall|a: int, b: int|
            0 <= a < b < s.len() ==> severity_rank(#[trigger] worst_first(s)[a].0) >= severity_rank(
                #[trigger] worst_first(s)[b].0,
            ),
{
    let k = s.map_values(|f: FindingV| ranked(f));
    law_sorted_in_key_order(k);
    law_sorted_is_permutation(k);
    let t = sorted_by_key(k);
    assert forall|x: (int, Seq<char>, FindingV)| t.contains(x) implies x.0 == 3 - severity_rank(
        x.2.0,
    ) by {
        vstd::seq_lib::to_multiset_contains(t, x);
        vstd::seq_lib::to_multiset_contains(k, x);
        let j = choose|j: int| 0 <= j < k.len() && k[j] == x;
        assert(k[j] == ranked(s[j]));
    }
    assert forall|a: int, b: int| 0 <= a < b < s.len() implies severity_rank(
        #[trigger] worst_first(s)[a].0,
    ) >= severity_rank(#[trigger] worst_first(s)[b].0) by {
        assert(key_le(t[a], t[b]));
        assert(t.contains(t[a]));
        assert(t.contains(t[b]));
    }
}

/// The audit reports every finding of every area, each as many times as
/// its area found it and nothing else, ordered by severity, the most severe
/// first, and by area among findings of one severity.
pub proof fn law_run_is_every_finding_in_order(i: Input)
    ensures
        ({
            let r = worst_first(all_findings(i));
            &&& r.to_multiset() == all_findings(i).to_multiset()
            &&& forall|a: int, b: int|
                0 <= a < b < r.len() ==> severity_rank(#[trigger] r[a].0) > severity_rank(
                    #[trigger] r[b].0,
                ) || (severity_rank(r[a].0) == severity_rank(r[b].0) && lex_sign(r[a].1, r[b].1)
                    <= 0)
        }),
{
    let s = all_findings(i);
    let k = s.map_values(|f: FindingV| ranked(f));
    law_sorted_in_key_order(k);
    law_sorted_is_permutation(k);
    let t = sorted_by_key(k);
    let proj = |x: (int, Seq<char>, FindingV)| x.2;
    lemma_permutation_maps(t, k, proj);
    assert(k.map_values(proj) =~= s);
    let r = worst_first(s);
    assert(r == t.map_values(proj));
    assert forall|x: (int, Seq<char>, FindingV)| t.contains(x) implies x == ranked(x.2) by {
        vstd::seq_lib::to_multiset_contains(t, x);
        vstd::seq_lib::to_multiset_contains(k, x);
        let j = choose|j: int| 0 <= j < k.len() && k[j] == x;
        assert(k[j] == ranked(s[j]));
    }
    assert forall|a: int, b: int| 0 <= a < b < r.len() implies severity_rank(#[trigger] r[a].0)
        > severity_rank(#[trigger] r[b].0) || (severity_rank(r[a].0) == severity_rank(r[b].0)
        && lex_sign(r[a].1, r[b].1) <= 0) by {
        assert(key_le(t[a], t[b]));
        assert(t.contains(t[a]));
        assert(t.contains(t[b]));
    }
}

/// Every finding, worst first.
pub fn run(i: &Input) -> (r: Vec<Finding>)
    ensures
        fvs(r@) == worst_first(all_findings(*i)),
{
    let mut all = credentials(i);
    let mut w = wireless(i);
    let mut g = segmentation(i);
    let mut e = exposure(i);
    let mut d = detection(i);
    let mut v = inventory(i);
    let ghost parts = (fvs(all@), fvs(w@), fvs(g@), fvs(e@), fvs(d@), fvs(v@));
    all.append(&mut w);
    all.append(&mut g);
    all.append(&mut e);
    all.append(&mut d);
    all.append(&mut v);
    assert(fvs(all@) =~= parts.0 + parts.1 + parts.2 + parts.3 + parts.4 + parts.5);
    let ghost want = all_findings(*i);
    let ghost fvf = |f: Finding| fv(f);
    let ghost gmap = |y: (int, Seq<char>, Finding)| map_item(y, fvf);
    let ghost ranks = want.map_values(|f: FindingV| ranked(f));
    let mut keyed: Vec<Keyed<Finding>> = Vec::new();
    let mut rest = all;
    let n = rest.len();
    let mut k: usize = 0;
    while rest.len() > 0
        invariant
            k + rest@.len() == n,
            n == want.len(),
            keyed@.len() == k,
            ranks == want.map_values(|f: FindingV| ranked(f)),
            forall|j: int| 0 <= j < rest@.len() ==> #[trigger] fv(rest@[j]) == want[k + j],
            kviews(keyed@).map_values(gmap) == ranks.take(k as int),
            gmap == (|y: (int, Seq<char>, Finding)| map_item(y, fvf)),
            fvf == (|f: Finding| fv(f)),
        decreases rest.len(),
    {
        assert(fv(rest@[0]) == want[k as int]);
        let f = rest.remove(0);
        let ghost before = keyed@;
        let rank = 3 - f.severity.rank();
        let text = String::from_str(f.area);
        keyed.push(Keyed { rank, text, item: f });
        assert(kviews(keyed@).map_values(gmap) =~= ranks.take(k + 1)) by {
            assert(kviews(before).map_values(gmap) == ranks.take(k as int));
            assert(kviews(keyed@).map_values(gmap)[k as int] == ranks[k as int]);
            assert forall|j: int| 0 <= j < k implies #[trigger] kviews(keyed@).map_values(gmap)[j]
                == kviews(before).map_values(gmap)[j] by {
                assert(keyed@[j] == before[j]);
            }
        }
        k += 1;
    }
    assert(ranks.take(k as int) =~= ranks);
    let ghost kv = kviews(keyed@);
    let mut sorted = sort_keyed(keyed);
    proof {
        law_sorted_maps_items(kv, fvf);
        assert(kv.map_values(|y: (int, Seq<char>, Finding)| map_item(y, fvf)) == ranks);
    }
    let ghost target = sorted_by_key(ranks);
    assert(kviews(sorted@).map_values(gmap) == target);
    let mut out: Vec<Finding> = Vec::new();
    let m = sorted.len();
    let mut j: usize = 0;
    while sorted.len() > 0
        invariant
            j + sorted@.len() == m,
            target.len() == m,
            out@.len() == j,
            forall|q: int| 0 <= q < sorted@.len() ==> #[trigger] fv(sorted@[q].item) == target[j + q].2,
            fvs(out@) == target.take(j as int).map_values(|t: (int, Seq<char>, FindingV)| t.2),
        decreases sorted.len(),
    {
        assert(fv(sorted@[0].item) == target[j as int].2);
        let ghost first = sorted@[0];
        let x = sorted.remove(0);
        assert(x == first);
        let ghost before = out@;
        out.push(x.item);
        assert(fvs(out@) =~= target.take(j + 1).map_values(|t: (int, Seq<char>, FindingV)| t.2))
            by {
            assert(fvs(before) == target.take(j as int).map_values(
                |t: (int, Seq<char>, FindingV)| t.2,
            ));
            assert(fvs(out@) =~= fvs(before).push(fv(x.item)));
            assert(target.take(j + 1).map_values(|t: (int, Seq<char>, FindingV)| t.2) =~= target.take(
                j as int,
            ).map_values(|t: (int, Seq<char>, FindingV)| t.2).push(target[j as int].2));
        }
        j += 1;
    }
    assert(target.take(j as int) =~= target);
    out
}

/// The data each group of checks needs, named for every group that had none
/// and was skipped.
pub open spec fn skipped_spec(i: Input) -> Seq<Seq<char>> {
    (if i.settings@.len() == 0 {
        seq!["site settings"@]
    } else {
        Seq::empty()
    }) + (if i.wlans@.len() == 0 {
        seq!["wireless configuration"@]
    } else {
        Seq::empty()
    }) + (if i.policies@.len() == 0 || i.zones@.len() == 0 {
        seq!["firewall policies"@]
    } else {
        Seq::empty()
    }) + (if i.devices@.len() == 0 {
        seq!["device firmware"@]
    } else {
        Seq::empty()
    })
}

/// The checks that had no data to run against.
pub fn skipped(i: &Input) -> (r: Vec<&'static str>)
    ensures
        r@.map_values(|s: &str| s@) == skipped_spec(*i),
{
    let mut out: Vec<&'static str> = Vec::new();
    if i.settings.len() == 0 {
        out.push("site settings");
    }
    if i.wlans.len() == 0 {
        out.push("wireless configuration");
    }
    if i.policies.len() == 0 || i.zones.len() == 0 {
        out.push("firewall policies");
    }
    if i.devices.len() == 0 {
        out.push("device firmware");
    }
    assert(out@.map_values(|s: &str| s@) =~= skipped_spec(*i));
    out
}

/// A check that could not run produces nothing, and never a pass: with no
/// data collected the audit finds nothing and names all four groups of
/// checks as skipped.
pub proof fn law_absence_is_never_a_finding(i: Input)
    requires
        i.settings@.len() == 0,
        i.wlans@.len() == 0,
        i.forwards@.len() == 0,
        i.zones@.len() == 0,
        i.policies@.len() == 0,
        i.devices@.len() == 0,
    ensures
        worst_first(all_findings(i)).len() == 0,
        skipped_spec(i).len() == 4,
{
    assert(lookup(i.settings@, "mgmt"@) is None);
    assert(lookup(i.settings@, "global_network"@) is None);
    assert(lookup(i.settings@, "global_switch"@) is None);
    assert(lookup(i.settings@, "usg"@) is None);
    assert(lookup(i.settings@, "ips"@) is None);
    assert(lookup(i.settings@, "rsyslogd"@) is None);
    assert(lookup(i.settings@, "super_smtp"@) is None);
    assert(exposed_total(i.settings@) == 0);
    assert(Json::items_view(i.wlans@).len() == 0);
    assert(Json::items_view(i.policies@).len() == 0);
    assert(Json::items_view(i.forwards@).len() == 0);
    assert(Json::items_view(i.devices@).len() == 0);
    assert(all_findings(i) =~= Seq::<FindingV>::empty());
    law_worst_first(all_findings(i));
}

} // verus!
