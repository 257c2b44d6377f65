//! The segmentation and the way in: how the site is cut up, and what can
//! reach it from outside.
//!
//! The documented API lists networks and firewall zones but says nothing
//! about isolation, mDNS, UPnP or port forwards. Those live on the legacy
//! surface, so the two are joined on the network's id, and the documented
//! columns stand alone when the legacy side is missing.

use vstd::prelude::*;
use crate::json::{count_json, jflag, jget, jget2, jint, jitems, jstr, jtext, or_null, put, Json, JsonV};
use crate::render::split_on;
use crate::text::{
    chars_of, decimal_int, decimal_string_i64, join, join_strings, parse_u8, parsed_unsigned,
    str_eq, to_lowercase, unicode_lower,
};

verus! {

// ---- joins ------------------------------------------------------------------

/// The `field` text of the last record whose `key` text is `val` and which
/// carries the field: what a map collected from the records holds.
pub open spec fn last_text(recs: Seq<JsonV>, key: Seq<char>, val: Seq<char>, field: Seq<char>) -> Option<Seq<char>>
    decreases recs.len(),
{
    if recs.len() == 0 {
        None
    } else if jstr(recs.last(), key) == Some(val) && jstr(recs.last(), field) is Some {
        jstr(recs.last(), field)
    } else {
        last_text(recs.drop_last(), key, val, field)
    }
}

/// The last record whose `key` text is `val`.
pub open spec fn last_record(recs: Seq<JsonV>, key: Seq<char>, val: Seq<char>) -> Option<JsonV>
    decreases recs.len(),
{
    if recs.len() == 0 {
        None
    } else if jstr(recs.last(), key) == Some(val) {
        Some(recs.last())
    } else {
        last_record(recs.drop_last(), key, val)
    }
}

/// The `field` text of the first record whose `key` text is `val` and which
/// carries the field.
pub open spec fn first_text(recs: Seq<JsonV>, key: Seq<char>, val: Seq<char>, field: Seq<char>) -> Option<Seq<char>>
    decreases recs.len(),
{
    if recs.len() == 0 {
        None
    } else if jstr(recs[0], key) == Some(val) && jstr(recs[0], field) is Some {
        jstr(recs[0], field)
    } else {
        first_text(recs.drop_first(), key, val, field)
    }
}

fn find_last_text(recs: &Vec<Json>, key: &str, val: &str, field: &str) -> (r: Option<String>)
    ensures
        match r {
            Some(x) => last_text(Json::items_view(recs@), key@, val@, field@) == Some(x@),
            None => last_text(Json::items_view(recs@), key@, val@, field@) is None,
        },
{
    proof {
        crate::json::lemma_items_view(recs@);
    }
    let ghost rv = Json::items_view(recs@);
    let mut k: usize = recs.len();
    assert(rv.take(k as int) =~= rv);
    while k > 0
        invariant
            k <= recs@.len(),
            rv == Json::items_view(recs@),
            rv.len() == recs@.len(),
            forall|j: int| 0 <= j < rv.len() ==> #[trigger] rv[j] == recs@[j]@,
            last_text(rv, key@, val@, field@) == last_text(rv.take(k as int), key@, val@, field@),
        decreases k,
    {
        let x = &recs[k - 1];
        assert(rv.take(k as int).last() == x@);
        assert(rv.take(k as int).drop_last() =~= rv.take(k - 1));
        match (x.str_at(key), x.str_at(field)) {
            (Some(a), Some(b)) => {
                if str_eq(a.as_str(), val) {
                    return Some(b.clone());
                }
            },
            _ => {},
        }
        k -= 1;
    }
    None
}

fn find_last_record<'a>(recs: &'a Vec<Json>, key: &str, val: &str) -> (r: Option<&'a Json>)
    ensures
        match r {
            Some(x) => last_record(Json::items_view(recs@), key@, val@) == Some(x@),
            None => last_record(Json::items_view(recs@), key@, val@) is None,
        },
{
    proof {
        crate::json::lemma_items_view(recs@);
    }
    let ghost rv = Json::items_view(recs@);
    let mut k: usize = recs.len();
    assert(rv.take(k as int) =~= rv);
    while k > 0
        invariant
            k <= recs@.len(),
            rv == Json::items_view(recs@),
            rv.len() == recs@.len(),
            forall|j: int| 0 <= j < rv.len() ==> #[trigger] rv[j] == recs@[j]@,
            last_record(rv, key@, val@) == last_record(rv.take(k as int), key@, val@),
        decreases k,
    {
        let x = &recs[k - 1];
        assert(rv.take(k as int).last() == x@);
        assert(rv.take(k as int).drop_last() =~= rv.take(k - 1));
        match x.str_at(key) {
            Some(a) => {
                if str_eq(a.as_str(), val) {
                    return Some(x);
                }
            },
            None => {},
        }
        k -= 1;
    }
    None
}

fn find_first_text(recs: &Vec<Json>, key: &str, val: &str, field: &str) -> (r: Option<String>)
    ensures
        match r {
            Some(x) => first_text(Json::items_view(recs@), key@, val@, field@) == Some(x@),
            None => first_text(Json::items_view(recs@), key@, val@, field@) is None,
        },
{
    proof {
        crate::json::lemma_items_view(recs@);
    }
    let ghost rv = Json::items_view(recs@);
    let mut k: usize = 0;
    assert(rv.skip(0) =~= rv);
    while k < recs.len()
        invariant
            k <= recs@.len(),
            rv == Json::items_view(recs@),
            rv.len() == recs@.len(),
            forall|j: int| 0 <= j < rv.len() ==> #[trigger] rv[j] == recs@[j]@,
            first_text(rv, key@, val@, field@) == first_text(rv.skip(k as int), key@, val@, field@),
        decreases recs.len() - k,
    {
        let x = &recs[k];
        assert(rv.skip(k as int)[0] == x@);
        assert(rv.skip(k as int).drop_first() =~= rv.skip(k + 1));
        match (x.str_at(key), x.str_at(field)) {
            (Some(a), Some(b)) => {
                if str_eq(a.as_str(), val) {
                    return Some(b.clone());
                }
            },
            _ => {},
        }
        k += 1;
    }
    None
}

/// An object's members with `k` set to `v`: replaced where the key is
/// held, added at the end otherwise.
pub open spec fn with_member(m: Seq<(Seq<char>, JsonV)>, k: Seq<char>, v: JsonV) -> Seq<(Seq<char>, JsonV)> {
    if exists|i: int| 0 <= i < m.len() && #[trigger] m[i].0 == k {
        let i = choose|i: int| 0 <= i < m.len() && #[trigger] m[i].0 == k && forall|j: int| 0 <= j < i ==> m[j].0 != k;
        m.update(i, (k, v))
    } else {
        m.push((k, v))
    }
}

fn set_member(m: &mut Vec<(String, Json)>, k: &str, v: Json)
    ensures
        Json::members_view(final(m)@) == with_member(Json::members_view(old(m)@), k@, v@),
{
    proof {
        crate::json::lemma_members_view(m@);
    }
    let ghost mv = Json::members_view(m@);
    let mut i: usize = 0;
    while i < m.len()
        invariant
            i <= m@.len(),
            mv == Json::members_view(old(m)@),
            m@ == old(m)@,
            mv.len() == m@.len(),
            forall|j: int| 0 <= j < m@.len() ==> #[trigger] mv[j] == (m@[j].0@, m@[j].1@),
            forall|j: int| 0 <= j < i ==> #[trigger] mv[j].0 != k@,
        decreases m.len() - i,
    {
        if str_eq(m[i].0.as_str(), k) {
            proof {
                let c = choose|c: int| 0 <= c < mv.len() && #[trigger] mv[c].0 == k@ && forall|j: int| 0 <= j < c ==> mv[j].0 != k@;
                assert(0 <= i < mv.len() && mv[i as int].0 == k@ && forall|j: int| 0 <= j < i ==> mv[j].0 != k@);
                if c < i {
                    assert(mv[c].0 != k@);
                } else if i < c {
                }
            }
            let ghost before = m@;
            m.set(i, (String::from_str(k), v));
            proof {
                crate::json::lemma_members_view(m@);
                assert(Json::members_view(m@) =~= mv.update(i as int, (k@, v@)));
            }
            return;
        }
        i += 1;
    }
    let ghost before = m@;
    m.push((String::from_str(k), v));
    proof {
        crate::json::lemma_members_view(m@);
        assert(Json::members_view(m@) =~= mv.push((k@, v@)));
    }
}

// ---- the segmentation view --------------------------------------------------

/// A legacy switch shown as `on`/`off`-like words, null where the legacy side
/// does not say.
pub open spec fn switch_v(d: Option<JsonV>, k: Seq<char>, on: Seq<char>, off: Seq<char>) -> JsonV {
    match d {
        Some(x) => match jget(x, k) {
            Some(JsonV::Bool(true)) => JsonV::Str(on),
            Some(JsonV::Bool(false)) => JsonV::Str(off),
            _ => JsonV::Null,
        },
        None => JsonV::Null,
    }
}

/// A legacy text field, null where missing or empty.
pub open spec fn text_v(d: Option<JsonV>, k: Seq<char>) -> JsonV {
    match d {
        Some(x) => match jget(x, k) {
            Some(JsonV::Str(s)) => if s.len() > 0 {
                JsonV::Str(s)
            } else {
                JsonV::Null
            },
            _ => JsonV::Null,
        },
        None => JsonV::Null,
    }
}

/// A documented network row enriched with its zone name and the legacy
/// segmentation fields.
pub open spec fn network_row_spec(n: Seq<(Seq<char>, JsonV)>, nv: JsonV, zones: Seq<JsonV>, detail: Seq<JsonV>) -> Seq<(Seq<char>, JsonV)> {
    let id = jtext(nv, "id"@);
    let d = last_record(detail, "external_id"@, id);
    let zone = match jstr(nv, "zoneId"@) {
        Some(z) => match last_text(zones, "id"@, z, "name"@) {
            Some(name) => JsonV::Str(name),
            None => JsonV::Null,
        },
        None => JsonV::Null,
    };
    let m1 = with_member(n, "zone"@, zone);
    let m2 = with_member(m1, "subnet"@, text_v(d, "ip_subnet"@));
    let m3 = with_member(m2, "purpose"@, text_v(d, "purpose"@));
    let m4 = with_member(m3, "isolation"@, switch_v(d, "network_isolation_enabled"@, "on"@, "off"@));
    let m5 = with_member(m4, "internet"@, switch_v(d, "internet_access_enabled"@, "allowed"@, "blocked"@));
    let m6 = with_member(m5, "mdns"@, switch_v(d, "mdns_enabled"@, "on"@, "off"@));
    let m7 = with_member(m6, "upnp"@, switch_v(d, "upnp_lan_enabled"@, "on"@, "off"@));
    let m8 = with_member(m7, "dhcp"@, switch_v(d, "dhcpd_enabled"@, "on"@, "off"@));
    with_member(m8, "dhcpGuard"@, switch_v(d, "dhcpguard_enabled"@, "on"@, "off"@))
}

fn switch_json(d: Option<&Json>, k: &str, on: &str, off: &str) -> (r: Json)
    ensures
        r@ == switch_v(
            match d {
                Some(x) => Some(x@),
                None => None,
            },
            k@,
            on@,
            off@,
        ),
{
    match d {
        Some(x) => match x.get(k) {
            Some(Json::Bool(b)) => if *b {
                Json::Str(String::from_str(on))
            } else {
                Json::Str(String::from_str(off))
            },
            _ => Json::Null,
        },
        None => Json::Null,
    }
}

fn text_json(d: Option<&Json>, k: &str) -> (r: Json)
    ensures
        r@ == text_v(
            match d {
                Some(x) => Some(x@),
                None => None,
            },
            k@,
        ),
{
    match d {
        Some(x) => match x.get(k) {
            Some(Json::Str(s)) => if chars_of(s.as_str()).len() > 0 {
                Json::Str(s.clone())
            } else {
                Json::Null
            },
            _ => Json::Null,
        },
        None => Json::Null,
    }
}

/// The documented network list, enriched with the zone names and the legacy
/// segmentation fields; the two surfaces agree on the network's id,
/// `external_id` on one side and `id` on the other.
pub fn network_rows(base: &Vec<Json>, zones: &Vec<Json>, detail: &Vec<Json>) -> (r: Vec<Json>)
    requires
        forall|i: int| 0 <= i < base@.len() ==> #[trigger] base@[i]@ is Obj,
    ensures
        r@.len() == base@.len(),
        forall|i: int|
            0 <= i < base@.len() ==> #[trigger] r@[i]@ == JsonV::Obj(
                network_row_spec(
                    base@[i]@->Obj_0,
                    base@[i]@,
                    Json::items_view(zones@),
                    Json::items_view(detail@),
                ),
            ),
{
    let mut out: Vec<Json> = Vec::new();
    let mut k: usize = 0;
    while k < base.len()
        invariant
            k <= base@.len(),
            forall|i: int| 0 <= i < base@.len() ==> #[trigger] base@[i]@ is Obj,
            out@.len() == k,
            forall|i: int|
                0 <= i < k ==> #[trigger] out@[i]@ == JsonV::Obj(
                    network_row_spec(
                        base@[i]@->Obj_0,
                        base@[i]@,
                        Json::items_view(zones@),
                        Json::items_view(detail@),
                    ),
                ),
        decreases base.len() - k,
    {
        let n = &base[k];
        assert(n@ is Obj);
        let id = n.text("id");
        let d = find_last_record(detail, "external_id", id.as_str());
        let zone = match n.str_at("zoneId") {
            Some(z) => match find_last_text(zones, "id", z.as_str(), "name") {
                Some(name) => Json::Str(name),
                None => Json::Null,
            },
            None => Json::Null,
        };
        let mut m: Vec<(String, Json)> = match n.deep_clone() {
            Json::Obj(mm) => mm,
            _ => Vec::new(),
        };
        assert(Json::members_view(m@) == n@->Obj_0);
        set_member(&mut m, "zone", zone);
        set_member(&mut m, "subnet", text_json(d, "ip_subnet"));
        set_member(&mut m, "purpose", text_json(d, "purpose"));
        set_member(&mut m, "isolation", switch_json(d, "network_isolation_enabled", "on", "off"));
        set_member(&mut m, "internet", switch_json(d, "internet_access_enabled", "allowed", "blocked"));
        set_member(&mut m, "mdns", switch_json(d, "mdns_enabled", "on", "off"));
        set_member(&mut m, "upnp", switch_json(d, "upnp_lan_enabled", "on", "off"));
        set_member(&mut m, "dhcp", switch_json(d, "dhcpd_enabled", "on", "off"));
        set_member(&mut m, "dhcpGuard", switch_json(d, "dhcpguard_enabled", "on", "off"));
        out.push(Json::Obj(m));
        k += 1;
    }
    out
}

/// Whether a network row answers to `which`: by name in any case, by id, or
/// by VLAN number.
pub open spec fn answers(r: JsonV, which: Seq<char>) -> bool {
    ||| (jstr(r, "name"@) matches Some(n) && unicode_lower(n) == unicode_lower(which))
    ||| jstr(r, "id"@) == Some(which)
    ||| (jint(r, "vlanId"@) matches Some(v) && decimal_int(v) == which)
}

/// The names of the rows, for the error that lists them.
pub open spec fn row_names(rows: Seq<JsonV>) -> Seq<Seq<char>>
    decreases rows.len(),
{
    if rows.len() == 0 {
        Seq::empty()
    } else {
        row_names(rows.drop_last()) + match jstr(rows.last(), "name"@) {
            Some(n) => seq![n],
            None => Seq::empty(),
        }
    }
}

/// One network in full, by name, VLAN id or network id: the first row that
/// answers, or the names of those that exist.
pub fn find_network(rows: &Vec<Json>, which: &str) -> (r: Result<usize, String>)
    ensures
        match r {
            Ok(i) => crate::json::first_from(
                Json::items_view(rows@),
                |x: JsonV| answers(x, which@),
                0,
            ) == Some(i as int),
            Err(known) => crate::json::first_from(
                Json::items_view(rows@),
                |x: JsonV| answers(x, which@),
                0,
            ) is None && known@ == join(row_names(Json::items_view(rows@)), ", "@),
        },
{
    proof {
        crate::json::lemma_items_view(rows@);
    }
    let ghost rv = Json::items_view(rows@);
    let ghost p = |x: JsonV| answers(x, which@);
    let want = to_lowercase(which);
    let mut k: usize = 0;
    while k < rows.len()
        invariant
            k <= rows@.len(),
            rv == Json::items_view(rows@),
            rv.len() == rows@.len(),
            forall|j: int| 0 <= j < rv.len() ==> #[trigger] rv[j] == rows@[j]@,
            p == (|x: JsonV| answers(x, which@)),
            want@ == unicode_lower(which@),
            crate::json::first_from(rv, p, 0) == crate::json::first_from(rv, p, k as int),
        decreases rows.len() - k,
    {
        let r = &rows[k];
        let by_name = match r.str_at("name") {
            Some(n) => str_eq(to_lowercase(n.as_str()).as_str(), want.as_str()),
            None => false,
        };
        let by_id = match r.str_at("id") {
            Some(i) => str_eq(i.as_str(), which),
            None => false,
        };
        let by_vlan = match r.int_at("vlanId") {
            Some(v) => str_eq(decimal_string_i64(v).as_str(), which),
            None => false,
        };
        assert((by_name || by_id || by_vlan) == p(rv[k as int]));
        if by_name || by_id || by_vlan {
            return Ok(k);
        }
        k += 1;
    }
    let mut names: Vec<String> = Vec::new();
    let mut i: usize = 0;
    while i < rows.len()
        invariant
            i <= rows@.len(),
            rv == Json::items_view(rows@),
            rv.len() == rows@.len(),
            forall|j: int| 0 <= j < rv.len() ==> #[trigger] rv[j] == rows@[j]@,
            names@.map_values(|s: String| s@) == row_names(rv.take(i as int)),
        decreases rows.len() - i,
    {
        assert(rv.take(i + 1).drop_last() =~= rv.take(i as int));
        assert(rv.take(i + 1).last() == rows@[i as int]@);
        let ghost before = names@;
        match rows[i].str_at("name") {
            Some(n) => {
                names.push(n.clone());
                proof {
                    crate::text::lemma_map_push(before, names@.last(), |s: String| s@);
                }
            },
            None => {},
        }
        i += 1;
    }
    assert(rv.take(i as int) =~= rv);
    Err(join_strings(&names, ", "))
}

/// How many rows hold the text `want` under `k`.
pub open spec fn count_text(rows: Seq<JsonV>, k: Seq<char>, want: Seq<char>) -> nat
    decreases rows.len(),
{
    if rows.len() == 0 {
        0
    } else {
        count_text(rows.drop_last(), k, want) + if jget(rows.last(), k) == Some(JsonV::Str(want)) {
            1nat
        } else {
            0nat
        }
    }
}

/// How many rows hold the text `want` under `k`: the observations on the
/// segmentation (isolation off, mDNS on, UPnP on) are counted this way.
pub fn count_rows(rows: &Vec<Json>, k: &str, want: &str) -> (r: usize)
    ensures
        r == count_text(Json::items_view(rows@), k@, want@),
{
    proof {
        crate::json::lemma_items_view(rows@);
    }
    let ghost rv = Json::items_view(rows@);
    let mut n: usize = 0;
    let mut i: usize = 0;
    while i < rows.len()
        invariant
            i <= rows@.len(),
            rv == Json::items_view(rows@),
            rv.len() == rows@.len(),
            forall|j: int| 0 <= j < rv.len() ==> #[trigger] rv[j] == rows@[j]@,
            n == count_text(rv.take(i as int), k@, want@),
            n <= i,
        decreases rows.len() - i,
    {
        assert(rv.take(i + 1).drop_last() =~= rv.take(i as int));
        assert(rv.take(i + 1).last() == rows@[i as int]@);
        let hit = match rows[i].get(k) {
            Some(Json::Str(s)) => str_eq(s.as_str(), want),
            _ => false,
        };
        if hit {
            n += 1;
        }
        i += 1;
    }
    assert(rv.take(i as int) =~= rv);
    n
}

// ---- the way in -------------------------------------------------------------

/// One port forward, read as the way in. Without a source restriction the
/// rule accepts the whole internet, which is the default and rarely
/// intended.
pub open spec fn forward_row_spec(f: JsonV) -> JsonV {
    JsonV::Obj(
        seq![
            ("name"@, JsonV::Str(jtext(f, "name"@))),
            ("proto"@, JsonV::Str(jtext(f, "proto"@))),
            ("wanPort"@, JsonV::Str(jtext(f, "dst_port"@))),
            ("target"@, JsonV::Str(jtext(f, "fwd"@) + ":"@ + jtext(f, "fwd_port"@))),
            ("enabled"@, JsonV::Bool(jflag(f, "enabled"@))),
            ("log"@, JsonV::Str(if jflag(f, "log"@) {
                "on"@
            } else {
                "off"@
            })),
            ("source"@, JsonV::Str(if jflag(f, "src_limiting_enabled"@) {
                "restricted"@
            } else {
                "any"@
            })),
            ("interface"@, JsonV::Str(jtext(f, "pfwd_interface"@))),
        ],
    )
}

/// One port forward, read as the way in.
pub fn forward_row(f: &Json) -> (r: Json)
    ensures
        r@ == forward_row_spec(f@),
{
    let mut m: Vec<(String, Json)> = Vec::new();
    assert(Json::members_view(m@) =~= Seq::<(Seq<char>, JsonV)>::empty());
    put(&mut m, "name", Json::Str(f.text("name")));
    put(&mut m, "proto", Json::Str(f.text("proto")));
    put(&mut m, "wanPort", Json::Str(f.text("dst_port")));
    let mut target = f.text("fwd");
    target.append(":");
    target.append(f.text("fwd_port").as_str());
    put(&mut m, "target", Json::Str(target));
    put(&mut m, "enabled", Json::Bool(f.flag("enabled")));
    put(&mut m, "log", Json::Str(String::from_str(if f.flag("log") {
        "on"
    } else {
        "off"
    })));
    put(&mut m, "source", Json::Str(String::from_str(if f.flag("src_limiting_enabled") {
        "restricted"
    } else {
        "any"
    })));
    put(&mut m, "interface", Json::Str(f.text("pfwd_interface")));
    let ghost mv = Json::members_view(m@);
    assert(mv =~= forward_row_spec(f@)->Obj_0);
    Json::Obj(m)
}

/// The four numbers of a dotted address that read as bytes, in order.
pub open spec fn octets(parts: Seq<Seq<char>>) -> Seq<nat>
    decreases parts.len(),
{
    if parts.len() == 0 {
        Seq::empty()
    } else {
        octets(parts.drop_last()) + match parsed_unsigned(parts.last(), 10, 255) {
            Some(b) => seq![b],
            None => Seq::empty(),
        }
    }
}

/// Whether an address is one the internet does not route to: RFC 1918, the
/// loopback block, and the carrier-grade NAT range. On all of them the
/// console sits behind another router. Only an IPv4 address counts: four
/// dotted parts, every one of them a byte.
pub open spec fn private_spec(ip: Seq<char>) -> bool {
    let o = octets(split_on(ip, '.'));
    split_on(ip, '.').len() == 4 && o.len() == 4 && (o[0] == 10 || o[0] == 127 || (o[0] == 172 && 16 <= o[1] <= 31) || (o[0] == 192
        && o[1] == 168) || (o[0] == 100 && 64 <= o[1] <= 127))
}

/// Whether an address is one the internet does not route to.
pub fn is_private(ip: &str) -> (r: bool)
    ensures
        r == private_spec(ip@),
{
    let parts = crate::render::split_path(ip);
    let ghost pv = parts@.map_values(|x: String| x@);
    if parts.len() != 4 {
        return false;
    }
    let mut o: Vec<u8> = Vec::new();
    let mut i: usize = 0;
    while i < parts.len()
        invariant
            i <= parts@.len(),
            pv == parts@.map_values(|x: String| x@),
            pv == split_on(ip@, '.'),
            o@.map_values(|b: u8| b as nat) == octets(pv.take(i as int)),
        decreases parts.len() - i,
    {
        assert(pv.take(i + 1).drop_last() =~= pv.take(i as int));
        assert(pv.take(i + 1).last() == parts@[i as int]@);
        let ghost before = o@;
        match parse_u8(parts[i].as_str()) {
            Some(b) => {
                o.push(b);
                proof {
                    crate::text::lemma_map_push(before, b, |b: u8| b as nat);
                }
            },
            None => {},
        }
        i += 1;
    }
    assert(pv.take(i as int) =~= pv);
    if o.len() != 4 {
        return false;
    }
    let a = o[0];
    let b = o[1];
    a == 10 || a == 127 || (a == 172 && 16 <= b && b <= 31) || (a == 192 && b == 168) || (a == 100
        && 64 <= b && b <= 127)
}

/// The WAN side, for context on what the forwards are exposed to: the first
/// health record of the `wan` subsystem.
pub open spec fn wan_context_spec(health: Seq<JsonV>) -> Option<JsonV> {
    match crate::json::first_from(health, |h: JsonV| jstr(h, "subsystem"@) == Some("wan"@), 0) {
        Some(i) => {
            let w = health[i];
            let ip = jtext(w, "wan_ip"@);
            Some(
                JsonV::Obj(
                    seq![
                        ("wanIp"@, JsonV::Str(ip)),
                        ("wanIpScope"@, JsonV::Str(if private_spec(ip) {
                            "private"@
                        } else {
                            "public"@
                        })),
                        ("isp"@, JsonV::Str(jtext(w, "isp_name"@))),
                        ("asn"@, or_null(jget(w, "asn"@))),
                        ("status"@, JsonV::Str(jtext(w, "status"@))),
                    ],
                ),
            )
        },
        None => None,
    }
}


/// The first health record of the `wan` subsystem, if the console reports one.
pub fn wan_health(health: &Vec<Json>) -> (r: Option<&Json>)
    ensures
        match r {
            Some(w) => crate::json::first_from(
                Json::items_view(health@),
                |h: JsonV| jstr(h, "subsystem"@) == Some("wan"@),
                0,
            ) matches Some(i) && w@ == Json::items_view(health@)[i],
            None => crate::json::first_from(
                Json::items_view(health@),
                |h: JsonV| jstr(h, "subsystem"@) == Some("wan"@),
                0,
            ) is None,
        },
{
    proof {
        crate::json::lemma_items_view(health@);
        reveal_strlit("wan");
    }
    let ghost hv = Json::items_view(health@);
    let ghost p = |h: JsonV| jstr(h, "subsystem"@) == Some("wan"@);
    let mut k: usize = 0;
    while k < health.len()
        invariant
            k <= health@.len(),
            hv == Json::items_view(health@),
            hv.len() == health@.len(),
            forall|j: int| 0 <= j < hv.len() ==> #[trigger] hv[j] == health@[j]@,
            p == (|h: JsonV| jstr(h, "subsystem"@) == Some("wan"@)),
            crate::json::first_from(hv, p, 0) == crate::json::first_from(hv, p, k as int),
        decreases health.len() - k,
    {
        let w = &health[k];
        let hit = match w.str_at("subsystem") {
            Some(s) => str_eq(s.as_str(), "wan"),
            None => false,
        };
        assert(hit == p(hv[k as int]));
        if hit {
            assert(crate::json::first_from(hv, p, k as int) == Some(k as int));
            return Some(w);
        }
        k += 1;
    }
    None
}

/// The WAN side, for context on what the forwards are exposed to.
pub fn wan_context(health: &Vec<Json>) -> (r: Option<Json>)
    ensures
        match r {
            Some(x) => wan_context_spec(Json::items_view(health@)) == Some(x@),
            None => wan_context_spec(Json::items_view(health@)) is None,
        },
{
    proof {
        crate::json::lemma_items_view(health@);
        reveal_strlit("wan");
    }
    let ghost hv = Json::items_view(health@);
    let ghost p = |h: JsonV| jstr(h, "subsystem"@) == Some("wan"@);
    let mut k: usize = 0;
    while k < health.len()
        invariant
            k <= health@.len(),
            hv == Json::items_view(health@),
            hv.len() == health@.len(),
            forall|j: int| 0 <= j < hv.len() ==> #[trigger] hv[j] == health@[j]@,
            p == (|h: JsonV| jstr(h, "subsystem"@) == Some("wan"@)),
            crate::json::first_from(hv, p, 0) == crate::json::first_from(hv, p, k as int),
        decreases health.len() - k,
    {
        let w = &health[k];
        let hit = match w.str_at("subsystem") {
            Some(s) => str_eq(s.as_str(), "wan"),
            None => false,
        };
        assert(hit == p(hv[k as int]));
        if hit {
            let ip = w.text("wan_ip");
            let private = is_private(ip.as_str());
            let mut m: Vec<(String, Json)> = Vec::new();
            assert(Json::members_view(m@) =~= Seq::<(Seq<char>, JsonV)>::empty());
            put(&mut m, "wanIp", Json::Str(ip));
            put(&mut m, "wanIpScope", Json::Str(String::from_str(if private {
                "private"
            } else {
                "public"
            })));
            put(&mut m, "isp", Json::Str(w.text("isp_name")));
            put(&mut m, "asn", w.get_or_null("asn"));
            put(&mut m, "status", Json::Str(w.text("status")));
            let ghost mv = Json::members_view(m@);
            assert(mv =~= wan_context_spec(hv)->0->Obj_0);
            return Some(Json::Obj(m));
        }
        k += 1;
    }
    None
}

// ---- zones ------------------------------------------------------------------

/// The readable name of a network id: the documented list first, the legacy
/// list for what it lacks (WAN and VPN networks), the id itself otherwise.
pub open spec fn net_name(nets: Seq<JsonV>, detail: Seq<JsonV>, i: Seq<char>) -> Seq<char> {
    match last_text(nets, "id"@, i, "name"@) {
        Some(n) => n,
        None => match first_text(detail, "external_id"@, i, "name"@) {
            Some(n) => n,
            None => i,
        },
    }
}

/// The names of the networks a zone holds, in order.
pub open spec fn zone_members(ids: Seq<JsonV>, nets: Seq<JsonV>, detail: Seq<JsonV>) -> Seq<JsonV>
    decreases ids.len(),
{
    if ids.len() == 0 {
        Seq::empty()
    } else {
        zone_members(ids.drop_last(), nets, detail) + match ids.last() {
            JsonV::Str(i) => seq![JsonV::Str(net_name(nets, detail, i))],
            _ => Seq::empty(),
        }
    }
}

/// One firewall zone and the networks in it.
pub open spec fn zone_row_spec(z: JsonV, nets: Seq<JsonV>, detail: Seq<JsonV>) -> JsonV {
    JsonV::Obj(
        seq![
            ("name"@, or_null(jget(z, "name"@))),
            ("origin"@, or_null(jget2(z, "metadata"@, "origin"@))),
            ("networks"@, JsonV::Arr(zone_members(jitems(z, "networkIds"@), nets, detail))),
            ("id"@, or_null(jget(z, "id"@))),
        ],
    )
}

fn net_name_exec(nets: &Vec<Json>, detail: &Vec<Json>, i: &str) -> (r: String)
    ensures
        r@ == net_name(Json::items_view(nets@), Json::items_view(detail@), i@),
{
    match find_last_text(nets, "id", i, "name") {
        Some(n) => n,
        None => match find_first_text(detail, "external_id", i, "name") {
            Some(n) => n,
            None => String::from_str(i),
        },
    }
}

/// One firewall zone and the networks in it, by name.
pub fn zone_row(z: &Json, nets: &Vec<Json>, detail: &Vec<Json>) -> (r: Json)
    ensures
        r@ == zone_row_spec(z@, Json::items_view(nets@), Json::items_view(detail@)),
{
    let ghost nv = Json::items_view(nets@);
    let ghost dv = Json::items_view(detail@);
    let mut members: Vec<Json> = Vec::new();
    match z.get("networkIds") {
        Some(Json::Arr(ids)) => {
            proof {
                crate::json::lemma_items_view(ids@);
            }
            let ghost iv = Json::items_view(ids@);
            let mut k: usize = 0;
            while k < ids.len()
                invariant
                    k <= ids@.len(),
                    iv == Json::items_view(ids@),
                    iv.len() == ids@.len(),
                    forall|j: int| 0 <= j < iv.len() ==> #[trigger] iv[j] == ids@[j]@,
                    nv == Json::items_view(nets@),
                    dv == Json::items_view(detail@),
                    Json::items_view(members@) == zone_members(iv.take(k as int), nv, dv),
                decreases ids.len() - k,
            {
                assert(iv.take(k + 1).drop_last() =~= iv.take(k as int));
                assert(iv.take(k + 1).last() == ids@[k as int]@);
                let ghost before = members@;
                match &ids[k] {
                    Json::Str(i) => {
                        let x = Json::Str(net_name_exec(nets, detail, i.as_str()));
                        members.push(x);
                        proof {
                            assert(members@.subrange(0, members@.len() - 1) =~= before);
                            assert(Json::items_view(members@) == Json::items_view(before).push(x@));
                            assert(Json::items_view(members@) =~= zone_members(iv.take(k + 1), nv, dv));
                        }
                    },
                    _ => {
                        assert(Json::items_view(members@) =~= zone_members(iv.take(k + 1), nv, dv));
                    },
                }
                k += 1;
            }
            assert(iv.take(k as int) =~= iv);
        },
        _ => {
            assert(Json::items_view(members@) =~= zone_members(Seq::empty(), nv, dv));
        },
    }
    let mut m: Vec<(String, Json)> = Vec::new();
    assert(Json::members_view(m@) =~= Seq::<(Seq<char>, JsonV)>::empty());
    put(&mut m, "name", z.get_or_null("name"));
    let origin = match z.get2("metadata", "origin") {
        Some(o) => o.deep_clone(),
        None => Json::Null,
    };
    put(&mut m, "origin", origin);
    put(&mut m, "networks", Json::Arr(members));
    put(&mut m, "id", z.get_or_null("id"));
    let ghost mv = Json::members_view(m@);
    assert(mv =~= zone_row_spec(z@, nv, dv)->Obj_0);
    Json::Obj(m)
}

/// An active forward: enabled.
pub open spec fn active_forward(r: JsonV) -> bool {
    jget(r, "enabled"@) == Some(JsonV::Bool(true))
}

/// How the forward rows add up: how many are active, how many of those do
/// not log, and how many of those accept any source.
pub open spec fn forward_counts_spec(rows: Seq<JsonV>) -> (nat, nat, nat)
    decreases rows.len(),
{
    if rows.len() == 0 {
        (0, 0, 0)
    } else {
        let (a, u, o) = forward_counts_spec(rows.drop_last());
        let r = rows.last();
        if active_forward(r) {
            (
                a + 1,
                u + if jget(r, "log"@) == Some(JsonV::Str("off"@)) {
                    1nat
                } else {
                    0nat
                },
                o + if jget(r, "source"@) == Some(JsonV::Str("any"@)) {
                    1nat
                } else {
                    0nat
                },
            )
        } else {
            (a, u, o)
        }
    }
}

/// How the forward rows add up: active, active without logging, active
/// from any source.
pub fn forward_counts(rows: &Vec<Json>) -> (r: (usize, usize, usize))
    ensures
        (r.0 as nat, r.1 as nat, r.2 as nat) == forward_counts_spec(Json::items_view(rows@)),
{
    proof {
        crate::json::lemma_items_view(rows@);
    }
    let ghost rv = Json::items_view(rows@);
    let mut a: usize = 0;
    let mut u: usize = 0;
    let mut o: usize = 0;
    let mut i: usize = 0;
    while i < rows.len()
        invariant
            i <= rows@.len(),
            rv == Json::items_view(rows@),
            rv.len() == rows@.len(),
            forall|j: int| 0 <= j < rv.len() ==> #[trigger] rv[j] == rows@[j]@,
            (a as nat, u as nat, o as nat) == forward_counts_spec(rv.take(i as int)),
            a <= i,
            u <= i,
            o <= i,
        decreases rows.len() - i,
    {
        assert(rv.take(i + 1).drop_last() =~= rv.take(i as int));
        assert(rv.take(i + 1).last() == rows@[i as int]@);
        let r = &rows[i];
        let on = match r.get("enabled") {
            Some(Json::Bool(b)) => *b,
            _ => false,
        };
        if on {
            a += 1;
            let off = match r.get("log") {
                Some(Json::Str(s)) => str_eq(s.as_str(), "off"),
                _ => false,
            };
            if off {
                u += 1;
            }
            let any = match r.get("source") {
                Some(Json::Str(s)) => str_eq(s.as_str(), "any"),
                _ => false,
            };
            if any {
                o += 1;
            }
        }
        i += 1;
    }
    assert(rv.take(i as int) =~= rv);
    (a, u, o)
}

/// The names of the zone rows that hold no network.
pub open spec fn empty_zone_names(rows: Seq<JsonV>) -> Seq<Seq<char>>
    decreases rows.len(),
{
    if rows.len() == 0 {
        Seq::empty()
    } else {
        empty_zone_names(rows.drop_last()) + if (jget(rows.last(), "networks"@) matches Some(
            JsonV::Arr(a),
        ) && a.len() == 0) && jstr(rows.last(), "name"@) is Some {
            seq![jstr(rows.last(), "name"@)->0]
        } else {
            Seq::empty()
        }
    }
}

/// The names of the zone rows that hold no network.
pub fn empty_zones(rows: &Vec<Json>) -> (r: Vec<String>)
    ensures
        r@.map_values(|s: String| s@) == empty_zone_names(Json::items_view(rows@)),
{
    proof {
        crate::json::lemma_items_view(rows@);
    }
    let ghost rv = Json::items_view(rows@);
    let mut out: Vec<String> = Vec::new();
    let mut i: usize = 0;
    while i < rows.len()
        invariant
            i <= rows@.len(),
            rv == Json::items_view(rows@),
            rv.len() == rows@.len(),
            forall|j: int| 0 <= j < rv.len() ==> #[trigger] rv[j] == rows@[j]@,
            out@.map_values(|s: String| s@) == empty_zone_names(rv.take(i as int)),
        decreases rows.len() - i,
    {
        assert(rv.take(i + 1).drop_last() =~= rv.take(i as int));
        assert(rv.take(i + 1).last() == rows@[i as int]@);
        let r = &rows[i];
        let empty = match r.get("networks") {
            Some(Json::Arr(a)) => {
                proof {
                    crate::json::lemma_items_view(a@);
                }
                a.len() == 0
            },
            _ => false,
        };
        let ghost before = out@;
        if empty {
            match r.str_at("name") {
                Some(n) => {
                    out.push(n.clone());
                    proof {
                        crate::text::lemma_map_push(before, out@.last(), |s: String| s@);
                    }
                },
                None => {},
            }
        }
        i += 1;
    }
    assert(rv.take(i as int) =~= rv);
    out
}

} // verus!
