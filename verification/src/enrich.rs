//! Turning what the console observed into an identity.
//!
//! Two independent sources, both cached on disk by the program so a repeated
//! run costs nothing: the console's own numeric fingerprint ids, resolved
//! against the lookup table the console itself serves ([`Table`]), and the
//! vendor of a MAC prefix ([`oui_of`]), asked of an outside service only for
//! the addresses nothing local could name.

use vstd::prelude::*;
use crate::json::{jget, jint, jtext, Json, JsonV};
use crate::table::{find_key, lookup};
use crate::text::{
    chars_of, decimal_int, decimal_string_i64, is_alphanumeric, lower, lower_all, lower_chars,
    slice_chars, string_of, trim, trim_str, unicode_alphanumeric,
};

verus! {

/// An ASCII hexadecimal digit.
pub open spec fn is_hex(c: char) -> bool {
    ('0' <= c <= '9') || ('a' <= c <= 'f') || ('A' <= c <= 'F')
}

/// The hexadecimal digits of `s`, in order.
pub open spec fn hex_only(s: Seq<char>) -> Seq<char>
    decreases s.len(),
{
    if s.len() == 0 {
        Seq::empty()
    } else if is_hex(s.last()) {
        hex_only(s.drop_last()).push(s.last())
    } else {
        hex_only(s.drop_last())
    }
}

/// The OUI of a MAC: its first six hex digits, lowercase.
pub open spec fn oui(mac: Seq<char>) -> Option<Seq<char>> {
    let h = hex_only(mac);
    if h.len() < 6 {
        None
    } else {
        Some(lower_all(h.take(6)))
    }
}

/// The first three bytes of a MAC, lowercase and stripped: the OUI, and the
/// cache key for a vendor lookup.
pub fn oui_of(mac: &str) -> (r: Option<String>)
    ensures
        match r {
            Some(o) => oui(mac@) == Some(o@),
            None => oui(mac@) is None,
        },
{
    let v = chars_of(mac);
    let mut hex: Vec<char> = Vec::new();
    let mut i: usize = 0;
    while i < v.len()
        invariant
            i <= v.len(),
            v@ == mac@,
            hex@ == hex_only(v@.take(i as int)),
        decreases v.len() - i,
    {
        let c = v[i];
        assert(v@.take(i + 1).drop_last() =~= v@.take(i as int));
        if ('0' <= c && c <= '9') || ('a' <= c && c <= 'f') || ('A' <= c && c <= 'F') {
            hex.push(c);
        }
        i += 1;
    }
    assert(v@.take(v.len() as int) =~= v@);
    if hex.len() < 6 {
        return None;
    }
    let first = slice_chars(&hex, 0, 6);
    assert(first@ =~= hex@.take(6));
    Some(string_of(&lower_chars(&first)))
}

/// The value of a hex digit.
pub open spec fn hex_value(c: char) -> nat {
    if '0' <= c <= '9' {
        (c as int - '0' as int) as nat
    } else if 'a' <= c <= 'f' {
        (c as int - 'a' as int + 10) as nat
    } else if 'A' <= c <= 'F' {
        (c as int - 'A' as int + 10) as nat
    } else {
        0
    }
}

/// Whether a MAC is locally administered: bit 1 of its first octet.
pub open spec fn randomized(mac: Seq<char>) -> bool {
    match oui(mac) {
        Some(o) => (hex_value(o[1]) / 2) % 2 == 1,
        None => false,
    }
}

/// Whether a MAC is locally administered, which means it was randomized
/// rather than assigned. Bit 1 of the first octet.
///
/// This is the one case where "unknown vendor" is an answer rather than a
/// gap: there is no registration behind the address, so no table can ever
/// name it, and querying one would leak a device identifier for nothing.
pub fn is_randomized(mac: &str) -> (r: bool)
    ensures
        r == randomized(mac@),
{
    match oui_of(mac) {
        None => false,
        Some(o) => {
            let v = chars_of(o.as_str());
            proof {
                assert(v@.len() == 6);
            }
            let c = v[1];
            let d: u32 = if '0' <= c && c <= '9' {
                (c as u32) - 48
            } else if 'a' <= c && c <= 'f' {
                (c as u32) - 87
            } else if 'A' <= c && c <= 'F' {
                (c as u32) - 55
            } else {
                0
            };
            (d / 2) % 2 == 1
        },
    }
}

/// Whether a cache entry fetched at `fetched` is still good at `now`.
pub fn fresh(fetched: i64, now: i64, ttl: i64) -> (r: bool)
    requires
        i64::MIN <= now - fetched <= i64::MAX,
    ensures
        r == (now - fetched < ttl),
{
    now - fetched < ttl
}

/// A host name made safe for a file name: every character that is not
/// alphanumeric becomes `-`.
pub open spec fn safe_name(host: Seq<char>) -> Seq<char> {
    host.map_values(
        |c: char|
            if unicode_alphanumeric(c) {
                c
            } else {
                '-'
            },
    )
}

/// The file-name form of a host, so two consoles never share a cache file.
pub fn safe_host(host: &str) -> (r: String)
    ensures
        r@ == safe_name(host@),
{
    let v = chars_of(host);
    let mut out: Vec<char> = Vec::new();
    let mut i: usize = 0;
    while i < v.len()
        invariant
            i <= v.len(),
            v@ == host@,
            out@ =~= safe_name(v@.take(i as int)),
        decreases v.len() - i,
    {
        let c = v[i];
        out.push(if is_alphanumeric(c) {
            c
        } else {
            '-'
        });
        assert(v@.take(i + 1) =~= v@.take(i as int).push(c));
        i += 1;
    }
    assert(v@.take(v.len() as int) =~= v@);
    string_of(&out)
}

/// One device signature of the fingerprint table.
#[derive(Debug)]
pub struct DevEntry {
    pub name: String,
    pub vendor_id: String,
    pub family_id: String,
    pub os_name_id: String,
}

/// The decoded lookup tables, plus when they were fetched.
#[derive(Debug)]
pub struct Table {
    pub fetched: i64,
    pub dev_ids: Vec<(String, DevEntry)>,
    pub vendor_ids: Vec<(String, String)>,
    pub family_ids: Vec<(String, String)>,
    pub os_name_ids: Vec<(String, String)>,
}

impl Table {
    /// An empty table, as an unreadable cache or a failed fetch leaves it.
    pub fn empty() -> (r: Table)
        ensures
            r.fetched == 0,
            r.dev_ids@.len() == 0,
            r.vendor_ids@.len() == 0,
            r.family_ids@.len() == 0,
            r.os_name_ids@.len() == 0,
    {
        Table {
            fetched: 0,
            dev_ids: Vec::new(),
            vendor_ids: Vec::new(),
            family_ids: Vec::new(),
            os_name_ids: Vec::new(),
        }
    }

    /// Whether the table can identify nothing.
    pub fn is_empty(&self) -> (r: bool)
        ensures
            r == (self.dev_ids@.len() == 0 && self.vendor_ids@.len() == 0),
    {
        self.dev_ids.len() == 0 && self.vendor_ids.len() == 0
    }
}

/// The string-valued members of an object, in order.
pub open spec fn string_members(m: Seq<(Seq<char>, JsonV)>) -> Seq<(Seq<char>, Seq<char>)>
    decreases m.len(),
{
    if m.len() == 0 {
        Seq::empty()
    } else {
        let rest = string_members(m.drop_last());
        match m.last().1 {
            JsonV::Str(s) => rest.push((m.last().0, s)),
            _ => rest,
        }
    }
}

/// The members of an object, or nothing.
pub open spec fn members_of(v: Option<JsonV>) -> Seq<(Seq<char>, JsonV)> {
    match v {
        Some(JsonV::Obj(m)) => m,
        _ => Seq::empty(),
    }
}

/// The view of a string table.
pub open spec fn pairs_view(v: Seq<(String, String)>) -> Seq<(Seq<char>, Seq<char>)> {
    v.map_values(|e: (String, String)| (e.0@, e.1@))
}

/// The view of a device signature: name, vendor, family, operating system.
pub open spec fn dev_view(d: DevEntry) -> (Seq<char>, Seq<char>, Seq<char>, Seq<char>) {
    (d.name@, d.vendor_id@, d.family_id@, d.os_name_id@)
}

/// A device signature as the table holds it: each field trimmed.
pub open spec fn dev_of(v: JsonV) -> (Seq<char>, Seq<char>, Seq<char>, Seq<char>) {
    (
        trim(jtext(v, "name"@)),
        trim(jtext(v, "vendor_id"@)),
        trim(jtext(v, "family_id"@)),
        trim(jtext(v, "os_name_id"@)),
    )
}

fn strings_of(raw: &Json, key: &str) -> (r: Vec<(String, String)>)
    ensures
        pairs_view(r@) == string_members(members_of(jget(raw@, key@))),
{
    let mut out: Vec<(String, String)> = Vec::new();
    match raw.get(key) {
        Some(Json::Obj(m)) => {
            proof {
                crate::json::lemma_members_view(m@);
            }
            let ghost mv = Json::members_view(m@);
            let mut i: usize = 0;
            while i < m.len()
                invariant
                    i <= m.len(),
                    mv == Json::members_view(m@),
                    mv.len() == m@.len(),
                    forall|j: int| 0 <= j < m@.len() ==> #[trigger] mv[j] == (m@[j].0@, m@[j].1@),
                    pairs_view(out@) == string_members(mv.take(i as int)),
                decreases m.len() - i,
            {
                assert(mv.take(i + 1).drop_last() =~= mv.take(i as int));
                let ghost before = out@;
                match &m[i].1 {
                    Json::Str(s) => {
                        out.push((m[i].0.clone(), s.clone()));
                        assert(pairs_view(out@) =~= pairs_view(before).push((m@[i as int].0@, s@)));
                    },
                    _ => {},
                }
                i += 1;
            }
            assert(mv.take(m@.len() as int) =~= mv);
        },
        _ => {},
    }
    out
}

fn trimmed_field(v: &Json, k: &str) -> (r: String)
    ensures
        r@ == trim(jtext(v@, k@)),
{
    let t = v.text(k);
    string_of(&trim_str(t.as_str()))
}

/// Pull the four tables used out of the console's response.
pub fn parse_table(raw: &Json, now: i64) -> (r: Table)
    ensures
        r.fetched == now,
        r.dev_ids@.map_values(|e: (String, DevEntry)| (e.0@, dev_view(e.1))) == members_of(
            jget(raw@, "dev_ids"@),
        ).map_values(|e: (Seq<char>, JsonV)| (e.0, dev_of(e.1))),
        pairs_view(r.vendor_ids@) == string_members(members_of(jget(raw@, "vendor_ids"@))),
        pairs_view(r.family_ids@) == string_members(members_of(jget(raw@, "family_ids"@))),
        pairs_view(r.os_name_ids@) == string_members(members_of(jget(raw@, "os_name_ids"@))),
{
    let mut dev_ids: Vec<(String, DevEntry)> = Vec::new();
    match raw.get("dev_ids") {
        Some(Json::Obj(m)) => {
            proof {
                crate::json::lemma_members_view(m@);
            }
            let ghost mv = Json::members_view(m@);
            let mut i: usize = 0;
            while i < m.len()
                invariant
                    i <= m.len(),
                    mv == Json::members_view(m@),
                    mv.len() == m@.len(),
                    forall|j: int| 0 <= j < m@.len() ==> #[trigger] mv[j] == (m@[j].0@, m@[j].1@),
                    dev_ids@.len() == i,
                    forall|j: int|
                        0 <= j < i ==> (#[trigger] dev_ids@[j].0@, dev_view(dev_ids@[j].1)) == (
                            mv[j].0,
                            dev_of(mv[j].1),
                        ),
                decreases m.len() - i,
            {
                let v = &m[i].1;
                let e = DevEntry {
                    name: trimmed_field(v, "name"),
                    vendor_id: trimmed_field(v, "vendor_id"),
                    family_id: trimmed_field(v, "family_id"),
                    os_name_id: trimmed_field(v, "os_name_id"),
                };
                dev_ids.push((m[i].0.clone(), e));
                i += 1;
            }
            assert(dev_ids@.map_values(|e: (String, DevEntry)| (e.0@, dev_view(e.1))) =~= mv.map_values(
                |e: (Seq<char>, JsonV)| (e.0, dev_of(e.1)),
            ));
        },
        _ => {
            assert(dev_ids@.map_values(|e: (String, DevEntry)| (e.0@, dev_view(e.1))) =~= members_of(
                jget(raw@, "dev_ids"@),
            ).map_values(|e: (Seq<char>, JsonV)| (e.0, dev_of(e.1))));
        },
    }
    Table {
        fetched: now,
        dev_ids,
        vendor_ids: strings_of(raw, "vendor_ids"),
        family_ids: strings_of(raw, "family_ids"),
        os_name_ids: strings_of(raw, "os_name_ids"),
    }
}

/// What could be worked out about one client.
#[derive(Debug, PartialEq, Eq)]
pub struct Identity {
    pub vendor: Option<String>,
    pub os: Option<String>,
    pub device: Option<String>,
    pub family: Option<String>,
    /// The console's own confidence, 0 to 100, when it reported one.
    pub confidence: Option<u8>,
}

impl Default for Identity {
    fn default() -> (r: Self)
        ensures
            r.vendor is None && r.os is None && r.device is None && r.family is None
                && r.confidence is None,
    {
        Identity { vendor: None, os: None, device: None, family: None, confidence: None }
    }
}

impl Identity {
    /// Nothing local could name this device.
    pub fn is_unknown(&self) -> (r: bool)
        ensures
            r == (self.vendor is None && self.os is None && self.device is None),
    {
        self.vendor.is_none() && self.os.is_none() && self.device.is_none()
    }

    /// Whether a model or an operating system was inferred by the console's
    /// fingerprint engine, as opposed to read from a registry. Only an
    /// inference can be wrong in the probabilistic sense.
    pub fn is_inferred(&self) -> (r: bool)
        ensures
            r == (self.device is Some || self.os is Some),
    {
        self.device.is_some() || self.os.is_some()
    }

    /// An inference the console itself does not stand behind: below the
    /// threshold the model is a guess, and a missing score counts as zero.
    pub fn is_uncertain(&self, min_score: u8) -> (r: bool)
        ensures
            r == ((self.device is Some || self.os is Some) && match self.confidence {
                Some(c) => c < min_score,
                None => 0 < min_score,
            }),
    {
        self.is_inferred() && match self.confidence {
            Some(c) => c < min_score,
            None => 0 < min_score,
        }
    }
}

/// An optional string, by its view.
pub open spec fn opt_view(o: Option<String>) -> Option<Seq<char>> {
    match o {
        Some(s) => Some(s@),
        None => None,
    }
}

/// A numeric id field of a client record, as the tables key it.
pub open spec fn id_text(rec: JsonV, k: Seq<char>) -> Option<Seq<char>> {
    match jint(rec, k) {
        Some(n) => Some(decimal_int(n)),
        None => None,
    }
}

/// The name an id resolves to: the client's own id first, the signature's
/// otherwise; an empty id or an empty name resolves to nothing.
pub open spec fn picked(
    direct: Option<Seq<char>>,
    from_dev: Option<Seq<char>>,
    table: Seq<(String, String)>,
) -> Option<Seq<char>> {
    let k = match direct {
        Some(d) => Some(d),
        None => from_dev,
    };
    match k {
        Some(key) => if key.len() > 0 {
            match lookup(table, key) {
                Some(s) => if s@.len() > 0 {
                    Some(s@)
                } else {
                    None
                },
                None => None,
            }
        } else {
            None
        },
        None => None,
    }
}

/// The signature a client record points at.
pub open spec fn signature(t: Table, rec: JsonV) -> Option<DevEntry> {
    match id_text(rec, "dev_id"@) {
        Some(d) => lookup(t.dev_ids@, d),
        None => None,
    }
}

/// The identity the tables give a client record.
pub open spec fn resolved(t: Table, rec: JsonV, id: Identity) -> bool {
    let dev = signature(t, rec);
    &&& opt_view(id.vendor) == picked(
        id_text(rec, "dev_vendor"@),
        match dev {
            Some(d) => Some(d.vendor_id@),
            None => None,
        },
        t.vendor_ids@,
    )
    &&& opt_view(id.os) == picked(
        id_text(rec, "os_name"@),
        match dev {
            Some(d) => Some(d.os_name_id@),
            None => None,
        },
        t.os_name_ids@,
    )
    &&& opt_view(id.family) == picked(
        id_text(rec, "dev_family"@),
        match dev {
            Some(d) => Some(d.family_id@),
            None => None,
        },
        t.family_ids@,
    )
    &&& opt_view(id.device) == match dev {
        Some(d) => if d.name@.len() > 0 {
            Some(d.name@)
        } else {
            None
        },
        None => None,
    }
    &&& id.confidence == match jint(rec, "confidence"@) {
        Some(n) => Some(
            (if n < 0 {
                0
            } else if n > 100 {
                100
            } else {
                n
            }) as u8,
        ),
        None => None,
    }
}

fn id_of(rec: &Json, k: &str) -> (r: Option<String>)
    ensures
        opt_view(r) == id_text(rec@, k@),
{
    match rec.int_at(k) {
        Some(n) => Some(decimal_string_i64(n)),
        None => None,
    }
}

fn pick(direct: Option<String>, from_dev: Option<&String>, table: &Vec<(String, String)>) -> (r:
    Option<String>)
    ensures
        opt_view(r) == picked(
            opt_view(direct),
            match from_dev {
                Some(s) => Some(s@),
                None => None,
            },
            table@,
        ),
{
    let k: String = match direct {
        Some(d) => d,
        None => match from_dev {
            Some(s) => s.clone(),
            None => {
                return None;
            },
        },
    };
    if k.as_str().is_empty() {
        return None;
    }
    match find_key(table, k.as_str()) {
        Some(i) => if table[i].1.as_str().is_empty() {
            None
        } else {
            Some(table[i].1.clone())
        },
        None => None,
    }
}

/// Resolve one client record from the legacy surface. The per-client ids win
/// over the ones on the matched device signature: the console set them for
/// this device, the signature is the generic model.
pub fn resolve(t: &Table, rec: &Json) -> (r: Identity)
    ensures
        resolved(*t, rec@, r),
{
    let dev: Option<&DevEntry> = match id_of(rec, "dev_id") {
        Some(d) => match find_key(&t.dev_ids, d.as_str()) {
            Some(i) => Some(&t.dev_ids[i].1),
            None => None,
        },
        None => None,
    };
    let vendor = pick(
        id_of(rec, "dev_vendor"),
        match dev {
            Some(d) => Some(&d.vendor_id),
            None => None,
        },
        &t.vendor_ids,
    );
    let os = pick(
        id_of(rec, "os_name"),
        match dev {
            Some(d) => Some(&d.os_name_id),
            None => None,
        },
        &t.os_name_ids,
    );
    let family = pick(
        id_of(rec, "dev_family"),
        match dev {
            Some(d) => Some(&d.family_id),
            None => None,
        },
        &t.family_ids,
    );
    let device = match dev {
        Some(d) => if d.name.as_str().is_empty() {
            None
        } else {
            Some(d.name.clone())
        },
        None => None,
    };
    let confidence = match rec.int_at("confidence") {
        Some(n) => Some(
            if n < 0 {
                0u8
            } else if n > 100 {
                100u8
            } else {
                n as u8
            },
        ),
        None => None,
    };
    Identity { vendor, os, device, family, confidence }
}


/// The cache file of one console's fingerprint table, under the cache
/// directory.
pub fn fingerprint_file(host: &str) -> (r: String)
    ensures
        r@ == "fingerprints-"@ + safe_name(host@) + ".json"@,
{
    let mut p = String::from_str("fingerprints-");
    let safe = safe_host(host);
    p.append(safe.as_str());
    p.append(".json");
    p
}


/// The most vendor lookups one run sends: enough to fill the gaps on a normal
/// site, few enough that a misconfigured run cannot hammer the service.
pub const MAX_LOOKUPS: usize = 64;

/// The prefixes to send out for a vendor lookup, among those the cache could
/// not answer: none at all unless the operator allowed it, and never more
/// than [`MAX_LOOKUPS`]. Only the prefix ever leaves the machine.
pub fn lookups(missing: &Vec<String>, allow_web: bool) -> (r: Vec<String>)
    ensures
        !allow_web ==> r@.len() == 0,
        allow_web ==> r@.map_values(|s: String| s@) == missing@.take(
            if missing@.len() < MAX_LOOKUPS { missing@.len() as int } else { MAX_LOOKUPS as int },
        ).map_values(|s: String| s@),
{
    let mut out: Vec<String> = Vec::new();
    if !allow_web {
        return out;
    }
    let n: usize = if missing.len() < MAX_LOOKUPS {
        missing.len()
    } else {
        MAX_LOOKUPS
    };
    let mut i: usize = 0;
    while i < n
        invariant
            i <= n,
            n <= missing@.len(),
            out@.map_values(|s: String| s@) == missing@.take(i as int).map_values(|s: String| s@),
        decreases n - i,
    {
        let ghost before = out@;
        out.push(missing[i].clone());
        proof {
            crate::text::lemma_map_push(before, out@.last(), |s: String| s@);
            assert(missing@.take(i + 1) =~= missing@.take(i as int).push(missing@[i as int]));
            crate::text::lemma_map_push(missing@.take(i as int), missing@[i as int], |s: String| s@);
        }
        i += 1;
    }
    out
}

/// The address sent for a vendor lookup of `oui`: its three bytes, the
/// device bytes zeroed.
pub open spec fn lookup_address_spec(oui: Seq<char>) -> Seq<char> {
    oui.subrange(0, 2) + seq![':'] + oui.subrange(2, 4) + seq![':'] + oui.subrange(4, 6) + seq![
        ':',
        '0',
        '0',
        ':',
        '0',
        '0',
        ':',
        '0',
        '0',
    ]
}

/// The address a vendor lookup sends for an OUI (`88a29e` becomes
/// `88:a2:9e:00:00:00`): the answer is the same, since a vendor lookup reads
/// only the first three bytes, and no device identifier leaves the network.
/// Nothing for a text that is not six ASCII characters.
pub fn lookup_address(oui: &str) -> (r: Option<String>)
    ensures
        match r {
            Some(a) => oui@.len() == 6 && crate::text::all_ascii(oui@) && a@ == lookup_address_spec(oui@),
            None => !(oui@.len() == 6 && crate::text::all_ascii(oui@)),
        },
{
    let v = chars_of(oui);
    if v.len() != 6 {
        return None;
    }
    let mut i: usize = 0;
    while i < 6
        invariant
            i <= 6,
            v@ == oui@,
            v@.len() == 6,
            forall|j: int| 0 <= j < i ==> (#[trigger] v@[j] as u32) < 128,
        decreases 6 - i,
    {
        if (v[i] as u32) >= 128 {
            return None;
        }
        i += 1;
    }
    let mut out: Vec<char> = Vec::new();
    out.push(v[0]);
    out.push(v[1]);
    out.push(':');
    out.push(v[2]);
    out.push(v[3]);
    out.push(':');
    out.push(v[4]);
    out.push(v[5]);
    out.push(':');
    out.push('0');
    out.push('0');
    out.push(':');
    out.push('0');
    out.push('0');
    out.push(':');
    out.push('0');
    out.push('0');
    assert(out@ =~= lookup_address_spec(oui@));
    Some(string_of(&out))
}

proof fn lemma_hex_only_append(a: Seq<char>, b: Seq<char>)
    ensures
        hex_only(a + b) == hex_only(a) + hex_only(b),
    decreases b.len(),
{
    if b.len() == 0 {
        assert(a + b =~= a);
        assert(hex_only(a) + hex_only(b) =~= hex_only(a));
    } else {
        lemma_hex_only_append(a, b.drop_last());
        assert((a + b).drop_last() =~= a + b.drop_last());
        assert((a + b).last() == b.last());
        if is_hex(b.last()) {
            assert(hex_only(a) + hex_only(b) =~= (hex_only(a) + hex_only(b.drop_last())).push(b.last()));
        } else {
            assert(hex_only(a) + hex_only(b) =~= hex_only(a) + hex_only(b.drop_last()));
        }
    }
}

proof fn lemma_hex_only_all(s: Seq<char>)
    requires
        forall|i: int| 0 <= i < s.len() ==> is_hex(#[trigger] s[i]),
    ensures
        hex_only(s) == s,
    decreases s.len(),
{
    if s.len() > 0 {
        lemma_hex_only_all(s.drop_last());
        assert(s.drop_last().push(s.last()) =~= s);
    }
}

/// Only the prefix leaves the machine: the hex digits of the address a
/// vendor lookup of a MAC's OUI sends are that OUI's six, then six zeros, so
/// two devices that share a vendor prefix send the very same address.
pub proof fn law_lookup_sends_only_the_prefix(mac: Seq<char>)
    requires
        oui(mac) is Some,
    ensures
        hex_only(lookup_address_spec(oui(mac)->0)) == oui(mac)->0 + seq!['0', '0', '0', '0', '0', '0'],
{
    let o = oui(mac)->0;
    let h = hex_only(mac);
    assert forall|i: int| 0 <= i < o.len() implies is_hex(#[trigger] o[i]) by {
        lemma_hex_only_is_hex(mac);
        assert(is_hex(h[i]));
    }
    let sep = seq![':'];
    let tail = seq![':', '0', '0', ':', '0', '0', ':', '0', '0'];
    let a = o.subrange(0, 2);
    let b = o.subrange(2, 4);
    let c = o.subrange(4, 6);
    lemma_hex_only_all(a);
    lemma_hex_only_all(b);
    lemma_hex_only_all(c);
    assert(hex_only(sep) =~= Seq::<char>::empty()) by {
        reveal_with_fuel(hex_only, 2);
        assert(sep.drop_last() =~= Seq::<char>::empty());
        assert(!is_hex(sep.last()));
    }
    assert(hex_only(tail) =~= seq!['0', '0', '0', '0', '0', '0']) by {
        reveal_with_fuel(hex_only, 10);
    }
    lemma_hex_only_append(a, sep);
    lemma_hex_only_append(a + sep, b);
    lemma_hex_only_append(a + sep + b, sep);
    lemma_hex_only_append(a + sep + b + sep, c);
    lemma_hex_only_append(a + sep + b + sep + c, tail);
    assert(a + b + c =~= o);
    assert(hex_only(lookup_address_spec(o)) =~= o + seq!['0', '0', '0', '0', '0', '0']);
}

proof fn lemma_hex_only_is_hex(s: Seq<char>)
    ensures
        forall|i: int| 0 <= i < hex_only(s).len() ==> is_hex(#[trigger] hex_only(s)[i]),
    decreases s.len(),
{
    if s.len() > 0 {
        lemma_hex_only_is_hex(s.drop_last());
        let h = hex_only(s.drop_last());
        if is_hex(s.last()) {
            assert forall|i: int| 0 <= i < hex_only(s).len() implies is_hex(#[trigger] hex_only(s)[i]) by {
                if i < h.len() {
                    assert(hex_only(s)[i] == h[i]);
                }
            }
        }
    }
}

proof fn lemma_hex_only_upper(s: Seq<char>)
    ensures
        hex_only(s.map_values(|c: char| crate::text::upper(c))) == hex_only(s).map_values(
            |c: char| crate::text::upper(c),
        ),
    decreases s.len(),
{
    let u = |c: char| crate::text::upper(c);
    if s.len() > 0 {
        lemma_hex_only_upper(s.drop_last());
        let t = s.map_values(u);
        assert(t.drop_last() =~= s.drop_last().map_values(u));
        assert(t.last() == u(s.last()));
        assert(is_hex(u(s.last())) == is_hex(s.last()));
        if is_hex(s.last()) {
            assert(hex_only(s).map_values(u) =~= hex_only(s.drop_last()).map_values(u).push(u(s.last())));
        }
    } else {
        assert(s.map_values(u) =~= s);
    }
}

/// The OUI of an address does not depend on how its letters are cased:
/// upper-casing the ASCII letters of a MAC leaves its OUI as it was.
pub proof fn law_oui_ignores_case(mac: Seq<char>)
    ensures
        oui(mac.map_values(|c: char| crate::text::upper(c))) == oui(mac),
{
    let u = |c: char| crate::text::upper(c);
    lemma_hex_only_upper(mac);
    let h = hex_only(mac);
    if h.len() >= 6 {
        assert(lower_all(h.map_values(u).take(6)) =~= lower_all(h.take(6)));
    }
}

} // verus!
