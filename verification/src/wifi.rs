//! The radio side: hardening, neighbourhood, impostors, airtime.
//!
//! One measurement limit shapes three of the four views: **the console does
//! not sweep the spectrum**. An access point reports what it overhears while
//! sitting on its own operating channel, so the neighbour list only ever
//! covers channels that overlap yours. "Nothing found" therefore means
//! "nothing on my channels".

use vstd::prelude::*;
use crate::client::{as_u64, json_u64};
use crate::enrich::{id_text, opt_view, picked, resolve, signature, Identity, Table};
use crate::json::{
    count_json, count_v, jflag, jget, jint, jitems, jstr, jtext, or_null, put, Json, JsonV,
};
use crate::sort::{kview, kviews, law_sorted_maps_items, map_item, sort_keyed, sorted_by_key, Keyed};
use crate::text::{
    chars_of, contains_seq, decimal, decimal_string, find_chars, is_alphanumeric, is_lowercase,
    is_numeric, is_uppercase, parse_hex_u32, parsed_unsigned, replace, replace_str, str_eq,
    string_of, to_lowercase, unicode_alphanumeric, unicode_lower, unicode_lowercase_char,
    unicode_numeric, unicode_uppercase_char, utf8_len, utf8_width,
};

verus! {

/// Said under every view built on the neighbour list.
pub open spec fn scan_caveat() -> Seq<char> {
    "the console does not sweep the spectrum: it only hears what overlaps the channels its own radios sit on, so anything found here is a floor, never a survey"@
}

/// Said under every view built on the neighbour list.
pub fn scan_caveat_text() -> (r: &'static str)
    ensures
        r@ == scan_caveat(),
{
    "the console does not sweep the spectrum: it only hears what overlaps the channels its own radios sit on, so anything found here is a floor, never a survey"
}

pub open spec fn on_off_spec(b: bool) -> Seq<char> {
    if b {
        "on"@
    } else {
        "off"@
    }
}

pub fn on_off(b: bool) -> (r: &'static str)
    ensures
        r@ == on_off_spec(b),
{
    if b {
        "on"
    } else {
        "off"
    }
}

// ---- secrets by shape -------------------------------------------------------

pub open spec fn any_char(s: Seq<char>, p: spec_fn(char) -> bool) -> bool {
    exists|i: int| 0 <= i < s.len() && p(#[trigger] s[i])
}

/// How many character classes a secret draws on: lower case, upper case,
/// digits, and anything else.
pub open spec fn classes(s: Seq<char>) -> nat {
    (if any_char(s, |c: char| unicode_lowercase_char(c)) {
        1nat
    } else {
        0nat
    }) + (if any_char(s, |c: char| unicode_uppercase_char(c)) {
        1nat
    } else {
        0nat
    }) + (if any_char(s, |c: char| unicode_numeric(c)) {
        1nat
    } else {
        0nat
    }) + (if any_char(s, |c: char| !unicode_alphanumeric(c)) {
        1nat
    } else {
        0nat
    })
}

/// Length and character classes of a secret. Never its value.
pub open spec fn described(s: Seq<char>) -> Seq<char> {
    if s.len() == 0 {
        Seq::empty()
    } else {
        decimal(s.len()) + " ch, "@ + decimal(classes(s)) + " class"@
    }
}

fn any_of(v: &Vec<char>, which: u8) -> (r: bool)
    requires
        which < 4,
    ensures
        r == if which == 0 {
            any_char(v@, |c: char| unicode_lowercase_char(c))
        } else if which == 1 {
            any_char(v@, |c: char| unicode_uppercase_char(c))
        } else if which == 2 {
            any_char(v@, |c: char| unicode_numeric(c))
        } else {
            any_char(v@, |c: char| !unicode_alphanumeric(c))
        },
{
    let mut i: usize = 0;
    while i < v.len()
        invariant
            i <= v@.len(),
            which < 4,
            forall|j: int| 0 <= j < i ==> !(if which == 0 {
                unicode_lowercase_char(#[trigger] v@[j])
            } else if which == 1 {
                unicode_uppercase_char(v@[j])
            } else if which == 2 {
                unicode_numeric(v@[j])
            } else {
                !unicode_alphanumeric(v@[j])
            }),
        decreases v.len() - i,
    {
        let c = v[i];
        let hit = if which == 0 {
            is_lowercase(c)
        } else if which == 1 {
            is_uppercase(c)
        } else if which == 2 {
            is_numeric(c)
        } else {
            !is_alphanumeric(c)
        };
        if hit {
            return true;
        }
        i += 1;
    }
    false
}

/// Length and character classes of a secret. Never its value.
pub fn describe_secret(s: &str) -> (r: String)
    ensures
        r@ == described(s@),
{
    let v = chars_of(s);
    if v.len() == 0 {
        return String::new();
    }
    let mut n: u64 = 0;
    if any_of(&v, 0) {
        n += 1;
    }
    if any_of(&v, 1) {
        n += 1;
    }
    if any_of(&v, 2) {
        n += 1;
    }
    if any_of(&v, 3) {
        n += 1;
    }
    let mut out = decimal_string(v.len() as u64);
    out.append(" ch, ");
    out.append(decimal_string(n).as_str());
    out.append(" class");
    out
}

// ---- hardening --------------------------------------------------------------

pub open spec fn wpa3_label(support: bool, transition: bool) -> Seq<char> {
    if support && transition {
        "transition"@
    } else if support {
        "required"@
    } else {
        "no"@
    }
}

/// How one SSID is configured. The key is described by its shape only.
pub open spec fn hardening_row_spec(w: JsonV) -> JsonV {
    let psk = jtext(w, "x_passphrase"@);
    JsonV::Obj(
        seq![
            ("name"@, JsonV::Str(jtext(w, "name"@))),
            ("security"@, JsonV::Str(jtext(w, "wpa_mode"@) + "/"@ + jtext(w, "wpa_enc"@))),
            ("wpa3"@, JsonV::Str(wpa3_label(jflag(w, "wpa3_support"@), jflag(w, "wpa3_transition"@)))),
            ("pmf"@, JsonV::Str(jtext(w, "pmf_mode"@))),
            ("psk"@, JsonV::Str(described(psk))),
            ("pskLength"@, count_v(psk.len())),
            ("isolation"@, JsonV::Str(on_off_spec(jflag(w, "l2_isolation"@)))),
            ("guest"@, JsonV::Bool(jflag(w, "is_guest"@))),
            ("enabled"@, or_null(jget(w, "enabled"@))),
            ("hidden"@, JsonV::Bool(jflag(w, "hide_ssid"@))),
            ("macFilter"@, JsonV::Bool(jflag(w, "mac_filter_enabled"@))),
            ("privateKeys"@, JsonV::Bool(jflag(w, "private_preshared_keys_enabled"@))),
            ("groupRekeySeconds"@, or_null(jget(w, "group_rekey"@))),
        ],
    )
}

/// How one SSID is configured, and what that leaves open.
pub fn hardening_row(w: &Json) -> (r: Json)
    ensures
        r@ == hardening_row_spec(w@),
{
    let psk = w.text("x_passphrase");
    let mut m: Vec<(String, Json)> = Vec::new();
    assert(Json::members_view(m@) =~= Seq::<(Seq<char>, JsonV)>::empty());
    put(&mut m, "name", Json::Str(w.text("name")));
    let mut security = w.text("wpa_mode");
    security.append("/");
    security.append(w.text("wpa_enc").as_str());
    put(&mut m, "security", Json::Str(security));
    let support = w.flag("wpa3_support");
    let transition = w.flag("wpa3_transition");
    let wpa3 = if support && transition {
        "transition"
    } else if support {
        "required"
    } else {
        "no"
    };
    put(&mut m, "wpa3", Json::Str(String::from_str(wpa3)));
    put(&mut m, "pmf", Json::Str(w.text("pmf_mode")));
    put(&mut m, "psk", Json::Str(describe_secret(psk.as_str())));
    put(&mut m, "pskLength", count_json(chars_of(psk.as_str()).len()));
    put(&mut m, "isolation", Json::Str(String::from_str(on_off(w.flag("l2_isolation")))));
    put(&mut m, "guest", Json::Bool(w.flag("is_guest")));
    put(&mut m, "enabled", w.get_or_null("enabled"));
    put(&mut m, "hidden", Json::Bool(w.flag("hide_ssid")));
    put(&mut m, "macFilter", Json::Bool(w.flag("mac_filter_enabled")));
    put(&mut m, "privateKeys", Json::Bool(w.flag("private_preshared_keys_enabled")));
    put(&mut m, "groupRekeySeconds", w.get_or_null("group_rekey"));
    let ghost mv = Json::members_view(m@);
    assert(mv =~= hardening_row_spec(w@)->Obj_0);
    Json::Obj(m)
}

/// A line said about a row: a warning, or for information.
pub struct Note {
    pub warning: bool,
    pub text: String,
}

pub open spec fn note_v(n: Note) -> (bool, Seq<char>) {
    (n.warning, n.text@)
}

pub open spec fn notes_v(s: Seq<Note>) -> Seq<(bool, Seq<char>)> {
    s.map_values(|n: Note| note_v(n))
}

/// The note on WPA3 transition mode.
pub open spec fn note_wpa3(r: JsonV) -> Seq<(bool, Seq<char>)> {
    if jget(r, "wpa3"@) == Some(JsonV::Str("transition"@)) {
        seq![(true, jtext(r, "name"@) + ": WPA3 is in transition mode, so a client can still negotiate WPA2 and none of WPA3's protections are guaranteed"@)]
    } else {
        Seq::empty()
    }
}

/// The note on unprotected management frames.
pub open spec fn note_pmf(r: JsonV) -> Seq<(bool, Seq<char>)> {
    if jget(r, "pmf"@) != Some(JsonV::Str("required"@)) {
        seq![(true, jtext(r, "name"@) + (": management frames are not protected ("@ + (match jstr(r, "pmf"@) {
            Some(p) => p,
            None => "unset"@,
        }) + "), which is what makes deauthentication work"@))]
    } else {
        Seq::empty()
    }
}

/// The note on a short key.
pub open spec fn note_psk(r: JsonV) -> Seq<(bool, Seq<char>)> {
    if (match json_u64(jget(r, "pskLength"@)) {
        Some(n) => n,
        None => 99,
    }) < 12 {
        seq![(true, jtext(r, "name"@) + ": the pre-shared key is short enough to be worth attacking offline once a handshake is captured"@)]
    } else {
        Seq::empty()
    }
}

/// The note on a group key never rotated.
pub open spec fn note_rekey(r: JsonV) -> Seq<(bool, Seq<char>)> {
    if jget(r, "groupRekeySeconds"@) == Some(JsonV::Int(0)) {
        seq![(false, jtext(r, "name"@) + ": the group key is never rotated"@)]
    } else {
        Seq::empty()
    }
}

/// The note on one key shared by every device.
pub open spec fn note_shared(r: JsonV) -> Seq<(bool, Seq<char>)> {
    if jget(r, "privateKeys"@) == Some(JsonV::Bool(false)) {
        seq![(false, jtext(r, "name"@) + ": one key shared by every device, so changing it means reprovisioning all of them"@)]
    } else {
        Seq::empty()
    }
}

/// The note on a hidden SSID.
pub open spec fn note_hidden(r: JsonV) -> Seq<(bool, Seq<char>)> {
    if jget(r, "hidden"@) == Some(JsonV::Bool(true)) {
        seq![(false, jtext(r, "name"@) + ": SSID hidden, which is not a security control"@)]
    } else {
        Seq::empty()
    }
}

/// The note on MAC filtering.
pub open spec fn note_mac(r: JsonV) -> Seq<(bool, Seq<char>)> {
    if jget(r, "macFilter"@) == Some(JsonV::Bool(true)) {
        seq![(false, jtext(r, "name"@) + ": MAC filtering on, which is not a security control"@)]
    } else {
        Seq::empty()
    }
}

/// What a hardening row says about its SSID, in order.
pub open spec fn hardening_notes_spec(r: JsonV) -> Seq<(bool, Seq<char>)> {
    note_wpa3(r) + note_pmf(r) + note_psk(r) + note_rekey(r) + note_shared(r) + note_hidden(r)
        + note_mac(r)
}

fn note(out: &mut Vec<Note>, warning: bool, name: &str, rest: &str)
    ensures
        notes_v(final(out)@) == notes_v(old(out)@).push((warning, name@ + rest@)),
{
    let mut text = String::from_str(name);
    text.append(rest);
    let n = Note { warning, text };
    out.push(n);
    assert(notes_v(out@) =~= notes_v(old(out)@).push(note_v(n)));
}

fn is_str(v: Option<&Json>, s: &str) -> (r: bool)
    ensures
        r == (match v {
            Some(x) => Some(x@),
            None => None,
        } == Some(JsonV::Str(s@))),
{
    match v {
        Some(Json::Str(x)) => str_eq(x.as_str(), s),
        _ => false,
    }
}

fn is_bool(v: Option<&Json>, b: bool) -> (r: bool)
    ensures
        r == (match v {
            Some(x) => Some(x@),
            None => None,
        } == Some(JsonV::Bool(b))),
{
    match v {
        Some(Json::Bool(x)) => *x == b,
        _ => false,
    }
}

/// What a hardening row says about its SSID: warnings for what weakens it,
/// notes for what reads as protection and is not.
pub fn hardening_notes(r: &Json) -> (out: Vec<Note>)
    ensures
        notes_v(out@) == hardening_notes_spec(r@),
{
    let name = r.text("name");
    let n = name.as_str();
    let mut out: Vec<Note> = Vec::new();
    let ghost rv = r@;
    assert(notes_v(out@) =~= Seq::<(bool, Seq<char>)>::empty());
    if is_str(r.get("wpa3"), "transition") {
        note(&mut out, true, n, ": WPA3 is in transition mode, so a client can still negotiate WPA2 and none of WPA3's protections are guaranteed");
    }
    assert(notes_v(out@) =~= note_wpa3(rv));
    if !is_str(r.get("pmf"), "required") {
        let mut rest = String::from_str(": management frames are not protected (");
        match r.str_at("pmf") {
            Some(p) => rest.append(p.as_str()),
            None => rest.append("unset"),
        }
        rest.append("), which is what makes deauthentication work");
        note(&mut out, true, n, rest.as_str());
    }
    assert(notes_v(out@) =~= note_wpa3(rv) + note_pmf(rv));
    let psk_len = match as_u64(r.get("pskLength")) {
        Some(k) => k,
        None => 99,
    };
    if psk_len < 12 {
        note(&mut out, true, n, ": the pre-shared key is short enough to be worth attacking offline once a handshake is captured");
    }
    assert(notes_v(out@) =~= note_wpa3(rv) + note_pmf(rv) + note_psk(rv));
    let rekey_zero = match r.get("groupRekeySeconds") {
        Some(Json::Int(k)) => *k == 0,
        _ => false,
    };
    if rekey_zero {
        note(&mut out, false, n, ": the group key is never rotated");
    }
    assert(notes_v(out@) =~= note_wpa3(rv) + note_pmf(rv) + note_psk(rv) + note_rekey(rv));
    if is_bool(r.get("privateKeys"), false) {
        note(&mut out, false, n, ": one key shared by every device, so changing it means reprovisioning all of them");
    }
    assert(notes_v(out@) =~= note_wpa3(rv) + note_pmf(rv) + note_psk(rv) + note_rekey(rv) + note_shared(rv));
    if is_bool(r.get("hidden"), true) {
        note(&mut out, false, n, ": SSID hidden, which is not a security control");
    }
    assert(notes_v(out@) =~= note_wpa3(rv) + note_pmf(rv) + note_psk(rv) + note_rekey(rv) + note_shared(rv) + note_hidden(rv));
    if is_bool(r.get("macFilter"), true) {
        note(&mut out, false, n, ": MAC filtering on, which is not a security control");
    }
    assert(notes_v(out@) =~= hardening_notes_spec(r@));
    out
}

// ---- neighbours -------------------------------------------------------------

/// The band a radio reports, in GHz where the code is known.
pub open spec fn band_label(b: Seq<char>) -> Seq<char> {
    if b == "ng"@ {
        "2.4"@
    } else if b == "na"@ {
        "5"@
    } else {
        b
    }
}

/// One access point in range, as the neighbour list shows it.
pub open spec fn neighbour_row_spec(x: JsonV) -> JsonV {
    JsonV::Obj(
        seq![
            ("essid"@, JsonV::Str(jtext(x, "essid"@))),
            ("bssid"@, JsonV::Str(jtext(x, "bssid"@))),
            ("band"@, JsonV::Str(band_label(jtext(x, "band"@)))),
            ("channel"@, or_null(jget(x, "channel"@))),
            ("width"@, or_null(jget(x, "bw"@))),
            ("security"@, JsonV::Str(jtext(x, "security"@))),
            ("signal"@, or_null(jget(x, "signal"@))),
            ("vendor"@, JsonV::Str(jtext(x, "oui"@))),
            ("seenSecondsAgo"@, or_null(jget(x, "age"@))),
        ],
    )
}

/// One access point in range, as the neighbour list shows it.
pub fn neighbour_row(x: &Json) -> (r: Json)
    ensures
        r@ == neighbour_row_spec(x@),
{
    let mut m: Vec<(String, Json)> = Vec::new();
    assert(Json::members_view(m@) =~= Seq::<(Seq<char>, JsonV)>::empty());
    put(&mut m, "essid", Json::Str(x.text("essid")));
    put(&mut m, "bssid", Json::Str(x.text("bssid")));
    let band = x.text("band");
    let label = if str_eq(band.as_str(), "ng") {
        String::from_str("2.4")
    } else if str_eq(band.as_str(), "na") {
        String::from_str("5")
    } else {
        band
    };
    put(&mut m, "band", Json::Str(label));
    put(&mut m, "channel", x.get_or_null("channel"));
    put(&mut m, "width", x.get_or_null("bw"));
    put(&mut m, "security", Json::Str(x.text("security")));
    put(&mut m, "signal", x.get_or_null("signal"));
    put(&mut m, "vendor", Json::Str(x.text("oui")));
    put(&mut m, "seenSecondsAgo", x.get_or_null("age"));
    let ghost mv = Json::members_view(m@);
    assert(mv =~= neighbour_row_spec(x@)->Obj_0);
    Json::Obj(m)
}

/// The signal of a row, -127 where it does not say.
pub open spec fn signal_of(r: JsonV) -> int {
    match jget(r, "signal"@) {
        Some(JsonV::Int(n)) => n,
        _ => -127,
    }
}

/// Where a row sorts: the strongest signal first. The key is the negated
/// signal, wrapping as machine integers do at the one value with no
/// negation.
pub open spec fn signal_rank(r: JsonV) -> int {
    let s = signal_of(r);
    (if s == i64::MIN as int {
        s
    } else {
        -s
    }) + 0x8000_0000_0000_0000
}

fn signal_rank_exec(r: &Json) -> (k: u64)
    ensures
        k as int == signal_rank(r@),
{
    let s: i64 = match r.get("signal") {
        Some(Json::Int(n)) => *n,
        _ => -127,
    };
    if s == i64::MIN {
        0
    } else if s <= 0 {
        0x8000_0000_0000_0000u64 + ((0 - s) as u64)
    } else {
        0x8000_0000_0000_0000u64 - (s as u64)
    }
}

/// The neighbour rows, strongest signal first; rows of equal signal in the
/// order the console listed them.
pub open spec fn neighbours_spec(seen: Seq<JsonV>) -> Seq<JsonV> {
    sorted_by_key(
        seen.map_values(|x: JsonV| neighbour_row_spec(x)).map_values(
            |r: JsonV| (signal_rank(r), Seq::<char>::empty(), r),
        ),
    ).map_values(|t: (int, Seq<char>, JsonV)| t.2)
}

/// Every access point the radios can hear, closest first: signal is what
/// decides whether a neighbour matters.
pub fn neighbours(seen: &Vec<Json>) -> (r: Vec<Json>)
    ensures
        Json::items_view(r@) == neighbours_spec(Json::items_view(seen@)),
{
    proof {
        crate::json::lemma_items_view(seen@);
    }
    let ghost sv = Json::items_view(seen@);
    let ghost want = sv.map_values(|x: JsonV| neighbour_row_spec(x)).map_values(
        |r: JsonV| (signal_rank(r), Seq::<char>::empty(), r),
    );
    let ghost f = |j: Json| j@;
    let ghost g = |y: (int, Seq<char>, Json)| map_item(y, f);
    let mut keyed: Vec<Keyed<Json>> = Vec::new();
    let mut k: usize = 0;
    while k < seen.len()
        invariant
            k <= seen@.len(),
            keyed@.len() == k,
            sv == Json::items_view(seen@),
            sv.len() == seen@.len(),
            forall|j: int| 0 <= j < sv.len() ==> #[trigger] sv[j] == seen@[j]@,
            want == sv.map_values(|x: JsonV| neighbour_row_spec(x)).map_values(
                |r: JsonV| (signal_rank(r), Seq::<char>::empty(), r),
            ),
            f == (|j: Json| j@),
            g == (|y: (int, Seq<char>, Json)| map_item(y, f)),
            kviews(keyed@).map_values(g) == want.take(k as int),
        decreases seen.len() - k,
    {
        let row = neighbour_row(&seen[k]);
        let rank = signal_rank_exec(&row);
        let ghost before = keyed@;
        keyed.push(Keyed { rank, text: String::new(), item: row });
        assert(kviews(keyed@).map_values(g) =~= want.take(k + 1)) by {
            assert(kviews(before).map_values(g) == want.take(k as int));
            assert(kviews(keyed@).map_values(g)[k as int] == want[k as int]);
            assert forall|q: int| 0 <= q < k implies #[trigger] kviews(keyed@).map_values(g)[q]
                == kviews(before).map_values(g)[q] by {
                assert(keyed@[q] == before[q]);
            }
        }
        k += 1;
    }
    assert(want.take(k as int) =~= want);
    let ghost kv = kviews(keyed@);
    let mut sorted = sort_keyed(keyed);
    proof {
        law_sorted_maps_items(kv, f);
    }
    let ghost target = sorted_by_key(want);
    assert(kviews(sorted@).map_values(g) == target);
    let mut out: Vec<Json> = Vec::new();
    let m = sorted.len();
    let mut j: usize = 0;
    while sorted.len() > 0
        invariant
            j + sorted@.len() == m,
            target.len() == m,
            out@.len() == j,
            forall|q: int| 0 <= q < sorted@.len() ==> #[trigger] sorted@[q].item@ == target[j + q].2,
            Json::items_view(out@) == target.take(j as int).map_values(|t: (int, Seq<char>, JsonV)| t.2),
        decreases sorted.len(),
    {
        assert(sorted@[0].item@ == target[j as int].2);
        let ghost first_item = sorted@[0];
        let x = sorted.remove(0);
        assert(x == first_item);
        let ghost before = out@;
        out.push(x.item);
        proof {
            assert(out@.subrange(0, out@.len() - 1) =~= before);
            crate::json::lemma_items_view(out@);
            let b = target.take(j + 1).map_values(|t: (int, Seq<char>, JsonV)| t.2);
            let b0 = target.take(j as int).map_values(|t: (int, Seq<char>, JsonV)| t.2);
            assert(b =~= b0.push(target[j as int].2));
        }
        j += 1;
    }
    assert(target.take(j as int) =~= target);
    out
}

/// How many rows have a security field satisfying `p`.
pub open spec fn count_security(rows: Seq<JsonV>, p: spec_fn(Option<JsonV>) -> bool) -> nat
    decreases rows.len(),
{
    if rows.len() == 0 {
        0
    } else {
        count_security(rows.drop_last(), p) + if p(jget(rows.last(), "security"@)) {
            1nat
        } else {
            0nat
        }
    }
}

/// An open network.
pub open spec fn open_security() -> spec_fn(Option<JsonV>) -> bool {
    |v: Option<JsonV>| v == Some(JsonV::Str("Open"@))
}

/// A network still accepting TKIP.
pub open spec fn tkip_security() -> spec_fn(Option<JsonV>) -> bool {
    |v: Option<JsonV>| v matches Some(JsonV::Str(s)) && contains_seq(s, "TKIP"@)
}

/// What the neighbour list adds up to: how many open networks, how many
/// still accepting TKIP, and the strongest signal (-127 with none).
pub fn neighbour_summary(rows: &Vec<Json>) -> (r: (u64, u64, i64))
    ensures
        r.0 == count_security(Json::items_view(rows@), open_security()),
        r.1 == count_security(Json::items_view(rows@), tkip_security()),
        r.2 == if rows@.len() > 0 {
            match jget(rows@[0]@, "signal"@) {
                Some(JsonV::Int(n)) => n,
                _ => -127,
            }
        } else {
            -127
        },
{
    proof {
        crate::json::lemma_items_view(rows@);
        reveal_strlit("Open");
    }
    let ghost rv = Json::items_view(rows@);
    let tkip = chars_of("TKIP");
    let mut open: u64 = 0;
    let mut weak: u64 = 0;
    let mut k: usize = 0;
    while k < rows.len()
        invariant
            k <= rows@.len(),
            rv == Json::items_view(rows@),
            rv.len() == rows@.len(),
            forall|j: int| 0 <= j < rv.len() ==> #[trigger] rv[j] == rows@[j]@,
            tkip@ == "TKIP"@,
            open == count_security(rv.take(k as int), open_security()),
            weak == count_security(rv.take(k as int), tkip_security()),
            open <= k,
            weak <= k,
        decreases rows.len() - k,
    {
        assert(rv.take(k + 1).drop_last() =~= rv.take(k as int));
        assert(rv.take(k + 1).last() == rows@[k as int]@);
        match rows[k].get("security") {
            Some(Json::Str(s)) => {
                if str_eq(s.as_str(), "Open") {
                    open += 1;
                }
                if find_chars(&chars_of(s.as_str()), &tkip).is_some() {
                    weak += 1;
                }
            },
            _ => {},
        }
        k += 1;
    }
    assert(rv.take(k as int) =~= rv);
    let strongest: i64 = if rows.len() > 0 {
        match rows[0].get("signal") {
            Some(Json::Int(n)) => *n,
            _ => -127,
        }
    } else {
        -127
    };
    (open, weak, strongest)
}

// ---- impostors and bridged access points ------------------------------------

/// Whether one of our networks is named `e`.
pub open spec fn ours(wlans: Seq<JsonV>, e: Seq<char>) -> bool {
    exists|i: int| 0 <= i < wlans.len() && jstr(#[trigger] wlans[i], "name"@) == Some(e)
}

/// The access points in range that broadcast one of our names, as rows.
pub open spec fn twins_spec(seen: Seq<JsonV>, wlans: Seq<JsonV>) -> Seq<JsonV>
    decreases seen.len(),
{
    if seen.len() == 0 {
        Seq::empty()
    } else {
        twins_spec(seen.drop_last(), wlans) + if jstr(seen.last(), "essid"@) matches Some(e) && ours(
            wlans,
            e,
        ) {
            seq![neighbour_row_spec(seen.last())]
        } else {
            Seq::empty()
        }
    }
}

/// An access point in range that broadcasts the name of any configured
/// wireless network, wherever that network stands in the list, is reported
/// as an impostor.
pub proof fn law_impostor_is_reported(seen: Seq<JsonV>, wlans: Seq<JsonV>, k: int, i: int)
    requires
        0 <= k < seen.len(),
        0 <= i < wlans.len(),
        jstr(seen[k], "essid"@) is Some,
        jstr(wlans[i], "name"@) == jstr(seen[k], "essid"@),
    ensures
        twins_spec(seen, wlans).contains(neighbour_row_spec(seen[k])),
    decreases seen.len(),
{
    let p = seen.drop_last();
    if k == seen.len() - 1 {
        let e = jstr(seen[k], "essid"@)->0;
        assert(jstr(wlans[i], "name"@) == Some(e));
        let t = twins_spec(p, wlans);
        assert(twins_spec(seen, wlans) == t + seq![neighbour_row_spec(seen.last())]);
        assert(twins_spec(seen, wlans)[t.len() as int] == neighbour_row_spec(seen[k]));
    } else {
        assert(p[k] == seen[k]);
        law_impostor_is_reported(p, wlans, k, i);
        let t = twins_spec(p, wlans);
        let j = choose|j: int| 0 <= j < t.len() && t[j] == neighbour_row_spec(seen[k]);
        assert(twins_spec(seen, wlans)[j] == t[j]);
    }
}

/// Only impostors are reported: every row is that of an access point in
/// range broadcasting the name of a configured wireless network.
pub proof fn law_only_impostors_are_reported(seen: Seq<JsonV>, wlans: Seq<JsonV>, r: JsonV)
    requires
        twins_spec(seen, wlans).contains(r),
    ensures
        exists|k: int, i: int|
            0 <= k < seen.len() && 0 <= i < wlans.len() && r == neighbour_row_spec(
                #[trigger] seen[k],
            ) && jstr(seen[k], "essid"@) is Some && jstr(#[trigger] wlans[i], "name"@) == jstr(
                seen[k],
                "essid"@,
            ),
    decreases seen.len(),
{
    let p = seen.drop_last();
    let t = twins_spec(p, wlans);
    let j = choose|j: int| 0 <= j < twins_spec(seen, wlans).len() && twins_spec(seen, wlans)[j] == r;
    if j < t.len() {
        assert(twins_spec(seen, wlans)[j] == t[j]);
        law_only_impostors_are_reported(p, wlans, r);
        let (k, i) = choose|k: int, i: int|
            0 <= k < p.len() && 0 <= i < wlans.len() && r == neighbour_row_spec(#[trigger] p[k])
                && jstr(p[k], "essid"@) is Some && jstr(#[trigger] wlans[i], "name"@) == jstr(
                p[k],
                "essid"@,
            );
        assert(seen[k] == p[k]);
    } else {
        let k = seen.len() - 1;
        let e = jstr(seen[k], "essid"@)->0;
        assert(jstr(seen.last(), "essid"@) matches Some(e) && ours(wlans, e));
        let i = choose|i: int| 0 <= i < wlans.len() && jstr(#[trigger] wlans[i], "name"@) == Some(e);
        assert(r == neighbour_row_spec(seen[k]));
    }
}

fn is_ours(wlans: &Vec<Json>, e: &str) -> (r: bool)
    ensures
        r == ours(Json::items_view(wlans@), e@),
{
    proof {
        crate::json::lemma_items_view(wlans@);
    }
    let ghost wv = Json::items_view(wlans@);
    let mut i: usize = 0;
    while i < wlans.len()
        invariant
            i <= wlans@.len(),
            wv == Json::items_view(wlans@),
            wv.len() == wlans@.len(),
            forall|j: int| 0 <= j < wv.len() ==> #[trigger] wv[j] == wlans@[j]@,
            forall|j: int| 0 <= j < i ==> jstr(#[trigger] wv[j], "name"@) != Some(e@),
        decreases wlans.len() - i,
    {
        match wlans[i].str_at("name") {
            Some(n) => if str_eq(n.as_str(), e) {
                assert(jstr(wv[i as int], "name"@) == Some(e@));
                return true;
            },
            None => {},
        }
        i += 1;
    }
    false
}

/// An impostor broadcasts a name that is ours. Weaker security on it is the
/// classic setup: the client joins the open copy without noticing.
pub fn twins(seen: &Vec<Json>, wlans: &Vec<Json>) -> (r: Vec<Json>)
    ensures
        Json::items_view(r@) == twins_spec(Json::items_view(seen@), Json::items_view(wlans@)),
{
    proof {
        crate::json::lemma_items_view(seen@);
    }
    let ghost sv = Json::items_view(seen@);
    let mut out: Vec<Json> = Vec::new();
    let mut k: usize = 0;
    while k < seen.len()
        invariant
            k <= seen@.len(),
            sv == Json::items_view(seen@),
            sv.len() == seen@.len(),
            forall|j: int| 0 <= j < sv.len() ==> #[trigger] sv[j] == seen@[j]@,
            Json::items_view(out@) == twins_spec(sv.take(k as int), Json::items_view(wlans@)),
        decreases seen.len() - k,
    {
        assert(sv.take(k + 1).drop_last() =~= sv.take(k as int));
        assert(sv.take(k + 1).last() == seen@[k as int]@);
        let ghost before = out@;
        let hit = match seen[k].str_at("essid") {
            Some(e) => is_ours(wlans, e.as_str()),
            None => false,
        };
        if hit {
            out.push(neighbour_row(&seen[k]));
            proof {
                assert(out@.subrange(0, out@.len() - 1) =~= before);
            }
        }
        k += 1;
    }
    assert(sv.take(k as int) =~= sv);
    out
}

/// Whether a string of twelve bytes can be cut after its ninth byte, as
/// slicing it there needs.
pub open spec fn cuttable(s: Seq<char>) -> bool {
    utf8_len(s) == 12 ==> exists|k: int| 0 <= k <= s.len() && #[trigger] utf8_len(s.take(k)) == 9
}

/// Whether two addresses can be compared as the adjacency check compares
/// them: it cuts both after their ninth byte, but only once both are twelve
/// bytes long.
pub open spec fn comparable_pair(a: Seq<char>, b: Seq<char>) -> bool {
    (utf8_len(a) == 12 && utf8_len(b) == 12) ==> (cuttable(a) && cuttable(b))
}

/// Where a cuttable string of twelve bytes is cut after its ninth byte.
pub open spec fn cut9(s: Seq<char>) -> int {
    choose|k: int| 0 <= k <= s.len() && #[trigger] utf8_len(s.take(k)) == 9
}

/// Same vendor prefix, and the last byte within a small distance: the first
/// nine bytes equal, the rest read as hexadecimal at most eight apart, and
/// the two not the same address.
pub open spec fn mac_adjacent_spec(a: Seq<char>, b: Seq<char>) -> bool {
    if utf8_len(a) != 12 || utf8_len(b) != 12 {
        false
    } else if a.take(cut9(a)) != b.take(cut9(b)) || a == b {
        false
    } else {
        match (
            parsed_unsigned(a.skip(cut9(a)), 16, u32::MAX as nat),
            parsed_unsigned(b.skip(cut9(b)), 16, u32::MAX as nat),
        ) {
            (Some(x), Some(y)) => (if x >= y {
                x - y
            } else {
                y - x
            }) <= 8,
            _ => false,
        }
    }
}

proof fn lemma_utf8_take_step(s: Seq<char>, k: int)
    requires
        0 <= k < s.len(),
    ensures
        utf8_len(s.take(k + 1)) == utf8_len(s.take(k)) + utf8_width(s[k]),
        utf8_width(s[k]) >= 1,
{
    assert(s.take(k + 1).drop_last() =~= s.take(k));
}

proof fn lemma_utf8_take_mono(s: Seq<char>, j: int, k: int)
    requires
        0 <= j < k <= s.len(),
    ensures
        utf8_len(s.take(j)) < utf8_len(s.take(k)),
    decreases k - j,
{
    lemma_utf8_take_step(s, k - 1);
    if j < k - 1 {
        lemma_utf8_take_mono(s, j, k - 1);
    }
}

/// The byte length of a string, and where its ninth byte ends when it is
/// twelve bytes long.
fn measure(v: &Vec<char>) -> (r: (bool, usize))
    ensures
        r.0 == (utf8_len(v@) == 12),
        r.0 && cuttable(v@) ==> r.1 as int == cut9(v@),
{
    let mut n: usize = 0;
    let mut i: usize = 0;
    let mut cut: usize = 0;
    let mut has_cut = false;
    assert(v@.take(0) =~= Seq::<char>::empty());
    while i < v.len()
        invariant
            i <= v@.len(),
            n == utf8_len(v@.take(i as int)),
            n <= 12,
            has_cut ==> (cut <= i && utf8_len(v@.take(cut as int)) == 9),
            !has_cut ==> n < 9 || (n > 9 && forall|k: int| 0 <= k <= i ==> #[trigger] utf8_len(v@.take(k)) != 9),
        decreases v.len() - i,
    {
        proof {
            lemma_utf8_take_step(v@, i as int);
        }
        let c = v[i] as u32;
        let w: usize = if c < 0x80 {
            1
        } else if c < 0x800 {
            2
        } else if c < 0x10000 {
            3
        } else {
            4
        };
        if n + w > 12 {
            proof {
                if utf8_len(v@) == 12 {
                    crate::advisories::lemma_utf8_prefix(v@, i as int + 1);
                }
            }
            return (false, 0);
        }
        let before = n;
        n = n + w;
        i += 1;
        if n == 9 && !has_cut {
            cut = i;
            has_cut = true;
        } else if !has_cut && before < 9 && n > 9 {
            proof {
                assert forall|k: int| 0 <= k <= i implies #[trigger] utf8_len(v@.take(k)) != 9 by {
                    if k < i - 1 {
                        lemma_utf8_take_mono(v@, k, i - 1);
                    } else if k == i - 1 {
                    }
                }
            }
        } else if !has_cut && before > 9 {
            proof {
                assert forall|k: int| 0 <= k <= i implies #[trigger] utf8_len(v@.take(k)) != 9 by {
                    if k == i {
                        lemma_utf8_take_mono(v@, i - 1, i as int);
                    }
                }
            }
        }
    }
    assert(v@.take(i as int) =~= v@);
    if n != 12 {
        return (false, 0);
    }
    proof {
        if cuttable(v@) {
            if !has_cut {
                let k = choose|k: int| 0 <= k <= v@.len() && #[trigger] utf8_len(v@.take(k)) == 9;
                assert(false);
            }
            let c = choose|k: int| 0 <= k <= v@.len() && #[trigger] utf8_len(v@.take(k)) == 9;
            if c < cut {
                lemma_utf8_take_mono(v@, c, cut as int);
            } else if cut < c {
                lemma_utf8_take_mono(v@, cut as int, c);
            }
        }
    }
    (true, cut)
}

fn take_chars(v: &Vec<char>, a: usize, b: usize) -> (r: String)
    requires
        a <= b <= v@.len(),
    ensures
        r@ == v@.subrange(a as int, b as int),
{
    string_of(&crate::text::slice_chars(v, a, b))
}

/// Same vendor prefix, and the last byte within a small distance.
pub fn mac_adjacent(a: &str, b: &str) -> (r: bool)
    requires
        comparable_pair(a@, b@),
    ensures
        r == mac_adjacent_spec(a@, b@),
{
    let av = chars_of(a);
    let bv = chars_of(b);
    let (a12, ka) = measure(&av);
    let (b12, kb) = measure(&bv);
    if !a12 || !b12 {
        return false;
    }
    assert(a@.take(ka as int) =~= a@.subrange(0, ka as int));
    assert(b@.take(kb as int) =~= b@.subrange(0, kb as int));
    assert(a@.skip(ka as int) =~= a@.subrange(ka as int, a@.len() as int));
    assert(b@.skip(kb as int) =~= b@.subrange(kb as int, b@.len() as int));
    let pa = take_chars(&av, 0, ka);
    let pb = take_chars(&bv, 0, kb);
    if !str_eq(pa.as_str(), pb.as_str()) || str_eq(a, b) {
        return false;
    }
    let ta = take_chars(&av, ka, av.len());
    let tb = take_chars(&bv, kb, bv.len());
    match (parse_hex_u32(ta.as_str()), parse_hex_u32(tb.as_str())) {
        (Some(x), Some(y)) => {
            let d = if x >= y {
                x - y
            } else {
                y - x
            };
            d <= 8
        },
        _ => false,
    }
}

/// A MAC address as the adjacency check reads it: colons dropped, lower
/// case.
pub open spec fn mac_norm(m: Seq<char>) -> Seq<char> {
    unicode_lower(replace(m, ":"@, Seq::empty()))
}

fn mac_norm_exec(m: &str) -> (r: String)
    ensures
        r@ == mac_norm(m@),
{
    proof {
        reveal_strlit(":");
        reveal_strlit("");
    }
    assert(""@ =~= Seq::<char>::empty());
    let bare = replace_str(m, ":", "");
    to_lowercase(bare.as_str())
}

/// The wired addresses the console knows, as the adjacency check reads them.
pub open spec fn known_macs(clients: Seq<JsonV>) -> Seq<Seq<char>>
    decreases clients.len(),
{
    if clients.len() == 0 {
        Seq::empty()
    } else {
        known_macs(clients.drop_last()) + match jstr(clients.last(), "mac"@) {
            Some(m) => seq![mac_norm(m)],
            None => Seq::empty(),
        }
    }
}

/// Whether an access point's BSSID sits next to a known wired address.
pub open spec fn next_to_known(x: JsonV, known: Seq<Seq<char>>) -> bool {
    jstr(x, "bssid"@) matches Some(b) && exists|k: int|
        0 <= k < known.len() && mac_adjacent_spec(mac_norm(b), #[trigger] known[k])
}

/// The access points in range whose BSSID sits next to a known wired
/// address, as rows.
pub open spec fn adjacent_spec(seen: Seq<JsonV>, known: Seq<Seq<char>>) -> Seq<JsonV>
    decreases seen.len(),
{
    if seen.len() == 0 {
        Seq::empty()
    } else {
        adjacent_spec(seen.drop_last(), known) + if next_to_known(seen.last(), known) {
            seq![neighbour_row_spec(seen.last())]
        } else {
            Seq::empty()
        }
    }
}

/// Whether every pair of a BSSID and a known address that the adjacency
/// check may compare can be cut where it cuts them. Which pairs it reaches
/// depends on the order a set of addresses is walked in, so any pair that
/// could not be cut may be the one it stops on.
pub open spec fn adjacency_readable(seen: Seq<JsonV>, clients: Seq<JsonV>) -> bool {
    forall|i: int, k: int|
        0 <= i < seen.len() && 0 <= k < known_macs(clients).len() ==> (jstr(
            #[trigger] seen[i],
            "bssid"@,
        ) matches Some(b) ==> comparable_pair(mac_norm(b), #[trigger] known_macs(clients)[k]))
}

fn known_list(clients: &Vec<Json>) -> (r: Vec<String>)
    ensures
        r@.map_values(|s: String| s@) == known_macs(Json::items_view(clients@)),
{
    proof {
        crate::json::lemma_items_view(clients@);
    }
    let ghost cv = Json::items_view(clients@);
    let mut out: Vec<String> = Vec::new();
    let mut k: usize = 0;
    while k < clients.len()
        invariant
            k <= clients@.len(),
            cv == Json::items_view(clients@),
            cv.len() == clients@.len(),
            forall|j: int| 0 <= j < cv.len() ==> #[trigger] cv[j] == clients@[j]@,
            out@.map_values(|s: String| s@) == known_macs(cv.take(k as int)),
        decreases clients.len() - k,
    {
        assert(cv.take(k + 1).drop_last() =~= cv.take(k as int));
        assert(cv.take(k + 1).last() == clients@[k as int]@);
        let ghost before = out@;
        match clients[k].str_at("mac") {
            Some(m) => {
                let n = mac_norm_exec(m.as_str());
                out.push(n);
                proof {
                    crate::text::lemma_map_push(before, n, |s: String| s@);
                }
            },
            None => {},
        }
        k += 1;
    }
    assert(cv.take(k as int) =~= cv);
    out
}


/// Whether a string can be cut after its ninth byte wherever it is twelve
/// bytes long, which the adjacency check needs of every address it reads.
pub fn cuts_at_nine(s: &str) -> (r: bool)
    ensures
        r == cuttable(s@),
{
    let v = chars_of(s);
    let mut n: usize = 0;
    let mut i: usize = 0;
    let mut found = false;
    assert(v@.take(0) =~= Seq::<char>::empty());
    while i < v.len()
        invariant
            i <= v@.len(),
            v@ == s@,
            n == utf8_len(v@.take(i as int)),
            n <= 12,
            found ==> exists|k: int| 0 <= k <= v@.len() && #[trigger] utf8_len(v@.take(k)) == 9,
            !found ==> forall|k: int| 0 <= k <= i ==> #[trigger] utf8_len(v@.take(k)) != 9,
        decreases v.len() - i,
    {
        proof {
            lemma_utf8_take_step(v@, i as int);
        }
        let c = v[i] as u32;
        let w: usize = if c < 0x80 {
            1
        } else if c < 0x800 {
            2
        } else if c < 0x10000 {
            3
        } else {
            4
        };
        if n + w > 12 {
            proof {
                crate::advisories::lemma_utf8_prefix(v@, i as int + 1);
            }
            return true;
        }
        n = n + w;
        i += 1;
        if n == 9 {
            found = true;
        }
        proof {
            if !found {
                assert forall|k: int| 0 <= k <= i implies #[trigger] utf8_len(v@.take(k)) != 9 by {
                    if k == i {
                    }
                }
            }
        }
    }
    assert(v@.take(i as int) =~= v@);
    found || n != 12
}

fn pair_ok(a: &str, b: &str) -> (r: bool)
    ensures
        r == comparable_pair(a@, b@),
{
    let (a12, _) = measure(&chars_of(a));
    let (b12, _) = measure(&chars_of(b));
    !(a12 && b12) || (cuts_at_nine(a) && cuts_at_nine(b))
}

/// Whether every pair of a BSSID and a known address that the adjacency
/// check may compare can be cut where it cuts them.
pub fn adjacency_ok(seen: &Vec<Json>, clients: &Vec<Json>) -> (r: bool)
    ensures
        r == adjacency_readable(Json::items_view(seen@), Json::items_view(clients@)),
{
    proof {
        crate::json::lemma_items_view(seen@);
    }
    let ghost sv = Json::items_view(seen@);
    let known = known_list(clients);
    let ghost kv = known_macs(Json::items_view(clients@));
    let mut i: usize = 0;
    while i < seen.len()
        invariant
            i <= seen@.len(),
            sv == Json::items_view(seen@),
            sv.len() == seen@.len(),
            forall|j: int| 0 <= j < sv.len() ==> #[trigger] sv[j] == seen@[j]@,
            known@.map_values(|s: String| s@) == kv,
            kv == known_macs(Json::items_view(clients@)),
            forall|q: int, k: int|
                0 <= q < i && 0 <= k < kv.len() ==> (jstr(#[trigger] sv[q], "bssid"@) matches Some(
                    b,
                ) ==> comparable_pair(mac_norm(b), #[trigger] kv[k])),
        decreases seen.len() - i,
    {
        assert(sv[i as int] == seen@[i as int]@);
        match seen[i].str_at("bssid") {
            Some(b) => {
                let nb = mac_norm_exec(b.as_str());
                assert(jstr(sv[i as int], "bssid"@) == Some(b@));
                let mut k: usize = 0;
                while k < known.len()
                    invariant
                        k <= known@.len(),
                        known@.map_values(|s: String| s@) == kv,
                        i < sv.len(),
                        jstr(sv[i as int], "bssid"@) == Some(b@),
                        sv == Json::items_view(seen@),
                        kv == known_macs(Json::items_view(clients@)),
                        nb@ == mac_norm(b@),
                        forall|q: int| 0 <= q < k ==> comparable_pair(nb@, #[trigger] kv[q]),
                    decreases known.len() - k,
                {
                    assert(kv[k as int] == known@[k as int]@);
                    if !pair_ok(nb.as_str(), known[k].as_str()) {
                        assert(!comparable_pair(mac_norm(b@), kv[k as int]));
                        return false;
                    }
                    k += 1;
                }
                assert forall|q: int, kk: int|
                    0 <= q < i + 1 && 0 <= kk < kv.len() implies (jstr(#[trigger] sv[q], "bssid"@) matches Some(
                        bb,
                    ) ==> comparable_pair(mac_norm(bb), #[trigger] kv[kk])) by {
                    if q == i {
                        assert(jstr(sv[q], "bssid"@) == Some(b@));
                    }
                }
            },
            None => {
                assert forall|q: int, kk: int|
                    0 <= q < i + 1 && 0 <= kk < kv.len() implies (jstr(#[trigger] sv[q], "bssid"@) matches Some(
                        bb,
                    ) ==> comparable_pair(mac_norm(bb), #[trigger] kv[kk])) by {
                    if q == i {
                        assert(jstr(sv[q], "bssid"@) is None);
                    }
                }
            },
        }
        i += 1;
    }
    true
}

/// The access points whose BSSID sits next to a known wired address, or
/// `None` when an address cannot be read as the check reads it.
pub fn adjacent_checked(seen: &Vec<Json>, clients: &Vec<Json>) -> (r: Option<Vec<Json>>)
    ensures
        match r {
            Some(v) => adjacency_readable(Json::items_view(seen@), Json::items_view(clients@))
                && Json::items_view(v@) == adjacent_spec(
                Json::items_view(seen@),
                known_macs(Json::items_view(clients@)),
            ),
            None => !adjacency_readable(Json::items_view(seen@), Json::items_view(clients@)),
        },
{
    if adjacency_ok(seen, clients) {
        Some(adjacent(seen, clients))
    } else {
        None
    }
}

/// A bridged access point usually carries its wired address within a few
/// units of the BSSID it broadcasts, same vendor prefix: the access points in
/// range that sit next to a known client address.
pub fn adjacent(seen: &Vec<Json>, clients: &Vec<Json>) -> (r: Vec<Json>)
    requires
        adjacency_readable(Json::items_view(seen@), Json::items_view(clients@)),
    ensures
        Json::items_view(r@) == adjacent_spec(
            Json::items_view(seen@),
            known_macs(Json::items_view(clients@)),
        ),
{
    proof {
        crate::json::lemma_items_view(seen@);
    }
    let ghost sv = Json::items_view(seen@);
    let known = known_list(clients);
    let ghost kv = known@.map_values(|s: String| s@);
    let mut out: Vec<Json> = Vec::new();
    let mut i: usize = 0;
    while i < seen.len()
        invariant
            i <= seen@.len(),
            sv == Json::items_view(seen@),
            sv.len() == seen@.len(),
            forall|j: int| 0 <= j < sv.len() ==> #[trigger] sv[j] == seen@[j]@,
            kv == known@.map_values(|s: String| s@),
            kv == known_macs(Json::items_view(clients@)),
            adjacency_readable(sv, Json::items_view(clients@)),
            Json::items_view(out@) == adjacent_spec(sv.take(i as int), kv),
        decreases seen.len() - i,
    {
        assert(sv.take(i + 1).drop_last() =~= sv.take(i as int));
        assert(sv.take(i + 1).last() == seen@[i as int]@);
        let ghost before = out@;
        let hit = match seen[i].str_at("bssid") {
            Some(b) => {
                let nb = mac_norm_exec(b.as_str());
                assert(jstr(sv[i as int], "bssid"@) == Some(b@));
                let mut found = false;
                let mut k: usize = 0;
                while k < known.len()
                    invariant
                        k <= known@.len(),
                        kv == known@.map_values(|s: String| s@),
                        kv == known_macs(Json::items_view(clients@)),
                        adjacency_readable(sv, Json::items_view(clients@)),
                        i < sv.len(),
                        jstr(sv[i as int], "bssid"@) == Some(b@),
                        nb@ == mac_norm(b@),
                        found == exists|q: int| 0 <= q < k && mac_adjacent_spec(nb@, #[trigger] kv[q]),
                    decreases known.len() - k,
                {
                    assert(kv[k as int] == known@[k as int]@);
                    assert(comparable_pair(nb@, kv[k as int]));
                    if mac_adjacent(nb.as_str(), known[k].as_str()) {
                        found = true;
                    }
                    k += 1;
                }
                found
            },
            None => false,
        };
        if hit {
            out.push(neighbour_row(&seen[i]));
            proof {
                assert(out@.subrange(0, out@.len() - 1) =~= before);
            }
        }
        i += 1;
    }
    assert(sv.take(i as int) =~= sv);
    out
}

/// Fingerprint families that describe a device which can bridge a network.
pub open spec fn ap_family(f: Seq<char>) -> bool {
    f == "Wireless Access Point"@ || f == "Wireless Router"@ || f == "Router"@ || f == "Firewall"@
        || f == "Network Equipment"@ || f == "Smart Gateway"@
}

fn ap_family_exec(f: &str) -> (r: bool)
    ensures
        r == ap_family(f@),
{
    str_eq(f, "Wireless Access Point") || str_eq(f, "Wireless Router") || str_eq(f, "Router")
        || str_eq(f, "Firewall") || str_eq(f, "Network Equipment") || str_eq(f, "Smart Gateway")
}

/// The family the tables give a client record.
pub open spec fn family_of(t: Table, rec: JsonV) -> Option<Seq<char>> {
    picked(
        id_text(rec, "dev_family"@),
        match signature(t, rec) {
            Some(d) => Some(d.family_id@),
            None => None,
        },
        t.family_ids@,
    )
}

/// The operating system the tables give a client record.
pub open spec fn os_of(t: Table, rec: JsonV) -> Option<Seq<char>> {
    picked(
        id_text(rec, "os_name"@),
        match signature(t, rec) {
            Some(d) => Some(d.os_name_id@),
            None => None,
        },
        t.os_name_ids@,
    )
}

/// The device name the tables give a client record.
pub open spec fn device_of(t: Table, rec: JsonV) -> Option<Seq<char>> {
    match signature(t, rec) {
        Some(d) => if d.name@.len() > 0 {
            Some(d.name@)
        } else {
            None
        },
        None => None,
    }
}

/// The confidence a client record reports, clamped to 0..100.
pub open spec fn confidence_of(rec: JsonV) -> Option<int> {
    match jint(rec, "confidence"@) {
        Some(n) => Some(
            if n < 0 {
                0
            } else if n > 100 {
                100
            } else {
                n
            },
        ),
        None => None,
    }
}

/// Whether the identification is an uncertain inference.
pub open spec fn uncertain(t: Table, rec: JsonV, min_score: u8) -> bool {
    (device_of(t, rec) is Some || os_of(t, rec) is Some) && match confidence_of(rec) {
        Some(c) => c < min_score,
        None => 0 < min_score,
    }
}

pub open spec fn opt_str(o: Option<Seq<char>>) -> JsonV {
    match o {
        Some(s) => JsonV::Str(s),
        None => JsonV::Null,
    }
}

/// A wired client fingerprinted as a device that bridges networks, as a row.
pub open spec fn bridge_row_spec(t: Table, x: JsonV) -> JsonV {
    JsonV::Obj(
        seq![
            ("name"@, match jget(x, "name"@) {
                Some(n) => n,
                None => or_null(jget(x, "hostname"@)),
            }),
            ("macAddress"@, or_null(jget(x, "mac"@))),
            ("family"@, opt_str(family_of(t, x))),
            ("device"@, opt_str(device_of(t, x))),
            ("confidence"@, match confidence_of(x) {
                Some(c) => JsonV::Int(c),
                None => JsonV::Null,
            }),
            ("lastIp"@, or_null(jget(x, "last_ip"@))),
        ],
    )
}

/// Whether a client is wired and fingerprinted, with enough confidence, as a
/// device that bridges networks.
pub open spec fn is_bridge(t: Table, x: JsonV, min_score: u8) -> bool {
    &&& jflag(x, "is_wired"@)
    &&& family_of(t, x) matches Some(f) && ap_family(f)
    &&& !uncertain(t, x, min_score)
}

/// The wired clients whose fingerprint says they can bridge a network.
pub open spec fn bridges_spec(t: Table, clients: Seq<JsonV>, min_score: u8) -> Seq<JsonV>
    decreases clients.len(),
{
    if clients.len() == 0 {
        Seq::empty()
    } else {
        bridges_spec(t, clients.drop_last(), min_score) + if is_bridge(t, clients.last(), min_score) {
            seq![bridge_row_spec(t, clients.last())]
        } else {
            Seq::empty()
        }
    }
}

fn opt_json(o: &Option<String>) -> (r: Json)
    ensures
        r@ == opt_str(opt_view(*o)),
{
    match o {
        Some(s) => Json::Str(s.clone()),
        None => Json::Null,
    }
}

/// The path that does not depend on the radio at all, and so is not limited
/// to our own channels: wired clients the console fingerprinted as devices
/// that bridge networks.
pub fn bridges(t: &Table, clients: &Vec<Json>, min_score: u8) -> (r: Vec<Json>)
    ensures
        Json::items_view(r@) == bridges_spec(*t, Json::items_view(clients@), min_score),
{
    proof {
        crate::json::lemma_items_view(clients@);
    }
    let ghost cv = Json::items_view(clients@);
    let mut out: Vec<Json> = Vec::new();
    let mut k: usize = 0;
    while k < clients.len()
        invariant
            k <= clients@.len(),
            cv == Json::items_view(clients@),
            cv.len() == clients@.len(),
            forall|j: int| 0 <= j < cv.len() ==> #[trigger] cv[j] == clients@[j]@,
            Json::items_view(out@) == bridges_spec(*t, cv.take(k as int), min_score),
        decreases clients.len() - k,
    {
        assert(cv.take(k + 1).drop_last() =~= cv.take(k as int));
        assert(cv.take(k + 1).last() == clients@[k as int]@);
        let x = &clients[k];
        let ghost before = out@;
        if x.flag("is_wired") {
            let id = resolve(t, x);
            let fam_ok = match &id.family {
                Some(f) => ap_family_exec(f.as_str()),
                None => false,
            };
            if fam_ok && !id.is_uncertain(min_score) {
                let mut m: Vec<(String, Json)> = Vec::new();
                assert(Json::members_view(m@) =~= Seq::<(Seq<char>, JsonV)>::empty());
                let name = match x.get("name") {
                    Some(n) => n.deep_clone(),
                    None => x.get_or_null("hostname"),
                };
                put(&mut m, "name", name);
                put(&mut m, "macAddress", x.get_or_null("mac"));
                put(&mut m, "family", opt_json(&id.family));
                put(&mut m, "device", opt_json(&id.device));
                let conf = match id.confidence {
                    Some(c) => Json::Int(c as i64),
                    None => Json::Null,
                };
                put(&mut m, "confidence", conf);
                put(&mut m, "lastIp", x.get_or_null("last_ip"));
                let ghost mv = Json::members_view(m@);
                assert(mv =~= bridge_row_spec(*t, x@)->Obj_0);
                let row = Json::Obj(m);
                assert(row@ == bridge_row_spec(*t, x@));
                assert(is_bridge(*t, x@, min_score));
                out.push(row);
                proof {
                    assert(out@.subrange(0, out@.len() - 1) =~= before);
                    assert(Json::items_view(out@) == Json::items_view(before).push(row@));
                }
            } else {
                assert(!is_bridge(*t, x@, min_score));
            }
        } else {
            assert(!is_bridge(*t, x@, min_score));
        }
        proof {
            if !is_bridge(*t, x@, min_score) {
                assert(bridges_spec(*t, cv.take(k + 1), min_score) =~= bridges_spec(*t, cv.take(k as int), min_score));
            }
        }
        k += 1;
    }
    assert(cv.take(k as int) =~= cv);
    out
}

// ---- airtime ----------------------------------------------------------------

/// An integer field of a radio's statistics, 0 where it does not say.
pub open spec fn stat(r: JsonV, k: Seq<char>) -> i64 {
    match jint(r, k) {
        Some(n) => n as i64,
        None => 0,
    }
}

/// The radio a statistics row is for, in GHz where the code is known.
pub open spec fn radio_label(b: Seq<char>) -> Seq<char> {
    if b == "ng"@ {
        "2.4"@
    } else if b == "na"@ {
        "5"@
    } else if b == "6e"@ {
        "6"@
    } else {
        b
    }
}

/// What the radio spends on itself, which is not interference.
pub open spec fn self_share(r: JsonV) -> i64 {
    stat(r, "cu_self_rx"@).wrapping_add(stat(r, "cu_self_tx"@))
}

/// Busy minus the radio's own share: the air others take.
pub open spec fn others_share(r: JsonV) -> i64 {
    let o = stat(r, "cu_total"@).wrapping_sub(stat(r, "cu_self_rx"@)).wrapping_sub(
        stat(r, "cu_self_tx"@),
    );
    if o < 0 {
        0
    } else {
        o
    }
}

/// One radio of one device, as the airtime view shows it.
pub open spec fn airtime_row_spec(name: Seq<char>, r: JsonV) -> JsonV {
    JsonV::Obj(
        seq![
            ("device"@, JsonV::Str(name)),
            ("radio"@, JsonV::Str(radio_label(jtext(r, "radio"@)))),
            ("channel"@, or_null(jget(r, "channel"@))),
            ("width"@, or_null(jget(r, "bw"@))),
            ("clients"@, JsonV::Int(stat(r, "num_sta"@) as int)),
            ("busyPct"@, JsonV::Int(stat(r, "cu_total"@) as int)),
            ("selfPct"@, JsonV::Int(self_share(r) as int)),
            ("othersPct"@, JsonV::Int(others_share(r) as int)),
            ("retriesPct"@, or_null(jget(r, "tx_retries_pct"@))),
            ("txPower"@, JsonV::Int(stat(r, "tx_power"@) as int)),
        ],
    )
}

/// The rows of one device's radios.
pub open spec fn device_radios(name: Seq<char>, radios: Seq<JsonV>) -> Seq<JsonV>
    decreases radios.len(),
{
    if radios.len() == 0 {
        Seq::empty()
    } else {
        device_radios(name, radios.drop_last()).push(airtime_row_spec(name, radios.last()))
    }
}

/// Every radio of every device, device by device.
pub open spec fn airtime_spec(devices: Seq<JsonV>) -> Seq<JsonV>
    decreases devices.len(),
{
    if devices.len() == 0 {
        Seq::empty()
    } else {
        airtime_spec(devices.drop_last()) + device_radios(
            jtext(devices.last(), "name"@),
            jitems(devices.last(), "radio_table_stats"@),
        )
    }
}

fn stat_exec(r: &Json, k: &str) -> (n: i64)
    ensures
        n == stat(r@, k@),
{
    match r.int_at(k) {
        Some(x) => x,
        None => 0,
    }
}

fn airtime_row(name: &str, r: &Json) -> (row: Json)
    ensures
        row@ == airtime_row_spec(name@, r@),
{
    let mut m: Vec<(String, Json)> = Vec::new();
    assert(Json::members_view(m@) =~= Seq::<(Seq<char>, JsonV)>::empty());
    put(&mut m, "device", Json::Str(String::from_str(name)));
    let radio = r.text("radio");
    let label = if str_eq(radio.as_str(), "ng") {
        String::from_str("2.4")
    } else if str_eq(radio.as_str(), "na") {
        String::from_str("5")
    } else if str_eq(radio.as_str(), "6e") {
        String::from_str("6")
    } else {
        radio
    };
    put(&mut m, "radio", Json::Str(label));
    put(&mut m, "channel", r.get_or_null("channel"));
    put(&mut m, "width", r.get_or_null("bw"));
    put(&mut m, "clients", Json::Int(stat_exec(r, "num_sta")));
    let total = stat_exec(r, "cu_total");
    let rx = stat_exec(r, "cu_self_rx");
    let tx = stat_exec(r, "cu_self_tx");
    put(&mut m, "busyPct", Json::Int(total));
    put(&mut m, "selfPct", Json::Int(rx.wrapping_add(tx)));
    let o = total.wrapping_sub(rx).wrapping_sub(tx);
    let others = if o < 0 {
        0
    } else {
        o
    };
    put(&mut m, "othersPct", Json::Int(others));
    put(&mut m, "retriesPct", r.get_or_null("tx_retries_pct"));
    put(&mut m, "txPower", Json::Int(stat_exec(r, "tx_power")));
    let ghost mv = Json::members_view(m@);
    assert(mv =~= airtime_row_spec(name@, r@)->Obj_0);
    Json::Obj(m)
}

/// Who is using the air on each radio, and how much of it is not you: one
/// row per radio of every device that reports statistics.
pub fn airtime(devices: &Vec<Json>) -> (r: Vec<Json>)
    ensures
        Json::items_view(r@) == airtime_spec(Json::items_view(devices@)),
{
    proof {
        crate::json::lemma_items_view(devices@);
    }
    let ghost dv = Json::items_view(devices@);
    let mut out: Vec<Json> = Vec::new();
    let mut k: usize = 0;
    while k < devices.len()
        invariant
            k <= devices@.len(),
            dv == Json::items_view(devices@),
            dv.len() == devices@.len(),
            forall|j: int| 0 <= j < dv.len() ==> #[trigger] dv[j] == devices@[j]@,
            Json::items_view(out@) == airtime_spec(dv.take(k as int)),
        decreases devices.len() - k,
    {
        let d = &devices[k];
        assert(dv.take(k + 1).drop_last() =~= dv.take(k as int));
        assert(dv.take(k + 1).last() == d@);
        let name = d.text("name");
        let ghost start = Json::items_view(out@);
        match d.get("radio_table_stats") {
            Some(Json::Arr(radios)) => {
                proof {
                    crate::json::lemma_items_view(radios@);
                }
                let ghost rv = Json::items_view(radios@);
                let mut i: usize = 0;
                while i < radios.len()
                    invariant
                        i <= radios@.len(),
                        rv == Json::items_view(radios@),
                        rv.len() == radios@.len(),
                        forall|j: int| 0 <= j < rv.len() ==> #[trigger] rv[j] == radios@[j]@,
                        Json::items_view(out@) == start + device_radios(name@, rv.take(i as int)),
                    decreases radios.len() - i,
                {
                    assert(rv.take(i + 1).drop_last() =~= rv.take(i as int));
                    assert(rv.take(i + 1).last() == radios@[i as int]@);
                    let ghost before = out@;
                    let row = airtime_row(name.as_str(), &radios[i]);
                    out.push(row);
                    proof {
                        assert(out@.subrange(0, out@.len() - 1) =~= before);
                        assert(Json::items_view(out@) == Json::items_view(before).push(row@));
                        assert(Json::items_view(out@) =~= start + device_radios(name@, rv.take(i + 1)));
                    }
                    i += 1;
                }
                assert(rv.take(i as int) =~= rv);
            },
            _ => {
                assert(Json::items_view(out@) =~= start + device_radios(name@, Seq::empty()));
            },
        }
        k += 1;
    }
    assert(dv.take(k as int) =~= dv);
    out
}

/// The index of the largest key, the last one where several are largest.
pub open spec fn max_index(s: Seq<int>) -> int
    decreases s.len(),
{
    if s.len() <= 1 {
        0
    } else {
        let m = max_index(s.drop_last());
        if s.last() >= s[m] {
            s.len() - 1
        } else {
            m
        }
    }
}

/// An integer field of a row, 0 where it does not say.
pub open spec fn row_int(r: JsonV, k: Seq<char>) -> int {
    match jint(r, k) {
        Some(n) => n,
        None => 0,
    }
}

/// The row whose radio carries the most traffic that is not yours.
pub open spec fn worst_spec(rows: Seq<JsonV>) -> Option<int> {
    if rows.len() == 0 {
        None
    } else {
        Some(max_index(rows.map_values(|r: JsonV| row_int(r, "othersPct"@))))
    }
}

/// The row whose radio carries the most traffic that is not yours; the last
/// of them where several tie.
pub fn worst_radio(rows: &Vec<Json>) -> (r: Option<usize>)
    ensures
        match r {
            Some(i) => worst_spec(Json::items_view(rows@)) == Some(i as int),
            None => worst_spec(Json::items_view(rows@)) is None,
        },
{
    proof {
        crate::json::lemma_items_view(rows@);
    }
    let ghost keys = Json::items_view(rows@).map_values(|r: JsonV| row_int(r, "othersPct"@));
    if rows.len() == 0 {
        return None;
    }
    let mut best: usize = 0;
    let mut best_key: i64 = match rows[0].int_at("othersPct") {
        Some(n) => n,
        None => 0,
    };
    let mut i: usize = 1;
    assert(keys.take(1) =~= seq![keys[0]]);
    while i < rows.len()
        invariant
            1 <= i <= rows@.len(),
            keys == Json::items_view(rows@).map_values(|r: JsonV| row_int(r, "othersPct"@)),
            keys.len() == rows@.len(),
            forall|j: int| 0 <= j < rows@.len() ==> #[trigger] Json::items_view(rows@)[j] == rows@[j]@,
            best < i,
            best as int == max_index(keys.take(i as int)),
            best_key as int == keys[best as int],
        decreases rows.len() - i,
    {
        let k: i64 = match rows[i].int_at("othersPct") {
            Some(n) => n,
            None => 0,
        };
        assert(keys.take(i + 1).drop_last() =~= keys.take(i as int));
        assert(keys.take(i + 1).last() == keys[i as int]);
        assert(keys.take(i as int)[best as int] == keys[best as int]);
        if k >= best_key {
            best = i;
            best_key = k;
        }
        i += 1;
    }
    assert(keys.take(i as int) =~= keys);
    Some(best)
}

/// Among radios carrying nothing but your own traffic, on another band than
/// the worst one, the one with the most clients.
pub open spec fn clean_candidate(r: JsonV, worst: JsonV) -> bool {
    jint(r, "othersPct"@) == Some(0int) && jstr(r, "radio"@) != jstr(worst, "radio"@)
}

/// The indexes of the rows that qualify as the clean band.
pub open spec fn clean_indexes(rows: Seq<JsonV>, worst: JsonV) -> Seq<int> {
    Seq::new(rows.len(), |i: int| i).filter(|i: int| clean_candidate(rows[i], worst))
}

/// The band carrying nothing but your own traffic, other than the worst
/// one, with the most clients; the last of them where several tie.
pub open spec fn clean_spec(rows: Seq<JsonV>, worst: int) -> Option<int> {
    let c = clean_indexes(rows, rows[worst]);
    if c.len() == 0 {
        None
    } else {
        Some(c[max_index(c.map_values(|i: int| row_int(rows[i], "clients"@)))])
    }
}

/// The band carrying nothing but your own traffic, other than the worst
/// one, with the most clients: moving capable clients there sidesteps the
/// congestion.
pub fn clean_radio(rows: &Vec<Json>, worst: usize) -> (r: Option<usize>)
    requires
        worst < rows@.len(),
    ensures
        match r {
            Some(i) => clean_spec(Json::items_view(rows@), worst as int) == Some(i as int),
            None => clean_spec(Json::items_view(rows@), worst as int) is None,
        },
{
    proof {
        crate::json::lemma_items_view(rows@);
    }
    let ghost rv = Json::items_view(rows@);
    let ghost all = Seq::new(rv.len(), |i: int| i);
    let ghost keep = |i: int| clean_candidate(rv[i], rv[worst as int]);
    let wr: Option<String> = match rows[worst].str_at("radio") {
        Some(x) => Some(x.clone()),
        None => None,
    };
    let mut cands: Vec<usize> = Vec::new();
    let mut i: usize = 0;
    while i < rows.len()
        invariant
            i <= rows@.len(),
            worst < rows@.len(),
            rv == Json::items_view(rows@),
            rv.len() == rows@.len(),
            forall|j: int| 0 <= j < rv.len() ==> #[trigger] rv[j] == rows@[j]@,
            all == Seq::new(rv.len(), |i: int| i),
            keep == (|i: int| clean_candidate(rv[i], rv[worst as int])),
            match wr {
                Some(x) => jstr(rv[worst as int], "radio"@) == Some(x@),
                None => jstr(rv[worst as int], "radio"@) is None,
            },
            forall|q: int| 0 <= q < cands@.len() ==> #[trigger] cands@[q] < i,
            cands@.map_values(|c: usize| c as int) == all.take(i as int).filter(keep),
        decreases rows.len() - i,
    {
        let zero = match rows[i].get("othersPct") {
            Some(Json::Int(n)) => *n == 0,
            _ => false,
        };
        let same_band = match (rows[i].str_at("radio"), &wr) {
            (Some(a), Some(b)) => str_eq(a.as_str(), b.as_str()),
            (None, None) => true,
            _ => false,
        };
        let hit = zero && !same_band;
        let ghost before = cands@;
        if hit {
            cands.push(i);
        }
        proof {
            reveal(Seq::filter);
            assert(all.take(i + 1).drop_last() =~= all.take(i as int));
            assert(all.take(i + 1).last() == i as int);
            assert(keep(i as int) == hit);
            if hit {
                crate::text::lemma_map_push(before, i, |c: usize| c as int);
            }
        }
        i += 1;
    }
    assert(all.take(i as int) =~= all);
    let ghost cv = cands@.map_values(|c: usize| c as int);
    if cands.len() == 0 {
        return None;
    }
    let ghost keys = cv.map_values(|j: int| row_int(rv[j], "clients"@));
    let mut best: usize = 0;
    let mut best_key: i64 = match rows[cands[0]].int_at("clients") {
        Some(n) => n,
        None => 0,
    };
    let mut q: usize = 1;
    assert(keys.take(1) =~= seq![keys[0]]);
    while q < cands.len()
        invariant
            1 <= q <= cands@.len(),
            cv == cands@.map_values(|c: usize| c as int),
            keys == cv.map_values(|j: int| row_int(rv[j], "clients"@)),
            rv == Json::items_view(rows@),
            rv.len() == rows@.len(),
            forall|j: int| 0 <= j < rv.len() ==> #[trigger] rv[j] == rows@[j]@,
            forall|p: int| 0 <= p < cands@.len() ==> #[trigger] cands@[p] < rows@.len(),
            best < q,
            best as int == max_index(keys.take(q as int)),
            best_key as int == keys[best as int],
        decreases cands.len() - q,
    {
        let k: i64 = match rows[cands[q]].int_at("clients") {
            Some(n) => n,
            None => 0,
        };
        assert(keys.take(q + 1).drop_last() =~= keys.take(q as int));
        assert(keys.take(q + 1).last() == keys[q as int]);
        assert(keys.take(q as int)[best as int] == keys[best as int]);
        if k >= best_key {
            best = q;
            best_key = k;
        }
        q += 1;
    }
    assert(keys.take(q as int) =~= keys);
    Some(cands[best])
}

} // verus!
