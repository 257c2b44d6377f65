//! What turned up on the network that nobody announced.
//!
//! Built on `first_seen`: the console already records when it met each
//! address for the first time. A phone that rotates its MAC address looks like
//! a new device every time, so randomized addresses are held apart unless the
//! operator asks for them.

use vstd::prelude::*;
use crate::enrich::{is_randomized, randomized, Identity};
use crate::json::{count_if, jflag, jget, jint, jtext, put, Json, JsonV};
use crate::sort::{kviews, law_sorted_maps_items, map_item, sort_keyed, sorted_by_key, Keyed};
use crate::calendar::{iso8601, iso8601_text};
use crate::text::{chars_of, to_lowercase, unicode_lower};

verus! {

/// Seconds in a day.
pub const DAY: i64 = 86_400;

/// The days a window reaches back: a negative count reaches nowhere.
pub open spec fn window_days(days: int) -> int {
    if days > 0 {
        days
    } else {
        0
    }
}

/// The earliest first sighting that still counts, `days` before `now`.
pub fn cutoff(now: i64, days: i64) -> (r: i64)
    requires
        window_days(days as int) * 86_400 <= i64::MAX,
        now - window_days(days as int) * 86_400 >= i64::MIN,
    ensures
        r == now - window_days(days as int) * 86_400,
{
    let d: i64 = if days > 0 {
        days
    } else {
        0
    };
    now - d * DAY
}

/// Whether an address first seen at `first` arrived inside the window. A
/// record with no first sighting (zero) arrived at no known time.
pub open spec fn in_window(first: int, cutoff: int) -> bool {
    !(first < cutoff || first == 0)
}

/// Seen once and never again: first and last sighting within the hour, which
/// is a visit rather than an arrival.
pub fn one_off(first: i64, last: i64) -> (r: bool)
    ensures
        r == (last - first < 3600),
{
    (last as i128) - (first as i128) < 3600
}

/// An adoption time in seconds. The console reports it in milliseconds on
/// some records; any value past the year 5138 in seconds is read as that.
pub fn adoption_seconds(at: i64) -> (r: i64)
    ensures
        r == (if at > 100_000_000_000 {
            at / 1000
        } else {
            at as int
        }),
{
    if at > 100_000_000_000 {
        at / 1000
    } else {
        at
    }
}

/// How one client record fares against the window.
#[derive(Debug, PartialEq, Eq, Clone, Copy)]
pub enum Screening {
    /// First seen before the window, or at no known time.
    Outside,
    /// Inside the window, but its address is randomized and those are hidden.
    Hidden,
    /// Shown, saying whether its address is randomized.
    Shown(bool),
}

/// The record's first sighting, zero when it has none.
pub open spec fn first_seen(k: JsonV) -> int {
    match jint(k, "first_seen"@) {
        Some(n) => n,
        None => 0,
    }
}

/// The record's last sighting, zero when it has none.
pub open spec fn last_seen(k: JsonV) -> int {
    match jint(k, "last_seen"@) {
        Some(n) => n,
        None => 0,
    }
}

/// The record's address, lowercase.
pub open spec fn mac_of(k: JsonV) -> Seq<char> {
    unicode_lower(jtext(k, "mac"@))
}

pub open spec fn screen_spec(k: JsonV, cutoff: int, include_randomized: bool) -> Screening {
    if !in_window(first_seen(k), cutoff) {
        Screening::Outside
    } else if randomized(mac_of(k)) && !include_randomized {
        Screening::Hidden
    } else {
        Screening::Shown(randomized(mac_of(k)))
    }
}

/// Only randomized addresses are ever hidden: a client first seen inside
/// the window whose address is fixed is shown, as not randomized, whether or
/// not randomized addresses are asked for; and asking for them hides nothing.
pub proof fn law_only_randomized_addresses_are_hidden(k: JsonV, cutoff: int, include_randomized: bool)
    ensures
        screen_spec(k, cutoff, include_randomized) == Screening::Hidden ==> randomized(mac_of(k))
            && !include_randomized,
        (jint(k, "first_seen"@) matches Some(n) && n >= cutoff && n != 0) && !randomized(mac_of(k))
            ==> screen_spec(k, cutoff, include_randomized) == Screening::Shown(false),
        screen_spec(k, cutoff, true) != Screening::Hidden,
        (screen_spec(k, cutoff, include_randomized) == Screening::Outside) == (screen_spec(
            k,
            cutoff,
            !include_randomized,
        ) == Screening::Outside),
{
}

fn int_or_zero(k: &Json, key: &str) -> (r: i64)
    ensures
        r == (match jint(k@, key@) {
            Some(n) => n,
            None => 0,
        }),
{
    match k.get(key) {
        Some(Json::Int(n)) => *n,
        _ => 0,
    }
}

/// Whether a client record is an arrival to show, one hidden because its
/// address is randomized, or no arrival at all.
pub fn screen(k: &Json, cutoff: i64, include_randomized: bool) -> (r: Screening)
    ensures
        r == screen_spec(k@, cutoff as int, include_randomized),
{
    let first = int_or_zero(k, "first_seen");
    if first < cutoff || first == 0 {
        return Screening::Outside;
    }
    let mac = to_lowercase(k.text("mac").as_str());
    let rotating = is_randomized(mac.as_str());
    if rotating && !include_randomized {
        Screening::Hidden
    } else {
        Screening::Shown(rotating)
    }
}

pub open spec fn opt_text(o: Option<String>) -> Option<Seq<char>> {
    match o {
        Some(s) => Some(s@),
        None => None,
    }
}

/// The vendor column: the fingerprint first, then the vendor the console
/// resolved itself, then the cached registry lookup.
pub open spec fn vendor_spec(
    printed: Option<Seq<char>>,
    console: Seq<char>,
    cached: Option<Seq<char>>,
) -> Option<Seq<char>> {
    match printed {
        Some(v) => Some(v),
        None => if console.len() > 0 {
            Some(console)
        } else {
            cached
        },
    }
}

fn opt_json(o: Option<String>) -> (r: Json)
    ensures
        r@ == (match opt_text(o) {
            Some(s) => JsonV::Str(s),
            None => JsonV::Null,
        }),
{
    match o {
        Some(s) => Json::Str(s),
        None => Json::Null,
    }
}

pub open spec fn opt_v(o: Option<Seq<char>>) -> JsonV {
    match o {
        Some(s) => JsonV::Str(s),
        None => JsonV::Null,
    }
}

/// The name a record goes by: its name, else its hostname.
pub open spec fn name_spec(k: JsonV) -> Seq<char> {
    if jtext(k, "name"@).len() > 0 {
        jtext(k, "name"@)
    } else {
        jtext(k, "hostname"@)
    }
}

/// One arrival as a row, its two sightings written as UTC instants; `cached`
/// is the registry's vendor for the address, `active` whether it is
/// connected now.
pub open spec fn arrival_spec(
    k: JsonV,
    id: Identity,
    cached: Option<Seq<char>>,
    active: bool,
    min_score: u8,
) -> JsonV {
    let vendor = vendor_spec(opt_text(id.vendor), jtext(k, "oui"@), cached);
    let guessed = (id.device is Some || id.os is Some) && match id.confidence {
        Some(c) => c < min_score,
        None => 0 < min_score,
    };
    JsonV::Obj(
        seq![
            ("name"@, JsonV::Str(name_spec(k))),
            ("firstSeen"@, JsonV::Str(iso8601_text(first_seen(k)))),
            ("lastSeen"@, JsonV::Str(iso8601_text(last_seen(k)))),
            ("link"@, JsonV::Str(if jflag(k, "is_wired"@) { "wired"@ } else { "wireless"@ })),
            ("network"@, JsonV::Str(jtext(k, "last_connection_network_name"@))),
            ("vendor"@, opt_v(vendor)),
            ("device"@, opt_v(opt_text(id.device))),
            ("macAddress"@, JsonV::Str(mac_of(k))),
            ("identified"@, JsonV::Bool(vendor is Some || id.device is Some)),
            ("modelIsAGuess"@, JsonV::Bool(guessed)),
            ("randomized"@, JsonV::Bool(randomized(mac_of(k)))),
            ("activeNow"@, JsonV::Bool(active)),
            ("oneOff"@, JsonV::Bool(last_seen(k) - first_seen(k) < 3600)),
            ("firstSeenEpoch"@, JsonV::Int(first_seen(k))),
        ],
    )
}

fn copy_text(o: &Option<String>) -> (r: Option<String>)
    ensures
        opt_text(r) == opt_text(*o),
{
    match o {
        Some(s) => Some(s.clone()),
        None => None,
    }
}

/// One arrival as a row. Whether it counts as identified is decided by the
/// same cascade that fills the vendor column, so the count under the table
/// can never disagree with the table.
#[verifier::rlimit(40)]
pub fn arrival(
    k: &Json,
    id: &Identity,
    cached: Option<String>,
    active: bool,
    min_score: u8,
) -> (r: Json)
    ensures
        r@ == arrival_spec(k@, *id, opt_text(cached), active, min_score),
{
    let first = int_or_zero(k, "first_seen");
    let last = int_or_zero(k, "last_seen");
    let mac = to_lowercase(k.text("mac").as_str());
    let rotating = is_randomized(mac.as_str());
    let console = k.text("oui");
    let vendor: Option<String> = match &id.vendor {
        Some(v) => Some(v.clone()),
        None => if chars_of(console.as_str()).len() > 0 {
            Some(console)
        } else {
            cached
        },
    };
    assert(opt_text(vendor) == vendor_spec(opt_text(id.vendor), jtext(k@, "oui"@), opt_text(cached)));
    let named = vendor.is_some() || id.device.is_some();
    let guessed = id.is_uncertain(min_score);
    let mut name = k.text("name");
    if chars_of(name.as_str()).len() == 0 {
        name = k.text("hostname");
    }
    let mut m: Vec<(String, Json)> = Vec::new();
    assert(Json::members_view(m@) =~= Seq::<(Seq<char>, JsonV)>::empty());
    put(&mut m, "name", Json::Str(name));
    put(&mut m, "firstSeen", Json::Str(iso8601(first)));
    put(&mut m, "lastSeen", Json::Str(iso8601(last)));
    put(&mut m, "link", Json::Str(String::from_str(if k.flag("is_wired") {
        "wired"
    } else {
        "wireless"
    })));
    put(&mut m, "network", Json::Str(k.text("last_connection_network_name")));
    put(&mut m, "vendor", opt_json(vendor));
    put(&mut m, "device", opt_json(copy_text(&id.device)));
    put(&mut m, "macAddress", Json::Str(mac));
    put(&mut m, "identified", Json::Bool(named));
    put(&mut m, "modelIsAGuess", Json::Bool(guessed));
    put(&mut m, "randomized", Json::Bool(rotating));
    put(&mut m, "activeNow", Json::Bool(active));
    put(&mut m, "oneOff", Json::Bool(one_off(first, last)));
    put(&mut m, "firstSeenEpoch", Json::Int(first));
    let ghost mv = Json::members_view(m@);
    proof {
        reveal_strlit("wired");
        reveal_strlit("wireless");
    }
    assert(mv =~= arrival_spec(
        k@,
        *id,
        opt_text(cached),
        active,
        min_score,
    )->Obj_0);
    Json::Obj(m)
}

/// When a device was adopted, in seconds, if that was inside the window.
pub open spec fn adopted_at_spec(d: JsonV, cutoff: int) -> Option<int> {
    match jint(d, "adopted_at"@) {
        Some(at) => {
            let s = if at > 100_000_000_000 {
                at / 1000
            } else {
                at
            };
            if s < cutoff {
                None
            } else {
                Some(s)
            }
        },
        None => None,
    }
}

/// When a device was adopted, in seconds, if that was inside the window.
pub fn adopted_at(d: &Json, cutoff: i64) -> (r: Option<i64>)
    ensures
        match r {
            Some(s) => adopted_at_spec(d@, cutoff as int) == Some(s as int),
            None => adopted_at_spec(d@, cutoff as int) is None,
        },
{
    match d.get("adopted_at") {
        Some(Json::Int(at)) => {
            let s = adoption_seconds(*at);
            if s < cutoff {
                None
            } else {
                Some(s)
            }
        },
        _ => None,
    }
}

/// A device adopted in the window, as a row; `at` is the adoption time in
/// seconds, written as a UTC instant.
pub open spec fn adopted_spec(d: JsonV, at: int) -> JsonV {
    JsonV::Obj(
        seq![
            ("name"@, crate::json::or_null(jget(d, "name"@))),
            ("model"@, crate::json::or_null(jget(d, "model"@))),
            ("adoptedAt"@, JsonV::Str(iso8601_text(at))),
            ("macAddress"@, crate::json::or_null(jget(d, "mac"@))),
            ("ipAddress"@, crate::json::or_null(jget(d, "ip"@))),
        ],
    )
}

/// A device adopted in the window, as a row.
pub fn adopted(d: &Json, at: i64) -> (r: Json)
    ensures
        r@ == adopted_spec(d@, at as int),
{
    let mut m: Vec<(String, Json)> = Vec::new();
    assert(Json::members_view(m@) =~= Seq::<(Seq<char>, JsonV)>::empty());
    put(&mut m, "name", d.get_or_null("name"));
    put(&mut m, "model", d.get_or_null("model"));
    put(&mut m, "adoptedAt", Json::Str(iso8601(at)));
    put(&mut m, "macAddress", d.get_or_null("mac"));
    put(&mut m, "ipAddress", d.get_or_null("ip"));
    let ghost mv = Json::members_view(m@);
    assert(mv =~= adopted_spec(d@, at as int)->Obj_0);
    Json::Obj(m)
}

/// Whether a row holds `want` under `k`.
pub open spec fn holds(k: Seq<char>, want: JsonV) -> spec_fn(JsonV) -> bool {
    |r: JsonV| jget(r, k) == Some(want)
}

/// What the report under the arrivals counts.
pub struct Tally {
    /// Arrived on a wire: someone reached a port.
    pub wired: usize,
    /// Neither the fingerprint nor a vendor lookup names them.
    pub unnamed: usize,
    /// Carry a model the console is not sure of.
    pub guessed: usize,
    /// Seen once and never again.
    pub visits: usize,
    /// Connected right now.
    pub here: usize,
}

fn count_holding(rows: &Vec<Json>, k: &str, want: &Json) -> (r: usize)
    ensures
        r == count_if(Json::items_view(rows@), holds(k@, want@)),
{
    proof {
        crate::json::lemma_items_view(rows@);
    }
    let ghost rv = Json::items_view(rows@);
    let ghost p = holds(k@, want@);
    let mut n: usize = 0;
    let mut i: usize = 0;
    while i < rows.len()
        invariant
            i <= rows@.len(),
            rv == Json::items_view(rows@),
            rv.len() == rows@.len(),
            forall|j: int| 0 <= j < rv.len() ==> #[trigger] rv[j] == rows@[j]@,
            p == holds(k@, want@),
            n == count_if(rv.take(i as int), p),
            n <= i,
        decreases rows.len() - i,
    {
        assert(rv.take(i + 1).drop_last() =~= rv.take(i as int));
        let hit = match rows[i].get(k) {
            Some(x) => x.same(want),
            None => false,
        };
        assert(hit == p(rv[i as int]));
        if hit {
            n += 1;
        }
        i += 1;
    }
    assert(rv.take(i as int) =~= rv);
    n
}

/// The counts the report under the arrivals gives.
pub fn tally(arrivals: &Vec<Json>) -> (r: Tally)
    ensures
        r.wired == count_if(Json::items_view(arrivals@), holds("link"@, JsonV::Str("wired"@))),
        r.unnamed == count_if(Json::items_view(arrivals@), holds("identified"@, JsonV::Bool(false))),
        r.guessed == count_if(Json::items_view(arrivals@), holds("modelIsAGuess"@, JsonV::Bool(true))),
        r.visits == count_if(Json::items_view(arrivals@), holds("oneOff"@, JsonV::Bool(true))),
        r.here == count_if(Json::items_view(arrivals@), holds("activeNow"@, JsonV::Bool(true))),
{
    Tally {
        wired: count_holding(arrivals, "link", &Json::Str(String::from_str("wired"))),
        unnamed: count_holding(arrivals, "identified", &Json::Bool(false)),
        guessed: count_holding(arrivals, "modelIsAGuess", &Json::Bool(true)),
        visits: count_holding(arrivals, "oneOff", &Json::Bool(true)),
        here: count_holding(arrivals, "activeNow", &Json::Bool(true)),
    }
}


/// The epoch a row was first seen at, zero when it has none.
pub open spec fn epoch_of(r: JsonV) -> int {
    match jint(r, "firstSeenEpoch"@) {
        Some(n) => n,
        None => 0,
    }
}

/// Where a row sorts: the most recent first. The key is the negated epoch,
/// wrapping as machine integers do at the one value with no negation.
pub open spec fn recency_rank(r: JsonV) -> int {
    let e = epoch_of(r);
    (if e == i64::MIN as int {
        e
    } else {
        -e
    }) + 0x8000_0000_0000_0000
}

fn recency_rank_exec(r: &Json) -> (k: u64)
    ensures
        k as int == recency_rank(r@),
{
    let e = int_or_zero(r, "firstSeenEpoch");
    if e == i64::MIN {
        0
    } else if e <= 0 {
        0x8000_0000_0000_0000u64 + ((0 - e) as u64)
    } else {
        0x8000_0000_0000_0000u64 - (e as u64)
    }
}

/// The arrivals, most recent first; rows first seen at the same moment keep
/// their order.
pub open spec fn newest_first_spec(rows: Seq<JsonV>) -> Seq<JsonV> {
    sorted_by_key(
        rows.map_values(|r: JsonV| (recency_rank(r), Seq::<char>::empty(), r)),
    ).map_values(|t: (int, Seq<char>, JsonV)| t.2)
}

/// The arrivals, most recent first.
pub fn newest_first(rows: &Vec<Json>) -> (r: Vec<Json>)
    ensures
        Json::items_view(r@) == newest_first_spec(Json::items_view(rows@)),
{
    proof {
        crate::json::lemma_items_view(rows@);
    }
    let ghost sv = Json::items_view(rows@);
    let ghost want = sv.map_values(|r: JsonV| (recency_rank(r), Seq::<char>::empty(), r));
    let ghost f = |j: Json| j@;
    let ghost g = |y: (int, Seq<char>, Json)| map_item(y, f);
    let mut keyed: Vec<Keyed<Json>> = Vec::new();
    let mut k: usize = 0;
    while k < rows.len()
        invariant
            k <= rows@.len(),
            keyed@.len() == k,
            sv == Json::items_view(rows@),
            sv.len() == rows@.len(),
            forall|j: int| 0 <= j < sv.len() ==> #[trigger] sv[j] == rows@[j]@,
            want == sv.map_values(|r: JsonV| (recency_rank(r), Seq::<char>::empty(), r)),
            f == (|j: Json| j@),
            g == (|y: (int, Seq<char>, Json)| map_item(y, f)),
            kviews(keyed@).map_values(g) == want.take(k as int),
        decreases rows.len() - k,
    {
        let row = rows[k].deep_clone();
        let rank = recency_rank_exec(&row);
        let ghost before = keyed@;
        keyed.push(Keyed { rank, text: String::new(), item: row });
        assert(kviews(keyed@).map_values(g) =~= want.take(k + 1)) by {
            assert(kviews(before).map_values(g) == want.take(k as int));
            assert(kviews(keyed@).map_values(g)[k as int] == want[k as int]);
            assert forall|q: int| 0 <= q < k implies #[trigger] kviews(keyed@).map_values(g)[q]
                == kviews(before).map_values(g)[q] by {
                assert(keyed@[q] == before[q]);
            }
        }
        k += 1;
    }
    assert(want.take(k as int) =~= want);
    let ghost kv = kviews(keyed@);
    let mut sorted = sort_keyed(keyed);
    proof {
        law_sorted_maps_items(kv, f);
    }
    let ghost target = sorted_by_key(want);
    assert(kviews(sorted@).map_values(g) == target);
    let mut out: Vec<Json> = Vec::new();
    let m = sorted.len();
    let mut j: usize = 0;
    while sorted.len() > 0
        invariant
            j + sorted@.len() == m,
            target.len() == m,
            out@.len() == j,
            forall|q: int| 0 <= q < sorted@.len() ==> #[trigger] sorted@[q].item@ == target[j + q].2,
            Json::items_view(out@) == target.take(j as int).map_values(|t: (int, Seq<char>, JsonV)| t.2),
        decreases sorted.len(),
    {
        assert(sorted@[0].item@ == target[j as int].2);
        let ghost first_item = sorted@[0];
        let x = sorted.remove(0);
        assert(x == first_item);
        let ghost before = out@;
        out.push(x.item);
        proof {
            assert(out@.subrange(0, out@.len() - 1) =~= before);
            crate::json::lemma_items_view(out@);
            let b = target.take(j + 1).map_values(|t: (int, Seq<char>, JsonV)| t.2);
            let b0 = target.take(j as int).map_values(|t: (int, Seq<char>, JsonV)| t.2);
            assert(b =~= b0.push(target[j as int].2));
        }
        j += 1;
    }
    assert(target.take(j as int) =~= target);
    out
}


/// The count under the arrivals can never disagree with the table: a row is
/// identified exactly when its vendor column or its device column is filled.
pub proof fn law_identified_matches_columns(
    k: JsonV,
    id: Identity,
    cached: Option<Seq<char>>,
    active: bool,
    min_score: u8,
)
    ensures
        ({
            let r = arrival_spec(k, id, cached, active, min_score);
            jget(r, "identified"@) == Some(
                JsonV::Bool(
                    jget(r, "vendor"@) != Some(JsonV::Null) || jget(r, "device"@) != Some(
                        JsonV::Null,
                    ),
                ),
            )
        }),
{
    reveal_strlit("name");
    reveal_strlit("firstSeen");
    reveal_strlit("lastSeen");
    reveal_strlit("link");
    reveal_strlit("network");
    reveal_strlit("vendor");
    reveal_strlit("device");
    reveal_strlit("macAddress");
    reveal_strlit("identified");
    reveal_strlit("modelIsAGuess");
    reveal_strlit("randomized");
    reveal_strlit("activeNow");
    reveal_strlit("oneOff");
    reveal_strlit("firstSeenEpoch");
    let r = arrival_spec(k, id, cached, active, min_score);
    let m = r->Obj_0;
    assert(m[0].0 != "vendor"@) by {
        assert(m[0].0[0] == 'n');
        assert("vendor"@[0] == 'v');
    }
    assert(m[1].0 != "vendor"@) by {
        assert(m[1].0[0] == 'f');
        assert("vendor"@[0] == 'v');
    }
    assert(m[2].0 != "vendor"@) by {
        assert(m[2].0[0] == 'l');
        assert("vendor"@[0] == 'v');
    }
    assert(m[3].0 != "vendor"@) by {
        assert(m[3].0[0] == 'l');
        assert("vendor"@[0] == 'v');
    }
    assert(m[4].0 != "vendor"@) by {
        assert(m[4].0[0] == 'n');
        assert("vendor"@[0] == 'v');
    }
    crate::json::lemma_member_skip(m, "vendor"@, 5);
    assert(m.subrange(5, 14)[0] == m[5]);
    assert(m[0].0 != "device"@) by {
        assert(m[0].0[0] == 'n');
        assert("device"@[0] == 'd');
    }
    assert(m[1].0 != "device"@) by {
        assert(m[1].0[0] == 'f');
        assert("device"@[0] == 'd');
    }
    assert(m[2].0 != "device"@) by {
        assert(m[2].0[0] == 'l');
        assert("device"@[0] == 'd');
    }
    assert(m[3].0 != "device"@) by {
        assert(m[3].0[0] == 'l');
        assert("device"@[0] == 'd');
    }
    assert(m[4].0 != "device"@) by {
        assert(m[4].0[0] == 'n');
        assert("device"@[0] == 'd');
    }
    assert(m[5].0 != "device"@) by {
        assert(m[5].0[0] == 'v');
        assert("device"@[0] == 'd');
    }
    crate::json::lemma_member_skip(m, "device"@, 6);
    assert(m.subrange(6, 14)[0] == m[6]);
    assert(m[0].0 != "identified"@) by {
        assert(m[0].0[0] == 'n');
        assert("identified"@[0] == 'i');
    }
    assert(m[1].0 != "identified"@) by {
        assert(m[1].0[0] == 'f');
        assert("identified"@[0] == 'i');
    }
    assert(m[2].0 != "identified"@) by {
        assert(m[2].0[0] == 'l');
        assert("identified"@[0] == 'i');
    }
    assert(m[3].0 != "identified"@) by {
        assert(m[3].0[0] == 'l');
        assert("identified"@[0] == 'i');
    }
    assert(m[4].0 != "identified"@) by {
        assert(m[4].0[0] == 'n');
        assert("identified"@[0] == 'i');
    }
    assert(m[5].0 != "identified"@) by {
        assert(m[5].0[0] == 'v');
        assert("identified"@[0] == 'i');
    }
    assert(m[6].0 != "identified"@) by {
        assert(m[6].0[0] == 'd');
        assert("identified"@[0] == 'i');
    }
    assert(m[7].0 != "identified"@) by {
        assert(m[7].0[0] == 'm');
        assert("identified"@[0] == 'i');
    }
    crate::json::lemma_member_skip(m, "identified"@, 8);
    assert(m.subrange(8, 14)[0] == m[8]);
}

} // verus!
