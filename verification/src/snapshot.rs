//! One dated, secret-free record of everything the console holds.
//!
//! Two rules shape the document. Secrets are dropped on write, never on
//! display: every collected resource passes through the redaction before it
//! is stored. And a resource that could not be read is recorded as
//! unavailable, never omitted, so that a comparison cannot mistake a failed
//! fetch for a deletion.

use vstd::prelude::*;
use crate::json::{count_json, count_v, put, Json, JsonV};
use crate::registry::{Resource, Surface};
use crate::secrets::{redact, redacted, secret_count};
use crate::calendar::{compact_stamp, iso8601_text, law_compact_stamps_sort_in_time_order};
use crate::text::{
    decimal, decimal_string, lemma_lex_sign_concat, lemma_lex_sign_reflexive, lex_sign, replace, replace_str,
};

verus! {

/// A resource that was read, with its secrets replaced.
pub open spec fn ok_entry_spec(items: Seq<JsonV>) -> JsonV {
    JsonV::Obj(
        seq![
            ("status"@, JsonV::Str("ok"@)),
            ("count"@, count_v(items.len())),
            ("items"@, redacted(JsonV::Arr(items))),
        ],
    )
}

/// A resource that was read, with its secrets replaced, and how many were.
pub fn ok_entry(items: Vec<Json>) -> (r: (Json, usize))
    requires
        secret_count(JsonV::Arr(Json::items_view(items@))) <= usize::MAX,
    ensures
        r.0@ == ok_entry_spec(Json::items_view(items@)),
        r.1 == secret_count(JsonV::Arr(Json::items_view(items@))),
{
    proof {
        crate::json::lemma_items_view(items@);
    }
    let n = items.len();
    let mut all = Json::Arr(items);
    let removed = redact(&mut all);
    let mut m: Vec<(String, Json)> = Vec::new();
    assert(Json::members_view(m@) =~= Seq::<(Seq<char>, JsonV)>::empty());
    put(&mut m, "status", Json::Str(String::from_str("ok")));
    put(&mut m, "count", count_json(n));
    put(&mut m, "items", all);
    proof {
        reveal_strlit("ok");
    }
    let ghost mv = Json::members_view(m@);
    assert(mv =~= ok_entry_spec(Json::items_view(items@))->Obj_0);
    (Json::Obj(m), removed)
}

/// A resource that could not be read: recorded, with the reason.
pub fn unavailable_entry(error: String) -> (r: Json)
    ensures
        r@ == JsonV::Obj(
            seq![("status"@, JsonV::Str("unavailable"@)), ("error"@, JsonV::Str(error@))],
        ),
{
    let mut m: Vec<(String, Json)> = Vec::new();
    assert(Json::members_view(m@) =~= Seq::<(Seq<char>, JsonV)>::empty());
    put(&mut m, "status", Json::Str(String::from_str("unavailable")));
    put(&mut m, "error", Json::Str(error));
    proof {
        reveal_strlit("unavailable");
    }
    assert(Json::members_view(m@) =~= seq![
        ("status"@, JsonV::Str("unavailable"@)),
        ("error"@, JsonV::Str(error@)),
    ]);
    Json::Obj(m)
}

/// The names of the resources that could not be read, as a JSON array.
pub open spec fn names_v(names: Seq<String>) -> Seq<JsonV> {
    names.map_values(|s: String| JsonV::Str(s@))
}

fn names_json(names: &Vec<String>) -> (r: Json)
    ensures
        r@ == JsonV::Arr(names_v(names@)),
{
    let mut out: Vec<Json> = Vec::new();
    let mut i: usize = 0;
    while i < names.len()
        invariant
            i <= names@.len(),
            Json::items_view(out@) == names_v(names@.take(i as int)),
            out@.len() == i,
        decreases names.len() - i,
    {
        let ghost before = out@;
        out.push(Json::Str(names[i].clone()));
        proof {
            assert(out@.subrange(0, out@.len() - 1) =~= before);
            crate::json::lemma_items_view(out@);
            assert(names@.take(i + 1) =~= names@.take(i as int).push(names@[i as int]));
            assert(names_v(names@.take(i + 1)) =~= names_v(names@.take(i as int)).push(
                JsonV::Str(names@[i as int]@),
            ));
        }
        i += 1;
    }
    assert(names@.take(i as int) =~= names@);
    Json::Arr(out)
}

/// What a snapshot says about its own collection.
pub open spec fn collection_spec(
    total: nat,
    collected: nat,
    unavailable: Seq<String>,
    redacted_count: nat,
) -> JsonV {
    JsonV::Obj(
        seq![
            ("resources"@, count_v(total)),
            ("collected"@, count_v(collected)),
            ("unavailable"@, JsonV::Arr(names_v(unavailable))),
            ("secretsRedacted"@, count_v(redacted_count)),
        ],
    )
}

/// What a snapshot says about its own collection.
pub fn collection(total: usize, collected: usize, unavailable: &Vec<String>, redacted_count: usize) -> (r: Json)
    ensures
        r@ == collection_spec(total as nat, collected as nat, unavailable@, redacted_count as nat),
{
    let mut m: Vec<(String, Json)> = Vec::new();
    assert(Json::members_view(m@) =~= Seq::<(Seq<char>, JsonV)>::empty());
    put(&mut m, "resources", count_json(total));
    put(&mut m, "collected", count_json(collected));
    put(&mut m, "unavailable", names_json(unavailable));
    put(&mut m, "secretsRedacted", count_json(redacted_count));
    let ghost mv = Json::members_view(m@);
    assert(mv =~= collection_spec(
        total as nat,
        collected as nat,
        unavailable@,
        redacted_count as nat,
    )->Obj_0);
    Json::Obj(m)
}

/// The whole document: its format version, when it was taken, which console
/// and site it describes, how the collection went, and every resource by name.
pub open spec fn document_spec(
    taken_at: Seq<char>,
    host: Seq<char>,
    site: Seq<char>,
    legacy: Seq<char>,
    collection: JsonV,
    resources: Seq<(Seq<char>, JsonV)>,
) -> JsonV {
    JsonV::Obj(
        seq![
            ("version"@, JsonV::Int(1)),
            ("takenAt"@, JsonV::Str(taken_at)),
            ("console"@, JsonV::Obj(
                seq![
                    ("host"@, JsonV::Str(host)),
                    ("site"@, JsonV::Str(site)),
                    ("legacySite"@, JsonV::Str(legacy)),
                ],
            )),
            ("collection"@, collection),
            ("resources"@, JsonV::Obj(resources)),
        ],
    )
}

/// The whole document. `taken_at` is the time as the program prints times;
/// `resources` holds one entry per resource, by name.
pub fn document(
    taken_at: String,
    host: String,
    site: String,
    legacy: String,
    collection: Json,
    resources: Vec<(String, Json)>,
) -> (r: Json)
    ensures
        r@ == document_spec(
            taken_at@,
            host@,
            site@,
            legacy@,
            collection@,
            Json::members_view(resources@),
        ),
{
    let mut console: Vec<(String, Json)> = Vec::new();
    assert(Json::members_view(console@) =~= Seq::<(Seq<char>, JsonV)>::empty());
    put(&mut console, "host", Json::Str(host));
    put(&mut console, "site", Json::Str(site));
    put(&mut console, "legacySite", Json::Str(legacy));
    let ghost cv = Json::members_view(console@);
    let mut m: Vec<(String, Json)> = Vec::new();
    assert(Json::members_view(m@) =~= Seq::<(Seq<char>, JsonV)>::empty());
    put(&mut m, "version", Json::Int(1));
    put(&mut m, "takenAt", Json::Str(taken_at));
    put(&mut m, "console", Json::Obj(console));
    put(&mut m, "collection", collection);
    let ghost rv = Json::members_view(resources@);
    put(&mut m, "resources", Json::Obj(resources));
    let ghost mv = Json::members_view(m@);
    assert(cv =~= seq![
        ("host"@, JsonV::Str(host@)),
        ("site"@, JsonV::Str(site@)),
        ("legacySite"@, JsonV::Str(legacy@)),
    ]);
    assert(mv =~= document_spec(taken_at@, host@, site@, legacy@, collection@, rv)->Obj_0);
    Json::Obj(m)
}

/// How a surface is named in the catalogue.
pub open spec fn surface_name(s: Surface) -> Seq<char> {
    match s {
        Surface::Integration => "integration"@,
        Surface::Legacy => "legacy"@,
        Surface::V2 => "v2"@,
    }
}

/// One line of the catalogue of what a snapshot collects.
pub fn catalogue_row(r: &Resource) -> (out: Json)
    ensures
        out@ == JsonV::Obj(
            seq![
                ("name"@, JsonV::Str(r.name@)),
                ("surface"@, JsonV::Str(surface_name(r.surface))),
                ("path"@, JsonV::Str(r.path@)),
                ("about"@, JsonV::Str(r.about@)),
            ],
        ),
{
    let surface = match r.surface {
        Surface::Integration => "integration",
        Surface::Legacy => "legacy",
        Surface::V2 => "v2",
    };
    let mut m: Vec<(String, Json)> = Vec::new();
    assert(Json::members_view(m@) =~= Seq::<(Seq<char>, JsonV)>::empty());
    put(&mut m, "name", Json::Str(String::from_str(r.name)));
    put(&mut m, "surface", Json::Str(String::from_str(surface)));
    put(&mut m, "path", Json::Str(String::from_str(r.path)));
    put(&mut m, "about", Json::Str(String::from_str(r.about)));
    proof {
        reveal_strlit("integration");
        reveal_strlit("legacy");
        reveal_strlit("v2");
    }
    assert(Json::members_view(m@) =~= seq![
        ("name"@, JsonV::Str(r.name@)),
        ("surface"@, JsonV::Str(surface_name(r.surface))),
        ("path"@, JsonV::Str(r.path@)),
        ("about"@, JsonV::Str(r.about@)),
    ]);
    Json::Obj(m)
}

/// The file name of a snapshot taken at `taken_at`: the time without its
/// colons, so that names sort by time and are valid everywhere.
pub fn file_name(taken_at: &str) -> (r: String)
    ensures
        r@ == replace(taken_at@, ":"@, ""@) + ".json"@,
{
    proof {
        reveal_strlit(":");
    }
    let mut n = replace_str(taken_at, ":", "");
    n.append(".json");
    n
}

/// One stored snapshot, as a row: its name and its size in whole kilobytes.
pub fn stored_row(name: String, size: u64) -> (r: Json)
    ensures
        r@ == JsonV::Obj(
            seq![("snapshot"@, JsonV::Str(name@)), ("kb"@, JsonV::Int((size / 1024) as int))],
        ),
{
    let mut m: Vec<(String, Json)> = Vec::new();
    assert(Json::members_view(m@) =~= Seq::<(Seq<char>, JsonV)>::empty());
    put(&mut m, "snapshot", Json::Str(name));
    put(&mut m, "kb", Json::Int((size / 1024) as i64));
    assert(Json::members_view(m@) =~= seq![
        ("snapshot"@, JsonV::Str(name@)),
        ("kb"@, JsonV::Int((size / 1024) as int)),
    ]);
    Json::Obj(m)
}

/// The summary printed after a snapshot is written.
pub fn summary(taken_at: String, collected: usize, total: usize, removed: usize, size: u64) -> (r: Vec<
    (&'static str, String),
>)
    ensures
        r@.map_values(|p: (&'static str, String)| (p.0@, p.1@)) == seq![
            ("taken"@, taken_at@),
            ("resources"@, decimal(collected as nat) + " of "@ + decimal(total as nat)),
            ("secrets removed"@, decimal(removed as nat)),
            ("size"@, decimal((size / 1024) as nat) + " KB"@),
        ],
{
    let mut res = decimal_string(collected as u64);
    res.append(" of ");
    let t = decimal_string(total as u64);
    res.append(t.as_str());
    let mut kb = decimal_string(size / 1024);
    kb.append(" KB");
    let mut out: Vec<(&'static str, String)> = Vec::new();
    out.push(("taken", taken_at));
    out.push(("resources", res));
    out.push(("secrets removed", decimal_string(removed as u64)));
    out.push(("size", kb));
    assert(out@.map_values(|p: (&'static str, String)| (p.0@, p.1@)) =~= seq![
        ("taken"@, taken_at@),
        ("resources"@, decimal(collected as nat) + " of "@ + decimal(total as nat)),
        ("secrets removed"@, decimal(removed as nat)),
        ("size"@, decimal((size / 1024) as nat) + " KB"@),
    ]);
    out
}


/// How the collection of one resource went, as values: its items, or the
/// reason it could not be read.
pub open spec fn outcome_v(o: Result<Vec<Json>, String>) -> Result<Seq<JsonV>, Seq<char>> {
    match o {
        Ok(items) => Ok(Json::items_view(items@)),
        Err(e) => Err(e@),
    }
}

/// The entry a resource is recorded under, for how its collection went.
pub open spec fn entry_spec(o: Result<Seq<JsonV>, Seq<char>>) -> JsonV {
    match o {
        Ok(items) => ok_entry_spec(items),
        Err(e) => JsonV::Obj(seq![("status"@, JsonV::Str("unavailable"@)), ("error"@, JsonV::Str(e))]),
    }
}

/// How many secrets the collected resources hold in all.
pub open spec fn secrets_in(os: Seq<Result<Seq<JsonV>, Seq<char>>>) -> nat
    decreases os.len(),
{
    if os.len() == 0 {
        0
    } else {
        secrets_in(os.drop_last()) + match os.last() {
            Ok(items) => secret_count(JsonV::Arr(items)),
            Err(_) => 0,
        }
    }
}

/// How many resources were read.
pub open spec fn read_count(os: Seq<Result<Seq<JsonV>, Seq<char>>>) -> nat
    decreases os.len(),
{
    if os.len() == 0 {
        0
    } else {
        read_count(os.drop_last()) + if os.last() is Ok {
            1nat
        } else {
            0nat
        }
    }
}

/// The names of the resources that could not be read, in order.
pub open spec fn unread(names: Seq<Seq<char>>, os: Seq<Result<Seq<JsonV>, Seq<char>>>) -> Seq<Seq<char>>
    decreases os.len(),
{
    if os.len() == 0 || names.len() != os.len() {
        Seq::empty()
    } else {
        unread(names.drop_last(), os.drop_last()) + if os.last() is Err {
            seq![names.last()]
        } else {
            Seq::empty()
        }
    }
}

/// The resources of a snapshot, and what its collection summary counts.
pub struct Collected {
    /// One entry per resource, by name, in catalogue order.
    pub resources: Vec<(String, Json)>,
    pub read: usize,
    pub unavailable: Vec<String>,
    pub redacted: usize,
}

/// Record every resource: one read is stored with its secrets replaced, one
/// that failed is stored as unavailable with its reason. None is ever left
/// out, so a comparison cannot mistake a failed fetch for a deletion.
pub fn record_all(names: &Vec<String>, outcomes: Vec<Result<Vec<Json>, String>>) -> (r: Collected)
    requires
        names@.len() == outcomes@.len(),
        secrets_in(outcomes@.map_values(|o: Result<Vec<Json>, String>| outcome_v(o))) <= usize::MAX,
    ensures
        ({
            let os = outcomes@.map_values(|o: Result<Vec<Json>, String>| outcome_v(o));
            &&& Json::members_view(r.resources@) == Seq::new(
                names@.len(),
                |i: int| (names@[i]@, entry_spec(os[i])),
            )
            &&& r.read == read_count(os)
            &&& r.unavailable@.map_values(|s: String| s@) == unread(
                names@.map_values(|s: String| s@),
                os,
            )
            &&& r.redacted == secrets_in(os)
        }),
{
    let ghost os = outcomes@.map_values(|o: Result<Vec<Json>, String>| outcome_v(o));
    let ghost nv = names@.map_values(|s: String| s@);
    let ghost want = Seq::new(names@.len(), |i: int| (names@[i]@, entry_spec(os[i])));
    let mut resources: Vec<(String, Json)> = Vec::new();
    let mut read: usize = 0;
    let mut unavailable: Vec<String> = Vec::new();
    let mut redacted_total: usize = 0;
    let mut rest = outcomes;
    let n = names.len();
    let mut k: usize = 0;
    proof {
        assert(os.take(0) =~= Seq::<Result<Seq<JsonV>, Seq<char>>>::empty());
        assert(nv.take(0) =~= Seq::<Seq<char>>::empty());
        assert(Json::members_view(resources@) =~= want.take(0));
    }
    while k < n
        invariant
            n == names@.len(),
            k <= n,
            k + rest@.len() == n,
            os.len() == n,
            nv == names@.map_values(|s: String| s@),
            want == Seq::new(names@.len(), |i: int| (names@[i]@, entry_spec(os[i]))),
            forall|j: int| 0 <= j < rest@.len() ==> outcome_v(#[trigger] rest@[j]) == os[k + j],
            Json::members_view(resources@) == want.take(k as int),
            read == read_count(os.take(k as int)),
            read <= k,
            unavailable@.map_values(|s: String| s@) == unread(nv.take(k as int), os.take(k as int)),
            redacted_total == secrets_in(os.take(k as int)),
            secrets_in(os) <= usize::MAX,
        decreases n - k,
    {
        proof {
            assert(os.take(k + 1).drop_last() =~= os.take(k as int));
            assert(nv.take(k + 1).drop_last() =~= nv.take(k as int));
            assert(os.take(k + 1).last() == os[k as int]);
            assert(nv.take(k + 1).last() == names@[k as int]@);
            lemma_secrets_prefix(os, k + 1);
        }
        let o = rest.remove(0);
        assert(outcome_v(o) == os[k as int]);
        let name = names[k].clone();
        let ghost before_res = resources@;
        let ghost before_un = unavailable@;
        match o {
            Ok(items) => {
                let (entry, removed) = ok_entry(items);
                resources.push((name, entry));
                read = read + 1;
                redacted_total = redacted_total + removed;
                proof {
                    assert(unavailable@.map_values(|s: String| s@) =~= unread(
                        nv.take(k + 1),
                        os.take(k + 1),
                    ));
                }
            },
            Err(e) => {
                let entry = unavailable_entry(e);
                resources.push((name, entry));
                unavailable.push(names[k].clone());
                proof {
                    crate::text::lemma_map_push(before_un, unavailable@.last(), |s: String| s@);
                    assert(unavailable@.map_values(|s: String| s@) =~= unread(
                        nv.take(k + 1),
                        os.take(k + 1),
                    ));
                }
            },
        }
        proof {
            assert(resources@.subrange(0, resources@.len() - 1) =~= before_res);
            crate::json::lemma_members_view(resources@);
            assert(Json::members_view(resources@) =~= want.take(k + 1));
        }
        k += 1;
    }
    proof {
        assert(os.take(n as int) =~= os);
        assert(nv.take(n as int) =~= nv);
        assert(want.take(n as int) =~= want);
    }
    Collected { resources, read, unavailable, redacted: redacted_total }
}

proof fn lemma_secrets_prefix(os: Seq<Result<Seq<JsonV>, Seq<char>>>, k: int)
    requires
        0 <= k <= os.len(),
    ensures
        secrets_in(os.take(k)) <= secrets_in(os),
    decreases os.len(),
{
    if k < os.len() {
        assert(os.drop_last().take(k) =~= os.take(k));
        lemma_secrets_prefix(os.drop_last(), k);
    } else {
        assert(os.take(k) =~= os);
    }
}


/// Where the snapshots of one console are kept, under the cache directory:
/// the host made safe for a file name, so two consoles never share one.
pub fn snapshot_dir(host: &str) -> (r: String)
    ensures
        r@ == "snapshots/"@ + crate::enrich::safe_name(host@),
{
    let mut d = String::from_str("snapshots/");
    let safe = crate::enrich::safe_host(host);
    d.append(safe.as_str());
    d
}

/// Where a snapshot taken at `taken_at` is written unless told otherwise,
/// under the cache directory.
pub fn default_path(host: &str, taken_at: &str) -> (r: String)
    ensures
        r@ == "snapshots/"@ + crate::enrich::safe_name(host@) + "/"@ + replace(taken_at@, ":"@, ""@)
            + ".json"@,
{
    let mut p = snapshot_dir(host);
    p.append("/");
    let f = file_name(taken_at);
    p.append(f.as_str());
    p
}

/// Snapshots named from the instant they were taken sort by name into the
/// order they were taken, which is what picking the two latest relies on;
/// for the years 0000 to 9999, which are written with four digits.
pub proof fn law_file_names_sort_by_time(s1: int, s2: int)
    requires
        -62167219200 <= s1 < s2 < 253402300800,
    ensures
        lex_sign(
            replace(iso8601_text(s1), ":"@, ""@) + ".json"@,
            replace(iso8601_text(s2), ":"@, ""@) + ".json"@,
        ) == -1,
{
    reveal_strlit(":");
    reveal_strlit("");
    assert(":"@ =~= seq![':']);
    assert(""@ =~= Seq::<char>::empty());
    law_compact_stamps_sort_in_time_order(s1, s2);
    let c1 = compact_stamp(s1);
    let c2 = compact_stamp(s2);
    if c1 == c2 {
        lemma_lex_sign_reflexive(c1);
    }
    lemma_lex_sign_concat(c1, ".json"@, c2, ".json"@);
}

} // verus!
