//! What changed between two snapshots.
//!
//! * **Inventory is compared by presence, configuration field by field.** A
//!   client's counters change every time anything is measured; comparing
//!   those field by field would bury one new device under a thousand
//!   meaningless deltas.
//! * **A resource that was unavailable in either snapshot is not
//!   comparable.** Never "everything disappeared".
//! * **Two snapshots of different consoles are refused**, on the identity
//!   the console reports rather than on the address it answered at.

use vstd::prelude::*;
use crate::json::{jget, jget2, jitems, jstr, put, Json, JsonV};
use crate::json_text::json_text;
use crate::sort::{kview, kviews, law_sorted_maps_items, map_item, sort_keyed, sorted_by_key, Keyed};
use crate::table::{keys_ascending, lookup, put_sorted, view_at};
use crate::registry::{catalogue, resources, Surface};
use crate::text::{chars_of, join, join_strings, str_eq, string_of};

verus! {

/// How an identifying field reads as a key: a string as itself, anything
/// else as its JSON text.
pub open spec fn key_text(v: JsonV) -> Seq<char> {
    match v {
        JsonV::Str(s) => s,
        _ => json_text(v),
    }
}

/// The key of an item, when it carries the identifying field.
pub open spec fn item_key(i: JsonV, key: Seq<char>) -> Option<Seq<char>> {
    match jget(i, key) {
        Some(x) => Some(key_text(x)),
        None => None,
    }
}

/// The last item whose key is `k`.
pub open spec fn last_item(items: Seq<JsonV>, key: Seq<char>, k: Seq<char>) -> Option<JsonV>
    decreases items.len(),
{
    if items.len() == 0 {
        None
    } else if item_key(items.last(), key) == Some(k) {
        Some(items.last())
    } else {
        last_item(items.drop_last(), key, k)
    }
}

/// Whether `t` indexes the items of `resource` by `key`: in key order, each
/// key once, the later item winning where two share one.
pub open spec fn indexes(t: Seq<(String, Json)>, resource: JsonV, key: Seq<char>) -> bool {
    &&& keys_ascending(t)
    &&& forall|k: Seq<char>| #[trigger] view_at(t, k) == last_item(jitems(resource, "items"@), key, k)
}

fn key_of(v: &Json) -> (r: String)
    ensures
        r@ == key_text(v@),
{
    match v {
        Json::Str(s) => s.clone(),
        _ => v.to_text(),
    }
}

/// Items of one resource, by their identifying field.
pub fn index(resource: &Json, key: &str) -> (r: Vec<(String, Json)>)
    ensures
        indexes(r@, resource@, key@),
{
    let mut out: Vec<(String, Json)> = Vec::new();
    match resource.get("items") {
        Some(Json::Arr(items)) => {
            proof {
                crate::json::lemma_items_view(items@);
            }
            let ghost iv = Json::items_view(items@);
            let mut k: usize = 0;
            while k < items.len()
                invariant
                    k <= items@.len(),
                    iv == Json::items_view(items@),
                    jitems(resource@, "items"@) == iv,
                    iv.len() == items@.len(),
                    forall|j: int| 0 <= j < iv.len() ==> #[trigger] iv[j] == items@[j]@,
                    keys_ascending(out@),
                    forall|q: Seq<char>| #[trigger]
                        view_at(out@, q) == last_item(iv.take(k as int), key@, q),
                decreases items.len() - k,
            {
                let item = &items[k];
                assert(iv.take(k + 1).drop_last() =~= iv.take(k as int));
                assert(iv.take(k + 1).last() == item@);
                let ghost before = out@;
                match item.get(key) {
                    Some(x) => {
                        let kk = key_of(x);
                        let ghost kv = kk@;
                        put_sorted(&mut out, kk, item.deep_clone());
                        assert forall|q: Seq<char>| #[trigger]
                            view_at(out@, q) == last_item(iv.take(k + 1), key@, q) by {
                            assert(view_at(before, q) == last_item(iv.take(k as int), key@, q));
                            if q == kv {
                                assert(lookup(out@, q) is Some);
                            }
                        }
                    },
                    None => {
                        assert forall|q: Seq<char>| #[trigger]
                            view_at(out@, q) == last_item(iv.take(k + 1), key@, q) by {
                            assert(view_at(before, q) == last_item(iv.take(k as int), key@, q));
                        }
                    },
                }
                k += 1;
            }
            assert(iv.take(k as int) =~= iv);
        },
        _ => {},
    }
    out
}

/// Whether a string has something in it.
pub open spec fn filled(s: Option<Seq<char>>) -> bool {
    s matches Some(x) && x.len() > 0
}

/// Something a person can recognise, falling back to the identifier.
pub open spec fn label_spec(item: JsonV, k: Seq<char>) -> Seq<char> {
    if filled(jstr(item, "name"@)) {
        jstr(item, "name"@)->0
    } else if filled(jstr(item, "hostname"@)) {
        jstr(item, "hostname"@)->0
    } else if filled(jstr(item, "essid"@)) {
        jstr(item, "essid"@)->0
    } else if filled(jstr(item, "key"@)) {
        jstr(item, "key"@)->0
    } else {
        k
    }
}

fn filled_at<'a>(item: &'a Json, field: &str) -> (r: Option<&'a String>)
    ensures
        match r {
            Some(s) => filled(jstr(item@, field@)) && jstr(item@, field@) == Some(s@),
            None => !filled(jstr(item@, field@)),
        },
{
    match item.str_at(field) {
        Some(s) => if chars_of(s.as_str()).len() > 0 {
            Some(s)
        } else {
            None
        },
        None => None,
    }
}

/// Something a person can recognise, falling back to the identifier.
pub fn label(item: &Json, key: &str) -> (r: String)
    ensures
        r@ == label_spec(item@, key@),
{
    if let Some(s) = filled_at(item, "name") {
        return s.clone();
    }
    if let Some(s) = filled_at(item, "hostname") {
        return s.clone();
    }
    if let Some(s) = filled_at(item, "essid") {
        return s.clone();
    }
    if let Some(s) = filled_at(item, "key") {
        return s.clone();
    }
    String::from_str(key)
}

/// A value as a change shows it, clipped to 40 characters.
pub open spec fn brief_spec(v: Option<JsonV>) -> Seq<char> {
    let s = match v {
        None => "absent"@,
        Some(JsonV::Null) => "absent"@,
        Some(JsonV::Str(s)) => s,
        Some(o) => json_text(o),
    };
    if s.len() > 40 {
        s.take(39).push('…')
    } else {
        s
    }
}

/// A value as a change shows it, clipped to 40 characters.
pub fn brief(v: Option<&Json>) -> (r: String)
    ensures
        r@ == brief_spec(
            match v {
                Some(x) => Some(x@),
                None => None,
            },
        ),
{
    let s = match v {
        None => String::from_str("absent"),
        Some(Json::Null) => String::from_str("absent"),
        Some(Json::Str(s)) => s.clone(),
        Some(o) => o.to_text(),
    };
    let cs = chars_of(s.as_str());
    if cs.len() > 40 {
        let mut out: Vec<char> = Vec::new();
        let mut i: usize = 0;
        while i < 39
            invariant
                i <= 39,
                cs.len() > 40,
                out@ == cs@.take(i as int),
            decreases 39 - i,
        {
            out.push(cs[i]);
            assert(cs@.take(i + 1) =~= cs@.take(i as int).push(cs@[i as int]));
            i += 1;
        }
        out.push('…');
        string_of(&out)
    } else {
        s
    }
}

/// The members a document holds, by name, when it is an object.
pub open spec fn has_member(v: JsonV, k: Seq<char>) -> bool {
    match v {
        JsonV::Obj(m) => named_within(m, m.len() as int, k),
        _ => false,
    }
}

/// Whether one of the first `n` members is named `k`.
pub open spec fn named_within(m: Seq<(Seq<char>, JsonV)>, n: int, k: Seq<char>) -> bool {
    exists|i: int| 0 <= i < n && i < m.len() && #[trigger] m[i].0 == k
}

/// Whether a field holds the same value on both sides (or is missing on
/// both): values compare as JSON values, numbers by value.
pub open spec fn field_unchanged(x: Option<JsonV>, y: Option<JsonV>) -> bool {
    match (x, y) {
        (None, None) => true,
        (Some(a), Some(b)) => crate::json::json_eq(a, b),
        _ => false,
    }
}

/// The delta of one field, when the two sides differ.
pub open spec fn delta(before: JsonV, after: JsonV, f: Seq<char>) -> Seq<Seq<char>> {
    if field_unchanged(jget(before, f), jget(after, f)) {
        Seq::empty()
    } else {
        seq![f + ": "@ + brief_spec(jget(before, f)) + " -> "@ + brief_spec(jget(after, f))]
    }
}

/// The deltas of the fields `names`, in order.
pub open spec fn deltas(before: JsonV, after: JsonV, names: Seq<Seq<char>>) -> Seq<Seq<char>>
    decreases names.len(),
{
    if names.len() == 0 {
        Seq::empty()
    } else {
        deltas(before, after, names.drop_last()) + delta(before, after, names.last())
    }
}

/// Whether `ns` lists the fields compared: `watch` where it names any, else
/// every member of either side, once each, in order.
pub open spec fn compared_fields(before: JsonV, after: JsonV, watch: Seq<Seq<char>>, ns: Seq<Seq<char>>) -> bool {
    if watch.len() > 0 {
        ns == watch
    } else {
        &&& forall|a: int, b: int|
            0 <= a < b < ns.len() ==> crate::text::lex_sign(#[trigger] ns[a], #[trigger] ns[b]) < 0
        &&& forall|x: Seq<char>| #[trigger] ns.contains(x) <==> (has_member(before, x) || has_member(after, x))
    }
}

/// Strictly ascending names.
pub open spec fn ascending_names(ns: Seq<Seq<char>>) -> bool {
    forall|a: int, b: int| 0 <= a < b < ns.len() ==> crate::text::lex_sign(#[trigger] ns[a], #[trigger] ns[b]) < 0
}

/// Two strictly ascending lists of the same names are the same list.
pub proof fn lemma_ascending_unique(a: Seq<Seq<char>>, b: Seq<Seq<char>>)
    requires
        ascending_names(a),
        ascending_names(b),
        forall|x: Seq<char>| #[trigger] a.contains(x) <==> b.contains(x),
    ensures
        a == b,
    decreases a.len(),
{
    if a.len() == 0 {
        if b.len() > 0 {
            assert(b.contains(b[0]));
            assert(a.contains(b[0]));
            assert(false);
        }
        assert(a =~= b);
    } else {
        assert(a.contains(a[0]));
        assert(b.contains(a[0]));
        assert(b.len() > 0);
        assert(b.contains(b[0]));
        assert(a.contains(b[0]));
        let j = choose|j: int| 0 <= j < b.len() && b[j] == a[0];
        let i = choose|i: int| 0 <= i < a.len() && a[i] == b[0];
        if j > 0 && i > 0 {
            assert(crate::text::lex_sign(b[0], b[j]) < 0);
            assert(crate::text::lex_sign(a[0], a[i]) < 0);
            crate::text::lemma_lex_sign_antisymmetric(a[0], b[0]);
        } else if j > 0 {
            assert(crate::text::lex_sign(b[0], b[j]) < 0);
            crate::text::lemma_lex_sign_reflexive(a[0]);
        } else if i > 0 {
            assert(crate::text::lex_sign(a[0], a[i]) < 0);
            crate::text::lemma_lex_sign_reflexive(b[0]);
        }
        assert(a[0] == b[0]);
        let a1 = a.drop_first();
        let b1 = b.drop_first();
        assert forall|x: Seq<char>| #[trigger] a1.contains(x) <==> b1.contains(x) by {
            if a1.contains(x) {
                let p = choose|p: int| 0 <= p < a1.len() && a1[p] == x;
                assert(a[p + 1] == x);
                assert(crate::text::lex_sign(a[0], a[p + 1]) < 0);
                crate::text::lemma_lex_sign_reflexive(a[0]);
                assert(a.contains(x));
                assert(b.contains(x));
                let q = choose|q: int| 0 <= q < b.len() && b[q] == x;
                assert(q != 0);
                assert(b1[q - 1] == x);
            }
            if b1.contains(x) {
                let p = choose|p: int| 0 <= p < b1.len() && b1[p] == x;
                assert(b[p + 1] == x);
                assert(crate::text::lex_sign(b[0], b[p + 1]) < 0);
                crate::text::lemma_lex_sign_reflexive(b[0]);
                assert(b.contains(x));
                assert(a.contains(x));
                let q = choose|q: int| 0 <= q < a.len() && a[q] == x;
                assert(q != 0);
                assert(a1[q - 1] == x);
            }
        }
        assert forall|p: int, q: int| 0 <= p < q < a1.len() implies crate::text::lex_sign(#[trigger] a1[p], #[trigger] a1[q]) < 0 by {
            assert(a1[p] == a[p + 1] && a1[q] == a[q + 1]);
        }
        assert forall|p: int, q: int| 0 <= p < q < b1.len() implies crate::text::lex_sign(#[trigger] b1[p], #[trigger] b1[q]) < 0 by {
            assert(b1[p] == b[p + 1] && b1[q] == b[q + 1]);
        }
        lemma_ascending_unique(a1, b1);
        assert(a =~= seq![a[0]] + a1);
        assert(b =~= seq![b[0]] + b1);
    }
}

/// The fields compared: those `watch` names, else every member of either
/// side in name order.
pub open spec fn field_names(before: JsonV, after: JsonV, watch: Seq<Seq<char>>) -> Seq<Seq<char>> {
    choose|ns: Seq<Seq<char>>| compared_fields(before, after, watch, ns)
}

/// The field deltas between two records.
pub open spec fn fields_spec(before: JsonV, after: JsonV, watch: Seq<Seq<char>>) -> Seq<Seq<char>> {
    deltas(before, after, field_names(before, after, watch))
}

fn add_members(t: &mut Vec<(String, ())>, v: &Json)
    requires
        keys_ascending(old(t)@),
    ensures
        keys_ascending(final(t)@),
        forall|x: Seq<char>| #[trigger]
            lookup(final(t)@, x) is Some <==> (lookup(old(t)@, x) is Some || has_member(v@, x)),
{
    match v {
        Json::Obj(m) => {
            proof {
                crate::json::lemma_members_view(m@);
            }
            let ghost start = t@;
            let ghost mv = Json::members_view(m@);
            let mut i: usize = 0;
            while i < m.len()
                invariant
                    i <= m@.len(),
                    mv == Json::members_view(m@),
                    v@ == JsonV::Obj(mv),
                    mv.len() == m@.len(),
                    forall|j: int| 0 <= j < m@.len() ==> #[trigger] mv[j] == (m@[j].0@, m@[j].1@),
                    keys_ascending(t@),
                    forall|x: Seq<char>| #[trigger]
                        lookup(t@, x) is Some <==> (lookup(start, x) is Some || named_within(mv, i as int, x)),
                decreases m.len() - i,
            {
                let ghost before = t@;
                put_sorted(t, m[i].0.clone(), ());
                assert forall|x: Seq<char>| #[trigger]
                    lookup(t@, x) is Some <==> (lookup(start, x) is Some || named_within(mv, i + 1, x)) by {
                    assert(lookup(before, x) is Some <==> (lookup(start, x) is Some || named_within(mv, i as int, x)));
                    if x == mv[i as int].0 {
                        assert(named_within(mv, i + 1, x));
                    }
                    if named_within(mv, i + 1, x) {
                        let j = choose|j: int| 0 <= j < i + 1 && j < mv.len() && #[trigger] mv[j].0 == x;
                        if j < i {
                            assert(named_within(mv, i as int, x));
                        }
                    }
                }
                i += 1;
            }
        },
        _ => {},
    }
}

/// The fields that differ, as `name: old -> new`: those of `watch` where it
/// names any, else every member of either side, in name order.
pub fn fields(before: &Json, after: &Json, watch: &Vec<String>) -> (r: Vec<String>)
    ensures
        r@.map_values(|s: String| s@) == fields_spec(before@, after@, watch@.map_values(|s: String| s@)),
{
    let mut names: Vec<String> = Vec::new();
    if watch.len() > 0 {
        let mut i: usize = 0;
        while i < watch.len()
            invariant
                i <= watch@.len(),
                names@.len() == i,
                names@.map_values(|s: String| s@) == watch@.take(i as int).map_values(|s: String| s@),
            decreases watch.len() - i,
        {
            let ghost before_names = names@;
            names.push(watch[i].clone());
            proof {
                crate::text::lemma_map_push(before_names, watch@[i as int], |s: String| s@);
                crate::text::lemma_map_push(watch@.take(i as int), watch@[i as int], |s: String| s@);
                assert(watch@.take(i + 1) =~= watch@.take(i as int).push(watch@[i as int]));
            }
            i += 1;
        }
        assert(watch@.take(i as int) =~= watch@);
    } else {
        let mut t: Vec<(String, ())> = Vec::new();
        add_members(&mut t, before);
        add_members(&mut t, after);
        proof {
            crate::table::lemma_ascending_distinct(t@);
        }
        let mut i: usize = 0;
        while i < t.len()
            invariant
                i <= t@.len(),
                names@.len() == i,
                names@.map_values(|s: String| s@) == t@.take(i as int).map_values(|e: (String, ())| e.0@),
            decreases t.len() - i,
        {
            let ghost before_names = names@;
            names.push(t[i].0.clone());
            proof {
                crate::text::lemma_map_push(before_names, t@[i as int].0, |s: String| s@);
                crate::text::lemma_map_push(t@.take(i as int), t@[i as int], |e: (String, ())| e.0@);
                assert(t@.take(i + 1) =~= t@.take(i as int).push(t@[i as int]));
            }
            i += 1;
        }
        proof {
            let ns = names@.map_values(|s: String| s@);
            assert(t@.take(i as int) =~= t@);
            assert forall|x: Seq<char>| #[trigger] ns.contains(x) <==> (has_member(before@, x) || has_member(after@, x)) by {
                if ns.contains(x) {
                    let j = choose|j: int| 0 <= j < ns.len() && ns[j] == x;
                    crate::table::lemma_lookup_distinct(t@, x, j);
                }
                if has_member(before@, x) || has_member(after@, x) {
                    assert(lookup(t@, x) is Some);
                    if !(exists|j: int| 0 <= j < t@.len() && #[trigger] t@[j].0@ == x) {
                        crate::table::lemma_lookup_absent(t@, x);
                    }
                    let j = choose|j: int| 0 <= j < t@.len() && #[trigger] t@[j].0@ == x;
                    assert(ns[j] == x);
                }
            }
        }
    }
    let ghost ns = names@.map_values(|s: String| s@);
    proof {
        let w = watch@.map_values(|s: String| s@);
        assert(compared_fields(before@, after@, w, ns));
        let c = choose|c: Seq<Seq<char>>| compared_fields(before@, after@, w, c);
        if w.len() == 0 {
            lemma_ascending_unique(ns, c);
        }
    }
    let mut out: Vec<String> = Vec::new();
    let mut i: usize = 0;
    while i < names.len()
        invariant
            i <= names@.len(),
            ns == names@.map_values(|s: String| s@),
            out@.map_values(|s: String| s@) == deltas(before@, after@, ns.take(i as int)),
        decreases names.len() - i,
    {
        let f = names[i].as_str();
        let ghost before_out = out@;
        assert(ns.take(i + 1).drop_last() =~= ns.take(i as int));
        assert(ns.take(i + 1).last() == f@);
        let old = before.get(f);
        let new = after.get(f);
        let same = match (old, new) {
            (None, None) => true,
            (Some(x), Some(y)) => x.equal(y),
            _ => false,
        };
        if !same {
            let mut line = String::from_str(f);
            line.append(": ");
            line.append(brief(old).as_str());
            line.append(" -> ");
            line.append(brief(new).as_str());
            out.push(line);
        }
        assert(out@.map_values(|s: String| s@) =~= deltas(before@, after@, ns.take(i + 1))) by {
            assert(before_out.map_values(|s: String| s@) == deltas(before@, after@, ns.take(i as int)));
        }
        i += 1;
    }
    assert(ns.take(i as int) =~= ns);
    out
}

// ---- changes ----------------------------------------------------------------

/// One change between two snapshots.
#[derive(Debug)]
pub struct Change {
    pub resource: String,
    /// `appeared`, `disappeared` or `changed`.
    pub change: &'static str,
    pub item: String,
    pub detail: String,
}

/// A change as values: resource, kind, item, detail.
pub type ChangeV = (Seq<char>, Seq<char>, Seq<char>, Seq<char>);

pub open spec fn chv(c: Change) -> ChangeV {
    (c.resource@, c.change@, c.item@, c.detail@)
}

pub open spec fn chvs(s: Seq<Change>) -> Seq<ChangeV> {
    s.map_values(|c: Change| chv(c))
}

pub fn change(resource: &str, kind: &'static str, item: String, detail: String) -> (r: Change)
    ensures
        chv(r) == (resource@, kind@, item@, detail@),
{
    Change { resource: String::from_str(resource), change: kind, item, detail }
}

/// How much a change is worth reading: presence on the configuration
/// resources is what an operator acts on; a client coming and going is
/// ordinary traffic.
pub open spec fn weight_spec(resource: Seq<char>, kind: Seq<char>) -> nat {
    if resource == "settings"@ || resource == "wlans"@ || resource == "port-forwards"@ || resource
        == "firewall-policies"@ || resource == "firewall-zones"@ || resource == "networks"@
        || resource == "network-detail"@ || resource == "traffic-matching-lists"@ || resource
        == "sysinfo"@ || resource == "device-detail"@ || resource == "devices"@ {
        2
    } else if resource == "clients-known"@ && kind == "appeared"@ {
        1
    } else if resource == "neighbours"@ && kind == "appeared"@ {
        1
    } else {
        0
    }
}

/// How much a change is worth reading.
pub fn weight(c: &Change) -> (r: u8)
    ensures
        r == weight_spec(c.resource@, c.change@),
{
    let r = c.resource.as_str();
    if str_eq(r, "settings") || str_eq(r, "wlans") || str_eq(r, "port-forwards") || str_eq(
        r,
        "firewall-policies",
    ) || str_eq(r, "firewall-zones") || str_eq(r, "networks") || str_eq(r, "network-detail")
        || str_eq(r, "traffic-matching-lists") || str_eq(r, "sysinfo") || str_eq(r, "device-detail")
        || str_eq(r, "devices") {
        2
    } else if str_eq(r, "clients-known") && str_eq(c.change, "appeared") {
        1
    } else if str_eq(r, "neighbours") && str_eq(c.change, "appeared") {
        1
    } else {
        0
    }
}

/// The items that appear in `to` and not in `from`, as changes of `kind`.
pub open spec fn presence_changes(
    name: Seq<char>,
    kind: Seq<char>,
    to: Seq<(String, Json)>,
    from: Seq<(String, Json)>,
) -> Seq<ChangeV>
    decreases to.len(),
{
    if to.len() == 0 {
        Seq::empty()
    } else {
        presence_changes(name, kind, to.drop_last(), from) + if view_at(from, to.last().0@) is None {
            seq![(name, kind, label_spec(to.last().1@, to.last().0@), Seq::empty())]
        } else {
            Seq::empty()
        }
    }
}

/// The items held on both sides whose watched fields differ.
pub open spec fn field_changes(
    name: Seq<char>,
    new: Seq<(String, Json)>,
    old: Seq<(String, Json)>,
    watch: Seq<Seq<char>>,
) -> Seq<ChangeV>
    decreases new.len(),
{
    if new.len() == 0 {
        Seq::empty()
    } else {
        let (k, after) = (new.last().0@, new.last().1@);
        field_changes(name, new.drop_last(), old, watch) + match view_at(old, k) {
            Some(before) => {
                let ds = fields_spec(before, after, watch);
                if ds.len() > 0 {
                    seq![(name, "changed"@, label_spec(after, k), join(ds, ", "@))]
                } else {
                    Seq::empty()
                }
            },
            None => Seq::empty(),
        }
    }
}

/// Every change to one resource between two indexes of it: what appeared,
/// what disappeared, then, where fields are watched, what changed.
pub open spec fn resource_changes(
    name: Seq<char>,
    old: Seq<(String, Json)>,
    new: Seq<(String, Json)>,
    watch: Option<Seq<Seq<char>>>,
) -> Seq<ChangeV> {
    presence_changes(name, "appeared"@, new, old) + presence_changes(name, "disappeared"@, old, new)
        + match watch {
        Some(w) => field_changes(name, new, old, w),
        None => Seq::empty(),
    }
}

fn presence(name: &str, kind: &'static str, to: &Vec<(String, Json)>, from: &Vec<(String, Json)>, out: &mut Vec<Change>)
    ensures
        chvs(final(out)@) == chvs(old(out)@) + presence_changes(name@, kind@, to@, from@),
{
    let ghost start = chvs(out@);
    let mut k: usize = 0;
    while k < to.len()
        invariant
            k <= to@.len(),
            chvs(out@) == start + presence_changes(name@, kind@, to@.take(k as int), from@),
        decreases to.len() - k,
    {
        assert(to@.take(k + 1).drop_last() =~= to@.take(k as int));
        assert(to@.take(k + 1).last() == to@[k as int]);
        let ghost before = out@;
        if crate::table::value_at(from, to[k].0.as_str()).is_none() {
            let c = change(name, kind, label(&to[k].1, to[k].0.as_str()), String::new());
            out.push(c);
            assert(chvs(out@) =~= chvs(before).push(chv(c)));
        }
        assert(chvs(out@) =~= start + presence_changes(name@, kind@, to@.take(k + 1), from@));
        k += 1;
    }
    assert(to@.take(k as int) =~= to@);
}

/// Every change to one resource between two snapshots of it, items
/// identified by `key`; fields are compared only where `watch` is given.
pub fn resource_diff(name: &str, before: &Json, after: &Json, key: &str, watch: Option<&Vec<String>>) -> (r: Vec<Change>)
    ensures
        exists|old: Seq<(String, Json)>, new: Seq<(String, Json)>|
            indexes(old, before@, key@) && indexes(new, after@, key@) && chvs(r@) == resource_changes(
                name@,
                old,
                new,
                match watch {
                    Some(w) => Some(w@.map_values(|s: String| s@)),
                    None => None,
                },
            ),
{
    let old = index(before, key);
    let new = index(after, key);
    let mut out: Vec<Change> = Vec::new();
    assert(chvs(out@) =~= Seq::<ChangeV>::empty());
    presence(name, "appeared", &new, &old, &mut out);
    presence(name, "disappeared", &old, &new, &mut out);
    let ghost mid = chvs(out@);
    match watch {
        Some(w) => {
            let ghost wv = w@.map_values(|s: String| s@);
            let mut k: usize = 0;
            while k < new.len()
                invariant
                    k <= new@.len(),
                    wv == w@.map_values(|s: String| s@),
                    chvs(out@) == mid + field_changes(name@, new@.take(k as int), old@, wv),
                decreases new.len() - k,
            {
                assert(new@.take(k + 1).drop_last() =~= new@.take(k as int));
                assert(new@.take(k + 1).last() == new@[k as int]);
                let ghost before_out = out@;
                match crate::table::value_at(&old, new[k].0.as_str()) {
                    Some(b) => {
                        let ds = fields(b, &new[k].1, w);
                        if ds.len() > 0 {
                            let c = change(
                                name,
                                "changed",
                                label(&new[k].1, new[k].0.as_str()),
                                join_strings(&ds, ", "),
                            );
                            out.push(c);
                            assert(chvs(out@) =~= chvs(before_out).push(chv(c)));
                        }
                    },
                    None => {},
                }
                assert(chvs(out@) =~= mid + field_changes(name@, new@.take(k + 1), old@, wv));
                k += 1;
            }
            assert(new@.take(k as int) =~= new@);
        },
        None => {
            assert(chvs(out@) =~= mid + Seq::<ChangeV>::empty());
        },
    }
    out
}

/// Whether a change is listed: every change with `--all`, otherwise only
/// those with a security reading.
pub open spec fn listed(c: ChangeV, all: bool) -> bool {
    all || weight_spec(c.0, c.1) > 0
}

/// A change as a row of the listing.
pub open spec fn change_row(c: ChangeV) -> JsonV {
    JsonV::Obj(
        seq![
            ("resource"@, JsonV::Str(c.0)),
            ("change"@, JsonV::Str(c.1)),
            ("item"@, JsonV::Str(c.2)),
            ("detail"@, JsonV::Str(c.3)),
        ],
    )
}

/// A change to a configuration resource (settings, wireless networks, port
/// forwards, firewall policies and zones, networks and their detail, traffic
/// matching lists, system information) or to the devices carries the full
/// weight, whatever kind of change it is, so it is listed without `--all`.
pub proof fn law_configuration_changes_are_listed(c: ChangeV)
    requires
        c.0 == "settings"@ || c.0 == "wlans"@ || c.0 == "port-forwards"@ || c.0
            == "firewall-policies"@ || c.0 == "firewall-zones"@ || c.0 == "networks"@ || c.0
            == "network-detail"@ || c.0 == "traffic-matching-lists"@ || c.0 == "sysinfo"@ || c.0
            == "devices"@ || c.0 == "device-detail"@,
    ensures
        weight_spec(c.0, c.1) == 2,
        listed(c, false),
{
}

/// A client that left and a neighbour that went away carry no weight, and
/// are listed only with `--all`; every change is listed with it.
pub proof fn law_departures_are_listed_only_on_request(c: ChangeV)
    requires
        c.0 == "clients-known"@ || c.0 == "neighbours"@,
        c.1 == "disappeared"@,
    ensures
        weight_spec(c.0, c.1) == 0,
        !listed(c, false),
        listed(c, true),
{
    reveal_strlit("clients-known");
    reveal_strlit("neighbours");
    reveal_strlit("disappeared");
    reveal_strlit("appeared");
    reveal_strlit("settings");
    reveal_strlit("wlans");
    reveal_strlit("port-forwards");
    reveal_strlit("firewall-policies");
    reveal_strlit("firewall-zones");
    reveal_strlit("networks");
    reveal_strlit("network-detail");
    reveal_strlit("traffic-matching-lists");
    reveal_strlit("sysinfo");
    reveal_strlit("devices");
    reveal_strlit("device-detail");
    assert(c.1 != "appeared"@) by {
        assert(c.1[0] == 'd');
    }
    if c.0 == "clients-known"@ {
        assert(c.0[0] == 'c' && c.0[1] == 'l');
    } else {
        assert(c.0[0] == 'n' && c.0[1] == 'e' && c.0.len() == 10);
    }
}

/// The rows of the changes that are listed, in order.
pub fn listed_rows(changes: &Vec<Change>, all: bool) -> (r: Vec<Json>)
    ensures
        Json::items_view(r@) == chvs(changes@).filter(|c: ChangeV| listed(c, all)).map_values(
            |c: ChangeV| change_row(c),
        ),
{
    let ghost cv = chvs(changes@);
    let ghost p = |c: ChangeV| listed(c, all);
    let ghost g = |c: ChangeV| change_row(c);
    let mut out: Vec<Json> = Vec::new();
    let mut i: usize = 0;
    while i < changes.len()
        invariant
            i <= changes@.len(),
            cv == chvs(changes@),
            p == (|c: ChangeV| listed(c, all)),
            g == (|c: ChangeV| change_row(c)),
            Json::items_view(out@) == cv.take(i as int).filter(p).map_values(g),
        decreases changes.len() - i,
    {
        let c = &changes[i];
        assert(cv[i as int] == chv(*c));
        assert(cv.take(i + 1) =~= cv.take(i as int).push(chv(*c)));
        proof {
            Seq::lemma_filter_push(cv.take(i as int), chv(*c), p);
        }
        let ghost before = out@;
        if all || weight(c) > 0 {
            let mut m: Vec<(String, Json)> = Vec::new();
            assert(Json::members_view(m@) =~= Seq::<(Seq<char>, JsonV)>::empty());
            put(&mut m, "resource", Json::Str(c.resource.clone()));
            put(&mut m, "change", Json::Str(String::from_str(c.change)));
            put(&mut m, "item", Json::Str(c.item.clone()));
            put(&mut m, "detail", Json::Str(c.detail.clone()));
            let ghost mv = Json::members_view(m@);
            assert(mv =~= change_row(chv(*c))->Obj_0);
            let row = Json::Obj(m);
            assert(row@ == change_row(chv(*c)));
            out.push(row);
            proof {
                assert(out@.subrange(0, out@.len() - 1) =~= before);
                assert(Json::items_view(out@) == Json::items_view(before).push(change_row(chv(*c))));
                assert(p(chv(*c)));
                let f0 = cv.take(i as int).filter(p);
                assert(f0.push(chv(*c)).map_values(g) =~= f0.map_values(g).push(g(chv(*c))));
            }
        }
        i += 1;
    }
    assert(cv.take(i as int) =~= cv);
    out
}

/// The key changes are ordered by: the weightiest first, then by resource.
pub open spec fn change_key(c: ChangeV) -> (int, Seq<char>, ChangeV) {
    (2 - weight_spec(c.0, c.1), c.0, c)
}

/// Changes, the weightiest first, then by resource, and otherwise in the
/// order they came.
pub open spec fn ordered_changes(s: Seq<ChangeV>) -> Seq<ChangeV> {
    sorted_by_key(s.map_values(|c: ChangeV| change_key(c))).map_values(
        |t: (int, Seq<char>, ChangeV)| t.2,
    )
}

/// Order changes: the weightiest first, then by resource.
pub fn sort_changes(changes: Vec<Change>) -> (r: Vec<Change>)
    ensures
        chvs(r@) == ordered_changes(chvs(changes@)),
{
    let ghost want = chvs(changes@).map_values(|c: ChangeV| change_key(c));
    let ghost fc = |c: Change| chv(c);
    let ghost g = |y: (int, Seq<char>, Change)| map_item(y, fc);
    let mut keyed: Vec<Keyed<Change>> = Vec::new();
    let mut rest = changes;
    let ghost orig = rest@;
    let n = rest.len();
    let mut k: usize = 0;
    while rest.len() > 0
        invariant
            k + rest@.len() == n,
            n == orig.len(),
            want == chvs(orig).map_values(|c: ChangeV| change_key(c)),
            forall|j: int| 0 <= j < rest@.len() ==> #[trigger] rest@[j] == orig[k + j],
            keyed@.len() == k,
            kviews(keyed@).map_values(g) == want.take(k as int),
            fc == (|c: Change| chv(c)),
            g == (|y: (int, Seq<char>, Change)| map_item(y, fc)),
        decreases rest.len(),
    {
        assert(rest@[0] == orig[k as int]);
        let c = rest.remove(0);
        let ghost before = keyed@;
        let w = weight(&c);
        let text = c.resource.clone();
        keyed.push(Keyed { rank: (2 - w) as u64, text, item: c });
        assert(kviews(keyed@).map_values(g) =~= want.take(k + 1)) by {
            assert(kviews(before).map_values(g) == want.take(k as int));
            assert(kviews(keyed@).map_values(g)[k as int] == want[k as int]);
            assert forall|q: int| 0 <= q < k implies #[trigger] kviews(keyed@).map_values(g)[q]
                == kviews(before).map_values(g)[q] by {
                assert(keyed@[q] == before[q]);
            }
        }
        k += 1;
    }
    assert(want.take(k as int) =~= want);
    let ghost kv = kviews(keyed@);
    let mut sorted = sort_keyed(keyed);
    proof {
        law_sorted_maps_items(kv, fc);
    }
    let ghost target = sorted_by_key(want);
    assert(kviews(sorted@).map_values(g) == target);
    let mut out: Vec<Change> = Vec::new();
    let m = sorted.len();
    let mut j: usize = 0;
    while sorted.len() > 0
        invariant
            j + sorted@.len() == m,
            target.len() == m,
            out@.len() == j,
            forall|q: int| 0 <= q < sorted@.len() ==> #[trigger] chv(sorted@[q].item) == target[j + q].2,
            chvs(out@) == target.take(j as int).map_values(|t: (int, Seq<char>, ChangeV)| t.2),
        decreases sorted.len(),
    {
        assert(chv(sorted@[0].item) == target[j as int].2);
        let ghost first = sorted@[0];
        let x = sorted.remove(0);
        assert(x == first);
        let ghost before = out@;
        out.push(x.item);
        proof {
            let a = chvs(out@);
            let b = target.take(j + 1).map_values(|t: (int, Seq<char>, ChangeV)| t.2);
            let b0 = target.take(j as int).map_values(|t: (int, Seq<char>, ChangeV)| t.2);
            assert(chvs(before) == b0);
            assert forall|q: int| 0 <= q < j + 1 implies #[trigger] a[q] == b[q] by {
                if q < j {
                    assert(chvs(before)[q] == b0[q]);
                }
            }
            assert(a =~= b);
        }
        j += 1;
    }
    assert(target.take(j as int) =~= target);
    out
}

// ---- snapshots --------------------------------------------------------------

/// A resource that was collected successfully, or nothing.
pub open spec fn resource_spec(snapshot: JsonV, name: Seq<char>) -> Option<JsonV> {
    match jget2(snapshot, "resources"@, name) {
        Some(r) => if jstr(r, "status"@) == Some("ok"@) {
            Some(r)
        } else {
            None
        },
        None => None,
    }
}

/// A resource that was collected successfully, or nothing: one that failed
/// is not readable, never empty.
pub fn resource<'a>(snapshot: &'a Json, name: &str) -> (r: Option<&'a Json>)
    ensures
        match r {
            Some(x) => resource_spec(snapshot@, name@) == Some(x@),
            None => resource_spec(snapshot@, name@) is None,
        },
{
    proof {
        reveal_strlit("ok");
    }
    match snapshot.get2("resources", name) {
        Some(r) => match r.str_at("status") {
            Some(st) => if str_eq(st.as_str(), "ok") {
                Some(r)
            } else {
                None
            },
            None => None,
        },
        None => None,
    }
}

/// The field that identifies an item on a surface: the documented surface
/// says `id`, the internal ones `_id`.
pub open spec fn identity_key(s: Surface) -> Seq<char> {
    match s {
        Surface::Integration => "id"@,
        _ => "_id"@,
    }
}

fn key_for(s: Surface) -> (r: &'static str)
    ensures
        r@ == identity_key(s),
{
    proof {
        reveal_strlit("id");
        reveal_strlit("_id");
    }
    match s {
        Surface::Integration => "id",
        _ => "_id",
    }
}

/// Whether a resource can be compared: readable in both snapshots.
pub open spec fn comparable(before: JsonV, after: JsonV, name: Seq<char>) -> bool {
    resource_spec(before, name) is Some && resource_spec(after, name) is Some
}

/// The configuration resources: their items are compared field by field,
/// so an edited rule reads as a change. Everything else is inventory, whose
/// counters and signals move all the time, and is compared by presence.
pub open spec fn configuration(name: Seq<char>) -> bool {
    name == "settings"@ || name == "wlans"@ || name == "port-forwards"@ || name
        == "firewall-policies"@ || name == "firewall-zones"@ || name == "networks"@ || name
        == "network-detail"@ || name == "traffic-matching-lists"@ || name == "sysinfo"@
}

/// The fields a comparison watches on a resource: every field (an empty
/// watch list) for configuration, none for inventory.
pub open spec fn watch_policy(name: Seq<char>) -> Option<Seq<Seq<char>>> {
    if configuration(name) {
        Some(Seq::empty())
    } else {
        None
    }
}

fn is_configuration(name: &str) -> (r: bool)
    ensures
        r == configuration(name@),
{
    str_eq(name, "settings") || str_eq(name, "wlans") || str_eq(name, "port-forwards") || str_eq(
        name,
        "firewall-policies",
    ) || str_eq(name, "firewall-zones") || str_eq(name, "networks") || str_eq(name, "network-detail")
        || str_eq(name, "traffic-matching-lists") || str_eq(name, "sysinfo")
}

/// Whether `cs` are the changes to resource `name` between two readable
/// copies of it, items identified by `key`: what appeared, what disappeared,
/// and, on a configuration resource, what changed in any field.
pub open spec fn policy_diff(cs: Seq<ChangeV>, name: Seq<char>, before: JsonV, after: JsonV, key: Seq<char>) -> bool {
    exists|old: Seq<(String, Json)>, new: Seq<(String, Json)>|
        indexes(old, before, key) && indexes(new, after, key) && cs == resource_changes(
            name,
            old,
            new,
            watch_policy(name),
        )
}

/// The names of the catalogue's resources that cannot be compared, in
/// catalogue order.
pub open spec fn incomparable_spec(before: JsonV, after: JsonV) -> Seq<Seq<char>> {
    catalogue().map_values(|e: (Seq<char>, Surface, Seq<char>)| e.0).filter(
        |n: Seq<char>| !comparable(before, after, n),
    )
}

/// Two snapshots compared resource by resource.
pub struct Comparison {
    /// What changed, resource by resource in catalogue order.
    pub changes: Vec<Change>,
    /// The resources that one side is missing or could not read: a question
    /// that cannot be asked, which is not the same as no change.
    pub incomparable: Vec<String>,
}

/// Compare two snapshots over the whole catalogue. A resource missing or
/// unreadable on either side is listed as incomparable and contributes no
/// change; every other one contributes what appeared and what disappeared,
/// items identified by their surface's identifying field, and a
/// configuration resource also every field that changed on an item both
/// sides hold.
pub fn compare_snapshots(before: &Json, after: &Json) -> (r: Comparison)
    ensures
        r.incomparable@.map_values(|s: String| s@) == incomparable_spec(before@, after@),
        exists|parts: Seq<Seq<ChangeV>>|
            #![trigger parts.flatten()]
            {
                &&& parts.len() == catalogue().len()
                &&& chvs(r.changes@) == parts.flatten()
                &&& forall|i: int|
                    0 <= i < parts.len() ==> if comparable(before@, after@, #[trigger] catalogue()[i].0) {
                        policy_diff(
                            parts[i],
                            catalogue()[i].0,
                            resource_spec(before@, catalogue()[i].0)->0,
                            resource_spec(after@, catalogue()[i].0)->0,
                            identity_key(catalogue()[i].1),
                        )
                    } else {
                        parts[i] == Seq::<ChangeV>::empty()
                    }
            },
{
    let all = resources();
    let ghost names = catalogue().map_values(|e: (Seq<char>, Surface, Seq<char>)| e.0);
    let ghost keep = |n: Seq<char>| !comparable(before@, after@, n);
    let mut changes: Vec<Change> = Vec::new();
    let mut incomparable: Vec<String> = Vec::new();
    let ghost mut parts: Seq<Seq<ChangeV>> = Seq::empty();
    let mut k: usize = 0;
    while k < all.len()
        invariant
            k <= all@.len(),
            all@.len() == catalogue().len(),
            forall|i: int|
                0 <= i < all@.len() ==> (#[trigger] all@[i].name@, all@[i].surface, all@[i].path@)
                    == catalogue()[i],
            names == catalogue().map_values(|e: (Seq<char>, Surface, Seq<char>)| e.0),
            keep == (|n: Seq<char>| !comparable(before@, after@, n)),
            incomparable@.map_values(|s: String| s@) == names.take(k as int).filter(keep),
            parts.len() == k,
            chvs(changes@) == parts.flatten(),
            forall|i: int|
                0 <= i < k ==> if comparable(before@, after@, #[trigger] catalogue()[i].0) {
                    policy_diff(
                        parts[i],
                        catalogue()[i].0,
                        resource_spec(before@, catalogue()[i].0)->0,
                        resource_spec(after@, catalogue()[i].0)->0,
                        identity_key(catalogue()[i].1),
                    )
                } else {
                    parts[i] == Seq::<ChangeV>::empty()
                },
        decreases all.len() - k,
    {
        let r = &all[k];
        assert((r.name@, r.surface, r.path@) == catalogue()[k as int]);
        assert(names.take(k + 1) =~= names.take(k as int).push(r.name@));
        proof {
            Seq::lemma_filter_push(names.take(k as int), r.name@, keep);
        }
        let ghost before_parts = parts;
        match (resource(before, r.name), resource(after, r.name)) {
            (Some(b), Some(a)) => {
                let every: Vec<String> = Vec::new();
                let watch = if is_configuration(r.name) {
                    Some(&every)
                } else {
                    None
                };
                assert(every@.map_values(|s: String| s@) =~= Seq::<Seq<char>>::empty());
                let found = resource_diff(r.name, b, a, key_for(r.surface), watch);
                let ghost part = chvs(found@);
                assert(policy_diff(part, r.name@, b@, a@, identity_key(r.surface)));
                let mut found = found;
                let ghost prev = changes@;
                changes.append(&mut found);
                assert(chvs(changes@) =~= chvs(prev) + part);
                proof {
                    parts = parts.push(part);
                    Seq::lemma_flatten_push(before_parts, part);
                }
            },
            _ => {
                let ghost prev = incomparable@;
                incomparable.push(String::from_str(r.name));
                assert(incomparable@.map_values(|s: String| s@) =~= prev.map_values(|s: String| s@).push(r.name@));
                proof {
                    parts = parts.push(Seq::empty());
                    Seq::lemma_flatten_push(before_parts, Seq::<ChangeV>::empty());
                    assert(parts.flatten() =~= before_parts.flatten());
                }
            },
        }
        assert forall|i: int| 0 <= i < k + 1 implies if comparable(before@, after@, #[trigger] catalogue()[i].0) {
            policy_diff(
                parts[i],
                catalogue()[i].0,
                resource_spec(before@, catalogue()[i].0)->0,
                resource_spec(after@, catalogue()[i].0)->0,
                identity_key(catalogue()[i].1),
            )
        } else {
            parts[i] == Seq::<ChangeV>::empty()
        } by {
            if i < k {
                assert(parts[i] == before_parts[i]);
            }
        }
        k += 1;
    }
    assert(names.take(k as int) =~= names);
    Comparison { changes, incomparable }
}

/// When a snapshot was taken, `unknown` where it does not say.
pub fn stamp(s: &Json) -> (r: String)
    ensures
        r@ == match jstr(s@, "takenAt"@) {
            Some(t) => t,
            None => "unknown"@,
        },
{
    match s.str_at("takenAt") {
        Some(t) => t.clone(),
        None => String::from_str("unknown"),
    }
}

/// The identity a snapshot's console reported.
pub open spec fn console_id(s: JsonV) -> Option<Seq<char>> {
    match jget2(s, "console"@, "id"@) {
        Some(JsonV::Str(x)) => Some(x),
        _ => None,
    }
}

/// Two snapshots are comparable unless each names its console and the names
/// differ; the address a console answered at is not its identity. The error
/// carries both identities.
pub fn same_console(before: &Json, after: &Json) -> (r: Result<(), (String, String)>)
    ensures
        match r {
            Ok(()) => !(console_id(before@) is Some && console_id(after@) is Some && console_id(before@)
                != console_id(after@)),
            Err((x, y)) => console_id(before@) == Some(x@) && console_id(after@) == Some(y@) && x@ != y@,
        },
{
    match (before.get2("console", "id"), after.get2("console", "id")) {
        (Some(Json::Str(x)), Some(Json::Str(y))) => if str_eq(x.as_str(), y.as_str()) {
            Ok(())
        } else {
            Err((x.clone(), y.clone()))
        },
        _ => Ok(()),
    }
}

/// Why a file is not a snapshot this build reads.
#[derive(Debug, PartialEq, Eq)]
pub enum VersionError {
    /// A snapshot of another format version.
    Other(i64),
    /// No version at all: not a snapshot.
    Missing,
}

/// Only a version 1 snapshot is read: refusing an unknown shape beats
/// misreading it.
pub fn check_version(v: &Json) -> (r: Result<(), VersionError>)
    ensures
        match r {
            Ok(()) => crate::json::jint(v@, "version"@) == Some(1int),
            Err(VersionError::Other(n)) => crate::json::jint(v@, "version"@) == Some(n as int) && n != 1,
            Err(VersionError::Missing) => crate::json::jint(v@, "version"@) is None,
        },
{
    match v.int_at("version") {
        Some(1) => Ok(()),
        Some(n) => Err(VersionError::Other(n)),
        None => Err(VersionError::Missing),
    }
}

} // verus!
