//! The fields that must never be written to disk, and how to remove them.
//!
//! One list, used by everything that reads the legacy surface, so a field
//! cannot be redacted in one place and stored in another.

use vstd::prelude::*;
use crate::json::{Json, JsonV};
use crate::text::{chars_of, decimal, decimal_string, str_eq};

verus! {

/// Field names holding an actual secret.
///
/// Deliberately an explicit list rather than a substring rule: every settings
/// section carries `key` as its own name, so matching on "key" would flag all
/// of them, and a redactor that noisy quickly gets switched off.
pub open spec fn secret_field(k: Seq<char>) -> bool {
    ||| k == "x_ssh_password"@
    ||| k == "x_ssh_sha512passwd"@
    ||| k == "x_passphrase"@
    ||| k == "x_api_token"@
    ||| k == "x_mgmt_key"@
    ||| k == "x_private_key"@
    ||| k == "x_mesh_psk"@
    ||| k == "x_element_psk"@
    ||| k == "x_pregenerated_dh_key"@
    ||| k == "x_iapp_key"@
    ||| k == "x_authkey"@
    ||| k == "x_inform_authkey"@
    ||| k == "syslog_key"@
    ||| k == "x_vwirekey"@
}

/// Whether a field name is one of the secret fields.
pub fn is_secret_field(k: &str) -> (r: bool)
    ensures
        r == secret_field(k@),
{
    str_eq(k, "x_ssh_password") || str_eq(k, "x_ssh_sha512passwd") || str_eq(k, "x_passphrase")
        || str_eq(k, "x_api_token") || str_eq(k, "x_mgmt_key") || str_eq(k, "x_private_key")
        || str_eq(k, "x_mesh_psk") || str_eq(k, "x_element_psk") || str_eq(
        k,
        "x_pregenerated_dh_key",
    ) || str_eq(k, "x_iapp_key") || str_eq(k, "x_authkey") || str_eq(k, "x_inform_authkey")
        || str_eq(k, "syslog_key") || str_eq(k, "x_vwirekey")
}

/// What replaces a secret of `len` characters: its length, and nothing else.
pub open spec fn marker_text(len: nat) -> Seq<char> {
    "<redacted:"@ + decimal(len) + ">"@
}

/// What replaces a secret: its length, and nothing else. A length is not a
/// secret and it is what a strength check needs.
pub fn marker(len: usize) -> (r: String)
    ensures
        r@ == marker_text(len as nat),
{
    let mut out = String::from_str("<redacted:");
    out.append(decimal_string(len as u64).as_str());
    out.append(">");
    out
}

/// Whether a member holds a secret worth replacing: a secret field carrying a
/// non-empty string.
pub open spec fn replaceable(k: Seq<char>, v: JsonV) -> bool {
    secret_field(k) && (v matches JsonV::Str(s) && s.len() > 0)
}

/// A document with every secret replaced by its marker, at any depth.
pub open spec fn redacted(v: JsonV) -> JsonV
    decreases v,
{
    match v {
        JsonV::Obj(m) => JsonV::Obj(redacted_members(m)),
        JsonV::Arr(a) => JsonV::Arr(redacted_items(a)),
        _ => v,
    }
}

pub open spec fn redacted_items(a: Seq<JsonV>) -> Seq<JsonV>
    decreases a,
{
    if a.len() == 0 {
        a
    } else {
        redacted_items(a.subrange(0, a.len() - 1)).push(redacted(a[a.len() - 1]))
    }
}

pub open spec fn redacted_members(m: Seq<(Seq<char>, JsonV)>) -> Seq<(Seq<char>, JsonV)>
    decreases m,
{
    if m.len() == 0 {
        m
    } else {
        let (k, v) = m[m.len() - 1];
        redacted_members(m.subrange(0, m.len() - 1)).push(
            (
                k,
                if replaceable(k, v) {
                    JsonV::Str(marker_text(v->Str_0.len()))
                } else {
                    redacted(v)
                },
            ),
        )
    }
}

/// How many secrets a document holds, at any depth.
pub open spec fn secret_count(v: JsonV) -> nat
    decreases v,
{
    match v {
        JsonV::Obj(m) => members_count(m),
        JsonV::Arr(a) => items_count(a),
        _ => 0,
    }
}

pub open spec fn items_count(a: Seq<JsonV>) -> nat
    decreases a,
{
    if a.len() == 0 {
        0
    } else {
        items_count(a.subrange(0, a.len() - 1)) + secret_count(a[a.len() - 1])
    }
}

pub open spec fn members_count(m: Seq<(Seq<char>, JsonV)>) -> nat
    decreases m,
{
    if m.len() == 0 {
        0
    } else {
        let (k, v) = m[m.len() - 1];
        members_count(m.subrange(0, m.len() - 1)) + if replaceable(k, v) {
            1
        } else {
            secret_count(v)
        }
    }
}

/// Replace every secret in a document, at any depth, and say how many were
/// replaced: the measure of what an API key hands over.
pub fn redact(v: &mut Json) -> (n: usize)
    requires
        secret_count(old(v)@) <= usize::MAX,
    ensures
        final(v)@ == redacted(old(v)@),
        n == secret_count(old(v)@),
{
    let (done, n) = redacted_copy(v);
    *v = done;
    n
}

fn redacted_copy(v: &Json) -> (r: (Json, usize))
    requires
        secret_count(v@) <= usize::MAX,
    ensures
        r.0@ == redacted(v@),
        r.1 == secret_count(v@),
    decreases v,
{
    match v {
        Json::Arr(a) => {
            proof {
                crate::json::lemma_items_view(a@);
            }
            let ghost ov = Json::items_view(a@);
            let mut out: Vec<Json> = Vec::new();
            let mut n: usize = 0;
            let mut i: usize = 0;
            while i < a.len()
                invariant
                    *v == Json::Arr(*a),
                    i <= a@.len(),
                    ov == Json::items_view(a@),
                    ov.len() == a@.len(),
                    forall|j: int| 0 <= j < a@.len() ==> #[trigger] ov[j] == a@[j]@,
                    Json::items_view(out@) == redacted_items(ov.take(i as int)),
                    n == items_count(ov.take(i as int)),
                    items_count(ov) <= usize::MAX,
                    v@ == JsonV::Arr(ov),
                decreases a.len() - i,
            {
                assert(ov.take(i + 1) =~= ov.take(i as int).push(ov[i as int]));
                assert(ov.take(i + 1).subrange(0, i as int) =~= ov.take(i as int));
                proof {
                    lemma_items_count_prefix(ov, i as int + 1);
                    assert(decreases_to!(*v => v->Arr_0));
                    assert(decreases_to!(*a => a@));
                    assert(decreases_to!(a@ => a@[i as int]));
                }
                let (y, c) = redacted_copy(&a[i]);
                let ghost before = out@;
                out.push(y);
                proof {
                    crate::json::lemma_items_view(before);
                    crate::json::lemma_items_view(out@);
                    assert(Json::items_view(out@) =~= Json::items_view(before).push(y@));
                }
                n = n + c;
                i += 1;
            }
            assert(ov.take(i as int) =~= ov);
            (Json::Arr(out), n)
        },
        Json::Obj(m) => {
            proof {
                crate::json::lemma_members_view(m@);
            }
            let ghost ov = Json::members_view(m@);
            let mut out: Vec<(String, Json)> = Vec::new();
            let mut n: usize = 0;
            let mut i: usize = 0;
            while i < m.len()
                invariant
                    *v == Json::Obj(*m),
                    i <= m@.len(),
                    ov == Json::members_view(m@),
                    ov.len() == m@.len(),
                    forall|j: int|
                        0 <= j < m@.len() ==> #[trigger] ov[j] == (m@[j].0@, m@[j].1@),
                    Json::members_view(out@) == redacted_members(ov.take(i as int)),
                    out@.len() == i,
                    n == members_count(ov.take(i as int)),
                    members_count(ov) <= usize::MAX,
                    v@ == JsonV::Obj(ov),
                decreases m.len() - i,
            {
                assert(ov.take(i + 1) =~= ov.take(i as int).push(ov[i as int]));
                assert(ov.take(i + 1).subrange(0, i as int) =~= ov.take(i as int));
                proof {
                    lemma_members_count_prefix(ov, i as int + 1);
                }
                let k = &m[i].0;
                let x = &m[i].1;
                let secret = is_secret_field(k.as_str());
                let non_empty = match x {
                    Json::Str(s) => chars_of(s.as_str()).len() > 0,
                    _ => false,
                };
                let ghost before = out@;
                let c: usize;
                if secret && non_empty {
                    let len = match x {
                        Json::Str(s) => chars_of(s.as_str()).len(),
                        _ => 0,
                    };
                    out.push((k.clone(), Json::Str(marker(len))));
                    c = 1;
                } else {
                    proof {
                        assert(decreases_to!(*v => v->Obj_0));
                        assert(decreases_to!(*m => m@));
                        assert(decreases_to!(m@ => m@[i as int]));
                        assert(decreases_to!(m@[i as int] => m@[i as int].1));
                    }
                    let (y, d) = redacted_copy(x);
                    out.push((k.clone(), y));
                    c = d;
                }
                proof {
                    crate::json::lemma_members_view(before);
                    crate::json::lemma_members_view(out@);
                    assert(Json::members_view(out@) =~= Json::members_view(before).push(
                        (out@[i as int].0@, out@[i as int].1@)));
                }
                n = n + c;
                i += 1;
            }
            assert(ov.take(i as int) =~= ov);
            (Json::Obj(out), n)
        },
        other => (other.deep_clone(), 0),
    }
}


/// How many secrets a document holds, at any depth, when that number fits a
/// `usize`; `None` when it does not.
pub fn counted(v: &Json) -> (r: Option<usize>)
    ensures
        match r {
            Some(n) => n == secret_count(v@),
            None => secret_count(v@) > usize::MAX,
        },
    decreases v,
{
    match v {
        Json::Arr(a) => {
            proof {
                crate::json::lemma_items_view(a@);
            }
            let ghost ov = Json::items_view(a@);
            let mut n: usize = 0;
            let mut i: usize = 0;
            while i < a.len()
                invariant
                    *v == Json::Arr(*a),
                    i <= a@.len(),
                    ov == Json::items_view(a@),
                    ov.len() == a@.len(),
                    forall|j: int| 0 <= j < a@.len() ==> #[trigger] ov[j] == a@[j]@,
                    n == items_count(ov.take(i as int)),
                    v@ == JsonV::Arr(ov),
                decreases a.len() - i,
            {
                assert(ov.take(i + 1) =~= ov.take(i as int).push(ov[i as int]));
                assert(ov.take(i + 1).subrange(0, i as int) =~= ov.take(i as int));
                proof {
                    lemma_items_count_prefix(ov, i as int + 1);
                    assert(decreases_to!(*v => v->Arr_0));
                    assert(decreases_to!(*a => a@));
                    assert(decreases_to!(a@ => a@[i as int]));
                }
                match counted(&a[i]) {
                    Some(c) => match n.checked_add(c) {
                        Some(t) => n = t,
                        None => return None,
                    },
                    None => {
                        return None;
                    },
                }
                i += 1;
            }
            assert(ov.take(i as int) =~= ov);
            Some(n)
        },
        Json::Obj(m) => {
            proof {
                crate::json::lemma_members_view(m@);
            }
            let ghost ov = Json::members_view(m@);
            let mut n: usize = 0;
            let mut i: usize = 0;
            while i < m.len()
                invariant
                    *v == Json::Obj(*m),
                    i <= m@.len(),
                    ov == Json::members_view(m@),
                    ov.len() == m@.len(),
                    forall|j: int|
                        0 <= j < m@.len() ==> #[trigger] ov[j] == (m@[j].0@, m@[j].1@),
                    n == members_count(ov.take(i as int)),
                    v@ == JsonV::Obj(ov),
                decreases m.len() - i,
            {
                assert(ov.take(i + 1) =~= ov.take(i as int).push(ov[i as int]));
                assert(ov.take(i + 1).subrange(0, i as int) =~= ov.take(i as int));
                proof {
                    lemma_members_count_prefix(ov, i as int + 1);
                }
                let k = &m[i].0;
                let x = &m[i].1;
                let secret = is_secret_field(k.as_str());
                let non_empty = match x {
                    Json::Str(s) => chars_of(s.as_str()).len() > 0,
                    _ => false,
                };
                let c: usize;
                if secret && non_empty {
                    c = 1;
                } else {
                    proof {
                        assert(decreases_to!(*v => v->Obj_0));
                        assert(decreases_to!(*m => m@));
                        assert(decreases_to!(m@ => m@[i as int]));
                        assert(decreases_to!(m@[i as int] => m@[i as int].1));
                    }
                    match counted(x) {
                        Some(d) => c = d,
                        None => {
                            return None;
                        },
                    }
                }
                match n.checked_add(c) {
                    Some(t) => n = t,
                    None => {
                        return None;
                    },
                }
                i += 1;
            }
            assert(ov.take(i as int) =~= ov);
            Some(n)
        },
        _ => Some(0),
    }
}

proof fn lemma_items_count_prefix(a: Seq<JsonV>, k: int)
    requires
        0 <= k <= a.len(),
    ensures
        items_count(a.take(k)) <= items_count(a),
    decreases a.len(),
{
    if k < a.len() {
        assert(a.subrange(0, a.len() - 1).take(k) =~= a.take(k));
        lemma_items_count_prefix(a.subrange(0, a.len() - 1), k);
    } else {
        assert(a.take(k) =~= a);
    }
}

proof fn lemma_members_count_prefix(m: Seq<(Seq<char>, JsonV)>, k: int)
    requires
        0 <= k <= m.len(),
    ensures
        members_count(m.take(k)) <= members_count(m),
    decreases m.len(),
{
    if k < m.len() {
        assert(m.subrange(0, m.len() - 1).take(k) =~= m.take(k));
        lemma_members_count_prefix(m.subrange(0, m.len() - 1), k);
    } else {
        assert(m.take(k) =~= m);
    }
}


proof fn lemma_clean_items(a: Seq<JsonV>)
    requires
        items_count(a) == 0,
    ensures
        redacted_items(a) == a,
    decreases a,
{
    if a.len() > 0 {
        let sub = a.subrange(0, a.len() - 1);
        lemma_clean_items(sub);
        law_nothing_secret_is_touched(a[a.len() - 1]);
        assert(sub.push(a[a.len() - 1]) =~= a);
    }
}

proof fn lemma_clean_members(m: Seq<(Seq<char>, JsonV)>)
    requires
        members_count(m) == 0,
    ensures
        redacted_members(m) == m,
    decreases m,
{
    if m.len() > 0 {
        let sub = m.subrange(0, m.len() - 1);
        lemma_clean_members(sub);
        let (k, v) = m[m.len() - 1];
        law_nothing_secret_is_touched(v);
        assert(sub.push((k, v)) =~= m);
    }
}

/// A document with no secret in it is left exactly as it was: a secret field
/// that is empty, and every other field, survive redaction untouched.
pub proof fn law_nothing_secret_is_touched(v: JsonV)
    requires
        secret_count(v) == 0,
    ensures
        redacted(v) == v,
    decreases v,
{
    match v {
        JsonV::Obj(m) => lemma_clean_members(m),
        JsonV::Arr(a) => lemma_clean_items(a),
        _ => {},
    }
}


/// Redaction keeps the shape of an object: the same members, under the same
/// names, in the same order; only values change.
pub proof fn law_redaction_keeps_names(m: Seq<(Seq<char>, JsonV)>)
    ensures
        redacted_members(m).len() == m.len(),
        forall|i: int| 0 <= i < m.len() ==> #[trigger] redacted_members(m)[i].0 == m[i].0,
    decreases m.len(),
{
    if m.len() > 0 {
        law_redaction_keeps_names(m.subrange(0, m.len() - 1));
    }
}

} // verus!
