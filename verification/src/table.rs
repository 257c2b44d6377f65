//! Lookup tables keyed by name: the library's stand-in for the hash maps the
//! commands index their records with. Keys are compared as text; the first
//! entry under a key is the one that counts.

use vstd::prelude::*;
use crate::json::{jstr, Json, JsonV};
use crate::text::{
    chars_of, lemma_lex_sign_antisymmetric, lemma_lex_sign_reflexive, lemma_lex_sign_strict,
    lemma_lex_sign_zero, lex_sign, lex_sign_exec, str_eq,
};

verus! {

/// Whether `i` is the first index of `s` whose key is `k`.
pub open spec fn first_key<V>(s: Seq<(String, V)>, k: Seq<char>, i: int) -> bool {
    &&& 0 <= i < s.len()
    &&& s[i].0@ == k
    &&& forall|j: int| 0 <= j < i ==> #[trigger] s[j].0@ != k
}

/// The value stored under `k`, if any.
pub open spec fn lookup<V>(s: Seq<(String, V)>, k: Seq<char>) -> Option<V> {
    if exists|i: int| first_key(s, k, i) {
        Some(s[choose|i: int| first_key(s, k, i)].1)
    } else {
        None
    }
}

/// There is at most one first index for a key.
pub proof fn lemma_first_key_unique<V>(s: Seq<(String, V)>, k: Seq<char>, i: int, j: int)
    requires
        first_key(s, k, i),
        first_key(s, k, j),
    ensures
        i == j,
{
}

/// Where `k` is first stored in `v`.
pub fn find_key<V>(v: &Vec<(String, V)>, k: &str) -> (r: Option<usize>)
    ensures
        match r {
            Some(i) => first_key(v@, k@, i as int) && lookup(v@, k@) == Some(v@[i as int].1),
            None => lookup(v@, k@) is None && forall|j: int|
                0 <= j < v@.len() ==> #[trigger] v@[j].0@ != k@,
        },
{
    let mut i: usize = 0;
    while i < v.len()
        invariant
            i <= v.len(),
            forall|j: int| 0 <= j < i ==> #[trigger] v@[j].0@ != k@,
        decreases v.len() - i,
    {
        if str_eq(v[i].0.as_str(), k) {
            proof {
                assert(first_key(v@, k@, i as int));
                let c = choose|c: int| first_key(v@, k@, c);
                lemma_first_key_unique(v@, k@, i as int, c);
            }
            return Some(i);
        }
        i += 1;
    }
    None
}

/// The view of the value stored under `k`, if any.
pub open spec fn view_at(s: Seq<(String, Json)>, k: Seq<char>) -> Option<JsonV> {
    match lookup(s, k) {
        Some(v) => Some(v@),
        None => None,
    }
}

/// Whether every key is stored once.
pub open spec fn keys_distinct<V>(s: Seq<(String, V)>) -> bool {
    forall|a: int, b: int| 0 <= a < b < s.len() ==> #[trigger] s[a].0@ != #[trigger] s[b].0@
}

/// The last record of `raw` whose `key` member is the string `k`.
pub open spec fn last_keyed(raw: Seq<JsonV>, k: Seq<char>) -> Option<JsonV>
    decreases raw.len(),
{
    if raw.len() == 0 {
        None
    } else if jstr(raw.last(), "key"@) == Some(k) {
        Some(raw.last())
    } else {
        last_keyed(raw.drop_last(), k)
    }
}

pub proof fn lemma_lookup_push<V>(s: Seq<(String, V)>, e: (String, V), q: Seq<char>)
    requires
        forall|j: int| 0 <= j < s.len() ==> #[trigger] s[j].0@ != e.0@,
    ensures
        lookup(s.push(e), q) == if q == e.0@ {
            Some(e.1)
        } else {
            lookup(s, q)
        },
{
    let t = s.push(e);
    if q == e.0@ {
        assert(first_key(t, q, s.len() as int));
        let c = choose|c: int| first_key(t, q, c);
        lemma_first_key_unique(t, q, s.len() as int, c);
    } else {
        assert forall|j: int| 0 <= j < s.len() implies #[trigger] t[j] == s[j] by {}
        assert forall|i: int| first_key(t, q, i) <==> first_key(s, q, i) by {
            if first_key(t, q, i) {
                assert(i != s.len());
                assert forall|j: int| 0 <= j < i implies #[trigger] s[j].0@ != q by {
                    assert(t[j] == s[j]);
                }
            }
            if first_key(s, q, i) {
                assert forall|j: int| 0 <= j < i implies #[trigger] t[j].0@ != q by {
                    assert(t[j] == s[j]);
                }
            }
        }
        if exists|i: int| first_key(s, q, i) {
            let c = choose|c: int| first_key(s, q, c);
            let d = choose|c: int| first_key(t, q, c);
            lemma_first_key_unique(s, q, c, d);
        }
    }
}

pub proof fn lemma_lookup_set<V>(s: Seq<(String, V)>, j: int, e: (String, V), q: Seq<char>)
    requires
        first_key(s, e.0@, j),
    ensures
        lookup(s.update(j, e), q) == if q == e.0@ {
            Some(e.1)
        } else {
            lookup(s, q)
        },
{
    let t = s.update(j, e);
    assert forall|k: int| 0 <= k < s.len() implies #[trigger] t[k].0@ == s[k].0@ by {}
    assert forall|i: int| first_key(t, q, i) <==> first_key(s, q, i) by {
        if first_key(t, q, i) {
            assert forall|k: int| 0 <= k < i implies #[trigger] s[k].0@ != q by {
                assert(t[k].0@ == s[k].0@);
            }
        }
        if first_key(s, q, i) {
            assert forall|k: int| 0 <= k < i implies #[trigger] t[k].0@ != q by {
                assert(t[k].0@ == s[k].0@);
            }
        }
    }
    if exists|i: int| first_key(s, q, i) {
        let c = choose|c: int| first_key(s, q, c);
        let d = choose|c: int| first_key(t, q, c);
        lemma_first_key_unique(s, q, c, d);
        if q == e.0@ {
            lemma_first_key_unique(s, q, c, j);
        }
    }
}

/// Records indexed by their `key` member, as the consoles list their settings
/// sections; where two carry the same key the later one counts, and a record
/// without one is left out.
pub fn sections_by_key(raw: Vec<Json>) -> (r: Vec<(String, Json)>)
    ensures
        keys_distinct(r@),
        forall|k: Seq<char>| #[trigger] view_at(r@, k) == last_keyed(Json::items_view(raw@), k),
{
    proof {
        crate::json::lemma_items_view(raw@);
    }
    let ghost rv = Json::items_view(raw@);
    let mut out: Vec<(String, Json)> = Vec::new();
    let mut rest = raw;
    let mut i: usize = 0;
    let n = rest.len();
    while rest.len() > 0
        invariant
            i + rest@.len() == n,
            rv.len() == n,
            forall|j: int| 0 <= j < rest@.len() ==> #[trigger] rest@[j]@ == rv[i + j],
            keys_distinct(out@),
            forall|k: Seq<char>| #[trigger] view_at(out@, k) == last_keyed(rv.take(i as int), k),
        decreases rest.len(),
    {
        let item = rest.remove(0);
        assert(item@ == rv[i as int]);
        assert(rv.take(i + 1).drop_last() =~= rv.take(i as int));
        assert(rv.take(i + 1).last() == rv[i as int]);
        let ghost kk = jstr(item@, "key"@);
        let key = match item.get("key") {
            Some(Json::Str(s)) => Some(s.clone()),
            _ => None,
        };
        assert(match key {
            Some(k) => kk == Some(k@),
            None => kk is None,
        });
        match key {
            Some(k) => {
                let ghost before = out@;
                match find_key(&out, k.as_str()) {
                    Some(j) => {
                        proof {
                            assert forall|q: Seq<char>| #[trigger]
                                lookup(before.update(j as int, (k, item)), q) == if q == k@ {
                                    Some(item)
                                } else {
                                    lookup(before, q)
                                } by {
                                lemma_lookup_set(before, j as int, (k, item), q);
                            }
                        }
                        out.set(j, (k, item));
                    },
                    None => {
                        proof {
                            assert forall|q: Seq<char>| #[trigger]
                                lookup(before.push((k, item)), q) == if q == k@ {
                                    Some(item)
                                } else {
                                    lookup(before, q)
                                } by {
                                lemma_lookup_push(before, (k, item), q);
                            }
                        }
                        out.push((k, item));
                    },
                }
                assert forall|q: Seq<char>| #[trigger]
                    view_at(out@, q) == last_keyed(rv.take(i + 1), q) by {
                    assert(lookup(out@, q) == if q == k@ {
                        Some(item)
                    } else {
                        lookup(before, q)
                    });
                    assert(view_at(before, q) == last_keyed(rv.take(i as int), q));
                    assert(jstr(rv.take(i + 1).last(), "key"@) == Some(k@));
                }
            },
            None => {
                assert forall|q: Seq<char>| #[trigger]
                    view_at(out@, q) == last_keyed(rv.take(i + 1), q) by {
                    assert(view_at(out@, q) == last_keyed(rv.take(i as int), q));
                }
            },
        }
        i += 1;
    }
    assert(rv.take(i as int) =~= rv);
    out
}

/// The document stored under `k`, if any.
pub fn value_at<'a>(s: &'a Vec<(String, Json)>, k: &str) -> (r: Option<&'a Json>)
    ensures
        match r {
            Some(v) => view_at(s@, k@) == Some(v@),
            None => view_at(s@, k@) is None,
        },
{
    match find_key(s, k) {
        Some(j) => Some(&s[j].1),
        None => None,
    }
}

/// Whether the keys are in strictly increasing order.
pub open spec fn keys_ascending<V>(s: Seq<(String, V)>) -> bool {
    forall|a: int, b: int|
        0 <= a < b < s.len() ==> lex_sign(#[trigger] s[a].0@, #[trigger] s[b].0@) < 0
}

/// Keys in strictly increasing order are distinct.
pub proof fn lemma_ascending_distinct<V>(s: Seq<(String, V)>)
    requires
        keys_ascending(s),
    ensures
        keys_distinct(s),
{
    assert forall|a: int, b: int| 0 <= a < b < s.len() implies #[trigger] s[a].0@ != #[trigger] s[b].0@ by {
        assert(lex_sign(s[a].0@, s[b].0@) < 0);
        lemma_lex_sign_reflexive(s[a].0@);
    }
}

/// In a table with distinct keys, the value under a key is the one at the
/// index holding it.
pub proof fn lemma_lookup_distinct<V>(s: Seq<(String, V)>, q: Seq<char>, i: int)
    requires
        keys_distinct(s),
        0 <= i < s.len(),
        s[i].0@ == q,
    ensures
        lookup(s, q) == Some(s[i].1),
{
    assert(first_key(s, q, i));
    let c = choose|c: int| first_key(s, q, c);
    lemma_first_key_unique(s, q, i, c);
}

/// A key no entry holds has no value.
pub proof fn lemma_lookup_absent<V>(s: Seq<(String, V)>, q: Seq<char>)
    requires
        forall|i: int| 0 <= i < s.len() ==> #[trigger] s[i].0@ != q,
    ensures
        lookup(s, q) is None,
{
}

proof fn lemma_lookup_insert<V>(s: Seq<(String, V)>, p: int, e: (String, V), q: Seq<char>)
    requires
        keys_distinct(s),
        0 <= p <= s.len(),
        forall|j: int| 0 <= j < s.len() ==> #[trigger] s[j].0@ != e.0@,
    ensures
        keys_distinct(s.insert(p, e)),
        lookup(s.insert(p, e), q) == if q == e.0@ {
            Some(e.1)
        } else {
            lookup(s, q)
        },
{
    let t = s.insert(p, e);
    assert forall|a: int, b: int| 0 <= a < b < t.len() implies #[trigger] t[a].0@ != #[trigger] t[b].0@ by {
        let ia = if a < p { a } else if a == p { -1 } else { a - 1 };
        let ib = if b < p { b } else if b == p { -1 } else { b - 1 };
        if a == p {
            assert(t[b] == s[ib]);
        } else if b == p {
            assert(t[a] == s[ia]);
        } else {
            assert(t[a] == s[ia] && t[b] == s[ib]);
        }
    }
    if q == e.0@ {
        lemma_lookup_distinct(t, q, p);
    } else if exists|i: int| 0 <= i < s.len() && #[trigger] s[i].0@ == q {
        let i = choose|i: int| 0 <= i < s.len() && #[trigger] s[i].0@ == q;
        lemma_lookup_distinct(s, q, i);
        let j = if i < p { i } else { i + 1 };
        assert(t[j] == s[i]);
        lemma_lookup_distinct(t, q, j);
    } else {
        assert forall|i: int| 0 <= i < t.len() implies #[trigger] t[i].0@ != q by {
            if i < p {
                assert(t[i] == s[i]);
            } else if i > p {
                assert(t[i] == s[i - 1]);
            }
        }
    }
}

/// Store `v` under `k` in a table kept in key order: replace the value where
/// the key is already held, else insert it where its order puts it.
pub fn put_sorted<V>(t: &mut Vec<(String, V)>, k: String, v: V)
    requires
        keys_ascending(old(t)@),
    ensures
        keys_ascending(final(t)@),
        forall|q: Seq<char>| #[trigger]
            lookup(final(t)@, q) == if q == k@ {
                Some(v)
            } else {
                lookup(old(t)@, q)
            },
{
    let ghost s = t@;
    proof {
        lemma_ascending_distinct(s);
    }
    let kc = chars_of(k.as_str());
    let mut p: usize = 0;
    while p < t.len() && lex_sign_exec(&chars_of(t[p].0.as_str()), &kc) < 0
        invariant
            p <= t@.len(),
            t@ == s,
            kc@ == k@,
            forall|q: int| 0 <= q < p ==> lex_sign(#[trigger] s[q].0@, k@) < 0,
        decreases t.len() - p,
    {
        p += 1;
    }
    assert forall|q: int| 0 <= q < p implies #[trigger] s[q].0@ != k@ by {
        assert(lex_sign(s[q].0@, k@) < 0);
        lemma_lex_sign_reflexive(k@);
    }
    if p < t.len() && str_eq(t[p].0.as_str(), k.as_str()) {
        proof {
            assert(first_key(s, k@, p as int));
            assert forall|q: Seq<char>| #[trigger]
                lookup(s.update(p as int, (k, v)), q) == if q == k@ {
                    Some(v)
                } else {
                    lookup(s, q)
                } by {
                lemma_lookup_set(s, p as int, (k, v), q);
            }
        }
        t.set(p, (k, v));
        assert(keys_ascending(t@)) by {
            assert forall|a: int, b: int| 0 <= a < b < t@.len() implies lex_sign(
                #[trigger] t@[a].0@,
                #[trigger] t@[b].0@,
            ) < 0 by {
                assert(t@[a].0@ == s[a].0@);
                assert(t@[b].0@ == s[b].0@);
            }
        }
    } else {
        proof {
            if p < s.len() {
                lemma_lex_sign_antisymmetric(s[p as int].0@, k@);
                if lex_sign(s[p as int].0@, k@) == 0 {
                    lemma_lex_sign_zero(s[p as int].0@, k@);
                }
            }
            assert forall|j: int| 0 <= j < s.len() implies #[trigger] s[j].0@ != k@ by {
                if j > p {
                    assert(lex_sign(s[p as int].0@, s[j].0@) < 0);
                    lemma_lex_sign_antisymmetric(s[p as int].0@, k@);
                    lemma_lex_sign_antisymmetric(k@, s[j].0@);
                    if s[j].0@ == k@ {
                        lemma_lex_sign_antisymmetric(s[p as int].0@, s[j].0@);
                    }
                }
            }
            assert forall|q: Seq<char>| #[trigger]
                lookup(s.insert(p as int, (k, v)), q) == if q == k@ {
                    Some(v)
                } else {
                    lookup(s, q)
                } by {
                lemma_lookup_insert(s, p as int, (k, v), q);
            }
        }
        t.insert(p, (k, v));
        assert(keys_ascending(t@)) by {
            assert forall|a: int, b: int| 0 <= a < b < t@.len() implies lex_sign(
                #[trigger] t@[a].0@,
                #[trigger] t@[b].0@,
            ) < 0 by {
                if b < p {
                    assert(t@[a] == s[a] && t@[b] == s[b]);
                } else if b == p {
                    assert(t@[a] == s[a]);
                } else if a < p {
                    assert(t@[a] == s[a] && t@[b] == s[b - 1]);
                    lemma_lex_sign_antisymmetric(s[p as int].0@, k@);
                    if b - 1 > p {
                        lemma_lex_sign_strict(k@, s[p as int].0@, s[b - 1].0@);
                    }
                    lemma_lex_sign_strict(s[a].0@, k@, s[b - 1].0@);
                } else if a == p {
                    assert(t@[b] == s[b - 1]);
                    lemma_lex_sign_antisymmetric(s[p as int].0@, k@);
                    if b - 1 > p {
                        lemma_lex_sign_strict(k@, s[p as int].0@, s[b - 1].0@);
                    }
                } else {
                    assert(t@[a] == s[a - 1] && t@[b] == s[b - 1]);
                }
            }
        }
    }
}

} // verus!
