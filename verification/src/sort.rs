//! Stable ordering of records by a key.
//!
//! The commands order what they print: findings worst first, advisories most
//! urgent first, changes by weight then name, zones by reach then name. Every
//! one of those is a stable sort on a key made of a rank and a text, written
//! here once and proved to order its output and to keep every record.

use vstd::prelude::*;
use crate::text::{
    chars_of, lemma_lex_sign_antisymmetric, lemma_lex_sign_reflexive, lemma_lex_sign_transitive,
    lex_sign, lex_sign_exec,
};

verus! {

/// A record with the key it is ordered by: `rank` first, then `text`.
pub struct Keyed<T> {
    pub rank: u64,
    pub text: String,
    pub item: T,
}

/// A record as values: its rank, its text and its item.
pub open spec fn kview<T>(k: Keyed<T>) -> (int, Seq<char>, T) {
    (k.rank as int, k.text@, k.item)
}

/// Records as values.
pub open spec fn kviews<T>(s: Seq<Keyed<T>>) -> Seq<(int, Seq<char>, T)> {
    s.map_values(|k: Keyed<T>| kview(k))
}

/// The same key with `f` applied to the item.
pub open spec fn map_item<T, U>(x: (int, Seq<char>, T), f: spec_fn(T) -> U) -> (int, Seq<char>, U) {
    (x.0, x.1, f(x.2))
}

/// Whether `a` may come before `b`: its key is not greater.
pub open spec fn key_le<T>(a: (int, Seq<char>, T), b: (int, Seq<char>, T)) -> bool {
    a.0 < b.0 || (a.0 == b.0 && lex_sign(a.1, b.1) <= 0)
}

/// Where a stable insertion puts `x` in `s`, searching from `i`: before the
/// first record whose key is greater.
pub open spec fn insert_position<T>(s: Seq<(int, Seq<char>, T)>, x: (int, Seq<char>, T), i: int) -> int
    decreases s.len() - i,
{
    if i < 0 || i >= s.len() {
        s.len() as int
    } else if !key_le(s[i], x) {
        i
    } else {
        insert_position(s, x, i + 1)
    }
}

/// `s` with `x` inserted after every record whose key is not greater.
pub open spec fn insert_sorted<T>(s: Seq<(int, Seq<char>, T)>, x: (int, Seq<char>, T)) -> Seq<(int, Seq<char>, T)> {
    s.insert(insert_position(s, x, 0), x)
}

/// `s` stably sorted by key.
pub open spec fn sorted_by_key<T>(s: Seq<(int, Seq<char>, T)>) -> Seq<(int, Seq<char>, T)>
    decreases s.len(),
{
    if s.len() == 0 {
        s
    } else {
        insert_sorted(sorted_by_key(s.drop_last()), s.last())
    }
}

/// Whether a sequence is ordered by key.
pub open spec fn in_key_order<T>(s: Seq<(int, Seq<char>, T)>) -> bool {
    forall|i: int, j: int| 0 <= i < j < s.len() ==> key_le(#[trigger] s[i], #[trigger] s[j])
}

proof fn lemma_key_le_total<T>(a: (int, Seq<char>, T), b: (int, Seq<char>, T))
    ensures
        key_le(a, b) || key_le(b, a),
{
    lemma_lex_sign_antisymmetric(a.1, b.1);
}

proof fn lemma_key_le_transitive<T>(a: (int, Seq<char>, T), b: (int, Seq<char>, T), c: (int, Seq<char>, T))
    requires
        key_le(a, b),
        key_le(b, c),
    ensures
        key_le(a, c),
{
    if a.0 == b.0 && b.0 == c.0 {
        lemma_lex_sign_transitive(a.1, b.1, c.1);
    }
}

proof fn lemma_key_le_reflexive<T>(a: (int, Seq<char>, T))
    ensures
        key_le(a, a),
{
    lemma_lex_sign_reflexive(a.1);
}

proof fn lemma_insert_position<T>(s: Seq<(int, Seq<char>, T)>, x: (int, Seq<char>, T), i: int)
    requires
        0 <= i <= s.len(),
        forall|k: int| 0 <= k < i ==> key_le(#[trigger] s[k], x),
    ensures
        i <= insert_position(s, x, i) <= s.len(),
        forall|k: int| 0 <= k < insert_position(s, x, i) ==> key_le(#[trigger] s[k], x),
        insert_position(s, x, i) < s.len() ==> !key_le(s[insert_position(s, x, i)], x),
    decreases s.len() - i,
{
    if i < s.len() && key_le(s[i], x) {
        lemma_insert_position(s, x, i + 1);
    }
}

proof fn lemma_insert_sorted_in_order<T>(s: Seq<(int, Seq<char>, T)>, x: (int, Seq<char>, T))
    requires
        in_key_order(s),
    ensures
        in_key_order(insert_sorted(s, x)),
{
    lemma_insert_position(s, x, 0);
    let p = insert_position(s, x, 0);
    let r = insert_sorted(s, x);
    assert forall|i: int, j: int| 0 <= i < j < r.len() implies key_le(
        #[trigger] r[i],
        #[trigger] r[j],
    ) by {
        if j < p {
        } else if j == p {
        } else if i < p {
            assert(r[j] == s[j - 1]);
            if i < j - 1 {
                assert(key_le(s[i], s[j - 1]));
            } else {
                lemma_key_le_reflexive(s[i]);
            }
        } else if i == p {
            assert(r[j] == s[j - 1]);
            lemma_key_le_total(s[p], x);
            if p < j - 1 {
                assert(key_le(s[p], s[j - 1]));
                lemma_key_le_transitive(x, s[p], s[j - 1]);
            }
        } else {
            assert(r[i] == s[i - 1]);
            assert(r[j] == s[j - 1]);
        }
    }
}

/// Two sequences holding the same items, as many times each, still do once
/// every item is mapped.
pub proof fn lemma_permutation_maps<A, B>(s: Seq<A>, t: Seq<A>, f: spec_fn(A) -> B)
    requires
        s.to_multiset() == t.to_multiset(),
    ensures
        s.map_values(f).to_multiset() == t.map_values(f).to_multiset(),
    decreases s.len(),
{
    broadcast use vstd::seq_lib::to_multiset_build, vstd::seq_lib::to_multiset_remove,
        vstd::seq_lib::to_multiset_insert, vstd::seq_lib::to_multiset_len,
        vstd::seq_lib::to_multiset_contains;

    if s.len() == 0 {
        assert(t.to_multiset().len() == 0);
        assert(t.len() == 0);
        assert(s.map_values(f) =~= t.map_values(f));
    } else {
        let x = s.last();
        let p = s.drop_last();
        assert(p.push(x) =~= s);
        assert(s.to_multiset().count(x) > 0);
        assert(t.contains(x));
        let j = choose|j: int| 0 <= j < t.len() && t[j] == x;
        let u = t.remove(j);
        assert(u.to_multiset() =~= p.to_multiset());
        lemma_permutation_maps(p, u, f);
        assert(s.map_values(f) =~= p.map_values(f).push(f(x)));
        assert(t.map_values(f) =~= u.map_values(f).insert(j, f(x)));
    }
}

/// A stable sort orders its output by key.
pub proof fn law_sorted_in_key_order<T>(s: Seq<(int, Seq<char>, T)>)
    ensures
        in_key_order(sorted_by_key(s)),
    decreases s.len(),
{
    if s.len() > 0 {
        law_sorted_in_key_order(s.drop_last());
        lemma_insert_sorted_in_order(sorted_by_key(s.drop_last()), s.last());
    }
}

/// A stable sort keeps every record, as many times as it came.
pub proof fn law_sorted_is_permutation<T>(s: Seq<(int, Seq<char>, T)>)
    ensures
        sorted_by_key(s).to_multiset() == s.to_multiset(),
        sorted_by_key(s).len() == s.len(),
    decreases s.len(),
{
    broadcast use vstd::seq_lib::to_multiset_insert, vstd::seq_lib::to_multiset_build;

    if s.len() > 0 {
        law_sorted_is_permutation(s.drop_last());
        let t = sorted_by_key(s.drop_last());
        lemma_insert_position(t, s.last(), 0);
        assert(s.drop_last().push(s.last()) =~= s);
    }
}


proof fn lemma_insert_position_map<T, U>(s: Seq<(int, Seq<char>, T)>, x: (int, Seq<char>, T), f: spec_fn(T) -> U, i: int)
    ensures
        insert_position(s.map_values(|y: (int, Seq<char>, T)| map_item(y, f)), map_item(x, f), i)
            == insert_position(s, x, i),
    decreases s.len() - i,
{
    let m = s.map_values(|y: (int, Seq<char>, T)| map_item(y, f));
    if 0 <= i < s.len() {
        assert(m[i] == map_item(s[i], f));
        lemma_insert_position_map(s, x, f, i + 1);
    }
}

/// Sorting looks at keys only: what the items are mapped to afterwards could
/// as well have been mapped before.
pub proof fn law_sorted_maps_items<T, U>(s: Seq<(int, Seq<char>, T)>, f: spec_fn(T) -> U)
    ensures
        sorted_by_key(s).map_values(|y: (int, Seq<char>, T)| map_item(y, f)) == sorted_by_key(
            s.map_values(|y: (int, Seq<char>, T)| map_item(y, f)),
        ),
    decreases s.len(),
{
    let g = |y: (int, Seq<char>, T)| map_item(y, f);
    if s.len() == 0 {
        assert(sorted_by_key(s).map_values(g) =~= sorted_by_key(s.map_values(g)));
    } else {
        law_sorted_maps_items(s.drop_last(), f);
        assert(s.map_values(g).drop_last() =~= s.drop_last().map_values(g));
        let t = sorted_by_key(s.drop_last());
        lemma_insert_position_map(t, s.last(), f, 0);
        law_sorted_is_permutation(s.drop_last());
        lemma_insert_position(t, s.last(), 0);
        let p = insert_position(t, s.last(), 0);
        assert(t.insert(p, s.last()).map_values(g) =~= t.map_values(g).insert(p, g(s.last())));
    }
}

fn key_le_exec<T>(a: &Keyed<T>, b: &Keyed<T>) -> (r: bool)
    ensures
        r == key_le(kview(*a), kview(*b)),
{
    a.rank < b.rank || (a.rank == b.rank && lex_sign_exec(
        &chars_of(a.text.as_str()),
        &chars_of(b.text.as_str()),
    ) <= 0)
}

/// Sort records stably by key.
pub fn sort_keyed<T>(v: Vec<Keyed<T>>) -> (r: Vec<Keyed<T>>)
    ensures
        kviews(r@) == sorted_by_key(kviews(v@)),
{
    let ghost orig = v@;
    assert(orig.len() == v.len());
    let mut rest = v;
    let mut out: Vec<Keyed<T>> = Vec::new();
    let mut k: usize = 0;
    while rest.len() > 0
        invariant
            k <= orig.len() <= usize::MAX,
            rest@ == orig.skip(k as int),
            kviews(out@) == sorted_by_key(kviews(orig).take(k as int)),
        decreases rest.len(),
    {
        let x = rest.remove(0);
        assert(kviews(orig).take(k + 1).drop_last() =~= kviews(orig).take(k as int));
        assert(kviews(orig).take(k + 1).last() == kview(x));
        assert(rest@ =~= orig.skip(k + 1));
        let mut p: usize = 0;
        while p < out.len() && key_le_exec(&out[p], &x)
            invariant
                p <= out.len(),
                insert_position(kviews(out@), kview(x), 0) == insert_position(
                    kviews(out@),
                    kview(x),
                    p as int,
                ),
            decreases out.len() - p,
        {
            p += 1;
        }
        let ghost before = out@;
        out.insert(p, x);
        assert(kviews(out@) =~= kviews(before).insert(p as int, kview(x)));
        k += 1;
    }
    assert(kviews(orig).take(k as int) =~= kviews(orig));
    out
}

} // verus!
