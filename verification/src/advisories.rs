//! Published advisories mentioning the hardware on the site.
//!
//! This produces a **reading list, never a verdict**. Advisories catalogue
//! products at exact pinned versions, and several carry no product metadata
//! at all, so matching is on product identity, and an empty result means "no
//! advisory names this model", which is not the same as "this model is
//! unaffected".

use vstd::prelude::*;
use crate::sort::{
    key_le, kview, kviews, law_sorted_in_key_order, law_sorted_is_permutation, law_sorted_maps_items,
    map_item, sort_keyed, sorted_by_key, Keyed,
};
use crate::text::{
    char_lowercase, chars_of, contains_seq, find_chars, is_alphanumeric, join, join_strings,
    string_of, str_eq, unicode_alphanumeric, unicode_char_lower, utf8_len,
};

verus! {

/// One published advisory.
///
/// `score_key` orders advisories by their CVSS score: it is the key of the
/// score in the total order of floating-point numbers, the score counting as
/// zero where there is none.
#[derive(Clone, Debug)]
pub struct Advisory {
    pub id: String,
    pub description: String,
    pub published: String,
    pub score_key: u64,
    pub cvss_severity: Option<String>,
    pub in_kev: bool,
    pub affected_products: Vec<String>,
}

/// Lowercase alphanumerics only: model names are punctuated inconsistently
/// on both sides (`USW-Lite-8-PoE`, `usw lite 8 poe`).
pub open spec fn normalized(s: Seq<char>) -> Seq<char>
    decreases s.len(),
{
    if s.len() == 0 {
        Seq::empty()
    } else {
        normalized(s.drop_last()) + if unicode_alphanumeric(s.last()) {
            unicode_char_lower(s.last())
        } else {
            Seq::empty()
        }
    }
}

fn normalize_chars(v: &Vec<char>) -> (r: Vec<char>)
    ensures
        r@ == normalized(v@),
{
    let mut out: Vec<char> = Vec::new();
    let mut i: usize = 0;
    while i < v.len()
        invariant
            i <= v@.len(),
            out@ == normalized(v@.take(i as int)),
        decreases v.len() - i,
    {
        assert(v@.take(i + 1).drop_last() =~= v@.take(i as int));
        assert(v@.take(i + 1).last() == v@[i as int]);
        if is_alphanumeric(v[i]) {
            let mut low = char_lowercase(v[i]);
            out.append(&mut low);
        }
        i += 1;
    }
    assert(v@.take(i as int) =~= v@);
    out
}

/// Lowercase alphanumerics only.
pub fn normalize(s: &str) -> (r: String)
    ensures
        r@ == normalized(s@),
{
    string_of(&normalize_chars(&chars_of(s)))
}

/// A prefix takes no more bytes than the whole.
pub proof fn lemma_utf8_prefix(s: Seq<char>, k: int)
    requires
        0 <= k <= s.len(),
    ensures
        utf8_len(s.take(k)) <= utf8_len(s),
    decreases s.len(),
{
    if k < s.len() {
        assert(s.drop_last().take(k) =~= s.take(k));
        lemma_utf8_prefix(s.drop_last(), k);
    } else {
        assert(s.take(k) =~= s);
    }
}

/// Everything a model name could appear in: the description and the
/// product metadata, normalized.
pub open spec fn haystack(a: Advisory) -> Seq<char> {
    normalized(a.description@ + " "@ + join(a.affected_products@.map_values(|s: String| s@), " "@))
}

impl Advisory {
    /// Everything a model name could appear in, normalized once.
    pub fn haystack(&self) -> (r: Vec<char>)
        ensures
            r@ == haystack(*self),
    {
        let mut all = self.description.clone();
        all.append(" ");
        all.append(join_strings(&self.affected_products, " ").as_str());
        normalize_chars(&chars_of(all.as_str()))
    }
}

/// The identifiers worth searching for: the models normalized, those under
/// four characters dropped, since they match everything and mean nothing.
pub open spec fn needles(models: Seq<Seq<char>>) -> Seq<Seq<char>>
    decreases models.len(),
{
    if models.len() == 0 {
        Seq::empty()
    } else {
        needles(models.drop_last()) + if normalized(models.last()).len() >= 4 {
            seq![normalized(models.last())]
        } else {
            Seq::empty()
        }
    }
}

/// Whether an advisory names one of the needles.
pub open spec fn names_any(a: Advisory, ns: Seq<Seq<char>>) -> bool {
    exists|j: int| 0 <= j < ns.len() && contains_seq(haystack(a), #[trigger] ns[j])
}

/// The advisories naming any needle, in list order.
pub open spec fn hits(list: Seq<Advisory>, ns: Seq<Seq<char>>) -> Seq<Advisory>
    decreases list.len(),
{
    if list.len() == 0 {
        Seq::empty()
    } else {
        hits(list.drop_last(), ns) + if names_any(list.last(), ns) {
            seq![list.last()]
        } else {
            Seq::empty()
        }
    }
}

/// Where an advisory sorts in one pass: by score, highest first, or by
/// exploitation, exploited first.
pub open spec fn adv_rank(a: Advisory, by_kev: bool) -> int {
    if by_kev {
        if a.in_kev {
            0
        } else {
            1
        }
    } else {
        (u64::MAX - a.score_key) as int
    }
}

/// One stable sorting pass.
pub open spec fn sort_pass(s: Seq<Advisory>, by_kev: bool) -> Seq<Advisory> {
    sorted_by_key(s.map_values(|a: Advisory| (adv_rank(a, by_kev), Seq::<char>::empty(), a))).map_values(
        |t: (int, Seq<char>, Advisory)| t.2,
    )
}

/// The reading order: by score, highest first, then stably with the actively
/// exploited ones first; so exploited advisories lead, each group by score.
pub open spec fn reading_order(s: Seq<Advisory>) -> Seq<Advisory> {
    sort_pass(sort_pass(s, false), true)
}

/// The advisories naming any of `models`, in reading order.
pub open spec fn matching_spec(list: Seq<Advisory>, models: Seq<Seq<char>>) -> Seq<Advisory> {
    if needles(models).len() == 0 {
        Seq::empty()
    } else {
        reading_order(hits(list, needles(models)))
    }
}

fn needle_list(models: &Vec<String>) -> (r: Vec<Vec<char>>)
    ensures
        r@.map_values(|v: Vec<char>| v@) == needles(models@.map_values(|s: String| s@)),
{
    let ghost mv = models@.map_values(|s: String| s@);
    let mut out: Vec<Vec<char>> = Vec::new();
    let mut i: usize = 0;
    while i < models.len()
        invariant
            i <= models@.len(),
            mv == models@.map_values(|s: String| s@),
            out@.map_values(|v: Vec<char>| v@) == needles(mv.take(i as int)),
        decreases models.len() - i,
    {
        assert(mv.take(i + 1).drop_last() =~= mv.take(i as int));
        assert(mv.take(i + 1).last() == models@[i as int]@);
        let ghost before = out@;
        let cs = chars_of(models[i].as_str());
        let n = normalize_chars(&cs);
        let wide = n.len() >= 4;
        if wide {
            out.push(n);
        }
        proof {
            if wide {
                crate::text::lemma_map_push(before, out@.last(), |v: Vec<char>| v@);
                assert(out@ == before.push(out@.last()));
            }
        }
        i += 1;
    }
    assert(mv.take(i as int) =~= mv);
    out
}

/// Whether the advisory names one of the needles.
fn names_any_exec(a: &Advisory, ns: &Vec<Vec<char>>) -> (r: bool)
    ensures
        r == names_any(*a, ns@.map_values(|v: Vec<char>| v@)),
{
    let hay = a.haystack();
    let ghost nv = ns@.map_values(|v: Vec<char>| v@);
    let mut j: usize = 0;
    while j < ns.len()
        invariant
            j <= ns@.len(),
            nv == ns@.map_values(|v: Vec<char>| v@),
            hay@ == haystack(*a),
            forall|q: int| 0 <= q < j ==> !contains_seq(haystack(*a), #[trigger] nv[q]),
        decreases ns.len() - j,
    {
        if find_chars(&hay, &ns[j]).is_some() {
            assert(contains_seq(haystack(*a), nv[j as int]));
            return true;
        }
        j += 1;
    }
    false
}

/// One stable sorting pass over references, by the ranks given.
fn sort_refs<'a>(v: Vec<&'a Advisory>, by_kev: bool) -> (r: Vec<&'a Advisory>)
    ensures
        r@.map_values(|a: &Advisory| *a) == sort_pass(v@.map_values(|a: &Advisory| *a), by_kev),
{
    let ghost want = v@.map_values(|a: &Advisory| (adv_rank(*a, by_kev), Seq::<char>::empty(), *a));
    proof {
        assert(want =~= v@.map_values(|a: &Advisory| *a).map_values(
            |a: Advisory| (adv_rank(a, by_kev), Seq::<char>::empty(), a),
        ));
    }
    let ghost f = |a: &Advisory| *a;
    let ghost g = |y: (int, Seq<char>, &Advisory)| map_item(y, f);
    let mut keyed: Vec<Keyed<&'a Advisory>> = Vec::new();
    let mut k: usize = 0;
    while k < v.len()
        invariant
            k <= v@.len(),
            keyed@.len() == k,
            want == v@.map_values(|a: &Advisory| (adv_rank(*a, by_kev), Seq::<char>::empty(), *a)),
            f == (|a: &Advisory| *a),
            g == (|y: (int, Seq<char>, &Advisory)| map_item(y, f)),
            kviews(keyed@).map_values(g) == want.take(k as int),
        decreases v.len() - k,
    {
        let a = v[k];
        let rank: u64 = if by_kev {
            if a.in_kev {
                0
            } else {
                1
            }
        } else {
            u64::MAX - a.score_key
        };
        let ghost before = keyed@;
        keyed.push(Keyed { rank, text: String::new(), item: a });
        assert(kviews(keyed@).map_values(g) =~= want.take(k + 1)) by {
            assert(kviews(before).map_values(g) == want.take(k as int));
            assert(kviews(keyed@).map_values(g)[k as int] == want[k as int]);
            assert forall|q: int| 0 <= q < k implies #[trigger] kviews(keyed@).map_values(g)[q]
                == kviews(before).map_values(g)[q] by {
                assert(keyed@[q] == before[q]);
            }
        }
        k += 1;
    }
    assert(want.take(k as int) =~= want);
    let ghost kv = kviews(keyed@);
    let sorted = sort_keyed(keyed);
    proof {
        law_sorted_maps_items(kv, f);
    }
    let ghost target = sorted_by_key(want);
    assert(kviews(sorted@).map_values(g) == target);
    let mut out: Vec<&'a Advisory> = Vec::new();
    let mut j: usize = 0;
    while j < sorted.len()
        invariant
            j <= sorted@.len(),
            target.len() == sorted@.len(),
            out@.len() == j,
            kviews(sorted@).map_values(g) == target,
            g == (|y: (int, Seq<char>, &Advisory)| map_item(y, f)),
            f == (|a: &Advisory| *a),
            out@.map_values(|a: &Advisory| *a) == target.take(j as int).map_values(
                |t: (int, Seq<char>, Advisory)| t.2,
            ),
        decreases sorted.len() - j,
    {
        let ghost before = out@;
        out.push(sorted[j].item);
        proof {
            assert(kviews(sorted@).map_values(g)[j as int] == target[j as int]);
            let a = out@.map_values(|a: &Advisory| *a);
            let b = target.take(j + 1).map_values(|t: (int, Seq<char>, Advisory)| t.2);
            let a0 = before.map_values(|a: &Advisory| *a);
            let b0 = target.take(j as int).map_values(|t: (int, Seq<char>, Advisory)| t.2);
            assert(a0 == b0);
            assert forall|q: int| 0 <= q < j + 1 implies #[trigger] a[q] == b[q] by {
                if q < j {
                    assert(a0[q] == b0[q]);
                }
            }
            assert(a =~= b);
        }
        j += 1;
    }
    assert(target.take(j as int) =~= target);
    proof {
        assert(want == v@.map_values(|a: &Advisory| *a).map_values(
            |a: Advisory| (adv_rank(a, by_kev), Seq::<char>::empty(), a),
        ));
    }
    out
}

/// Advisories naming any of `models`, actively exploited first, then by
/// score. Both sides are reduced to lowercase alphanumerics before
/// matching, so `U6-LR` finds `U6-LR`, `u6 lr` and `u6lr` alike.
pub fn matching<'a>(list: &'a Vec<Advisory>, models: &Vec<String>) -> (r: Vec<&'a Advisory>)
    ensures
        r@.map_values(|a: &Advisory| *a) == matching_spec(list@, models@.map_values(|s: String| s@)),
{
    let ns = needle_list(models);
    let ghost nv = ns@.map_values(|v: Vec<char>| v@);
    if ns.len() == 0 {
        let out: Vec<&'a Advisory> = Vec::new();
        assert(out@.map_values(|a: &Advisory| *a) =~= Seq::<Advisory>::empty());
        return out;
    }
    let mut found: Vec<&'a Advisory> = Vec::new();
    let mut i: usize = 0;
    while i < list.len()
        invariant
            i <= list@.len(),
            nv == ns@.map_values(|v: Vec<char>| v@),
            found@.map_values(|a: &Advisory| *a) == hits(list@.take(i as int), nv),
        decreases list.len() - i,
    {
        assert(list@.take(i + 1).drop_last() =~= list@.take(i as int));
        assert(list@.take(i + 1).last() == list@[i as int]);
        let ghost before = found@;
        if names_any_exec(&list[i], &ns) {
            found.push(&list[i]);
            proof {
                crate::text::lemma_map_push(before, &list@[i as int], |a: &Advisory| *a);
            }
        }
        i += 1;
    }
    assert(list@.take(i as int) =~= list@);
    let ghost h = hits(list@, nv);
    let by_score = sort_refs(found, false);
    let out = sort_refs(by_score, true);
    out
}

/// Actively exploited advisories are listed before merely severe ones: in
/// the reading order no exploited advisory follows one that is not.
pub proof fn law_exploited_first(s: Seq<Advisory>)
    ensures
        reading_order(s).len() == s.len(),
        forall|a: int, b: int|
            0 <= a < b < s.len() && (#[trigger] reading_order(s)[b]).in_kev ==> (
            #[trigger] reading_order(s)[a]).in_kev,
{
    let s1 = sort_pass(s, false);
    let k0 = s.map_values(|a: Advisory| (adv_rank(a, false), Seq::<char>::empty(), a));
    law_sorted_is_permutation(k0);
    let k = s1.map_values(|a: Advisory| (adv_rank(a, true), Seq::<char>::empty(), a));
    law_sorted_in_key_order(k);
    law_sorted_is_permutation(k);
    let t = sorted_by_key(k);
    assert forall|x: (int, Seq<char>, Advisory)| t.contains(x) implies x.0 == adv_rank(x.2, true) by {
        vstd::seq_lib::to_multiset_contains(t, x);
        vstd::seq_lib::to_multiset_contains(k, x);
        let j = choose|j: int| 0 <= j < k.len() && k[j] == x;
    }
    assert forall|a: int, b: int|
        0 <= a < b < s.len() && (#[trigger] reading_order(s)[b]).in_kev implies (
        #[trigger] reading_order(s)[a]).in_kev by {
        assert(key_le(t[a], t[b]));
        assert(t.contains(t[a]));
        assert(t.contains(t[b]));
    }
}

/// `page` added to `items`, each advisory once: one already held by its id
/// is not added again.
pub open spec fn merged(items: Seq<Advisory>, page: Seq<Advisory>) -> Seq<Advisory>
    decreases page.len(),
{
    if page.len() == 0 {
        items
    } else {
        let before = merged(items, page.drop_last());
        if exists|i: int| 0 <= i < before.len() && #[trigger] before[i].id@ == page.last().id@ {
            before
        } else {
            before.push(page.last())
        }
    }
}


/// Whether no two advisories of a list share an id.
pub open spec fn ids_distinct(s: Seq<Advisory>) -> bool {
    forall|a: int, b: int| 0 <= a < b < s.len() ==> #[trigger] s[a].id@ != #[trigger] s[b].id@
}

/// Whether some advisory of a list carries the id `id`.
pub open spec fn holds(s: Seq<Advisory>, id: Seq<char>) -> bool {
    exists|i: int| 0 <= i < s.len() && #[trigger] s[i].id@ == id
}

/// Merging pages holds each advisory once: into a list whose ids are
/// distinct, a page adds only ids not held yet, so they stay distinct; what
/// was held stays where it was; and every id of the page is held afterwards.
pub proof fn law_merge_holds_each_id_once(items: Seq<Advisory>, page: Seq<Advisory>)
    requires
        ids_distinct(items),
    ensures
        ids_distinct(merged(items, page)),
        merged(items, page).len() >= items.len(),
        forall|i: int| 0 <= i < items.len() ==> #[trigger] merged(items, page)[i] == items[i],
        forall|j: int| 0 <= j < page.len() ==> holds(merged(items, page), #[trigger] page[j].id@),
    decreases page.len(),
{
    if page.len() > 0 {
        let rest = page.drop_last();
        law_merge_holds_each_id_once(items, rest);
        let before = merged(items, rest);
        let x = page.last();
        let after = merged(items, page);
        assert forall|j: int| 0 <= j < page.len() implies holds(after, #[trigger] page[j].id@) by {
            if j < page.len() - 1 {
                assert(rest[j] == page[j]);
                assert(holds(before, rest[j].id@));
                let i = choose|i: int| 0 <= i < before.len() && #[trigger] before[i].id@ == rest[j].id@;
                if exists|k: int| 0 <= k < before.len() && #[trigger] before[k].id@ == x.id@ {
                    assert(after == before);
                } else {
                    assert(after == before.push(x));
                    assert(after[i] == before[i]);
                }
                assert(after[i].id@ == page[j].id@);
            } else {
                if exists|k: int| 0 <= k < before.len() && #[trigger] before[k].id@ == x.id@ {
                    let k = choose|k: int| 0 <= k < before.len() && #[trigger] before[k].id@ == x.id@;
                    assert(after[k].id@ == page[j].id@);
                } else {
                    assert(after[before.len() as int] == x);
                }
            }
        }
        if !(exists|k: int| 0 <= k < before.len() && #[trigger] before[k].id@ == x.id@) {
            assert(after == before.push(x));
            assert forall|a: int, b: int| 0 <= a < b < after.len() implies #[trigger] after[a].id@
                != #[trigger] after[b].id@ by {
                if b == before.len() {
                    assert(after[a] == before[a]);
                } else {
                    assert(after[a] == before[a] && after[b] == before[b]);
                }
            }
            assert forall|i: int| 0 <= i < items.len() implies #[trigger] after[i] == items[i] by {
                assert(after[i] == before[i]);
            }
        }
    }
}

fn holds_id(items: &Vec<Advisory>, id: &str) -> (r: bool)
    ensures
        r == exists|i: int| 0 <= i < items@.len() && #[trigger] items@[i].id@ == id@,
{
    let mut i: usize = 0;
    while i < items.len()
        invariant
            i <= items@.len(),
            forall|q: int| 0 <= q < i ==> #[trigger] items@[q].id@ != id@,
        decreases items.len() - i,
    {
        if str_eq(items[i].id.as_str(), id) {
            return true;
        }
        i += 1;
    }
    false
}

/// Add a page of results to the list, each advisory once by its id: the
/// upstream service is asked once per term and the answers overlap.
pub fn merge(items: &mut Vec<Advisory>, page: Vec<Advisory>)
    ensures
        final(items)@ == merged(old(items)@, page@),
{
    let ghost start = items@;
    let ghost pv = page@;
    let mut rest = page;
    let n = rest.len();
    let mut k: usize = 0;
    while rest.len() > 0
        invariant
            k + rest@.len() == n,
            n == pv.len(),
            forall|j: int| 0 <= j < rest@.len() ==> #[trigger] rest@[j] == pv[k + j],
            items@ == merged(start, pv.take(k as int)),
        decreases rest.len(),
    {
        assert(rest@[0] == pv[k as int]);
        let a = rest.remove(0);
        assert(pv.take(k + 1).drop_last() =~= pv.take(k as int));
        assert(pv.take(k + 1).last() == a);
        let seen = holds_id(items, a.id.as_str());
        if !seen {
            items.push(a);
        }
        k += 1;
    }
    assert(pv.take(k as int) =~= pv);
}

} // verus!
