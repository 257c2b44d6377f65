//! What a compromised client would reach, from the firewall rules between
//! zones.
//!
//! **Order is determined inside a zone pair.** A packet is only ever evaluated
//! against the rules for its own source-destination pair, and within one pair
//! the rule indices do not collide, so the verdict for a pair is computable.
//!
//! **Only some rules decide it.** A block that matches one connection state
//! alone looks like a blanket block and is not. Only rules that apply to every
//! connection state settle a pair; a rule that names specific hosts or ports
//! narrows the traffic instead of settling it.

use vstd::prelude::*;
use crate::json::{count_if, first_from, jflag, jget, jget2, jint, jitems, jstr, jtext, lemma_first_from, Json, JsonV};
use crate::sort::{kview, kviews, law_sorted_maps_items, map_item, sort_keyed, sorted_by_key, Keyed};
use crate::table::{find_key, first_key, keys_distinct, lemma_lookup_push, lookup};
use crate::text::{join, join_strings, lower_all, lower_chars, chars_of, chars_eq, str_eq, to_lowercase, unicode_lower};

verus! {

/// What one zone pair permits.
#[derive(Clone, Copy, Debug, PartialEq, Eq, Structural)]
pub enum Verdict {
    /// Any traffic is accepted.
    Open,
    /// Only what a specific rule names: certain addresses or ports.
    Partial,
    Blocked,
}

pub open spec fn verdict_label(v: Verdict) -> Seq<char> {
    match v {
        Verdict::Open => "everything"@,
        Verdict::Partial => "specific hosts or ports"@,
        Verdict::Blocked => "nothing"@,
    }
}

impl Verdict {
    pub fn label(self) -> (r: &'static str)
        ensures
            r@ == verdict_label(self),
    {
        match self {
            Verdict::Open => "everything",
            Verdict::Partial => "specific hosts or ports",
            Verdict::Blocked => "nothing",
        }
    }
}

/// The string under `k`, or `dflt` when there is none.
pub open spec fn text_or(v: JsonV, k: Seq<char>, dflt: Seq<char>) -> Seq<char> {
    match jstr(v, k) {
        Some(s) => s,
        None => dflt,
    }
}

/// Whether one side of a rule names specific addresses or ports.
pub open spec fn side_narrowed(p: JsonV, side: Seq<char>) -> bool {
    match jget(p, side) {
        Some(s) => text_or(s, "matching_target"@, "ANY"@) != "ANY"@ || text_or(
            s,
            "port_matching_type"@,
            "ANY"@,
        ) != "ANY"@,
        None => false,
    }
}

/// Whether a rule matches only part of the traffic between its zones.
pub open spec fn narrowed(p: JsonV) -> bool {
    side_narrowed(p, "source"@) || side_narrowed(p, "destination"@) || text_or(
        p,
        "protocol"@,
        "all"@,
    ) != "all"@
}

/// The zone a rule names on one side.
pub open spec fn zone_of(p: JsonV, side: Seq<char>) -> Option<Seq<char>> {
    match jget2(p, side, "zone_id"@) {
        Some(JsonV::Str(z)) => Some(z),
        _ => None,
    }
}

/// Whether a rule is enabled and governs traffic from `s` to `d`.
pub open spec fn in_pair(p: JsonV, s: Seq<char>, d: Seq<char>) -> bool {
    jflag(p, "enabled"@) && zone_of(p, "source"@) == Some(s) && zone_of(p, "destination"@) == Some(d)
}

/// Where a rule sorts: by its index, a rule without one last.
pub open spec fn rule_index(p: JsonV) -> int {
    match jint(p, "index"@) {
        Some(n) => n,
        None => i64::MAX as int,
    }
}

/// Whether rule `a` is evaluated before rule `b`: by index, then as listed.
pub open spec fn evaluated_before(ps: Seq<JsonV>, a: int, b: int) -> bool {
    rule_index(ps[a]) < rule_index(ps[b]) || (rule_index(ps[a]) == rule_index(ps[b]) && a < b)
}

/// A rule that settles its pair: it applies to every connection state and
/// does not narrow.
pub open spec fn settles(p: JsonV) -> bool {
    !narrowed(p) && jstr(p, "connection_state_type"@) == Some("ALL"@)
}

pub open spec fn allows(p: JsonV) -> bool {
    jstr(p, "action"@) == Some("ALLOW"@)
}

/// Whether rule `j` is the first, in evaluation order, to settle the pair.
pub open spec fn decides(ps: Seq<JsonV>, s: Seq<char>, d: Seq<char>, j: int) -> bool {
    &&& 0 <= j < ps.len()
    &&& in_pair(ps[j], s, d)
    &&& settles(ps[j])
    &&& forall|k: int|
        0 <= k < ps.len() && k != j && in_pair(#[trigger] ps[k], s, d) && settles(ps[k])
            ==> evaluated_before(ps, j, k)
}

/// Whether a narrowed allow for the pair is evaluated before rule `j` (before
/// every rule where `j` is none).
pub open spec fn opens_part_before(ps: Seq<JsonV>, s: Seq<char>, d: Seq<char>, j: Option<int>) -> bool {
    exists|k: int|
        0 <= k < ps.len() && in_pair(#[trigger] ps[k], s, d) && narrowed(ps[k]) && allows(ps[k])
            && match j {
            Some(j) => evaluated_before(ps, k, j),
            None => true,
        }
}

/// The verdict for the pair from `s` to `d`.
pub open spec fn pair_verdict(ps: Seq<JsonV>, s: Seq<char>, d: Seq<char>) -> Verdict {
    if exists|j: int| decides(ps, s, d, j) {
        let j = choose|j: int| decides(ps, s, d, j);
        if allows(ps[j]) {
            Verdict::Open
        } else if opens_part_before(ps, s, d, Some(j)) {
            Verdict::Partial
        } else {
            Verdict::Blocked
        }
    } else if opens_part_before(ps, s, d, None) {
        Verdict::Partial
    } else {
        Verdict::Blocked
    }
}

/// Whether any enabled rule governs the pair.
pub open spec fn has_rule(ps: Seq<JsonV>, s: Seq<char>, d: Seq<char>) -> bool {
    exists|k: int| 0 <= k < ps.len() && in_pair(#[trigger] ps[k], s, d)
}

/// The verdict a matrix holds for a pair.
pub open spec fn matrix_at(m: Seq<(String, String, Verdict)>, s: Seq<char>, d: Seq<char>) -> Option<
    Verdict,
> {
    if exists|i: int| 0 <= i < m.len() && m[i].0@ == s && #[trigger] m[i].1@ == d {
        let i = choose|i: int| 0 <= i < m.len() && m[i].0@ == s && #[trigger] m[i].1@ == d;
        Some(m[i].2)
    } else {
        None
    }
}

/// Whether a matrix holds each pair once.
pub open spec fn pairs_distinct(m: Seq<(String, String, Verdict)>) -> bool {
    forall|a: int, b: int|
        0 <= a < b < m.len() ==> !(#[trigger] m[a].0@ == #[trigger] m[b].0@ && m[a].1@ == m[b].1@)
}

proof fn lemma_decides_unique(ps: Seq<JsonV>, s: Seq<char>, d: Seq<char>, a: int, b: int)
    requires
        decides(ps, s, d, a),
        decides(ps, s, d, b),
    ensures
        a == b,
{
    if a != b {
        assert(in_pair(ps[b], s, d));
        assert(in_pair(ps[a], s, d));
    }
}


/// Where rule `k` of `ps` stands once a rule is inserted at `i`.
pub open spec fn shifted(i: int, k: int) -> int {
    if k < i {
        k
    } else {
        k + 1
    }
}

proof fn lemma_insert_index(ps: Seq<JsonV>, i: int, r: JsonV, k: int)
    requires
        0 <= i <= ps.len(),
        0 <= k < ps.len(),
    ensures
        ps.insert(i, r)[shifted(i, k)] == ps[k],
        0 <= shifted(i, k) < ps.len() + 1,
        shifted(i, k) != i,
{
}

proof fn lemma_insert_decides(ps: Seq<JsonV>, i: int, r: JsonV, s: Seq<char>, d: Seq<char>, j: int)
    requires
        0 <= i <= ps.len(),
        !jflag(r, "enabled"@),
    ensures
        decides(ps, s, d, j) ==> decides(ps.insert(i, r), s, d, shifted(i, j)),
        decides(ps.insert(i, r), s, d, j) ==> j != i && decides(
            ps,
            s,
            d,
            if j < i { j } else { j - 1 },
        ),
{
    let qs = ps.insert(i, r);
    assert(qs[i] == r);
    assert forall|k: int| 0 <= k < ps.len() implies #[trigger] qs[shifted(i, k)] == ps[k] by {
        lemma_insert_index(ps, i, r, k);
    }
    if decides(ps, s, d, j) {
        let jq = shifted(i, j);
        lemma_insert_index(ps, i, r, j);
        assert forall|k: int|
            0 <= k < qs.len() && k != jq && in_pair(#[trigger] qs[k], s, d) && settles(qs[k])
                implies evaluated_before(qs, jq, k) by {
            assert(k != i);
            let kp = if k < i { k } else { k - 1 };
            assert(shifted(i, kp) == k);
            assert(qs[k] == ps[kp]);
            assert(kp != j);
            assert(in_pair(ps[kp], s, d));
            assert(evaluated_before(ps, j, kp));
        }
    }
    if decides(qs, s, d, j) {
        assert(j != i);
        let jp = if j < i { j } else { j - 1 };
        assert(shifted(i, jp) == j);
        assert(ps[jp] == qs[j]);
        assert forall|k: int|
            0 <= k < ps.len() && k != jp && in_pair(#[trigger] ps[k], s, d) && settles(ps[k])
                implies evaluated_before(ps, jp, k) by {
            let kq = shifted(i, k);
            assert(qs[kq] == ps[k]);
            assert(in_pair(qs[kq], s, d));
            assert(evaluated_before(qs, j, kq));
        }
    }
}

proof fn lemma_insert_opens(ps: Seq<JsonV>, i: int, r: JsonV, s: Seq<char>, d: Seq<char>, j: Option<int>)
    requires
        0 <= i <= ps.len(),
        !jflag(r, "enabled"@),
        j matches Some(x) ==> 0 <= x < ps.len(),
    ensures
        opens_part_before(ps, s, d, j) == opens_part_before(
            ps.insert(i, r),
            s,
            d,
            match j {
                Some(x) => Some(shifted(i, x)),
                None => None,
            },
        ),
{
    let qs = ps.insert(i, r);
    let jq = match j {
        Some(x) => Some(shifted(i, x)),
        None => None,
    };
    assert(qs[i] == r);
    if let Some(x) = j {
        lemma_insert_index(ps, i, r, x);
    }
    if opens_part_before(ps, s, d, j) {
        let k = choose|k: int|
            0 <= k < ps.len() && in_pair(#[trigger] ps[k], s, d) && narrowed(ps[k]) && allows(ps[k])
                && match j {
                Some(j) => evaluated_before(ps, k, j),
                None => true,
            };
        lemma_insert_index(ps, i, r, k);
        assert(in_pair(qs[shifted(i, k)], s, d));
    }
    if opens_part_before(qs, s, d, jq) {
        let k = choose|k: int|
            0 <= k < qs.len() && in_pair(#[trigger] qs[k], s, d) && narrowed(qs[k]) && allows(qs[k])
                && match jq {
                Some(j) => evaluated_before(qs, k, j),
                None => true,
            };
        assert(k != i);
        let kp = if k < i { k } else { k - 1 };
        lemma_insert_index(ps, i, r, kp);
        assert(shifted(i, kp) == k);
        assert(in_pair(ps[kp], s, d));
    }
}

/// A disabled rule decides nothing: inserting one anywhere among the rules
/// changes no verdict, and makes no pair governed that was not before.
pub proof fn law_disabled_rule_decides_nothing(ps: Seq<JsonV>, i: int, r: JsonV, s: Seq<char>, d: Seq<char>)
    requires
        0 <= i <= ps.len(),
        !jflag(r, "enabled"@),
    ensures
        has_rule(ps.insert(i, r), s, d) == has_rule(ps, s, d),
        pair_verdict(ps.insert(i, r), s, d) == pair_verdict(ps, s, d),
{
    let qs = ps.insert(i, r);
    assert(qs[i] == r);
    if has_rule(ps, s, d) {
        let k = choose|k: int| 0 <= k < ps.len() && in_pair(#[trigger] ps[k], s, d);
        lemma_insert_index(ps, i, r, k);
        assert(in_pair(qs[shifted(i, k)], s, d));
    }
    if has_rule(qs, s, d) {
        let k = choose|k: int| 0 <= k < qs.len() && in_pair(#[trigger] qs[k], s, d);
        assert(k != i);
        let kp = if k < i { k } else { k - 1 };
        lemma_insert_index(ps, i, r, kp);
        assert(shifted(i, kp) == k);
        assert(in_pair(ps[kp], s, d));
    }
    if exists|j: int| decides(ps, s, d, j) {
        let jp = choose|j: int| decides(ps, s, d, j);
        lemma_insert_decides(ps, i, r, s, d, jp);
        assert(decides(qs, s, d, shifted(i, jp)));
        let jq = choose|j: int| decides(qs, s, d, j);
        lemma_insert_decides(ps, i, r, s, d, jq);
        let back = if jq < i { jq } else { jq - 1 };
        lemma_decides_unique(ps, s, d, back, jp);
        assert(jq == shifted(i, jp));
        lemma_insert_index(ps, i, r, jp);
        lemma_insert_opens(ps, i, r, s, d, Some(jp));
    } else {
        assert forall|j: int| !decides(qs, s, d, j) by {
            lemma_insert_decides(ps, i, r, s, d, j);
        }
        lemma_insert_opens(ps, i, r, s, d, None);
    }
}

/// A rule limited to one protocol never settles a zone pair: it matches
/// only part of the traffic, whatever its addresses and ports say.
pub proof fn law_protocol_rule_never_settles(p: JsonV)
    requires
        jstr(p, "protocol"@) matches Some(x) && x != "all"@,
    ensures
        !settles(p),
{
}

/// An allow limited to one protocol opens part of a pair that is otherwise
/// closed: where every other rule for the pair blocks, and comes after it,
/// the pair is Partial, never Open.
pub proof fn law_protocol_allow_opens_part(ps: Seq<JsonV>, s: Seq<char>, d: Seq<char>, k: int)
    requires
        0 <= k < ps.len(),
        in_pair(ps[k], s, d),
        jstr(ps[k], "action"@) == Some("ALLOW"@),
        jstr(ps[k], "protocol"@) matches Some(x) && x != "all"@,
        forall|j: int|
            0 <= j < ps.len() && j != k && in_pair(#[trigger] ps[j], s, d) ==> jstr(
                ps[j],
                "action"@,
            ) != Some("ALLOW"@) && (rule_index(ps[k]) < rule_index(ps[j]) || (rule_index(ps[k])
                == rule_index(ps[j]) && k < j)),
    ensures
        pair_verdict(ps, s, d) == Verdict::Partial,
{
    assert(narrowed(ps[k]));
    assert(allows(ps[k]));
    if exists|j: int| decides(ps, s, d, j) {
        let j = choose|j: int| decides(ps, s, d, j);
        assert(in_pair(ps[j], s, d) && settles(ps[j]));
        assert(j != k);
        assert(!allows(ps[j]));
        assert(evaluated_before(ps, k, j));
        assert(opens_part_before(ps, s, d, Some(j)));
    } else {
        assert(opens_part_before(ps, s, d, None));
    }
}

fn text_or_exec(v: &Json, k: &str, dflt: &str) -> (r: String)
    ensures
        r@ == text_or(v@, k@, dflt@),
{
    match v.str_at(k) {
        Some(s) => s.clone(),
        None => String::from_str(dflt),
    }
}

fn side_narrowed_exec(p: &Json, side: &str) -> (r: bool)
    ensures
        r == side_narrowed(p@, side@),
{
    match p.get(side) {
        Some(s) => !str_eq(text_or_exec(s, "matching_target", "ANY").as_str(), "ANY") || !str_eq(
            text_or_exec(s, "port_matching_type", "ANY").as_str(),
            "ANY",
        ),
        None => false,
    }
}

/// Whether a rule matches only part of the traffic between its zones.
pub fn is_narrowed(p: &Json) -> (r: bool)
    ensures
        r == narrowed(p@),
{
    side_narrowed_exec(p, "source") || side_narrowed_exec(p, "destination") || !str_eq(
        text_or_exec(p, "protocol", "all").as_str(),
        "all",
    )
}

/// The zone a rule names on one side.
pub fn zone_of_rule(p: &Json, side: &str) -> (r: Option<String>)
    ensures
        match r {
            Some(z) => zone_of(p@, side@) == Some(z@),
            None => zone_of(p@, side@) is None,
        },
{
    match p.get2(side, "zone_id") {
        Some(Json::Str(z)) => Some(z.clone()),
        _ => None,
    }
}

fn in_pair_exec(p: &Json, s: &str, d: &str) -> (r: bool)
    ensures
        r == in_pair(p@, s@, d@),
{
    if !p.flag("enabled") {
        return false;
    }
    match (p.get2("source", "zone_id"), p.get2("destination", "zone_id")) {
        (Some(Json::Str(a)), Some(Json::Str(b))) => str_eq(a.as_str(), s) && str_eq(b.as_str(), d),
        _ => false,
    }
}

fn index_of(p: &Json) -> (r: i64)
    ensures
        r == rule_index(p@),
{
    match p.int_at("index") {
        Some(n) => n,
        None => i64::MAX,
    }
}

fn settles_exec(p: &Json) -> (r: bool)
    ensures
        r == settles(p@),
{
    proof {
        reveal_strlit("ALL");
    }
    !is_narrowed(p) && match p.str_at("connection_state_type") {
        Some(t) => str_eq(t.as_str(), "ALL"),
        None => false,
    }
}

fn allows_exec(p: &Json) -> (r: bool)
    ensures
        r == allows(p@),
{
    proof {
        reveal_strlit("ALLOW");
    }
    match p.str_at("action") {
        Some(t) => str_eq(t.as_str(), "ALLOW"),
        None => false,
    }
}

/// The verdict for the pair from `s` to `d`.
pub fn verdict_for(policies: &Vec<Json>, s: &str, d: &str) -> (r: Verdict)
    ensures
        r == pair_verdict(Json::items_view(policies@), s@, d@),
{
    proof {
        crate::json::lemma_items_view(policies@);
    }
    let ghost ps = Json::items_view(policies@);
    let mut best: Option<usize> = None;
    let mut k: usize = 0;
    while k < policies.len()
        invariant
            k <= policies@.len(),
            ps == Json::items_view(policies@),
            ps.len() == policies@.len(),
            forall|j: int| 0 <= j < ps.len() ==> #[trigger] ps[j] == policies@[j]@,
            match best {
                Some(b) => b < k && in_pair(ps[b as int], s@, d@) && settles(ps[b as int]) && forall|
                    q: int,
                |
                    0 <= q < k && q != b && in_pair(#[trigger] ps[q], s@, d@) && settles(ps[q])
                        ==> evaluated_before(ps, b as int, q),
                None => forall|q: int|
                    0 <= q < k ==> !(in_pair(#[trigger] ps[q], s@, d@) && settles(ps[q])),
            },
        decreases policies.len() - k,
    {
        let p = &policies[k];
        if in_pair_exec(p, s, d) && settles_exec(p) {
            match best {
                None => {
                    best = Some(k);
                },
                Some(b) => {
                    if index_of(p) < index_of(&policies[b]) {
                        best = Some(k);
                    }
                },
            }
        }
        k += 1;
    }
    proof {
        match best {
            Some(b) => {
                assert(decides(ps, s@, d@, b as int));
                let c = choose|j: int| decides(ps, s@, d@, j);
                lemma_decides_unique(ps, s@, d@, b as int, c);
            },
            None => {
                assert forall|j: int| !decides(ps, s@, d@, j) by {
                    if decides(ps, s@, d@, j) {
                        assert(in_pair(ps[j], s@, d@));
                    }
                }
            },
        }
    }
    let decisive_allows = match best {
        Some(b) => allows_exec(&policies[b]),
        None => false,
    };
    if decisive_allows {
        return Verdict::Open;
    }
    let mut partial = false;
    let mut q: usize = 0;
    while q < policies.len()
        invariant
            q <= policies@.len(),
            ps == Json::items_view(policies@),
            ps.len() == policies@.len(),
            forall|j: int| 0 <= j < ps.len() ==> #[trigger] ps[j] == policies@[j]@,
            match best {
                Some(b) => b < ps.len(),
                None => true,
            },
            partial ==> opens_part_before(
                ps,
                s@,
                d@,
                match best {
                    Some(b) => Some(b as int),
                    None => None,
                },
            ),
            !partial ==> forall|j: int|
                0 <= j < q ==> !(in_pair(#[trigger] ps[j], s@, d@) && narrowed(ps[j]) && allows(ps[j])
                    && match best {
                    Some(b) => evaluated_before(ps, j, b as int),
                    None => true,
                }),
        decreases policies.len() - q,
    {
        let p = &policies[q];
        if !partial && in_pair_exec(p, s, d) && is_narrowed(p) && allows_exec(p) {
            let earlier = match best {
                Some(b) => {
                    let (x, y) = (index_of(p), index_of(&policies[b]));
                    x < y || (x == y && q < b)
                },
                None => true,
            };
            if earlier {
                partial = true;
                assert(in_pair(ps[q as int], s@, d@));
            }
        }
        q += 1;
    }
    if partial {
        Verdict::Partial
    } else {
        Verdict::Blocked
    }
}

/// Whether some enabled rule among the first `n` governs the pair.
pub open spec fn has_rule_in(ps: Seq<JsonV>, n: int, s: Seq<char>, d: Seq<char>) -> bool {
    exists|k: int| 0 <= k < n && k < ps.len() && in_pair(#[trigger] ps[k], s, d)
}

proof fn lemma_matrix_unique(m: Seq<(String, String, Verdict)>, s: Seq<char>, d: Seq<char>, i: int)
    requires
        pairs_distinct(m),
        0 <= i < m.len(),
        m[i].0@ == s,
        m[i].1@ == d,
    ensures
        matrix_at(m, s, d) == Some(m[i].2),
{
    let c = choose|c: int| 0 <= c < m.len() && m[c].0@ == s && #[trigger] m[c].1@ == d;
    if c < i {
        assert(!(m[c].0@ == m[i].0@ && m[c].1@ == m[i].1@));
    } else if i < c {
        assert(!(m[i].0@ == m[c].0@ && m[i].1@ == m[c].1@));
    }
}

proof fn lemma_matrix_push(m: Seq<(String, String, Verdict)>, e: (String, String, Verdict), s: Seq<char>, d: Seq<char>)
    requires
        pairs_distinct(m),
        matrix_at(m, e.0@, e.1@) is None,
    ensures
        pairs_distinct(m.push(e)),
        matrix_at(m.push(e), s, d) == if s == e.0@ && d == e.1@ {
            Some(e.2)
        } else {
            matrix_at(m, s, d)
        },
{
    let t = m.push(e);
    assert forall|a: int, b: int| 0 <= a < b < t.len() implies !(#[trigger] t[a].0@ == #[trigger] t[b].0@
        && t[a].1@ == t[b].1@) by {
        if b == m.len() {
            if t[a].0@ == t[b].0@ && t[a].1@ == t[b].1@ {
                assert(m[a].0@ == e.0@ && m[a].1@ == e.1@);
            }
        } else {
            assert(t[a] == m[a] && t[b] == m[b]);
        }
    }
    if s == e.0@ && d == e.1@ {
        lemma_matrix_unique(t, s, d, m.len() as int);
    } else if exists|i: int| 0 <= i < m.len() && m[i].0@ == s && #[trigger] m[i].1@ == d {
        let i = choose|i: int| 0 <= i < m.len() && m[i].0@ == s && #[trigger] m[i].1@ == d;
        lemma_matrix_unique(m, s, d, i);
        assert(t[i] == m[i]);
        lemma_matrix_unique(t, s, d, i);
    } else {
        assert forall|i: int| !(0 <= i < t.len() && t[i].0@ == s && #[trigger] t[i].1@ == d) by {
            if 0 <= i < m.len() {
                assert(t[i] == m[i]);
            }
        }
    }
}

fn find_pair(m: &Vec<(String, String, Verdict)>, s: &str, d: &str) -> (r: bool)
    ensures
        r == (matrix_at(m@, s@, d@) is Some),
{
    let mut i: usize = 0;
    while i < m.len()
        invariant
            i <= m@.len(),
            forall|j: int| 0 <= j < i ==> !(m@[j].0@ == s@ && #[trigger] m@[j].1@ == d@),
        decreases m.len() - i,
    {
        if str_eq(m[i].0.as_str(), s) && str_eq(m[i].1.as_str(), d) {
            assert(0 <= i < m@.len() && m@[i as int].0@ == s@ && m@[i as int].1@ == d@);
            return true;
        }
        i += 1;
    }
    false
}

/// The verdict for every ordered zone pair that some enabled rule governs,
/// each pair once. A pair no rule governs is absent rather than open.
pub fn build_matrix(policies: &Vec<Json>) -> (r: Vec<(String, String, Verdict)>)
    ensures
        pairs_distinct(r@),
        forall|s: Seq<char>, d: Seq<char>|
            #[trigger] matrix_at(r@, s, d) == if has_rule(Json::items_view(policies@), s, d) {
                Some(pair_verdict(Json::items_view(policies@), s, d))
            } else {
                None
            },
{
    proof {
        crate::json::lemma_items_view(policies@);
    }
    let ghost ps = Json::items_view(policies@);
    let mut out: Vec<(String, String, Verdict)> = Vec::new();
    let mut k: usize = 0;
    while k < policies.len()
        invariant
            k <= policies@.len(),
            ps == Json::items_view(policies@),
            ps.len() == policies@.len(),
            forall|j: int| 0 <= j < ps.len() ==> #[trigger] ps[j] == policies@[j]@,
            pairs_distinct(out@),
            forall|s: Seq<char>, d: Seq<char>|
                #[trigger] matrix_at(out@, s, d) == if has_rule_in(ps, k as int, s, d) {
                    Some(pair_verdict(ps, s, d))
                } else {
                    None
                },
        decreases policies.len() - k,
    {
        let p = &policies[k];
        let ghost before = out@;
        let mut added: Option<(String, String)> = None;
        if p.flag("enabled") {
            match (zone_of_rule(p, "source"), zone_of_rule(p, "destination")) {
                (Some(a), Some(b)) => {
                    if !find_pair(&out, a.as_str(), b.as_str()) {
                        let v = verdict_for(policies, a.as_str(), b.as_str());
                        proof {
                            assert forall|s: Seq<char>, d: Seq<char>| #[trigger]
                                matrix_at(before.push((a, b, v)), s, d) == if s == a@ && d == b@ {
                                    Some(v)
                                } else {
                                    matrix_at(before, s, d)
                                } by {
                                lemma_matrix_push(before, (a, b, v), s, d);
                            }
                            lemma_matrix_push(before, (a, b, v), a@, b@);
                        }
                        out.push((a, b, v));
                    }
                },
                _ => {},
            }
        }
        proof {
            assert forall|s: Seq<char>, d: Seq<char>| #[trigger]
                matrix_at(out@, s, d) == if has_rule_in(ps, k + 1, s, d) {
                    Some(pair_verdict(ps, s, d))
                } else {
                    None
                } by {
                assert(matrix_at(before, s, d) == if has_rule_in(ps, k as int, s, d) {
                    Some(pair_verdict(ps, s, d))
                } else {
                    None
                });
                if in_pair(ps[k as int], s, d) {
                    assert(has_rule_in(ps, k + 1, s, d));
                } else {
                    if has_rule_in(ps, k + 1, s, d) {
                        let j = choose|j: int| 0 <= j < k + 1 && j < ps.len() && in_pair(#[trigger] ps[j], s, d);
                        assert(j < k);
                        assert(has_rule_in(ps, k as int, s, d));
                    }
                }
            }
        }
        k += 1;
    }
    proof {
        assert forall|s: Seq<char>, d: Seq<char>| #[trigger]
            matrix_at(out@, s, d) == if has_rule(ps, s, d) {
                Some(pair_verdict(ps, s, d))
            } else {
                None
            } by {
            assert(has_rule(ps, s, d) == has_rule_in(ps, k as int, s, d));
        }
    }
    out
}

/// The verdict the matrix holds from `s` to `d`, if it holds one.
pub fn verdict_between(m: &Vec<(String, String, Verdict)>, s: &str, d: &str) -> (r: Option<Verdict>)
    requires
        pairs_distinct(m@),
    ensures
        r == matrix_at(m@, s@, d@),
{
    let mut i: usize = 0;
    while i < m.len()
        invariant
            i <= m@.len(),
            pairs_distinct(m@),
            forall|j: int| 0 <= j < i ==> !(m@[j].0@ == s@ && #[trigger] m@[j].1@ == d@),
        decreases m.len() - i,
    {
        if str_eq(m[i].0.as_str(), s) && str_eq(m[i].1.as_str(), d) {
            proof {
                lemma_matrix_unique(m@, s@, d@, i as int);
            }
            return Some(m[i].2);
        }
        i += 1;
    }
    None
}

// ---- zone names -------------------------------------------------------------

/// The internal zone of the network carrying `u` as its documented id; where
/// two networks carry it the later one counts.
pub open spec fn internal_of(nets: Seq<JsonV>, u: Seq<char>) -> Option<Seq<char>>
    decreases nets.len(),
{
    if nets.len() == 0 {
        None
    } else if jstr(nets.last(), "external_id"@) == Some(u) && jstr(
        nets.last(),
        "firewall_zone_id"@,
    ) is Some {
        jstr(nets.last(), "firewall_zone_id"@)
    } else {
        internal_of(nets.drop_last(), u)
    }
}

/// Whether zone `z` has a name and holds a network in internal zone `i`.
pub open spec fn zone_names_id(z: JsonV, nets: Seq<JsonV>, i: Seq<char>) -> bool {
    &&& jstr(z, "name"@) is Some
    &&& exists|m: int|
        0 <= m < jitems(z, "networkIds"@).len() && (#[trigger] jitems(z, "networkIds"@)[m] matches JsonV::Str(
            u,
        ) && internal_of(nets, u) == Some(i))
}

/// Whether zone `j` is the first to name internal zone `i`.
pub open spec fn first_naming(zones: Seq<JsonV>, nets: Seq<JsonV>, i: Seq<char>, j: int) -> bool {
    &&& 0 <= j < zones.len()
    &&& zone_names_id(zones[j], nets, i)
    &&& forall|q: int| 0 <= q < j ==> !zone_names_id(#[trigger] zones[q], nets, i)
}

/// The readable name of internal zone `i`: that of the first zone holding a
/// network in it.
pub open spec fn zone_name(zones: Seq<JsonV>, nets: Seq<JsonV>, i: Seq<char>) -> Option<Seq<char>> {
    if exists|j: int| first_naming(zones, nets, i, j) {
        jstr(zones[choose|j: int| first_naming(zones, nets, i, j)], "name"@)
    } else {
        None
    }
}

/// The name a table holds under `k`, as text.
pub open spec fn name_at(t: Seq<(String, String)>, k: Seq<char>) -> Option<Seq<char>> {
    match lookup(t, k) {
        Some(v) => Some(v@),
        None => None,
    }
}

proof fn lemma_first_naming_unique(zones: Seq<JsonV>, nets: Seq<JsonV>, i: Seq<char>, a: int, b: int)
    requires
        first_naming(zones, nets, i, a),
        first_naming(zones, nets, i, b),
    ensures
        a == b,
{
    if a < b {
        assert(!zone_names_id(zones[a], nets, i));
    } else if b < a {
        assert(!zone_names_id(zones[b], nets, i));
    }
}


/// Whether one of the first `m` ids is a network in internal zone `i`.
pub open spec fn holds_internal(ids: Seq<JsonV>, nets: Seq<JsonV>, m: int, i: Seq<char>) -> bool {
    exists|q: int|
        0 <= q < m && q < ids.len() && (#[trigger] ids[q] matches JsonV::Str(u) && internal_of(nets, u)
            == Some(i))
}

proof fn lemma_first_exists(a: Seq<JsonV>, nets: Seq<JsonV>, i: Seq<char>, q: int)
    requires
        0 <= q < a.len(),
        zone_names_id(a[q], nets, i),
    ensures
        exists|j: int| first_naming(a, nets, i, j),
    decreases q,
{
    if exists|p: int| 0 <= p < q && zone_names_id(#[trigger] a[p], nets, i) {
        let p = choose|p: int| 0 <= p < q && zone_names_id(#[trigger] a[p], nets, i);
        lemma_first_exists(a, nets, i, p);
    } else {
        assert(first_naming(a, nets, i, q));
    }
}

proof fn lemma_zone_name_step(zs: Seq<JsonV>, nets: Seq<JsonV>, k: int, i: Seq<char>)
    requires
        0 <= k < zs.len(),
    ensures
        zone_name(zs.take(k + 1), nets, i) == if zone_name(zs.take(k), nets, i) is Some {
            zone_name(zs.take(k), nets, i)
        } else if zone_names_id(zs[k], nets, i) {
            jstr(zs[k], "name"@)
        } else {
            None
        },
{
    let a = zs.take(k);
    let b = zs.take(k + 1);
    assert forall|q: int| 0 <= q < k implies #[trigger] b[q] == a[q] by {}
    assert(b[k] == zs[k]);
    if exists|j: int| first_naming(a, nets, i, j) {
        let j = choose|j: int| first_naming(a, nets, i, j);
        assert(a[j] == b[j]);
        assert(first_naming(b, nets, i, j)) by {
            assert forall|q: int| 0 <= q < j implies !zone_names_id(#[trigger] b[q], nets, i) by {
                assert(b[q] == a[q]);
            }
        }
        let c = choose|c: int| first_naming(b, nets, i, c);
        lemma_first_naming_unique(b, nets, i, j, c);
        assert(jstr(a[j], "name"@) is Some);
    } else {
        assert forall|q: int| 0 <= q < k implies !zone_names_id(#[trigger] b[q], nets, i) by {
            assert(b[q] == a[q]);
            if zone_names_id(a[q], nets, i) {
                lemma_first_exists(a, nets, i, q);
            }
        }
        if zone_names_id(zs[k], nets, i) {
            assert(first_naming(b, nets, i, k));
            let c = choose|c: int| first_naming(b, nets, i, c);
            lemma_first_naming_unique(b, nets, i, k, c);
        } else {
            assert forall|j: int| !first_naming(b, nets, i, j) by {
                if first_naming(b, nets, i, j) {
                    if j < k {
                        assert(b[j] == a[j]);
                    }
                }
            }
        }
    }
}

/// The internal zone of the network carrying `u` as its documented id.
fn internal_zone(networks: &Vec<Json>, u: &str) -> (r: Option<String>)
    ensures
        match r {
            Some(z) => internal_of(Json::items_view(networks@), u@) == Some(z@),
            None => internal_of(Json::items_view(networks@), u@) is None,
        },
{
    proof {
        crate::json::lemma_items_view(networks@);
    }
    let ghost nv = Json::items_view(networks@);
    let mut k: usize = networks.len();
    assert(nv.take(k as int) =~= nv);
    while k > 0
        invariant
            k <= networks@.len(),
            nv == Json::items_view(networks@),
            nv.len() == networks@.len(),
            forall|j: int| 0 <= j < nv.len() ==> #[trigger] nv[j] == networks@[j]@,
            internal_of(nv, u@) == internal_of(nv.take(k as int), u@),
        decreases k,
    {
        let n = &networks[k - 1];
        assert(nv.take(k as int).last() == n@);
        assert(nv.take(k as int).drop_last() =~= nv.take(k - 1));
        match (n.str_at("external_id"), n.str_at("firewall_zone_id")) {
            (Some(x), Some(z)) => {
                if str_eq(x.as_str(), u) {
                    return Some(z.clone());
                }
            },
            _ => {},
        }
        k -= 1;
    }
    None
}

/// Zone identifiers as the rules use them, mapped to readable names.
///
/// The two surfaces number zones differently and share no identifier, so the
/// bridge runs through the networks: a network carries the documented id on
/// one side and the internal zone id on the other. Only zones holding no
/// network stay unnamed, and those have no host to reach anyway.
pub fn zone_names(zones: &Vec<Json>, networks: &Vec<Json>) -> (r: Vec<(String, String)>)
    ensures
        keys_distinct(r@),
        forall|i: Seq<char>|
            #[trigger] name_at(r@, i) == zone_name(
                Json::items_view(zones@),
                Json::items_view(networks@),
                i,
            ),
{
    proof {
        crate::json::lemma_items_view(zones@);
    }
    let ghost zs = Json::items_view(zones@);
    let ghost nv = Json::items_view(networks@);
    let mut out: Vec<(String, String)> = Vec::new();
    let mut k: usize = 0;
    while k < zones.len()
        invariant
            k <= zones@.len(),
            zs == Json::items_view(zones@),
            nv == Json::items_view(networks@),
            zs.len() == zones@.len(),
            forall|j: int| 0 <= j < zs.len() ==> #[trigger] zs[j] == zones@[j]@,
            keys_distinct(out@),
            forall|i: Seq<char>| #[trigger]
                name_at(out@, i) == zone_name(zs.take(k as int), nv, i),
        decreases zones.len() - k,
    {
        let z = &zones[k];
        assert(zs.take(k + 1)[k as int] == z@);
        let ghost at_start = out@;
        proof {
            assert forall|i: Seq<char>, j: int|
                #![trigger first_naming(zs.take(k + 1), nv, i, j)]
                #![trigger first_naming(zs.take(k as int), nv, i, j)]
                0 <= j < k ==> (first_naming(zs.take(k + 1), nv, i, j) <==> first_naming(
                    zs.take(k as int),
                    nv,
                    i,
                    j,
                )) by {
                if 0 <= j < k {
                    assert forall|q: int| 0 <= q <= j implies zs.take(k + 1)[q] == #[trigger] zs.take(
                        k as int,
                    )[q] by {}
                }
            }
        }
        match (z.str_at("name"), z.get("networkIds")) {
            (Some(name), Some(Json::Arr(ids))) => {
                proof {
                    crate::json::lemma_items_view(ids@);
                }
                let ghost iv = Json::items_view(ids@);
                let mut m: usize = 0;
                while m < ids.len()
                    invariant
                        m <= ids@.len(),
                        iv == Json::items_view(ids@),
                        iv.len() == ids@.len(),
                        forall|j: int| 0 <= j < iv.len() ==> #[trigger] iv[j] == ids@[j]@,
                        jitems(z@, "networkIds"@) == iv,
                        jstr(z@, "name"@) == Some(name@),
                        k < zs.len(),
                        nv == Json::items_view(networks@),
                        zs.take(k + 1)[k as int] == z@,
                        keys_distinct(out@),
                        forall|i: Seq<char>| #[trigger]
                            name_at(out@, i) == if name_at(at_start, i) is Some {
                                name_at(at_start, i)
                            } else if holds_internal(iv, nv, m as int, i) {
                                Some(name@)
                            } else {
                                None
                            },
                    decreases ids.len() - m,
                {
                    let ghost before = out@;
                    let mut hit: Option<String> = None;
                    match &ids[m] {
                        Json::Str(u) => {
                            assert(iv[m as int] == JsonV::Str(u@));
                            hit = internal_zone(networks, u.as_str());
                        },
                        _ => {},
                    }
                    assert(match hit {
                        Some(h) => (iv[m as int] matches JsonV::Str(u) && internal_of(nv, u) == Some(h@)),
                        None => !(iv[m as int] matches JsonV::Str(u) && internal_of(nv, u) is Some),
                    });
                    proof {
                        assert forall|i: Seq<char>|
                            holds_internal(iv, nv, m + 1, i) == (holds_internal(iv, nv, m as int, i)
                                || (hit matches Some(h) && h@ == i)) by {
                            if holds_internal(iv, nv, m + 1, i) && !holds_internal(iv, nv, m as int, i) {
                                let q = choose|q: int|
                                    0 <= q < m + 1 && q < iv.len() && (#[trigger] iv[q] matches JsonV::Str(
                                        u,
                                    ) && internal_of(nv, u) == Some(i));
                                assert(q == m);
                            }
                            if hit matches Some(h) && h@ == i {
                                assert(iv[m as int] matches JsonV::Str(u) && internal_of(nv, u) == Some(i));
                            }
                        }
                    }
                    match hit {
                        Some(internal) => {
                            if find_key(&out, internal.as_str()).is_none() {
                                let e = (internal, name.clone());
                                proof {
                                    assert forall|q: Seq<char>| #[trigger]
                                        lookup(before.push(e), q) == if q == e.0@ {
                                            Some(e.1)
                                        } else {
                                            lookup(before, q)
                                        } by {
                                        lemma_lookup_push(before, e, q);
                                    }
                                    assert forall|a: int, b: int|
                                        0 <= a < b < before.push(e).len() implies #[trigger] before.push(
                                            e,
                                        )[a].0@ != #[trigger] before.push(e)[b].0@ by {
                                        if b == before.len() {
                                            assert(before[a].0@ != e.0@);
                                        }
                                    }
                                }
                                out.push(e);
                            }
                        },
                        None => {},
                    }
                    proof {
                        assert forall|i: Seq<char>| #[trigger]
                            name_at(out@, i) == if name_at(at_start, i) is Some {
                                name_at(at_start, i)
                            } else if holds_internal(iv, nv, m + 1, i) {
                                Some(name@)
                            } else {
                                None
                            } by {
                            assert(name_at(before, i) == if name_at(at_start, i) is Some {
                                name_at(at_start, i)
                            } else if holds_internal(iv, nv, m as int, i) {
                                Some(name@)
                            } else {
                                None
                            });
                        }
                    }
                    m += 1;
                }
            },
            _ => {},
        }
        proof {
            assert forall|i: Seq<char>| #[trigger]
                name_at(out@, i) == zone_name(zs.take(k + 1), nv, i) by {
                lemma_zone_name_step(zs, nv, k as int, i);
                assert(name_at(at_start, i) == zone_name(zs.take(k as int), nv, i));
            }
        }
        k += 1;
    }
    assert(zs.take(k as int) =~= zs);
    out
}

// ---- where to start from ----------------------------------------------------

/// The zone names of a table, sorted, joined with commas.
pub open spec fn listing_spec(names: Seq<(String, String)>) -> Seq<char> {
    join(
        sorted_by_key(names.map_values(|e: (String, String)| (0int, e.1@, ()))).map_values(
            |t: (int, Seq<char>, ())| t.1,
        ),
        ", "@,
    )
}

/// The zone names, sorted and joined with commas.
pub fn listing(names: &Vec<(String, String)>) -> (r: String)
    ensures
        r@ == listing_spec(names@),
{
    let ghost want = names@.map_values(|e: (String, String)| (0int, e.1@, ()));
    let mut keyed: Vec<Keyed<()>> = Vec::new();
    let mut k: usize = 0;
    while k < names.len()
        invariant
            k <= names@.len(),
            want == names@.map_values(|e: (String, String)| (0int, e.1@, ())),
            keyed@.len() == k,
            kviews(keyed@) == want.take(k as int),
        decreases names.len() - k,
    {
        let ghost before = keyed@;
        keyed.push(Keyed { rank: 0, text: names[k].1.clone(), item: () });
        assert(kviews(keyed@) =~= want.take(k + 1)) by {
            assert(kviews(before) == want.take(k as int));
            assert(kviews(keyed@)[k as int] == want[k as int]);
            assert forall|q: int| 0 <= q < k implies #[trigger] kviews(keyed@)[q] == kviews(before)[q] by {
                assert(keyed@[q] == before[q]);
            }
        }
        k += 1;
    }
    assert(want.take(k as int) =~= want);
    let sorted = sort_keyed(keyed);
    let ghost target = sorted_by_key(want);
    let mut texts: Vec<String> = Vec::new();
    let mut j: usize = 0;
    while j < sorted.len()
        invariant
            j <= sorted@.len(),
            kviews(sorted@) == target,
            texts@.len() == j,
            texts@.map_values(|s: String| s@) == target.take(j as int).map_values(
                |t: (int, Seq<char>, ())| t.1,
            ),
        decreases sorted.len() - j,
    {
        let ghost before = texts@;
        texts.push(sorted[j].text.clone());
        assert(kviews(sorted@)[j as int] == kview(sorted@[j as int]));
        assert(texts@.map_values(|s: String| s@) =~= target.take(j + 1).map_values(
            |t: (int, Seq<char>, ())| t.1,
        )) by {
            assert(before.map_values(|s: String| s@) == target.take(j as int).map_values(
                |t: (int, Seq<char>, ())| t.1,
            ));
            assert forall|q: int| 0 <= q < j implies #[trigger] texts@[q] == before[q] by {}
            assert(texts@[j as int]@ == target[j as int].1);
            assert(target.len() == sorted@.len());
            let tv = texts@.map_values(|s: String| s@);
            let tt = target.take(j + 1).map_values(|t: (int, Seq<char>, ())| t.1);
            let bv = before.map_values(|s: String| s@);
            let bt = target.take(j as int).map_values(|t: (int, Seq<char>, ())| t.1);
            assert(bv == bt);
            assert forall|q: int| 0 <= q < j + 1 implies #[trigger] tv[q] == tt[q] by {
                if q < j {
                    assert(bv[q] == bt[q]);
                }
            }
            assert(tv.len() == tt.len());
        }
        j += 1;
    }
    assert(target.take(j as int) =~= target);
    join_strings(&texts, ", ")
}

/// Why no starting zone could be settled.
#[derive(Debug, PartialEq, Eq)]
pub enum StartError {
    /// No zone of that name holds a network; `known` lists those that do.
    NoZoneNamed { zone: String, known: String },
    /// Neither a client nor a zone was given.
    NoOrigin,
    /// No client is known by that MAC address or name.
    NoClient { want: String },
    /// The client has never been seen on a network.
    NeverSeen,
    /// The client's network is in no firewall zone.
    NoZone,
}

/// A starting point as values: the zone and how to describe it, or why
/// there is none.
pub enum StartV {
    Found(Seq<char>, Seq<char>),
    NoZoneNamed(Seq<char>, Seq<char>),
    NoOrigin,
    NoClient(Seq<char>),
    NeverSeen,
    NoZone,
}

pub open spec fn start_view(r: Result<(String, String), StartError>) -> StartV {
    match r {
        Ok((z, o)) => StartV::Found(z@, o@),
        Err(StartError::NoZoneNamed { zone, known }) => StartV::NoZoneNamed(zone@, known@),
        Err(StartError::NoOrigin) => StartV::NoOrigin,
        Err(StartError::NoClient { want }) => StartV::NoClient(want@),
        Err(StartError::NeverSeen) => StartV::NeverSeen,
        Err(StartError::NoZone) => StartV::NoZone,
    }
}

/// Whether entry `j` is the first whose name is `z`, ignoring ASCII case.
pub open spec fn first_named(names: Seq<(String, String)>, z: Seq<char>, j: int) -> bool {
    &&& 0 <= j < names.len()
    &&& lower_all(names[j].1@) == lower_all(z)
    &&& forall|q: int| 0 <= q < j ==> lower_all(#[trigger] names[q].1@) != lower_all(z)
}

/// A client known as `want`, by MAC address, name or host name, compared in
/// lower case.
pub open spec fn known_as(want: Seq<char>) -> spec_fn(JsonV) -> bool {
    |u: JsonV|
        unicode_lower(jtext(u, "mac"@)) == unicode_lower(want) || unicode_lower(jtext(u, "name"@))
            == unicode_lower(want) || unicode_lower(jtext(u, "hostname"@)) == unicode_lower(want)
}

/// A network whose id is `id`.
pub open spec fn network_with_id(id: Seq<char>) -> spec_fn(JsonV) -> bool {
    |n: JsonV| jstr(n, "_id"@) == Some(id)
}

/// How a client is described: its name, else its host name, else as it was
/// asked for.
pub open spec fn client_label(c: JsonV, want: Seq<char>) -> Seq<char> {
    match jget(c, "name"@) {
        Some(JsonV::Str(s)) => s,
        Some(_) => want,
        None => match jget(c, "hostname"@) {
            Some(JsonV::Str(s)) => s,
            _ => want,
        },
    }
}

/// The zone to start from, and how to describe it.
pub open spec fn start_spec(
    zone: Option<Seq<char>>,
    from: Option<Seq<char>>,
    users: Seq<JsonV>,
    nets: Seq<JsonV>,
    names: Seq<(String, String)>,
) -> StartV {
    match zone {
        Some(z) => if exists|j: int| first_named(names, z, j) {
            let j = choose|j: int| first_named(names, z, j);
            StartV::Found(names[j].0@, "zone "@ + names[j].1@)
        } else {
            StartV::NoZoneNamed(z, listing_spec(names))
        },
        None => match from {
            None => StartV::NoOrigin,
            Some(want) => match first_from(users, known_as(want), 0) {
                None => StartV::NoClient(want),
                Some(c) => match jstr(users[c], "last_connection_network_id"@) {
                    None => StartV::NeverSeen,
                    Some(net) => match first_from(nets, network_with_id(net), 0) {
                        None => StartV::NoZone,
                        Some(n) => match jstr(nets[n], "firewall_zone_id"@) {
                            None => StartV::NoZone,
                            Some(zid) => StartV::Found(
                                zid,
                                client_label(users[c], want) + " on "@ + jtext(
                                    users[c],
                                    "last_connection_network_name"@,
                                ),
                            ),
                        },
                    },
                },
            },
        },
    }
}

fn first_record(s: &Vec<Json>, want: &str, by_id: bool) -> (r: Option<usize>)
    ensures
        match r {
            Some(j) => Some(j as int),
            None => None,
        } == if by_id {
            first_from(Json::items_view(s@), network_with_id(want@), 0)
        } else {
            first_from(Json::items_view(s@), known_as(want@), 0)
        },
        r matches Some(j) ==> j < s@.len(),
{
    proof {
        crate::json::lemma_items_view(s@);
    }
    let ghost sv = Json::items_view(s@);
    let ghost p = if by_id {
        network_with_id(want@)
    } else {
        known_as(want@)
    };
    let needle = to_lowercase(want);
    let mut k: usize = 0;
    while k < s.len()
        invariant
            k <= s@.len(),
            sv == Json::items_view(s@),
            sv.len() == s@.len(),
            forall|j: int| 0 <= j < sv.len() ==> #[trigger] sv[j] == s@[j]@,
            p == if by_id {
                network_with_id(want@)
            } else {
                known_as(want@)
            },
            needle@ == unicode_lower(want@),
            first_from(sv, p, 0) == first_from(sv, p, k as int),
        decreases s.len() - k,
    {
        let x = &s[k];
        let hit = if by_id {
            match x.str_at("_id") {
                Some(id) => str_eq(id.as_str(), want),
                None => false,
            }
        } else {
            str_eq(to_lowercase(x.text("mac").as_str()).as_str(), needle.as_str()) || str_eq(
                to_lowercase(x.text("name").as_str()).as_str(),
                needle.as_str(),
            ) || str_eq(to_lowercase(x.text("hostname").as_str()).as_str(), needle.as_str())
        };
        assert(hit == p(sv[k as int]));
        if hit {
            return Some(k);
        }
        k += 1;
    }
    None
}

/// The zone to start from, and how to describe it in the heading: a zone by
/// name, ignoring ASCII case, or the zone of the network a client was last
/// seen on.
pub fn start(
    zone: Option<&str>,
    from: Option<&str>,
    users: &Vec<Json>,
    networks: &Vec<Json>,
    names: &Vec<(String, String)>,
) -> (r: Result<(String, String), StartError>)
    ensures
        start_view(r) == start_spec(
            match zone {
                Some(z) => Some(z@),
                None => None,
            },
            match from {
                Some(f) => Some(f@),
                None => None,
            },
            Json::items_view(users@),
            Json::items_view(networks@),
            names@,
        ),
{
    proof {
        crate::json::lemma_items_view(users@);
        crate::json::lemma_items_view(networks@);
    }
    match zone {
        Some(z) => {
            let want = lower_chars(&chars_of(z));
            let mut j: usize = 0;
            while j < names.len()
                invariant
                    j <= names@.len(),
                    zone == Some(z),
                    want@ == lower_all(z@),
                    forall|q: int| 0 <= q < j ==> lower_all(#[trigger] names@[q].1@) != lower_all(z@),
                decreases names.len() - j,
            {
                if chars_eq(&lower_chars(&chars_of(names[j].1.as_str())), &want) {
                    assert(first_named(names@, z@, j as int));
                    proof {
                        let c = choose|c: int| first_named(names@, z@, c);
                        if c < j {
                            assert(lower_all(names@[c].1@) != lower_all(z@));
                        } else if j < c {
                            assert(lower_all(names@[j as int].1@) != lower_all(z@));
                        }
                    }
                    let mut origin = String::from_str("zone ");
                    origin.append(names[j].1.as_str());
                    let id = names[j].0.clone();
                    assert(id@ == names@[j as int].0@);
                    assert(origin@ == "zone "@ + names@[j as int].1@);
                    assert(start_spec(Some(z@), match from {
                        Some(f) => Some(f@),
                        None => None,
                    }, Json::items_view(users@), Json::items_view(networks@), names@) == StartV::Found(
                        id@,
                        origin@,
                    ));
                    return Ok((id, origin));
                }
                j += 1;
            }
            assert forall|c: int| !first_named(names@, z@, c) by {}
            Err(StartError::NoZoneNamed { zone: String::from_str(z), known: listing(names) })
        },
        None => match from {
            None => Err(StartError::NoOrigin),
            Some(want) => {
                proof {
                    lemma_first_from(Json::items_view(users@), known_as(want@), 0);
                }
                match first_record(users, want, false) {
                    None => Err(StartError::NoClient { want: String::from_str(want) }),
                    Some(c) => {
                        let client = &users[c];
                        match client.str_at("last_connection_network_id") {
                            None => Err(StartError::NeverSeen),
                            Some(net) => {
                                proof {
                                    lemma_first_from(
                                        Json::items_view(networks@),
                                        network_with_id(net@),
                                        0,
                                    );
                                }
                                match first_record(networks, net.as_str(), true) {
                                    None => Err(StartError::NoZone),
                                    Some(n) => match networks[n].str_at("firewall_zone_id") {
                                        None => Err(StartError::NoZone),
                                        Some(zid) => {
                                            let label = match client.get("name") {
                                                Some(Json::Str(x)) => x.clone(),
                                                Some(_) => String::from_str(want),
                                                None => match client.get("hostname") {
                                                    Some(Json::Str(x)) => x.clone(),
                                                    _ => String::from_str(want),
                                                },
                                            };
                                            let mut origin = label;
                                            origin.append(" on ");
                                            origin.append(
                                                client.text("last_connection_network_name").as_str(),
                                            );
                                            Ok((zid.clone(), origin))
                                        },
                                    },
                                }
                            },
                        }
                    },
                }
            },
        },
    }
}

// ---- what is in reach -------------------------------------------------------

/// One zone in reach: its name, what reaches it, the networks it holds and
/// how many known hosts sit in them.
pub struct Reach {
    pub zone: String,
    pub reaches: &'static str,
    pub networks: Vec<String>,
    pub hosts: u64,
}

/// A row as values.
pub type ReachV = (Seq<char>, Seq<char>, Seq<Seq<char>>, nat);

pub open spec fn reach_v(r: Reach) -> ReachV {
    (r.zone@, r.reaches@, r.networks@.map_values(|s: String| s@), r.hosts as nat)
}

/// The internal zone of the network with id `nid`; where two networks carry
/// that id the later one counts.
pub open spec fn net_zone(nets: Seq<JsonV>, nid: Seq<char>) -> Option<Seq<char>>
    decreases nets.len(),
{
    if nets.len() == 0 {
        None
    } else if jstr(nets.last(), "_id"@) == Some(nid) && jstr(nets.last(), "firewall_zone_id"@) is Some {
        jstr(nets.last(), "firewall_zone_id"@)
    } else {
        net_zone(nets.drop_last(), nid)
    }
}

/// A client last seen on a network in zone `z`.
pub open spec fn host_in(nets: Seq<JsonV>, z: Seq<char>) -> spec_fn(JsonV) -> bool {
    |u: JsonV|
        jstr(u, "last_connection_network_id"@) matches Some(nid) && net_zone(nets, nid) == Some(z)
}

/// The names of the networks in zone `z`, in order.
pub open spec fn zone_networks(nets: Seq<JsonV>, z: Seq<char>) -> Seq<Seq<char>>
    decreases nets.len(),
{
    if nets.len() == 0 {
        Seq::empty()
    } else {
        zone_networks(nets.drop_last(), z) + if jstr(nets.last(), "firewall_zone_id"@) == Some(z)
            && jstr(nets.last(), "name"@) is Some {
            seq![jstr(nets.last(), "name"@)->0]
        } else {
            Seq::empty()
        }
    }
}

/// What the rules let through from `s` to `d`; a pair no rule governs is
/// closed.
pub open spec fn verdict_of(ps: Seq<JsonV>, s: Seq<char>, d: Seq<char>) -> Verdict {
    if has_rule(ps, s, d) {
        pair_verdict(ps, s, d)
    } else {
        Verdict::Blocked
    }
}

/// The zones in reach from `start`, in the order the names table lists them.
pub open spec fn reach_rows(
    start: Seq<char>,
    names: Seq<(String, String)>,
    ps: Seq<JsonV>,
    nets: Seq<JsonV>,
    users: Seq<JsonV>,
) -> Seq<ReachV>
    decreases names.len(),
{
    if names.len() == 0 {
        Seq::empty()
    } else {
        let e = names.last();
        let v = verdict_of(ps, start, e.0@);
        reach_rows(start, names.drop_last(), ps, nets, users) + if e.0@ == start || v
            == Verdict::Blocked {
            Seq::empty()
        } else {
            seq![
                (
                    e.1@,
                    verdict_label(v),
                    zone_networks(nets, e.0@),
                    count_if(users, host_in(nets, e.0@)),
                ),
            ]
        }
    }
}

/// The key a row is ordered by: wide open first, then by zone name.
pub open spec fn reach_key(r: ReachV) -> (int, Seq<char>, ReachV) {
    (if r.1 == "everything"@ {
        0int
    } else {
        1int
    }, r.0, r)
}

/// Every zone that `start` reaches, wide open ones first, then by name.
pub open spec fn reach_spec(
    start: Seq<char>,
    names: Seq<(String, String)>,
    ps: Seq<JsonV>,
    nets: Seq<JsonV>,
    users: Seq<JsonV>,
) -> Seq<ReachV> {
    sorted_by_key(reach_rows(start, names, ps, nets, users).map_values(|r: ReachV| reach_key(r))).map_values(
        |t: (int, Seq<char>, ReachV)| t.2,
    )
}

fn zone_of_network(networks: &Vec<Json>, nid: &str) -> (r: Option<String>)
    ensures
        match r {
            Some(z) => net_zone(Json::items_view(networks@), nid@) == Some(z@),
            None => net_zone(Json::items_view(networks@), nid@) is None,
        },
{
    proof {
        crate::json::lemma_items_view(networks@);
    }
    let ghost nv = Json::items_view(networks@);
    let mut k: usize = networks.len();
    assert(nv.take(k as int) =~= nv);
    while k > 0
        invariant
            k <= networks@.len(),
            nv == Json::items_view(networks@),
            nv.len() == networks@.len(),
            forall|j: int| 0 <= j < nv.len() ==> #[trigger] nv[j] == networks@[j]@,
            net_zone(nv, nid@) == net_zone(nv.take(k as int), nid@),
        decreases k,
    {
        let n = &networks[k - 1];
        assert(nv.take(k as int).last() == n@);
        assert(nv.take(k as int).drop_last() =~= nv.take(k - 1));
        match (n.str_at("_id"), n.str_at("firewall_zone_id")) {
            (Some(x), Some(z)) => {
                if str_eq(x.as_str(), nid) {
                    return Some(z.clone());
                }
            },
            _ => {},
        }
        k -= 1;
    }
    None
}

fn networks_in(networks: &Vec<Json>, z: &str) -> (r: Vec<String>)
    ensures
        r@.map_values(|s: String| s@) == zone_networks(Json::items_view(networks@), z@),
{
    proof {
        crate::json::lemma_items_view(networks@);
    }
    let ghost nv = Json::items_view(networks@);
    let mut out: Vec<String> = Vec::new();
    let mut k: usize = 0;
    while k < networks.len()
        invariant
            k <= networks@.len(),
            nv == Json::items_view(networks@),
            nv.len() == networks@.len(),
            forall|j: int| 0 <= j < nv.len() ==> #[trigger] nv[j] == networks@[j]@,
            out@.map_values(|s: String| s@) == zone_networks(nv.take(k as int), z@),
        decreases networks.len() - k,
    {
        let n = &networks[k];
        assert(nv.take(k + 1).drop_last() =~= nv.take(k as int));
        assert(nv.take(k + 1).last() == n@);
        let ghost before = out@;
        match (n.str_at("firewall_zone_id"), n.str_at("name")) {
            (Some(fz), Some(name)) => {
                if str_eq(fz.as_str(), z) {
                    out.push(name.clone());
                }
            },
            _ => {},
        }
        assert(out@.map_values(|s: String| s@) =~= zone_networks(nv.take(k + 1), z@)) by {
            assert(before.map_values(|s: String| s@) == zone_networks(nv.take(k as int), z@));
        }
        k += 1;
    }
    assert(nv.take(k as int) =~= nv);
    out
}

fn hosts_in(users: &Vec<Json>, networks: &Vec<Json>, z: &str) -> (r: u64)
    ensures
        r == count_if(Json::items_view(users@), host_in(Json::items_view(networks@), z@)),
{
    proof {
        crate::json::lemma_items_view(users@);
    }
    let ghost uv = Json::items_view(users@);
    let ghost p = host_in(Json::items_view(networks@), z@);
    let mut n: u64 = 0;
    let mut k: usize = 0;
    while k < users.len()
        invariant
            k <= users@.len(),
            uv == Json::items_view(users@),
            uv.len() == users@.len(),
            forall|j: int| 0 <= j < uv.len() ==> #[trigger] uv[j] == users@[j]@,
            p == host_in(Json::items_view(networks@), z@),
            n == count_if(uv.take(k as int), p),
            n <= k,
        decreases users.len() - k,
    {
        let u = &users[k];
        assert(uv.take(k + 1).drop_last() =~= uv.take(k as int));
        assert(uv.take(k + 1).last() == u@);
        let hit = match u.str_at("last_connection_network_id") {
            Some(nid) => match zone_of_network(networks, nid.as_str()) {
                Some(x) => str_eq(x.as_str(), z),
                None => false,
            },
            None => false,
        };
        assert(hit == p(u@));
        if hit {
            n += 1;
        }
        k += 1;
    }
    assert(uv.take(k as int) =~= uv);
    n
}

/// Every zone that `start_zone` reaches under the rules, with the networks
/// it holds and the known hosts in them: wide open zones first, then by name.
/// A zone the rules close entirely is left out, and so is the start itself.
pub fn reach(
    start_zone: &str,
    names: &Vec<(String, String)>,
    policies: &Vec<Json>,
    networks: &Vec<Json>,
    users: &Vec<Json>,
) -> (r: Vec<Reach>)
    ensures
        r@.map_values(|x: Reach| reach_v(x)) == reach_spec(
            start_zone@,
            names@,
            Json::items_view(policies@),
            Json::items_view(networks@),
            Json::items_view(users@),
        ),
{
    proof {
        reveal_strlit("everything");
    }
    let ghost ps = Json::items_view(policies@);
    let ghost nv = Json::items_view(networks@);
    let ghost uv = Json::items_view(users@);
    let matrix = build_matrix(policies);
    let ghost rows = reach_rows(start_zone@, names@, ps, nv, uv);
    let ghost fr = |x: Reach| reach_v(x);
    let ghost g = |y: (int, Seq<char>, Reach)| map_item(y, fr);
    let mut keyed: Vec<Keyed<Reach>> = Vec::new();
    let mut k: usize = 0;
    while k < names.len()
        invariant
            k <= names@.len(),
            pairs_distinct(matrix@),
            forall|s: Seq<char>, d: Seq<char>|
                #[trigger] matrix_at(matrix@, s, d) == if has_rule(ps, s, d) {
                    Some(pair_verdict(ps, s, d))
                } else {
                    None
                },
            ps == Json::items_view(policies@),
            nv == Json::items_view(networks@),
            uv == Json::items_view(users@),
            fr == (|x: Reach| reach_v(x)),
            g == (|y: (int, Seq<char>, Reach)| map_item(y, fr)),
            kviews(keyed@).map_values(g) == reach_rows(start_zone@, names@.take(k as int), ps, nv, uv).map_values(
                |r: ReachV| reach_key(r),
            ),
        decreases names.len() - k,
    {
        let e = &names[k];
        assert(names@.take(k + 1).drop_last() =~= names@.take(k as int));
        assert(names@.take(k + 1).last() == names@[k as int]);
        let ghost before = keyed@;
        let v = match verdict_between(&matrix, start_zone, e.0.as_str()) {
            Some(v) => v,
            None => Verdict::Blocked,
        };
        assert(v == verdict_of(ps, start_zone@, e.0@));
        let ghost new_rows = if e.0@ == start_zone@ || v == Verdict::Blocked {
            Seq::<ReachV>::empty()
        } else {
            seq![
                (
                    e.1@,
                    verdict_label(v),
                    zone_networks(nv, e.0@),
                    count_if(uv, host_in(nv, e.0@)),
                ),
            ]
        };
        assert(reach_rows(start_zone@, names@.take(k + 1), ps, nv, uv) == reach_rows(
            start_zone@,
            names@.take(k as int),
            ps,
            nv,
            uv,
        ) + new_rows);
        if !str_eq(e.0.as_str(), start_zone) && v != Verdict::Blocked {
            let row = Reach {
                zone: e.1.clone(),
                reaches: v.label(),
                networks: networks_in(networks, e.0.as_str()),
                hosts: hosts_in(users, networks, e.0.as_str()),
            };
            let rank: u64 = if str_eq(row.reaches, "everything") {
                0
            } else {
                1
            };
            let text = row.zone.clone();
            assert(reach_key(reach_v(row)) == reach_key(new_rows[0]));
            let kr = Keyed { rank, text, item: row };
            assert(map_item(kview(kr), fr) == reach_key(new_rows[0]));
            keyed.push(kr);
        }
        proof {
            let a = kviews(keyed@).map_values(g);
            let b = reach_rows(start_zone@, names@.take(k + 1), ps, nv, uv).map_values(
                |r: ReachV| reach_key(r),
            );
            let a0 = kviews(before).map_values(g);
            let b0 = reach_rows(start_zone@, names@.take(k as int), ps, nv, uv).map_values(
                |r: ReachV| reach_key(r),
            );
            assert(a0 == b0);
            assert(b =~= b0 + new_rows.map_values(|r: ReachV| reach_key(r)));
            assert forall|q: int| 0 <= q < a0.len() implies #[trigger] a[q] == a0[q] by {
                assert(keyed@[q] == before[q]);
            }
            assert(a =~= b);
        }
        k += 1;
    }
    assert(names@.take(k as int) =~= names@);
    let ghost kv = kviews(keyed@);
    let sorted = sort_keyed(keyed);
    proof {
        law_sorted_maps_items(kv, fr);
    }
    let ghost target = sorted_by_key(rows.map_values(|r: ReachV| reach_key(r)));
    assert(kviews(sorted@).map_values(g) == target);
    let mut out: Vec<Reach> = Vec::new();
    let mut rest = sorted;
    let m = rest.len();
    let mut j: usize = 0;
    while rest.len() > 0
        invariant
            j + rest@.len() == m,
            target.len() == m,
            out@.len() == j,
            forall|q: int| 0 <= q < rest@.len() ==> #[trigger] reach_v(rest@[q].item) == target[j + q].2,
            out@.map_values(|x: Reach| reach_v(x)) == target.take(j as int).map_values(
                |t: (int, Seq<char>, ReachV)| t.2,
            ),
        decreases rest.len(),
    {
        assert(reach_v(rest@[0].item) == target[j as int].2);
        let ghost first = rest@[0];
        let x = rest.remove(0);
        assert(x == first);
        let ghost before = out@;
        out.push(x.item);
        proof {
            let a = out@.map_values(|x: Reach| reach_v(x));
            let b = target.take(j + 1).map_values(|t: (int, Seq<char>, ReachV)| t.2);
            let a0 = before.map_values(|x: Reach| reach_v(x));
            let b0 = target.take(j as int).map_values(|t: (int, Seq<char>, ReachV)| t.2);
            assert(a0 == b0);
            assert forall|q: int| 0 <= q < j + 1 implies #[trigger] a[q] == b[q] by {
                if q < j {
                    assert(a0[q] == b0[q]);
                }
            }
            assert(a =~= b);
        }
        j += 1;
    }
    assert(target.take(j as int) =~= target);
    out
}

} // verus!
