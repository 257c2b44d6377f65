//! Firmware posture, entirely from what the console already decided.
//!
//! The vendor is the authority on whether a firmware is behind, out of support
//! or refused, and the console carries that verdict per device. The one thing
//! computed here is whether the installed version is below the minimum, which
//! takes a version comparison.

use vstd::prelude::*;
use core::cmp::Ordering;
use crate::json::{jflag, jget, jtext, Json, JsonV};
use crate::text::{
    chars_of, lemma_lex_sign_antisymmetric, lemma_lex_sign_range, lemma_lex_sign_reflexive,
    lex_sign, lex_sign_exec, parse_u64, parsed_unsigned, string_of,
};

verus! {

/// A character that separates version components.
pub open spec fn version_sep(c: char) -> bool {
    c == '.' || c == '-' || c == '+'
}

/// `s.split(['.', '-', '+'])`: the components between separators, empty ones
/// included.
pub open spec fn components(s: Seq<char>) -> Seq<Seq<char>>
    decreases s.len(),
{
    if s.len() == 0 {
        seq![Seq::empty()]
    } else {
        let rest = components(s.drop_last());
        if version_sep(s.last()) {
            rest.push(Seq::empty())
        } else {
            rest.update(rest.len() - 1, rest.last().push(s.last()))
        }
    }
}

pub proof fn lemma_components_nonempty(s: Seq<char>)
    ensures
        components(s).len() >= 1,
    decreases s.len(),
{
    if s.len() > 0 {
        lemma_components_nonempty(s.drop_last());
    }
}

/// The value of a component that reads as a `u64`.
pub open spec fn numeric(x: Seq<char>) -> Option<nat> {
    parsed_unsigned(x, 10, u64::MAX as nat)
}

/// How two components compare: numerically when both are numbers, as text
/// otherwise. -1, 0 or 1.
pub open spec fn component_sign(x: Seq<char>, y: Seq<char>) -> int {
    match (numeric(x), numeric(y)) {
        (Some(m), Some(n)) => if m < n {
            -1
        } else if m > n {
            1
        } else {
            0
        },
        _ => lex_sign(x, y),
    }
}

/// Component `i` of a version, a missing one reading as "0".
pub open spec fn component_at(v: Seq<Seq<char>>, i: int) -> Seq<char> {
    if 0 <= i < v.len() {
        v[i]
    } else {
        "0"@
    }
}

/// The sign of comparing two component lists from index `i` on.
pub open spec fn components_sign(a: Seq<Seq<char>>, b: Seq<Seq<char>>, i: int) -> int
    decreases (if a.len() > b.len() {
        a.len()
    } else {
        b.len()
    }) - i,
{
    if i < 0 || (i >= a.len() && i >= b.len()) {
        0
    } else {
        let s = component_sign(component_at(a, i), component_at(b, i));
        if s != 0 {
            s
        } else {
            components_sign(a, b, i + 1)
        }
    }
}

/// The sign of comparing two versions.
pub open spec fn version_sign(a: Seq<char>, b: Seq<char>) -> int {
    components_sign(components(a), components(b), 0)
}

/// The ordering a sign stands for.
pub open spec fn ordering_of(s: int) -> Ordering {
    if s < 0 {
        Ordering::Less
    } else if s > 0 {
        Ordering::Greater
    } else {
        Ordering::Equal
    }
}

fn component_sign_exec(x: &Vec<char>, y: &Vec<char>) -> (r: i8)
    ensures
        r as int == component_sign(x@, y@),
{
    match (parse_u64(string_of(x).as_str()), parse_u64(string_of(y).as_str())) {
        (Some(m), Some(n)) => if m < n {
            -1
        } else if m > n {
            1
        } else {
            0
        },
        _ => lex_sign_exec(x, y),
    }
}

fn split_components(v: &Vec<char>) -> (r: Vec<Vec<char>>)
    ensures
        r@.map_values(|c: Vec<char>| c@) == components(v@),
{
    let mut parts: Vec<Vec<char>> = Vec::new();
    let mut cur: Vec<char> = Vec::new();
    let mut i: usize = 0;
    while i < v.len()
        invariant
            i <= v.len(),
            parts@.map_values(|c: Vec<char>| c@).push(cur@) == components(v@.take(i as int)),
        decreases v.len() - i,
    {
        let c = v[i];
        let ghost prev = parts@.map_values(|c: Vec<char>| c@).push(cur@);
        assert(v@.take(i + 1).drop_last() =~= v@.take(i as int));
        if c == '.' || c == '-' || c == '+' {
            let done = cur;
            parts.push(done);
            cur = Vec::new();
            assert(parts@.map_values(|c: Vec<char>| c@).push(cur@) =~= prev.push(Seq::empty()));
        } else {
            cur.push(c);
            assert(parts@.map_values(|c: Vec<char>| c@).push(cur@) =~= prev.update(
                prev.len() - 1,
                prev.last().push(c),
            ));
        }
        i += 1;
    }
    assert(v@.take(v.len() as int) =~= v@);
    parts.push(cur);
    parts
}

fn sign_to_ordering(s: i8) -> (r: Ordering)
    ensures
        s < 0 ==> r == Ordering::Less,
        s > 0 ==> r == Ordering::Greater,
        s == 0 ==> r == Ordering::Equal,
{
    if s < 0 {
        Ordering::Less
    } else if s > 0 {
        Ordering::Greater
    } else {
        Ordering::Equal
    }
}

fn versions_sign(a: &str, b: &str) -> (r: i8)
    ensures
        r as int == version_sign(a@, b@),
        -1 <= r <= 1,
{
    let av = split_components(&chars_of(a));
    let bv = split_components(&chars_of(b));
    let ghost ac = components(a@);
    let ghost bc = components(b@);
    let zero = chars_of("0");
    let n = if av.len() > bv.len() {
        av.len()
    } else {
        bv.len()
    };
    proof {
        assert(av@.map_values(|c: Vec<char>| c@).len() == av@.len());
        assert(bv@.map_values(|c: Vec<char>| c@).len() == bv@.len());
    }
    let mut i: usize = 0;
    while i < n
        invariant
            ac == components(a@),
            bc == components(b@),
            ac == av@.map_values(|c: Vec<char>| c@),
            bc == bv@.map_values(|c: Vec<char>| c@),
            zero@ == "0"@,
            n == if ac.len() > bc.len() {
                ac.len()
            } else {
                bc.len()
            },
            i <= n,
            components_sign(ac, bc, 0) == components_sign(ac, bc, i as int),
        decreases n - i,
    {
        let x = if i < av.len() {
            &av[i]
        } else {
            &zero
        };
        let y = if i < bv.len() {
            &bv[i]
        } else {
            &zero
        };
        assert(x@ == component_at(ac, i as int));
        assert(y@ == component_at(bc, i as int));
        let s = component_sign_exec(x, y);
        if s != 0 {
            proof {
                lemma_sign_range(x@, y@);
                assert(components_sign(ac, bc, i as int) == s as int);
            }
            return s;
        }
        i += 1;
    }
    0
}

proof fn lemma_sign_range(x: Seq<char>, y: Seq<char>)
    ensures
        -1 <= component_sign(x, y) <= 1,
{
    lemma_lex_sign_range(x, y);
}

/// Compare two dotted version strings component by component.
///
/// Versions carry a build number (`7.5.10.17129`) and occasionally a suffix,
/// so components are compared numerically where both sides are numeric and
/// as text otherwise. A missing component counts as zero, which makes `7.5`
/// older than `7.5.1` rather than equal to it.
pub fn compare(a: &str, b: &str) -> (r: Ordering)
    ensures
        r == ordering_of(version_sign(a@, b@)),
{
    sign_to_ordering(versions_sign(a, b))
}

proof fn lemma_components_sign_antisymmetric(a: Seq<Seq<char>>, b: Seq<Seq<char>>, i: int)
    ensures
        components_sign(a, b, i) == -components_sign(b, a, i),
    decreases (if a.len() > b.len() {
        a.len()
    } else {
        b.len()
    }) - i,
{
    if !(i < 0 || (i >= a.len() && i >= b.len())) {
        lemma_lex_sign_antisymmetric(component_at(a, i), component_at(b, i));
        lemma_components_sign_antisymmetric(a, b, i + 1);
    }
}

/// Version comparison is antisymmetric: swapping the two versions reverses
/// the verdict, and two versions are equal either way round.
pub proof fn law_compare_antisymmetric(a: Seq<char>, b: Seq<char>)
    ensures
        version_sign(a, b) == -version_sign(b, a),
        ordering_of(version_sign(a, b)) == Ordering::Less <==> ordering_of(version_sign(b, a))
            == Ordering::Greater,
        ordering_of(version_sign(a, b)) == Ordering::Equal <==> ordering_of(version_sign(b, a))
            == Ordering::Equal,
{
    lemma_components_sign_antisymmetric(components(a), components(b), 0);
}

proof fn lemma_components_sign_reflexive(a: Seq<Seq<char>>, i: int)
    ensures
        components_sign(a, a, i) == 0,
    decreases a.len() - i,
{
    if !(i < 0 || i >= a.len()) {
        lemma_lex_sign_reflexive(component_at(a, i));
        lemma_components_sign_reflexive(a, i + 1);
    }
}

/// Every version compares equal to itself.
pub proof fn law_compare_reflexive(a: Seq<char>)
    ensures
        ordering_of(version_sign(a, a)) == Ordering::Equal,
{
    lemma_components_sign_reflexive(components(a), 0);
}

proof fn lemma_components_sign_extra_zero(a: Seq<Seq<char>>, i: int)
    requires
        0 <= i <= a.len(),
    ensures
        components_sign(a, a.push(seq!['0']), i) == 0,
    decreases a.len() + 1 - i,
{
    reveal_strlit("0");
    assert("0"@ =~= seq!['0']);
    let b = a.push(seq!['0']);
    let x = component_at(a, i);
    assert(component_at(b, i) == x);
    if numeric(x) is None {
        lemma_lex_sign_reflexive(x);
    }
    assert(component_sign(x, x) == 0);
    if i < a.len() {
        lemma_components_sign_extra_zero(a, i + 1);
    } else {
        assert(components_sign(a, b, i + 1) == 0);
    }
}

/// A trailing `.0` changes nothing: a missing component counts as zero, so
/// `7.5` and `7.5.0` compare equal.
pub proof fn law_trailing_zero_compares_equal(a: Seq<char>)
    ensures
        ordering_of(version_sign(a, a + seq!['.', '0'])) == Ordering::Equal,
{
    let p = a.push('.');
    let q = p.push('0');
    assert(a + seq!['.', '0'] =~= q);
    assert(p.drop_last() =~= a);
    assert(q.drop_last() =~= p);
    lemma_components_nonempty(a);
    let c = components(a);
    assert(components(p) == c.push(Seq::empty()));
    assert(components(q) =~= c.push(seq!['0']));
    lemma_components_sign_extra_zero(c, 0);
}

/// What the console says about one device's firmware.
#[derive(Debug, PartialEq, Eq)]
pub struct Posture {
    pub version: String,
    pub required: String,
    pub upgradable: bool,
    pub eol: bool,
    pub lts: bool,
    pub unsupported: bool,
    pub unsupported_reason: Option<String>,
    /// The installed version is older than the minimum the controller accepts.
    pub below_minimum: bool,
}

/// The freshness label of a posture.
pub open spec fn freshness(p: Posture) -> Seq<char> {
    if p.version@.len() == 0 {
        "unknown"@
    } else if p.below_minimum {
        "below minimum"@
    } else if p.upgradable {
        "update available"@
    } else {
        "current"@
    }
}

/// The support label of a posture.
pub open spec fn support_label(p: Posture) -> Seq<char> {
    if p.unsupported {
        "unsupported"@
    } else if p.eol {
        "end of life"@
    } else if p.lts {
        "lts branch"@
    } else {
        "supported"@
    }
}

impl Posture {
    /// How fresh the installed firmware is. Deliberately separate from
    /// [`support`](Self::support): a device can run the newest firmware ever
    /// published for it and still be a model that receives no further fixes.
    pub fn label(&self) -> (r: &'static str)
        ensures
            r@ == freshness(*self),
    {
        if self.version.as_str().is_empty() {
            "unknown"
        } else if self.below_minimum {
            "below minimum"
        } else if self.upgradable {
            "update available"
        } else {
            "current"
        }
    }

    /// Whether the model itself is still supported by the vendor.
    pub fn support(&self) -> (r: &'static str)
        ensures
            r@ == support_label(*self),
    {
        if self.unsupported {
            "unsupported"
        } else if self.eol {
            "end of life"
        } else if self.lts {
            "lts branch"
        } else {
            "supported"
        }
    }

    /// Whether anything here deserves attention.
    pub fn needs_action(&self) -> (r: bool)
        ensures
            r == (self.unsupported || self.eol || self.below_minimum || self.upgradable),
    {
        self.unsupported || self.eol || self.below_minimum || self.upgradable
    }
}

/// The posture a device record stands for.
pub open spec fn assessed(rec: JsonV, p: Posture) -> bool {
    let version = jtext(rec, "version"@);
    let required = jtext(rec, "required_version"@);
    &&& p.version@ == version
    &&& p.required@ == required
    &&& p.upgradable == jflag(rec, "upgradable"@)
    &&& p.eol == jflag(rec, "model_in_eol"@)
    &&& p.lts == jflag(rec, "model_in_lts"@)
    &&& p.unsupported == jflag(rec, "unsupported"@)
    &&& match p.unsupported_reason {
        Some(r) => jget(rec, "unsupported_reason"@) == Some(JsonV::Str(r@)) && r@.len() > 0,
        None => !(jget(rec, "unsupported_reason"@) matches Some(JsonV::Str(r)) && r.len() > 0),
    }
    &&& p.below_minimum == (version.len() > 0 && required.len() > 0 && version_sign(version, required) < 0)
}

/// Read the posture off a legacy `stat/device` record.
pub fn assess(rec: &Json) -> (r: Posture)
    ensures
        assessed(rec@, r),
{
    let version = rec.text("version");
    let required = rec.text("required_version");
    let below_minimum = !version.as_str().is_empty() && !required.as_str().is_empty()
        && versions_sign(version.as_str(), required.as_str()) < 0;
    let unsupported_reason = match rec.get("unsupported_reason") {
        Some(Json::Str(s)) => if s.as_str().is_empty() {
            None
        } else {
            Some(s.clone())
        },
        _ => None,
    };
    Posture {
        upgradable: rec.flag("upgradable"),
        eol: rec.flag("model_in_eol"),
        lts: rec.flag("model_in_lts"),
        unsupported: rec.flag("unsupported"),
        unsupported_reason,
        below_minimum,
        version,
        required,
    }
}

} // verus!
