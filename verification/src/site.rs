//! Site resolution.
//!
//! Every local endpoint is scoped to a site id, but nobody remembers a UUID.
//! A profile may therefore hold an id, a name, or nothing at all; this decides
//! which id that setting stands for, given the sites the console lists.

use vstd::prelude::*;
use crate::json::{jtext, Json, JsonV};
use crate::text::{chars_eq, chars_of, join, join_strings, lower_all, lower_chars};

verus! {

/// An ASCII hexadecimal digit.
pub open spec fn is_hex_digit(c: char) -> bool {
    ('0' <= c <= '9') || ('a' <= c <= 'f') || ('A' <= c <= 'F')
}

/// Where a UUID as written carries its dashes: it is grouped 8-4-4-4-12.
pub open spec fn dash_at(i: int) -> bool {
    i == 8 || i == 13 || i == 18 || i == 23
}

/// Whether a setting is written as a UUID: 36 characters, dashes at 8, 13,
/// 18 and 23, and hex digits everywhere else.
pub open spec fn uuid_like(s: Seq<char>) -> bool {
    &&& s.len() == 36
    &&& forall|i: int|
        0 <= i < s.len() ==> if dash_at(i) {
            #[trigger] s[i] == '-'
        } else {
            is_hex_digit(s[i])
        }
}

/// A UniFi site id is a UUID; anything else is treated as a name to look up.
pub fn looks_like_id(s: &str) -> (r: bool)
    ensures
        r == uuid_like(s@),
{
    let v = chars_of(s);
    if v.len() != 36 {
        return false;
    }
    let mut i: usize = 0;
    while i < v.len()
        invariant
            i <= v.len() == 36,
            v@ == s@,
            forall|k: int|
                0 <= k < i ==> if dash_at(k) {
                    #[trigger] v@[k] == '-'
                } else {
                    is_hex_digit(v@[k])
                },
        decreases v.len() - i,
    {
        let c = v[i];
        let fits = if i == 8 || i == 13 || i == 18 || i == 23 {
            c == '-'
        } else {
            ('0' <= c && c <= '9') || ('a' <= c && c <= 'f') || ('A' <= c && c <= 'F')
        };
        if !fits {
            assert(!(if dash_at(i as int) {
                s@[i as int] == '-'
            } else {
                is_hex_digit(s@[i as int])
            }));
            return false;
        }
        i += 1;
    }
    true
}

/// What settling a site setting needs.
#[derive(Debug, PartialEq, Eq)]
pub enum SiteStep {
    /// The setting is already a site id: it is used as it is and nothing is
    /// asked of the console.
    Known(String),
    /// The setting is a name or empty: the console's site list decides
    /// ([`choose_site`]).
    Lookup,
}

/// Whether a site setting needs the console's site list: only a UUID skips
/// the lookup, and it is then the id itself.
pub fn site_step(want: &str) -> (r: SiteStep)
    ensures
        match r {
            SiteStep::Known(id) => uuid_like(want@) && id@ == want@,
            SiteStep::Lookup => !uuid_like(want@),
        },
{
    if looks_like_id(want) {
        SiteStep::Known(String::from_str(want))
    } else {
        SiteStep::Lookup
    }
}

/// The field `k` of a site record, as text.
pub open spec fn site_field(s: JsonV, k: Seq<char>) -> Seq<char> {
    jtext(s, k)
}

/// Whether a site record answers to `want`: its id, or its name in any case.
pub open spec fn answers_to(s: JsonV, want: Seq<char>) -> bool {
    site_field(s, "id"@) == want || lower_all(site_field(s, "name"@)) == lower_all(want)
}

/// The names of the sites, joined for a message.
pub open spec fn site_names(sites: Seq<Json>) -> Seq<char> {
    join(sites.map_values(|s: Json| site_field(s@, "name"@)), ", "@)
}

/// Why no site id could be settled.
#[derive(Debug, PartialEq, Eq)]
pub enum SiteError {
    /// No setting, and the console lists no site.
    NoSite,
    /// No setting, and several sites exist; holds their names.
    Several { names: String },
    /// Nothing answers to the setting; holds it and the known names.
    NotFound { want: String, names: String },
}

fn names_of(sites: &Vec<Json>) -> (r: String)
    ensures
        r@ == site_names(sites@),
{
    let mut names: Vec<String> = Vec::new();
    let mut i: usize = 0;
    while i < sites.len()
        invariant
            i <= sites.len(),
            names@.len() == i,
            forall|k: int| 0 <= k < i ==> #[trigger] names@[k]@ == site_field(sites@[k]@, "name"@),
        decreases sites.len() - i,
    {
        names.push(sites[i].text("name"));
        i += 1;
    }
    assert(names@.map_values(|s: String| s@) =~= sites@.map_values(
        |s: Json| site_field(s@, "name"@),
    ));
    join_strings(&names, ", ")
}

/// Settle which site id a setting stands for, among the sites a console
/// lists. An empty setting picks the only site there is.
pub fn choose_site(want: &str, sites: &Vec<Json>) -> (r: Result<String, SiteError>)
    ensures
        want@.len() == 0 ==> match r {
            Ok(id) => sites@.len() == 1 && id@ == site_field(sites@[0]@, "id"@),
            Err(SiteError::NoSite) => sites@.len() == 0,
            Err(SiteError::Several { names }) => sites@.len() > 1 && names@ == site_names(sites@),
            Err(SiteError::NotFound { .. }) => false,
        },
        want@.len() > 0 ==> match r {
            Ok(id) => exists|i: int|
                0 <= i < sites@.len() && answers_to(#[trigger] sites@[i]@, want@) && (forall|j: int|
                    0 <= j < i ==> !answers_to(#[trigger] sites@[j]@, want@)) && id@
                    == site_field(sites@[i]@, "id"@),
            Err(SiteError::NotFound { want: w, names }) => w@ == want@ && names@ == site_names(
                sites@,
            ) && forall|i: int| 0 <= i < sites@.len() ==> !answers_to(#[trigger] sites@[i]@, want@),
            Err(_) => false,
        },
{
    let wv = chars_of(want);
    if wv.len() == 0 {
        if sites.len() == 0 {
            return Err(SiteError::NoSite);
        } else if sites.len() == 1 {
            return Ok(sites[0].text("id"));
        } else {
            return Err(SiteError::Several { names: names_of(sites) });
        }
    }
    let wl = lower_chars(&wv);
    let mut i: usize = 0;
    while i < sites.len()
        invariant
            i <= sites.len(),
            wv@ == want@,
            want@.len() > 0,
            wl@ == lower_all(want@),
            forall|j: int| 0 <= j < i ==> !answers_to(#[trigger] sites@[j]@, want@),
        decreases sites.len() - i,
    {
        let id = sites[i].text("id");
        let name = sites[i].text("name");
        if chars_eq(&chars_of(id.as_str()), &wv) || chars_eq(&lower_chars(&chars_of(name.as_str())), &wl) {
            assert(answers_to(sites@[i as int]@, want@));
            return Ok(id);
        }
        i += 1;
    }
    Err(SiteError::NotFound { want: crate::text::string_of(&wv), names: names_of(sites) })
}


/// The short name the internal surfaces know a site by: the
/// `internalReference` of the first listed site with that id.
pub open spec fn legacy_of(sites: Seq<JsonV>, id: Seq<char>) -> Option<Seq<char>> {
    match crate::json::first_from(sites, |s: JsonV| jtext(s, "id"@) == id, 0) {
        Some(i) => Some(jtext(sites[i], "internalReference"@)),
        None => None,
    }
}

/// The short name the internal surfaces know a site by, among the sites the
/// documented surface lists; `None` when no listed site has that id.
pub fn legacy_name(sites: &Vec<Json>, id: &str) -> (r: Option<String>)
    ensures
        match r {
            Some(n) => legacy_of(Json::items_view(sites@), id@) == Some(n@),
            None => legacy_of(Json::items_view(sites@), id@) is None,
        },
{
    proof {
        crate::json::lemma_items_view(sites@);
    }
    let ghost sv = Json::items_view(sites@);
    let ghost p = |s: JsonV| jtext(s, "id"@) == id@;
    let want = chars_of(id);
    let mut k: usize = 0;
    while k < sites.len()
        invariant
            k <= sites@.len(),
            sv == Json::items_view(sites@),
            sv.len() == sites@.len(),
            forall|j: int| 0 <= j < sv.len() ==> #[trigger] sv[j] == sites@[j]@,
            p == (|s: JsonV| jtext(s, "id"@) == id@),
            want@ == id@,
            crate::json::first_from(sv, p, 0) == crate::json::first_from(sv, p, k as int),
        decreases sites.len() - k,
    {
        let sid = sites[k].text("id");
        let hit = chars_eq(&chars_of(sid.as_str()), &want);
        assert(hit == p(sv[k as int]));
        if hit {
            assert(crate::json::first_from(sv, p, k as int) == Some(k as int));
            return Some(sites[k].text("internalReference"));
        }
        k += 1;
    }
    None
}

} // verus!
