//! What `login` decides: where the API key comes from, and which site a new
//! profile settles on.
//!
//! Asking at the terminal and talking to the console are the program's part;
//! each decision here takes what came back and says what happens next.

use vstd::prelude::*;
use crate::json::{first_from, jtext, Json, JsonV};
use crate::text::{chars_eq, chars_of, lower_all, lower_chars, parse_u64, parsed_unsigned, string_of, trim, trim_str};

verus! {

/// Why no key could be settled.
#[derive(Debug, PartialEq, Eq, Clone, Copy)]
pub enum KeyError {
    /// None was given, none is stored, and nobody can be asked.
    Required,
    /// The key is only whitespace.
    Empty,
}

/// What to do about the API key.
#[derive(Debug, PartialEq, Eq)]
pub enum KeyStep {
    /// Use this key, trimmed; `kept` says whether it is the stored one.
    Use { key: String, kept: bool },
    /// Ask at the terminal, then settle the answer with [`settle_key`].
    Ask,
    /// Stop with this error.
    Fail(KeyError),
}

/// A key as it is saved: trimmed, and never empty.
pub open spec fn settled(key: Seq<char>) -> Result<Seq<char>, KeyError> {
    if trim(key).len() == 0 {
        Err(KeyError::Empty)
    } else {
        Ok(trim(key))
    }
}

/// A key as it is saved: trimmed, and never empty.
pub fn settle_key(key: &str) -> (r: Result<String, KeyError>)
    ensures
        match r {
            Ok(k) => settled(key@) == Ok::<Seq<char>, KeyError>(k@),
            Err(e) => settled(key@) == Err::<Seq<char>, KeyError>(e),
        },
{
    let t = trim_str(key);
    if t.len() == 0 {
        Err(KeyError::Empty)
    } else {
        Ok(string_of(&t))
    }
}

/// A key from the flags or the environment (`given`, empty when neither has
/// one), else the stored one, else the terminal when there is one.
pub open spec fn api_key_spec(given: Seq<char>, stored: Seq<char>, interactive: bool) -> Option<
    (Result<Seq<char>, KeyError>, bool),
> {
    if given.len() > 0 {
        Some((settled(given), false))
    } else if stored.len() > 0 {
        Some((settled(stored), true))
    } else if interactive {
        None
    } else {
        Some((Err(KeyError::Required), false))
    }
}

/// Where the API key comes from.
pub fn api_key(given: &str, stored: &str, interactive: bool) -> (r: KeyStep)
    ensures
        match r {
            KeyStep::Use { key, kept } => api_key_spec(given@, stored@, interactive) == Some(
                (Ok::<Seq<char>, KeyError>(key@), kept),
            ),
            KeyStep::Ask => api_key_spec(given@, stored@, interactive) is None,
            KeyStep::Fail(e) => (api_key_spec(given@, stored@, interactive) matches Some((Err(x), _))
                && x == e),
        },
{
    let (key, kept) = if chars_of(given).len() > 0 {
        (given, false)
    } else if chars_of(stored).len() > 0 {
        (stored, true)
    } else if interactive {
        return KeyStep::Ask;
    } else {
        return KeyStep::Fail(KeyError::Required);
    };
    match settle_key(key) {
        Ok(k) => KeyStep::Use { key: k, kept },
        Err(e) => KeyStep::Fail(e),
    }
}

/// Whether a site answers to `want`: by its id, or by its name in any ASCII
/// case.
pub open spec fn names_site(s: JsonV, want: Seq<char>) -> bool {
    jtext(s, "id"@) == want || lower_all(jtext(s, "name"@)) == lower_all(want)
}

/// Which site a profile settles on.
#[derive(Debug, PartialEq, Eq)]
pub enum SitePick {
    /// The console reports no site: keep what the profile says.
    NoSites,
    /// The site that answers to the configured one, by its id.
    Chosen(String),
    /// Nothing answers to the configured site.
    NoMatch,
    /// No site was configured and there is exactly one: its id and name.
    Only { id: String, name: String },
    /// No site was configured and there are several: one must be chosen.
    Several,
}

/// Confirm the configured site, or say how to choose one.
pub fn pick_site(sites: &Vec<Json>, want: &str) -> (r: SitePick)
    ensures
        ({
            let sv = Json::items_view(sites@);
            let hit = first_from(sv, |s: JsonV| names_site(s, want@), 0);
            match r {
                SitePick::NoSites => sv.len() == 0,
                SitePick::Chosen(id) => sv.len() > 0 && want@.len() > 0 && (hit matches Some(i)
                    && id@ == jtext(sv[i], "id"@)),
                SitePick::NoMatch => sv.len() > 0 && want@.len() > 0 && hit is None,
                SitePick::Only { id, name } => sv.len() == 1 && want@.len() == 0 && id@ == jtext(
                    sv[0],
                    "id"@,
                ) && name@ == jtext(sv[0], "name"@),
                SitePick::Several => sv.len() > 1 && want@.len() == 0,
            }
        }),
{
    proof {
        crate::json::lemma_items_view(sites@);
    }
    let ghost sv = Json::items_view(sites@);
    if sites.len() == 0 {
        return SitePick::NoSites;
    }
    let want_chars = chars_of(want);
    if want_chars.len() > 0 {
        let want_low = lower_chars(&want_chars);
        let ghost p = |s: JsonV| names_site(s, want@);
        let mut k: usize = 0;
        while k < sites.len()
            invariant
                k <= sites@.len(),
                sv == Json::items_view(sites@),
                sv.len() == sites@.len(),
                forall|j: int| 0 <= j < sv.len() ==> #[trigger] sv[j] == sites@[j]@,
                p == (|s: JsonV| names_site(s, want@)),
                want_chars@ == want@,
                want@.len() > 0,
                want_low@ == lower_all(want@),
                first_from(sv, p, 0) == first_from(sv, p, k as int),
            decreases sites.len() - k,
        {
            let id = sites[k].text("id");
            let name = sites[k].text("name");
            let by_id = chars_eq(&chars_of(id.as_str()), &want_chars);
            let by_name = chars_eq(&lower_chars(&chars_of(name.as_str())), &want_low);
            assert((by_id || by_name) == p(sv[k as int]));
            if by_id || by_name {
                assert(first_from(sv, p, k as int) == Some(k as int));
                assert(want@.len() > 0);
                return SitePick::Chosen(id);
            }
            k += 1;
        }
        return SitePick::NoMatch;
    }
    if sites.len() == 1 {
        return SitePick::Only { id: sites[0].text("id"), name: sites[0].text("name") };
    }
    SitePick::Several
}

/// The position an answer at the numbered prompt picks: the number given,
/// counted from one, or the first site when the answer is not a number or
/// is out of range.
pub open spec fn chosen_position(answer: Seq<char>, n: int) -> int {
    let picked: int = match parsed_unsigned(trim(answer), 10, usize::MAX as nat) {
        Some(v) => v as int,
        None => 1,
    };
    let i = if picked > 0 {
        picked - 1
    } else {
        0
    };
    if i < n {
        i
    } else {
        0
    }
}

/// The id of the site chosen at the numbered prompt.
pub fn chosen_site(sites: &Vec<Json>, answer: &str) -> (r: String)
    requires
        sites@.len() > 0,
    ensures
        r@ == jtext(
            Json::items_view(sites@)[chosen_position(answer@, sites@.len() as int)],
            "id"@,
        ),
{
    proof {
        crate::json::lemma_items_view(sites@);
    }
    let t = string_of(&trim_str(answer));
    let picked: usize = match parse_u64(t.as_str()) {
        Some(v) => if v <= usize::MAX as u64 {
            v as usize
        } else {
            1
        },
        None => 1,
    };
    let i = if picked > 0 {
        picked - 1
    } else {
        0
    };
    let i = if i < sites.len() {
        i
    } else {
        0
    };
    sites[i].text("id")
}

} // verus!
