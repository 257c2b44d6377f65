//! How the raw `api` command reads what it is given: the path, the query
//! pairs and where the body comes from.

use vstd::prelude::*;
use vstd::string::StringSliceAdditionalSpecFns;
use crate::client::{esc, escaped};
use crate::text::{occurs_at, chars_of, contains_seq, find_chars, replace, replace_str, slice_chars, string_of};

verus! {

/// The path with a leading slash.
pub open spec fn rooted(path: Seq<char>) -> Seq<char> {
    if path.len() > 0 && path[0] == '/' {
        path
    } else {
        seq!['/'] + path
    }
}

/// The path with a leading slash, whether or not it was typed with one.
pub fn root_path(path: &str) -> (r: String)
    ensures
        r@ == rooted(path@),
{
    let v = chars_of(path);
    if v.len() > 0 && v[0] == '/' {
        String::from_str(path)
    } else {
        let mut s = String::from_str("/");
        s.append(path);
        proof {
            reveal_strlit("/");
        }
        assert(s@ =~= seq!['/'] + path@);
        s
    }
}

/// Whether the path names the site, which then has to be resolved.
pub fn names_site(path: &str) -> (r: bool)
    ensures
        r == contains_seq(path@, "{site}"@),
{
    proof {
        reveal_strlit("{site}");
    }
    let pat = chars_of("{site}");
    find_chars(&chars_of(path), &pat).is_some()
}

/// The path with `{site}` replaced by the site's id, escaped.
pub fn fill_site(path: &str, site: &str) -> (r: String)
    ensures
        r@ == replace(path@, "{site}"@, escaped(site.spec_bytes())),
{
    proof {
        reveal_strlit("{site}");
    }
    let e = esc(site);
    replace_str(path, "{site}", e.as_str())
}

/// A `key=value` query argument, split at its first `=`.
pub open spec fn query_pair_spec(kv: Seq<char>) -> Option<(Seq<char>, Seq<char>)> {
    match crate::text::find_from(kv, "="@, 0) {
        Some(i) => Some((kv.take(i), kv.skip(i + 1))),
        None => None,
    }
}

/// A `key=value` query argument, split at its first `=`; `None` when there
/// is no `=` at all.
pub fn query_pair(kv: &str) -> (r: Option<(String, String)>)
    ensures
        match r {
            Some((k, v)) => query_pair_spec(kv@) == Some((k@, v@)),
            None => query_pair_spec(kv@) is None,
        },
{
    proof {
        reveal_strlit("=");
    }
    let v = chars_of(kv);
    let eq = chars_of("=");
    match find_chars(&v, &eq) {
        Some(i) => {
            proof {
                crate::text::lemma_find_from(v@, eq@, 0);
                assert(eq@.len() == 1);
                assert(occurs_at(v@, eq@, i as int));
                assert(i + 1 <= v@.len());
            }
            let k = slice_chars(&v, 0, i);
            assert(i < v.len());
            let rest = slice_chars(&v, i + 1, v.len());
            assert(k@ =~= v@.take(i as int));
            assert(rest@ =~= v@.skip(i + 1));
            Some((string_of(&k), string_of(&rest)))
        },
        None => None,
    }
}

/// Where a request body comes from.
#[derive(Debug, PartialEq, Eq)]
pub enum BodySource {
    /// Standard input: the argument was `-`.
    Stdin,
    /// A file: the argument was `@` and the file's name.
    File(String),
    /// The argument itself.
    Inline(String),
}

/// Where a request body comes from: `-` for standard input, `@file` for a
/// file, anything else is the body itself.
pub fn body_source(spec: &str) -> (r: BodySource)
    ensures
        match r {
            BodySource::Stdin => spec@ == "-"@,
            BodySource::File(f) => spec@ != "-"@ && spec@.len() > 0 && spec@[0] == '@' && f@
                == spec@.skip(1),
            BodySource::Inline(s) => spec@ != "-"@ && !(spec@.len() > 0 && spec@[0] == '@') && s@
                == spec@,
        },
{
    let v = chars_of(spec);
    proof {
        reveal_strlit("-");
    }
    if v.len() == 1 && v[0] == '-' {
        assert(spec@ =~= "-"@);
        return BodySource::Stdin;
    }
    assert(spec@ != "-"@) by {
        if spec@ == "-"@ {
            assert(spec@.len() == 1 && spec@[0] == '-');
        }
    }
    if v.len() > 0 && v[0] == '@' {
        let f = slice_chars(&v, 1, v.len());
        assert(f@ =~= spec@.skip(1));
        BodySource::File(string_of(&f))
    } else {
        BodySource::Inline(String::from_str(spec))
    }
}

} // verus!
