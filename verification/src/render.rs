//! Rendering decisions.
//!
//! The default is a plain, quiet terminal render: two-space indent, dimmed
//! labels, one blank line around each block. `-o json` switches every
//! command to raw JSON on stdout, untouched and parsable. What is decided
//! here: the format, how a value reads on one line, which columns carry data,
//! how wide they are, where cells are clipped, and how a status is coloured.
//! Writing to the terminal is left to the program around the library.

use vstd::prelude::*;
use crate::json::{jget, Json, JsonV};
use crate::json_text::json_text;
use crate::sort::{kview, kviews, law_sorted_maps_items, map_item, sort_keyed, sorted_by_key, Keyed};
use crate::text::{
    chars_eq, chars_of, join, join_strings, lower_all, lower_chars, str_eq, string_of, to_uppercase,
    trim, trim_str, unicode_upper,
};

verus! {

/// Longest cell a table will print before truncating; a UUID (36) still
/// fits.
pub const MAX_CELL: usize = 44;

/// How results are printed.
#[derive(Debug, Clone, Copy, PartialEq, Eq, Structural)]
pub enum Format {
    Human,
    Json,
}

/// The format asked for: `json` in any case and with any surrounding
/// blanks means JSON; anything else, or nothing, means human.
pub open spec fn format_of(asked: Option<Seq<char>>) -> Format {
    match asked {
        Some(s) => if lower_all(trim(s)) == "json"@ {
            Format::Json
        } else {
            Format::Human
        },
        None => Format::Human,
    }
}

/// Resolve the format once at startup. Anything unknown means human.
pub fn init(format: Option<&str>) -> (r: Format)
    ensures
        r == format_of(
            match format {
                Some(s) => Some(s@),
                None => None,
            },
        ),
{
    match format {
        Some(s) => {
            let want = chars_of("json");
            proof {
                reveal_strlit("json");
            }
            if chars_eq(&lower_chars(&trim_str(s)), &want) {
                Format::Json
            } else {
                Format::Human
            }
        },
        None => Format::Human,
    }
}

impl Format {
    pub fn is_json(self) -> (r: bool)
        ensures
            r == (self == Format::Json),
    {
        match self {
            Format::Json => true,
            Format::Human => false,
        }
    }
}

/// English plural, enough for the nouns this program counts: "policy" takes
/// "policies", but "day" takes "days": only a consonant before the y takes
/// the -ies form.
pub open spec fn plural_spec(noun: Seq<char>, n: nat) -> Seq<char> {
    if n == 1 {
        noun
    } else if noun.len() > 0 && noun.last() == 'y' {
        if noun.len() >= 2 && !is_vowel(noun[noun.len() - 2]) {
            noun.drop_last() + "ies"@
        } else {
            noun + "s"@
        }
    } else if noun.len() > 0 && (noun.last() == 's' || noun.last() == 'x' || noun.last() == 'z') {
        noun + "es"@
    } else {
        noun + "s"@
    }
}

/// A vowel, or a `y` standing for one.
pub open spec fn is_vowel(c: char) -> bool {
    c == 'a' || c == 'e' || c == 'i' || c == 'o' || c == 'u' || c == 'y'
}

/// English plural of `noun` for `n` of them.
pub fn plural(noun: &str, n: usize) -> (r: String)
    ensures
        r@ == plural_spec(noun@, n as nat),
{
    if n == 1 {
        return String::from_str(noun);
    }
    let cs = chars_of(noun);
    let len = cs.len();
    if len > 0 && cs[len - 1] == 'y' {
        if len >= 2 && !(cs[len - 2] == 'a' || cs[len - 2] == 'e' || cs[len - 2] == 'i' || cs[len
            - 2] == 'o' || cs[len - 2] == 'u' || cs[len - 2] == 'y') {
            let mut stem: Vec<char> = Vec::new();
            let mut i: usize = 0;
            while i < len - 1
                invariant
                    i <= len - 1,
                    len == cs@.len(),
                    stem@ == cs@.take(i as int),
                decreases len - 1 - i,
            {
                stem.push(cs[i]);
                assert(cs@.take(i + 1) =~= cs@.take(i as int).push(cs@[i as int]));
                i += 1;
            }
            assert(stem@ =~= noun@.drop_last());
            let mut out = string_of(&stem);
            out.append("ies");
            out
        } else {
            let mut out = String::from_str(noun);
            out.append("s");
            out
        }
    } else if len > 0 && (cs[len - 1] == 's' || cs[len - 1] == 'x' || cs[len - 1] == 'z') {
        let mut out = String::from_str(noun);
        out.append("es");
        out
    } else {
        let mut out = String::from_str(noun);
        out.append("s");
        out
    }
}

/// A cell clipped to `MAX_CELL` characters, the last one an ellipsis.
pub open spec fn clipped(s: Seq<char>) -> Seq<char> {
    if s.len() <= MAX_CELL {
        s
    } else {
        s.take(MAX_CELL - 1).push('…')
    }
}

/// Truncate an over-long cell so one field cannot wreck the alignment.
pub fn clip(s: &str) -> (r: String)
    ensures
        r@ == clipped(s@),
{
    let cs = chars_of(s);
    if cs.len() <= MAX_CELL {
        return String::from_str(s);
    }
    let mut out: Vec<char> = Vec::new();
    let mut i: usize = 0;
    while i < MAX_CELL - 1
        invariant
            i <= MAX_CELL - 1,
            cs@.len() > MAX_CELL,
            out@ == cs@.take(i as int),
        decreases MAX_CELL - 1 - i,
    {
        out.push(cs[i]);
        assert(cs@.take(i + 1) =~= cs@.take(i as int).push(cs@[i as int]));
        i += 1;
    }
    out.push('…');
    string_of(&out)
}

/// Whether a value is neither an object nor an array.
pub open spec fn is_leaf(v: JsonV) -> bool {
    !(v is Obj) && !(v is Arr)
}

/// One-line rendering of a value: nothing for null, a string as itself, a
/// list of plain values as a list, an empty list as nothing, anything else
/// as compact JSON.
pub open spec fn scalar_spec(v: JsonV) -> Seq<char>
    decreases v,
{
    match v {
        JsonV::Null => Seq::empty(),
        JsonV::Str(s) => s,
        JsonV::Arr(a) => if a.len() == 0 {
            Seq::empty()
        } else if forall|i: int| 0 <= i < a.len() ==> is_leaf(#[trigger] a[i]) {
            join(leaf_texts(a), ", "@)
        } else {
            json_text(v)
        },
        _ => json_text(v),
    }
}

/// Plain values as they read on one line.
pub open spec fn leaf_texts(a: Seq<JsonV>) -> Seq<Seq<char>>
    decreases a.len(),
{
    if a.len() == 0 {
        Seq::empty()
    } else {
        leaf_texts(a.drop_last()).push(leaf_text(a.last()))
    }
}

/// A plain value as it reads on one line.
pub open spec fn leaf_text(v: JsonV) -> Seq<char> {
    match v {
        JsonV::Null => Seq::empty(),
        JsonV::Str(s) => s,
        _ => json_text(v),
    }
}

fn leaf_string(v: &Json) -> (r: String)
    ensures
        r@ == leaf_text(v@),
{
    match v {
        Json::Null => String::new(),
        Json::Str(s) => s.clone(),
        _ => v.to_text(),
    }
}

/// One-line rendering of a value; nested ones fall back to compact JSON.
pub fn scalar(v: &Json) -> (r: String)
    ensures
        r@ == scalar_spec(v@),
{
    match v {
        Json::Null => String::new(),
        Json::Str(s) => s.clone(),
        Json::Arr(a) => {
            proof {
                crate::json::lemma_items_view(a@);
            }
            let ghost av = Json::items_view(a@);
            if a.len() == 0 {
                return String::new();
            }
            let mut leaves = true;
            let mut i: usize = 0;
            while i < a.len()
                invariant
                    i <= a@.len(),
                    av == Json::items_view(a@),
                    av.len() == a@.len(),
                    forall|j: int| 0 <= j < av.len() ==> #[trigger] av[j] == a@[j]@,
                    leaves == forall|j: int| 0 <= j < i ==> is_leaf(#[trigger] av[j]),
                decreases a.len() - i,
            {
                let leaf = match &a[i] {
                    Json::Obj(_) => false,
                    Json::Arr(_) => false,
                    _ => true,
                };
                if !leaf {
                    assert(!is_leaf(av[i as int]));
                }
                leaves = leaves && leaf;
                i += 1;
            }
            if !leaves {
                return v.to_text();
            }
            let mut texts: Vec<String> = Vec::new();
            let mut k: usize = 0;
            while k < a.len()
                invariant
                    k <= a@.len(),
                    av == Json::items_view(a@),
                    av.len() == a@.len(),
                    forall|j: int| 0 <= j < av.len() ==> #[trigger] av[j] == a@[j]@,
                    texts@.map_values(|s: String| s@) == leaf_texts(av.take(k as int)),
                decreases a.len() - k,
            {
                let ghost before = texts@;
                let t = leaf_string(&a[k]);
                texts.push(t);
                proof {
                    crate::text::lemma_map_push(before, t, |s: String| s@);
                    assert(av.take(k + 1).drop_last() =~= av.take(k as int));
                }
                k += 1;
            }
            assert(av.take(k as int) =~= av);
            join_strings(&texts, ", ")
        },
        _ => v.to_text(),
    }
}

/// Whether a value carries anything printable, however deeply nested.
pub open spec fn has_content_spec(v: JsonV) -> bool
    decreases v,
{
    match v {
        JsonV::Obj(m) => members_content(m),
        JsonV::Arr(a) => items_content(a),
        JsonV::Null => false,
        _ => true,
    }
}

pub open spec fn items_content(a: Seq<JsonV>) -> bool
    decreases a,
{
    if a.len() == 0 {
        false
    } else {
        items_content(a.subrange(0, a.len() - 1)) || has_content_spec(a[a.len() - 1])
    }
}

pub open spec fn members_content(m: Seq<(Seq<char>, JsonV)>) -> bool
    decreases m,
{
    if m.len() == 0 {
        false
    } else {
        members_content(m.subrange(0, m.len() - 1)) || has_content_spec(m[m.len() - 1].1)
    }
}

/// Whether a value carries anything printable, however deeply nested: an
/// object or a list holding only emptiness does not.
pub fn has_content(v: &Json) -> (r: bool)
    ensures
        r == has_content_spec(v@),
    decreases v,
{
    match v {
        Json::Obj(m) => {
            proof {
                crate::json::lemma_members_view(m@);
            }
            let ghost mv = Json::members_view(m@);
            let mut found = false;
            let mut i: usize = 0;
            while i < m.len()
                invariant
                    *v == Json::Obj(*m),
                    i <= m@.len(),
                    mv == Json::members_view(m@),
                    v@ == JsonV::Obj(mv),
                    mv.len() == m@.len(),
                    forall|j: int| 0 <= j < m@.len() ==> #[trigger] mv[j] == (m@[j].0@, m@[j].1@),
                    found == members_content(mv.take(i as int)),
                decreases m.len() - i,
            {
                proof {
                    assert(decreases_to!(*v => v->Obj_0));
                    assert(decreases_to!(*m => m@));
                    assert(decreases_to!(m@ => m@[i as int]));
                    assert(decreases_to!(m@[i as int] => m@[i as int].1));
                    assert(mv.take(i + 1).subrange(0, i as int) =~= mv.take(i as int));
                }
                let c = has_content(&m[i].1);
                found = found || c;
                i += 1;
            }
            assert(mv.take(i as int) =~= mv);
            found
        },
        Json::Arr(a) => {
            proof {
                crate::json::lemma_items_view(a@);
            }
            let ghost av = Json::items_view(a@);
            let mut found = false;
            let mut i: usize = 0;
            while i < a.len()
                invariant
                    *v == Json::Arr(*a),
                    i <= a@.len(),
                    av == Json::items_view(a@),
                    v@ == JsonV::Arr(av),
                    av.len() == a@.len(),
                    forall|j: int| 0 <= j < a@.len() ==> #[trigger] av[j] == a@[j]@,
                    found == items_content(av.take(i as int)),
                decreases a.len() - i,
            {
                proof {
                    assert(decreases_to!(*v => v->Arr_0));
                    assert(decreases_to!(*a => a@));
                    assert(decreases_to!(a@ => a@[i as int]));
                    assert(av.take(i + 1).subrange(0, i as int) =~= av.take(i as int));
                }
                let c = has_content(&a[i]);
                found = found || c;
                i += 1;
            }
            assert(av.take(i as int) =~= av);
            found
        },
        Json::Null => false,
        _ => true,
    }
}

/// Where a field sorts: identity fields float to the top of a block and to
/// the left of a table.
pub open spec fn rank_spec(key: Seq<char>) -> nat {
    if key == "name"@ || key == "idx"@ {
        0
    } else if key == "id"@ {
        1
    } else if key == "model"@ {
        2
    } else if key == "state"@ {
        3
    } else if key == "type"@ {
        4
    } else if key == "ipAddress"@ {
        5
    } else if key == "macAddress"@ {
        6
    } else if key == "enabled"@ {
        7
    } else {
        50
    }
}

/// Where a field sorts.
pub fn rank(key: &str) -> (r: u8)
    ensures
        r == rank_spec(key@),
{
    if str_eq(key, "name") || str_eq(key, "idx") {
        0
    } else if str_eq(key, "id") {
        1
    } else if str_eq(key, "model") {
        2
    } else if str_eq(key, "state") {
        3
    } else if str_eq(key, "type") {
        4
    } else if str_eq(key, "ipAddress") {
        5
    } else if str_eq(key, "macAddress") {
        6
    } else if str_eq(key, "enabled") {
        7
    } else {
        50
    }
}

/// A duration in seconds, at the two coarsest units that apply.
pub open spec fn duration_spec(secs: nat) -> Seq<char> {
    let d = secs / 86400;
    let h = (secs % 86400) / 3600;
    let m = (secs % 3600) / 60;
    if d == 0 && h == 0 {
        crate::text::decimal(m) + "m"@
    } else if d == 0 {
        crate::text::decimal(h) + "h"@ + two_digits(m) + "m"@
    } else {
        crate::text::decimal(d) + "d "@ + crate::text::decimal(h) + "h"@
    }
}

/// A number under a hundred, on two digits.
pub open spec fn two_digits(n: nat) -> Seq<char> {
    if n < 10 {
        seq!['0'] + crate::text::decimal(n)
    } else {
        crate::text::decimal(n)
    }
}

/// A duration in seconds, at the two coarsest units that apply.
pub fn duration(secs: u64) -> (r: String)
    ensures
        r@ == duration_spec(secs as nat),
{
    let d = secs / 86400;
    let h = (secs % 86400) / 3600;
    let m = (secs % 3600) / 60;
    if d == 0 && h == 0 {
        let mut out = crate::text::decimal_string(m);
        out.append("m");
        out
    } else if d == 0 {
        let mut out = crate::text::decimal_string(h);
        out.append("h");
        if m < 10 {
            out.append("0");
        }
        out.append(crate::text::decimal_string(m).as_str());
        out.append("m");
        proof {
            reveal_strlit("0");
        }
        out
    } else {
        let mut out = crate::text::decimal_string(d);
        out.append("d ");
        out.append(crate::text::decimal_string(h).as_str());
        out.append("h");
        out
    }
}

/// How a cell is coloured.
#[derive(Debug, Clone, Copy, PartialEq, Eq, Structural)]
pub enum Tint {
    Green,
    Red,
    RedBold,
    Yellow,
    Cyan,
    Dimmed,
    Normal,
}

/// Colour a cell by what it says: statuses read faster than they scan.
/// `false` is an absence, not a fault, so it is dimmed rather than red.
pub open spec fn tint_spec(s: Seq<char>) -> Tint {
    if s == "ONLINE"@ || s == "UP"@ || s == "CONNECTED"@ || s == "true"@ {
        Tint::Green
    } else if s == "OFFLINE"@ || s == "DOWN"@ || s == "DISCONNECTED"@ {
        Tint::Red
    } else if s == "false"@ {
        Tint::Dimmed
    } else if s == "PENDING"@ || s == "UPDATING"@ || s == "ADOPTING"@ || s == "UNKNOWN"@ {
        Tint::Yellow
    } else if s == "current"@ || s == "supported"@ || s == "ok"@ {
        Tint::Green
    } else if s == "appeared"@ {
        Tint::Yellow
    } else if s == "disappeared"@ {
        Tint::Dimmed
    } else if s == "changed"@ {
        Tint::Cyan
    } else if s == "weak"@ || s == "medium"@ {
        Tint::Yellow
    } else if s == "critical"@ {
        Tint::RedBold
    } else if s == "high"@ {
        Tint::Red
    } else if s == "low"@ {
        Tint::Dimmed
    } else if s == "unsupported"@ || s == "end of life"@ || s == "below minimum"@ {
        Tint::Red
    } else if s == "update available"@ {
        Tint::Yellow
    } else if s == "lts branch"@ || s == "unknown"@ {
        Tint::Dimmed
    } else {
        Tint::Normal
    }
}

/// How a cell is coloured.
pub fn tint(s: &str) -> (r: Tint)
    ensures
        r == tint_spec(s@),
{
    if str_eq(s, "ONLINE") || str_eq(s, "UP") || str_eq(s, "CONNECTED") || str_eq(s, "true") {
        Tint::Green
    } else if str_eq(s, "OFFLINE") || str_eq(s, "DOWN") || str_eq(s, "DISCONNECTED") {
        Tint::Red
    } else if str_eq(s, "false") {
        Tint::Dimmed
    } else if str_eq(s, "PENDING") || str_eq(s, "UPDATING") || str_eq(s, "ADOPTING") || str_eq(
        s,
        "UNKNOWN",
    ) {
        Tint::Yellow
    } else if str_eq(s, "current") || str_eq(s, "supported") || str_eq(s, "ok") {
        Tint::Green
    } else if str_eq(s, "appeared") {
        Tint::Yellow
    } else if str_eq(s, "disappeared") {
        Tint::Dimmed
    } else if str_eq(s, "changed") {
        Tint::Cyan
    } else if str_eq(s, "weak") || str_eq(s, "medium") {
        Tint::Yellow
    } else if str_eq(s, "critical") {
        Tint::RedBold
    } else if str_eq(s, "high") {
        Tint::Red
    } else if str_eq(s, "low") {
        Tint::Dimmed
    } else if str_eq(s, "unsupported") || str_eq(s, "end of life") || str_eq(s, "below minimum") {
        Tint::Red
    } else if str_eq(s, "update available") {
        Tint::Yellow
    } else if str_eq(s, "lts branch") || str_eq(s, "unknown") {
        Tint::Dimmed
    } else {
        Tint::Normal
    }
}

/// Title for a detail block: the object's name when it has one, else the
/// id.
pub fn name_of(v: &Json, id: &str) -> (r: String)
    ensures
        r@ == match jget(v@, "name"@) {
            Some(JsonV::Str(s)) => if s.len() > 0 {
                s
            } else {
                id@
            },
            _ => id@,
        },
{
    match v.get("name") {
        Some(Json::Str(s)) => if chars_of(s.as_str()).len() > 0 {
            s.clone()
        } else {
            String::from_str(id)
        },
        _ => String::from_str(id),
    }
}

// ---- paths ------------------------------------------------------------------

/// `s` split at every `c`, as `str::split` splits it: an empty string is one
/// empty piece, and two separators in a row enclose an empty one.
pub open spec fn split_on(s: Seq<char>, c: char) -> Seq<Seq<char>>
    decreases s.len(),
{
    if s.len() == 0 {
        seq![Seq::empty()]
    } else {
        let rest = split_on(s.drop_last(), c);
        if s.last() == c {
            rest.push(Seq::empty())
        } else {
            rest.update(rest.len() - 1, rest.last().push(s.last()))
        }
    }
}

proof fn lemma_split_nonempty(s: Seq<char>, c: char)
    ensures
        split_on(s, c).len() >= 1,
    decreases s.len(),
{
    if s.len() > 0 {
        lemma_split_nonempty(s.drop_last(), c);
    }
}

/// The pieces of a path between its dots.
pub(crate) fn split_path(path: &str) -> (r: Vec<String>)
    ensures
        r@.map_values(|x: String| x@) == split_on(path@, '.'),
{
    let cs = chars_of(path);
    let mut parts: Vec<Vec<char>> = Vec::new();
    parts.push(Vec::new());
    let mut i: usize = 0;
    assert(cs@.take(0) =~= Seq::<char>::empty());
    assert(parts@.map_values(|v: Vec<char>| v@) =~= split_on(cs@.take(0), '.'));
    while i < cs.len()
        invariant
            i <= cs@.len(),
            cs@ == path@,
            parts@.len() >= 1,
            parts@.map_values(|v: Vec<char>| v@) == split_on(cs@.take(i as int), '.'),
        decreases cs.len() - i,
    {
        let ghost before = parts@.map_values(|v: Vec<char>| v@);
        assert(cs@.take(i + 1).drop_last() =~= cs@.take(i as int));
        assert(cs@.take(i + 1).last() == cs@[i as int]);
        proof {
            lemma_split_nonempty(cs@.take(i as int), '.');
        }
        if cs[i] == '.' {
            parts.push(Vec::new());
            assert(parts@.map_values(|v: Vec<char>| v@) =~= before.push(Seq::empty()));
        } else {
            let last = parts.len() - 1;
            let mut piece = parts.remove(last);
            piece.push(cs[i]);
            parts.push(piece);
            assert(parts@.map_values(|v: Vec<char>| v@) =~= before.update(
                before.len() - 1,
                before.last().push(cs@[i as int]),
            ));
        }
        i += 1;
    }
    assert(cs@.take(i as int) =~= cs@);
    let mut out: Vec<String> = Vec::new();
    let mut k: usize = 0;
    while k < parts.len()
        invariant
            k <= parts@.len(),
            out@.map_values(|x: String| x@) == parts@.take(k as int).map_values(|v: Vec<char>| v@),
        decreases parts.len() - k,
    {
        let ghost before = out@;
        let piece = string_of(&parts[k]);
        out.push(piece);
        proof {
            crate::text::lemma_map_push(before, piece, |x: String| x@);
            crate::text::lemma_map_push(parts@.take(k as int), parts@[k as int], |v: Vec<char>| v@);
            assert(parts@.take(k + 1) =~= parts@.take(k as int).push(parts@[k as int]));
        }
        k += 1;
    }
    assert(parts@.take(k as int) =~= parts@);
    out
}

/// Where a path of member names leads inside a value.
pub open spec fn dig_spec(v: JsonV, parts: Seq<Seq<char>>) -> Option<JsonV>
    decreases parts.len(),
{
    if parts.len() == 0 {
        Some(v)
    } else {
        match jget(v, parts[0]) {
            Some(x) => dig_spec(x, parts.drop_first()),
            None => None,
        }
    }
}

/// Follow a dotted path into a JSON object.
pub fn dig<'a>(v: &'a Json, path: &str) -> (r: Option<&'a Json>)
    ensures
        match r {
            Some(x) => dig_spec(v@, split_on(path@, '.')) == Some(x@),
            None => dig_spec(v@, split_on(path@, '.')) is None,
        },
{
    let parts = split_path(path);
    let ghost pv = parts@.map_values(|x: String| x@);
    let mut cur: &'a Json = v;
    let mut i: usize = 0;
    assert(pv.skip(0) =~= pv);
    while i < parts.len()
        invariant
            i <= parts@.len(),
            pv == parts@.map_values(|x: String| x@),
            pv == split_on(path@, '.'),
            dig_spec(v@, pv) == dig_spec(cur@, pv.skip(i as int)),
        decreases parts.len() - i,
    {
        assert(pv.skip(i as int)[0] == parts@[i as int]@);
        assert(pv.skip(i as int).drop_first() =~= pv.skip(i + 1));
        match cur.get(parts[i].as_str()) {
            Some(x) => {
                cur = x;
            },
            None => {
                return None;
            },
        }
        i += 1;
    }
    Some(cur)
}

/// The first non-empty value among `paths`, as a display string.
pub open spec fn first_spec(v: JsonV, paths: Seq<Seq<char>>) -> Seq<char>
    decreases paths.len(),
{
    if paths.len() == 0 {
        Seq::empty()
    } else {
        match dig_spec(v, split_on(paths[0], '.')) {
            Some(f) => if scalar_spec(f).len() > 0 {
                scalar_spec(f)
            } else {
                first_spec(v, paths.drop_first())
            },
            None => first_spec(v, paths.drop_first()),
        }
    }
}

/// The first non-empty value among `paths`, as a display string.
pub fn first(v: &Json, paths: &Vec<String>) -> (r: String)
    ensures
        r@ == first_spec(v@, paths@.map_values(|x: String| x@)),
{
    let ghost pv = paths@.map_values(|x: String| x@);
    let mut i: usize = 0;
    assert(pv.skip(0) =~= pv);
    while i < paths.len()
        invariant
            i <= paths@.len(),
            pv == paths@.map_values(|x: String| x@),
            first_spec(v@, pv) == first_spec(v@, pv.skip(i as int)),
        decreases paths.len() - i,
    {
        assert(pv.skip(i as int)[0] == paths@[i as int]@);
        assert(pv.skip(i as int).drop_first() =~= pv.skip(i + 1));
        match dig(v, paths[i].as_str()) {
            Some(found) => {
                let s = scalar(found);
                if chars_of(s.as_str()).len() > 0 {
                    return s;
                }
            },
            None => {},
        }
        i += 1;
    }
    String::new()
}

// ---- tables -----------------------------------------------------------------

/// The most columns a table guessed from its rows shows.
pub const MAX_COLS: usize = 8;

/// The plain fields of a record, in order.
pub open spec fn leaf_keys(m: Seq<(Seq<char>, JsonV)>) -> Seq<Seq<char>>
    decreases m.len(),
{
    if m.len() == 0 {
        Seq::empty()
    } else {
        leaf_keys(m.drop_last()) + if is_leaf(m.last().1) {
            seq![m.last().0]
        } else {
            Seq::empty()
        }
    }
}

/// Fields ordered for display: identity first, then by name.
pub open spec fn by_rank(keys: Seq<Seq<char>>) -> Seq<Seq<char>> {
    sorted_by_key(keys.map_values(|k: Seq<char>| (rank_spec(k) as int, k, k))).map_values(
        |t: (int, Seq<char>, Seq<char>)| t.2,
    )
}

/// Columns for rows whose shape is only known at run time: the plain fields
/// of the first row, identity first, at most eight, each headed by its name
/// in capitals.
pub open spec fn auto_spec_spec(rows: Seq<JsonV>) -> Seq<(Seq<char>, Seq<Seq<char>>)> {
    if rows.len() == 0 {
        Seq::empty()
    } else {
        match rows[0] {
            JsonV::Obj(m) => {
                let ks = by_rank(leaf_keys(m));
                let shown = if ks.len() > MAX_COLS {
                    ks.take(MAX_COLS as int)
                } else {
                    ks
                };
                shown.map_values(|k: Seq<char>| (unicode_upper(k), seq![k]))
            },
            _ => Seq::empty(),
        }
    }
}

/// Fields ordered for display: identity first, then by name.
fn ranked_keys(keys: Vec<String>) -> (r: Vec<String>)
    ensures
        r@.map_values(|x: String| x@) == by_rank(keys@.map_values(|x: String| x@)),
{
    let ghost kv = keys@.map_values(|x: String| x@);
    let ghost want = kv.map_values(|k: Seq<char>| (rank_spec(k) as int, k, k));
    let ghost f = |x: String| x@;
    let ghost g = |y: (int, Seq<char>, String)| map_item(y, f);
    let mut keyed: Vec<Keyed<String>> = Vec::new();
    let mut k: usize = 0;
    while k < keys.len()
        invariant
            k <= keys@.len(),
            keyed@.len() == k,
            kv == keys@.map_values(|x: String| x@),
            want == kv.map_values(|k: Seq<char>| (rank_spec(k) as int, k, k)),
            f == (|x: String| x@),
            g == (|y: (int, Seq<char>, String)| map_item(y, f)),
            kviews(keyed@).map_values(g) == want.take(k as int),
        decreases keys.len() - k,
    {
        let ghost before = keyed@;
        let r = rank(keys[k].as_str());
        keyed.push(Keyed { rank: r as u64, text: keys[k].clone(), item: keys[k].clone() });
        assert(kviews(keyed@).map_values(g) =~= want.take(k + 1)) by {
            assert(kviews(before).map_values(g) == want.take(k as int));
            assert(kviews(keyed@).map_values(g)[k as int] == want[k as int]);
            assert forall|q: int| 0 <= q < k implies #[trigger] kviews(keyed@).map_values(g)[q]
                == kviews(before).map_values(g)[q] by {
                assert(keyed@[q] == before[q]);
            }
        }
        k += 1;
    }
    assert(want.take(k as int) =~= want);
    let ghost kvs = kviews(keyed@);
    let mut sorted = sort_keyed(keyed);
    proof {
        law_sorted_maps_items(kvs, f);
    }
    let ghost target = sorted_by_key(want);
    assert(kviews(sorted@).map_values(g) == target);
    let mut out: Vec<String> = Vec::new();
    let m = sorted.len();
    let mut j: usize = 0;
    while sorted.len() > 0
        invariant
            j + sorted@.len() == m,
            target.len() == m,
            out@.len() == j,
            forall|q: int| 0 <= q < sorted@.len() ==> #[trigger] sorted@[q].item@ == target[j + q].2,
            out@.map_values(|x: String| x@) == target.take(j as int).map_values(
                |t: (int, Seq<char>, Seq<char>)| t.2,
            ),
        decreases sorted.len(),
    {
        assert(sorted@[0].item@ == target[j as int].2);
        let ghost first_item = sorted@[0];
        let x = sorted.remove(0);
        assert(x == first_item);
        let ghost before = out@;
        out.push(x.item);
        proof {
            let a = out@.map_values(|x: String| x@);
            let b = target.take(j + 1).map_values(|t: (int, Seq<char>, Seq<char>)| t.2);
            let b0 = target.take(j as int).map_values(|t: (int, Seq<char>, Seq<char>)| t.2);
            assert(before.map_values(|x: String| x@) == b0);
            assert forall|q: int| 0 <= q < j + 1 implies #[trigger] a[q] == b[q] by {
                if q < j {
                    assert(before.map_values(|x: String| x@)[q] == b0[q]);
                }
            }
            assert(a =~= b);
        }
        j += 1;
    }
    assert(target.take(j as int) =~= target);
    proof {
        assert(kvs.map_values(g) == want);
    }
    out
}

/// Columns for rows whose shape is only known at run time: the plain fields
/// of the first row, identity first, at most eight.
pub fn auto_spec(rows: &Vec<Json>) -> (r: Vec<(String, Vec<String>)>)
    ensures
        r@.map_values(|c: (String, Vec<String>)| (c.0@, c.1@.map_values(|x: String| x@)))
            == auto_spec_spec(Json::items_view(rows@)),
{
    proof {
        crate::json::lemma_items_view(rows@);
    }
    let mut out: Vec<(String, Vec<String>)> = Vec::new();
    if rows.len() == 0 {
        assert(out@.map_values(|c: (String, Vec<String>)| (c.0@, c.1@.map_values(|x: String| x@)))
            =~= auto_spec_spec(Json::items_view(rows@)));
        return out;
    }
    match &rows[0] {
        Json::Obj(m) => {
            proof {
                crate::json::lemma_members_view(m@);
            }
            let ghost mv = Json::members_view(m@);
            let mut keys: Vec<String> = Vec::new();
            let mut i: usize = 0;
            while i < m.len()
                invariant
                    i <= m@.len(),
                    mv == Json::members_view(m@),
                    mv.len() == m@.len(),
                    forall|j: int| 0 <= j < m@.len() ==> #[trigger] mv[j] == (m@[j].0@, m@[j].1@),
                    keys@.map_values(|x: String| x@) == leaf_keys(mv.take(i as int)),
                decreases m.len() - i,
            {
                assert(mv.take(i + 1).drop_last() =~= mv.take(i as int));
                assert(mv.take(i + 1).last() == mv[i as int]);
                let ghost before = keys@;
                let leaf = match &m[i].1 {
                    Json::Obj(_) => false,
                    Json::Arr(_) => false,
                    _ => true,
                };
                if leaf {
                    keys.push(m[i].0.clone());
                    proof {
                        crate::text::lemma_map_push(before, m@[i as int].0, |x: String| x@);
                    }
                }
                i += 1;
            }
            assert(mv.take(i as int) =~= mv);
            let ranked = ranked_keys(keys);
            let ghost rk = ranked@.map_values(|x: String| x@);
            let n = if ranked.len() > MAX_COLS {
                MAX_COLS
            } else {
                ranked.len()
            };
            let ghost shown = if rk.len() > MAX_COLS {
                rk.take(MAX_COLS as int)
            } else {
                rk
            };
            let mut k: usize = 0;
            while k < n
                invariant
                    k <= n,
                    out@.len() == k,
                    n <= ranked@.len(),
                    rk == ranked@.map_values(|x: String| x@),
                    shown.len() == n,
                    forall|q: int| 0 <= q < n ==> #[trigger] shown[q] == rk[q],
                    out@.map_values(|c: (String, Vec<String>)| (c.0@, c.1@.map_values(|x: String| x@)))
                        == shown.take(k as int).map_values(|k: Seq<char>| (unicode_upper(k), seq![k])),
                decreases n - k,
            {
                let ghost before = out@;
                let name = ranked[k].clone();
                let head = to_uppercase(name.as_str());
                let mut paths: Vec<String> = Vec::new();
                paths.push(name);
                assert(paths@.map_values(|x: String| x@) =~= seq![rk[k as int]]);
                out.push((head, paths));
                proof {
                    let a = out@.map_values(|c: (String, Vec<String>)| (c.0@, c.1@.map_values(|x: String| x@)));
                    let b = shown.take(k + 1).map_values(|k: Seq<char>| (unicode_upper(k), seq![k]));
                    let a0 = before.map_values(|c: (String, Vec<String>)| (c.0@, c.1@.map_values(|x: String| x@)));
                    let b0 = shown.take(k as int).map_values(|k: Seq<char>| (unicode_upper(k), seq![k]));
                    assert(a0 == b0);
                    assert forall|q: int| 0 <= q < k + 1 implies #[trigger] a[q] == b[q] by {
                        if q < k {
                            assert(a0[q] == b0[q]);
                        }
                    }
                    assert(a =~= b);
                }
                k += 1;
            }
            assert(shown.take(n as int) =~= shown);
        },
        _ => {},
    }
    out
}

/// The spaces that follow each cell of a row: enough to reach the column's
/// width plus two, none after the last.
pub open spec fn padding_spec(counts: Seq<nat>, widths: Seq<usize>) -> Seq<nat> {
    Seq::new(
        counts.len(),
        |i: int|
            if i + 1 == counts.len() {
                0nat
            } else {
                (if widths[i] >= counts[i] {
                    (widths[i] - counts[i]) as nat
                } else {
                    0nat
                }) + 2
            },
    )
}

/// The spaces that follow each cell when a row is laid out in columns of
/// `widths`; the program around paints each cell and then pads it.
pub fn padding(cells: &Vec<String>, widths: &Vec<usize>) -> (r: Vec<usize>)
    requires
        widths@.len() >= cells@.len(),
        forall|i: int| 0 <= i < widths@.len() ==> #[trigger] widths@[i] < usize::MAX - 2,
    ensures
        r@.map_values(|n: usize| n as nat) == padding_spec(
            cells@.map_values(|c: String| c@.len()),
            widths@,
        ),
{
    let ghost counts = cells@.map_values(|c: String| c@.len());
    let mut out: Vec<usize> = Vec::new();
    let mut i: usize = 0;
    while i < cells.len()
        invariant
            i <= cells@.len(),
            widths@.len() >= cells@.len(),
            forall|q: int| 0 <= q < widths@.len() ==> #[trigger] widths@[q] < usize::MAX - 2,
            counts == cells@.map_values(|c: String| c@.len()),
            out@.len() == i,
            forall|q: int| 0 <= q < i ==> #[trigger] out@[q] as nat == padding_spec(counts, widths@)[q],
        decreases cells.len() - i,
    {
        let n = chars_of(cells[i].as_str()).len();
        let pad: usize = if i + 1 == cells.len() {
            0
        } else {
            (if widths[i] >= n {
                widths[i] - n
            } else {
                0
            }) + 2
        };
        out.push(pad);
        i += 1;
    }
    assert(out@.map_values(|n: usize| n as nat) =~= padding_spec(counts, widths@));
    out
}

/// The widest of a header and the cells under it.
pub open spec fn column_width(header: Seq<char>, cells: Seq<Seq<Seq<char>>>, i: int) -> nat
    decreases cells.len(),
{
    if cells.len() == 0 {
        header.len()
    } else {
        let w = column_width(header, cells.drop_last(), i);
        let c = cells.last()[i].len();
        if c > w {
            c
        } else {
            w
        }
    }
}

/// How wide each column is: its header or its widest cell.
pub fn widths(headers: &Vec<String>, cells: &Vec<Vec<String>>) -> (r: Vec<usize>)
    requires
        forall|j: int| 0 <= j < cells@.len() ==> #[trigger] cells@[j]@.len() == headers@.len(),
    ensures
        r@.len() == headers@.len(),
        forall|i: int|
            0 <= i < headers@.len() ==> #[trigger] r@[i] as nat == column_width(
                headers@[i]@,
                cells@.map_values(|row: Vec<String>| row@.map_values(|c: String| c@)),
                i,
            ),
{
    let ghost grid = cells@.map_values(|row: Vec<String>| row@.map_values(|c: String| c@));
    let mut out: Vec<usize> = Vec::new();
    let mut i: usize = 0;
    while i < headers.len()
        invariant
            i <= headers@.len(),
            out@.len() == i,
            grid == cells@.map_values(|row: Vec<String>| row@.map_values(|c: String| c@)),
            forall|j: int| 0 <= j < cells@.len() ==> #[trigger] cells@[j]@.len() == headers@.len(),
            forall|q: int|
                0 <= q < i ==> #[trigger] out@[q] as nat == column_width(headers@[q]@, grid, q),
        decreases headers.len() - i,
    {
        let mut w: usize = chars_of(headers[i].as_str()).len();
        let mut r: usize = 0;
        while r < cells.len()
            invariant
                r <= cells@.len(),
                i < headers@.len(),
                grid == cells@.map_values(|row: Vec<String>| row@.map_values(|c: String| c@)),
                forall|j: int| 0 <= j < cells@.len() ==> #[trigger] cells@[j]@.len() == headers@.len(),
                w as nat == column_width(headers@[i as int]@, grid.take(r as int), i as int),
            decreases cells.len() - r,
        {
            assert(grid.take(r + 1).drop_last() =~= grid.take(r as int));
            assert(grid.take(r + 1).last() == grid[r as int]);
            assert(grid[r as int][i as int] == cells@[r as int]@[i as int]@);
            let c = chars_of(cells[r][i].as_str()).len();
            if c > w {
                w = c;
            }
            r += 1;
        }
        assert(grid.take(r as int) =~= grid);
        out.push(w);
        i += 1;
    }
    out
}

/// Whether any row shows something under the paths of a column.
pub open spec fn column_used(rows: Seq<JsonV>, paths: Seq<Seq<char>>) -> bool {
    exists|r: int| 0 <= r < rows.len() && first_spec(#[trigger] rows[r], paths).len() > 0
}

/// Which columns carry data on these rows, by their place in `spec`.
pub fn used_columns(rows: &Vec<Json>, spec: &Vec<(String, Vec<String>)>) -> (r: Vec<usize>)
    ensures
        forall|q: int| 0 <= q < r@.len() ==> #[trigger] r@[q] < spec@.len(),
        r@.map_values(|c: usize| c as int) == Seq::new(spec@.len() as nat, |c: int| c).filter(
            |c: int| column_used(Json::items_view(rows@), spec@[c].1@.map_values(|x: String| x@)),
        ),
{
    proof {
        crate::json::lemma_items_view(rows@);
    }
    let ghost rv = Json::items_view(rows@);
    let ghost all = Seq::new(spec@.len() as nat, |c: int| c);
    let ghost keep = |c: int| column_used(rv, spec@[c].1@.map_values(|x: String| x@));
    let mut out: Vec<usize> = Vec::new();
    let mut c: usize = 0;
    while c < spec.len()
        invariant
            c <= spec@.len(),
            rv == Json::items_view(rows@),
            rv.len() == rows@.len(),
            forall|j: int| 0 <= j < rv.len() ==> #[trigger] rv[j] == rows@[j]@,
            all == Seq::new(spec@.len() as nat, |c: int| c),
            keep == (|c: int| column_used(rv, spec@[c].1@.map_values(|x: String| x@))),
            forall|q: int| 0 <= q < out@.len() ==> #[trigger] out@[q] < c,
            out@.map_values(|c: usize| c as int) == all.take(c as int).filter(keep),
        decreases spec.len() - c,
    {
        let ghost paths = spec@[c as int].1@.map_values(|x: String| x@);
        let mut used = false;
        let mut r: usize = 0;
        while r < rows.len()
            invariant
                r <= rows@.len(),
                rv.len() == rows@.len(),
                forall|j: int| 0 <= j < rv.len() ==> #[trigger] rv[j] == rows@[j]@,
                c < spec@.len(),
                paths == spec@[c as int].1@.map_values(|x: String| x@),
                used == exists|q: int| 0 <= q < r && first_spec(#[trigger] rv[q], paths).len() > 0,
            decreases rows.len() - r,
        {
            let f = first(&rows[r], &spec[c].1);
            if chars_of(f.as_str()).len() > 0 {
                assert(first_spec(rv[r as int], paths).len() > 0);
                used = true;
            }
            r += 1;
        }
        let ghost before = out@;
        if used {
            out.push(c);
        }
        proof {
            reveal(Seq::filter);
            assert(all.take(c + 1).drop_last() =~= all.take(c as int));
            assert(all.take(c + 1).last() == c as int);
            assert(keep(c as int) == used);
            if used {
                crate::text::lemma_map_push(before, c, |c: usize| c as int);
            }
        }
        c += 1;
    }
    assert(all.take(c as int) =~= all);
    out
}

/// The cells of a table: for each row and each chosen column, the first
/// value its paths lead to, clipped.
pub open spec fn grid_spec(rows: Seq<JsonV>, paths: Seq<Seq<Seq<char>>>) -> Seq<Seq<Seq<char>>> {
    rows.map_values(|row: JsonV| paths.map_values(|p: Seq<Seq<char>>| clipped(first_spec(row, p))))
}

/// The cells of a table under the chosen columns of `spec`.
pub fn grid(rows: &Vec<Json>, spec: &Vec<(String, Vec<String>)>, cols: &Vec<usize>) -> (r: Vec<Vec<String>>)
    requires
        forall|q: int| 0 <= q < cols@.len() ==> #[trigger] cols@[q] < spec@.len(),
    ensures
        r@.map_values(|row: Vec<String>| row@.map_values(|c: String| c@)) == grid_spec(
            Json::items_view(rows@),
            cols@.map_values(|c: usize| spec@[c as int].1@.map_values(|x: String| x@)),
        ),
{
    proof {
        crate::json::lemma_items_view(rows@);
    }
    let ghost rv = Json::items_view(rows@);
    let ghost ps = cols@.map_values(|c: usize| spec@[c as int].1@.map_values(|x: String| x@));
    let ghost want = grid_spec(rv, ps);
    let mut out: Vec<Vec<String>> = Vec::new();
    let mut r: usize = 0;
    while r < rows.len()
        invariant
            r <= rows@.len(),
            rv == Json::items_view(rows@),
            rv.len() == rows@.len(),
            forall|j: int| 0 <= j < rv.len() ==> #[trigger] rv[j] == rows@[j]@,
            forall|q: int| 0 <= q < cols@.len() ==> #[trigger] cols@[q] < spec@.len(),
            ps == cols@.map_values(|c: usize| spec@[c as int].1@.map_values(|x: String| x@)),
            want == grid_spec(rv, ps),
            out@.len() == r,
            forall|q: int| 0 <= q < r ==> out@[q]@.map_values(|c: String| c@) == #[trigger] want[q],
        decreases rows.len() - r,
    {
        let mut line: Vec<String> = Vec::new();
        let mut k: usize = 0;
        while k < cols.len()
            invariant
                k <= cols@.len(),
                r < rows@.len(),
                rv.len() == rows@.len(),
                forall|j: int| 0 <= j < rv.len() ==> #[trigger] rv[j] == rows@[j]@,
                forall|q: int| 0 <= q < cols@.len() ==> #[trigger] cols@[q] < spec@.len(),
                ps == cols@.map_values(|c: usize| spec@[c as int].1@.map_values(|x: String| x@)),
                line@.len() == k,
                forall|q: int|
                    0 <= q < k ==> #[trigger] line@[q]@ == clipped(first_spec(rv[r as int], ps[q])),
            decreases cols.len() - k,
        {
            let f = first(&rows[r], &spec[cols[k]].1);
            let cell = clip(f.as_str());
            line.push(cell);
            k += 1;
        }
        assert(line@.map_values(|c: String| c@) =~= want[r as int]);
        out.push(line);
        r += 1;
    }
    assert(out@.map_values(|row: Vec<String>| row@.map_values(|c: String| c@)) =~= want);
    out
}

/// The fields of a block in display order: identity first, then by name.
pub fn block_keys(m: &Vec<(String, Json)>) -> (r: Vec<String>)
    ensures
        r@.map_values(|x: String| x@) == by_rank(m@.map_values(|e: (String, Json)| e.0@)),
{
    let mut keys: Vec<String> = Vec::new();
    let mut i: usize = 0;
    while i < m.len()
        invariant
            i <= m@.len(),
            keys@.map_values(|x: String| x@) == m@.take(i as int).map_values(|e: (String, Json)| e.0@),
        decreases m.len() - i,
    {
        let ghost before = keys@;
        keys.push(m[i].0.clone());
        proof {
            crate::text::lemma_map_push(before, m@[i as int].0, |x: String| x@);
            crate::text::lemma_map_push(m@.take(i as int), m@[i as int], |e: (String, Json)| e.0@);
            assert(m@.take(i + 1) =~= m@.take(i as int).push(m@[i as int]));
        }
        i += 1;
    }
    assert(m@.take(i as int) =~= m@);
    ranked_keys(keys)
}

} // verus!
