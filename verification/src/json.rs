//! JSON documents, as the library reads them.
//!
//! The consoles answer in JSON; the program around the library parses it and
//! hands over a [`Json`]. Numbers that fit an `i64` are kept as integers, the
//! rest by their decimal text, so nothing here depends on floating point.
//! [`JsonV`] is the mathematical value a document stands for.

use vstd::prelude::*;
use crate::text::str_eq;

verus! {

/// A JSON value.
#[derive(Debug)]
pub enum Json {
    Null,
    Bool(bool),
    /// A number with an integral value that fits in an `i64`.
    Int(i64),
    /// Any other number, by its JSON text.
    Num(String),
    Str(String),
    Arr(Vec<Json>),
    /// An object, as its members in order. Documents built by this library
    /// keep their keys distinct, in the order a row lists them.
    Obj(Vec<(String, Json)>),
}

/// The mathematical value of a [`Json`].
pub enum JsonV {
    Null,
    Bool(bool),
    Int(int),
    Num(Seq<char>),
    Str(Seq<char>),
    Arr(Seq<JsonV>),
    Obj(Seq<(Seq<char>, JsonV)>),
}

impl Json {
    pub open spec fn view(&self) -> JsonV
        decreases self,
    {
        match self {
            Json::Null => JsonV::Null,
            Json::Bool(b) => JsonV::Bool(*b),
            Json::Int(n) => JsonV::Int(*n as int),
            Json::Num(s) => JsonV::Num(s@),
            Json::Str(s) => JsonV::Str(s@),
            Json::Arr(v) => JsonV::Arr(Json::items_view(v@)),
            Json::Obj(m) => JsonV::Obj(Json::members_view(m@)),
        }
    }

    pub open spec fn items_view(s: Seq<Json>) -> Seq<JsonV>
        decreases s,
    {
        if s.len() == 0 {
            Seq::empty()
        } else {
            Json::items_view(s.subrange(0, s.len() - 1)).push(s[s.len() - 1].view())
        }
    }

    pub open spec fn members_view(s: Seq<(String, Json)>) -> Seq<(Seq<char>, JsonV)>
        decreases s,
    {
        if s.len() == 0 {
            Seq::empty()
        } else {
            Json::members_view(s.subrange(0, s.len() - 1)).push(
                (s[s.len() - 1].0@, s[s.len() - 1].1.view()),
            )
        }
    }
}


/// The value of the first member of `m` named `k`.
pub open spec fn member(m: Seq<(Seq<char>, JsonV)>, k: Seq<char>) -> Option<JsonV>
    decreases m.len(),
{
    if m.len() == 0 {
        None
    } else if m[0].0 == k {
        Some(m[0].1)
    } else {
        member(m.subrange(1, m.len() as int), k)
    }
}

/// `v[k]` when `v` is an object holding `k`.
pub open spec fn jget(v: JsonV, k: Seq<char>) -> Option<JsonV> {
    match v {
        JsonV::Obj(m) => member(m, k),
        _ => None,
    }
}

/// `v[a][b]`, a member of a member.
pub open spec fn jget2(v: JsonV, a: Seq<char>, b: Seq<char>) -> Option<JsonV> {
    match jget(v, a) {
        Some(x) => jget(x, b),
        None => None,
    }
}

/// The string under `k`, or empty when there is none.
pub open spec fn jtext(v: JsonV, k: Seq<char>) -> Seq<char> {
    match jget(v, k) {
        Some(JsonV::Str(s)) => s,
        _ => Seq::empty(),
    }
}

/// The boolean under `k`, or false when there is none.
pub open spec fn jflag(v: JsonV, k: Seq<char>) -> bool {
    match jget(v, k) {
        Some(JsonV::Bool(b)) => b,
        _ => false,
    }
}

/// The integer under `k`, when there is one.
pub open spec fn jint(v: JsonV, k: Seq<char>) -> Option<int> {
    match jget(v, k) {
        Some(JsonV::Int(n)) => Some(n),
        _ => None,
    }
}

/// The string under `k`, when there is one.
pub open spec fn jstr(v: JsonV, k: Seq<char>) -> Option<Seq<char>> {
    match jget(v, k) {
        Some(JsonV::Str(s)) => Some(s),
        _ => None,
    }
}

/// The number of items of the array under `k`, 0 when there is none.
pub open spec fn jlen(v: JsonV, k: Seq<char>) -> nat {
    match jget(v, k) {
        Some(JsonV::Arr(a)) => a.len(),
        _ => 0,
    }
}

/// How many records satisfy `p`.
pub open spec fn count_if(s: Seq<JsonV>, p: spec_fn(JsonV) -> bool) -> nat
    decreases s.len(),
{
    if s.len() == 0 {
        0
    } else {
        count_if(s.drop_last(), p) + if p(s.last()) {
            1nat
        } else {
            0nat
        }
    }
}

/// The `name` of every record that satisfies `p`, in order.
pub open spec fn names_where(s: Seq<JsonV>, p: spec_fn(JsonV) -> bool) -> Seq<Seq<char>>
    decreases s.len(),
{
    if s.len() == 0 {
        Seq::empty()
    } else {
        names_where(s.drop_last(), p) + if p(s.last()) {
            seq![jtext(s.last(), "name"@)]
        } else {
            Seq::empty()
        }
    }
}

/// The text under `a` then `b`, or empty when there is none.
pub open spec fn jtext2(v: JsonV, a: Seq<char>, b: Seq<char>) -> Seq<char> {
    match jget(v, a) {
        Some(x) => jtext(x, b),
        None => Seq::empty(),
    }
}

/// The items of the array under `k`, none when there is no array.
pub open spec fn jitems(v: JsonV, k: Seq<char>) -> Seq<JsonV> {
    match jget(v, k) {
        Some(JsonV::Arr(a)) => a,
        _ => Seq::empty(),
    }
}

/// The strings among `a`, in order.
pub open spec fn str_items(a: Seq<JsonV>) -> Seq<Seq<char>>
    decreases a.len(),
{
    if a.len() == 0 {
        Seq::empty()
    } else {
        str_items(a.drop_last()) + match a.last() {
            JsonV::Str(s) => seq![s],
            _ => Seq::empty(),
        }
    }
}

/// The first index at or after `i` whose record satisfies `p`.
pub open spec fn first_from(s: Seq<JsonV>, p: spec_fn(JsonV) -> bool, i: int) -> Option<int>
    decreases s.len() - i,
{
    if i < 0 || i >= s.len() {
        None
    } else if p(s[i]) {
        Some(i)
    } else {
        first_from(s, p, i + 1)
    }
}

/// What `first_from` returns satisfies `p`, and nothing before it from `i` does.
pub proof fn lemma_first_from(s: Seq<JsonV>, p: spec_fn(JsonV) -> bool, i: int)
    requires
        0 <= i,
    ensures
        match first_from(s, p, i) {
            Some(j) => i <= j < s.len() && p(s[j]) && forall|q: int| i <= q < j ==> !p(#[trigger] s[q]),
            None => forall|q: int| i <= q < s.len() ==> !p(#[trigger] s[q]),
        },
    decreases s.len() - i,
{
    if i < s.len() && !p(s[i]) {
        lemma_first_from(s, p, i + 1);
    }
}

pub proof fn lemma_items_view(s: Seq<Json>)
    ensures
        Json::items_view(s).len() == s.len(),
        forall|i: int| 0 <= i < s.len() ==> #[trigger] Json::items_view(s)[i] == s[i]@,
    decreases s.len(),
{
    if s.len() > 0 {
        lemma_items_view(s.subrange(0, s.len() - 1));
    }
}

pub proof fn lemma_members_view(s: Seq<(String, Json)>)
    ensures
        Json::members_view(s).len() == s.len(),
        forall|i: int|
            0 <= i < s.len() ==> #[trigger] Json::members_view(s)[i] == (s[i].0@, s[i].1@),
    decreases s.len(),
{
    if s.len() > 0 {
        lemma_members_view(s.subrange(0, s.len() - 1));
    }
}

/// Skipping members that do not carry `k` does not change which one is found.
pub proof fn lemma_member_skip(m: Seq<(Seq<char>, JsonV)>, k: Seq<char>, i: int)
    requires
        0 <= i <= m.len(),
        forall|j: int| 0 <= j < i ==> m[j].0 != k,
    ensures
        member(m, k) == member(m.subrange(i, m.len() as int), k),
    decreases i,
{
    if i > 0 {
        assert(m.subrange(1, m.len() as int).subrange(i - 1, m.len() - 1) =~= m.subrange(
            i,
            m.len() as int,
        ));
        lemma_member_skip(m.subrange(1, m.len() as int), k, i - 1);
    } else {
        assert(m.subrange(0, m.len() as int) =~= m);
    }
}

impl Json {
    /// A copy of the whole document.
    pub fn deep_clone(&self) -> (r: Json)
        ensures
            r@ == self@,
        decreases self,
    {
        match self {
            Json::Null => Json::Null,
            Json::Bool(b) => Json::Bool(*b),
            Json::Int(n) => Json::Int(*n),
            Json::Num(s) => Json::Num(s.clone()),
            Json::Str(s) => Json::Str(s.clone()),
            Json::Arr(v) => {
                let mut out: Vec<Json> = Vec::new();
                let mut i: usize = 0;
                while i < v.len()
                    invariant
                        i <= v.len(),
                        *self == Json::Arr(*v),
                        out@.len() == i,
                        forall|k: int| 0 <= k < i ==> #[trigger] out@[k]@ == v@[k]@,
                    decreases v.len() - i,
                {
                    proof {
                        assert(decreases_to!(*self => self->Arr_0));
                        assert(decreases_to!(*v => v@));
                        assert(decreases_to!(v@ => v@[i as int]));
                        assert(decreases_to!(*self => v@[i as int]));
                    }
                    out.push(v[i].deep_clone());
                    i += 1;
                }
                proof {
                    lemma_items_view(out@);
                    lemma_items_view(v@);
                    assert(Json::items_view(out@) =~= Json::items_view(v@));
                }
                Json::Arr(out)
            },
            Json::Obj(m) => {
                let mut out: Vec<(String, Json)> = Vec::new();
                let mut i: usize = 0;
                while i < m.len()
                    invariant
                        i <= m.len(),
                        *self == Json::Obj(*m),
                        out@.len() == i,
                        forall|k: int|
                            0 <= k < i ==> #[trigger] out@[k].0@ == m@[k].0@ && out@[k].1@
                                == m@[k].1@,
                    decreases m.len() - i,
                {
                    proof {
                        assert(decreases_to!(*self => self->Obj_0));
                        assert(decreases_to!(*m => m@));
                        assert(decreases_to!(m@ => m@[i as int]));
                        assert(decreases_to!(m@[i as int] => m@[i as int].1));
                        assert(decreases_to!(*self => m@[i as int].1));
                    }
                    out.push((m[i].0.clone(), m[i].1.deep_clone()));
                    i += 1;
                }
                proof {
                    lemma_members_view(out@);
                    lemma_members_view(m@);
                    assert(Json::members_view(out@) =~= Json::members_view(m@));
                }
                Json::Obj(out)
            },
        }
    }

    /// The member named `k`, when `self` is an object holding one.
    pub fn get(&self, k: &str) -> (r: Option<&Json>)
        ensures
            match r {
                Some(x) => jget(self@, k@) == Some(x@),
                None => jget(self@, k@) is None,
            },
    {
        match self {
            Json::Obj(m) => {
                proof {
                    lemma_members_view(m@);
                }
                let ghost mv = Json::members_view(m@);
                let mut i: usize = 0;
                while i < m.len()
                    invariant
                        0 <= i <= m.len(),
                        mv == Json::members_view(m@),
                        self@ == JsonV::Obj(mv),
                        mv.len() == m@.len(),
                        forall|j: int| 0 <= j < m@.len() ==> #[trigger] mv[j] == (m@[j].0@, m@[j].1@),
                        forall|j: int| 0 <= j < i ==> mv[j].0 != k@,
                    decreases m.len() - i,
                {
                    if str_eq(m[i].0.as_str(), k) {
                        proof {
                            lemma_member_skip(mv, k@, i as int);
                            assert(mv.subrange(i as int, mv.len() as int)[0] == mv[i as int]);
                        }
                        return Some(&m[i].1);
                    }
                    i += 1;
                }
                proof {
                    lemma_member_skip(mv, k@, i as int);
                }
                None
            },
            _ => None,
        }
    }

    /// The string this value is, if it is one.
    pub fn as_str(&self) -> (r: Option<&String>)
        ensures
            match r {
                Some(s) => self@ == JsonV::Str(s@),
                None => !(self@ is Str),
            },
    {
        match self {
            Json::Str(s) => Some(s),
            _ => None,
        }
    }

    /// The items of this value, if it is an array.
    pub fn as_array(&self) -> (r: Option<&Vec<Json>>)
        ensures
            match r {
                Some(a) => self@ == JsonV::Arr(Json::items_view(a@)),
                None => !(self@ is Arr),
            },
    {
        match self {
            Json::Arr(a) => Some(a),
            _ => None,
        }
    }

    /// `v.get(a)` then `.get(b)`: a member of a member.
    pub fn get2(&self, a: &str, b: &str) -> (r: Option<&Json>)
        ensures
            match r {
                Some(x) => jget2(self@, a@, b@) == Some(x@),
                None => jget2(self@, a@, b@) is None,
            },
    {
        match self.get(a) {
            Some(x) => x.get(b),
            None => None,
        }
    }

    /// Whether this value is an object.
    pub fn is_object(&self) -> (r: bool)
        ensures
            r == self@ is Obj,
    {
        match self {
            Json::Obj(_) => true,
            _ => false,
        }
    }

    /// Whether this value is an array.
    pub fn is_array(&self) -> (r: bool)
        ensures
            r == self@ is Arr,
    {
        match self {
            Json::Arr(_) => true,
            _ => false,
        }
    }

    /// The string under `k`, or an empty string.
    pub fn text(&self, k: &str) -> (r: String)
        ensures
            r@ == jtext(self@, k@),
    {
        match self.get(k) {
            Some(Json::Str(s)) => s.clone(),
            _ => String::new(),
        }
    }

    /// The boolean under `k`, or false.
    pub fn flag(&self, k: &str) -> (r: bool)
        ensures
            r == jflag(self@, k@),
    {
        match self.get(k) {
            Some(Json::Bool(b)) => *b,
            _ => false,
        }
    }

    /// The integer under `k`, when there is one.
    pub fn int_at(&self, k: &str) -> (r: Option<i64>)
        ensures
            match r {
                Some(n) => jint(self@, k@) == Some(n as int),
                None => jint(self@, k@) is None,
            },
    {
        match self.get(k) {
            Some(Json::Int(n)) => Some(*n),
            _ => None,
        }
    }

    /// The string under `k`, when there is one.
    pub fn str_at(&self, k: &str) -> (r: Option<&String>)
        ensures
            match r {
                Some(s) => jstr(self@, k@) == Some(s@),
                None => jstr(self@, k@) is None,
            },
    {
        match self.get(k) {
            Some(Json::Str(s)) => Some(s),
            _ => None,
        }
    }

    /// How many items the array under `k` holds, 0 when there is none.
    pub fn len_at(&self, k: &str) -> (r: usize)
        ensures
            r == jlen(self@, k@),
    {
        match self.get(k) {
            Some(Json::Arr(a)) => {
                proof {
                    lemma_items_view(a@);
                }
                a.len()
            },
            _ => 0,
        }
    }
}

impl Json {
    /// Whether two documents are the same value.
    pub fn same(&self, other: &Json) -> (r: bool)
        ensures
            r == (self@ == other@),
        decreases self,
    {
        match (self, other) {
            (Json::Null, Json::Null) => true,
            (Json::Bool(a), Json::Bool(b)) => *a == *b,
            (Json::Int(a), Json::Int(b)) => *a == *b,
            (Json::Num(a), Json::Num(b)) => str_eq(a.as_str(), b.as_str()),
            (Json::Str(a), Json::Str(b)) => str_eq(a.as_str(), b.as_str()),
            (Json::Arr(a), Json::Arr(b)) => {
                proof {
                    lemma_items_view(a@);
                    lemma_items_view(b@);
                }
                if a.len() != b.len() {
                    return false;
                }
                let mut i: usize = 0;
                while i < a.len()
                    invariant
                        *self == Json::Arr(*a),
                        *other == Json::Arr(*b),
                        a@.len() == b@.len(),
                        Json::items_view(a@).len() == a@.len(),
                        Json::items_view(b@).len() == b@.len(),
                        forall|j: int| 0 <= j < a@.len() ==> #[trigger] Json::items_view(a@)[j] == a@[j]@,
                        forall|j: int| 0 <= j < b@.len() ==> #[trigger] Json::items_view(b@)[j] == b@[j]@,
                        i <= a@.len(),
                        forall|j: int| 0 <= j < i ==> a@[j]@ == #[trigger] b@[j]@,
                    decreases a.len() - i,
                {
                    proof {
                        assert(decreases_to!(*self => self->Arr_0));
                        assert(decreases_to!(*a => a@));
                        assert(decreases_to!(a@ => a@[i as int]));
                    }
                    if !a[i].same(&b[i]) {
                        assert(Json::items_view(a@)[i as int] != Json::items_view(b@)[i as int]);
                        return false;
                    }
                    i += 1;
                }
                assert(Json::items_view(a@) =~= Json::items_view(b@));
                true
            },
            (Json::Obj(a), Json::Obj(b)) => {
                proof {
                    lemma_members_view(a@);
                    lemma_members_view(b@);
                }
                if a.len() != b.len() {
                    return false;
                }
                let mut i: usize = 0;
                while i < a.len()
                    invariant
                        *self == Json::Obj(*a),
                        *other == Json::Obj(*b),
                        a@.len() == b@.len(),
                        Json::members_view(a@).len() == a@.len(),
                        Json::members_view(b@).len() == b@.len(),
                        forall|j: int|
                            0 <= j < a@.len() ==> #[trigger] Json::members_view(a@)[j] == (a@[j].0@, a@[j].1@),
                        forall|j: int|
                            0 <= j < b@.len() ==> #[trigger] Json::members_view(b@)[j] == (b@[j].0@, b@[j].1@),
                        i <= a@.len(),
                        forall|j: int|
                            0 <= j < i ==> a@[j].0@ == b@[j].0@ && a@[j].1@ == #[trigger] b@[j].1@,
                    decreases a.len() - i,
                {
                    proof {
                        assert(decreases_to!(*self => self->Obj_0));
                        assert(decreases_to!(*a => a@));
                        assert(decreases_to!(a@ => a@[i as int]));
                        assert(decreases_to!(a@[i as int] => a@[i as int].1));
                    }
                    if !str_eq(a[i].0.as_str(), b[i].0.as_str()) || !a[i].1.same(&b[i].1) {
                        assert(Json::members_view(a@)[i as int] != Json::members_view(b@)[i as int]);
                        return false;
                    }
                    i += 1;
                }
                assert(Json::members_view(a@) =~= Json::members_view(b@));
                true
            },
            _ => false,
        }
    }
}

/// A number text that stands for zero written as a float: `0.0` and `-0.0`
/// are one number.
pub open spec fn float_zero(t: Seq<char>) -> bool {
    t == seq!['0', '.', '0'] || t == seq!['-', '0', '.', '0']
}

/// Whether two documents are equal as JSON values: numbers by value, so a
/// zero and a negative zero are the same number, everything else as it is.
pub open spec fn json_eq(a: JsonV, b: JsonV) -> bool
    decreases a,
{
    match (a, b) {
        (JsonV::Num(x), JsonV::Num(y)) => x == y || (float_zero(x) && float_zero(y)),
        (JsonV::Arr(x), JsonV::Arr(y)) => items_eq(x, y),
        (JsonV::Obj(x), JsonV::Obj(y)) => members_eq(x, y),
        _ => a == b,
    }
}

/// Two arrays of equal items, position by position.
pub open spec fn items_eq(x: Seq<JsonV>, y: Seq<JsonV>) -> bool
    decreases x,
{
    if x.len() != y.len() {
        false
    } else if x.len() == 0 {
        true
    } else {
        items_eq(x.subrange(0, x.len() - 1), y.subrange(0, y.len() - 1)) && json_eq(
            x[x.len() - 1],
            y[y.len() - 1],
        )
    }
}

/// Two objects with the same names, in order, holding equal values.
pub open spec fn members_eq(x: Seq<(Seq<char>, JsonV)>, y: Seq<(Seq<char>, JsonV)>) -> bool
    decreases x,
{
    if x.len() != y.len() {
        false
    } else if x.len() == 0 {
        true
    } else {
        members_eq(x.subrange(0, x.len() - 1), y.subrange(0, y.len() - 1)) && x[x.len() - 1].0
            == y[y.len() - 1].0 && json_eq(x[x.len() - 1].1, y[y.len() - 1].1)
    }
}

proof fn lemma_items_eq(x: Seq<JsonV>, y: Seq<JsonV>)
    ensures
        items_eq(x, y) <==> (x.len() == y.len() && forall|j: int| 0 <= j < x.len() ==> json_eq(#[trigger] x[j], y[j])),
    decreases x.len(),
{
    if x.len() == y.len() && x.len() > 0 {
        let n = x.len() - 1;
        lemma_items_eq(x.subrange(0, n), y.subrange(0, n));
        if forall|j: int| 0 <= j < x.len() ==> json_eq(#[trigger] x[j], y[j]) {
            assert forall|j: int| 0 <= j < n implies json_eq(#[trigger] x.subrange(0, n)[j], y.subrange(0, n)[j]) by {
                assert(json_eq(x[j], y[j]));
            }
        }
        if items_eq(x, y) {
            assert forall|j: int| 0 <= j < x.len() implies json_eq(#[trigger] x[j], y[j]) by {
                if j < n {
                    assert(json_eq(x.subrange(0, n)[j], y.subrange(0, n)[j]));
                }
            }
        }
    }
}

proof fn lemma_members_eq(x: Seq<(Seq<char>, JsonV)>, y: Seq<(Seq<char>, JsonV)>)
    ensures
        members_eq(x, y) <==> (x.len() == y.len() && forall|j: int|
            #![trigger x[j]]
            0 <= j < x.len() ==> x[j].0 == y[j].0 && json_eq(x[j].1, y[j].1)),
    decreases x.len(),
{
    if x.len() == y.len() && x.len() > 0 {
        let n = x.len() - 1;
        lemma_members_eq(x.subrange(0, n), y.subrange(0, n));
        if forall|j: int| #![trigger x[j]] 0 <= j < x.len() ==> x[j].0 == y[j].0 && json_eq(x[j].1, y[j].1) {
            assert forall|j: int| #![trigger x.subrange(0, n)[j]] 0 <= j < n implies x.subrange(0, n)[j].0 == y.subrange(0, n)[j].0
                && json_eq(x.subrange(0, n)[j].1, y.subrange(0, n)[j].1) by {
                assert(x[j].0 == y[j].0 && json_eq(x[j].1, y[j].1));
            }
        }
        if members_eq(x, y) {
            assert forall|j: int| #![trigger x[j]] 0 <= j < x.len() implies x[j].0 == y[j].0 && json_eq(x[j].1, y[j].1) by {
                if j < n {
                    assert(x.subrange(0, n)[j].0 == y.subrange(0, n)[j].0 && json_eq(
                        x.subrange(0, n)[j].1,
                        y.subrange(0, n)[j].1,
                    ));
                }
            }
        }
    }
}

fn is_float_zero(t: &String) -> (r: bool)
    ensures
        r == float_zero(t@),
{
    let v = crate::text::chars_of(t.as_str());
    let r = (v.len() == 3 && v[0] == '0' && v[1] == '.' && v[2] == '0') || (v.len() == 4 && v[0] == '-'
        && v[1] == '0' && v[2] == '.' && v[3] == '0');
    proof {
        let z3 = seq!['0', '.', '0'];
        let z4 = seq!['-', '0', '.', '0'];
        if r {
            if v.len() == 3 {
                assert(v@ =~= z3);
            } else {
                assert(v@ =~= z4);
            }
        } else {
            assert(v@ != z3) by {
                if v@ == z3 {
                    assert(v@[0] == z3[0] && v@[1] == z3[1] && v@[2] == z3[2]);
                }
            }
            assert(v@ != z4) by {
                if v@ == z4 {
                    assert(v@[0] == z4[0] && v@[1] == z4[1] && v@[2] == z4[2] && v@[3] == z4[3]);
                }
            }
        }
    }
    r
}

impl Json {
    /// Whether two documents are equal as JSON values: numbers compare by
    /// value, so `0.0` and `-0.0` are equal.
    pub fn equal(&self, other: &Json) -> (r: bool)
        ensures
            r == json_eq(self@, other@),
        decreases self,
    {
        match (self, other) {
            (Json::Num(a), Json::Num(b)) => str_eq(a.as_str(), b.as_str()) || (is_float_zero(a)
                && is_float_zero(b)),
            (Json::Arr(a), Json::Arr(b)) => {
                proof {
                    lemma_items_view(a@);
                    lemma_items_view(b@);
                    lemma_items_eq(Json::items_view(a@), Json::items_view(b@));
                }
                if a.len() != b.len() {
                    return false;
                }
                let mut i: usize = 0;
                while i < a.len()
                    invariant
                        *self == Json::Arr(*a),
                        *other == Json::Arr(*b),
                        a@.len() == b@.len(),
                        Json::items_view(a@).len() == a@.len(),
                        Json::items_view(b@).len() == b@.len(),
                        forall|j: int| 0 <= j < a@.len() ==> #[trigger] Json::items_view(a@)[j] == a@[j]@,
                        forall|j: int| 0 <= j < b@.len() ==> #[trigger] Json::items_view(b@)[j] == b@[j]@,
                        i <= a@.len(),
                        forall|j: int| 0 <= j < i ==> json_eq(#[trigger] a@[j]@, b@[j]@),
                    decreases a.len() - i,
                {
                    proof {
                        assert(decreases_to!(*self => self->Arr_0));
                        assert(decreases_to!(*a => a@));
                        assert(decreases_to!(a@ => a@[i as int]));
                    }
                    if !a[i].equal(&b[i]) {
                        proof {
                            lemma_items_eq(Json::items_view(a@), Json::items_view(b@));
                            assert(!json_eq(Json::items_view(a@)[i as int], Json::items_view(b@)[i as int]));
                        }
                        return false;
                    }
                    i += 1;
                }
                assert forall|j: int| 0 <= j < a@.len() implies json_eq(
                    #[trigger] Json::items_view(a@)[j],
                    Json::items_view(b@)[j],
                ) by {
                    assert(json_eq(a@[j]@, b@[j]@));
                }
                true
            },
            (Json::Obj(a), Json::Obj(b)) => {
                proof {
                    lemma_members_view(a@);
                    lemma_members_view(b@);
                    lemma_members_eq(Json::members_view(a@), Json::members_view(b@));
                }
                if a.len() != b.len() {
                    return false;
                }
                let mut i: usize = 0;
                while i < a.len()
                    invariant
                        *self == Json::Obj(*a),
                        *other == Json::Obj(*b),
                        a@.len() == b@.len(),
                        Json::members_view(a@).len() == a@.len(),
                        Json::members_view(b@).len() == b@.len(),
                        forall|j: int|
                            0 <= j < a@.len() ==> #[trigger] Json::members_view(a@)[j] == (a@[j].0@, a@[j].1@),
                        forall|j: int|
                            0 <= j < b@.len() ==> #[trigger] Json::members_view(b@)[j] == (b@[j].0@, b@[j].1@),
                        i <= a@.len(),
                        forall|j: int|
                            0 <= j < i ==> a@[j].0@ == b@[j].0@ && json_eq(#[trigger] a@[j].1@, b@[j].1@),
                    decreases a.len() - i,
                {
                    proof {
                        assert(decreases_to!(*self => self->Obj_0));
                        assert(decreases_to!(*a => a@));
                        assert(decreases_to!(a@ => a@[i as int]));
                        assert(decreases_to!(a@[i as int] => a@[i as int].1));
                    }
                    if !str_eq(a[i].0.as_str(), b[i].0.as_str()) || !a[i].1.equal(&b[i].1) {
                        proof {
                            lemma_members_eq(Json::members_view(a@), Json::members_view(b@));
                            let ma = Json::members_view(a@)[i as int];
                            let mb = Json::members_view(b@)[i as int];
                            assert(!(ma.0 == mb.0 && json_eq(ma.1, mb.1)));
                        }
                        return false;
                    }
                    i += 1;
                }
                assert forall|j: int| #![trigger Json::members_view(a@)[j]] 0 <= j < a@.len() implies Json::members_view(a@)[j].0
                    == Json::members_view(b@)[j].0 && json_eq(
                    Json::members_view(a@)[j].1,
                    Json::members_view(b@)[j].1,
                ) by {
                    assert(a@[j].0@ == b@[j].0@ && json_eq(a@[j].1@, b@[j].1@));
                }
                true
            },
            _ => self.same(other),
        }
    }
}

/// A value, or null when there is none.
pub open spec fn or_null(v: Option<JsonV>) -> JsonV {
    match v {
        Some(x) => x,
        None => JsonV::Null,
    }
}

/// How a count reads as a JSON number: an integer, or its decimal text
/// where it is too large for one.
pub open spec fn count_v(n: nat) -> JsonV {
    if n <= i64::MAX {
        JsonV::Int(n as int)
    } else {
        JsonV::Num(crate::text::decimal(n))
    }
}

/// A count as a JSON number.
pub fn count_json(n: usize) -> (r: Json)
    ensures
        r@ == count_v(n as nat),
{
    if n as u64 <= i64::MAX as u64 {
        Json::Int(n as i64)
    } else {
        Json::Num(crate::text::decimal_string(n as u64))
    }
}

/// Add a member to an object under construction.
pub fn put(m: &mut Vec<(String, Json)>, k: &str, v: Json)
    ensures
        Json::members_view(final(m)@) == Json::members_view(old(m)@).push((k@, v@)),
{
    let ghost before = m@;
    m.push((String::from_str(k), v));
    assert(m@.subrange(0, m@.len() - 1) =~= before);
}

impl Json {
    /// The value under `k`, copied, or null when there is none.
    pub fn get_or_null(&self, k: &str) -> (r: Json)
        ensures
            r@ == or_null(jget(self@, k@)),
    {
        match self.get(k) {
            Some(x) => x.deep_clone(),
            None => Json::Null,
        }
    }
}

} // verus!
