//! JSON documents: as they are read, built and looked into.

use vstd::prelude::*;

use crate::text;

verus! {

broadcast use vstd::seq_lib::group_seq_properties;

#[derive(Debug)]
pub enum Json {
    Null,
    Bool(bool),
    /// A number that fits in 64 bits with a sign.
    Int(i64),
    /// Any other number, as it is written.
    Number(String),
    Str(String),
    Array(Vec<Json>),
    Object(Vec<Member>),
}

/// A name and its value in an object.
#[derive(Debug)]
pub struct Member {
    pub name: String,
    pub value: Json,
}

/// A document over characters.
pub enum Doc {
    Null,
    Bool(bool),
    Int(i64),
    Number(Seq<char>),
    Str(Seq<char>),
    Array(Seq<Doc>),
    Object(Seq<(Seq<char>, Doc)>),
}

impl DeepView for Json {
    type V = Doc;

    open spec fn deep_view(&self) -> Doc
        decreases self,
    {
        match self {
            Json::Null => Doc::Null,
            Json::Bool(b) => Doc::Bool(*b),
            Json::Int(n) => Doc::Int(*n),
            Json::Number(s) => Doc::Number(s@),
            Json::Str(s) => Doc::Str(s@),
            Json::Array(v) => Doc::Array(
                Seq::new(
                    v@.len(),
                    |i: int|
                        if 0 <= i < v@.len() {
                            v@[i].deep_view()
                        } else {
                            Doc::Null
                        },
                ),
            ),
            Json::Object(v) => Doc::Object(
                Seq::new(
                    v@.len(),
                    |i: int|
                        if 0 <= i < v@.len() {
                            (v@[i].name@, v@[i].value.deep_view())
                        } else {
                            (seq![], Doc::Null)
                        },
                ),
            ),
        }
    }
}

/// The values of an array.
pub open spec fn docs(v: Seq<Json>) -> Seq<Doc> {
    Seq::new(v.len(), |i: int| v[i].deep_view())
}

/// The names and values of an object.
pub open spec fn members(v: Seq<Member>) -> Seq<(Seq<char>, Doc)> {
    Seq::new(v.len(), |i: int| (v[i].name@, v[i].value.deep_view()))
}

pub proof fn lemma_array(v: Vec<Json>)
    ensures
        Json::Array(v).deep_view() == Doc::Array(docs(v@)),
{
    reveal_with_fuel(<Json as DeepView>::deep_view, 2);
    let j = Json::Array(v);
    let a = j.deep_view()->Array_0;
    assert forall|i: int| 0 <= i < v@.len() implies #[trigger] a[i] == v@[i].deep_view() by {}
    assert(a =~= docs(v@));
}

pub proof fn lemma_object(v: Vec<Member>)
    ensures
        Json::Object(v).deep_view() == Doc::Object(members(v@)),
{
    reveal_with_fuel(<Json as DeepView>::deep_view, 2);
    let j = Json::Object(v);
    let a = j.deep_view()->Object_0;
    assert forall|i: int| 0 <= i < v@.len() implies #[trigger] a[i] == (
        v@[i].name@,
        v@[i].value.deep_view(),
    ) by {}
    assert(a =~= members(v@));
}

// ------------------------------------------------------------------ looking in

/// The value of a name in a list of members; the first one counts.
pub open spec fn member_of(v: Seq<(Seq<char>, Doc)>, name: Seq<char>) -> Doc
    decreases v.len(),
{
    if v.len() == 0 {
        Doc::Null
    } else if v[0].0 == name {
        v[0].1
    } else {
        member_of(v.drop_first(), name)
    }
}

impl Doc {
    /// The value of a name; null where there is no such name, and in anything
    /// that is no object.
    pub open spec fn field(self, name: Seq<char>) -> Doc {
        match self {
            Doc::Object(v) => member_of(v, name),
            _ => Doc::Null,
        }
    }

    pub open spec fn string(self) -> Option<Seq<char>> {
        match self {
            Doc::Str(s) => Some(s),
            _ => None,
        }
    }

    pub open spec fn integer(self) -> Option<i64> {
        match self {
            Doc::Int(n) => Some(n),
            _ => None,
        }
    }

    pub open spec fn array(self) -> Option<Seq<Doc>> {
        match self {
            Doc::Array(v) => Some(v),
            _ => None,
        }
    }
}

impl Json {
    /// The value of a name, where there is one.
    pub fn get(&self, name: &str) -> (r: Option<&Json>)
        ensures
            match r {
                Some(j) => j.deep_view() == self.deep_view().field(name@),
                None => self.deep_view().field(name@) == Doc::Null,
            },
    {
        match self {
            Json::Object(v) => {
                proof {
                    lemma_object(*v);
                }
                let ghost all = members(v@);
                let mut i: usize = 0;
                proof {
                    assert(all.skip(0) =~= all);
                }
                while i < v.len()
                    invariant
                        i <= v.len(),
                        all == members(v@),
                        self.deep_view() == Doc::Object(all),
                        member_of(all, name@) == member_of(all.skip(i as int), name@),
                    decreases v.len() - i,
                {
                    proof {
                        assert(all.skip(i as int)[0] == (v@[i as int].name@, v@[i as int].value.deep_view()));
                        assert(all.skip(i as int).drop_first() =~= all.skip(i + 1));
                    }
                    if text::same(v[i].name.as_str(), name) {
                        return Some(&v[i].value);
                    }
                    i = i + 1;
                }
                None
            },
            _ => None,
        }
    }

    /// The text of a string.
    pub fn as_str(&self) -> (r: Option<&str>)
        ensures
            match r {
                Some(s) => self.deep_view().string() == Some(s@),
                None => self.deep_view().string() is None,
            },
    {
        match self {
            Json::Str(s) => Some(s.as_str()),
            _ => None,
        }
    }

    pub fn as_i64(&self) -> (r: Option<i64>)
        ensures
            r == self.deep_view().integer(),
    {
        match self {
            Json::Int(n) => Some(*n),
            _ => None,
        }
    }

    pub fn as_array(&self) -> (r: Option<&Vec<Json>>)
        ensures
            match r {
                Some(v) => self.deep_view().array() == Some(docs(v@)),
                None => self.deep_view().array() is None,
            },
    {
        match self {
            Json::Array(v) => {
                proof {
                    lemma_array(*v);
                }
                Some(v)
            },
            _ => None,
        }
    }

    /// The text under a name, where there is a string under it.
    pub fn str_at(&self, name: &str) -> (r: Option<&str>)
        ensures
            match r {
                Some(s) => self.deep_view().field(name@).string() == Some(s@),
                None => self.deep_view().field(name@).string() is None,
            },
    {
        match self.get(name) {
            Some(j) => j.as_str(),
            None => None,
        }
    }

    /// A copy.
    pub fn copy(&self) -> (r: Json)
        ensures
            r.deep_view() == self.deep_view(),
        decreases self,
    {
        match self {
            Json::Null => Json::Null,
            Json::Bool(b) => Json::Bool(*b),
            Json::Int(n) => Json::Int(*n),
            Json::Number(s) => Json::Number(s.clone()),
            Json::Str(s) => Json::Str(s.clone()),
            Json::Array(v) => {
                let mut out: Vec<Json> = Vec::new();
                let mut i: usize = 0;
                while i < v.len()
                    invariant
                        i <= v.len(),
                        out.len() == i,
                        *self == Json::Array(*v),
                        forall|j: int| 0 <= j < i ==> #[trigger] docs(out@)[j] == docs(v@)[j],
                    decreases v.len() - i,
                {
                    let ghost before = out@;
                    proof {
                        assert(decreases_to!(self => self->Array_0));
                        assert(decreases_to!(self->Array_0 => self->Array_0@));
                        assert(decreases_to!(self->Array_0@ => self->Array_0@[i as int]));
                    }
                    out.push(v[i].copy());
                    proof {
                        assert forall|j: int| 0 <= j < i + 1 implies #[trigger] docs(out@)[j]
                            == docs(v@)[j] by {
                            if j < i {
                                assert(docs(before)[j] == docs(v@)[j]);
                            }
                        }
                    }
                    i = i + 1;
                }
                proof {
                    assert(docs(out@) =~= docs(v@));
                    lemma_array(out);
                    lemma_array(*v);
                }
                Json::Array(out)
            },
            Json::Object(v) => {
                let mut out: Vec<Member> = Vec::new();
                let mut i: usize = 0;
                while i < v.len()
                    invariant
                        i <= v.len(),
                        out.len() == i,
                        *self == Json::Object(*v),
                        forall|j: int| 0 <= j < i ==> #[trigger] members(out@)[j] == members(v@)[j],
                    decreases v.len() - i,
                {
                    let ghost before = out@;
                    proof {
                        assert(decreases_to!(self => self->Object_0));
                        assert(decreases_to!(self->Object_0 => self->Object_0@));
                        assert(decreases_to!(self->Object_0@ => self->Object_0@[i as int]));
                        assert(decreases_to!(
                            self->Object_0@[i as int] => self->Object_0@[i as int].value));
                    }
                    out.push(Member { name: v[i].name.clone(), value: v[i].value.copy() });
                    proof {
                        assert forall|j: int| 0 <= j < i + 1 implies #[trigger] members(out@)[j]
                            == members(v@)[j] by {
                            if j < i {
                                assert(members(before)[j] == members(v@)[j]);
                            }
                        }
                    }
                    i = i + 1;
                }
                proof {
                    assert(members(out@) =~= members(v@));
                    lemma_object(out);
                    lemma_object(*v);
                }
                Json::Object(out)
            },
        }
    }
}

// -------------------------------------------------------------------- building

pub fn string(s: &str) -> (r: Json)
    ensures
        r.deep_view() == Doc::Str(s@),
{
    Json::Str(text::owned(s))
}

pub fn member(name: &str, value: Json) -> (m: Member)
    ensures
        m.name@ == name@,
        m.value == value,
{
    Member { name: text::owned(name), value }
}

pub fn object1(a: &str, x: Json) -> (r: Json)
    ensures
        r.deep_view() == Doc::Object(seq![(a@, x.deep_view())]),
{
    let ghost goal = seq![(a@, x.deep_view())];
    let mut v: Vec<Member> = Vec::new();
    v.push(member(a, x));
    proof {
        assert(members(v@) =~= goal);
        lemma_object(v);
    }
    Json::Object(v)
}

pub fn object2(a: &str, x: Json, b: &str, y: Json) -> (r: Json)
    ensures
        r.deep_view() == Doc::Object(seq![(a@, x.deep_view()), (b@, y.deep_view())]),
{
    let ghost goal = seq![(a@, x.deep_view()), (b@, y.deep_view())];
    let mut v: Vec<Member> = Vec::new();
    v.push(member(a, x));
    v.push(member(b, y));
    proof {
        assert(members(v@) =~= goal);
        lemma_object(v);
    }
    Json::Object(v)
}

pub fn object(v: Vec<Member>) -> (r: Json)
    ensures
        r.deep_view() == Doc::Object(members(v@)),
{
    proof {
        lemma_object(v);
    }
    Json::Object(v)
}

/// An object with one more member at its end.
pub open spec fn extended(d: Doc, name: Seq<char>, value: Doc) -> Doc {
    match d {
        Doc::Object(v) => Doc::Object(v.push((name, value))),
        _ => d,
    }
}

/// Adds a member at the end of an object; anything else stays as it is.
pub fn extend(j: Json, name: &str, value: Json) -> (r: Json)
    ensures
        r.deep_view() == extended(j.deep_view(), name@, value.deep_view()),
{
    match j {
        Json::Object(v) => {
            let ghost before = members(v@);
            let ghost x = value.deep_view();
            proof {
                lemma_object(v);
            }
            let mut w = v;
            w.push(member(name, value));
            proof {
                assert(members(w@) =~= before.push((name@, x)));
                lemma_object(w);
            }
            Json::Object(w)
        },
        other => other,
    }
}

pub fn array1(x: Json) -> (r: Json)
    ensures
        r.deep_view() == Doc::Array(seq![x.deep_view()]),
{
    let ghost goal = seq![x.deep_view()];
    let mut v: Vec<Json> = Vec::new();
    v.push(x);
    proof {
        assert(docs(v@) =~= goal);
        lemma_array(v);
    }
    Json::Array(v)
}

pub fn array(v: Vec<Json>) -> (r: Json)
    ensures
        r.deep_view() == Doc::Array(docs(v@)),
{
    proof {
        lemma_array(v);
    }
    Json::Array(v)
}

// --------------------------------------------------------------------- reading

#[verifier::external_type_specification]
#[verifier::external_body]
pub struct ExValue(serde_json::Value);

/// What a parsed document holds.
pub uninterp spec fn held(value: serde_json::Value) -> Doc;

/// The document a text spells; `None` where it spells none.
pub uninterp spec fn document(s: Seq<char>) -> Option<Doc>;

/// The string a JSON string literal spells, its quotes included.
pub uninterp spec fn literal(s: Seq<char>) -> Option<Seq<char>>;

/// One level of a parsed document.
pub enum Level {
    Null,
    Bool(bool),
    /// Its value, where that is a whole number of 64 bits, and how it is
    /// written.
    Number(Option<i64>, String),
    Str(String),
    Array(Vec<serde_json::Value>),
    Object(Vec<(String, serde_json::Value)>),
}

/// `serde_json::from_str` into a `serde_json::Value`.
#[verifier::external_body]
fn parse_value(s: &str) -> (r: Option<serde_json::Value>)
    ensures
        match r {
            Some(v) => document(s@) == Some(held(v)),
            None => document(s@) is None,
        },
{
    serde_json::from_str(s).ok()
}

/// The variants of `serde_json::Value`, told apart: what a value holds is what
/// its parts hold. Of a number, `Number::as_i64` and what `to_string` writes.
#[verifier::external_body]
fn split(value: serde_json::Value) -> (level: Level)
    ensures
        match level {
            Level::Null => held(value) == Doc::Null,
            Level::Bool(b) => held(value) == Doc::Bool(b),
            Level::Number(Some(n), _) => held(value) == Doc::Int(n),
            Level::Number(None, s) => held(value) == Doc::Number(s@),
            Level::Str(s) => held(value) == Doc::Str(s@),
            Level::Array(v) => held(value) == Doc::Array(
                Seq::new(v@.len(), |i: int| held(v@[i])),
            ),
            Level::Object(v) => held(value) == Doc::Object(
                Seq::new(v@.len(), |i: int| (v@[i].0@, held(v@[i].1))),
            ),
        },
{
    match value {
        serde_json::Value::Null => Level::Null,
        serde_json::Value::Bool(b) => Level::Bool(b),
        serde_json::Value::Number(n) => Level::Number(n.as_i64(), n.to_string()),
        serde_json::Value::String(s) => Level::Str(s),
        serde_json::Value::Array(v) => Level::Array(v),
        serde_json::Value::Object(m) => Level::Object(m.into_iter().collect()),
    }
}

/// `serde_json::from_str` into a `String`.
#[verifier::external_body]
fn parse_string(s: &str) -> (r: Option<String>)
    ensures
        text::opt_view(r) == literal(s@),
{
    serde_json::from_str(s).ok()
}

/// Takes a parsed document over.
pub fn from_value(value: serde_json::Value) -> (r: Json)
    ensures
        r.deep_view() == held(value),
    decreases held(value),
{
    match split(value) {
        Level::Null => Json::Null,
        Level::Bool(b) => Json::Bool(b),
        Level::Number(Some(n), _) => Json::Int(n),
        Level::Number(None, s) => Json::Number(s),
        Level::Str(s) => Json::Str(s),
        Level::Array(v) => {
            let ghost goal = Seq::new(v@.len(), |i: int| held(v@[i]));
            let mut rest = v;
            let mut out: Vec<Json> = Vec::new();
            proof {
                assert(docs(out@) =~= goal.skip(rest@.len() as int));
            }
            while rest.len() > 0
                invariant
                    rest.len() <= goal.len(),
                    held(value) == Doc::Array(goal),
                    forall|i: int| 0 <= i < rest.len() ==> held(#[trigger] rest@[i]) == goal[i],
                    out.len() == goal.len() - rest.len(),
                    forall|i: int|
                        0 <= i < out.len() ==> #[trigger] docs(out@)[i] == goal[goal.len() - 1 - i],
                decreases rest.len(),
            {
                let ghost n = rest@.len();
                let ghost before = out@;
                if let Some(x) = rest.pop() {
                    proof {
                        assert(held(x) == goal[n - 1]);
                        let d = held(value);
                        assert(decreases_to!(d => d->Array_0));
                        assert(decreases_to!(d->Array_0 => d->Array_0[n - 1]));
                    }
                    out.push(from_value(x));
                    proof {
                        assert forall|i: int| 0 <= i < out.len() implies #[trigger] docs(out@)[i]
                            == goal[goal.len() - 1 - i] by {
                            if i < before.len() {
                                assert(docs(before)[i] == goal[goal.len() - 1 - i]);
                            }
                        }
                    }
                }
            }
            let r = flip(out);
            proof {
                assert forall|i: int| 0 <= i < goal.len() implies #[trigger] docs(r@)[i]
                    == goal[i] by {
                    assert(docs(out@)[goal.len() - 1 - i] == goal[i]);
                }
                assert(docs(r@) =~= goal);
            }
            array(r)
        },
        Level::Object(v) => {
            let ghost goal = Seq::new(v@.len(), |i: int| (v@[i].0@, held(v@[i].1)));
            let mut rest = v;
            let mut out: Vec<Member> = Vec::new();
            while rest.len() > 0
                invariant
                    rest.len() <= goal.len(),
                    held(value) == Doc::Object(goal),
                    forall|i: int|
                        0 <= i < rest.len() ==> (
                        (#[trigger] rest@[i]).0@,
                        held(rest@[i].1),
                        ) == goal[i],
                    out.len() == goal.len() - rest.len(),
                    forall|i: int|
                        0 <= i < out.len() ==> #[trigger] members(out@)[i] == goal[goal.len() - 1
                            - i],
                decreases rest.len(),
            {
                let ghost n = rest@.len();
                let ghost before = out@;
                if let Some((name, x)) = rest.pop() {
                    proof {
                        assert((name@, held(x)) == goal[n - 1]);
                        let d = held(value);
                        assert(decreases_to!(d => d->Object_0));
                        assert(decreases_to!(d->Object_0 => d->Object_0[n - 1]));
                        assert(decreases_to!(d->Object_0[n - 1] => d->Object_0[n - 1].1));
                    }
                    out.push(Member { name, value: from_value(x) });
                    proof {
                        assert forall|i: int| 0 <= i < out.len() implies #[trigger] members(
                            out@,
                        )[i] == goal[goal.len() - 1 - i] by {
                            if i < before.len() {
                                assert(members(before)[i] == goal[goal.len() - 1 - i]);
                            }
                        }
                    }
                }
            }
            let r = flip(out);
            proof {
                assert forall|i: int| 0 <= i < goal.len() implies #[trigger] members(r@)[i]
                    == goal[i] by {
                    assert(members(out@)[goal.len() - 1 - i] == goal[i]);
                }
                assert(members(r@) =~= goal);
                lemma_object(r);
            }
            Json::Object(r)
        },
    }
}

/// The same items from the last to the first.
fn flip<T>(v: Vec<T>) -> (r: Vec<T>)
    ensures
        r@ == v@.reverse(),
{
    let ghost all = v@;
    let mut rest = v;
    let mut out: Vec<T> = Vec::new();
    while rest.len() > 0
        invariant
            rest.len() <= all.len(),
            out.len() == all.len() - rest.len(),
            forall|i: int| 0 <= i < rest.len() ==> #[trigger] rest@[i] == all[i],
            forall|i: int| 0 <= i < out.len() ==> #[trigger] out@[i] == all[all.len() - 1 - i],
        decreases rest.len(),
    {
        if let Some(x) = rest.pop() {
            out.push(x);
        }
    }
    proof {
        assert(out@ =~= all.reverse());
    }
    out
}

/// Reads a document.
pub fn parse(s: &str) -> (r: Option<Json>)
    ensures
        match r {
            Some(j) => document(s@) == Some(j.deep_view()),
            None => document(s@) is None,
        },
{
    match parse_value(s) {
        Some(v) => Some(from_value(v)),
        None => None,
    }
}

/// Reads a string literal, its quotes included.
pub fn unquote(s: &str) -> (r: Option<String>)
    ensures
        text::opt_view(r) == literal(s@),
{
    parse_string(s)
}

} // verus!
