//! JSON values, read by `serde_json` and looked into here.

use vstd::prelude::*;

use crate::number::Real;
use crate::text;

verus! {

/// A number: as an integer where it is one of 64 bits, and as a double.
#[derive(Clone, Copy, Debug, PartialEq, Eq, Structural)]
pub struct JsonNumber {
    pub int: Option<i64>,
    pub uint: Option<u64>,
    pub real: Real,
}

/// A JSON value.
#[derive(Debug)]
pub enum Json {
    Null,
    Bool(bool),
    Number(JsonNumber),
    Text(String),
    List(Vec<Json>),
    Object(Vec<(String, Json)>),
}

/// What a [`Json`] is.
#[verifier::ext_equal]
pub enum JsonModel {
    Null,
    Bool(bool),
    Number(JsonNumber),
    Text(Seq<char>),
    List(Seq<JsonModel>),
    Object(Seq<(Seq<char>, JsonModel)>),
}

/// What a value is, members and all.
pub open spec fn json_model(j: Json) -> JsonModel
    decreases j,
{
    match j {
        Json::Null => JsonModel::Null,
        Json::Bool(b) => JsonModel::Bool(b),
        Json::Number(n) => JsonModel::Number(n),
        Json::Text(s) => JsonModel::Text(s@),
        Json::List(v) => JsonModel::List(
            Seq::new(
                v@.len(),
                |i: int|
                    if 0 <= i < v@.len() {
                        json_model(v@[i])
                    } else {
                        arbitrary()
                    },
            ),
        ),
        Json::Object(v) => JsonModel::Object(
            Seq::new(
                v@.len(),
                |i: int|
                    if 0 <= i < v@.len() {
                        (v@[i].0@, json_model(v@[i].1))
                    } else {
                        arbitrary()
                    },
            ),
        ),
    }
}

impl View for Json {
    type V = JsonModel;

    open spec fn view(&self) -> JsonModel {
        json_model(*self)
    }
}

/// What a list of values is.
pub open spec fn list_model(v: Seq<Json>) -> Seq<JsonModel> {
    Seq::new(v.len(), |i: int| v[i]@)
}

/// What a list of members is.
pub open spec fn members_model(v: Seq<(String, Json)>) -> Seq<(Seq<char>, JsonModel)> {
    Seq::new(v.len(), |i: int| (v[i].0@, v[i].1@))
}

pub proof fn list_is(v: Vec<Json>)
    ensures
        Json::List(v)@ == JsonModel::List(list_model(v@)),
{
    if let JsonModel::List(s) = json_model(Json::List(v)) {
        assert(s =~= list_model(v@));
    }
}

pub proof fn object_is(v: Vec<(String, Json)>)
    ensures
        Json::Object(v)@ == JsonModel::Object(members_model(v@)),
{
    if let JsonModel::Object(s) = json_model(Json::Object(v)) {
        assert(s =~= members_model(v@));
    }
}

#[verifier::external_type_specification]
#[verifier::external_body]
pub struct ExValue(serde_json::Value);

/// What `serde_json` reads bytes as: a value, or the text of its error.
pub uninterp spec fn json_of(raw: Seq<u8>) -> Result<JsonModel, Seq<char>>;

/// What a reading is.
pub open spec fn reading(r: Result<Json, String>) -> Result<JsonModel, Seq<char>> {
    match r {
        Ok(j) => Ok(j@),
        Err(e) => Err(e@),
    }
}

/// `serde_json::from_slice`: what it makes of bytes depends on the bytes
/// alone. The value is converted member by member.
#[verifier::external_body]
fn read_json(raw: &Vec<u8>) -> (r: Result<Json, String>)
    ensures
        reading(r) == json_of(raw@),
{
    match serde_json::from_slice::<serde_json::Value>(raw) {
        Ok(value) => Ok(converted(value)),
        Err(e) => Err(e.to_string()),
    }
}

/// A `serde_json::Value` variant by variant. Nothing is claimed of it on
/// its own.
#[verifier::external_body]
fn converted(value: serde_json::Value) -> Json {
    match value {
        serde_json::Value::Null => Json::Null,
        serde_json::Value::Bool(b) => Json::Bool(b),
        serde_json::Value::Number(n) => {
            let value = Real { bits: n.as_f64().unwrap_or_default().to_bits() };
            Json::Number(JsonNumber { int: n.as_i64(), uint: n.as_u64(), real: value })
        },
        serde_json::Value::String(s) => Json::Text(s),
        serde_json::Value::Array(a) => Json::List(a.into_iter().map(converted).collect()),
        serde_json::Value::Object(m) => Json::Object(
            m.into_iter().map(|(k, v)| (k, converted(v))).collect(),
        ),
    }
}

/// Read bytes as JSON.
pub fn parse(raw: &Vec<u8>) -> (r: Result<Json, String>)
    ensures
        reading(r) == json_of(raw@),
{
    read_json(raw)
}

/// A copy of a value, members and all.
pub fn copy_json(j: &Json) -> (r: Json)
    ensures
        r@ == j@,
    decreases *j,
{
    match j {
        Json::Null => Json::Null,
        Json::Bool(b) => Json::Bool(*b),
        Json::Number(n) => Json::Number(*n),
        Json::Text(t) => Json::Text(String::from_str(t.as_str())),
        Json::List(v) => {
            let mut out: Vec<Json> = Vec::new();
            for i in 0..v.len()
                invariant
                    *j == Json::List(*v),
                    out@.len() == i,
                    forall|k: int| 0 <= k < i ==> (#[trigger] out@[k])@ == v@[k]@,
            {
                assert(decreases_to!(*j => j->List_0));
                assert(decreases_to!(*v => v@[i as int]));
                out.push(copy_json(&v[i]));
            }
            proof {
                list_is(out);
                list_is(*v);
                assert(list_model(out@) =~= list_model(v@));
            }
            Json::List(out)
        },
        Json::Object(v) => {
            let mut out: Vec<(String, Json)> = Vec::new();
            for i in 0..v.len()
                invariant
                    *j == Json::Object(*v),
                    out@.len() == i,
                    forall|k: int|
                        0 <= k < i ==> (#[trigger] out@[k]).0@ == v@[k].0@ && out@[k].1@
                            == v@[k].1@,
            {
                assert(decreases_to!(*j => j->Object_0));
                assert(decreases_to!(*v => v@[i as int]));
                assert(decreases_to!(v@[i as int] => v@[i as int].1));
                let name = String::from_str(v[i].0.as_str());
                out.push((name, copy_json(&v[i].1)));
            }
            proof {
                object_is(out);
                object_is(*v);
                assert(members_model(out@) =~= members_model(v@));
            }
            Json::Object(out)
        },
    }
}

/// A copy of members.
pub fn copy_members(v: &Vec<(String, Json)>) -> (r: Vec<(String, Json)>)
    ensures
        members_model(r@) == members_model(v@),
{
    let mut out: Vec<(String, Json)> = Vec::new();
    for i in 0..v.len()
        invariant
            out@.len() == i,
            forall|k: int|
                0 <= k < i ==> (#[trigger] out@[k]).0@ == v@[k].0@ && out@[k].1@ == v@[k].1@,
    {
        let name = String::from_str(v[i].0.as_str());
        out.push((name, copy_json(&v[i].1)));
    }
    assert(members_model(out@) =~= members_model(v@));
    out
}

// Texts of members. Whoever needs one hands in the writing.

/// The writing that is handed in makes bytes of members.
pub open spec fn writes<W: Fn(&Vec<(String, Json)>) -> Vec<u8>>(
    w: W,
    v: Vec<(String, Json)>,
    r: Vec<u8>,
) -> bool {
    w.ensures((&v,), r)
}

/// Members may come out as these bytes.
pub open spec fn comes_out<W: Fn(&Vec<(String, Json)>) -> Vec<u8>>(
    w: W,
    ms: Seq<(Seq<char>, JsonModel)>,
    t: Seq<u8>,
) -> bool {
    exists|v: Vec<(String, Json)>, r: Vec<u8>| #[trigger]
        writes(w, v, r) && members_model(v@) == ms && r@ == t
}

/// Any members can be written, and the same members always come out as the
/// same bytes.
pub open spec fn is_writing<W: Fn(&Vec<(String, Json)>) -> Vec<u8>>(w: W) -> bool {
    &&& forall|v: Vec<(String, Json)>| #[trigger] w.requires((&v,))
    &&& forall|ms: Seq<(Seq<char>, JsonModel)>, s: Seq<u8>, t: Seq<u8>| #[trigger]
        comes_out(w, ms, s) && #[trigger] comes_out(w, ms, t) ==> s == t
}

/// The bytes that a writing makes of members.
pub open spec fn written_by<W: Fn(&Vec<(String, Json)>) -> Vec<u8>>(
    w: W,
    ms: Seq<(Seq<char>, JsonModel)>,
) -> Seq<u8> {
    choose|t: Seq<u8>| comes_out(w, ms, t)
}

/// Write members.
pub fn write_members<W: Fn(&Vec<(String, Json)>) -> Vec<u8>>(
    w: &W,
    v: &Vec<(String, Json)>,
) -> (r: Vec<u8>)
    requires
        is_writing(*w),
    ensures
        r@ == written_by(*w, members_model(v@)),
{
    let r = w(v);
    assert(writes(*w, *v, r));
    assert(comes_out(*w, members_model(v@), r@));
    r
}

/// The first member of a name from a place on.
pub open spec fn member_from(
    ms: Seq<(Seq<char>, JsonModel)>,
    name: Seq<char>,
    from: int,
) -> Option<JsonModel>
    decreases ms.len() - from,
{
    if from >= ms.len() {
        None
    } else if ms[from].0 == name {
        Some(ms[from].1)
    } else {
        member_from(ms, name, from + 1)
    }
}

impl JsonModel {
    /// The member of a name, where this is an object that has one.
    pub open spec fn member(self, name: Seq<char>) -> Option<JsonModel> {
        match self {
            JsonModel::Object(ms) => member_from(ms, name, 0),
            _ => None,
        }
    }
}

/// The member of a member.
pub open spec fn member_of(j: Option<JsonModel>, name: Seq<char>) -> Option<JsonModel> {
    match j {
        Some(v) => v.member(name),
        None => None,
    }
}

pub open spec fn text_of(j: Option<JsonModel>) -> Option<Seq<char>> {
    match j {
        Some(JsonModel::Text(s)) => Some(s),
        _ => None,
    }
}

pub open spec fn list_of(j: Option<JsonModel>) -> Option<Seq<JsonModel>> {
    match j {
        Some(JsonModel::List(v)) => Some(v),
        _ => None,
    }
}

pub open spec fn real_of(j: Option<JsonModel>) -> Option<Real> {
    match j {
        Some(JsonModel::Number(n)) => Some(n.real),
        _ => None,
    }
}

pub open spec fn uint_of(j: Option<JsonModel>) -> Option<u64> {
    match j {
        Some(JsonModel::Number(n)) => n.uint,
        _ => None,
    }
}

/// What a borrowed value is, where there is one.
pub open spec fn seen(j: Option<&Json>) -> Option<JsonModel> {
    match j {
        Some(v) => Some(v@),
        None => None,
    }
}

/// The first of members that has a name.
pub fn find<'a>(v: &'a Vec<(String, Json)>, name: &str) -> (r: Option<&'a Json>)
    ensures
        seen(r) == member_from(members_model(v@), name@, 0),
{
    let ghost ms = members_model(v@);
    for i in 0..v.len()
        invariant
            ms == members_model(v@),
            member_from(ms, name@, 0) == member_from(ms, name@, i as int),
    {
        if text::same_text(v[i].0.as_str(), name) {
            return Some(&v[i].1);
        }
    }
    None
}

/// The member of a value, where there is a value that has one.
pub fn member<'a>(j: Option<&'a Json>, name: &str) -> (r: Option<&'a Json>)
    ensures
        seen(r) == member_of(seen(j), name@),
{
    match j {
        Some(Json::Object(v)) => {
            proof {
                object_is(*v);
            }
            find(v, name)
        },
        _ => None,
    }
}

/// The text of a value, where it is one.
pub fn as_text<'a>(j: Option<&'a Json>) -> (r: Option<&'a String>)
    ensures
        match text_of(seen(j)) {
            Some(s) => r matches Some(t) && t@ == s,
            None => r is None,
        },
{
    match j {
        Some(Json::Text(s)) => Some(s),
        _ => None,
    }
}

/// The list of a value, where it is one.
pub fn as_list<'a>(j: Option<&'a Json>) -> (r: Option<&'a Vec<Json>>)
    ensures
        match list_of(seen(j)) {
            Some(s) => r matches Some(v) && list_model(v@) == s,
            None => r is None,
        },
{
    match j {
        Some(Json::List(v)) => {
            proof {
                list_is(*v);
            }
            Some(v)
        },
        _ => None,
    }
}

/// The double of a value, where it is a number.
pub fn as_real(j: Option<&Json>) -> (r: Option<Real>)
    ensures
        r == real_of(seen(j)),
{
    match j {
        Some(Json::Number(n)) => Some(n.real),
        _ => None,
    }
}

/// The natural number of a value, where it is one of 64 bits.
pub fn as_uint(j: Option<&Json>) -> (r: Option<u64>)
    ensures
        r == uint_of(seen(j)),
{
    match j {
        Some(Json::Number(n)) => n.uint,
        _ => None,
    }
}

} // verus!
