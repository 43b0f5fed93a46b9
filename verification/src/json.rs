//! A JSON document as plain values, and the reads the library makes of one: a member of an
//! object, an element of an array, and a string, integer, boolean or list where one is
//! expected. A missing member, an index out of range or a value of another kind reads as
//! nothing, as indexing a `serde_json::Value` does.

use vstd::prelude::*;
use crate::text::{chars_of, same_chars};
use serde_json::Value;

verus! {

/// A JSON value.
pub enum Json {
    Null,
    Bool(bool),
    /// A number, by its value when it is an integer from 0 to `u64::MAX`.
    Num(Option<u64>),
    Str(String),
    Arr(Vec<Json>),
    /// The members of an object, in the order the parser hands them out.
    Obj(Vec<(String, Json)>),
}

/// The value of the first member named `k`.
pub open spec fn member(ps: Seq<(String, Json)>, k: Seq<char>) -> Option<Json>
    decreases ps.len(),
{
    if ps.len() == 0 {
        None
    } else if ps[0].0@ == k {
        Some(ps[0].1)
    } else {
        member(ps.drop_first(), k)
    }
}

/// The first member named `k` is the one at index `i` when no member before it has that name.
pub proof fn lemma_member_at(ps: Seq<(String, Json)>, k: Seq<char>, i: int)
    requires
        0 <= i < ps.len(),
        ps[i].0@ == k,
        forall|j: int| 0 <= j < i ==> (#[trigger] ps[j]).0@ != k,
    ensures
        member(ps, k) == Some(ps[i].1),
    decreases i,
{
    if i > 0 {
        assert(ps[0].0@ != k);
        let rest = ps.drop_first();
        assert forall|j: int| 0 <= j < i - 1 implies (#[trigger] rest[j]).0@ != k by {
            assert(rest[j] == ps[j + 1]);
        }
        lemma_member_at(rest, k, i - 1);
    }
}

/// No member named `k`, no value.
pub proof fn lemma_member_absent(ps: Seq<(String, Json)>, k: Seq<char>)
    requires
        forall|j: int| 0 <= j < ps.len() ==> (#[trigger] ps[j]).0@ != k,
    ensures
        member(ps, k) == None::<Json>,
    decreases ps.len(),
{
    if ps.len() > 0 {
        assert(ps[0].0@ != k);
        let rest = ps.drop_first();
        assert forall|j: int| 0 <= j < rest.len() implies (#[trigger] rest[j]).0@ != k by {
            assert(rest[j] == ps[j + 1]);
        }
        lemma_member_absent(rest, k);
    }
}

/// The member `k` of an object.
pub open spec fn field(j: Option<Json>, k: Seq<char>) -> Option<Json> {
    match j {
        Some(Json::Obj(ps)) => member(ps@, k),
        _ => None,
    }
}

/// Element `i` of an array.
pub open spec fn item(j: Option<Json>, i: int) -> Option<Json> {
    match j {
        Some(Json::Arr(a)) => if 0 <= i < a@.len() { Some(a@[i]) } else { None },
        _ => None,
    }
}

pub open spec fn str_of(j: Option<Json>) -> Option<Seq<char>> {
    match j {
        Some(Json::Str(s)) => Some(s@),
        _ => None,
    }
}

pub open spec fn u64_of(j: Option<Json>) -> Option<u64> {
    match j {
        Some(Json::Num(n)) => n,
        _ => None,
    }
}

pub open spec fn bool_of(j: Option<Json>) -> Option<bool> {
    match j {
        Some(Json::Bool(b)) => Some(b),
        _ => None,
    }
}

pub open spec fn arr_of(j: Option<Json>) -> Option<Seq<Json>> {
    match j {
        Some(Json::Arr(a)) => Some(a@),
        _ => None,
    }
}

/// A reference as the value it reads.
pub open spec fn val(r: Option<&Json>) -> Option<Json> {
    match r {
        Some(x) => Some(*x),
        None => None,
    }
}

/// The member `key` of an object.
pub fn get<'a>(j: Option<&'a Json>, key: &str) -> (r: Option<&'a Json>)
    ensures
        val(r) == field(val(j), key@),
{
    let ps = match j {
        Some(Json::Obj(ps)) => ps,
        _ => {
            return None;
        }
    };
    let k = chars_of(key);
    let mut i: usize = 0;
    assert(ps@.skip(0) =~= ps@);
    while i < ps.len()
        invariant
            i <= ps.len(),
            val(j) == Some(Json::Obj(*ps)),
            k@ == key@,
            member(ps@, key@) == member(ps@.skip(i as int), key@),
        decreases ps.len() - i,
    {
        assert(ps@.skip(i as int).drop_first() =~= ps@.skip(i as int + 1));
        let n = chars_of(ps[i].0.as_str());
        if same_chars(n.as_slice(), k.as_slice()) {
            return Some(&ps[i].1);
        }
        i = i + 1;
    }
    None
}

/// Element `i` of an array.
pub fn at<'a>(j: Option<&'a Json>, i: usize) -> (r: Option<&'a Json>)
    ensures
        val(r) == item(val(j), i as int),
{
    match j {
        Some(Json::Arr(a)) => if i < a.len() { Some(&a[i]) } else { None },
        _ => None,
    }
}

pub fn as_str<'a>(j: Option<&'a Json>) -> (r: Option<&'a str>)
    ensures
        match r {
            Some(s) => str_of(val(j)) == Some(s@),
            None => str_of(val(j)) is None,
        },
{
    match j {
        Some(Json::Str(s)) => Some(s.as_str()),
        _ => None,
    }
}

pub fn as_u64(j: Option<&Json>) -> (r: Option<u64>)
    ensures
        r == u64_of(val(j)),
{
    match j {
        Some(Json::Num(n)) => *n,
        _ => None,
    }
}

pub fn as_bool(j: Option<&Json>) -> (r: Option<bool>)
    ensures
        r == bool_of(val(j)),
{
    match j {
        Some(Json::Bool(b)) => Some(*b),
        _ => None,
    }
}

pub fn as_array<'a>(j: Option<&'a Json>) -> (r: Option<&'a Vec<Json>>)
    ensures
        match r {
            Some(a) => arr_of(val(j)) == Some(a@),
            None => arr_of(val(j)) is None,
        },
{
    match j {
        Some(Json::Arr(a)) => Some(a),
        _ => None,
    }
}

/// A text value.
pub fn text(s: &str) -> (j: Json)
    ensures
        j matches Json::Str(t) && t@ == s@,
{
    Json::Str(String::from_str(s))
}

/// A member named `k`.
pub fn member_of(k: &str, v: Json) -> (m: (String, Json))
    ensures
        m.0@ == k@,
        m.1 == v,
{
    (String::from_str(k), v)
}


// ---------- reading a text ----------

#[verifier::external_type_specification]
#[verifier::external_body]
pub struct ExValue(Value);

/// What `serde_json` reads from a text, as a value of this library (`None` when the text is
/// not JSON).
pub uninterp spec fn json_of(text: Seq<char>) -> Option<Json>;

/// `serde_json::from_str::<Value>` on `text`, its result converted to `Json` member for
/// member (a number becomes its value when it is an integer that fits in `u64`); a failure
/// comes back as serde_json's message, which is not stated.
#[verifier::external_body]
pub(crate) fn parse_json(text: &str) -> (r: Result<Json, String>)
    ensures
        match json_of(text@) {
            Some(j) => r == Ok::<Json, String>(j),
            None => r is Err,
        },
{
    match serde_json::from_str::<Value>(text) {
        Ok(v) => Ok(json_from_value(v)),
        Err(e) => Err(e.to_string()),
    }
}

/// The conversion `parse_json` makes: one arm per variant of `serde_json::Value`, moving its
/// contents into the matching `Json` variant.
#[verifier::external_body]
fn json_from_value(v: Value) -> Json {
    match v {
        Value::Null => Json::Null,
        Value::Bool(b) => Json::Bool(b),
        Value::Number(n) => Json::Num(n.as_u64()),
        Value::String(t) => Json::Str(t),
        Value::Array(a) => Json::Arr(a.into_iter().map(json_from_value).collect()),
        Value::Object(m) => Json::Obj(m.into_iter().map(|(k, x)| (k, json_from_value(x))).collect()),
    }
}

} // verus!
