//! A JSON document as plain values, and the lookups that the dashboard makes in it.
use vstd::prelude::*;
use serde_json::Value;

verus! {

/// A JSON number, by the two integer readings that the dashboard makes of it.
#[derive(Debug)]
pub struct JsonNumber {
    /// The number as a `u64`, where it is a non-negative integer that fits.
    pub as_u64: Option<u64>,
    /// The number as an `i64`, where it is an integer that fits.
    pub as_i64: Option<i64>,
}

impl JsonNumber {
    /// Whether the two readings agree, as they do for a number of a parsed
    /// document: a `u64` reading has the same `i64` reading exactly where it fits
    /// an `i64`, and a non-negative `i64` reading has the same `u64` reading.
    pub open spec fn wf(self) -> bool {
        &&& (self.as_u64 matches Some(a) ==> (a <= i64::MAX <==> self.as_i64 == Some(a as i64)))
        &&& (self.as_i64 matches Some(b) ==> (b >= 0 ==> self.as_u64 == Some(b as u64)))
    }
}

/// A JSON value. Object members keep the order in which the document's map yields them.
#[derive(Debug)]
pub enum JsonValue {
    Null,
    Bool(bool),
    Number(JsonNumber),
    Str(String),
    Array(Vec<JsonValue>),
    Object(Vec<(String, JsonValue)>),
}

/// The value of the first member of `m` named `key`.
pub open spec fn member_lookup(m: Seq<(String, JsonValue)>, key: Seq<char>) -> Option<JsonValue>
    decreases m.len(),
{
    if m.len() == 0 {
        None
    } else if m[0].0@ == key {
        Some(m[0].1)
    } else {
        member_lookup(m.drop_first(), key)
    }
}

/// Whether every number in `v`, at any depth, has readings that agree.
pub open spec fn json_wf(v: JsonValue) -> bool
    decreases v,
{
    match v {
        JsonValue::Number(n) => n.wf(),
        JsonValue::Array(a) => items_wf(a@),
        JsonValue::Object(m) => members_wf(m@),
        _ => true,
    }
}

/// Whether every number in the values `s`, at any depth, has readings that agree.
pub open spec fn items_wf(s: Seq<JsonValue>) -> bool
    decreases s,
{
    if s.len() == 0 {
        true
    } else {
        json_wf(s.last()) && items_wf(s.drop_last())
    }
}

/// Whether every number in the member values of `m`, at any depth, has readings
/// that agree.
pub open spec fn members_wf(m: Seq<(String, JsonValue)>) -> bool
    decreases m,
{
    if m.len() == 0 {
        true
    } else {
        json_wf(m.last().1) && members_wf(m.drop_last())
    }
}

/// The member `key` of `v`, where `v` is an object that has it.
pub open spec fn json_get(v: JsonValue, key: Seq<char>) -> Option<JsonValue> {
    match v {
        JsonValue::Object(m) => member_lookup(m@, key),
        _ => None,
    }
}

/// The member `key` of `v`, where `v` is present and an object that has it.
pub open spec fn json_get_opt(v: Option<JsonValue>, key: Seq<char>) -> Option<JsonValue> {
    match v {
        Some(x) => json_get(x, key),
        None => None,
    }
}

/// The text of `v`, where `v` is a string.
pub open spec fn json_str(v: Option<JsonValue>) -> Option<Seq<char>> {
    match v {
        Some(JsonValue::Str(s)) => Some(s@),
        _ => None,
    }
}

/// `v` as a `u64`, where it is a number that is one.
pub open spec fn json_u64(v: Option<JsonValue>) -> Option<u64> {
    match v {
        Some(JsonValue::Number(n)) => n.as_u64,
        _ => None,
    }
}

/// `v` as an `i64`, where it is a number that is one.
pub open spec fn json_i64(v: Option<JsonValue>) -> Option<i64> {
    match v {
        Some(JsonValue::Number(n)) => n.as_i64,
        _ => None,
    }
}

/// The elements of `v`, where it is an array.
pub open spec fn json_array(v: Option<JsonValue>) -> Option<Seq<JsonValue>> {
    match v {
        Some(JsonValue::Array(a)) => Some(a@),
        _ => None,
    }
}

/// The first element of `v`, where it is a non-empty array.
pub open spec fn json_first(v: Option<JsonValue>) -> Option<JsonValue> {
    match v {
        Some(JsonValue::Array(a)) => if a@.len() > 0 {
            Some(a@[0])
        } else {
            None
        },
        _ => None,
    }
}

/// A member that `member_lookup` finds is one of the members.
pub proof fn lemma_member_lookup_in(m: Seq<(String, JsonValue)>, key: Seq<char>)
    ensures
        member_lookup(m, key) matches Some(x) ==> exists|i: int| 0 <= i < m.len() && m[i].1 == x,
    decreases m.len(),
{
    if m.len() > 0 && m[0].0@ != key {
        lemma_member_lookup_in(m.drop_first(), key);
        if member_lookup(m, key) is Some {
            let x = member_lookup(m, key)->0;
            let i = choose|i: int| 0 <= i < m.drop_first().len() && m.drop_first()[i].1 == x;
            assert(m[i + 1].1 == x);
        }
    }
}

/// A member of `v` lies strictly inside `v`.
pub proof fn lemma_get_decreases(v: JsonValue, key: Seq<char>)
    ensures
        json_get(v, key) matches Some(x) ==> decreases_to!(v => x),
{
    if let JsonValue::Object(m) = v {
        lemma_member_lookup_in(m@, key);
        if member_lookup(m@, key) is Some {
            let x = member_lookup(m@, key)->0;
            let i = choose|i: int| 0 <= i < m@.len() && m@[i].1 == x;
            assert(decreases_to!(v => m));
            assert(decreases_to!(m => m@));
            assert(decreases_to!(m@ => m@[i]));
            assert(decreases_to!(m@[i] => m@[i].1));
        }
    }
}

/// The elements of an array member of `v` lie strictly inside `v`.
pub proof fn lemma_get_array_decreases(v: JsonValue, key: Seq<char>)
    ensures
        json_array(json_get(v, key)) matches Some(s) ==> decreases_to!(v => s),
{
    lemma_get_decreases(v, key);
    if let Some(JsonValue::Array(a)) = json_get(v, key) {
        assert(decreases_to!(JsonValue::Array(a) => a));
        assert(decreases_to!(a => a@));
    }
}

impl JsonValue {
    /// The member `key`, where `self` is an object that has it.
    pub fn get(&self, key: &str) -> (r: Option<&JsonValue>)
        ensures
            match r {
                Some(x) => json_get(*self, key@) == Some(*x),
                None => json_get(*self, key@) is None,
            },
    {
        match self {
            JsonValue::Object(m) => {
                let k = key.to_owned();
                let mut i: usize = 0;
                assert(m@.skip(0) =~= m@);
                while i < m.len()
                    invariant
                        i <= m.len(),
                        k@ == key@,
                        json_get(*self, key@) == member_lookup(m@.skip(i as int), key@),
                    decreases m.len() - i,
                {
                    let ghost rest = m@.skip(i as int);
                    assert(rest[0] == m@[i as int]);
                    if m[i].0 == k {
                        assert(rest[0].0@ == key@);
                        return Some(&m[i].1);
                    }
                    assert(rest.drop_first() =~= m@.skip(i + 1));
                    i += 1;
                }
                None
            },
            _ => None,
        }
    }

    /// The text, where `self` is a string.
    pub fn as_str(&self) -> (r: Option<&String>)
        ensures
            match r {
                Some(s) => json_str(Some(*self)) == Some(s@),
                None => json_str(Some(*self)) is None,
            },
    {
        match self {
            JsonValue::Str(s) => Some(s),
            _ => None,
        }
    }

    /// The value as a `u64`, where it is a number that is one.
    pub fn as_u64(&self) -> (r: Option<u64>)
        ensures
            r == json_u64(Some(*self)),
    {
        match self {
            JsonValue::Number(n) => n.as_u64,
            _ => None,
        }
    }

    /// The value as an `i64`, where it is a number that is one.
    pub fn as_i64(&self) -> (r: Option<i64>)
        ensures
            r == json_i64(Some(*self)),
    {
        match self {
            JsonValue::Number(n) => n.as_i64,
            _ => None,
        }
    }

    /// The elements, where `self` is an array.
    pub fn as_array(&self) -> (r: Option<&Vec<JsonValue>>)
        ensures
            match r {
                Some(a) => json_array(Some(*self)) == Some(a@),
                None => json_array(Some(*self)) is None,
            },
    {
        match self {
            JsonValue::Array(a) => Some(a),
            _ => None,
        }
    }
}

#[verifier::external_type_specification]
#[verifier::external_body]
pub struct ExSerdeValue(serde_json::Value);

/// One level of a value of serde_json: its kind and contents, with the values
/// inside an array or an object left as they are.
pub enum JsonParts {
    Null,
    Bool(bool),
    /// A number, by its `u64` and `i64` readings.
    Number(Option<u64>, Option<i64>),
    Str(String),
    Array(Vec<Value>),
    /// The members of an object, in the order in which its map yields them.
    Object(Vec<(String, Value)>),
}

/// Takes apart one level of `v`: `Number::as_u64` and `Number::as_i64` read a
/// number, and an object's map (`serde_json::Map`) yields its members in its own
/// order. What is stated is that the two readings of a number agree (by
/// `Number`'s source, whose negative variant only ever holds negative values);
/// the contents are not stated, as `v` is opaque here.
#[verifier::external_body]
fn value_parts(v: Value) -> (r: JsonParts)
    ensures
        r matches JsonParts::Number(u, i) ==> (JsonNumber { as_u64: u, as_i64: i }).wf(),
{
    match v {
        Value::Null => JsonParts::Null,
        Value::Bool(b) => JsonParts::Bool(b),
        Value::Number(n) => JsonParts::Number(n.as_u64(), n.as_i64()),
        Value::String(s) => JsonParts::Str(s),
        Value::Array(a) => JsonParts::Array(a),
        Value::Object(m) => JsonParts::Object(m.into_iter().collect()),
    }
}

/// The value of serde_json `v` as a [`JsonValue`], where it is no more than
/// `depth` levels deep (a scalar is one level); deeper values give none.
fn json_value_of(v: Value, depth: u32) -> (r: Option<JsonValue>)
    ensures
        r matches Some(j) ==> json_wf(j),
    decreases depth,
{
    if depth == 0 {
        return None;
    }
    match value_parts(v) {
        JsonParts::Null => Some(JsonValue::Null),
        JsonParts::Bool(b) => Some(JsonValue::Bool(b)),
        JsonParts::Number(u, i) => {
            let r = JsonValue::Number(JsonNumber { as_u64: u, as_i64: i });
            assert(json_wf(r));
            Some(r)
        },
        JsonParts::Str(s) => Some(JsonValue::Str(s)),
        JsonParts::Array(items) => {
            let mut items = items;
            let mut rev: Vec<JsonValue> = Vec::new();
            while items.len() > 0
                invariant
                    depth > 0,
                    items_wf(rev@),
                decreases items.len(),
            {
                let item = items.pop().unwrap();
                match json_value_of(item, depth - 1) {
                    Some(j) => {
                        let ghost before = rev@;
                        rev.push(j);
                        assert(rev@.drop_last() =~= before);
                    },
                    None => return None,
                }
            }
            let mut out: Vec<JsonValue> = Vec::new();
            while rev.len() > 0
                invariant
                    items_wf(rev@),
                    items_wf(out@),
                decreases rev.len(),
            {
                let ghost before = out@;
                let j = rev.pop().unwrap();
                out.push(j);
                assert(out@.drop_last() =~= before);
            }
            let r = JsonValue::Array(out);
            Some(r)
        },
        JsonParts::Object(members) => {
            let mut members = members;
            let mut rev: Vec<(String, JsonValue)> = Vec::new();
            while members.len() > 0
                invariant
                    depth > 0,
                    members_wf(rev@),
                decreases members.len(),
            {
                let (key, item) = members.pop().unwrap();
                match json_value_of(item, depth - 1) {
                    Some(j) => {
                        let ghost before = rev@;
                        rev.push((key, j));
                        assert(rev@.drop_last() =~= before);
                    },
                    None => return None,
                }
            }
            let mut out: Vec<(String, JsonValue)> = Vec::new();
            while rev.len() > 0
                invariant
                    members_wf(rev@),
                    members_wf(out@),
                decreases rev.len(),
            {
                let ghost before = out@;
                let m = rev.pop().unwrap();
                out.push(m);
                assert(out@.drop_last() =~= before);
            }
            let r = JsonValue::Object(out);
            Some(r)
        },
    }
}

/// The document that `bytes` hold, where they hold one: what
/// `serde_json::from_slice` parses from them, as a [`JsonValue`].
pub uninterp spec fn json_of_bytes(bytes: Seq<u8>) -> Option<JsonValue>;

/// `serde_json::from_slice` of `bytes` into a `serde_json::Value`, taken apart by
/// [`json_value_of`]: the document, where `bytes` are valid JSON. serde_json
/// refuses a document nested more than 128 arrays or objects deep, so every
/// parsed document fits the depth given here. The result is named, not stated:
/// it is a function of `bytes` alone (the map of an object yields its members in
/// a fixed order). That its numbers' readings agree is what `json_value_of`
/// ensures.
#[verifier::external_body]
pub(crate) fn parse_json(bytes: &[u8]) -> (r: Option<JsonValue>)
    ensures
        r == json_of_bytes(bytes@),
        r matches Some(v) ==> json_wf(v),
{
    serde_json::from_slice::<Value>(bytes).ok().and_then(|v| json_value_of(v, 129))
}

} // verus!
