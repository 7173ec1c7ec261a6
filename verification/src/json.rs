//! JSON values as the library reads and builds them, with the two calls into
//! `serde_json` that parse and print them.
use vstd::prelude::*;

verus! {

broadcast use vstd::std_specs::vec::axiom_vec_index_decreases;

/// The mathematical value of a JSON number.
pub enum NumberValue {
    PosInt(u64),
    NegInt(i64),
    Float(Seq<char>),
}

/// The mathematical value of a JSON document; an object lists its members in order.
pub enum JsonValue {
    Null,
    Bool(bool),
    Number(NumberValue),
    Str(Seq<char>),
    Array(Seq<JsonValue>),
    Object(Seq<(Seq<char>, JsonValue)>),
}

/// A JSON number: a non-negative integer, a negative integer, or a
/// floating-point number held as its decimal text.
#[derive(Debug, Clone, PartialEq, Eq)]
pub enum JsonNumber {
    PosInt(u64),
    NegInt(i64),
    Float(String),
}

/// A JSON document.
#[derive(Debug, PartialEq, Eq)]
pub enum Json {
    Null,
    Bool(bool),
    Number(JsonNumber),
    Str(String),
    Array(Vec<Json>),
    Object(Vec<(String, Json)>),
}

impl View for JsonNumber {
    type V = NumberValue;

    open spec fn view(&self) -> NumberValue {
        match self {
            JsonNumber::PosInt(u) => NumberValue::PosInt(*u),
            JsonNumber::NegInt(i) => NumberValue::NegInt(*i),
            JsonNumber::Float(s) => NumberValue::Float(s@),
        }
    }
}

/// The value that a `Json` stands for.
pub open spec fn json_view(j: Json) -> JsonValue
    decreases j,
{
    match j {
        Json::Null => JsonValue::Null,
        Json::Bool(b) => JsonValue::Bool(b),
        Json::Number(n) => JsonValue::Number(n@),
        Json::Str(s) => JsonValue::Str(s@),
        Json::Array(v) => JsonValue::Array(
            Seq::new(
                v.len() as nat,
                |i: int|
                    if 0 <= i < v.len() {
                        json_view(v[i])
                    } else {
                        JsonValue::Null
                    },
            ),
        ),
        Json::Object(v) => JsonValue::Object(
            Seq::new(
                v.len() as nat,
                |i: int|
                    if 0 <= i < v.len() {
                        (v[i].0@, json_view(v[i].1))
                    } else {
                        (Seq::empty(), JsonValue::Null)
                    },
            ),
        ),
    }
}

impl View for Json {
    type V = JsonValue;

    open spec fn view(&self) -> JsonValue {
        json_view(*self)
    }
}

/// The value of an optional document.
pub open spec fn opt_json_view(o: Option<Json>) -> Option<JsonValue> {
    match o {
        Some(j) => Some(j@),
        None => None,
    }
}

/// The value of the first member of `entries` named `key`.
pub open spec fn object_lookup(entries: Seq<(Seq<char>, JsonValue)>, key: Seq<char>) -> Option<
    JsonValue,
>
    decreases entries.len(),
{
    if entries.len() == 0 {
        None
    } else if entries[0].0 == key {
        Some(entries[0].1)
    } else {
        object_lookup(entries.drop_first(), key)
    }
}

/// `Value::get` with a key: the member `key` of an object; nothing for other values.
pub open spec fn value_get(v: JsonValue, key: Seq<char>) -> Option<JsonValue> {
    match v {
        JsonValue::Object(entries) => object_lookup(entries, key),
        _ => None,
    }
}

/// `Value::get` with an index: element `i` of an array; nothing for other values.
pub open spec fn value_at(v: JsonValue, i: int) -> Option<JsonValue> {
    match v {
        JsonValue::Array(items) => if 0 <= i < items.len() {
            Some(items[i])
        } else {
            None
        },
        _ => None,
    }
}

/// `value[key]`: the member, or `null` where there is none.
pub open spec fn index_key(v: JsonValue, key: Seq<char>) -> JsonValue {
    match value_get(v, key) {
        Some(x) => x,
        None => JsonValue::Null,
    }
}

/// `value[i]`: the element, or `null` where there is none.
pub open spec fn index_at(v: JsonValue, i: int) -> JsonValue {
    match value_at(v, i) {
        Some(x) => x,
        None => JsonValue::Null,
    }
}

/// `Value::as_str`.
pub open spec fn value_as_str(v: JsonValue) -> Option<Seq<char>> {
    match v {
        JsonValue::Str(s) => Some(s),
        _ => None,
    }
}

/// `Value::as_i64`: integers that fit in an `i64`.
pub open spec fn value_as_i64(v: JsonValue) -> Option<i64> {
    match v {
        JsonValue::Number(NumberValue::PosInt(u)) => if u <= i64::MAX {
            Some(u as i64)
        } else {
            None
        },
        JsonValue::Number(NumberValue::NegInt(i)) => Some(i),
        _ => None,
    }
}

/// The number that `serde_json` makes of an `i64`.
pub open spec fn i64_number(i: i64) -> JsonValue {
    if i < 0 {
        JsonValue::Number(NumberValue::NegInt(i))
    } else {
        JsonValue::Number(NumberValue::PosInt(i as u64))
    }
}

/// What `serde_json::from_str::<serde_json::Value>` makes of a text: the
/// document, or nothing where the text is not one JSON document.
pub uninterp spec fn json_parse(text: Seq<char>) -> Option<JsonValue>;

/// The compact text that `serde_json` prints for a value.
pub uninterp spec fn json_text(value: JsonValue) -> Seq<char>;

/// The first member named `key` is found at index `i`.
proof fn lemma_lookup_found(entries: Seq<(Seq<char>, JsonValue)>, key: Seq<char>, i: int)
    requires
        0 <= i < entries.len(),
        entries[i].0 == key,
        forall|m: int| 0 <= m < i ==> entries[m].0 != key,
    ensures
        object_lookup(entries, key) == Some(entries[i].1),
    decreases i,
{
    if i > 0 {
        let rest = entries.drop_first();
        assert forall|m: int| 0 <= m < i - 1 implies rest[m].0 != key by {
            assert(rest[m] == entries[m + 1]);
        }
        lemma_lookup_found(rest, key, i - 1);
    }
}

/// No member is named `key`.
proof fn lemma_lookup_absent(entries: Seq<(Seq<char>, JsonValue)>, key: Seq<char>)
    requires
        forall|m: int| 0 <= m < entries.len() ==> entries[m].0 != key,
    ensures
        object_lookup(entries, key) is None,
    decreases entries.len(),
{
    if entries.len() > 0 {
        let rest = entries.drop_first();
        assert forall|m: int| 0 <= m < rest.len() implies rest[m].0 != key by {
            assert(rest[m] == entries[m + 1]);
        }
        lemma_lookup_absent(rest, key);
    }
}

/// The value of an optional borrowed document.
pub open spec fn opt_ref_view(o: Option<&Json>) -> Option<JsonValue> {
    match o {
        Some(j) => Some(j@),
        None => None,
    }
}

impl Json {
    /// `Value::get(key)`: the member `key` of an object.
    pub fn get(&self, key: &str) -> (r: Option<&Json>)
        ensures
            opt_ref_view(r) == value_get(self@, key@),
    {
        match self {
            Json::Object(entries) => {
                let ghost es = match self@ {
                    JsonValue::Object(es) => es,
                    _ => Seq::empty(),
                };
                assert(es.len() == entries@.len());
                let mut i: usize = 0;
                while i < entries.len()
                    invariant
                        self@ == JsonValue::Object(es),
                        *self == Json::Object(*entries),
                        es.len() == entries@.len(),
                        forall|m: int|
                            0 <= m < entries@.len() ==> (#[trigger] es[m]) == (
                                entries@[m].0@,
                                json_view(entries@[m].1),
                            ),
                        i <= entries.len(),
                        forall|m: int| 0 <= m < i ==> es[m].0 != key@,
                    decreases entries.len() - i,
                {
                    assert(es[i as int] == (entries@[i as int].0@, json_view(entries@[i as int].1)));
                    if crate::text::str_eq(entries[i].0.as_str(), key) {
                        proof {
                            lemma_lookup_found(es, key@, i as int);
                        }
                        return Some(&entries[i].1);
                    }
                    i = i + 1;
                }
                proof {
                    lemma_lookup_absent(es, key@);
                }
                None
            },
            _ => None,
        }
    }

    /// `Value::get(i)`: element `i` of an array.
    pub fn at(&self, i: usize) -> (r: Option<&Json>)
        ensures
            opt_ref_view(r) == value_at(self@, i as int),
    {
        match self {
            Json::Array(items) => {
                if i < items.len() {
                    Some(&items[i])
                } else {
                    None
                }
            },
            _ => None,
        }
    }

    /// `Value::as_str`.
    pub fn as_str(&self) -> (r: Option<&str>)
        ensures
            match r {
                Some(s) => value_as_str(self@) == Some(s@),
                None => value_as_str(self@) is None,
            },
    {
        match self {
            Json::Str(s) => Some(s.as_str()),
            _ => None,
        }
    }

    /// `Value::as_i64`.
    pub fn as_i64(&self) -> (r: Option<i64>)
        ensures
            r == value_as_i64(self@),
    {
        match self {
            Json::Number(JsonNumber::PosInt(u)) => {
                if *u <= i64::MAX as u64 {
                    Some(*u as i64)
                } else {
                    None
                }
            },
            Json::Number(JsonNumber::NegInt(i)) => Some(*i),
            _ => None,
        }
    }

    /// `Value::is_object`.
    pub fn is_object(&self) -> (b: bool)
        ensures
            b == (self@ is Object),
    {
        match self {
            Json::Object(_) => true,
            _ => false,
        }
    }

    /// `Value::as_array`.
    pub fn as_array(&self) -> (r: Option<&Vec<Json>>)
        ensures
            match r {
                Some(items) => self@ is Array && self@->Array_0.len() == items@.len() && forall|i: int|
                    0 <= i < items@.len() ==> self@->Array_0[i] == json_view(#[trigger] items@[i]),
                None => !(self@ is Array),
            },
    {
        match self {
            Json::Array(items) => {
                Some(items)
            },
            _ => None,
        }
    }

    /// Reads a JSON document from its text (`serde_json::from_str`): the
    /// document that `json_parse` names, nothing where the text is not one.
    pub fn parse(text: &str) -> (r: Option<Json>)
        ensures
            opt_json_view(r) == json_parse(text@),
    {
        parse_json(text)
    }

    /// The document printed as compact JSON text (`serde_json`'s `Display`),
    /// the text that `json_text` names.
    pub fn to_json_string(&self) -> (s: String)
        ensures
            s@ == json_text(self@),
    {
        to_json_text(self)
    }

    /// A copy of the document with the same value.
    pub fn deep_clone(&self) -> (r: Json)
        ensures
            r@ == self@,
        decreases self,
    {
        match self {
            Json::Null => Json::Null,
            Json::Bool(b) => Json::Bool(*b),
            Json::Number(JsonNumber::PosInt(u)) => Json::Number(JsonNumber::PosInt(*u)),
            Json::Number(JsonNumber::NegInt(i)) => Json::Number(JsonNumber::NegInt(*i)),
            Json::Number(JsonNumber::Float(t)) => Json::Number(JsonNumber::Float(t.clone())),
            Json::Str(s) => Json::Str(s.clone()),
            Json::Array(items) => {
                let mut out: Vec<Json> = Vec::new();
                let mut i: usize = 0;
                while i < items.len()
                    invariant
                        *self == Json::Array(*items),
                        i <= items@.len(),
                        out@.len() == i,
                        forall|m: int| 0 <= m < i ==> json_view(#[trigger] out@[m]) == json_view(
                            items@[m],
                        ),
                    decreases items.len() - i,
                {
                    assert(decreases_to!(*self => (*self)->Array_0));
                    assert(decreases_to!(*items => items[i as int]));
                    assert(decreases_to!(*self => items[i as int]));
                    let c = items[i].deep_clone();
                    out.push(c);
                    i = i + 1;
                }
                let r = Json::Array(out);
                assert(json_view(r) == json_view(*self)) by {
                    if let (JsonValue::Array(a), JsonValue::Array(b)) = (json_view(r), json_view(*self)) {
                        assert(a =~= b);
                    }
                }
                r
            },
            Json::Object(entries) => {
                let mut out: Vec<(String, Json)> = Vec::new();
                let mut i: usize = 0;
                while i < entries.len()
                    invariant
                        *self == Json::Object(*entries),
                        i <= entries@.len(),
                        out@.len() == i,
                        forall|m: int|
                            0 <= m < i ==> (#[trigger] out@[m]).0@ == entries@[m].0@ && json_view(
                                out@[m].1,
                            ) == json_view(entries@[m].1),
                    decreases entries.len() - i,
                {
                    assert(decreases_to!(*self => (*self)->Object_0));
                    assert(decreases_to!(*entries => entries[i as int]));
                    assert(decreases_to!(entries[i as int] => entries[i as int].1));
                    assert(decreases_to!(*self => entries[i as int].1));
                    let k = entries[i].0.clone();
                    let c = entries[i].1.deep_clone();
                    out.push((k, c));
                    i = i + 1;
                }
                let r = Json::Object(out);
                assert(json_view(r) == json_view(*self)) by {
                    if let (JsonValue::Object(a), JsonValue::Object(b)) = (json_view(r), json_view(*self)) {
                        assert(a =~= b);
                    }
                }
                r
            },
        }
    }
}

impl Clone for Json {
    /// A copy with the same value.
    fn clone(&self) -> (r: Json)
        ensures
            r@ == self@,
    {
        self.deep_clone()
    }
}

/// The declaration that lets `serde_json::Value` stand in signatures.
#[verifier::external_type_specification]
#[verifier::external_body]
pub struct ExValue(serde_json::Value);

/// Calls `serde_json::from_str::<serde_json::Value>` and converts the document
/// variant by variant. Trusted: the result is the one that `json_parse` names
/// for the text, and nothing where the text is not a JSON document.
#[verifier::external_body]
pub(crate) fn parse_json(text: &str) -> (r: Option<Json>)
    ensures
        opt_json_view(r) == json_parse(text@),
{
    serde_json::from_str::<serde_json::Value>(text).ok().map(json_from_value)
}

/// Converts the document to a `serde_json::Value` variant by variant and calls
/// its `Display` (`to_string`), which prints compact JSON. Trusted: the text is
/// the one that `json_text` names for the value.
#[verifier::external_body]
pub(crate) fn to_json_text(value: &Json) -> (s: String)
    ensures
        s@ == json_text(value@),
{
    json_to_value(value).to_string()
}

/// Variant-by-variant conversion from `serde_json::Value`, used by `parse_json`.
#[verifier::external_body]
fn json_from_value(v: serde_json::Value) -> Json {
    match v {
        serde_json::Value::Null => Json::Null,
        serde_json::Value::Bool(b) => Json::Bool(b),
        serde_json::Value::Number(n) => Json::Number(number_from_serde(&n)),
        serde_json::Value::String(s) => Json::Str(s),
        serde_json::Value::Array(a) => Json::Array(a.into_iter().map(json_from_value).collect()),
        serde_json::Value::Object(m) => Json::Object(
            m.into_iter().map(|(k, x)| (k, json_from_value(x))).collect(),
        ),
    }
}

/// The declaration that lets `serde_json::Number` stand in signatures.
#[verifier::external_type_specification]
#[verifier::external_body]
pub struct ExNumber(serde_json::Number);

/// Conversion from `serde_json::Number` by its kind, used by `parse_json`.
#[verifier::external_body]
fn number_from_serde(n: &serde_json::Number) -> JsonNumber {
    match (n.as_u64(), n.as_i64()) {
        (Some(u), _) => JsonNumber::PosInt(u),
        (None, Some(i)) => JsonNumber::NegInt(i),
        (None, None) => JsonNumber::Float(n.to_string()),
    }
}

/// Conversion to a `serde_json::Value` number, used by `to_json_text`; a
/// floating-point text that is not a number becomes `null`.
#[verifier::external_body]
fn number_to_serde(n: &JsonNumber) -> serde_json::Value {
    match n {
        JsonNumber::PosInt(u) => serde_json::Value::from(*u),
        JsonNumber::NegInt(i) => serde_json::Value::from(*i),
        JsonNumber::Float(t) => t.parse::<serde_json::Number>().map(serde_json::Value::Number).unwrap_or(serde_json::Value::Null),
    }
}

/// Variant-by-variant conversion to `serde_json::Value`, used by `to_json_text`.
#[verifier::external_body]
fn json_to_value(j: &Json) -> serde_json::Value {
    match j {
        Json::Null => serde_json::Value::Null,
        Json::Bool(b) => serde_json::Value::Bool(*b),
        Json::Number(n) => number_to_serde(n),
        Json::Str(s) => serde_json::Value::String(s.clone()),
        Json::Array(a) => serde_json::Value::Array(a.iter().map(json_to_value).collect()),
        Json::Object(es) => serde_json::Value::Object(
            es.iter().map(|(k, x)| (k.clone(), json_to_value(x))).collect(),
        ),
    }
}

} // verus!
