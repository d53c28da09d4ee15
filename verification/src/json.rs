//! The library's model of a JSON document.
//!
//! Each node keeps, besides its structure, its own compact JSON text (what
//! `serde_json::to_string` writes for it). The store reads a document only
//! through its top-level fields, their scalar values and that text, so this
//! is all it needs to hold.

use serde_json::Value;
use vstd::prelude::*;
use vstd::utf8::encode_utf8;

verus! {

/// A JSON number, as serde_json keeps it.
#[derive(Debug, Clone, Copy, PartialEq, Eq, Structural)]
pub enum JsonNumber {
    /// A non-negative integer.
    PosInt(u64),
    /// A negative integer.
    NegInt(i64),
    /// Any other number (its text is in the node).
    Float,
}

/// The shape of a JSON node.
#[derive(Debug)]
pub enum JsonKind {
    Null,
    Bool(bool),
    Number(JsonNumber),
    Str(String),
    Array(Vec<JsonValue>),
    /// The members of an object, in the document's order.
    Object(Vec<(String, JsonValue)>),
}

/// A JSON node together with its compact serialization.
#[derive(Debug)]
pub struct JsonValue {
    pub kind: JsonKind,
    /// The node's compact JSON text.
    pub text: String,
}

/// Two nodes agree in text, in kind, in scalar payload, in length and in
/// member names.
pub open spec fn node_same(a: JsonValue, b: JsonValue) -> bool {
    &&& a.text == b.text
    &&& match (a.kind, b.kind) {
        (JsonKind::Null, JsonKind::Null) => true,
        (JsonKind::Bool(x), JsonKind::Bool(y)) => x == y,
        (JsonKind::Number(x), JsonKind::Number(y)) => x == y,
        (JsonKind::Str(x), JsonKind::Str(y)) => x == y,
        (JsonKind::Array(x), JsonKind::Array(y)) => x@.len() == y@.len(),
        (JsonKind::Object(x), JsonKind::Object(y)) => {
            &&& x@.len() == y@.len()
            &&& forall|i: int| 0 <= i < x@.len() ==> (#[trigger] x@[i]).0 == y@[i].0
        },
        _ => false,
    }
}

/// Two nodes hold the same document: they agree, and so do their children.
/// (Below the children the text of each child determines the rest.)
pub open spec fn json_same(a: JsonValue, b: JsonValue) -> bool {
    &&& node_same(a, b)
    &&& (a.kind matches JsonKind::Array(x) ==> b.kind matches JsonKind::Array(y) && forall|i: int|
        0 <= i < x@.len() ==> node_same(#[trigger] x@[i], y@[i]))
    &&& (a.kind matches JsonKind::Object(x) ==> b.kind matches JsonKind::Object(y) && forall|
        i: int,
    | 0 <= i < x@.len() ==> node_same(#[trigger] x@[i].1, y@[i].1))
}

/// The value behind an optional reference.
pub open spec fn opt_json(o: Option<&JsonValue>) -> Option<JsonValue> {
    match o {
        Some(v) => Some(*v),
        None => None,
    }
}

/// The number of bytes of the UTF-8 encoding of `s`, as `str::len` reports it.
pub open spec fn utf8_len(s: Seq<char>) -> usize {
    encode_utf8(s).len() as usize
}

/// The first member named `field` among `members`.
pub open spec fn member_lookup(members: Seq<(String, JsonValue)>, field: Seq<char>) -> Option<
    JsonValue,
>
    decreases members.len(),
{
    if members.len() == 0 {
        None
    } else if members[0].0@ == field {
        Some(members[0].1)
    } else {
        member_lookup(members.drop_first(), field)
    }
}

/// The member `field` of an object; nothing for any other value
/// (what `Value::get` with a string key gives).
pub open spec fn json_get(v: JsonValue, field: Seq<char>) -> Option<JsonValue> {
    match v.kind {
        JsonKind::Object(members) => member_lookup(members@, field),
        _ => None,
    }
}

/// The string inside a JSON string (what `Value::as_str` gives).
pub open spec fn json_as_str(v: JsonValue) -> Option<Seq<char>> {
    match v.kind {
        JsonKind::Str(s) => Some(s@),
        _ => None,
    }
}

/// A non-negative integer (what `Value::as_u64` gives).
pub open spec fn json_as_u64(v: JsonValue) -> Option<u64> {
    match v.kind {
        JsonKind::Number(JsonNumber::PosInt(n)) => Some(n),
        _ => None,
    }
}

/// An integer that fits in `i64` (what `Value::as_i64` gives).
pub open spec fn json_as_i64(v: JsonValue) -> Option<i64> {
    match v.kind {
        JsonKind::Number(JsonNumber::PosInt(n)) => if n <= i64::MAX {
            Some(n as i64)
        } else {
            None
        },
        JsonKind::Number(JsonNumber::NegInt(n)) => Some(n),
        _ => None,
    }
}

/// The number of bytes of the node's compact serialization.
pub open spec fn json_byte_len(v: JsonValue) -> usize {
    utf8_len(v.text@)
}

impl JsonValue {
    /// A copy of the node.
    pub fn deep_copy(&self) -> (r: JsonValue)
        ensures
            json_same(r, *self),
        decreases self,
    {
        match &self.kind {
            JsonKind::Array(items) => {
                let mut out: Vec<JsonValue> = Vec::new();
                let n = items.len();
                let mut i: usize = 0;
                while i < n
                    invariant
                        n == items@.len(),
                        i <= n,
                        self.kind == JsonKind::Array(*items),
                        out@.len() == i,
                        forall|j: int| 0 <= j < i ==> json_same(#[trigger] out@[j], items@[j]),
                    decreases n - i,
                {
                    proof {
                        assert(decreases_to!(self => self.kind));
                        assert(decreases_to!(self.kind => self.kind->Array_0));
                        assert(decreases_to!(*items => items@[i as int]));
                    }
                    let c = items[i].deep_copy();
                    out.push(c);
                    i = i + 1;
                }
                let r = JsonValue { kind: JsonKind::Array(out), text: self.text.clone() };
                assert forall|j: int| 0 <= j < out@.len() implies node_same(
                    #[trigger] out@[j],
                    items@[j],
                ) by {
                    assert(json_same(out@[j], items@[j]));
                }
                r
            },
            JsonKind::Object(members) => {
                let mut out: Vec<(String, JsonValue)> = Vec::new();
                let n = members.len();
                let mut i: usize = 0;
                while i < n
                    invariant
                        n == members@.len(),
                        i <= n,
                        self.kind == JsonKind::Object(*members),
                        out@.len() == i,
                        forall|j: int|
                            0 <= j < i ==> (#[trigger] out@[j]).0 == members@[j].0 && json_same(
                                out@[j].1,
                                members@[j].1,
                            ),
                    decreases n - i,
                {
                    proof {
                        assert(decreases_to!(self => self.kind));
                        assert(decreases_to!(self.kind => self.kind->Object_0));
                        assert(decreases_to!(*members => members@[i as int]));
                        assert(decreases_to!(members@[i as int] => members@[i as int].1));
                    }
                    let c = members[i].1.deep_copy();
                    out.push((members[i].0.clone(), c));
                    i = i + 1;
                }
                let r = JsonValue { kind: JsonKind::Object(out), text: self.text.clone() };
                assert forall|j: int| 0 <= j < out@.len() implies node_same(
                    #[trigger] out@[j].1,
                    members@[j].1,
                ) by {
                    assert(json_same(out@[j].1, members@[j].1));
                }
                r
            },
            JsonKind::Null => JsonValue { kind: JsonKind::Null, text: self.text.clone() },
            JsonKind::Bool(b) => JsonValue { kind: JsonKind::Bool(*b), text: self.text.clone() },
            JsonKind::Number(x) => JsonValue {
                kind: JsonKind::Number(*x),
                text: self.text.clone(),
            },
            JsonKind::Str(t) => JsonValue { kind: JsonKind::Str(t.clone()), text: self.text.clone() },
        }
    }

    /// The member `field` of an object.
    pub fn get(&self, field: &str) -> (r: Option<&JsonValue>)
        ensures
            r matches Some(x) ==> json_get(*self, field@) == Some(*x),
            r is None ==> json_get(*self, field@) is None,
    {
        match &self.kind {
            JsonKind::Object(members) => {
                let n = members.len();
                let mut i: usize = 0;
                assert(members@.subrange(0, n as int) =~= members@);
                while i < n
                    invariant
                        n == members@.len(),
                        i <= n,
                        json_get(*self, field@) == member_lookup(members@, field@),
                        member_lookup(members@, field@) == member_lookup(
                            members@.subrange(i as int, n as int),
                            field@,
                        ),
                    decreases n - i,
                {
                    proof {
                        assert(members@.subrange(i as int, n as int).drop_first()
                            =~= members@.subrange(i + 1, n as int));
                    }
                    assert(members@.subrange(i as int, n as int)[0] == members@[i as int]);
                    if crate::text::str_equal(members[i].0.as_str(), field) {
                        return Some(&members[i].1);
                    }
                    i = i + 1;
                }
                None
            },
            _ => None,
        }
    }

    /// The string inside a JSON string.
    pub fn as_str(&self) -> (r: Option<&String>)
        ensures
            r matches Some(s) ==> json_as_str(*self) == Some(s@),
            r is None ==> json_as_str(*self) is None,
    {
        match &self.kind {
            JsonKind::Str(s) => Some(s),
            _ => None,
        }
    }

    /// A non-negative integer.
    pub fn as_u64(&self) -> (r: Option<u64>)
        ensures
            r == json_as_u64(*self),
    {
        match &self.kind {
            JsonKind::Number(JsonNumber::PosInt(n)) => Some(*n),
            _ => None,
        }
    }

    /// An integer that fits in `i64`.
    pub fn as_i64(&self) -> (r: Option<i64>)
        ensures
            r == json_as_i64(*self),
    {
        match &self.kind {
            JsonKind::Number(JsonNumber::PosInt(n)) => if *n <= 9223372036854775807u64 {
                Some(*n as i64)
            } else {
                None
            },
            JsonKind::Number(JsonNumber::NegInt(n)) => Some(*n),
            _ => None,
        }
    }

    /// Whether the node is `null`.
    pub fn is_null(&self) -> (r: bool)
        ensures
            r == (self.kind is Null),
    {
        match &self.kind {
            JsonKind::Null => true,
            _ => false,
        }
    }

    /// The number of bytes of the node's compact serialization.
    pub fn byte_len(&self) -> (r: usize)
        ensures
            r == json_byte_len(*self),
    {
        self.text.as_str().len()
    }
}

#[verifier::external_type_specification]
#[verifier::external_body]
pub struct ExJsonDocument(serde_json::Value);

#[verifier::external_type_specification]
#[verifier::external_body]
pub struct ExJsonNumber(serde_json::Number);

/// What serde_json reads from a byte string, taken into the library's
/// model: the document, or none when the bytes are not one JSON document.
pub uninterp spec fn json_document(bytes: Seq<u8>) -> Option<JsonValue>;

/// `serde_json::from_slice` into a `serde_json::Value`: the document that
/// the bytes hold, in the library's model (as the name above), or `None`
/// where serde_json refuses them. What serde_json accepts, and the compact
/// text it writes for each node, are left to it.
#[verifier::external_body]
fn parse_json(bytes: &[u8]) -> (r: Option<JsonValue>)
    ensures
        r == json_document(bytes@),
{
    match serde_json::from_slice::<Value>(bytes) {
        Ok(v) => Some(model_of(&v)),
        Err(_) => None,
    }
}

/// Takes a serde_json node into the library's model, one node for one
/// node, each with its compact text (`Display` of `serde_json::Value`); the
/// result of `parse_json` is built with it.
#[verifier::external_body]
fn model_of(v: &Value) -> JsonValue {
    let kind = match v {
        Value::Null => JsonKind::Null,
        Value::Bool(b) => JsonKind::Bool(*b),
        Value::Number(n) => JsonKind::Number(number_of(n)),
        Value::String(s) => JsonKind::Str(s.clone()),
        Value::Array(a) => JsonKind::Array(a.iter().map(model_of).collect()),
        Value::Object(m) => JsonKind::Object(m.iter().map(|(k, x)| (k.clone(), model_of(x))).collect()),
    };
    JsonValue { kind, text: v.to_string() }
}

/// Takes a serde_json number into the library's model: serde_json keeps a
/// number as a non-negative integer, a negative one or a float.
#[verifier::external_body]
fn number_of(n: &serde_json::Number) -> JsonNumber {
    match (n.as_u64(), n.as_i64()) {
        (Some(u), _) => JsonNumber::PosInt(u),
        (None, Some(i)) => JsonNumber::NegInt(i),
        _ => JsonNumber::Float,
    }
}

/// The document that a byte string holds, or `None` when it holds none.
pub fn parse_document(bytes: &[u8]) -> (r: Option<JsonValue>)
    ensures
        r == json_document(bytes@),
{
    parse_json(bytes)
}

} // verus!
