//! What scripts hand back to the runtime: the store operations that an
//! ingest, cron or lifecycle script returns, read from its JSON result.

use vstd::prelude::*;

use crate::json::{json_as_str, json_get, json_same, JsonKind, JsonValue};
use crate::store::entity::{StoreOp, StoreOpKind};
use crate::text::{opt_str_of, str_equal};

verus! {

/// Why a script's result is not a list of store operations.
#[derive(Debug)]
pub enum OpsParseError {
    /// The result is neither `null` nor an array.
    NotArray,
    /// Entry `i` is not an object.
    NotObject(usize),
    /// Entry `i` has no string `op`.
    MissingOp(usize),
    /// Entry `i` has no string `entity_type` (or `entityType`).
    MissingEntityType(usize),
    /// Entry `i` has no string `key`.
    MissingKey(usize),
    /// Entry `i` names an operation other than upsert, delete, push and
    /// remove_item (held here).
    UnsupportedOp(usize, String),
}

/// The text of a parse error.
pub open spec fn parse_error_text(e: OpsParseError) -> Seq<char> {
    match e {
        OpsParseError::NotArray => "on_ingest must return an array of ops"@,
        OpsParseError::NotObject(_) => "each op must be a JSON object"@,
        OpsParseError::MissingOp(_) => "op.op must be present"@,
        OpsParseError::MissingEntityType(_) => "op.entity_type must be present"@,
        OpsParseError::MissingKey(_) => "op.key must be present"@,
        OpsParseError::UnsupportedOp(_, other) => "unsupported store op '"@ + other@ + "'"@,
    }
}

impl OpsParseError {
    /// The error's text.
    pub fn message(&self) -> (r: String)
        ensures
            r@ == parse_error_text(*self),
    {
        match self {
            OpsParseError::NotArray => String::from_str("on_ingest must return an array of ops"),
            OpsParseError::NotObject(_) => String::from_str("each op must be a JSON object"),
            OpsParseError::MissingOp(_) => String::from_str("op.op must be present"),
            OpsParseError::MissingEntityType(_) => String::from_str("op.entity_type must be present"),
            OpsParseError::MissingKey(_) => String::from_str("op.key must be present"),
            OpsParseError::UnsupportedOp(_, other) => crate::text::join3("unsupported store op '", other.as_str(), "'"),
        }
    }
}

/// The string member `f` of an object.
pub open spec fn str_member(e: JsonValue, f: Seq<char>) -> Option<Seq<char>> {
    match json_get(e, f) {
        Some(v) => json_as_str(v),
        None => None,
    }
}

/// The member `f1`, or `f2` when there is no `f1`, read as a string.
pub open spec fn either_member(e: JsonValue, f1: Seq<char>, f2: Seq<char>) -> Option<Seq<char>> {
    match json_get(e, f1) {
        Some(v) => json_as_str(v),
        None => str_member(e, f2),
    }
}

/// The operation that a name denotes.
pub open spec fn op_kind_of(s: Seq<char>) -> Option<StoreOpKind> {
    if s == "upsert"@ {
        Some(StoreOpKind::Upsert)
    } else if s == "delete"@ {
        Some(StoreOpKind::Delete)
    } else if s == "push"@ {
        Some(StoreOpKind::Push)
    } else if s == "remove_item"@ {
        Some(StoreOpKind::RemoveItem)
    } else {
        None
    }
}

/// Whether an entry describes an operation.
pub open spec fn entry_ok(e: JsonValue) -> bool {
    &&& e.kind is Object
    &&& str_member(e, "op"@) is Some
    &&& either_member(e, "entity_type"@, "entityType"@) is Some
    &&& str_member(e, "key"@) is Some
    &&& op_kind_of(str_member(e, "op"@)->0) is Some
}

/// The error that entry `i` gives when it describes no operation: the
/// first missing part, in the order object, `op`, entity type, `key`, kind.
pub open spec fn entry_fails_with(e: JsonValue, i: int, err: OpsParseError) -> bool {
    if !(e.kind is Object) {
        err matches OpsParseError::NotObject(j) && j == i
    } else if str_member(e, "op"@) is None {
        err matches OpsParseError::MissingOp(j) && j == i
    } else if either_member(e, "entity_type"@, "entityType"@) is None {
        err matches OpsParseError::MissingEntityType(j) && j == i
    } else if str_member(e, "key"@) is None {
        err matches OpsParseError::MissingKey(j) && j == i
    } else {
        err matches OpsParseError::UnsupportedOp(j, s) && j == i && s@ == str_member(e, "op"@)->0
    }
}

/// Whether an operation is the one an entry describes (its value a copy of
/// the entry's `value`).
pub open spec fn op_from_entry(op: StoreOp, e: JsonValue) -> bool {
    &&& Some(op.op) == op_kind_of(str_member(e, "op"@)->0)
    &&& Some(op.entity_type@) == either_member(e, "entity_type"@, "entityType"@)
    &&& Some(op.key@) == str_member(e, "key"@)
    &&& opt_str_of(op.item_id) == either_member(e, "item_id"@, "itemId"@)
    &&& match (op.value, json_get(e, "value"@)) {
        (Some(a), Some(b)) => json_same(a, b),
        (None, None) => true,
        _ => false,
    }
}

/// Whether `err` is what the first entry that describes no operation gives.
pub open spec fn first_bad_entry(entries: Seq<JsonValue>, err: OpsParseError) -> bool {
    exists|i: int|
        0 <= i < entries.len() && (forall|j: int| 0 <= j < i ==> entry_ok(#[trigger] entries[j]))
            && !entry_ok(#[trigger] entries[i]) && entry_fails_with(entries[i], i, err)
}

fn get_str(e: &JsonValue, f: &str) -> (r: Option<String>)
    ensures
        opt_str_of(r) == str_member(*e, f@),
{
    match e.get(f) {
        Some(v) => match v.as_str() {
            Some(s) => Some(s.clone()),
            None => None,
        },
        None => None,
    }
}

fn get_either(e: &JsonValue, f1: &str, f2: &str) -> (r: Option<String>)
    ensures
        opt_str_of(r) == either_member(*e, f1@, f2@),
{
    match e.get(f1) {
        Some(v) => match v.as_str() {
            Some(s) => Some(s.clone()),
            None => None,
        },
        None => get_str(e, f2),
    }
}

/// Reads one entry: the operation it describes, or why it describes none.
fn parse_entry(e: &JsonValue, i: usize) -> (r: Result<StoreOp, OpsParseError>)
    ensures
        entry_ok(*e) ==> (r matches Ok(op) && op_from_entry(op, *e)),
        !entry_ok(*e) ==> (r matches Err(err) && entry_fails_with(*e, i as int, err)),
{
    match &e.kind {
        JsonKind::Object(_) => {},
        _ => {
            return Err(OpsParseError::NotObject(i));
        },
    }
    let op = match get_str(e, "op") {
        Some(s) => s,
        None => {
            return Err(OpsParseError::MissingOp(i));
        },
    };
    let entity_type = match get_either(e, "entity_type", "entityType") {
        Some(s) => s,
        None => {
            return Err(OpsParseError::MissingEntityType(i));
        },
    };
    let key = match get_str(e, "key") {
        Some(s) => s,
        None => {
            return Err(OpsParseError::MissingKey(i));
        },
    };
    let kind = if str_equal(op.as_str(), "upsert") {
        StoreOpKind::Upsert
    } else if str_equal(op.as_str(), "delete") {
        StoreOpKind::Delete
    } else if str_equal(op.as_str(), "push") {
        StoreOpKind::Push
    } else if str_equal(op.as_str(), "remove_item") {
        StoreOpKind::RemoveItem
    } else {
        return Err(OpsParseError::UnsupportedOp(i, op));
    };
    let item_id = get_either(e, "item_id", "itemId");
    let value = match e.get("value") {
        Some(v) => Some(v.deep_copy()),
        None => None,
    };
    Ok(StoreOp { op: kind, entity_type, key, item_id, value })
}

/// The store operations of a script's result: none for `null`, else one per
/// entry of the array, stopping at the first entry that describes none.
pub fn parse_store_ops(value: &JsonValue) -> (r: Result<Vec<StoreOp>, OpsParseError>)
    ensures
        value.kind is Null ==> (r matches Ok(ops) && ops@.len() == 0),
        !(value.kind is Null) && !(value.kind is Array) ==> r matches Err(OpsParseError::NotArray),
        value.kind matches JsonKind::Array(entries) ==> ((forall|i: int|
            0 <= i < entries@.len() ==> entry_ok(#[trigger] entries@[i])) ==> (r matches Ok(ops)
            && ops@.len() == entries@.len() && forall|i: int|
            0 <= i < ops@.len() ==> op_from_entry(#[trigger] ops@[i], entries@[i]))),
        value.kind matches JsonKind::Array(entries) ==> (r matches Err(err) ==> first_bad_entry(
            entries@,
            err,
        )),
        value.kind matches JsonKind::Array(entries) ==> ((exists|i: int|
            0 <= i < entries@.len() && !entry_ok(#[trigger] entries@[i])) ==> r is Err),
{
    match &value.kind {
        JsonKind::Null => Ok(Vec::new()),
        JsonKind::Array(entries) => {
            let n = entries.len();
            let mut ops: Vec<StoreOp> = Vec::new();
            let mut failure: Option<OpsParseError> = None;
            let mut i: usize = 0;
            while i < n && failure.is_none()
                invariant
                    n == entries@.len(),
                    value.kind == JsonKind::Array(*entries),
                    i <= n,
                    failure is None ==> ops@.len() == i,
                    failure is None ==> forall|j: int| 0 <= j < i ==> entry_ok(#[trigger] entries@[j]),
                    failure is None ==> forall|j: int| 0 <= j < i ==> op_from_entry(#[trigger] ops@[j], entries@[j]),
                    failure matches Some(err) ==> first_bad_entry(entries@, err),
                decreases n - i,
            {
                match parse_entry(&entries[i], i) {
                    Ok(op) => {
                        ops.push(op);
                    },
                    Err(err) => {
                        assert(!entry_ok(entries@[i as int]) && entry_fails_with(entries@[i as int], i as int, err));
                        assert(first_bad_entry(entries@, err));
                        failure = Some(err);
                    },
                }
                i = i + 1;
            }
            match failure {
                Some(err) => {
                    proof {
                        let w = choose|w: int|
                            0 <= w < entries@.len() && (forall|j: int| 0 <= j < w ==> entry_ok(#[trigger] entries@[j]))
                                && !entry_ok(#[trigger] entries@[w]) && entry_fails_with(entries@[w], w, err);
                        assert(!entry_ok(entries@[w]));
                    }
                    Err(err)
                },
                None => Ok(ops),
            }
        },
        _ => Err(OpsParseError::NotArray),
    }
}


/// How many script runtimes a pool keeps: the configured size, at least one.
pub fn pool_slots(pool_size: usize) -> (r: usize)
    ensures
        r == if pool_size == 0 {
            1
        } else {
            pool_size
        },
{
    if pool_size == 0 {
        1
    } else {
        pool_size
    }
}

/// The runtime that the `counter`-th call takes: calls go round the slots.
pub fn slot_for(counter: usize, slots: usize) -> (r: usize)
    requires
        slots > 0,
    ensures
        r == counter % slots,
        r < slots,
{
    counter % slots
}

} // verus!
