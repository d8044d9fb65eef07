//! JSON values, over `serde_json`.
//!
//! `JsonView` is what a `serde_json::Value` stands for in contracts. The functions that
//! are marked as trusted each make one call of `serde_json`; everything else here is
//! proved from them.

use serde_json::Value;
use vstd::prelude::*;

verus! {

/// A `serde_json::Value`, which the verifier does not look into.
#[verifier::external_type_specification]
#[verifier::external_body]
pub struct ExJsonValue(serde_json::Value);

/// What a JSON value holds.
///
/// A number that `serde_json` keeps as an integer is `Integer`; one that it keeps in
/// floating point is `Real`, by the text it is printed as.
pub ghost enum JsonView {
    Null,
    Bool(bool),
    Integer(int),
    Real(Seq<char>),
    Text(Seq<char>),
    List(Seq<JsonView>),
    Object(Map<Seq<char>, JsonView>),
}

/// What a JSON value holds.
pub uninterp spec fn json_view(v: Value) -> JsonView;

/// What `serde_json` reads in a text; `None` where it reads no value.
pub uninterp spec fn json_parse(text: Seq<char>) -> Option<JsonView>;

/// The compact text of a JSON value.
pub uninterp spec fn json_text(v: JsonView) -> Seq<char>;

/// What a list of JSON values holds.
pub open spec fn views(list: Seq<Value>) -> Seq<JsonView> {
    Seq::new(list.len(), |i: int| json_view(list[i]))
}

impl JsonView {
    /// The member of an object under a key; `None` for anything but an object.
    pub open spec fn member(self, key: Seq<char>) -> Option<JsonView> {
        match self {
            JsonView::Object(m) => if m.dom().contains(key) {
                Some(m[key])
            } else {
                None
            },
            _ => None,
        }
    }

    /// The text under a key, if there is a text.
    pub open spec fn member_text(self, key: Seq<char>) -> Option<Seq<char>> {
        match self.member(key) {
            Some(JsonView::Text(s)) => Some(s),
            _ => None,
        }
    }

    /// The whole number under a key, if there is one of 64 bits.
    pub open spec fn member_integer(self, key: Seq<char>) -> Option<int> {
        match self.member(key) {
            Some(JsonView::Integer(n)) => if i64::MIN <= n <= i64::MAX {
                Some(n)
            } else {
                None
            },
            _ => None,
        }
    }

    /// The truth value under a key, if there is one.
    pub open spec fn member_bool(self, key: Seq<char>) -> Option<bool> {
        match self.member(key) {
            Some(JsonView::Bool(b)) => Some(b),
            _ => None,
        }
    }

    /// The list under a key, if there is a list.
    pub open spec fn member_list(self, key: Seq<char>) -> Option<Seq<JsonView>> {
        match self.member(key) {
            Some(JsonView::List(s)) => Some(s),
            _ => None,
        }
    }
}

/// Trusted: what `serde_json::from_str::<Value>` reads is a function of the text, and so is
/// whether it reads anything.
#[verifier::external_body]
pub(crate) fn parse_value(text: &str) -> (r: Option<Value>)
    ensures
        match r {
            Some(v) => json_parse(text@) == Some(json_view(v)),
            None => json_parse(text@) is None,
        },
{
    serde_json::from_str(text).ok()
}

/// Trusted: `Value::to_string` (the compact form) is a function of what the value holds.
#[verifier::external_body]
pub(crate) fn compact_text(v: &Value) -> (r: String)
    ensures
        r@ == json_text(json_view(*v)),
{
    v.to_string()
}

/// Trusted: `Value::clone` holds the same.
#[verifier::external_body]
pub(crate) fn copy_value(v: &Value) -> (r: Value)
    ensures
        json_view(r) == json_view(*v),
{
    v.clone()
}

/// Trusted: `Value::get` with a text gives the member of an object under that key.
#[verifier::external_body]
pub(crate) fn get<'a>(v: &'a Value, key: &str) -> (r: Option<&'a Value>)
    ensures
        match r {
            Some(x) => json_view(*v).member(key@) == Some(json_view(*x)),
            None => json_view(*v).member(key@) is None,
        },
{
    v.get(key)
}

/// Trusted: `Value::as_str` gives the text of a text, and nothing for other values.
#[verifier::external_body]
pub(crate) fn as_text(v: &Value) -> (r: Option<&str>)
    ensures
        match r {
            Some(s) => json_view(*v) == JsonView::Text(s@),
            None => !(json_view(*v) is Text),
        },
{
    v.as_str()
}

/// Trusted: `Value::as_i64` gives an integer that fits in 64 bits with a sign, and nothing
/// for other values.
#[verifier::external_body]
pub(crate) fn as_integer(v: &Value) -> (r: Option<i64>)
    ensures
        match r {
            Some(n) => json_view(*v) == JsonView::Integer(n as int),
            None => match json_view(*v) {
                JsonView::Integer(n) => n < i64::MIN || n > i64::MAX,
                _ => true,
            },
        },
{
    v.as_i64()
}

/// Trusted: `Value::as_bool` gives a truth value, and nothing for other values.
#[verifier::external_body]
pub(crate) fn as_truth(v: &Value) -> (r: Option<bool>)
    ensures
        match r {
            Some(b) => json_view(*v) == JsonView::Bool(b),
            None => !(json_view(*v) is Bool),
        },
{
    v.as_bool()
}

/// Trusted: `Value::as_array` gives the items of a list, and nothing for other values.
#[verifier::external_body]
pub(crate) fn as_list(v: &Value) -> (r: Option<&Vec<Value>>)
    ensures
        match r {
            Some(list) => json_view(*v) == JsonView::List(views(list@)),
            None => !(json_view(*v) is List),
        },
{
    v.as_array()
}

/// Trusted: `Value::as_array_mut` gives the items of a list in place, and nothing for other
/// values.
#[verifier::external_body]
pub(crate) fn as_list_mut(v: &mut Value) -> (r: Option<&mut Vec<Value>>)
    ensures
        match r {
            Some(list) => {
                &&& json_view(*old(v)) == JsonView::List(views(list@))
                &&& json_view(*final(v)) == JsonView::List(views(final(list)@))
            },
            None => !(json_view(*old(v)) is List) && *final(v) == *old(v),
        },
{
    v.as_array_mut()
}

/// Trusted: `Value::is_object` tells an object from other values.
#[verifier::external_body]
pub(crate) fn is_object(v: &Value) -> (r: bool)
    ensures
        r == json_view(*v) is Object,
{
    v.is_object()
}

/// Trusted: indexing a `Value` in place by a text, on an object or a null, gives the member
/// under that key, which is a new null if there was none; a null counts as an object
/// without members. On other values it panics.
#[verifier::external_body]
pub(crate) fn member_mut<'a>(v: &'a mut Value, key: &str) -> (r: &'a mut Value)
    requires
        json_view(*old(v)) is Object || json_view(*old(v)) is Null,
    ensures
        json_view(*r) == (match json_view(*old(v)).member(key@) {
            Some(x) => x,
            None => JsonView::Null,
        }),
        json_view(*final(v)) == JsonView::Object(
            members(json_view(*old(v))).insert(key@, json_view(*final(r))),
        ),
{
    &mut v[key]
}

/// The members of an object; none for any other value.
pub open spec fn members(v: JsonView) -> Map<Seq<char>, JsonView> {
    match v {
        JsonView::Object(m) => m,
        _ => Map::empty(),
    }
}

/// Trusted: indexing a `Value` in place by a position, within a list, gives the item there.
#[verifier::external_body]
pub(crate) fn item_mut(v: &mut Value, i: usize) -> (r: &mut Value)
    requires
        json_view(*old(v)) is List,
        i < json_view(*old(v))->List_0.len(),
    ensures
        json_view(*r) == json_view(*old(v))->List_0[i as int],
        json_view(*final(v)) == JsonView::List(
            json_view(*old(v))->List_0.update(i as int, json_view(*final(r))),
        ),
{
    &mut v[i]
}

/// Trusted: `Value::from` a text holds that text.
#[verifier::external_body]
pub(crate) fn text_value(s: &str) -> (r: Value)
    ensures
        json_view(r) == JsonView::Text(s@),
{
    Value::from(s)
}

/// Trusted: `Value::from` a truth value holds it.
#[verifier::external_body]
pub(crate) fn truth_value(b: bool) -> (r: Value)
    ensures
        json_view(r) == JsonView::Bool(b),
{
    Value::from(b)
}

/// Trusted: `Value::from` a `u32` holds that number as an integer.
#[verifier::external_body]
pub(crate) fn number_value(n: u32) -> (r: Value)
    ensures
        json_view(r) == JsonView::Integer(n as int),
{
    Value::from(n)
}

/// Trusted: `Value::from` a list of values holds that list.
#[verifier::external_body]
pub(crate) fn list_value(list: Vec<Value>) -> (r: Value)
    ensures
        json_view(r) == JsonView::List(views(list@)),
{
    Value::from(list)
}

/// Trusted: `Value::from` an empty `serde_json::Map` is an object without members.
#[verifier::external_body]
pub(crate) fn empty_object() -> (r: Value)
    ensures
        json_view(r) == JsonView::Object(Map::empty()),
{
    Value::from(serde_json::Map::new())
}

/// Sets a member of an object.
pub(crate) fn put(v: &mut Value, key: &str, x: Value)
    requires
        json_view(*old(v)) is Object,
    ensures
        json_view(*final(v)) == JsonView::Object(
            json_view(*old(v))->Object_0.insert(key@, json_view(x)),
        ),
{
    *member_mut(v, key) = x;
}

/// The text under a key, if there is a text.
pub(crate) fn get_text<'a>(v: &'a Value, key: &str) -> (r: Option<&'a str>)
    ensures
        match r {
            Some(s) => json_view(*v).member_text(key@) == Some(s@),
            None => json_view(*v).member_text(key@) is None,
        },
{
    match get(v, key) {
        Some(x) => as_text(x),
        None => None,
    }
}

/// The whole number under a key, if there is one of 64 bits.
pub(crate) fn get_integer(v: &Value, key: &str) -> (r: Option<i64>)
    ensures
        match r {
            Some(n) => json_view(*v).member_integer(key@) == Some(n as int),
            None => json_view(*v).member_integer(key@) is None,
        },
{
    match get(v, key) {
        Some(x) => as_integer(x),
        None => None,
    }
}

/// The truth value under a key, if there is one.
pub(crate) fn get_truth(v: &Value, key: &str) -> (r: Option<bool>)
    ensures
        r == json_view(*v).member_bool(key@),
{
    match get(v, key) {
        Some(x) => as_truth(x),
        None => None,
    }
}

/// The list under a key, if there is a list.
pub(crate) fn get_list<'a>(v: &'a Value, key: &str) -> (r: Option<&'a Vec<Value>>)
    ensures
        match r {
            Some(list) => json_view(*v).member_list(key@) == Some(views(list@)),
            None => json_view(*v).member_list(key@) is None,
        },
{
    match get(v, key) {
        Some(x) => as_list(x),
        None => None,
    }
}

/// The items of the JSON list that a text holds; `None` if it holds none.
pub open spec fn list_in(text: Seq<char>) -> Option<Seq<JsonView>> {
    match json_parse(text) {
        Some(JsonView::List(items)) => Some(items),
        _ => None,
    }
}

/// Reads a JSON list.
pub fn read_list(text: &str) -> (r: Option<Vec<Value>>)
    ensures
        match r {
            Some(list) => list_in(text@) == Some(views(list@)),
            None => list_in(text@) is None,
        },
{
    let value = match parse_value(text) {
        Some(v) => v,
        None => {
            return None;
        },
    };
    match as_list(&value) {
        Some(list) => {
            let mut out: Vec<Value> = Vec::new();
            for i in 0..list.len()
                invariant
                    out@.len() == i,
                    forall|j: int| 0 <= j < i ==> views(out@)[j] == #[trigger] views(list@)[j],
            {
                let ghost before = out@;
                out.push(copy_value(&list[i]));
                assert forall|j: int| 0 <= j < i + 1 implies views(out@)[j]
                    == #[trigger] views(list@)[j] by {
                    if j < i {
                        assert(views(out@)[j] == views(before)[j]);
                    }
                }
            }
            assert(views(out@) =~= views(list@));
            Some(out)
        },
        None => None,
    }
}

} // verus!
