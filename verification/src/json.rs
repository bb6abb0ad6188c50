//! JSON values as the library reads them, and the paths of a document.
//!
//! Text is parsed by `serde_json`; the parsed value is carried as a
//! [`JsonValue`], whose objects keep their members in document order.

use vstd::prelude::*;

use crate::nfa_minimizer::DocSym;

verus! {

/// A JSON value.
#[derive(Debug)]
pub enum JsonValue {
    Null,
    Bool(bool),
    /// A number, in the form `serde_json` prints it.
    Number(String),
    String(String),
    Array(Vec<JsonValue>),
    /// The members of an object, in document order.
    Object(Vec<(String, JsonValue)>),
}

#[verifier::external_type_specification]
#[verifier::external_body]
pub struct ExJsonError(serde_json::Error);

#[verifier::external_type_specification]
#[verifier::external_body]
pub struct ExJsonValue(serde_json::Value);

/// What `serde_json` parses `text` into: `None` when `text` is not a JSON
/// document, or nests arrays and objects deeper than the parser's recursion
/// limit (128 levels).
pub uninterp spec fn parsed_json(text: Seq<char>) -> Option<JsonValue>;

/// `serde_json::from_str` into a `serde_json::Value`, converted to a
/// [`JsonValue`]: `Ok` with the value that `text` holds, or the parser's
/// error when `text` is not a JSON document.
#[verifier::external_body]
pub(crate) fn parse_json(text: &str) -> (r: Result<JsonValue, serde_json::Error>)
    ensures
        match r {
            Ok(v) => parsed_json(text@) == Some(v),
            Err(_) => parsed_json(text@) is None,
        },
{
    match serde_json::from_str::<serde_json::Value>(text) {
        Ok(v) => Ok(json_from_value(v)),
        Err(e) => Err(e),
    }
}

/// Converts a `serde_json::Value` variant by variant; members keep their order.
#[verifier::external_body]
fn json_from_value(v: serde_json::Value) -> JsonValue {
    match v {
        serde_json::Value::Null => JsonValue::Null,
        serde_json::Value::Bool(b) => JsonValue::Bool(b),
        serde_json::Value::Number(n) => JsonValue::Number(n.to_string()),
        serde_json::Value::String(s) => JsonValue::String(s),
        serde_json::Value::Array(items) => JsonValue::Array(items.into_iter().map(json_from_value).collect()),
        serde_json::Value::Object(map) => JsonValue::Object(map.into_iter().map(|(k, x)| (k, json_from_value(x))).collect()),
    }
}

/// The document symbol that an edge with this label reads: the empty label
/// marks an array element, any other label a member.
pub open spec fn edge_sym(label: Seq<char>) -> DocSym {
    if label.len() == 0 {
        DocSym::List
    } else {
        DocSym::Member(label)
    }
}

/// Whether `d` is a path of `v`: each step enters a member by its name, or
/// an array element. A member named by the empty string is entered like an
/// array element.
pub open spec fn has_path(v: JsonValue, d: Seq<DocSym>) -> bool
    decreases v,
{
    if d.len() == 0 {
        true
    } else {
        match v {
            JsonValue::Array(items) => d[0] == DocSym::List && exists|i: int|
                0 <= i < items@.len() && has_path(#[trigger] items@[i], d.drop_first()),
            JsonValue::Object(members) => exists|i: int|
                0 <= i < members@.len() && edge_sym((#[trigger] members@[i]).0@) == d[0] && has_path(members@[i].1, d.drop_first()),
            _ => false,
        }
    }
}

/// The number of nested levels below `v`.
pub open spec fn depth(v: JsonValue) -> nat
    decreases v,
{
    match v {
        JsonValue::Array(items) => 1 + max_depth_items(items@),
        JsonValue::Object(members) => 1 + max_depth_members(members@),
        _ => 0,
    }
}

/// The largest depth among `items`.
pub open spec fn max_depth_items(items: Seq<JsonValue>) -> nat
    decreases items,
{
    if items.len() == 0 {
        0
    } else {
        let rest = max_depth_items(items.drop_last());
        let d = depth(items.last());
        if d > rest { d } else { rest }
    }
}

/// The largest depth among the values of `members`.
pub open spec fn max_depth_members(members: Seq<(String, JsonValue)>) -> nat
    decreases members,
{
    if members.len() == 0 {
        0
    } else {
        let rest = max_depth_members(members.drop_last());
        let d = depth(members.last().1);
        if d > rest { d } else { rest }
    }
}


/// The number of nodes of `v`: itself and all nodes below it.
pub open spec fn node_count(v: JsonValue) -> nat
    decreases v,
{
    match v {
        JsonValue::Array(items) => 1 + items_node_count(items@),
        JsonValue::Object(members) => 1 + members_node_count(members@),
        _ => 1,
    }
}

/// The number of nodes of all `items`.
pub open spec fn items_node_count(items: Seq<JsonValue>) -> nat
    decreases items,
{
    if items.len() == 0 {
        0
    } else {
        items_node_count(items.drop_last()) + node_count(items.last())
    }
}

/// The number of nodes of all values of `members`.
pub open spec fn members_node_count(members: Seq<(String, JsonValue)>) -> nat
    decreases members,
{
    if members.len() == 0 {
        0
    } else {
        members_node_count(members.drop_last()) + node_count(members.last().1)
    }
}

/// Counting a prefix of the items counts no more than all of them.
pub proof fn lemma_items_node_count_prefix(items: Seq<JsonValue>, i: int)
    requires
        0 <= i <= items.len(),
    ensures
        items_node_count(items.take(i)) <= items_node_count(items),
    decreases items.len() - i,
{
    if i < items.len() {
        lemma_items_node_count_prefix(items, i + 1);
        assert(items.take(i + 1).drop_last() =~= items.take(i));
    } else {
        assert(items.take(i) =~= items);
    }
}

/// Counting a prefix of the members counts no more than all of them.
pub proof fn lemma_members_node_count_prefix(members: Seq<(String, JsonValue)>, i: int)
    requires
        0 <= i <= members.len(),
    ensures
        members_node_count(members.take(i)) <= members_node_count(members),
    decreases members.len() - i,
{
    if i < members.len() {
        lemma_members_node_count_prefix(members, i + 1);
        assert(members.take(i + 1).drop_last() =~= members.take(i));
    } else {
        assert(members.take(i) =~= members);
    }
}


/// An item is no deeper than the deepest item.
pub proof fn lemma_max_depth_items(items: Seq<JsonValue>, i: int)
    requires
        0 <= i < items.len(),
    ensures
        depth(items[i]) <= max_depth_items(items),
    decreases items.len(),
{
    if i < items.len() - 1 {
        assert(items.drop_last()[i] == items[i]);
        lemma_max_depth_items(items.drop_last(), i);
    }
}

/// A member's value is no deeper than the deepest member value.
pub proof fn lemma_max_depth_members(members: Seq<(String, JsonValue)>, i: int)
    requires
        0 <= i < members.len(),
    ensures
        depth(members[i].1) <= max_depth_members(members),
    decreases members.len(),
{
    if i < members.len() - 1 {
        assert(members.drop_last()[i] == members[i]);
        lemma_max_depth_members(members.drop_last(), i);
    }
}

/// A path of a value is no longer than its depth.
pub proof fn lemma_path_within_depth(v: JsonValue, d: Seq<DocSym>)
    requires
        has_path(v, d),
    ensures
        d.len() <= depth(v),
    decreases v,
{
    if d.len() > 0 {
        match v {
            JsonValue::Array(items) => {
                let i = choose|i: int| 0 <= i < items@.len() && has_path(#[trigger] items@[i], d.drop_first());
                assert(decreases_to!(v => v->Array_0));
                lemma_path_within_depth(items@[i], d.drop_first());
                lemma_max_depth_items(items@, i);
            },
            JsonValue::Object(members) => {
                let i = choose|i: int| 0 <= i < members@.len() && edge_sym((#[trigger] members@[i]).0@) == d[0]
                    && has_path(members@[i].1, d.drop_first());
                assert(decreases_to!(v => v->Object_0));
                lemma_path_within_depth(members@[i].1, d.drop_first());
                lemma_max_depth_members(members@, i);
            },
            _ => {},
        }
    }
}

} // verus!
