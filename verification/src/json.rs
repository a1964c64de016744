//! The document tree that the aggregation section of a response is read from.

use crate::text::same;
use vstd::prelude::*;

verus! {

/// `serde_json::Number`, declared so that a tree can hold one. Nothing is said
/// of what is in a number: the library hands numbers on and never reads them.
#[verifier::external_type_specification]
#[verifier::external_body]
pub struct ExNumber(serde_json::Number);

/// A JSON value. The members of an object keep the order in which the
/// document yields them; where two have the same name, the first one is the
/// member of that name.
#[derive(Debug, PartialEq)]
pub enum Json {
    Null,
    Bool(bool),
    Number(serde_json::Number),
    Text(String),
    Array(Vec<Json>),
    Object(Vec<(String, Json)>),
}

/// Whether a value is a leaf of the tree: neither an array nor an object.
pub open spec fn scalar(value: Json) -> bool {
    !(value is Array) && !(value is Object)
}

/// The value of the first of `members` that is called `name`.
pub open spec fn find(members: Seq<(String, Json)>, name: Seq<char>) -> Option<Json>
    decreases members.len(),
{
    if members.len() == 0 {
        None
    } else {
        match find(members.drop_last(), name) {
            Some(value) => Some(value),
            None => if members.last().0@ == name {
                Some(members.last().1)
            } else {
                None
            },
        }
    }
}

/// The member `name` of an object; nothing for a value that is no object.
pub open spec fn member(value: Json, name: Seq<char>) -> Option<Json> {
    match value {
        Json::Object(members) => find(members@, name),
        _ => None,
    }
}

/// What is found among the first members is found among all of them.
pub proof fn lemma_find_extends(members: Seq<(String, Json)>, name: Seq<char>, n: int)
    requires
        0 <= n <= members.len(),
        find(members.take(n), name) is Some,
    ensures
        find(members, name) == find(members.take(n), name),
    decreases members.len() - n,
{
    if n < members.len() {
        assert(members.take(n + 1).drop_last() =~= members.take(n));
        lemma_find_extends(members, name, n + 1);
    } else {
        assert(members.take(n) =~= members);
    }
}

/// The number of nodes in a value, itself included.
pub open spec fn weight(value: Json) -> nat
    decreases value,
{
    match value {
        Json::Array(items) => 1 + weight_of_items(items@),
        Json::Object(members) => 1 + weight_of_members(members@),
        _ => 1,
    }
}

/// The number of nodes in a sequence of values.
pub open spec fn weight_of_items(items: Seq<Json>) -> nat
    decreases items,
{
    if items.len() == 0 {
        0
    } else {
        weight(items.last()) + weight_of_items(items.drop_last())
    }
}

/// The number of nodes in the values of the members of an object.
pub open spec fn weight_of_members(members: Seq<(String, Json)>) -> nat
    decreases members,
{
    if members.len() == 0 {
        0
    } else {
        weight(members.last().1) + weight_of_members(members.drop_last())
    }
}

/// The first of a sequence of values and the rest weigh what the sequence
/// weighs.
pub proof fn lemma_weight_of_first(items: Seq<Json>)
    requires
        items.len() > 0,
    ensures
        weight_of_items(items) == weight(items[0]) + weight_of_items(items.drop_first()),
    decreases items.len(),
{
    if items.len() == 1 {
        assert(items.drop_last() =~= items.drop_first());
    } else {
        lemma_weight_of_first(items.drop_last());
        assert(items.drop_last().drop_first() =~= items.drop_first().drop_last());
    }
}

/// A member that is found weighs no more than all the members.
pub proof fn lemma_weight_of_found(members: Seq<(String, Json)>, name: Seq<char>)
    requires
        find(members, name) is Some,
    ensures
        weight(find(members, name)->0) <= weight_of_members(members),
    decreases members.len(),
{
    if find(members.drop_last(), name) is Some {
        lemma_weight_of_found(members.drop_last(), name);
    }
}

impl Json {
    /// Whether the value is a leaf: null, a boolean, a number or a text.
    pub fn is_scalar(&self) -> (leaf: bool)
        ensures
            leaf == scalar(*self),
    {
        match self {
            Json::Array(_) => false,
            Json::Object(_) => false,
            _ => true,
        }
    }

    /// The items of an array.
    pub fn as_array(&self) -> (items: Option<&Vec<Json>>)
        ensures
            match items {
                Some(found) => *self == Json::Array(*found),
                None => !(*self is Array),
            },
    {
        match self {
            Json::Array(items) => Some(items),
            _ => None,
        }
    }

    /// The members of an object.
    pub fn as_object(&self) -> (members: Option<&Vec<(String, Json)>>)
        ensures
            match members {
                Some(found) => *self == Json::Object(*found),
                None => !(*self is Object),
            },
    {
        match self {
            Json::Object(members) => Some(members),
            _ => None,
        }
    }

    /// The member `name` of an object: the first one of that name.
    pub fn get(&self, name: &str) -> (value: Option<&Json>)
        ensures
            match value {
                Some(found) => member(*self, name@) == Some(*found),
                None => member(*self, name@) is None,
            },
    {
        match self {
            Json::Object(members) => lookup(members, name),
            _ => None,
        }
    }
}

/// The value of the first of `members` that is called `name`.
pub fn lookup<'a>(members: &'a Vec<(String, Json)>, name: &str) -> (value: Option<&'a Json>)
    ensures
        match value {
            Some(found) => find(members@, name@) == Some(*found),
            None => find(members@, name@) is None,
        },
{
    let mut i: usize = 0;
    while i < members.len()
        invariant
            i <= members@.len(),
            find(members@.take(i as int), name@) is None,
        decreases members@.len() - i,
    {
        assert(members@.take(i + 1).drop_last() =~= members@.take(i as int));
        if same(members[i].0.as_str(), name) {
            proof {
                lemma_find_extends(members@, name@, i + 1);
            }
            return Some(&members[i].1);
        }
        i += 1;
    }
    assert(members@.take(i as int) =~= members@);
    None
}

} // verus!
