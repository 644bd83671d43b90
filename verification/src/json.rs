//! JSON values, and the reading and writing of JSON text.

use vstd::prelude::*;
use vstd::utf8::encode_utf8;

use crate::encoding::{is_json_refusal, is_text_refusal, json_of_bytes, json_of_text, json_text};
use crate::encoding::{no_control_characters, number_view, parts_tree, value_from_parts};
use crate::encoding::{value_into_parts, value_tree, ValueParts};
use crate::text::{trimmed, without_cr};

verus! {

/// A JSON value. The members of an object are kept in the order in which they were read.
#[derive(Debug, PartialEq)]
pub enum Json {
    Null,
    Bool(bool),
    Number(serde_json::Number),
    String(String),
    Array(Vec<Json>),
    Object(Vec<(String, Json)>),
}

/// What a number is held as: an integer, or a fraction, which is not looked into.
pub enum NumberView {
    Integer(int),
    Fraction(serde_json::Number),
}

/// What a JSON value holds, over mathematical sequences.
#[verifier::ext_equal]
pub enum JsonTree {
    Null,
    Bool(bool),
    Number(NumberView),
    String(Seq<char>),
    Array(Seq<JsonTree>),
    Object(Seq<(Seq<char>, JsonTree)>),
}

impl View for Json {
    type V = JsonTree;

    open spec fn view(&self) -> JsonTree
        decreases self,
    {
        match self {
            Json::Null => JsonTree::Null,
            Json::Bool(b) => JsonTree::Bool(*b),
            Json::Number(n) => JsonTree::Number(number_view(*n)),
            Json::String(s) => JsonTree::String(s@),
            Json::Array(items) => JsonTree::Array(
                Seq::new(
                    items@.len(),
                    |i: int|
                        if 0 <= i < items@.len() {
                            items@[i].view()
                        } else {
                            JsonTree::Null
                        },
                ),
            ),
            Json::Object(members) => JsonTree::Object(
                Seq::new(
                    members@.len(),
                    |i: int|
                        if 0 <= i < members@.len() {
                            member_tree(members@[i])
                        } else {
                            (Seq::empty(), JsonTree::Null)
                        },
                ),
            ),
        }
    }
}

/// What the items of an array hold.
pub open spec fn item_trees(items: Seq<Json>) -> Seq<JsonTree> {
    items.map_values(|item: Json| item@)
}

/// What one member of an object holds.
pub open spec fn member_tree(member: (String, Json)) -> (Seq<char>, JsonTree)
    decreases member,
{
    (member.0@, member.1.view())
}

/// What the members of an object hold.
pub open spec fn member_trees(members: Seq<(String, Json)>) -> Seq<(Seq<char>, JsonTree)> {
    members.map_values(|member: (String, Json)| member_tree(member))
}

pub proof fn lemma_array_view(items: Vec<Json>)
    ensures
        Json::Array(items)@ == JsonTree::Array(item_trees(items@)),
{
    assert(Json::Array(items)@->Array_0 =~= item_trees(items@));
}

pub proof fn lemma_object_view(members: Vec<(String, Json)>)
    ensures
        Json::Object(members)@ == JsonTree::Object(member_trees(members@)),
{
    assert(Json::Object(members)@->Object_0 =~= member_trees(members@));
}

pub proof fn lemma_array_views()
    ensures
        forall|items: Vec<Json>|
            #[trigger] Json::Array(items)@ == JsonTree::Array(item_trees(items@)),
{
    assert forall|items: Vec<Json>|
        #[trigger] Json::Array(items)@ == JsonTree::Array(item_trees(items@)) by {
        lemma_array_view(items);
    }
}

proof fn lemma_object_views()
    ensures
        forall|members: Vec<(String, Json)>|
            #[trigger] Json::Object(members)@ == JsonTree::Object(member_trees(members@)),
{
    assert forall|members: Vec<(String, Json)>|
        #[trigger] Json::Object(members)@ == JsonTree::Object(member_trees(members@)) by {
        lemma_object_view(members);
    }
}

proof fn lemma_member_updates(members: Seq<(String, Json)>, i: int)
    requires
        0 <= i < members.len(),
    ensures
        forall|value: Json|
            member_trees(#[trigger] members.update(i, (members[i].0, value))) == member_trees(
                members,
            ).update(i, (members[i].0@, value@)),
{
    assert forall|value: Json|
        member_trees(#[trigger] members.update(i, (members[i].0, value))) == member_trees(
            members,
        ).update(i, (members[i].0@, value@)) by {
        assert(member_trees(members.update(i, (members[i].0, value))) =~= member_trees(
            members,
        ).update(i, (members[i].0@, value@)));
    }
}

/// No object in `tree` has two members with the same key.
pub open spec fn distinct_keys(tree: JsonTree) -> bool
    decreases tree,
{
    match tree {
        JsonTree::Array(items) => forall|i: int|
            0 <= i < items.len() ==> distinct_keys(#[trigger] items[i]),
        JsonTree::Object(members) => {
            &&& unique_keys(members)
            &&& forall|i: int|
                0 <= i < members.len() ==> distinct_keys((#[trigger] members[i]).1)
        },
        _ => true,
    }
}

/// `b` is `a`, except that a fraction may be another fraction.
pub open spec fn same_but_fractions(a: JsonTree, b: JsonTree) -> bool
    decreases a,
{
    match (a, b) {
        (
            JsonTree::Number(NumberView::Fraction(_)),
            JsonTree::Number(NumberView::Fraction(_)),
        ) => true,
        (JsonTree::Array(items), JsonTree::Array(others)) => {
            &&& items.len() == others.len()
            &&& forall|i: int|
                0 <= i < items.len() ==> same_but_fractions(#[trigger] items[i], others[i])
        },
        (JsonTree::Object(members), JsonTree::Object(others)) => {
            &&& members.len() == others.len()
            &&& forall|i: int|
                0 <= i < members.len() ==> (#[trigger] members[i]).0 == others[i].0
                    && same_but_fractions(members[i].1, others[i].1)
        },
        _ => a == b,
    }
}

/// What was read is `tree`, but for the fractions in it.
pub open spec fn is_read_back(read: Option<JsonTree>, tree: JsonTree) -> bool {
    read matches Some(again) && same_but_fractions(tree, again)
}

pub proof fn lemma_same_reflexive(a: JsonTree)
    ensures
        same_but_fractions(a, a),
    decreases a,
{
    match a {
        JsonTree::Array(items) => {
            assert forall|i: int| 0 <= i < items.len() implies same_but_fractions(
                #[trigger] items[i],
                items[i],
            ) by {
                lemma_same_reflexive(items[i]);
            }
        },
        JsonTree::Object(members) => {
            assert forall|i: int| 0 <= i < members.len() implies same_but_fractions(
                (#[trigger] members[i]).1,
                members[i].1,
            ) by {
                lemma_same_reflexive(members[i].1);
            }
        },
        _ => {},
    }
}

/// No number in `tree` is a fraction.
pub open spec fn is_exact(tree: JsonTree) -> bool
    decreases tree,
{
    match tree {
        JsonTree::Number(number) => number is Integer,
        JsonTree::Array(items) => forall|i: int|
            0 <= i < items.len() ==> is_exact(#[trigger] items[i]),
        JsonTree::Object(members) => forall|i: int|
            0 <= i < members.len() ==> is_exact((#[trigger] members[i]).1),
        _ => true,
    }
}

/// Every string and every key in `tree` occurs in `text`.
pub open spec fn strings_occur(tree: JsonTree, text: Seq<char>) -> bool
    decreases tree,
{
    match tree {
        JsonTree::String(s) => crate::text::has_run(text, s),
        JsonTree::Array(items) => forall|i: int|
            0 <= i < items.len() ==> strings_occur(#[trigger] items[i], text),
        JsonTree::Object(members) => forall|i: int|
            0 <= i < members.len() ==> crate::text::has_run(text, (#[trigger] members[i]).0)
                && strings_occur(members[i].1, text),
        _ => true,
    }
}

/// Arrays and objects nest in `tree` at most `levels` deep.
pub open spec fn nests_within(tree: JsonTree, levels: nat) -> bool
    decreases tree,
{
    match tree {
        JsonTree::Array(items) => levels > 0 && forall|i: int|
            0 <= i < items.len() ==> nests_within(#[trigger] items[i], (levels - 1) as nat),
        JsonTree::Object(members) => levels > 0 && forall|i: int|
            0 <= i < members.len() ==> nests_within(
                (#[trigger] members[i]).1,
                (levels - 1) as nat,
            ),
        _ => true,
    }
}

/// No two members have the same key.
pub open spec fn unique_keys(members: Seq<(Seq<char>, JsonTree)>) -> bool {
    forall|i: int, j: int|
        0 <= i < j < members.len() ==> (#[trigger] members[i]).0 != (#[trigger] members[j]).0
}

/// The index of the first member with the key `key`.
pub open spec fn key_index(members: Seq<(Seq<char>, JsonTree)>, key: Seq<char>) -> Option<int>
    decreases members.len(),
{
    if members.len() == 0 {
        None
    } else if members[0].0 == key {
        Some(0)
    } else {
        match key_index(members.drop_first(), key) {
            Some(i) => Some(i + 1),
            None => None,
        }
    }
}

pub proof fn lemma_key_index(members: Seq<(Seq<char>, JsonTree)>, key: Seq<char>)
    ensures
        match key_index(members, key) {
            Some(i) => 0 <= i < members.len() && members[i].0 == key && forall|j: int|
                0 <= j < i ==> (#[trigger] members[j]).0 != key,
            None => forall|j: int| 0 <= j < members.len() ==> (#[trigger] members[j]).0 != key,
        },
    decreases members.len(),
{
    if members.len() > 0 && members[0].0 != key {
        let rest = members.drop_first();
        lemma_key_index(rest, key);
        let end = match key_index(rest, key) {
            Some(i) => i,
            None => rest.len() as int,
        };
        assert forall|j: int| 0 <= j < end + 1 implies (#[trigger] members[j]).0 != key by {
            if j > 0 {
                assert(rest[j - 1] == members[j]);
            }
        }
    }
}

/// The value of the member `key` of an object. A value of another kind has no members.
pub open spec fn field(tree: JsonTree, key: Seq<char>) -> Option<JsonTree> {
    match tree {
        JsonTree::Object(members) => match key_index(members, key) {
            Some(i) => Some(members[i].1),
            None => None,
        },
        _ => None,
    }
}

/// `tree` with `value` in the place of the value of its member `key`.
pub open spec fn with_field(tree: JsonTree, key: Seq<char>, value: JsonTree) -> JsonTree {
    match tree {
        JsonTree::Object(members) => match key_index(members, key) {
            Some(i) => JsonTree::Object(members.update(i, (members[i].0, value))),
            None => tree,
        },
        _ => tree,
    }
}

/// A member that is replaced by itself leaves the object as it is.
pub proof fn lemma_same_field(tree: JsonTree, key: Seq<char>)
    ensures
        field(tree, key) matches Some(value) ==> with_field(tree, key, value) == tree,
{
    if let JsonTree::Object(members) = tree {
        lemma_key_index(members, key);
        if let Some(i) = key_index(members, key) {
            assert(members.update(i, (members[i].0, members[i].1)) =~= members);
        }
    }
}

proof fn lemma_key_index_update(
    members: Seq<(Seq<char>, JsonTree)>,
    i: int,
    value: JsonTree,
    key: Seq<char>,
)
    requires
        0 <= i < members.len(),
    ensures
        key_index(members.update(i, (members[i].0, value)), key) == key_index(members, key),
    decreases members.len(),
{
    let updated = members.update(i, (members[i].0, value));
    if i == 0 {
        assert(updated.drop_first() =~= members.drop_first());
    } else {
        let rest = members.drop_first();
        lemma_key_index_update(rest, i - 1, value, key);
        assert(updated.drop_first() =~= rest.update(i - 1, (rest[i - 1].0, value)));
    }
}

/// A new value is found where it was put, and takes nothing else away.
pub proof fn lemma_with_field(tree: JsonTree, key: Seq<char>, value: JsonTree, other: Seq<char>)
    requires
        field(tree, key) is Some,
    ensures
        field(with_field(tree, key, value), other) == if other == key {
            Some(value)
        } else {
            field(tree, other)
        },
{
    let members = tree->Object_0;
    lemma_key_index(members, key);
    lemma_key_index(members, other);
    let at = key_index(members, key)->0;
    lemma_key_index_update(members, at, value, other);
}

/// The last of two new values stays.
pub proof fn lemma_with_field_twice(tree: JsonTree, key: Seq<char>, a: JsonTree, b: JsonTree)
    ensures
        with_field(with_field(tree, key, a), key, b) == with_field(tree, key, b),
{
    if let JsonTree::Object(members) = tree {
        lemma_key_index(members, key);
        if let Some(at) = key_index(members, key) {
            lemma_key_index_update(members, at, a, key);
            let once = members.update(at, (members[at].0, a));
            assert(once.update(at, (once[at].0, b)) =~= members.update(at, (members[at].0, b)));
        }
    }
}

/// The members of an object with distinct keys have distinct keys.
pub proof fn lemma_field_keys(tree: JsonTree, key: Seq<char>)
    requires
        distinct_keys(tree),
    ensures
        field(tree, key) matches Some(value) ==> distinct_keys(value),
{
    if let JsonTree::Object(members) = tree {
        lemma_key_index(members, key);
        if let Some(i) = key_index(members, key) {
            assert(distinct_keys(members[i].1));
        }
    }
}

/// A new value with distinct keys leaves the keys of an object distinct.
pub proof fn lemma_with_field_keys(tree: JsonTree, key: Seq<char>, value: JsonTree)
    requires
        distinct_keys(tree),
        distinct_keys(value),
    ensures
        distinct_keys(with_field(tree, key, value)),
{
    if let JsonTree::Object(members) = tree {
        lemma_key_index(members, key);
        if let Some(at) = key_index(members, key) {
            let updated = members.update(at, (members[at].0, value));
            assert forall|i: int| 0 <= i < updated.len() implies distinct_keys(
                (#[trigger] updated[i]).1,
            ) by {
                assert(distinct_keys(members[i].1));
            }
            assert forall|i: int, j: int| 0 <= i < j < updated.len() implies (
            #[trigger] updated[i]).0 != (#[trigger] updated[j]).0 by {
                assert(members[i].0 != members[j].0);
            }
            assert(unique_keys(updated));
        }
    }
}

/// The members of a value nest less deep than the value.
pub proof fn lemma_field_nests(tree: JsonTree, key: Seq<char>, levels: nat)
    requires
        nests_within(tree, levels),
    ensures
        field(tree, key) matches Some(value) ==> levels > 0 && nests_within(
            value,
            (levels - 1) as nat,
        ),
{
    if let JsonTree::Object(members) = tree {
        lemma_key_index(members, key);
        if let Some(i) = key_index(members, key) {
            assert(nests_within(members[i].1, (levels - 1) as nat));
        }
    }
}

/// A new value that nests no deeper than a member may leaves an object nesting no deeper.
pub proof fn lemma_with_field_nests(tree: JsonTree, key: Seq<char>, value: JsonTree, levels: nat)
    requires
        nests_within(tree, levels),
        levels > 0 ==> nests_within(value, (levels - 1) as nat),
    ensures
        nests_within(with_field(tree, key, value), levels),
{
    if let JsonTree::Object(members) = tree {
        lemma_key_index(members, key);
        if let Some(at) = key_index(members, key) {
            let updated = members.update(at, (members[at].0, value));
            assert forall|i: int| 0 <= i < updated.len() implies nests_within(
                (#[trigger] updated[i]).1,
                (levels - 1) as nat,
            ) by {
                assert(nests_within(members[i].1, (levels - 1) as nat));
            }
        }
    }
}

/// The characters of a string value.
pub open spec fn text_of(tree: JsonTree) -> Option<Seq<char>> {
    match tree {
        JsonTree::String(s) => Some(s),
        _ => None,
    }
}

/// The member `key` of an object is the string `text`.
pub open spec fn field_is(tree: JsonTree, key: Seq<char>, text: Seq<char>) -> bool {
    field(tree, key) == Some(JsonTree::String(text))
}

impl Json {
    /// The index of the member `key` of an object.
    fn index_of(members: &Vec<(String, Json)>, key: &str) -> (res: Option<usize>)
        ensures
            match res {
                Some(i) => key_index(member_trees(members@), key@) == Some(i as int),
                None => key_index(member_trees(members@), key@) is None,
            },
    {
        let ghost trees = member_trees(members@);
        proof {
            lemma_key_index(trees, key@);
        }
        let mut i: usize = 0;
        while i < members.len()
            invariant
                i <= members@.len(),
                trees == member_trees(members@),
                forall|j: int| 0 <= j < i ==> (#[trigger] trees[j]).0 != key@,
            decreases members@.len() - i,
        {
            assert(trees[i as int].0 == members@[i as int].0@);
            if crate::text::equal(members[i].0.as_str(), key) {
                proof {
                    lemma_key_index(trees, key@);
                }
                return Some(i);
            }
            i += 1;
        }
        None
    }

    /// The value of the member `key`, if this is an object that has it.
    pub fn get(&self, key: &str) -> (res: Option<&Json>)
        ensures
            match res {
                Some(value) => field(self@, key@) == Some(value@),
                None => field(self@, key@) is None,
            },
    {
        match self {
            Json::Object(members) => {
                proof {
                    lemma_object_view(*members);
                    lemma_key_index(member_trees(members@), key@);
                }
                match Json::index_of(members, key) {
                    Some(i) => Some(&members[i].1),
                    None => None,
                }
            },
            _ => None,
        }
    }

    /// The value of the member `key`, to be changed in place.
    pub fn get_mut(&mut self, key: &str) -> (res: Option<&mut Json>)
        ensures
            match res {
                Some(value) => {
                    &&& field(old(self)@, key@) == Some(value@)
                    &&& final(self)@ == with_field(old(self)@, key@, final(value)@)
                },
                None => field(old(self)@, key@) is None && *final(self) == *old(self),
            },
    {
        match self {
            Json::Object(members) => {
                proof {
                    lemma_object_view(*members);
                    lemma_key_index(member_trees(members@), key@);
                }
                match Json::index_of(members, key) {
                    Some(i) => {
                        proof {
                            lemma_object_views();
                            lemma_member_updates(members@, i as int);
                        }
                        Some(&mut members[i].1)
                    },
                    None => None,
                }
            },
            _ => None,
        }
    }

    /// The characters of a string.
    pub fn as_str(&self) -> (res: Option<&str>)
        ensures
            match res {
                Some(text) => text_of(self@) == Some(text@),
                None => text_of(self@) is None,
            },
    {
        match self {
            Json::String(text) => Some(text.as_str()),
            _ => None,
        }
    }
}

/// The value that a value of `serde_json` holds.
fn json_from_value(value: serde_json::Value) -> (res: Json)
    ensures
        res@ == value_tree(value),
    decreases value_tree(value),
{
    let ghost tree = value_tree(value);
    match value_into_parts(value) {
        ValueParts::Null => Json::Null,
        ValueParts::Bool(b) => Json::Bool(b),
        ValueParts::Number(n) => Json::Number(n),
        ValueParts::String(s) => Json::String(s),
        ValueParts::Array(values) => {
            let mut items: Vec<Json> = Vec::new();
            for item in it: values
                invariant
                    tree == value_tree(value),
                    tree == parts_tree(ValueParts::Array(values)),
                    it.seq() == values@,
                    items@.len() == it.index(),
                    forall|i: int|
                        0 <= i < it.index() ==> (#[trigger] items@[i])@ == value_tree(values@[i]),
            {
                assert(tree->Array_0[it.index()] == value_tree(item));
                items.push(json_from_value(item));
            }
            proof {
                lemma_array_view(items);
                assert(item_trees(items@) =~= tree->Array_0);
            }
            Json::Array(items)
        },
        ValueParts::Object(values) => {
            let mut members: Vec<(String, Json)> = Vec::new();
            for member in it: values
                invariant
                    tree == value_tree(value),
                    tree == parts_tree(ValueParts::Object(values)),
                    it.seq() == values@,
                    members@.len() == it.index(),
                    forall|i: int|
                        0 <= i < it.index() ==> member_tree(#[trigger] members@[i]) == (
                            values@[i].0@,
                            value_tree(values@[i].1),
                        ),
            {
                assert(tree->Object_0[it.index()] == (member.0@, value_tree(member.1)));
                let (key, inner) = member;
                assert(decreases_to!(tree => tree->Object_0[it.index()].1));
                members.push((key, json_from_value(inner)));
            }
            proof {
                lemma_object_view(members);
                assert(member_trees(members@) =~= tree->Object_0);
            }
            Json::Object(members)
        },
    }
}

/// The value of `serde_json` that holds what `json` holds.
fn json_into_value(json: Json) -> (res: serde_json::Value)
    requires
        distinct_keys(json@),
    ensures
        value_tree(res) == json@,
    decreases json@,
{
    let ghost tree = json@;
    match json {
        Json::Null => value_from_parts(ValueParts::Null),
        Json::Bool(b) => value_from_parts(ValueParts::Bool(b)),
        Json::Number(n) => value_from_parts(ValueParts::Number(n)),
        Json::String(s) => value_from_parts(ValueParts::String(s)),
        Json::Array(items) => {
            proof {
                lemma_array_view(items);
            }
            let mut values: Vec<serde_json::Value> = Vec::new();
            for item in it: items
                invariant
                    tree == json@,
                    tree == JsonTree::Array(item_trees(items@)),
                    distinct_keys(tree),
                    it.seq() == items@,
                    values@.len() == it.index(),
                    forall|i: int|
                        0 <= i < it.index() ==> value_tree(#[trigger] values@[i]) == items@[i]@,
            {
                assert(tree->Array_0[it.index()] == item@);
                values.push(json_into_value(item));
            }
            let parts = ValueParts::Array(values);
            assert(parts_tree(parts)->Array_0 =~= tree->Array_0);
            value_from_parts(parts)
        },
        Json::Object(members) => {
            proof {
                lemma_object_view(members);
            }
            let mut values: Vec<(String, serde_json::Value)> = Vec::new();
            for member in it: members
                invariant
                    tree == json@,
                    tree == JsonTree::Object(member_trees(members@)),
                    distinct_keys(tree),
                    it.seq() == members@,
                    values@.len() == it.index(),
                    forall|i: int|
                        0 <= i < it.index() ==> member_tree(members@[i]) == (
                            (#[trigger] values@[i]).0@,
                            value_tree(values@[i].1),
                        ),
            {
                assert(tree->Object_0[it.index()] == member_tree(member));
                let (key, inner) = member;
                values.push((key, json_into_value(inner)));
            }
            let parts = ValueParts::Object(values);
            assert(parts_tree(parts)->Object_0 =~= tree->Object_0);
            value_from_parts(parts)
        },
    }
}

/// The text is not JSON.
#[derive(Debug)]
pub struct SyntaxError {
    /// What is wrong with it.
    pub cause: serde_json::Error,
}

impl Json {
    /// Reads JSON bytes.
    pub fn from_slice(bytes: &[u8]) -> (res: Result<Json, SyntaxError>)
        ensures
            match res {
                Ok(json) => json_of_bytes(bytes@) == Some(json@) && distinct_keys(json@)
                    && nests_within(json@, 127),
                Err(error) => json_of_bytes(bytes@) is None && is_json_refusal(
                    error.cause,
                    bytes@,
                ),
            },
    {
        match crate::encoding::from_slice(bytes) {
            Ok(value) => Ok(json_from_value(value)),
            Err(cause) => Err(SyntaxError { cause }),
        }
    }

    /// Reads JSON text. Where there are no escapes in it, the strings of the value occur in it as
    /// they are. A text that is refused is refused too without the carriage return that it ends
    /// with.
    pub fn from_str(text: &str) -> (res: Result<Json, SyntaxError>)
        ensures
            match res {
                Ok(json) => {
                    &&& json_of_text(text@) == Some(json@)
                    &&& distinct_keys(json@)
                    &&& nests_within(json@, 127)
                    &&& !text@.contains('\\') ==> strings_occur(json@, text@)
                },
                Err(error) => {
                    &&& json_of_text(text@) is None
                    &&& json_of_text(without_cr(text@)) is None
                    &&& is_text_refusal(error.cause, text@)
                },
            },
    {
        match crate::encoding::from_str(text) {
            Ok(value) => Ok(json_from_value(value)),
            Err(cause) => Err(SyntaxError { cause }),
        }
    }

    /// Writes the value as JSON bytes. They are read back to the same value, but for its fractions,
    /// if that nests no deeper than what can be read.
    pub fn into_vec(self) -> (res: Vec<u8>)
        requires
            distinct_keys(self@),
        ensures
            res@ == encode_utf8(json_text(self@)),
            nests_within(self@, 127) ==> is_read_back(json_of_bytes(res@), self@),
    {
        crate::encoding::to_vec(&json_into_value(self)).unwrap()
    }

    /// Writes the value as JSON text. It is read back as the bytes are, and is not `[DONE]`, which
    /// is no JSON.
    pub fn into_string(self) -> (res: String)
        requires
            distinct_keys(self@),
        ensures
            res@ == json_text(self@),
            no_control_characters(res@),
            nests_within(self@, 127) ==> is_read_back(json_of_text(res@), self@),
            trimmed(res@) != "[DONE]"@,
    {
        crate::encoding::to_string(&json_into_value(self)).unwrap()
    }

    /// A copy of the value.
    pub fn duplicate(&self) -> (res: Json)
        ensures
            res@ == self@,
        decreases self@,
    {
        match self {
            Json::Null => Json::Null,
            Json::Bool(b) => Json::Bool(*b),
            Json::Number(n) => Json::Number(n.clone()),
            Json::String(s) => Json::String(s.clone()),
            Json::Array(items) => {
                proof {
                    lemma_array_view(*items);
                }
                let mut copies: Vec<Json> = Vec::new();
                for i in 0..items.len()
                    invariant
                        self@ == JsonTree::Array(item_trees(items@)),
                        copies@.len() == i,
                        forall|j: int| 0 <= j < i ==> (#[trigger] copies@[j])@ == items@[j]@,
                {
                    assert(self@->Array_0[i as int] == items@[i as int]@);
                    copies.push(items[i].duplicate());
                }
                proof {
                    lemma_array_view(copies);
                    assert(item_trees(copies@) =~= item_trees(items@));
                }
                Json::Array(copies)
            },
            Json::Object(members) => {
                proof {
                    lemma_object_view(*members);
                }
                let mut copies: Vec<(String, Json)> = Vec::new();
                for i in 0..members.len()
                    invariant
                        self@ == JsonTree::Object(member_trees(members@)),
                        copies@.len() == i,
                        forall|j: int|
                            0 <= j < i ==> member_tree(#[trigger] copies@[j]) == member_tree(
                                members@[j],
                            ),
                {
                    assert(self@->Object_0[i as int] == member_tree(members@[i as int]));
                    assert(decreases_to!(self@ => self@->Object_0[i as int].1));
                    copies.push((members[i].0.clone(), members[i].1.duplicate()));
                }
                proof {
                    lemma_object_view(copies);
                    assert(member_trees(copies@) =~= member_trees(members@));
                }
                Json::Object(copies)
            },
        }
    }
}

} // verus!
