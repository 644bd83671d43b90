//! What holds of the members of objects, in terms of where they stand.

use vstd::prelude::*;

use crate::json::{field, field_is, is_read_back, key_index, lemma_key_index, text_of};
use crate::json::{with_field, JsonTree, NumberView};

verus! {

/// The member `key` of an object is the first that has that key.
pub proof fn law_first_member_counts(
    before: Seq<(Seq<char>, JsonTree)>,
    key: Seq<char>,
    value: JsonTree,
    after: Seq<(Seq<char>, JsonTree)>,
)
    requires
        forall|i: int| 0 <= i < before.len() ==> (#[trigger] before[i]).0 != key,
    ensures
        field(JsonTree::Object(before + seq![(key, value)] + after), key) == Some(value),
        field(JsonTree::Object(before), key) is None,
{
    let members = before + seq![(key, value)] + after;
    lemma_key_index(members, key);
    lemma_key_index(before, key);
    assert(members[before.len() as int].0 == key);
    let i = key_index(members, key)->0;
    if i < before.len() {
        assert(before[i].0 == key);
    }
}

/// A new value takes the place of the value of the first member that has the key, and of nothing
/// else.
pub proof fn law_new_value_stands_in_its_place(
    before: Seq<(Seq<char>, JsonTree)>,
    key: Seq<char>,
    value: JsonTree,
    after: Seq<(Seq<char>, JsonTree)>,
    new: JsonTree,
)
    requires
        forall|i: int| 0 <= i < before.len() ==> (#[trigger] before[i]).0 != key,
    ensures
        with_field(JsonTree::Object(before + seq![(key, value)] + after), key, new)
            == JsonTree::Object(before + seq![(key, new)] + after),
        with_field(JsonTree::Object(before), key, new) == JsonTree::Object(before),
{
    law_first_member_counts(before, key, value, after);
    let members = before + seq![(key, value)] + after;
    lemma_key_index(members, key);
    lemma_key_index(before, key);
    let at = key_index(members, key)->0;
    assert(members[before.len() as int].0 == key);
    if at < before.len() {
        assert(before[at].0 == key);
    }
    assert(members.update(at, (members[at].0, new)) =~= before + seq![(key, new)] + after);
}

/// A value that is not an object has no members, and only a string has characters.
pub proof fn law_other_values_have_no_members(tree: JsonTree, key: Seq<char>, text: Seq<char>)
    ensures
        !(tree is Object) ==> field(tree, key) is None,
        text_of(JsonTree::String(text)) == Some(text),
        !(tree is String) ==> text_of(tree) is None,
        field_is(tree, key, text) == (field(tree, key) == Some(JsonTree::String(text))),
{
}

/// What is read back has the same strings, booleans, nulls and integers, and as many items and
/// members, in the same order and with the same keys.
pub proof fn law_read_back(tree: JsonTree, again: JsonTree)
    requires
        is_read_back(Some(again), tree),
    ensures
        match tree {
            JsonTree::Array(items) => again matches JsonTree::Array(others) && others.len()
                == items.len() && forall|i: int|
                0 <= i < items.len() ==> is_read_back(Some(others[i]), #[trigger] items[i]),
            JsonTree::Object(members) => again matches JsonTree::Object(others) && others.len()
                == members.len() && forall|i: int|
                0 <= i < members.len() ==> others[i].0 == (#[trigger] members[i]).0 && is_read_back(
                    Some(others[i].1),
                    members[i].1,
                ),
            JsonTree::Number(NumberView::Fraction(_)) => again matches JsonTree::Number(
                NumberView::Fraction(_),
            ),
            _ => again == tree,
        },
        !is_read_back(None, tree),
{
}

} // verus!
