//! The places in a value where a walk changes strings.

use vstd::prelude::*;

use crate::json::{field, field_is, key_index, lemma_key_index, JsonTree};
use crate::walk::{apply_rule, apply_rules_from, fresh, image_in, items_size, lemma_rules_keep_size};
use crate::walk::{members_size, rule_carrier, rule_path, rule_text, rule_type, stamp_items};
use crate::walk::{stamp_members, stamp_tree, text_at, tree_size, visit_text, with_text_at};
use crate::walk::{Carrier, Rule, Tally};

verus! {

/// A place that a rule picks: the keys that lead to it, and how the string there carries an image.
pub struct Place {
    pub path: Seq<Seq<char>>,
    pub carrier: Carrier,
}

/// The places that the rules pick in an object.
pub open spec fn picked_in(tree: JsonTree) -> Set<Place> {
    Set::new(
        |place: Place|
            exists|rule: Rule|
                (#[trigger] rule_text(rule, tree)) is Some && place.path == rule_path(rule)
                    && place.carrier == rule_carrier(rule),
    )
}

/// The places of an object that are inside of its member `key`.
pub open spec fn places_inside(places: Set<Place>, key: Seq<char>) -> Set<Place> {
    Set::new(
        |place: Place|
            places.contains(Place { path: seq![key] + place.path, carrier: place.carrier }),
    )
}

/// The string `text` is at one of the places, and carries an image as it should there.
pub open spec fn is_picked(text: Seq<char>, places: Set<Place>) -> bool {
    exists|carrier: Carrier|
        places.contains(Place { path: Seq::empty(), carrier }) && (#[trigger] image_in(
            carrier,
            text,
        )) is Some
}

/// `b` is `a`, except for strings with an image that are at one of the places, or that a rule picks
/// out of an object in `a`, or that start like the data URI of an image. Kinds, keys, order,
/// lengths, numbers and all other strings are the same.
pub open spec fn differ_in_places(a: JsonTree, b: JsonTree, places: Set<Place>) -> bool
    decreases a,
{
    match (a, b) {
        (JsonTree::String(text), JsonTree::String(other)) => {
            ||| text == other
            ||| is_picked(text, places)
            ||| "data:image/"@.is_prefix_of(text) && image_in(Carrier::DataUri, text) is Some
        },
        (JsonTree::Array(items), JsonTree::Array(others)) => {
            &&& items.len() == others.len()
            &&& forall|i: int|
                0 <= i < items.len() ==> differ_in_places(
                    #[trigger] items[i],
                    others[i],
                    Set::empty(),
                )
        },
        (JsonTree::Object(members), JsonTree::Object(others)) => {
            &&& members.len() == others.len()
            &&& forall|i: int|
                0 <= i < members.len() ==> (#[trigger] members[i]).0 == others[i].0
                    && differ_in_places(
                    members[i].1,
                    others[i].1,
                    places_inside(places.union(picked_in(a)), members[i].0),
                )
        },
        _ => a == b,
    }
}

/// `b` is `a`, except for strings with an image that are at one of the places.
spec fn replaced_at(a: JsonTree, b: JsonTree, places: Set<Place>) -> bool
    decreases a,
{
    match (a, b) {
        (JsonTree::String(text), JsonTree::String(other)) => {
            ||| text == other
            ||| is_picked(text, places)
        },
        (JsonTree::Object(members), JsonTree::Object(others)) => {
            &&& members.len() == others.len()
            &&& forall|i: int|
                0 <= i < members.len() ==> (#[trigger] members[i]).0 == others[i].0
                    && replaced_at(
                    members[i].1,
                    others[i].1,
                    places_inside(places, members[i].0),
                )
        },
        _ => a == b,
    }
}

/// None of the places is at, or inside of, a member `type`.
spec fn leave_types(places: Set<Place>) -> bool {
    forall|place: Place| #[trigger] places.contains(place) ==> !place.path.contains("type"@)
}

proof fn lemma_replaced_nowhere(a: JsonTree, b: JsonTree, places: Set<Place>)
    requires
        replaced_at(a, b, places),
        forall|place: Place| !(#[trigger] places.contains(place)),
    ensures
        a == b,
    decreases a,
{
    if let (JsonTree::Object(x), JsonTree::Object(y)) = (a, b) {
        assert forall|i: int| 0 <= i < x.len() implies #[trigger] x[i] == y[i] by {
            lemma_replaced_nowhere(x[i].1, y[i].1, places_inside(places, x[i].0));
        }
        assert(x =~= y);
    }
}

proof fn lemma_replaced_same(a: JsonTree, places: Set<Place>)
    ensures
        replaced_at(a, a, places),
    decreases a,
{
    if let JsonTree::Object(x) = a {
        assert forall|i: int| 0 <= i < x.len() implies replaced_at(
            (#[trigger] x[i]).1,
            x[i].1,
            places_inside(places, x[i].0),
        ) by {
            lemma_replaced_same(x[i].1, places_inside(places, x[i].0));
        }
    }
}

proof fn lemma_more_places(a: JsonTree, b: JsonTree, places: Set<Place>, more: Set<Place>)
    requires
        replaced_at(a, b, places),
        places.subset_of(more),
    ensures
        replaced_at(a, b, more),
    decreases a,
{
    match (a, b) {
        (JsonTree::String(text), JsonTree::String(other)) => {
            if text != other {
                let carrier = choose|carrier: Carrier|
                    places.contains(Place { path: Seq::empty(), carrier }) && (
                    #[trigger] image_in(carrier, text)) is Some;
                assert(more.contains(Place { path: Seq::empty(), carrier }));
            }
        },
        (JsonTree::Object(x), JsonTree::Object(y)) => {
            assert forall|i: int| 0 <= i < x.len() implies (#[trigger] x[i]).0 == y[i].0
                && replaced_at(x[i].1, y[i].1, places_inside(more, x[i].0)) by {
                let inside = places_inside(places, x[i].0);
                assert(inside.subset_of(places_inside(more, x[i].0)));
                lemma_more_places(x[i].1, y[i].1, inside, places_inside(more, x[i].0));
            }
        },
        _ => {},
    }
}

/// One more string with an image is replaced at one of the places.
proof fn lemma_put(
    a: JsonTree,
    b: JsonTree,
    places: Set<Place>,
    path: Seq<Seq<char>>,
    carrier: Carrier,
    text: Seq<char>,
)
    requires
        replaced_at(a, b, places),
        text_at(b, path) matches Some(found) && (text_at(a, path) == Some(found) ==> (
        places.contains(Place { path, carrier }) && image_in(carrier, found) is Some)),
    ensures
        replaced_at(a, with_text_at(b, path, text), places),
    decreases path.len(),
{
    if path.len() == 0 {
        let found = text_at(b, path)->0;
        if text_at(a, path) == Some(found) {
            assert(path =~= Seq::empty());
            assert(is_picked(found, places));
        }
    } else {
        let key = path[0];
        let rest = path.drop_first();
        let x = a->Object_0;
        let y = b->Object_0;
        lemma_key_index(y, key);
        let at = key_index(y, key)->0;
        assert(a is Object);
        crate::signer::lemma_same_key_index(x, y, key);
        assert(x[at].0 == y[at].0);
        let inside = places_inside(places, key);
        assert(seq![key] + rest =~= path);
        lemma_put(x[at].1, y[at].1, inside, rest, carrier, text);
        let updated = y.update(at, (y[at].0, with_text_at(y[at].1, rest, text)));
        assert forall|i: int| 0 <= i < x.len() implies (#[trigger] x[i]).0 == updated[i].0
            && replaced_at(x[i].1, updated[i].1, places_inside(places, x[i].0)) by {
            assert(x[i].0 == y[i].0);
        }
    }
}

/// A rule replaces strings at the places that the rules pick.
proof fn lemma_rule_replaces(
    rule: Rule,
    a: JsonTree,
    b: JsonTree,
    places: Set<Place>,
    replies: Seq<Option<Seq<u8>>>,
    tally: Tally,
)
    requires
        replaced_at(a, b, places),
        b is Object,
        picked_in(a).subset_of(places),
        leave_types(places),
    ensures
        replaced_at(a, apply_rule(rule, b, replies, tally).0, places),
        apply_rule(rule, b, replies, tally).0 is Object,
{
    if let Some(found) = rule_text(rule, b) {
        let path = rule_path(rule);
        let carrier = rule_carrier(rule);
        let (text, _) = visit_text(carrier, found, replies, tally);
        crate::walk::lemma_with_text_keeps_size(b, path, text);
        if image_in(carrier, found) is None {
            crate::walk::lemma_same_text(b, path);
        } else {
            if text_at(a, path) == Some(found) {
                if let Some(name) = rule_type(rule) {
                    lemma_type_is_kept(a, b, places);
                    assert(field_is(a, "type"@, name));
                }
                assert(rule_text(rule, a) == Some(found));
                assert(picked_in(a).contains(Place { path, carrier }));
            }
            lemma_put(a, b, places, path, carrier, text);
        }
    }
}

proof fn lemma_type_is_kept(a: JsonTree, b: JsonTree, places: Set<Place>)
    requires
        replaced_at(a, b, places),
        b is Object,
        leave_types(places),
    ensures
        field(a, "type"@) == field(b, "type"@),
{
    let x = a->Object_0;
    let y = b->Object_0;
    crate::signer::lemma_same_key_index(x, y, "type"@);
    lemma_key_index(x, "type"@);
    if let Some(i) = key_index(x, "type"@) {
        let inside = places_inside(places, "type"@);
        assert forall|place: Place| !(#[trigger] inside.contains(place)) by {
            let path = seq!["type"@] + place.path;
            assert(path[0] == "type"@);
            assert(!places.contains(Place { path, carrier: place.carrier }));
        }
        assert(x[i].0 == y[i].0);
        lemma_replaced_nowhere(x[i].1, y[i].1, inside);
    }
}

proof fn lemma_rules_replace(
    rule: Rule,
    a: JsonTree,
    b: JsonTree,
    places: Set<Place>,
    replies: Seq<Option<Seq<u8>>>,
    tally: Tally,
)
    requires
        replaced_at(a, b, places),
        b is Object,
        picked_in(a).subset_of(places),
        leave_types(places),
    ensures
        replaced_at(a, apply_rules_from(rule, b, replies, tally).0, places),
    decreases
            (match rule {
                Rule::ImageFile => 2nat,
                Rule::ImageUrl => 1nat,
                Rule::B64Json => 0nat,
            }),
{
    lemma_rule_replaces(rule, a, b, places, replies, tally);
    let (ruled, after) = apply_rule(rule, b, replies, tally);
    match rule {
        Rule::ImageFile => lemma_rules_replace(Rule::ImageUrl, a, ruled, places, replies, after),
        Rule::ImageUrl => lemma_rules_replace(Rule::B64Json, a, ruled, places, replies, after),
        Rule::B64Json => {},
    }
}

/// The rules pick no member `type`.
proof fn lemma_rules_leave_types(tree: JsonTree)
    ensures
        leave_types(picked_in(tree)),
{
    crate::signer::lemma_names();
    reveal_strlit("type");
    reveal_strlit("data");
    reveal_strlit("url");
    assert("type"@[0] != "data"@[0]);
    assert("type"@.len() != "url"@.len());
    assert forall|rule: Rule| !(#[trigger] rule_path(rule)).contains("type"@) by {
        let path = rule_path(rule);
        if path.contains("type"@) {
            let i = choose|i: int| 0 <= i < path.len() && path[i] == "type"@;
            assert(i == 0 || i == 1);
        }
    }
}

proof fn lemma_inside_leaves_types(places: Set<Place>, key: Seq<char>)
    requires
        leave_types(places),
    ensures
        leave_types(places_inside(places, key)),
{
    let inside = places_inside(places, key);
    assert forall|place: Place| #[trigger] inside.contains(place) implies !place.path.contains(
        "type"@,
    ) by {
        let path = seq![key] + place.path;
        assert(places.contains(Place { path, carrier: place.carrier }));
        if place.path.contains("type"@) {
            let i = choose|i: int| 0 <= i < place.path.len() && place.path[i] == "type"@;
            assert(path[i + 1] == "type"@);
        }
    }
}

/// What a walk makes of a value in which strings were replaced at some places.
proof fn lemma_stamp_places(
    a: JsonTree,
    b: JsonTree,
    places: Set<Place>,
    replies: Seq<Option<Seq<u8>>>,
    tally: Tally,
)
    requires
        replaced_at(a, b, places),
        leave_types(places),
    ensures
        differ_in_places(a, stamp_tree(b, replies, tally).0, places),
    decreases tree_size(b),
{
    match b {
        JsonTree::Object(_) => {
            let all = places.union(picked_in(a));
            lemma_rules_leave_types(a);
            lemma_more_places(a, b, places, all);
            lemma_rules_keep_size(Rule::ImageFile, b, replies, tally);
            lemma_rules_replace(Rule::ImageFile, a, b, all, replies, tally);
            let (ruled, after) = apply_rules_from(Rule::ImageFile, b, replies, tally);
            let members = a->Object_0;
            lemma_stamp_member_places(members, ruled->Object_0, all, replies, after);
        },
        JsonTree::Array(items) => {
            lemma_stamp_item_places(items, replies, tally);
        },
        _ => {},
    }
}

proof fn lemma_stamp_item_places(
    items: Seq<JsonTree>,
    replies: Seq<Option<Seq<u8>>>,
    tally: Tally,
)
    ensures
        ({
            let stamped = stamp_items(items, replies, tally).0;
            &&& stamped.len() == items.len()
            &&& forall|i: int|
                0 <= i < items.len() ==> differ_in_places(
                    #[trigger] items[i],
                    stamped[i],
                    Set::empty(),
                )
        }),
    decreases items_size(items),
{
    if items.len() > 0 {
        let rest = items.drop_first();
        let (first, after) = stamp_tree(items[0], replies, tally);
        lemma_replaced_same(items[0], Set::empty());
        lemma_stamp_places(items[0], items[0], Set::empty(), replies, tally);
        lemma_stamp_item_places(rest, replies, after);
        let stamped = stamp_items(items, replies, tally).0;
        assert forall|i: int| 0 <= i < items.len() implies differ_in_places(
            #[trigger] items[i],
            stamped[i],
            Set::empty(),
        ) by {
            if i > 0 {
                assert(rest[i - 1] == items[i]);
            }
        }
    }
}

proof fn lemma_stamp_member_places(
    a: Seq<(Seq<char>, JsonTree)>,
    b: Seq<(Seq<char>, JsonTree)>,
    places: Set<Place>,
    replies: Seq<Option<Seq<u8>>>,
    tally: Tally,
)
    requires
        a.len() == b.len(),
        leave_types(places),
        forall|i: int|
            0 <= i < a.len() ==> (#[trigger] a[i]).0 == b[i].0 && replaced_at(
                a[i].1,
                b[i].1,
                places_inside(places, a[i].0),
            ),
    ensures
        ({
            let stamped = stamp_members(b, replies, tally).0;
            &&& stamped.len() == a.len()
            &&& forall|i: int|
                0 <= i < a.len() ==> (#[trigger] a[i]).0 == stamped[i].0 && differ_in_places(
                    a[i].1,
                    stamped[i].1,
                    places_inside(places, a[i].0),
                )
        }),
    decreases members_size(b),
{
    if b.len() > 0 {
        let x = a.drop_first();
        let y = b.drop_first();
        let (_, after) = stamp_tree(b[0].1, replies, tally);
        assert(a[0].0 == b[0].0);
        lemma_inside_leaves_types(places, a[0].0);
        lemma_stamp_places(a[0].1, b[0].1, places_inside(places, a[0].0), replies, tally);
        assert forall|i: int| 0 <= i < x.len() implies (#[trigger] x[i]).0 == y[i].0
            && replaced_at(x[i].1, y[i].1, places_inside(places, x[i].0)) by {
            assert(x[i] == a[i + 1]);
        }
        lemma_stamp_member_places(x, y, places, replies, after);
        let stamped = stamp_members(b, replies, tally).0;
        assert forall|i: int| 0 <= i < a.len() implies (#[trigger] a[i]).0 == stamped[i].0
            && differ_in_places(a[i].1, stamped[i].1, places_inside(places, a[i].0)) by {
            if i > 0 {
                assert(x[i - 1] == a[i]);
            }
        }
    }
}

/// A walk changes a string only where a rule picks it out of an object, or where it starts like the
/// data URI of an image, and in both cases only if it carries an image. A text in base64 anywhere
/// else stays.
pub proof fn law_only_picked_strings_change(tree: JsonTree, replies: Seq<Option<Seq<u8>>>)
    ensures
        differ_in_places(tree, stamp_tree(tree, replies, fresh()).0, Set::empty()),
{
    lemma_replaced_same(tree, Set::empty());
    lemma_stamp_places(tree, tree, Set::empty(), replies, fresh());
}

} // verus!
