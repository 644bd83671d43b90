//! What holds of the walk through a value, in terms of the members, the items and the strings of
//! the value.

use vstd::prelude::*;

use crate::encoding::{base64_encoded, is_base64_char, is_base64_text};
use crate::image::{image_in_b64, image_in_data_uri, image_of, reads_back, signed_uri, ImageView};
use crate::json::{field, key_index, lemma_key_index, JsonTree};
use crate::replay::{answered_by, law_walk_gives_the_signed_value};
use crate::signer::{is_settled_tree, law_signed_value_is_settled, signed_by_rule, signed_count};
use crate::signer::{items_count, members_count, rule_count, signed_by_rules, signed_items};
use crate::signer::{lemma_names, lemma_plain_field, lemma_rule_keeps_field, lemma_signed_field};
use crate::signer::{lemma_signed_by_rule_keeps_size, signed_members};
use crate::signer::{lemma_signed_by_rules_keeps_size, signed_text, signed_tree, signs_once};
use crate::walk::{apply_rule, apply_rules_from, fresh, items_size, lemma_items_at_rest};
use crate::walk::{lemma_members_at_rest, lemma_rules_at_rest, lemma_rules_keep_size, members_size};
use crate::walk::{rule_carrier, rule_path, rule_text, stamp_items, stamp_members, stamp_tree};
use crate::walk::{text_at, tree_size, visit_text, with_text_at, Carrier, Rule, Tally};
use crate::walker::{signatures, step_is, Step};

verus! {

/// Nulls, booleans and numbers stay as they are.
pub proof fn law_plain_values_stay(
    tree: JsonTree,
    signer: spec_fn(ImageView) -> Option<Seq<u8>>,
)
    requires
        tree is Null || tree is Bool || tree is Number,
    ensures
        signed_tree(tree, signer) == tree,
        signed_count(tree, signer) == 0,
{
}

/// A string that starts with `data:image/` and carries an image that the signer signs becomes a
/// data URI that carries the signed image.
pub proof fn law_data_uri_is_signed(
    text: Seq<char>,
    image: ImageView,
    signed: Seq<u8>,
    signer: spec_fn(ImageView) -> Option<Seq<u8>>,
)
    requires
        "data:image/"@.is_prefix_of(text),
        image_in_data_uri(text) == Some(image),
        signer(image) == Some(signed),
        reads_back(signed),
    ensures
        signed_tree(JsonTree::String(text), signer) == JsonTree::String(signed_uri(text, signed)),
        image_in_data_uri(signed_uri(text, signed)) == image_of(signed),
        signed_count(JsonTree::String(text), signer) == 1,
{
    crate::image::lemma_signed_uri(text, signed);
}

/// Every other string stays as it is.
pub proof fn law_other_strings_stay(
    text: Seq<char>,
    signer: spec_fn(ImageView) -> Option<Seq<u8>>,
)
    requires
        !"data:image/"@.is_prefix_of(text) || (image_in_data_uri(text) matches Some(image)
            ==> signer(image) is None),
    ensures
        signed_tree(JsonTree::String(text), signer) == JsonTree::String(text),
        signed_count(JsonTree::String(text), signer) == 0,
{
}

/// Each item of an array is signed in its place, whatever the other items are.
pub proof fn law_items_are_signed(
    items: Seq<JsonTree>,
    signer: spec_fn(ImageView) -> Option<Seq<u8>>,
)
    ensures
        signed_tree(JsonTree::Array(items), signer) matches JsonTree::Array(signed)
            && signed.len() == items.len() && forall|i: int|
            0 <= i < items.len() ==> signed[i] == signed_tree(#[trigger] items[i], signer),
    decreases items.len(),
{
    if items.len() > 0 {
        let rest = items.drop_first();
        law_items_are_signed(rest, signer);
        let signed = signed_items(items, signer);
        assert forall|i: int| 0 <= i < items.len() implies signed[i] == signed_tree(
            #[trigger] items[i],
            signer,
        ) by {
            if i > 0 {
                assert(rest[i - 1] == items[i]);
                assert(signed[i] == signed_items(rest, signer)[i - 1]);
            }
        }
    }
}

proof fn lemma_signed_keys(
    members: Seq<(Seq<char>, JsonTree)>,
    signer: spec_fn(ImageView) -> Option<Seq<u8>>,
)
    ensures
        signed_members(members, signer).len() == members.len(),
        forall|i: int|
            0 <= i < members.len() ==> signed_members(members, signer)[i].0
                == (#[trigger] members[i]).0,
    decreases members.len(),
{
    if members.len() > 0 {
        let rest = members.drop_first();
        lemma_signed_keys(rest, signer);
        let signed = signed_members(members, signer);
        assert forall|i: int| 0 <= i < members.len() implies signed[i].0 == (
        #[trigger] members[i]).0 by {
            if i > 0 {
                assert(rest[i - 1] == members[i]);
                assert(signed[i] == signed_members(rest, signer)[i - 1]);
            }
        }
    }
}

/// A member of an object that is none of `image_file`, `image_url` and `b64_json` is signed as it
/// would be alone, whatever the other members are.
pub proof fn law_member_is_signed(
    tree: JsonTree,
    key: Seq<char>,
    signer: spec_fn(ImageView) -> Option<Seq<u8>>,
)
    requires
        tree is Object,
        key != "image_file"@,
        key != "image_url"@,
        key != "b64_json"@,
    ensures
        signed_tree(tree, signer) is Object,
        field(signed_tree(tree, signer), key) == match field(tree, key) {
            Some(value) => Some(signed_tree(value, signer)),
            None => None,
        },
{
    lemma_plain_field(tree, key, signer);
}

/// What the three rules make of an object, one after the other.
proof fn lemma_ruled(tree: JsonTree, signer: spec_fn(ImageView) -> Option<Seq<u8>>)
    requires
        tree is Object,
    ensures
        ({
            let one = signed_by_rule(Rule::ImageFile, tree, signer);
            let two = signed_by_rule(Rule::ImageUrl, one, signer);
            let ruled = signed_by_rule(Rule::B64Json, two, signer);
            &&& one is Object
            &&& two is Object
            &&& ruled is Object
            &&& ruled == signed_by_rules(tree, signer)
            &&& field(one, "type"@) == field(tree, "type"@)
            &&& field(one, "image_url"@) == field(tree, "image_url"@)
            &&& field(two, "b64_json"@) == field(tree, "b64_json"@)
            &&& field(ruled, "image_file"@) == field(one, "image_file"@)
            &&& field(ruled, "image_url"@) == field(two, "image_url"@)
            &&& forall|key: Seq<char>|
                (#[trigger] field(signed_tree(tree, signer), key)) == match field(ruled, key) {
                    Some(value) => Some(signed_tree(value, signer)),
                    None => None,
                }
        }),
{
    let one = signed_by_rule(Rule::ImageFile, tree, signer);
    let two = signed_by_rule(Rule::ImageUrl, one, signer);
    let ruled = signed_by_rule(Rule::B64Json, two, signer);
    lemma_names();
    lemma_signed_by_rule_keeps_size(Rule::ImageFile, tree, signer);
    lemma_signed_by_rule_keeps_size(Rule::ImageUrl, one, signer);
    lemma_signed_by_rule_keeps_size(Rule::B64Json, two, signer);
    lemma_rule_keeps_field(Rule::ImageFile, tree, "type"@, signer);
    lemma_rule_keeps_field(Rule::ImageFile, tree, "image_url"@, signer);
    lemma_rule_keeps_field(Rule::ImageFile, tree, "b64_json"@, signer);
    lemma_rule_keeps_field(Rule::ImageUrl, one, "b64_json"@, signer);
    lemma_rule_keeps_field(Rule::ImageUrl, one, "image_file"@, signer);
    lemma_rule_keeps_field(Rule::B64Json, two, "image_file"@, signer);
    lemma_rule_keeps_field(Rule::B64Json, two, "image_url"@, signer);
    assert forall|key: Seq<char>|
        (#[trigger] field(signed_tree(tree, signer), key)) == match field(ruled, key) {
            Some(value) => Some(signed_tree(value, signer)),
            None => None,
        } by {
        lemma_signed_field(ruled->Object_0, key, signer);
    }
}

/// A string in base64 does not start like a data URI.
proof fn lemma_base64_is_no_uri(text: Seq<char>)
    requires
        is_base64_text(text),
    ensures
        !"data:image/"@.is_prefix_of(text),
{
    reveal_strlit("data:image/");
    if "data:image/"@.is_prefix_of(text) {
        assert("data:image/"@[4] == text[4]);
        assert(is_base64_char(text[4]));
    }
}

proof fn lemma_b64_json_ruled(tree: JsonTree, signer: spec_fn(ImageView) -> Option<Seq<u8>>)
    requires
        tree is Object,
    ensures
        field(signed_by_rule(Rule::B64Json, tree, signer), "b64_json"@) == match field(
            tree,
            "b64_json"@,
        ) {
            Some(JsonTree::String(text)) => Some(
                JsonTree::String(signed_text(Carrier::Base64, text, signer)),
            ),
            other => other,
        },
{
    reveal_with_fuel(text_at, 2);
    reveal_with_fuel(with_text_at, 2);
    let path = rule_path(Rule::B64Json);
    assert(path.drop_first() =~= Seq::empty());
    if let Some(text) = rule_text(Rule::B64Json, tree) {
        let after = signed_text(Carrier::Base64, text, signer);
        crate::json::lemma_with_field(tree, "b64_json"@, JsonTree::String(after), "b64_json"@);
    }
}

/// The member `b64_json` of any object, if it is base64 of an image that the signer signs, becomes
/// the base64 text of the signed image.
pub proof fn law_b64_json_is_signed(
    tree: JsonTree,
    text: Seq<char>,
    image: ImageView,
    signed: Seq<u8>,
    signer: spec_fn(ImageView) -> Option<Seq<u8>>,
)
    requires
        tree is Object,
        field(tree, "b64_json"@) == Some(JsonTree::String(text)),
        image_in_b64(text) == Some(image),
        signer(image) == Some(signed),
        reads_back(signed),
    ensures
        field(signed_tree(tree, signer), "b64_json"@) == Some(
            JsonTree::String(base64_encoded(signed)),
        ),
        signed_count(tree, signer) > 0,
{
    lemma_ruled(tree, signer);
    let one = signed_by_rule(Rule::ImageFile, tree, signer);
    let two = signed_by_rule(Rule::ImageUrl, one, signer);
    lemma_b64_json_ruled(two, signer);
    lemma_base64_is_no_uri(base64_encoded(signed));
    reveal_with_fuel(text_at, 2);
    assert(rule_path(Rule::B64Json).drop_first() =~= Seq::empty());
    assert(rule_text(Rule::B64Json, two) == Some(text));
    lemma_signed_by_rules_keeps_size(tree, signer);
}

/// The member `b64_json` of an object, if it is anything else, is signed as it would be alone.
pub proof fn law_other_b64_json_is_walked(
    tree: JsonTree,
    value: JsonTree,
    signer: spec_fn(ImageView) -> Option<Seq<u8>>,
)
    requires
        tree is Object,
        field(tree, "b64_json"@) == Some(value),
        value matches JsonTree::String(text) ==> (image_in_b64(text) matches Some(image) ==> signer(
            image,
        ) is None),
    ensures
        field(signed_tree(tree, signer), "b64_json"@) == Some(signed_tree(value, signer)),
{
    lemma_ruled(tree, signer);
    let one = signed_by_rule(Rule::ImageFile, tree, signer);
    let two = signed_by_rule(Rule::ImageUrl, one, signer);
    lemma_b64_json_ruled(two, signer);
}

proof fn lemma_nested_ruled(
    rule: Rule,
    tree: JsonTree,
    outer: Seq<char>,
    inner: Seq<char>,
    name: Seq<char>,
    member: JsonTree,
    text: Seq<char>,
    signer: spec_fn(ImageView) -> Option<Seq<u8>>,
)
    requires
        tree is Object,
        rule_path(rule) == seq![outer, inner],
        crate::walk::rule_type(rule) == Some(name),
        field(tree, "type"@) == Some(JsonTree::String(name)),
        field(tree, outer) == Some(member),
        field(member, inner) == Some(JsonTree::String(text)),
    ensures
        rule_text(rule, tree) == Some(text),
        field(signed_by_rule(rule, tree, signer), outer) == Some(
            crate::json::with_field(
                member,
                inner,
                JsonTree::String(signed_text(rule_carrier(rule), text, signer)),
            ),
        ),
{
    reveal_with_fuel(text_at, 3);
    reveal_with_fuel(with_text_at, 3);
    let path = seq![outer, inner];
    assert(path.drop_first() =~= seq![inner]);
    assert(seq![inner].drop_first() =~= Seq::empty());
    let after = JsonTree::String(signed_text(rule_carrier(rule), text, signer));
    crate::json::lemma_with_field(
        tree,
        outer,
        crate::json::with_field(member, inner, after),
        outer,
    );
}

/// The member `image_file.data` of an object of the type `image_file`, if it is base64 of an image
/// that the signer signs, becomes the base64 text of the signed image, whatever other members the
/// object and its member `image_file` have.
pub proof fn law_image_file_is_signed(
    tree: JsonTree,
    member: JsonTree,
    text: Seq<char>,
    image: ImageView,
    signed: Seq<u8>,
    signer: spec_fn(ImageView) -> Option<Seq<u8>>,
)
    requires
        field(tree, "type"@) == Some(JsonTree::String("image_file"@)),
        field(tree, "image_file"@) == Some(member),
        field(member, "data"@) == Some(JsonTree::String(text)),
        image_in_b64(text) == Some(image),
        signer(image) == Some(signed),
        reads_back(signed),
    ensures
        field(signed_tree(tree, signer), "image_file"@) matches Some(after) && field(
            after,
            "data"@,
        ) == Some(JsonTree::String(base64_encoded(signed))),
        signed_count(tree, signer) > 0,
{
    lemma_names();
    lemma_ruled(tree, signer);
    lemma_nested_ruled(
        Rule::ImageFile,
        tree,
        "image_file"@,
        "data"@,
        "image_file"@,
        member,
        text,
        signer,
    );
    let new = JsonTree::String(base64_encoded(signed));
    let put = crate::json::with_field(member, "data"@, new);
    crate::json::lemma_with_field(member, "data"@, new, "data"@);
    lemma_plain_field(put, "data"@, signer);
    lemma_base64_is_no_uri(base64_encoded(signed));
    lemma_signed_by_rules_keeps_size(tree, signer);
}

/// The member `image_url.url` of an object of the type `image_url`, if it is a data URI with an
/// image that the signer signs, becomes a data URI that carries the signed image, whatever other
/// members the object and its member `image_url` have.
pub proof fn law_image_url_is_signed(
    tree: JsonTree,
    member: JsonTree,
    text: Seq<char>,
    image: ImageView,
    signed: Seq<u8>,
    signer: spec_fn(ImageView) -> Option<Seq<u8>>,
)
    requires
        field(tree, "type"@) == Some(JsonTree::String("image_url"@)),
        field(tree, "image_url"@) == Some(member),
        field(member, "url"@) == Some(JsonTree::String(text)),
        image_in_data_uri(text) == Some(image),
        signer(image) == Some(signed),
        signs_once(signer),
    ensures
        field(signed_tree(tree, signer), "image_url"@) matches Some(after) && field(
            after,
            "url"@,
        ) == Some(JsonTree::String(signed_uri(text, signed))),
        image_in_data_uri(signed_uri(text, signed)) == image_of(signed),
        signed_count(tree, signer) > 0,
{
    lemma_names();
    lemma_ruled(tree, signer);
    let one = signed_by_rule(Rule::ImageFile, tree, signer);
    lemma_nested_ruled(
        Rule::ImageUrl,
        one,
        "image_url"@,
        "url"@,
        "image_url"@,
        member,
        text,
        signer,
    );
    let uri = signed_uri(text, signed);
    let new = JsonTree::String(uri);
    let put = crate::json::with_field(member, "url"@, new);
    crate::image::lemma_signed_uri(text, signed);
    crate::json::lemma_with_field(member, "url"@, new, "url"@);
    lemma_plain_field(put, "url"@, signer);
    law_other_strings_stay(uri, signer);
    lemma_signed_by_rules_keeps_size(tree, signer);
}

/// The members `image_file` and `image_url` of an object that is not of that type are signed as
/// they would be alone.
pub proof fn law_other_types_are_walked(
    tree: JsonTree,
    key: Seq<char>,
    signer: spec_fn(ImageView) -> Option<Seq<u8>>,
)
    requires
        tree is Object,
        key == "image_file"@ || key == "image_url"@,
        field(tree, "type"@) != Some(JsonTree::String(key)),
    ensures
        field(signed_tree(tree, signer), key) == match field(tree, key) {
            Some(value) => Some(signed_tree(value, signer)),
            None => None,
        },
{
    lemma_names();
    lemma_ruled(tree, signer);
}

/// Inside of the member `image_file` of an object, every member but `data`, and inside of its
/// member `image_url`, every member but `url`, is signed as it would be alone.
pub proof fn law_nested_member_is_signed(
    tree: JsonTree,
    outer: Seq<char>,
    member: JsonTree,
    key: Seq<char>,
    signer: spec_fn(ImageView) -> Option<Seq<u8>>,
)
    requires
        outer == "image_file"@ && key != "data"@ || outer == "image_url"@ && key != "url"@,
        field(tree, outer) == Some(member),
        member is Object,
        key != "image_file"@,
        key != "image_url"@,
        key != "b64_json"@,
    ensures
        field(signed_tree(tree, signer), outer) matches Some(after) && field(after, key)
            == match field(member, key) {
            Some(value) => Some(signed_tree(value, signer)),
            None => None,
        },
{
    lemma_names();
    lemma_ruled(tree, signer);
    let one = signed_by_rule(Rule::ImageFile, tree, signer);
    let (rule, before) = if outer == "image_file"@ {
        (Rule::ImageFile, tree)
    } else {
        (Rule::ImageUrl, one)
    };
    let inner = rule_path(rule)[1];
    let name = outer;
    reveal_with_fuel(text_at, 3);
    if rule_text(rule, before) is Some {
        let text = rule_text(rule, before)->0;
        assert(rule_path(rule).drop_first() =~= seq![inner]);
        assert(seq![inner].drop_first() =~= Seq::empty());
        lemma_nested_ruled(rule, before, outer, inner, name, member, text, signer);
        let new = JsonTree::String(signed_text(rule_carrier(rule), text, signer));
        let put = crate::json::with_field(member, inner, new);
        crate::json::lemma_with_field(member, inner, new, key);
        lemma_plain_field(put, key, signer);
    } else {
        lemma_plain_field(member, key, signer);
    }
}

/// A signed object has the keys that it had, in their order.
pub proof fn law_signed_object_keeps_keys(
    members: Seq<(Seq<char>, JsonTree)>,
    signer: spec_fn(ImageView) -> Option<Seq<u8>>,
)
    ensures
        signed_tree(JsonTree::Object(members), signer) matches JsonTree::Object(signed)
            && signed.len() == members.len() && forall|i: int|
            0 <= i < members.len() ==> signed[i].0 == (#[trigger] members[i]).0,
{
    let tree = JsonTree::Object(members);
    let one = signed_by_rule(Rule::ImageFile, tree, signer);
    let two = signed_by_rule(Rule::ImageUrl, one, signer);
    lemma_signed_by_rule_keeps_size(Rule::ImageFile, tree, signer);
    lemma_signed_by_rule_keeps_size(Rule::ImageUrl, one, signer);
    lemma_signed_by_rule_keeps_size(Rule::B64Json, two, signer);
    lemma_rule_keeps_keys(Rule::ImageFile, tree, signer);
    lemma_rule_keeps_keys(Rule::ImageUrl, one, signer);
    lemma_rule_keeps_keys(Rule::B64Json, two, signer);
    let ruled = signed_by_rules(tree, signer)->Object_0;
    lemma_signed_keys(ruled, signer);
    let signed = signed_members(ruled, signer);
    assert forall|i: int| 0 <= i < members.len() implies signed[i].0 == (
    #[trigger] members[i]).0 by {
        assert(one->Object_0[i].0 == members[i].0);
        assert(two->Object_0[i].0 == one->Object_0[i].0);
        assert(ruled[i].0 == two->Object_0[i].0);
    }
}

proof fn lemma_rule_keeps_keys(
    rule: Rule,
    tree: JsonTree,
    signer: spec_fn(ImageView) -> Option<Seq<u8>>,
)
    requires
        tree is Object,
    ensures
        ({
            let before = tree->Object_0;
            let after = signed_by_rule(rule, tree, signer)->Object_0;
            &&& after.len() == before.len()
            &&& forall|i: int| 0 <= i < before.len() ==> (#[trigger] after[i]).0 == before[i].0
        }),
{
    if rule_text(rule, tree) is Some {
        lemma_key_index(tree->Object_0, rule_path(rule)[0]);
    }
}

/// `inner` is `outer`, or is somewhere inside of it.
pub open spec fn holds(outer: JsonTree, inner: JsonTree) -> bool
    decreases outer,
{
    ||| outer == inner
    ||| match outer {
        JsonTree::Array(items) => exists|i: int|
            0 <= i < items.len() && holds(#[trigger] items[i], inner),
        JsonTree::Object(members) => exists|i: int|
            0 <= i < members.len() && holds((#[trigger] members[i]).1, inner),
        _ => false,
    }
}

/// Every image that `inner` itself holds out for signing is refused: the string that it is, if that
/// starts with `data:image/`; its member `b64_json`; its member `image_file.data`, if its type is
/// `image_file`; its member `image_url.url`, if its type is `image_url`.
pub open spec fn offers_no_image(
    inner: JsonTree,
    signer: spec_fn(ImageView) -> Option<Seq<u8>>,
) -> bool {
    &&& forall|text: Seq<char>, image: ImageView|
        inner == JsonTree::String(text) && "data:image/"@.is_prefix_of(text) && (
        #[trigger] image_in_data_uri(text)) == Some(image) ==> (#[trigger] signer(image)) is None
    &&& forall|text: Seq<char>, image: ImageView|
        field(inner, "b64_json"@) == Some(JsonTree::String(text)) && (#[trigger] image_in_b64(text))
            == Some(image) ==> (#[trigger] signer(image)) is None
    &&& forall|member: JsonTree, text: Seq<char>, image: ImageView|
        field(inner, "type"@) == Some(JsonTree::String("image_file"@)) && field(
            inner,
            "image_file"@,
        ) == Some(member) && (#[trigger] field(member, "data"@)) == Some(JsonTree::String(text))
            && (#[trigger] image_in_b64(text)) == Some(image) ==> (#[trigger] signer(image)) is None
    &&& forall|member: JsonTree, text: Seq<char>, image: ImageView|
        field(inner, "type"@) == Some(JsonTree::String("image_url"@)) && field(inner, "image_url"@)
            == Some(member) && (#[trigger] field(member, "url"@)) == Some(JsonTree::String(text))
            && (#[trigger] image_in_data_uri(text)) == Some(image) ==> (#[trigger] signer(
            image,
        )) is None
}

proof fn lemma_settled_inside(
    outer: JsonTree,
    inner: JsonTree,
    signer: spec_fn(ImageView) -> Option<Seq<u8>>,
)
    requires
        is_settled_tree(outer, signer),
        holds(outer, inner),
    ensures
        is_settled_tree(inner, signer),
    decreases outer,
{
    if outer != inner {
        match outer {
            JsonTree::Array(items) => {
                let i = choose|i: int| 0 <= i < items.len() && holds(#[trigger] items[i], inner);
                lemma_settled_inside(items[i], inner, signer);
            },
            JsonTree::Object(members) => {
                let i = choose|i: int|
                    0 <= i < members.len() && holds((#[trigger] members[i]).1, inner);
                lemma_settled_inside(members[i].1, inner, signer);
            },
            _ => {},
        }
    }
}

proof fn lemma_settled_offers_nothing(
    inner: JsonTree,
    signer: spec_fn(ImageView) -> Option<Seq<u8>>,
)
    requires
        is_settled_tree(inner, signer),
    ensures
        offers_no_image(inner, signer),
{
    reveal_with_fuel(text_at, 3);
    assert(rule_path(Rule::B64Json).drop_first() =~= Seq::empty());
    assert(rule_path(Rule::ImageFile).drop_first() =~= seq!["data"@]);
    assert(rule_path(Rule::ImageUrl).drop_first() =~= seq!["url"@]);
    assert(seq!["data"@].drop_first() =~= Seq::empty());
    assert(seq!["url"@].drop_first() =~= Seq::empty());
    if inner is Object {
        assert(rule_text(Rule::B64Json, inner) == match field(inner, "b64_json"@) {
            Some(value) => crate::json::text_of(value),
            None => None,
        });
        if field(inner, "type"@) == Some(JsonTree::String("image_file"@)) {
            assert(rule_text(Rule::ImageFile, inner) == match field(inner, "image_file"@) {
                Some(member) => match field(member, "data"@) {
                    Some(value) => crate::json::text_of(value),
                    None => None,
                },
                None => None,
            });
        }
        if field(inner, "type"@) == Some(JsonTree::String("image_url"@)) {
            assert(rule_text(Rule::ImageUrl, inner) == match field(inner, "image_url"@) {
                Some(member) => match field(member, "url"@) {
                    Some(value) => crate::json::text_of(value),
                    None => None,
                },
                None => None,
            });
        }
    }
}

/// Once a signer that does not sign what it has signed has had a value, nothing anywhere in it
/// holds out an image that the signer would sign.
pub proof fn law_no_image_is_left_unsigned(
    tree: JsonTree,
    inner: JsonTree,
    signer: spec_fn(ImageView) -> Option<Seq<u8>>,
)
    requires
        signs_once(signer),
        holds(signed_tree(tree, signer), inner),
    ensures
        offers_no_image(inner, signer),
{
    law_signed_value_is_settled(tree, signer);
    lemma_settled_inside(signed_tree(tree, signer), inner, signer);
    lemma_settled_offers_nothing(inner, signer);
}

proof fn lemma_uncounted_is_settled(
    tree: JsonTree,
    signer: spec_fn(ImageView) -> Option<Seq<u8>>,
)
    requires
        signed_count(tree, signer) == 0,
    ensures
        is_settled_tree(tree, signer),
    decreases tree_size(tree),
{
    match tree {
        JsonTree::Object(members) => {
            let one = signed_by_rule(Rule::ImageFile, tree, signer);
            let two = signed_by_rule(Rule::ImageUrl, one, signer);
            assert(rule_count(Rule::ImageFile, tree, signer) == 0);
            crate::walk::lemma_same_text(tree, rule_path(Rule::ImageFile));
            assert(one == tree);
            assert(rule_count(Rule::ImageUrl, one, signer) == 0);
            crate::walk::lemma_same_text(tree, rule_path(Rule::ImageUrl));
            assert(two == tree);
            assert(rule_count(Rule::B64Json, two, signer) == 0);
            crate::walk::lemma_same_text(tree, rule_path(Rule::B64Json));
            assert(signed_by_rules(tree, signer) == tree);
            lemma_uncounted_members(members, signer);
            assert forall|rule: Rule|
                (#[trigger] rule_text(rule, tree)) matches Some(text)
                    ==> crate::signer::is_settled(rule_carrier(rule), text, signer) by {
                assert(rule_count(rule, tree, signer) == 0);
            }
        },
        JsonTree::Array(items) => lemma_uncounted_items(items, signer),
        _ => {},
    }
}

proof fn lemma_uncounted_items(
    items: Seq<JsonTree>,
    signer: spec_fn(ImageView) -> Option<Seq<u8>>,
)
    requires
        items_count(items, signer) == 0,
    ensures
        forall|i: int| 0 <= i < items.len() ==> is_settled_tree(#[trigger] items[i], signer),
    decreases items_size(items),
{
    if items.len() > 0 {
        let rest = items.drop_first();
        lemma_uncounted_is_settled(items[0], signer);
        lemma_uncounted_items(rest, signer);
        assert forall|i: int| 0 <= i < items.len() implies is_settled_tree(
            #[trigger] items[i],
            signer,
        ) by {
            if i > 0 {
                assert(rest[i - 1] == items[i]);
            }
        }
    }
}

proof fn lemma_uncounted_members(
    members: Seq<(Seq<char>, JsonTree)>,
    signer: spec_fn(ImageView) -> Option<Seq<u8>>,
)
    requires
        members_count(members, signer) == 0,
    ensures
        forall|i: int|
            0 <= i < members.len() ==> is_settled_tree((#[trigger] members[i]).1, signer),
    decreases members_size(members),
{
    if members.len() > 0 {
        let rest = members.drop_first();
        lemma_uncounted_is_settled(members[0].1, signer);
        lemma_uncounted_members(rest, signer);
        assert forall|i: int| 0 <= i < members.len() implies is_settled_tree(
            (#[trigger] members[i]).1,
            signer,
        ) by {
            if i > 0 {
                assert(rest[i - 1] == members[i]);
            }
        }
    }
}

/// A signer that counts nothing in a value finds nothing anywhere in it that it would sign.
pub proof fn law_uncounted_value_offers_nothing(
    tree: JsonTree,
    inner: JsonTree,
    signer: spec_fn(ImageView) -> Option<Seq<u8>>,
)
    requires
        signed_count(tree, signer) == 0,
        holds(tree, inner),
    ensures
        offers_no_image(inner, signer),
{
    lemma_uncounted_is_settled(tree, signer);
    lemma_settled_inside(tree, inner, signer);
    lemma_settled_offers_nothing(inner, signer);
}

/// A walk that asks for nothing at all goes through a value that holds out no image anywhere, for
/// any signer.
pub proof fn law_silent_walk_meets_no_image(
    tree: JsonTree,
    inner: JsonTree,
    signer: spec_fn(ImageView) -> Option<Seq<u8>>,
)
    requires
        stamp_tree(tree, Seq::empty(), fresh()).1.asks is None,
        holds(tree, inner),
    ensures
        offers_no_image(inner, signer),
{
    let none: Seq<Option<Seq<u8>>> = Seq::empty();
    law_walk_gives_the_signed_value(tree, none, signer);
    crate::laws::law_walk_counts_signatures(tree, none);
    assert(none.take(0) =~= none);
    law_uncounted_value_offers_nothing(tree, inner, signer);
}

/// Some string in the value carries the image.
pub open spec fn carries(tree: JsonTree, image: ImageView) -> bool {
    exists|text: Seq<char>| #[trigger]
        holds(tree, JsonTree::String(text)) && (image_in_b64(text) == Some(image)
            || image_in_data_uri(text) == Some(image))
}

proof fn lemma_text_at_is_held(tree: JsonTree, path: Seq<Seq<char>>)
    ensures
        text_at(tree, path) matches Some(text) ==> holds(tree, JsonTree::String(text)),
    decreases path.len(),
{
    if path.len() > 0 && text_at(tree, path) is Some {
        let members = tree->Object_0;
        lemma_key_index(members, path[0]);
        let i = key_index(members, path[0])->0;
        lemma_text_at_is_held(members[i].1, path.drop_first());
        assert(holds(members[i].1, JsonTree::String(text_at(tree, path)->0)));
    }
}

proof fn lemma_rules_ask(
    rule: Rule,
    tree: JsonTree,
    replies: Seq<Option<Seq<u8>>>,
    tally: Tally,
)
    requires
        tally.asks is None,
        tree is Object,
    ensures
        apply_rules_from(rule, tree, replies, tally).1.asks matches Some(image) ==> carries(
            apply_rules_from(rule, tree, replies, tally).0,
            image,
        ),
    decreases
            (match rule {
                Rule::ImageFile => 2nat,
                Rule::ImageUrl => 1nat,
                Rule::B64Json => 0nat,
            }),
{
    let next = match rule {
        Rule::ImageFile => Rule::ImageUrl,
        _ => Rule::B64Json,
    };
    let (ruled, after) = apply_rule(rule, tree, replies, tally);
    if let Some(text) = rule_text(rule, tree) {
        let (new, _) = visit_text(rule_carrier(rule), text, replies, tally);
        crate::walk::lemma_with_text_keeps_size(tree, rule_path(rule), new);
        if let Some(image) = after.asks {
            crate::walk::lemma_same_text(tree, rule_path(rule));
            lemma_text_at_is_held(tree, rule_path(rule));
            assert(holds(ruled, JsonTree::String(text)));
            assert(carries(ruled, image));
        }
    }
    if !(rule is B64Json) {
        if after.asks is Some {
            lemma_rules_at_rest(next, ruled, replies, after);
        } else {
            lemma_rules_ask(next, ruled, replies, after);
        }
    }
}

proof fn lemma_ask_is_carried(tree: JsonTree, replies: Seq<Option<Seq<u8>>>, tally: Tally)
    requires
        tally.asks is None,
    ensures
        stamp_tree(tree, replies, tally).1.asks matches Some(image) ==> carries(
            stamp_tree(tree, replies, tally).0,
            image,
        ),
    decreases tree_size(tree),
{
    match tree {
        JsonTree::Object(_) => {
            lemma_rules_keep_size(Rule::ImageFile, tree, replies, tally);
            lemma_rules_ask(Rule::ImageFile, tree, replies, tally);
            let (ruled, after) = apply_rules_from(Rule::ImageFile, tree, replies, tally);
            if after.asks is Some {
                lemma_members_at_rest(ruled->Object_0, replies, after);
            } else {
                lemma_member_ask_is_carried(ruled->Object_0, replies, after);
                let (members, end) = stamp_members(ruled->Object_0, replies, after);
                if let Some(image) = end.asks {
                    let i = choose|i: int|
                        0 <= i < members.len() && carries((#[trigger] members[i]).1, image);
                    lemma_carried_by_member(members, i, image);
                }
            }
        },
        JsonTree::Array(items) => {
            lemma_item_ask_is_carried(items, replies, tally);
            let (stamped, end) = stamp_items(items, replies, tally);
            if let Some(image) = end.asks {
                let i = choose|i: int|
                    0 <= i < stamped.len() && carries(#[trigger] stamped[i], image);
                lemma_carried_by_item(stamped, i, image);
            }
        },
        JsonTree::String(text) => {
            if stamp_tree(tree, replies, tally).1.asks is Some {
                assert(holds(tree, JsonTree::String(text)));
            }
        },
        _ => {},
    }
}

proof fn lemma_carried_by_item(items: Seq<JsonTree>, i: int, image: ImageView)
    requires
        0 <= i < items.len(),
        carries(items[i], image),
    ensures
        carries(JsonTree::Array(items), image),
{
    let text = choose|text: Seq<char>| #[trigger]
        holds(items[i], JsonTree::String(text)) && (image_in_b64(text) == Some(image)
            || image_in_data_uri(text) == Some(image));
    let whole = JsonTree::Array(items);
    let found = JsonTree::String(text);
    assert(holds(whole->Array_0[i], found));
    assert(holds(whole, found));
}

proof fn lemma_carried_by_member(
    members: Seq<(Seq<char>, JsonTree)>,
    i: int,
    image: ImageView,
)
    requires
        0 <= i < members.len(),
        carries(members[i].1, image),
    ensures
        carries(JsonTree::Object(members), image),
{
    let text = choose|text: Seq<char>| #[trigger]
        holds(members[i].1, JsonTree::String(text)) && (image_in_b64(text) == Some(image)
            || image_in_data_uri(text) == Some(image));
    let whole = JsonTree::Object(members);
    let found = JsonTree::String(text);
    assert(holds(whole->Object_0[i].1, found));
    assert(holds(whole, found));
}

proof fn lemma_item_ask_is_carried(
    items: Seq<JsonTree>,
    replies: Seq<Option<Seq<u8>>>,
    tally: Tally,
)
    requires
        tally.asks is None,
    ensures
        stamp_items(items, replies, tally).1.asks matches Some(image) ==> {
            let stamped = stamp_items(items, replies, tally).0;
            exists|i: int| 0 <= i < stamped.len() && carries(#[trigger] stamped[i], image)
        },
    decreases items_size(items),
{
    if items.len() > 0 {
        let rest = items.drop_first();
        let stamped = stamp_items(items, replies, tally).0;
        let (first, after) = stamp_tree(items[0], replies, tally);
        lemma_ask_is_carried(items[0], replies, tally);
        if let Some(image) = after.asks {
            lemma_items_at_rest(rest, replies, after);
            assert(carries(stamped[0], image));
        } else {
            lemma_item_ask_is_carried(rest, replies, after);
            let (others, end) = stamp_items(rest, replies, after);
            if let Some(image) = end.asks {
                let i = choose|i: int|
                    0 <= i < others.len() && carries(#[trigger] others[i], image);
                assert(stamped[i + 1] == others[i]);
            }
        }
    }
}

proof fn lemma_member_ask_is_carried(
    members: Seq<(Seq<char>, JsonTree)>,
    replies: Seq<Option<Seq<u8>>>,
    tally: Tally,
)
    requires
        tally.asks is None,
    ensures
        stamp_members(members, replies, tally).1.asks matches Some(image) ==> {
            let stamped = stamp_members(members, replies, tally).0;
            exists|i: int| 0 <= i < stamped.len() && carries((#[trigger] stamped[i]).1, image)
        },
    decreases members_size(members),
{
    if members.len() > 0 {
        let rest = members.drop_first();
        let stamped = stamp_members(members, replies, tally).0;
        let (first, after) = stamp_tree(members[0].1, replies, tally);
        lemma_ask_is_carried(members[0].1, replies, tally);
        if let Some(image) = after.asks {
            lemma_members_at_rest(rest, replies, after);
            assert(carries(stamped[0].1, image));
        } else {
            lemma_member_ask_is_carried(rest, replies, after);
            let (others, end) = stamp_members(rest, replies, after);
            if let Some(image) = end.asks {
                let i = choose|i: int|
                    0 <= i < others.len() && carries((#[trigger] others[i]).1, image);
                assert(stamped[i + 1] == others[i]);
            }
        }
    }
}

/// The image that a walk asks for is carried by a string in the value, as far as that was walked.
pub proof fn law_requested_image_is_in_the_value(
    tree: JsonTree,
    replies: Seq<Option<Seq<u8>>>,
)
    ensures
        stamp_tree(tree, replies, fresh()).1.asks matches Some(image) ==> carries(
            stamp_tree(tree, replies, fresh()).0,
            image,
        ),
{
    lemma_ask_is_carried(tree, replies, fresh());
}

/// Each signed image among some answers counts once, and nothing else counts.
pub proof fn law_signatures(replies: Seq<Option<Seq<u8>>>, reply: Option<Seq<u8>>)
    ensures
        signatures(replies.push(reply)) == signatures(replies) + if reply is Some {
            1nat
        } else {
            0nat
        },
        signatures(Seq::empty()) == 0,
{
    assert(replies.push(reply).drop_last() =~= replies);
}

/// A walk that is over, with the answers of a signer, has come to the value with its images signed,
/// and has counted them. One that is over at once goes through a value that holds out no image
/// anywhere. One that asks, asks for an image in the value.
pub proof fn law_steps_of_a_walk(
    step: Step,
    origin: JsonTree,
    replies: Seq<Option<Seq<u8>>>,
    inner: JsonTree,
    signer: spec_fn(ImageView) -> Option<Seq<u8>>,
)
    requires
        step_is(step, origin, replies),
        answered_by(origin, replies, signer),
    ensures
        match step {
            Step::Done { value, stamped } => {
                &&& value@ == signed_tree(origin, signer)
                &&& signed_count(origin, signer) <= usize::MAX ==> stamped == signed_count(
                    origin,
                    signer,
                )
                &&& stamped == 0 <==> signed_count(origin, signer) == 0
                &&& replies.len() == 0 && holds(origin, inner) ==> offers_no_image(inner, signer)
            },
            Step::Sign(walk) => {
                &&& walk.origin() == origin
                &&& walk.replies() == replies
                &&& carries(stamp_tree(origin, replies, fresh()).0, walk.request())
                &&& stamp_tree(origin, replies, fresh()).1.asks == Some(walk.request())
            },
        },
{
    match step {
        Step::Done { value, stamped } => {
            law_walk_gives_the_signed_value(origin, replies, signer);
            if replies.len() == 0 && holds(origin, inner) {
                assert(replies =~= Seq::empty());
                law_silent_walk_meets_no_image(origin, inner, signer);
            }
        },
        Step::Sign(_) => law_requested_image_is_in_the_value(origin, replies),
    }
}

/// A string that starts with `data:image/` and carries an image is asked for once: without an
/// answer the walk asks for that image and rests, and one answer, whatever it is, is all that it
/// takes.
pub proof fn law_image_is_asked_for_once(
    text: Seq<char>,
    image: ImageView,
    reply: Option<Seq<u8>>,
    replies: Seq<Option<Seq<u8>>>,
)
    requires
        "data:image/"@.is_prefix_of(text),
        image_in_data_uri(text) == Some(image),
    ensures
        stamp_tree(JsonTree::String(text), Seq::empty(), fresh()) == (
            JsonTree::String(text),
            Tally { used: 0, stamped: 0, asks: Some(image) },
        ),
        stamp_tree(JsonTree::String(text), seq![reply] + replies, fresh()).1 == (Tally {
            used: 1,
            stamped: if reply is Some {
                1
            } else {
                0
            },
            asks: None,
        }),
        reply is None ==> stamp_tree(JsonTree::String(text), seq![reply] + replies, fresh()).0
            == JsonTree::String(text),
{
    assert((seq![reply] + replies)[0] == reply);
}

/// The items of an array are walked in their order: the rest goes on where the first left off.
pub proof fn law_items_are_walked_in_order(
    first: JsonTree,
    rest: Seq<JsonTree>,
    replies: Seq<Option<Seq<u8>>>,
    tally: Tally,
)
    ensures
        ({
            let (walked, middle) = stamp_tree(first, replies, tally);
            let (others, end) = stamp_tree(JsonTree::Array(rest), replies, middle);
            stamp_tree(JsonTree::Array(seq![first] + rest), replies, tally) == (
                JsonTree::Array(seq![walked] + others->Array_0),
                end,
            )
        }),
{
    assert((seq![first] + rest).drop_first() =~= rest);
}

/// An object that has neither a type nor a member `b64_json` is walked member by member, in their
/// order: the rest goes on where the first left off.
pub proof fn law_members_are_walked_in_order(
    key: Seq<char>,
    first: JsonTree,
    rest: Seq<(Seq<char>, JsonTree)>,
    replies: Seq<Option<Seq<u8>>>,
    tally: Tally,
)
    requires
        field(JsonTree::Object(seq![(key, first)] + rest), "type"@) is None,
        field(JsonTree::Object(seq![(key, first)] + rest), "b64_json"@) is None,
    ensures
        ({
            let (walked, middle) = stamp_tree(first, replies, tally);
            let (others, end) = stamp_tree(JsonTree::Object(rest), replies, middle);
            stamp_tree(JsonTree::Object(seq![(key, first)] + rest), replies, tally) == (
                JsonTree::Object(seq![(key, walked)] + others->Object_0),
                end,
            )
        }),
{
    let members = seq![(key, first)] + rest;
    let middle = stamp_tree(first, replies, tally).1;
    assert(members.drop_first() =~= rest);
    assert(members[0] == (key, first));
    assert(field(JsonTree::Object(rest), "type"@) is None);
    assert(field(JsonTree::Object(rest), "b64_json"@) is None);
    lemma_no_rule_changes_it(JsonTree::Object(members), replies, tally);
    lemma_no_rule_changes_it(JsonTree::Object(rest), replies, middle);
}

proof fn lemma_no_rule_changes_it(
    tree: JsonTree,
    replies: Seq<Option<Seq<u8>>>,
    tally: Tally,
)
    requires
        field(tree, "type"@) is None,
        field(tree, "b64_json"@) is None,
    ensures
        apply_rules_from(Rule::ImageFile, tree, replies, tally) == (tree, tally),
{
    reveal_with_fuel(apply_rules_from, 3);
    reveal_with_fuel(text_at, 2);
}

/// The image that an object holds by its type is asked for before the image in its member
/// `b64_json`, and that before any other image in it.
pub proof fn law_order_of_images_in_an_object(
    tree: JsonTree,
    inner: JsonTree,
    text: Seq<char>,
    image: ImageView,
)
    requires
        tree is Object,
    ensures
        field(tree, "type"@) == Some(JsonTree::String("image_file"@)) && field(tree, "image_file"@)
            == Some(inner) && field(inner, "data"@) == Some(JsonTree::String(text)) && image_in_b64(
            text,
        ) == Some(image) ==> stamp_tree(tree, Seq::empty(), fresh()).1.asks == Some(image),
        field(tree, "type"@) == Some(JsonTree::String("image_url"@)) && field(tree, "image_url"@)
            == Some(inner) && field(inner, "url"@) == Some(JsonTree::String(text))
            && image_in_data_uri(text) == Some(image) ==> stamp_tree(
            tree,
            Seq::empty(),
            fresh(),
        ).1.asks == Some(image),
        field(tree, "type"@) != Some(JsonTree::String("image_file"@)) && field(tree, "type"@)
            != Some(JsonTree::String("image_url"@)) && field(tree, "b64_json"@) == Some(
            JsonTree::String(text),
        ) && image_in_b64(text) == Some(image) ==> stamp_tree(tree, Seq::empty(), fresh()).1.asks
            == Some(image),
{
    let none: Seq<Option<Seq<u8>>> = Seq::empty();
    lemma_names();
    reveal_with_fuel(apply_rules_from, 3);
    reveal_with_fuel(text_at, 3);
    assert(rule_path(Rule::ImageFile).drop_first() =~= seq!["data"@]);
    assert(rule_path(Rule::ImageUrl).drop_first() =~= seq!["url"@]);
    let resting = Tally { used: 0, stamped: 0, asks: Some(image) };
    let by_type = apply_rule(Rule::ImageFile, tree, none, fresh());
    lemma_rules_at_rest(Rule::ImageUrl, by_type.0, none, resting);
    let by_url = apply_rule(Rule::ImageUrl, tree, none, fresh());
    lemma_rules_at_rest(Rule::B64Json, by_url.0, none, resting);
    let ruled = apply_rules_from(Rule::ImageFile, tree, none, fresh());
    lemma_rules_keep_size(Rule::ImageFile, tree, none, fresh());
    lemma_members_at_rest(ruled.0->Object_0, none, resting);
}

} // verus!
