//! What a signer makes of a value: the walk, for a signer whose answer depends on the image alone.

use vstd::prelude::*;

use crate::image::{image_of, reads_back, ImageView};
use crate::json::{field, field_is, key_index, lemma_key_index, same_but_fractions, JsonTree};
use crate::walk::{image_in, items_size, members_size, rewritten, rule_carrier, rule_path};
use crate::walk::{rule_text, rule_type, text_at, tree_size, with_text_at, Carrier, Rule};

verus! {

/// A string with the image in it signed, if there is one and the signer signs it.
pub open spec fn signed_text(
    carrier: Carrier,
    text: Seq<char>,
    signer: spec_fn(ImageView) -> Option<Seq<u8>>,
) -> Seq<char> {
    match image_in(carrier, text) {
        Some(image) => match signer(image) {
            Some(signed) => rewritten(carrier, text, signed),
            None => text,
        },
        None => text,
    }
}

/// An object with the image signed that a rule picks out.
pub open spec fn signed_by_rule(
    rule: Rule,
    tree: JsonTree,
    signer: spec_fn(ImageView) -> Option<Seq<u8>>,
) -> JsonTree {
    match rule_text(rule, tree) {
        Some(text) => with_text_at(
            tree,
            rule_path(rule),
            signed_text(rule_carrier(rule), text, signer),
        ),
        None => tree,
    }
}

/// An object with the images signed that the rules pick out.
pub open spec fn signed_by_rules(
    tree: JsonTree,
    signer: spec_fn(ImageView) -> Option<Seq<u8>>,
) -> JsonTree {
    let tree = signed_by_rule(Rule::ImageFile, tree, signer);
    let tree = signed_by_rule(Rule::ImageUrl, tree, signer);
    signed_by_rule(Rule::B64Json, tree, signer)
}

/// A value with the images in it signed.
pub open spec fn signed_tree(
    tree: JsonTree,
    signer: spec_fn(ImageView) -> Option<Seq<u8>>,
) -> JsonTree
    decreases tree_size(tree),
{
    match tree {
        JsonTree::Object(_) => {
            proof {
                lemma_signed_by_rules_keeps_size(tree, signer);
            }
            JsonTree::Object(signed_members(signed_by_rules(tree, signer)->Object_0, signer))
        },
        JsonTree::Array(items) => JsonTree::Array(signed_items(items, signer)),
        JsonTree::String(text) => if "data:image/"@.is_prefix_of(text) {
            JsonTree::String(signed_text(Carrier::DataUri, text, signer))
        } else {
            tree
        },
        _ => tree,
    }
}

/// Items with the images in them signed.
pub open spec fn signed_items(
    items: Seq<JsonTree>,
    signer: spec_fn(ImageView) -> Option<Seq<u8>>,
) -> Seq<JsonTree>
    decreases items_size(items),
{
    if items.len() == 0 {
        items
    } else {
        seq![signed_tree(items[0], signer)] + signed_items(items.drop_first(), signer)
    }
}

/// Members with the images in them signed.
pub open spec fn signed_members(
    members: Seq<(Seq<char>, JsonTree)>,
    signer: spec_fn(ImageView) -> Option<Seq<u8>>,
) -> Seq<(Seq<char>, JsonTree)>
    decreases members_size(members),
{
    if members.len() == 0 {
        members
    } else {
        seq![(members[0].0, signed_tree(members[0].1, signer))] + signed_members(
            members.drop_first(),
            signer,
        )
    }
}

/// A rule changes neither the kind nor the size of an object.
pub proof fn lemma_signed_by_rule_keeps_size(
    rule: Rule,
    tree: JsonTree,
    signer: spec_fn(ImageView) -> Option<Seq<u8>>,
)
    requires
        tree is Object,
    ensures
        signed_by_rule(rule, tree, signer) is Object,
        tree_size(signed_by_rule(rule, tree, signer)) == tree_size(tree),
{
    if let Some(text) = rule_text(rule, tree) {
        crate::walk::lemma_with_text_keeps_size(
            tree,
            rule_path(rule),
            signed_text(rule_carrier(rule), text, signer),
        );
    }
}

/// The rules change neither the kind nor the size of an object.
pub proof fn lemma_signed_by_rules_keeps_size(
    tree: JsonTree,
    signer: spec_fn(ImageView) -> Option<Seq<u8>>,
)
    requires
        tree is Object,
    ensures
        signed_by_rules(tree, signer) is Object,
        tree_size(signed_by_rules(tree, signer)) == tree_size(tree),
{
    lemma_signed_by_rule_keeps_size(Rule::ImageFile, tree, signer);
    let tree = signed_by_rule(Rule::ImageFile, tree, signer);
    lemma_signed_by_rule_keeps_size(Rule::ImageUrl, tree, signer);
    let tree = signed_by_rule(Rule::ImageUrl, tree, signer);
    lemma_signed_by_rule_keeps_size(Rule::B64Json, tree, signer);
}

/// How many images are signed in a string.
pub open spec fn text_count(
    carrier: Carrier,
    text: Seq<char>,
    signer: spec_fn(ImageView) -> Option<Seq<u8>>,
) -> nat {
    match image_in(carrier, text) {
        Some(image) => if signer(image) is Some {
            1
        } else {
            0
        },
        None => 0,
    }
}

/// How many images are signed that a rule picks out of an object.
pub open spec fn rule_count(
    rule: Rule,
    tree: JsonTree,
    signer: spec_fn(ImageView) -> Option<Seq<u8>>,
) -> nat {
    match rule_text(rule, tree) {
        Some(text) => text_count(rule_carrier(rule), text, signer),
        None => 0,
    }
}

/// How many images are signed that the rules pick out of an object.
pub open spec fn rules_count(
    tree: JsonTree,
    signer: spec_fn(ImageView) -> Option<Seq<u8>>,
) -> nat {
    let one = signed_by_rule(Rule::ImageFile, tree, signer);
    let two = signed_by_rule(Rule::ImageUrl, one, signer);
    rule_count(Rule::ImageFile, tree, signer) + rule_count(Rule::ImageUrl, one, signer)
        + rule_count(Rule::B64Json, two, signer)
}

/// How many images are signed in a value.
pub open spec fn signed_count(
    tree: JsonTree,
    signer: spec_fn(ImageView) -> Option<Seq<u8>>,
) -> nat
    decreases tree_size(tree),
{
    match tree {
        JsonTree::Object(_) => {
            proof {
                lemma_signed_by_rules_keeps_size(tree, signer);
            }
            rules_count(tree, signer) + members_count(
                signed_by_rules(tree, signer)->Object_0,
                signer,
            )
        },
        JsonTree::Array(items) => items_count(items, signer),
        JsonTree::String(text) => if "data:image/"@.is_prefix_of(text) {
            text_count(Carrier::DataUri, text, signer)
        } else {
            0
        },
        _ => 0,
    }
}

/// How many images are signed in some items: the sum of the numbers in each.
pub open spec fn items_count(
    items: Seq<JsonTree>,
    signer: spec_fn(ImageView) -> Option<Seq<u8>>,
) -> nat
    decreases items_size(items),
{
    if items.len() == 0 {
        0
    } else {
        signed_count(items[0], signer) + items_count(items.drop_first(), signer)
    }
}

/// How many images are signed in some members: the sum of the numbers in each.
pub open spec fn members_count(
    members: Seq<(Seq<char>, JsonTree)>,
    signer: spec_fn(ImageView) -> Option<Seq<u8>>,
) -> nat
    decreases members_size(members),
{
    if members.len() == 0 {
        0
    } else {
        signed_count(members[0].1, signer) + members_count(members.drop_first(), signer)
    }
}

/// The signer does not sign what it has signed, and the base64 text of what it has signed reads
/// back.
pub open spec fn signs_once(signer: spec_fn(ImageView) -> Option<Seq<u8>>) -> bool {
    forall|image: ImageView|
        (#[trigger] signer(image)) matches Some(signed) ==> reads_back(signed) && (image_of(
            signed,
        ) matches Some(again) ==> signer(again) is None)
}

/// A string that the signer leaves as it is: it carries no image, or one that the signer refuses.
pub open spec fn is_settled(
    carrier: Carrier,
    text: Seq<char>,
    signer: spec_fn(ImageView) -> Option<Seq<u8>>,
) -> bool {
    image_in(carrier, text) matches Some(image) ==> signer(image) is None
}

/// The signer leaves a string as it is once it has had it.
pub proof fn lemma_text_settles(
    carrier: Carrier,
    text: Seq<char>,
    signer: spec_fn(ImageView) -> Option<Seq<u8>>,
)
    requires
        signs_once(signer),
    ensures
        is_settled(carrier, signed_text(carrier, text, signer), signer),
{
    if let Some(image) = image_in(carrier, text) {
        if let Some(signed) = signer(image) {
            match carrier {
                Carrier::Base64 => crate::image::lemma_signed_b64(signed),
                Carrier::DataUri => crate::image::lemma_signed_uri(text, signed),
            }
        }
    }
}

/// A text with a colon is not base64.
pub proof fn lemma_colon_is_not_base64(text: Seq<char>)
    requires
        text.contains(':'),
    ensures
        image_in(Carrier::Base64, text) is None,
{
    crate::text::lemma_trimmed_keeps(text, ':');
    let trimmed = crate::text::trimmed(text);
    let i = choose|i: int| 0 <= i < trimmed.len() && trimmed[i] == ':';
    if crate::encoding::is_base64_text(trimmed) {
        assert(crate::encoding::is_base64_char(trimmed[i]));
    }
}

/// What the walk makes of a string that starts like the data URI of an image starts like a data
/// URI.
proof fn lemma_uri_stays_uri(text: Seq<char>, signer: spec_fn(ImageView) -> Option<Seq<u8>>)
    requires
        "data:image/"@.is_prefix_of(text),
    ensures
        "data:"@.is_prefix_of(signed_text(Carrier::DataUri, text, signer)),
        signed_text(Carrier::DataUri, text, signer).contains(':'),
{
    reveal_strlit("data:image/");
    reveal_strlit("data:");
    let after = signed_text(Carrier::DataUri, text, signer);
    assert forall|i: int| 0 <= i < 5 implies after[i] == "data:"@[i] by {
        assert("data:image/"@[i] == text[i]);
    }
    assert(after.len() >= 5);
    assert(after.subrange(0, 5) =~= "data:"@);
    assert(after[4] == ':');
}

/// What the walk makes of a string, where a rule has had it as base64 before.
proof fn lemma_string_settles_b64(text: Seq<char>, signer: spec_fn(ImageView) -> Option<Seq<u8>>)
    requires
        is_settled(Carrier::Base64, text, signer),
    ensures
        signed_tree(JsonTree::String(text), signer) matches JsonTree::String(after) && is_settled(
            Carrier::Base64,
            after,
            signer,
        ),
{
    if "data:image/"@.is_prefix_of(text) {
        lemma_uri_stays_uri(text, signer);
        lemma_colon_is_not_base64(signed_text(Carrier::DataUri, text, signer));
    }
}

/// The members of a signed object are the signed members.
pub proof fn lemma_signed_field(
    members: Seq<(Seq<char>, JsonTree)>,
    key: Seq<char>,
    signer: spec_fn(ImageView) -> Option<Seq<u8>>,
)
    ensures
        field(JsonTree::Object(signed_members(members, signer)), key) == match field(
            JsonTree::Object(members),
            key,
        ) {
            Some(value) => Some(signed_tree(value, signer)),
            None => None,
        },
        signed_members(members, signer).len() == members.len(),
    decreases members.len(),
{
    if members.len() > 0 {
        let rest = members.drop_first();
        let signed = signed_members(members, signer);
        lemma_signed_field(rest, key, signer);
        lemma_key_index(members, key);
        lemma_key_index(rest, key);
        lemma_key_index(signed, key);
        lemma_key_index(signed_members(rest, signer), key);
        assert(signed.drop_first() =~= signed_members(rest, signer));
    }
}

/// A rule changes no member but the one that its path starts with.
pub proof fn lemma_rule_keeps_field(
    rule: Rule,
    tree: JsonTree,
    key: Seq<char>,
    signer: spec_fn(ImageView) -> Option<Seq<u8>>,
)
    requires
        tree is Object,
        key != rule_path(rule)[0],
    ensures
        field(signed_by_rule(rule, tree, signer), key) == field(tree, key),
{
    if let Some(text) = rule_text(rule, tree) {
        let path = rule_path(rule);
        let inner = field(tree, path[0])->0;
        crate::json::lemma_with_field(
            tree,
            path[0],
            with_text_at(
                inner,
                path.drop_first(),
                signed_text(rule_carrier(rule), text, signer),
            ),
            key,
        );
    }
}

/// A string that was put at the end of a path is found there.
proof fn lemma_text_put(tree: JsonTree, path: Seq<Seq<char>>, text: Seq<char>)
    requires
        text_at(tree, path) is Some,
    ensures
        text_at(with_text_at(tree, path, text), path) == Some(text),
    decreases path.len(),
{
    if path.len() > 0 {
        let inner = field(tree, path[0])->0;
        let after = with_text_at(inner, path.drop_first(), text);
        lemma_text_put(inner, path.drop_first(), text);
        crate::json::lemma_with_field(tree, path[0], after, path[0]);
    }
}

/// Once a rule has been applied to an object of the right type, the signer leaves the string that
/// the rule is about as it is.
proof fn lemma_rule_applied(
    rule: Rule,
    tree: JsonTree,
    signer: spec_fn(ImageView) -> Option<Seq<u8>>,
)
    requires
        signs_once(signer),
        rule_type(rule) matches Some(name) ==> field_is(tree, "type"@, name),
    ensures
        text_at(signed_by_rule(rule, tree, signer), rule_path(rule)) matches Some(text)
            ==> is_settled(rule_carrier(rule), text, signer),
{
    if let Some(text) = rule_text(rule, tree) {
        lemma_text_settles(rule_carrier(rule), text, signer);
        lemma_text_put(tree, rule_path(rule), signed_text(rule_carrier(rule), text, signer));
    }
}

/// The names that the rules go by differ from each other, and none starts like a data URI.
pub proof fn lemma_names()
    ensures
        "type"@ != "image_file"@,
        "type"@ != "image_url"@,
        "type"@ != "b64_json"@,
        "data"@ != "image_file"@,
        "data"@ != "image_url"@,
        "data"@ != "b64_json"@,
        "url"@ != "image_file"@,
        "url"@ != "image_url"@,
        "url"@ != "b64_json"@,
        "image_file"@ != "image_url"@,
        "image_file"@ != "b64_json"@,
        "image_url"@ != "b64_json"@,
        !"data:"@.is_prefix_of("image_file"@),
        !"data:"@.is_prefix_of("image_url"@),
{
    reveal_strlit("type");
    reveal_strlit("image_file");
    reveal_strlit("image_url");
    reveal_strlit("b64_json");
    reveal_strlit("data");
    reveal_strlit("url");
    reveal_strlit("data:");
    assert("type"@.len() == 4 && "data"@.len() == 4 && "url"@.len() == 3);
    assert("image_file"@.len() == 10 && "image_url"@.len() == 9 && "b64_json"@.len() == 8);
    assert("data:"@[0] != "image_file"@[0]);
    assert("data:"@[0] != "image_url"@[0]);
}

/// A member that no rule is about is walked as it was.
pub proof fn lemma_plain_field(
    tree: JsonTree,
    key: Seq<char>,
    signer: spec_fn(ImageView) -> Option<Seq<u8>>,
)
    requires
        tree is Object,
        key != "image_file"@,
        key != "image_url"@,
        key != "b64_json"@,
    ensures
        field(signed_tree(tree, signer), key) == match field(tree, key) {
            Some(value) => Some(signed_tree(value, signer)),
            None => None,
        },
{
    let one = signed_by_rule(Rule::ImageFile, tree, signer);
    let two = signed_by_rule(Rule::ImageUrl, one, signer);
    let ruled = signed_by_rule(Rule::B64Json, two, signer);
    lemma_signed_by_rule_keeps_size(Rule::ImageFile, tree, signer);
    lemma_signed_by_rule_keeps_size(Rule::ImageUrl, one, signer);
    lemma_signed_by_rule_keeps_size(Rule::B64Json, two, signer);
    lemma_rule_keeps_field(Rule::ImageFile, tree, key, signer);
    lemma_rule_keeps_field(Rule::ImageUrl, one, key, signer);
    lemma_rule_keeps_field(Rule::B64Json, two, key, signer);
    lemma_signed_field(ruled->Object_0, key, signer);
}

/// An object has the type that it had.
proof fn lemma_type_stays(
    tree: JsonTree,
    name: Seq<char>,
    signer: spec_fn(ImageView) -> Option<Seq<u8>>,
)
    requires
        tree is Object,
        !"data:"@.is_prefix_of(name),
        field_is(signed_tree(tree, signer), "type"@, name),
    ensures
        field_is(tree, "type"@, name),
{
    lemma_names();
    lemma_plain_field(tree, "type"@, signer);
    if let Some(JsonTree::String(text)) = field(tree, "type"@) {
        if "data:image/"@.is_prefix_of(text) {
            lemma_uri_stays_uri(text, signer);
        }
    }
}

/// What the walk makes of a string that the signer leaves as it is, it leaves as it is.
proof fn lemma_string_settles(
    carrier: Carrier,
    text: Seq<char>,
    signer: spec_fn(ImageView) -> Option<Seq<u8>>,
)
    requires
        is_settled(carrier, text, signer),
    ensures
        signed_tree(JsonTree::String(text), signer) matches JsonTree::String(after) && is_settled(
            carrier,
            after,
            signer,
        ),
{
    if carrier is Base64 {
        lemma_string_settles_b64(text, signer);
    }
}

/// The signer leaves the string that a rule picks out of a signed object as it is.
proof fn lemma_rule_settles(
    rule: Rule,
    tree: JsonTree,
    signer: spec_fn(ImageView) -> Option<Seq<u8>>,
)
    requires
        signs_once(signer),
        tree is Object,
    ensures
        rule_text(rule, signed_tree(tree, signer)) matches Some(text) ==> is_settled(
            rule_carrier(rule),
            text,
            signer,
        ),
{
    let whole = signed_tree(tree, signer);
    if rule_text(rule, whole) is Some {
        let one = signed_by_rule(Rule::ImageFile, tree, signer);
        let two = signed_by_rule(Rule::ImageUrl, one, signer);
        let ruled = signed_by_rule(Rule::B64Json, two, signer);
        lemma_names();
        lemma_signed_by_rule_keeps_size(Rule::ImageFile, tree, signer);
        lemma_signed_by_rule_keeps_size(Rule::ImageUrl, one, signer);
        lemma_signed_by_rule_keeps_size(Rule::B64Json, two, signer);
        lemma_rule_keeps_field(Rule::ImageFile, tree, "type"@, signer);
        if let Some(name) = rule_type(rule) {
            lemma_type_stays(tree, name, signer);
        }
        let path = rule_path(rule);
        let before = match rule {
            Rule::ImageFile => tree,
            Rule::ImageUrl => one,
            Rule::B64Json => two,
        };
        lemma_rule_applied(rule, before, signer);
        let applied = signed_by_rule(rule, before, signer);
        assert(field(ruled, path[0]) == field(applied, path[0])) by {
            match rule {
                Rule::ImageFile => {
                    lemma_rule_keeps_field(Rule::ImageUrl, one, path[0], signer);
                    lemma_rule_keeps_field(Rule::B64Json, two, path[0], signer);
                },
                Rule::ImageUrl => {
                    lemma_rule_keeps_field(Rule::B64Json, two, path[0], signer);
                },
                Rule::B64Json => {},
            }
        }
        lemma_signed_field(ruled->Object_0, path[0], signer);
        let member = field(ruled, path[0])->0;
        assert(field(whole, path[0]) == Some(signed_tree(member, signer)));
        reveal_with_fuel(text_at, 3);
        let end = if rule is B64Json {
            member
        } else {
            assert(signed_tree(member, signer) is Object);
            lemma_plain_field(member, path[1], signer);
            field(member, path[1])->0
        };
        assert(end is String);
        lemma_string_settles(rule_carrier(rule), end->String_0, signer);
    }
}

/// The rules leave a signed object as it is.
proof fn lemma_rules_settle(tree: JsonTree, signer: spec_fn(ImageView) -> Option<Seq<u8>>)
    requires
        signs_once(signer),
        tree is Object,
    ensures
        signed_by_rules(signed_tree(tree, signer), signer) == signed_tree(tree, signer),
{
    let whole = signed_tree(tree, signer);
    assert forall|rule: Rule| #[trigger] signed_by_rule(rule, whole, signer) == whole by {
        lemma_rule_settles(rule, tree, signer);
        crate::walk::lemma_same_text(whole, rule_path(rule));
    }
}

/// A signer that does not sign what it has signed leaves a value as it is once it has had it: no
/// image is signed twice.
pub proof fn law_no_image_is_signed_twice(
    tree: JsonTree,
    signer: spec_fn(ImageView) -> Option<Seq<u8>>,
)
    requires
        signs_once(signer),
    ensures
        signed_tree(signed_tree(tree, signer), signer) == signed_tree(tree, signer),
    decreases tree_size(tree),
{
    match tree {
        JsonTree::Object(_) => {
            lemma_signed_by_rules_keeps_size(tree, signer);
            lemma_rules_settle(tree, signer);
            lemma_members_settle(signed_by_rules(tree, signer)->Object_0, signer);
        },
        JsonTree::Array(items) => lemma_items_settle(items, signer),
        JsonTree::String(text) => lemma_text_settles(Carrier::DataUri, text, signer),
        _ => {},
    }
}

proof fn lemma_items_settle(
    items: Seq<JsonTree>,
    signer: spec_fn(ImageView) -> Option<Seq<u8>>,
)
    requires
        signs_once(signer),
    ensures
        signed_items(signed_items(items, signer), signer) == signed_items(items, signer),
    decreases items_size(items),
{
    if items.len() > 0 {
        law_no_image_is_signed_twice(items[0], signer);
        lemma_items_settle(items.drop_first(), signer);
        let signed = signed_items(items, signer);
        assert(signed.drop_first() =~= signed_items(items.drop_first(), signer));
    }
}

proof fn lemma_members_settle(
    members: Seq<(Seq<char>, JsonTree)>,
    signer: spec_fn(ImageView) -> Option<Seq<u8>>,
)
    requires
        signs_once(signer),
    ensures
        signed_members(signed_members(members, signer), signer) == signed_members(members, signer),
    decreases members_size(members),
{
    if members.len() > 0 {
        law_no_image_is_signed_twice(members[0].1, signer);
        lemma_members_settle(members.drop_first(), signer);
        let signed = signed_members(members, signer);
        assert(signed.drop_first() =~= signed_members(members.drop_first(), signer));
    }
}

/// A value that the signer leaves as it is: it refuses every image that a walk through it meets.
pub open spec fn is_settled_tree(
    tree: JsonTree,
    signer: spec_fn(ImageView) -> Option<Seq<u8>>,
) -> bool
    decreases tree,
{
    match tree {
        JsonTree::Object(members) => {
            &&& forall|rule: Rule|
                (#[trigger] rule_text(rule, tree)) matches Some(text) ==> is_settled(
                    rule_carrier(rule),
                    text,
                    signer,
                )
            &&& forall|i: int|
                0 <= i < members.len() ==> is_settled_tree((#[trigger] members[i]).1, signer)
        },
        JsonTree::Array(items) => forall|i: int|
            0 <= i < items.len() ==> is_settled_tree(#[trigger] items[i], signer),
        JsonTree::String(text) => "data:image/"@.is_prefix_of(text) ==> is_settled(
            Carrier::DataUri,
            text,
            signer,
        ),
        _ => true,
    }
}

/// A signer that does not sign what it has signed refuses every image in a value that it has had.
pub proof fn law_signed_value_is_settled(
    tree: JsonTree,
    signer: spec_fn(ImageView) -> Option<Seq<u8>>,
)
    requires
        signs_once(signer),
    ensures
        is_settled_tree(signed_tree(tree, signer), signer),
    decreases tree_size(tree),
{
    match tree {
        JsonTree::Object(_) => {
            let whole = signed_tree(tree, signer);
            lemma_signed_by_rules_keeps_size(tree, signer);
            lemma_signed_members_are_settled(signed_by_rules(tree, signer)->Object_0, signer);
            let members = signed_members(signed_by_rules(tree, signer)->Object_0, signer);
            assert forall|i: int| 0 <= i < members.len() implies is_settled_tree(
                (#[trigger] members[i]).1,
                signer,
            ) by {}
            assert forall|rule: Rule|
                (#[trigger] rule_text(rule, whole)) matches Some(text) ==> is_settled(
                    rule_carrier(rule),
                    text,
                    signer,
                ) by {
                lemma_rule_settles(rule, tree, signer);
            }
        },
        JsonTree::Array(items) => {
            lemma_signed_items_are_settled(items, signer);
            let signed = signed_items(items, signer);
            assert forall|i: int| 0 <= i < signed.len() implies is_settled_tree(
                #[trigger] signed[i],
                signer,
            ) by {}
            assert(is_settled_tree(JsonTree::Array(signed), signer));
        },
        JsonTree::String(text) => lemma_text_settles(Carrier::DataUri, text, signer),
        _ => {},
    }
}

proof fn lemma_signed_items_are_settled(
    items: Seq<JsonTree>,
    signer: spec_fn(ImageView) -> Option<Seq<u8>>,
)
    requires
        signs_once(signer),
    ensures
        forall|i: int|
            0 <= i < signed_items(items, signer).len() ==> is_settled_tree(
                #[trigger] signed_items(items, signer)[i],
                signer,
            ),
    decreases items_size(items),
{
    if items.len() > 0 {
        law_signed_value_is_settled(items[0], signer);
        let rest = items.drop_first();
        lemma_signed_items_are_settled(rest, signer);
        let signed = signed_items(items, signer);
        assert forall|i: int| 0 <= i < signed.len() implies is_settled_tree(
            #[trigger] signed[i],
            signer,
        ) by {
            if i > 0 {
                assert(signed[i] == signed_items(rest, signer)[i - 1]);
            }
        }
    }
}

proof fn lemma_signed_members_are_settled(
    members: Seq<(Seq<char>, JsonTree)>,
    signer: spec_fn(ImageView) -> Option<Seq<u8>>,
)
    requires
        signs_once(signer),
    ensures
        forall|i: int|
            0 <= i < signed_members(members, signer).len() ==> is_settled_tree(
                (#[trigger] signed_members(members, signer)[i]).1,
                signer,
            ),
    decreases members_size(members),
{
    if members.len() > 0 {
        law_signed_value_is_settled(members[0].1, signer);
        let rest = members.drop_first();
        lemma_signed_members_are_settled(rest, signer);
        let signed = signed_members(members, signer);
        assert forall|i: int| 0 <= i < signed.len() implies is_settled_tree(
            (#[trigger] signed[i]).1,
            signer,
        ) by {
            if i > 0 {
                assert(signed[i] == signed_members(rest, signer)[i - 1]);
            }
        }
    }
}

/// Members with the same keys have a key at the same index.
pub proof fn lemma_same_key_index(
    a: Seq<(Seq<char>, JsonTree)>,
    b: Seq<(Seq<char>, JsonTree)>,
    key: Seq<char>,
)
    requires
        a.len() == b.len(),
        forall|i: int| 0 <= i < a.len() ==> (#[trigger] a[i]).0 == b[i].0,
    ensures
        key_index(a, key) == key_index(b, key),
    decreases a.len(),
{
    if a.len() > 0 {
        assert(a[0].0 == b[0].0);
        assert forall|i: int| 0 <= i < a.len() - 1 implies (#[trigger] a.drop_first()[i]).0
            == b.drop_first()[i].0 by {
            assert(a[i + 1].0 == b[i + 1].0);
        }
        lemma_same_key_index(a.drop_first(), b.drop_first(), key);
    }
}

/// Fractions do not count for the members of an object.
pub proof fn lemma_same_member(a: JsonTree, b: JsonTree, key: Seq<char>)
    requires
        same_but_fractions(a, b),
    ensures
        match (field(a, key), field(b, key)) {
            (Some(x), Some(y)) => same_but_fractions(x, y),
            (None, None) => true,
            _ => false,
        },
{
    if let (JsonTree::Object(x), JsonTree::Object(y)) = (a, b) {
        lemma_same_key_index(x, y, key);
        lemma_key_index(x, key);
        if let Some(i) = key_index(x, key) {
            assert(same_but_fractions(x[i].1, y[i].1));
        }
    }
}

/// Fractions do not count for the string that a path leads to.
proof fn lemma_same_text_at(a: JsonTree, b: JsonTree, path: Seq<Seq<char>>)
    requires
        same_but_fractions(a, b),
    ensures
        text_at(a, path) == text_at(b, path),
    decreases path.len(),
{
    if path.len() > 0 {
        lemma_same_member(a, b, path[0]);
        if let (Some(x), Some(y)) = (field(a, path[0]), field(b, path[0])) {
            lemma_same_text_at(x, y, path.drop_first());
        }
    }
}

/// Fractions do not count for whether the signer leaves a value as it is.
pub proof fn lemma_same_is_settled(
    a: JsonTree,
    b: JsonTree,
    signer: spec_fn(ImageView) -> Option<Seq<u8>>,
)
    requires
        same_but_fractions(a, b),
        is_settled_tree(a, signer),
    ensures
        is_settled_tree(b, signer),
    decreases a,
{
    match (a, b) {
        (JsonTree::Array(x), JsonTree::Array(y)) => {
            assert forall|i: int| 0 <= i < y.len() implies is_settled_tree(
                #[trigger] y[i],
                signer,
            ) by {
                lemma_same_is_settled(x[i], y[i], signer);
            }
        },
        (JsonTree::Object(x), JsonTree::Object(y)) => {
            assert forall|i: int| 0 <= i < y.len() implies is_settled_tree(
                (#[trigger] y[i]).1,
                signer,
            ) by {
                assert(same_but_fractions(x[i].1, y[i].1));
                lemma_same_is_settled(x[i].1, y[i].1, signer);
            }
            assert forall|rule: Rule|
                (#[trigger] rule_text(rule, b)) matches Some(text) ==> is_settled(
                    rule_carrier(rule),
                    text,
                    signer,
                ) by {
                lemma_same_member(a, b, "type"@);
                lemma_same_text_at(a, b, rule_path(rule));
                assert(rule_text(rule, a) == rule_text(rule, b));
            }
        },
        _ => {},
    }
}

} // verus!
