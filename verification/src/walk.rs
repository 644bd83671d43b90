//! The search for images in a JSON value.
//!
//! The value is walked from the outside in, each value before the values in it. Every image that
//! is met is handed out for signing, and the walk goes on once the answer is there: a signed image,
//! which takes the place of the image, or nothing, which leaves the value as it is.

use vstd::prelude::*;

use crate::image::{image_in_b64, image_in_data_uri, signed_uri, ImageView};
use crate::json::{field, field_is, text_of, with_field, JsonTree};

verus! {

/// How a string carries an image.
#[derive(Debug, Clone, Copy)]
pub enum Carrier {
    /// The string is the base64 text of the image.
    Base64,
    /// The string is a data URI with the image.
    DataUri,
}

/// The image that a string carries.
pub open spec fn image_in(carrier: Carrier, text: Seq<char>) -> Option<ImageView> {
    match carrier {
        Carrier::Base64 => image_in_b64(text),
        Carrier::DataUri => image_in_data_uri(text),
    }
}

/// The string that carries `signed` in place of the image that `text` carries.
pub open spec fn rewritten(carrier: Carrier, text: Seq<char>, signed: Seq<u8>) -> Seq<char> {
    match carrier {
        Carrier::Base64 => crate::encoding::base64_encoded(signed),
        Carrier::DataUri => signed_uri(text, signed),
    }
}

/// Where a walk stands.
pub struct Tally {
    /// How many answers it has taken.
    pub used: nat,
    /// How many images it has replaced.
    pub stamped: nat,
    /// The image that it has no answer for yet. The walk is at rest there.
    pub asks: Option<ImageView>,
}

/// A walk that is about to begin.
pub open spec fn fresh() -> Tally {
    Tally { used: 0, stamped: 0, asks: None }
}

/// A visit to a string: the image in it is replaced by the next answer.
pub open spec fn visit_text(
    carrier: Carrier,
    text: Seq<char>,
    replies: Seq<Option<Seq<u8>>>,
    tally: Tally,
) -> (Seq<char>, Tally) {
    match image_in(carrier, text) {
        Some(image) if tally.asks is None => if tally.used < replies.len() {
            match replies[tally.used as int] {
                Some(signed) => (
                    rewritten(carrier, text, signed),
                    Tally { used: tally.used + 1, stamped: tally.stamped + 1, asks: None },
                ),
                None => (text, Tally { used: tally.used + 1, ..tally }),
            }
        } else {
            (text, Tally { asks: Some(image), ..tally })
        },
        _ => (text, tally),
    }
}

/// The members of an object that hold an image whatever their value looks like.
#[derive(Debug, Clone, Copy)]
pub enum Rule {
    /// `image_file.data` of an object with the type `image_file`, as base64.
    ImageFile,
    /// `image_url.url` of an object with the type `image_url`, as a data URI.
    ImageUrl,
    /// `b64_json` of any object, as base64.
    B64Json,
}

/// The type that an object must have for a rule to apply to it.
pub open spec fn rule_type(rule: Rule) -> Option<Seq<char>> {
    match rule {
        Rule::ImageFile => Some("image_file"@),
        Rule::ImageUrl => Some("image_url"@),
        Rule::B64Json => None,
    }
}

/// The member that a rule is about.
pub open spec fn rule_path(rule: Rule) -> Seq<Seq<char>> {
    match rule {
        Rule::ImageFile => seq!["image_file"@, "data"@],
        Rule::ImageUrl => seq!["image_url"@, "url"@],
        Rule::B64Json => seq!["b64_json"@],
    }
}

/// How that member carries an image.
pub open spec fn rule_carrier(rule: Rule) -> Carrier {
    match rule {
        Rule::ImageFile => Carrier::Base64,
        Rule::ImageUrl => Carrier::DataUri,
        Rule::B64Json => Carrier::Base64,
    }
}

/// The string that a path of keys leads to.
pub open spec fn text_at(tree: JsonTree, path: Seq<Seq<char>>) -> Option<Seq<char>>
    decreases path.len(),
{
    if path.len() == 0 {
        text_of(tree)
    } else {
        match field(tree, path[0]) {
            Some(inner) => text_at(inner, path.drop_first()),
            None => None,
        }
    }
}

/// `tree` with the string `text` where a path of keys leads to.
pub open spec fn with_text_at(tree: JsonTree, path: Seq<Seq<char>>, text: Seq<char>) -> JsonTree
    decreases path.len(),
{
    if path.len() == 0 {
        JsonTree::String(text)
    } else {
        match field(tree, path[0]) {
            Some(inner) => with_field(
                tree,
                path[0],
                with_text_at(inner, path.drop_first(), text),
            ),
            None => tree,
        }
    }
}

/// The string that a rule picks out of an object.
pub open spec fn rule_text(rule: Rule, tree: JsonTree) -> Option<Seq<char>> {
    match rule_type(rule) {
        Some(name) if !field_is(tree, "type"@, name) => None,
        _ => text_at(tree, rule_path(rule)),
    }
}

/// A visit to the string that a rule picks out of an object.
pub open spec fn apply_rule(
    rule: Rule,
    tree: JsonTree,
    replies: Seq<Option<Seq<u8>>>,
    tally: Tally,
) -> (JsonTree, Tally) {
    match rule_text(rule, tree) {
        Some(text) => {
            let (text, tally) = visit_text(rule_carrier(rule), text, replies, tally);
            (with_text_at(tree, rule_path(rule), text), tally)
        },
        None => (tree, tally),
    }
}

/// The rules from `rule` on, one after the other.
pub open spec fn apply_rules_from(
    rule: Rule,
    tree: JsonTree,
    replies: Seq<Option<Seq<u8>>>,
    tally: Tally,
) -> (JsonTree, Tally)
    decreases
            (match rule {
                Rule::ImageFile => 2nat,
                Rule::ImageUrl => 1nat,
                Rule::B64Json => 0nat,
            }),
{
    let (tree, tally) = apply_rule(rule, tree, replies, tally);
    match rule {
        Rule::ImageFile => apply_rules_from(Rule::ImageUrl, tree, replies, tally),
        Rule::ImageUrl => apply_rules_from(Rule::B64Json, tree, replies, tally),
        Rule::B64Json => (tree, tally),
    }
}

/// The number of values in a tree, with one more for each place in an array or an object.
pub open spec fn tree_size(tree: JsonTree) -> nat
    decreases tree, 0nat,
{
    match tree {
        JsonTree::Array(items) => 1 + items_size(items),
        JsonTree::Object(members) => 1 + members_size(members),
        _ => 1,
    }
}

pub open spec fn items_size(items: Seq<JsonTree>) -> nat
    decreases items, items.len(),
{
    if items.len() == 0 {
        0
    } else {
        1 + tree_size(items[0]) + items_size(items.drop_first())
    }
}

pub open spec fn members_size(members: Seq<(Seq<char>, JsonTree)>) -> nat
    decreases members, members.len(),
{
    if members.len() == 0 {
        0
    } else {
        1 + tree_size(members[0].1) + members_size(members.drop_first())
    }
}

/// The walk through a value: an object is searched by the rules before its members are walked, and
/// a string that starts like the data URI of an image is visited as one.
pub open spec fn stamp_tree(
    tree: JsonTree,
    replies: Seq<Option<Seq<u8>>>,
    tally: Tally,
) -> (JsonTree, Tally)
    decreases tree_size(tree),
{
    match tree {
        JsonTree::Object(_) => {
            proof {
                lemma_rules_keep_size(Rule::ImageFile, tree, replies, tally);
            }
            let (ruled, tally) = apply_rules_from(Rule::ImageFile, tree, replies, tally);
            let (members, tally) = stamp_members(ruled->Object_0, replies, tally);
            (JsonTree::Object(members), tally)
        },
        JsonTree::Array(items) => {
            let (items, tally) = stamp_items(items, replies, tally);
            (JsonTree::Array(items), tally)
        },
        JsonTree::String(text) => if "data:image/"@.is_prefix_of(text) {
            let (text, tally) = visit_text(Carrier::DataUri, text, replies, tally);
            (JsonTree::String(text), tally)
        } else {
            (tree, tally)
        },
        _ => (tree, tally),
    }
}

/// The walk through the items of an array, in their order.
pub open spec fn stamp_items(
    items: Seq<JsonTree>,
    replies: Seq<Option<Seq<u8>>>,
    tally: Tally,
) -> (Seq<JsonTree>, Tally)
    decreases items_size(items),
{
    if items.len() == 0 {
        (items, tally)
    } else {
        let (first, tally) = stamp_tree(items[0], replies, tally);
        let (rest, tally) = stamp_items(items.drop_first(), replies, tally);
        (seq![first] + rest, tally)
    }
}

/// The walk through the members of an object, in their order.
pub open spec fn stamp_members(
    members: Seq<(Seq<char>, JsonTree)>,
    replies: Seq<Option<Seq<u8>>>,
    tally: Tally,
) -> (Seq<(Seq<char>, JsonTree)>, Tally)
    decreases members_size(members),
{
    if members.len() == 0 {
        (members, tally)
    } else {
        let (first, tally) = stamp_tree(members[0].1, replies, tally);
        let (rest, tally) = stamp_members(members.drop_first(), replies, tally);
        (seq![(members[0].0, first)] + rest, tally)
    }
}

proof fn lemma_members_size_update(members: Seq<(Seq<char>, JsonTree)>, i: int, value: JsonTree)
    requires
        0 <= i < members.len(),
        tree_size(value) == tree_size(members[i].1),
    ensures
        members_size(members.update(i, (members[i].0, value))) == members_size(members),
    decreases members.len(),
{
    let updated = members.update(i, (members[i].0, value));
    if i == 0 {
        assert(updated.drop_first() =~= members.drop_first());
    } else {
        lemma_members_size_update(members.drop_first(), i - 1, value);
        assert(updated.drop_first() =~= members.drop_first().update(
            i - 1,
            (members.drop_first()[i - 1].0, value),
        ));
    }
}

/// A string in the place of a string changes neither the kind nor the size of a value.
pub proof fn lemma_with_text_keeps_size(tree: JsonTree, path: Seq<Seq<char>>, text: Seq<char>)
    requires
        text_at(tree, path) is Some,
    ensures
        tree_size(with_text_at(tree, path, text)) == tree_size(tree),
        path.len() > 0 ==> tree is Object && with_text_at(tree, path, text) is Object,
    decreases path.len(),
{
    if path.len() > 0 {
        let inner = field(tree, path[0])->0;
        lemma_with_text_keeps_size(inner, path.drop_first(), text);
        let members = tree->Object_0;
        crate::json::lemma_key_index(members, path[0]);
        let i = crate::json::key_index(members, path[0])->0;
        lemma_members_size_update(members, i, with_text_at(inner, path.drop_first(), text));
    }
}

/// The rules change neither the kind nor the size of an object.
pub proof fn lemma_rules_keep_size(
    rule: Rule,
    tree: JsonTree,
    replies: Seq<Option<Seq<u8>>>,
    tally: Tally,
)
    requires
        tree is Object,
    ensures
        apply_rules_from(rule, tree, replies, tally).0 is Object,
        tree_size(apply_rules_from(rule, tree, replies, tally).0) == tree_size(tree),
    decreases
            (match rule {
                Rule::ImageFile => 2nat,
                Rule::ImageUrl => 1nat,
                Rule::B64Json => 0nat,
            }),
{
    if let Some(text) = rule_text(rule, tree) {
        let (text, tally) = visit_text(rule_carrier(rule), text, replies, tally);
        lemma_with_text_keeps_size(tree, rule_path(rule), text);
    }
    let (tree, tally) = apply_rule(rule, tree, replies, tally);
    match rule {
        Rule::ImageFile => lemma_rules_keep_size(Rule::ImageUrl, tree, replies, tally),
        Rule::ImageUrl => lemma_rules_keep_size(Rule::B64Json, tree, replies, tally),
        Rule::B64Json => {},
    }
}

/// A string that is replaced by itself leaves everything as it is.
pub proof fn lemma_same_text(tree: JsonTree, path: Seq<Seq<char>>)
    ensures
        text_at(tree, path) matches Some(text) ==> with_text_at(tree, path, text) == tree,
    decreases path.len(),
{
    if path.len() > 0 && text_at(tree, path) is Some {
        let inner = field(tree, path[0])->0;
        lemma_same_text(inner, path.drop_first());
        let members = tree->Object_0;
        crate::json::lemma_key_index(members, path[0]);
        let i = crate::json::key_index(members, path[0])->0;
        assert(members.update(i, (members[i].0, inner)) =~= members);
    }
}

/// A walk at rest stays at rest.
pub proof fn lemma_at_rest(tree: JsonTree, replies: Seq<Option<Seq<u8>>>, tally: Tally)
    requires
        tally.asks is Some,
    ensures
        stamp_tree(tree, replies, tally) == (tree, tally),
    decreases tree_size(tree),
{
    match tree {
        JsonTree::Object(_) => {
            lemma_rules_keep_size(Rule::ImageFile, tree, replies, tally);
            lemma_rules_at_rest(Rule::ImageFile, tree, replies, tally);
            let (ruled, _) = apply_rules_from(Rule::ImageFile, tree, replies, tally);
            lemma_members_at_rest(ruled->Object_0, replies, tally);
        },
        JsonTree::Array(items) => {
            lemma_items_at_rest(items, replies, tally);
        },
        _ => {},
    }
}

pub proof fn lemma_rules_at_rest(
    rule: Rule,
    tree: JsonTree,
    replies: Seq<Option<Seq<u8>>>,
    tally: Tally,
)
    requires
        tally.asks is Some,
    ensures
        apply_rules_from(rule, tree, replies, tally) == (tree, tally),
    decreases
            (match rule {
                Rule::ImageFile => 2nat,
                Rule::ImageUrl => 1nat,
                Rule::B64Json => 0nat,
            }),
{
    lemma_same_text(tree, rule_path(rule));
    let (ruled, _) = apply_rule(rule, tree, replies, tally);
    match rule {
        Rule::ImageFile => lemma_rules_at_rest(Rule::ImageUrl, ruled, replies, tally),
        Rule::ImageUrl => lemma_rules_at_rest(Rule::B64Json, ruled, replies, tally),
        Rule::B64Json => {},
    }
}

pub proof fn lemma_items_at_rest(
    items: Seq<JsonTree>,
    replies: Seq<Option<Seq<u8>>>,
    tally: Tally,
)
    requires
        tally.asks is Some,
    ensures
        stamp_items(items, replies, tally) == (items, tally),
    decreases items_size(items),
{
    if items.len() > 0 {
        lemma_at_rest(items[0], replies, tally);
        lemma_items_at_rest(items.drop_first(), replies, tally);
        assert(seq![items[0]] + items.drop_first() =~= items);
    }
}

pub proof fn lemma_members_at_rest(
    members: Seq<(Seq<char>, JsonTree)>,
    replies: Seq<Option<Seq<u8>>>,
    tally: Tally,
)
    requires
        tally.asks is Some,
    ensures
        stamp_members(members, replies, tally) == (members, tally),
    decreases members_size(members),
{
    if members.len() > 0 {
        lemma_at_rest(members[0].1, replies, tally);
        lemma_members_at_rest(members.drop_first(), replies, tally);
        assert(seq![(members[0].0, members[0].1)] + members.drop_first() =~= members);
    }
}

} // verus!
