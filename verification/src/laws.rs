//! What holds of the walk as a whole.

use vstd::prelude::*;

use crate::body::{body_outcome, Outcome};
use crate::image::{image_in_b64, image_in_data_uri};
use crate::json::{distinct_keys, is_exact, key_index, lemma_key_index, nests_within, JsonTree};
use crate::json::same_but_fractions;
use crate::reply::{any_failed, none_signed, signed_parts, ReplyView};
use crate::sse::{event_outcome, event_value};
use crate::walk::{apply_rule, apply_rules_from, fresh, lemma_rules_keep_size, rule_path, rule_text};
use crate::walk::{items_size, members_size, stamp_items, stamp_members, stamp_tree, tree_size};
use crate::walk::{lemma_items_at_rest, lemma_members_at_rest, lemma_rules_at_rest};
use crate::walk::{text_at, visit_text, with_text_at, Carrier, Rule, Tally};
use crate::walker::signatures;

verus! {

/// A string carries an image, in one way or the other.
pub open spec fn carries_image(text: Seq<char>) -> bool {
    image_in_b64(text) is Some || image_in_data_uri(text) is Some
}

/// `b` is `a`, except that strings that carry an image may have become other strings. Kinds, keys,
/// order, lengths, numbers and all other strings are the same.
pub open spec fn differ_in_images(a: JsonTree, b: JsonTree) -> bool
    decreases a,
{
    match (a, b) {
        (JsonTree::String(text), JsonTree::String(other)) => text == other || carries_image(text),
        (JsonTree::Array(items), JsonTree::Array(others)) => {
            &&& items.len() == others.len()
            &&& forall|i: int|
                0 <= i < items.len() ==> differ_in_images(#[trigger] items[i], others[i])
        },
        (JsonTree::Object(members), JsonTree::Object(others)) => {
            &&& members.len() == others.len()
            &&& forall|i: int|
                0 <= i < members.len() ==> (#[trigger] members[i]).0 == others[i].0
                    && differ_in_images(members[i].1, others[i].1)
        },
        _ => a == b,
    }
}

pub proof fn lemma_differ_reflexive(a: JsonTree)
    ensures
        differ_in_images(a, a),
    decreases a,
{
    match a {
        JsonTree::Array(items) => {
            assert forall|i: int| 0 <= i < items.len() implies differ_in_images(
                #[trigger] items[i],
                items[i],
            ) by {
                lemma_differ_reflexive(items[i]);
            }
        },
        JsonTree::Object(members) => {
            assert forall|i: int| 0 <= i < members.len() implies differ_in_images(
                (#[trigger] members[i]).1,
                members[i].1,
            ) by {
                lemma_differ_reflexive(members[i].1);
            }
        },
        _ => {},
    }
}

pub proof fn lemma_differ_transitive(a: JsonTree, b: JsonTree, c: JsonTree)
    requires
        differ_in_images(a, b),
        differ_in_images(b, c),
    ensures
        differ_in_images(a, c),
    decreases a,
{
    match (a, b, c) {
        (JsonTree::Array(x), JsonTree::Array(y), JsonTree::Array(z)) => {
            assert forall|i: int| 0 <= i < x.len() implies differ_in_images(
                #[trigger] x[i],
                z[i],
            ) by {
                assert(differ_in_images(y[i], z[i]));
                lemma_differ_transitive(x[i], y[i], z[i]);
            }
        },
        (JsonTree::Object(x), JsonTree::Object(y), JsonTree::Object(z)) => {
            assert forall|i: int| 0 <= i < x.len() implies (#[trigger] x[i]).0 == z[i].0
                && differ_in_images(x[i].1, z[i].1) by {
                assert(y[i].0 == z[i].0);
                lemma_differ_transitive(x[i].1, y[i].1, z[i].1);
            }
        },
        _ => {},
    }
}

/// Where a value has distinct keys, so has one that differs from it in images.
pub proof fn lemma_keys_stay_distinct(a: JsonTree, b: JsonTree)
    requires
        differ_in_images(a, b),
        distinct_keys(a),
    ensures
        distinct_keys(b),
    decreases a,
{
    match (a, b) {
        (JsonTree::Array(x), JsonTree::Array(y)) => {
            assert forall|i: int| 0 <= i < y.len() implies distinct_keys(#[trigger] y[i]) by {
                assert(differ_in_images(x[i], y[i]));
                lemma_keys_stay_distinct(x[i], y[i]);
            }
        },
        (JsonTree::Object(x), JsonTree::Object(y)) => {
            assert forall|i: int| 0 <= i < y.len() implies distinct_keys((#[trigger] y[i]).1) by {
                assert(differ_in_images(x[i].1, y[i].1));
                lemma_keys_stay_distinct(x[i].1, y[i].1);
            }
            assert forall|i: int, j: int| 0 <= i < j < y.len() implies (#[trigger] y[i]).0 != (
            #[trigger] y[j]).0 by {
                assert(x[i].0 == y[i].0 && x[j].0 == y[j].0);
            }
        },
        _ => {},
    }
}

/// A value that differs from another in images has numbers of the same kind and nests as deep.
pub proof fn lemma_form_stays(a: JsonTree, b: JsonTree, levels: nat)
    requires
        differ_in_images(a, b),
    ensures
        is_exact(a) ==> is_exact(b),
        nests_within(a, levels) ==> nests_within(b, levels),
    decreases a,
{
    match (a, b) {
        (JsonTree::Array(x), JsonTree::Array(y)) => {
            assert forall|i: int| 0 <= i < y.len() implies (is_exact(x[i]) ==> is_exact(
                #[trigger] y[i],
            )) && (levels > 0 && nests_within(x[i], (levels - 1) as nat) ==> nests_within(
                y[i],
                (levels - 1) as nat,
            )) by {
                assert(differ_in_images(x[i], y[i]));
                if levels > 0 {
                    lemma_form_stays(x[i], y[i], (levels - 1) as nat);
                } else {
                    lemma_form_stays(x[i], y[i], 0);
                }
            }
        },
        (JsonTree::Object(x), JsonTree::Object(y)) => {
            assert forall|i: int| 0 <= i < y.len() implies (is_exact(x[i].1) ==> is_exact(
                (#[trigger] y[i]).1,
            )) && (levels > 0 && nests_within(x[i].1, (levels - 1) as nat) ==> nests_within(
                y[i].1,
                (levels - 1) as nat,
            )) by {
                assert(differ_in_images(x[i].1, y[i].1));
                if levels > 0 {
                    lemma_form_stays(x[i].1, y[i].1, (levels - 1) as nat);
                } else {
                    lemma_form_stays(x[i].1, y[i].1, 0);
                }
            }
        },
        _ => {},
    }
}

proof fn lemma_with_text_differ(tree: JsonTree, path: Seq<Seq<char>>, text: Seq<char>)
    requires
        text_at(tree, path) matches Some(found) && (text == found || carries_image(found)),
    ensures
        differ_in_images(tree, with_text_at(tree, path, text)),
    decreases path.len(),
{
    if path.len() > 0 {
        let members = tree->Object_0;
        lemma_key_index(members, path[0]);
        let at = key_index(members, path[0])->0;
        let inner = with_text_at(members[at].1, path.drop_first(), text);
        lemma_with_text_differ(members[at].1, path.drop_first(), text);
        let updated = members.update(at, (members[at].0, inner));
        assert forall|i: int| 0 <= i < members.len() implies (#[trigger] members[i]).0
            == updated[i].0 && differ_in_images(members[i].1, updated[i].1) by {
            lemma_differ_reflexive(members[i].1);
        }
    }
}

proof fn lemma_rules_differ(
    rule: Rule,
    tree: JsonTree,
    replies: Seq<Option<Seq<u8>>>,
    tally: Tally,
)
    ensures
        differ_in_images(tree, apply_rules_from(rule, tree, replies, tally).0),
    decreases
            (match rule {
                Rule::ImageFile => 2nat,
                Rule::ImageUrl => 1nat,
                Rule::B64Json => 0nat,
            }),
{
    let (ruled, after) = apply_rule(rule, tree, replies, tally);
    match rule_text(rule, tree) {
        Some(found) => {
            let (text, _) = visit_text(crate::walk::rule_carrier(rule), found, replies, tally);
            lemma_with_text_differ(tree, rule_path(rule), text);
        },
        None => lemma_differ_reflexive(tree),
    }
    match rule {
        Rule::ImageFile => lemma_rules_differ(Rule::ImageUrl, ruled, replies, after),
        Rule::ImageUrl => lemma_rules_differ(Rule::B64Json, ruled, replies, after),
        Rule::B64Json => lemma_differ_reflexive(ruled),
    }
    lemma_differ_transitive(tree, ruled, apply_rules_from(rule, tree, replies, tally).0);
}

proof fn lemma_stamp_differ(tree: JsonTree, replies: Seq<Option<Seq<u8>>>, tally: Tally)
    ensures
        differ_in_images(tree, stamp_tree(tree, replies, tally).0),
    decreases tree_size(tree),
{
    match tree {
        JsonTree::Object(_) => {
            lemma_rules_keep_size(Rule::ImageFile, tree, replies, tally);
            lemma_rules_differ(Rule::ImageFile, tree, replies, tally);
            let (ruled, after) = apply_rules_from(Rule::ImageFile, tree, replies, tally);
            lemma_stamp_members_differ(ruled->Object_0, replies, after);
            lemma_differ_transitive(tree, ruled, stamp_tree(tree, replies, tally).0);
        },
        JsonTree::Array(items) => lemma_stamp_items_differ(items, replies, tally),
        _ => {},
    }
}

proof fn lemma_stamp_items_differ(
    items: Seq<JsonTree>,
    replies: Seq<Option<Seq<u8>>>,
    tally: Tally,
)
    ensures
        differ_in_images(
            JsonTree::Array(items),
            JsonTree::Array(stamp_items(items, replies, tally).0),
        ),
    decreases items_size(items),
{
    if items.len() > 0 {
        let (first, after) = stamp_tree(items[0], replies, tally);
        let (rest, _) = stamp_items(items.drop_first(), replies, after);
        lemma_stamp_differ(items[0], replies, tally);
        lemma_stamp_items_differ(items.drop_first(), replies, after);
        let stamped = seq![first] + rest;
        assert forall|i: int| 0 <= i < items.len() implies differ_in_images(
            #[trigger] items[i],
            stamped[i],
        ) by {
            if i > 0 {
                assert(items.drop_first()[i - 1] == items[i]);
            }
        }
    }
}

proof fn lemma_stamp_members_differ(
    members: Seq<(Seq<char>, JsonTree)>,
    replies: Seq<Option<Seq<u8>>>,
    tally: Tally,
)
    ensures
        differ_in_images(
            JsonTree::Object(members),
            JsonTree::Object(stamp_members(members, replies, tally).0),
        ),
    decreases members_size(members),
{
    if members.len() > 0 {
        let (first, after) = stamp_tree(members[0].1, replies, tally);
        let (rest, _) = stamp_members(members.drop_first(), replies, after);
        lemma_stamp_differ(members[0].1, replies, tally);
        lemma_stamp_members_differ(members.drop_first(), replies, after);
        let stamped = seq![(members[0].0, first)] + rest;
        assert forall|i: int| 0 <= i < members.len() implies (#[trigger] members[i]).0
            == stamped[i].0 && differ_in_images(members[i].1, stamped[i].1) by {
            if i > 0 {
                assert(members.drop_first()[i - 1] == members[i]);
            }
        }
    }
}

/// A walk changes nothing but strings that carry an image.
pub proof fn law_only_images_change(tree: JsonTree, replies: Seq<Option<Seq<u8>>>)
    ensures
        differ_in_images(tree, stamp_tree(tree, replies, fresh()).0),
{
    lemma_stamp_differ(tree, replies, fresh());
}

/// A walk keeps the keys of every object distinct.
pub proof fn law_walk_keeps_keys(tree: JsonTree, replies: Seq<Option<Seq<u8>>>)
    requires
        distinct_keys(tree),
    ensures
        distinct_keys(stamp_tree(tree, replies, fresh()).0),
{
    law_only_images_change(tree, replies);
    lemma_keys_stay_distinct(tree, stamp_tree(tree, replies, fresh()).0);
}

/// A value without fractions is the same as one that differs from it in fractions alone.
pub proof fn law_exact_values_are_the_same(a: JsonTree, b: JsonTree)
    requires
        same_but_fractions(a, b),
        is_exact(a),
    ensures
        a == b,
    decreases a,
{
    match (a, b) {
        (JsonTree::Array(x), JsonTree::Array(y)) => {
            assert forall|i: int| 0 <= i < x.len() implies #[trigger] x[i] == y[i] by {
                law_exact_values_are_the_same(x[i], y[i]);
            }
            assert(x =~= y);
        },
        (JsonTree::Object(x), JsonTree::Object(y)) => {
            assert forall|i: int| 0 <= i < x.len() implies #[trigger] x[i] == y[i] by {
                law_exact_values_are_the_same(x[i].1, y[i].1);
            }
            assert(x =~= y);
        },
        _ => {},
    }
}

/// A walk brings in no fraction, and no value nests deeper for it.
pub proof fn law_walk_keeps_form(tree: JsonTree, replies: Seq<Option<Seq<u8>>>, levels: nat)
    ensures
        is_exact(tree) ==> is_exact(stamp_tree(tree, replies, fresh()).0),
        nests_within(tree, levels) ==> nests_within(stamp_tree(tree, replies, fresh()).0, levels),
{
    law_only_images_change(tree, replies);
    lemma_form_stays(tree, stamp_tree(tree, replies, fresh()).0, levels);
}

/// No answer is a signed image.
pub open spec fn all_refused(replies: Seq<Option<Seq<u8>>>) -> bool {
    forall|i: int| 0 <= i < replies.len() ==> (#[trigger] replies[i]) is None
}

proof fn lemma_rules_refused(
    rule: Rule,
    tree: JsonTree,
    replies: Seq<Option<Seq<u8>>>,
    tally: Tally,
)
    requires
        all_refused(replies),
    ensures
        apply_rules_from(rule, tree, replies, tally).0 == tree,
        apply_rules_from(rule, tree, replies, tally).1.stamped == tally.stamped,
    decreases
            (match rule {
                Rule::ImageFile => 2nat,
                Rule::ImageUrl => 1nat,
                Rule::B64Json => 0nat,
            }),
{
    crate::walk::lemma_same_text(tree, rule_path(rule));
    let (ruled, after) = apply_rule(rule, tree, replies, tally);
    match rule {
        Rule::ImageFile => lemma_rules_refused(Rule::ImageUrl, ruled, replies, after),
        Rule::ImageUrl => lemma_rules_refused(Rule::B64Json, ruled, replies, after),
        Rule::B64Json => {},
    }
}

proof fn lemma_stamp_refused(tree: JsonTree, replies: Seq<Option<Seq<u8>>>, tally: Tally)
    requires
        all_refused(replies),
    ensures
        stamp_tree(tree, replies, tally).0 == tree,
        stamp_tree(tree, replies, tally).1.stamped == tally.stamped,
    decreases tree_size(tree),
{
    match tree {
        JsonTree::Object(members) => {
            lemma_rules_refused(Rule::ImageFile, tree, replies, tally);
            let (_, after) = apply_rules_from(Rule::ImageFile, tree, replies, tally);
            lemma_stamp_members_refused(members, replies, after);
        },
        JsonTree::Array(items) => lemma_stamp_items_refused(items, replies, tally),
        _ => {},
    }
}

proof fn lemma_stamp_items_refused(
    items: Seq<JsonTree>,
    replies: Seq<Option<Seq<u8>>>,
    tally: Tally,
)
    requires
        all_refused(replies),
    ensures
        stamp_items(items, replies, tally).0 == items,
        stamp_items(items, replies, tally).1.stamped == tally.stamped,
    decreases items_size(items),
{
    if items.len() > 0 {
        lemma_stamp_refused(items[0], replies, tally);
        let (_, after) = stamp_tree(items[0], replies, tally);
        lemma_stamp_items_refused(items.drop_first(), replies, after);
        assert(seq![items[0]] + items.drop_first() =~= items);
    }
}

proof fn lemma_stamp_members_refused(
    members: Seq<(Seq<char>, JsonTree)>,
    replies: Seq<Option<Seq<u8>>>,
    tally: Tally,
)
    requires
        all_refused(replies),
    ensures
        stamp_members(members, replies, tally).0 == members,
        stamp_members(members, replies, tally).1.stamped == tally.stamped,
    decreases members_size(members),
{
    if members.len() > 0 {
        lemma_stamp_refused(members[0].1, replies, tally);
        let (_, after) = stamp_tree(members[0].1, replies, tally);
        lemma_stamp_members_refused(members.drop_first(), replies, after);
        assert(seq![(members[0].0, members[0].1)] + members.drop_first() =~= members);
    }
}

/// Where no image is signed, a walk changes nothing.
pub proof fn law_refused_walk_changes_nothing(tree: JsonTree, replies: Seq<Option<Seq<u8>>>)
    requires
        all_refused(replies),
    ensures
        stamp_tree(tree, replies, fresh()).0 == tree,
        stamp_tree(tree, replies, fresh()).1.stamped == 0,
{
    lemma_stamp_refused(tree, replies, fresh());
}

/// Where one of its images could not be signed, a body is sent as it was received, byte for byte,
/// whatever came of its other images.
pub proof fn law_failed_body_is_sent_unchanged(body: Seq<u8>, replies: Seq<ReplyView>)
    requires
        any_failed(replies),
    ensures
        body_outcome(body, replies) == Outcome::Sends(body),
{
}

/// Where one of its images could not be signed, an event is sent as it was received, byte for byte,
/// whatever came of its other images.
pub proof fn law_failed_event_is_sent_unchanged(chunk: Seq<u8>, replies: Seq<ReplyView>)
    requires
        any_failed(replies),
    ensures
        event_outcome(chunk, replies) == Outcome::Sends(chunk),
{
}

proof fn lemma_none_signed(replies: Seq<ReplyView>)
    requires
        none_signed(replies),
    ensures
        all_refused(signed_parts(replies)),
{
    assert forall|i: int| 0 <= i < replies.len() implies (
    #[trigger] signed_parts(replies)[i]) is None by {
        assert(!(replies[i] is Signed));
    }
}

/// Where no image is signed, because there is none, because signing fails or because all are signed
/// already, a body is sent as it was received, byte for byte. It is so whether it is JSON or not.
pub proof fn law_unsigned_body_is_sent_unchanged(body: Seq<u8>, replies: Seq<ReplyView>)
    requires
        none_signed(replies),
    ensures
        body_outcome(body, replies) matches Outcome::Sends(sent) ==> sent == body,
{
    lemma_none_signed(replies);
    if let Some(tree) = crate::encoding::json_of_bytes(body) {
        law_refused_walk_changes_nothing(tree, signed_parts(replies));
    }
}

/// Where no image is signed, an event is sent as it was received, byte for byte. It is so whether
/// it is text or not, and whatever its lines are.
pub proof fn law_unsigned_event_is_sent_unchanged(chunk: Seq<u8>, replies: Seq<ReplyView>)
    requires
        none_signed(replies),
    ensures
        event_outcome(chunk, replies) matches Outcome::Sends(sent) ==> sent == chunk,
{
    lemma_none_signed(replies);
    law_refused_walk_changes_nothing(event_value(chunk), signed_parts(replies));
}

/// A walk has counted the signed images among the answers that it has taken, and asks for an image
/// only when it has taken them all.
pub open spec fn in_step(tally: Tally, replies: Seq<Option<Seq<u8>>>) -> bool {
    &&& tally.used <= replies.len()
    &&& tally.stamped == signatures(replies.take(tally.used as int))
    &&& tally.asks is Some ==> tally.used == replies.len()
}

proof fn lemma_visit_in_step(
    carrier: Carrier,
    text: Seq<char>,
    replies: Seq<Option<Seq<u8>>>,
    tally: Tally,
)
    requires
        in_step(tally, replies),
    ensures
        in_step(visit_text(carrier, text, replies, tally).1, replies),
{
    if tally.used < replies.len() {
        assert(replies.take(tally.used as int + 1).drop_last() =~= replies.take(tally.used as int));
    }
}

proof fn lemma_rules_in_step(
    rule: Rule,
    tree: JsonTree,
    replies: Seq<Option<Seq<u8>>>,
    tally: Tally,
)
    requires
        in_step(tally, replies),
    ensures
        in_step(apply_rules_from(rule, tree, replies, tally).1, replies),
    decreases
            (match rule {
                Rule::ImageFile => 2nat,
                Rule::ImageUrl => 1nat,
                Rule::B64Json => 0nat,
            }),
{
    if let Some(text) = rule_text(rule, tree) {
        lemma_visit_in_step(crate::walk::rule_carrier(rule), text, replies, tally);
    }
    let (ruled, after) = apply_rule(rule, tree, replies, tally);
    match rule {
        Rule::ImageFile => lemma_rules_in_step(Rule::ImageUrl, ruled, replies, after),
        Rule::ImageUrl => lemma_rules_in_step(Rule::B64Json, ruled, replies, after),
        Rule::B64Json => {},
    }
}

proof fn lemma_stamp_in_step(tree: JsonTree, replies: Seq<Option<Seq<u8>>>, tally: Tally)
    requires
        in_step(tally, replies),
    ensures
        in_step(stamp_tree(tree, replies, tally).1, replies),
    decreases tree_size(tree),
{
    match tree {
        JsonTree::Object(_) => {
            lemma_rules_keep_size(Rule::ImageFile, tree, replies, tally);
            lemma_rules_in_step(Rule::ImageFile, tree, replies, tally);
            let (ruled, after) = apply_rules_from(Rule::ImageFile, tree, replies, tally);
            lemma_stamp_members_in_step(ruled->Object_0, replies, after);
        },
        JsonTree::Array(items) => lemma_stamp_items_in_step(items, replies, tally),
        JsonTree::String(text) => lemma_visit_in_step(Carrier::DataUri, text, replies, tally),
        _ => {},
    }
}

proof fn lemma_stamp_items_in_step(
    items: Seq<JsonTree>,
    replies: Seq<Option<Seq<u8>>>,
    tally: Tally,
)
    requires
        in_step(tally, replies),
    ensures
        in_step(stamp_items(items, replies, tally).1, replies),
    decreases items_size(items),
{
    if items.len() > 0 {
        lemma_stamp_in_step(items[0], replies, tally);
        let (_, after) = stamp_tree(items[0], replies, tally);
        lemma_stamp_items_in_step(items.drop_first(), replies, after);
    }
}

proof fn lemma_stamp_members_in_step(
    members: Seq<(Seq<char>, JsonTree)>,
    replies: Seq<Option<Seq<u8>>>,
    tally: Tally,
)
    requires
        in_step(tally, replies),
    ensures
        in_step(stamp_members(members, replies, tally).1, replies),
    decreases members_size(members),
{
    if members.len() > 0 {
        lemma_stamp_in_step(members[0].1, replies, tally);
        let (_, after) = stamp_tree(members[0].1, replies, tally);
        lemma_stamp_members_in_step(members.drop_first(), replies, after);
    }
}

/// A walk counts exactly the images that were signed, and asks for an image only when it has taken
/// all answers.
pub proof fn law_walk_counts_signatures(tree: JsonTree, replies: Seq<Option<Seq<u8>>>)
    ensures
        in_step(stamp_tree(tree, replies, fresh()).1, replies),
{
    assert(replies.take(0).len() == 0);
    lemma_stamp_in_step(tree, replies, fresh());
}

proof fn lemma_rules_settled(
    rule: Rule,
    tree: JsonTree,
    replies: Seq<Option<Seq<u8>>>,
    more: Seq<Option<Seq<u8>>>,
    tally: Tally,
)
    requires
        replies.is_prefix_of(more),
        apply_rules_from(rule, tree, replies, tally).1.asks is None,
    ensures
        apply_rules_from(rule, tree, more, tally) == apply_rules_from(rule, tree, replies, tally),
    decreases
            (match rule {
                Rule::ImageFile => 2nat,
                Rule::ImageUrl => 1nat,
                Rule::B64Json => 0nat,
            }),
{
    let (ruled, after) = apply_rule(rule, tree, replies, tally);
    if after.asks is Some {
        match rule {
            Rule::ImageFile => lemma_rules_at_rest(Rule::ImageUrl, ruled, replies, after),
            Rule::ImageUrl => lemma_rules_at_rest(Rule::B64Json, ruled, replies, after),
            Rule::B64Json => {},
        }
    }
    assert(apply_rule(rule, tree, more, tally) == (ruled, after));
    match rule {
        Rule::ImageFile => lemma_rules_settled(Rule::ImageUrl, ruled, replies, more, after),
        Rule::ImageUrl => lemma_rules_settled(Rule::B64Json, ruled, replies, more, after),
        Rule::B64Json => {},
    }
}

proof fn lemma_stamp_settled(
    tree: JsonTree,
    replies: Seq<Option<Seq<u8>>>,
    more: Seq<Option<Seq<u8>>>,
    tally: Tally,
)
    requires
        replies.is_prefix_of(more),
        stamp_tree(tree, replies, tally).1.asks is None,
    ensures
        stamp_tree(tree, more, tally) == stamp_tree(tree, replies, tally),
    decreases tree_size(tree),
{
    match tree {
        JsonTree::Object(_) => {
            lemma_rules_keep_size(Rule::ImageFile, tree, replies, tally);
            let (ruled, after) = apply_rules_from(Rule::ImageFile, tree, replies, tally);
            if after.asks is Some {
                lemma_members_at_rest(ruled->Object_0, replies, after);
            }
            lemma_rules_settled(Rule::ImageFile, tree, replies, more, tally);
            lemma_stamp_members_settled(ruled->Object_0, replies, more, after);
        },
        JsonTree::Array(items) => lemma_stamp_items_settled(items, replies, more, tally),
        _ => {},
    }
}

proof fn lemma_stamp_items_settled(
    items: Seq<JsonTree>,
    replies: Seq<Option<Seq<u8>>>,
    more: Seq<Option<Seq<u8>>>,
    tally: Tally,
)
    requires
        replies.is_prefix_of(more),
        stamp_items(items, replies, tally).1.asks is None,
    ensures
        stamp_items(items, more, tally) == stamp_items(items, replies, tally),
    decreases items_size(items),
{
    if items.len() > 0 {
        let (_, after) = stamp_tree(items[0], replies, tally);
        if after.asks is Some {
            lemma_items_at_rest(items.drop_first(), replies, after);
        }
        lemma_stamp_settled(items[0], replies, more, tally);
        lemma_stamp_items_settled(items.drop_first(), replies, more, after);
    }
}

proof fn lemma_stamp_members_settled(
    members: Seq<(Seq<char>, JsonTree)>,
    replies: Seq<Option<Seq<u8>>>,
    more: Seq<Option<Seq<u8>>>,
    tally: Tally,
)
    requires
        replies.is_prefix_of(more),
        stamp_members(members, replies, tally).1.asks is None,
    ensures
        stamp_members(members, more, tally) == stamp_members(members, replies, tally),
    decreases members_size(members),
{
    if members.len() > 0 {
        let (_, after) = stamp_tree(members[0].1, replies, tally);
        if after.asks is Some {
            lemma_members_at_rest(members.drop_first(), replies, after);
        }
        lemma_stamp_settled(members[0].1, replies, more, tally);
        lemma_stamp_members_settled(members.drop_first(), replies, more, after);
    }
}

/// A walk that asks for nothing is over: no further answer changes what came of it.
pub proof fn law_finished_walk_is_settled(
    tree: JsonTree,
    replies: Seq<Option<Seq<u8>>>,
    more: Seq<Option<Seq<u8>>>,
)
    requires
        replies.is_prefix_of(more),
        stamp_tree(tree, replies, fresh()).1.asks is None,
    ensures
        stamp_tree(tree, more, fresh()) == stamp_tree(tree, replies, fresh()),
{
    lemma_stamp_settled(tree, replies, more, fresh());
}

} // verus!
