//! The walk with the answers of a signer: it comes to the value with its images signed.

use vstd::prelude::*;

use crate::body::{body_outcome, sent_value, Outcome};
use crate::encoding::json_of_bytes;
use crate::image::ImageView;
use crate::json::{is_read_back, JsonTree};
use crate::laws::{all_refused, law_refused_walk_changes_nothing, law_walk_counts_signatures};
use crate::reply::{any_failed, signed_part, signed_parts, ReplyView};
use crate::signer::{is_settled_tree, law_signed_value_is_settled, lemma_same_is_settled};
use crate::signer::{items_count, members_count, rule_count, rules_count, signed_by_rule};
use crate::signer::{signed_by_rules, signed_count, signed_items, signed_members, signed_tree};
use crate::signer::signs_once;
use crate::walk::{apply_rule, apply_rules_from, fresh, items_size, lemma_rules_keep_size};
use crate::walk::{lemma_items_at_rest, lemma_members_at_rest, lemma_rules_at_rest, members_size};
use crate::walk::{rule_path, stamp_items, stamp_members, stamp_tree, tree_size, Rule, Tally};
use crate::walker::signatures;

verus! {

proof fn lemma_rules_cut(
    rule: Rule,
    tree: JsonTree,
    replies: Seq<Option<Seq<u8>>>,
    tally: Tally,
    end: int,
)
    requires
        tally.asks is None,
        tally.used <= end <= replies.len(),
        apply_rules_from(rule, tree, replies, tally).1.asks is None,
    ensures
        ({
            let whole = apply_rules_from(rule, tree, replies, tally);
            let cut = apply_rules_from(rule, tree, replies.take(end), tally);
            &&& tally.used <= whole.1.used <= replies.len()
            &&& whole.1.used <= end ==> cut == whole
            &&& whole.1.used > end ==> cut.1.asks is Some
        }),
    decreases
            (match rule {
                Rule::ImageFile => 2nat,
                Rule::ImageUrl => 1nat,
                Rule::B64Json => 0nat,
            }),
{
    let next = match rule {
        Rule::ImageFile => Rule::ImageUrl,
        _ => Rule::B64Json,
    };
    let (ruled, after) = apply_rule(rule, tree, replies, tally);
    let (cut_ruled, cut_after) = apply_rule(rule, tree, replies.take(end), tally);
    if !(rule is B64Json) {
        if after.asks is Some {
            lemma_rules_at_rest(next, ruled, replies, after);
        }
        if after.used <= end {
            lemma_rules_cut(next, ruled, replies, after, end);
        } else {
            lemma_rules_at_rest(next, cut_ruled, replies.take(end), cut_after);
            lemma_rules_cut(next, ruled, replies, after, after.used as int);
        }
    }
}

/// A walk that has come to its end comes to the same end with the answers that it has taken alone,
/// and asks for an image where one of those is missing.
proof fn lemma_stamp_cut(
    tree: JsonTree,
    replies: Seq<Option<Seq<u8>>>,
    tally: Tally,
    end: int,
)
    requires
        tally.asks is None,
        tally.used <= end <= replies.len(),
        stamp_tree(tree, replies, tally).1.asks is None,
    ensures
        ({
            let whole = stamp_tree(tree, replies, tally);
            let cut = stamp_tree(tree, replies.take(end), tally);
            &&& tally.used <= whole.1.used <= replies.len()
            &&& whole.1.used <= end ==> cut == whole
            &&& whole.1.used > end ==> cut.1.asks is Some
        }),
    decreases tree_size(tree),
{
    match tree {
        JsonTree::Object(_) => {
            lemma_rules_keep_size(Rule::ImageFile, tree, replies, tally);
            lemma_rules_keep_size(Rule::ImageFile, tree, replies.take(end), tally);
            let (ruled, after) = apply_rules_from(Rule::ImageFile, tree, replies, tally);
            if after.asks is Some {
                lemma_members_at_rest(ruled->Object_0, replies, after);
            }
            lemma_rules_cut(Rule::ImageFile, tree, replies, tally, end);
            if after.used <= end {
                lemma_stamp_members_cut(ruled->Object_0, replies, after, end);
            } else {
                let (cut_ruled, cut_after) = apply_rules_from(
                    Rule::ImageFile,
                    tree,
                    replies.take(end),
                    tally,
                );
                lemma_members_at_rest(cut_ruled->Object_0, replies.take(end), cut_after);
                lemma_stamp_members_cut(ruled->Object_0, replies, after, after.used as int);
            }
        },
        JsonTree::Array(items) => lemma_stamp_items_cut(items, replies, tally, end),
        _ => {},
    }
}

proof fn lemma_stamp_items_cut(
    items: Seq<JsonTree>,
    replies: Seq<Option<Seq<u8>>>,
    tally: Tally,
    end: int,
)
    requires
        tally.asks is None,
        tally.used <= end <= replies.len(),
        stamp_items(items, replies, tally).1.asks is None,
    ensures
        ({
            let whole = stamp_items(items, replies, tally);
            let cut = stamp_items(items, replies.take(end), tally);
            &&& tally.used <= whole.1.used <= replies.len()
            &&& whole.1.used <= end ==> cut == whole
            &&& whole.1.used > end ==> cut.1.asks is Some
        }),
    decreases items_size(items),
{
    if items.len() > 0 {
        let rest = items.drop_first();
        let (_, after) = stamp_tree(items[0], replies, tally);
        if after.asks is Some {
            lemma_items_at_rest(rest, replies, after);
        }
        lemma_stamp_cut(items[0], replies, tally, end);
        if after.used <= end {
            lemma_stamp_items_cut(rest, replies, after, end);
        } else {
            let (_, cut_after) = stamp_tree(items[0], replies.take(end), tally);
            lemma_items_at_rest(rest, replies.take(end), cut_after);
            lemma_stamp_items_cut(rest, replies, after, after.used as int);
        }
    }
}

proof fn lemma_stamp_members_cut(
    members: Seq<(Seq<char>, JsonTree)>,
    replies: Seq<Option<Seq<u8>>>,
    tally: Tally,
    end: int,
)
    requires
        tally.asks is None,
        tally.used <= end <= replies.len(),
        stamp_members(members, replies, tally).1.asks is None,
    ensures
        ({
            let whole = stamp_members(members, replies, tally);
            let cut = stamp_members(members, replies.take(end), tally);
            &&& tally.used <= whole.1.used <= replies.len()
            &&& whole.1.used <= end ==> cut == whole
            &&& whole.1.used > end ==> cut.1.asks is Some
        }),
    decreases members_size(members),
{
    if members.len() > 0 {
        let rest = members.drop_first();
        let (_, after) = stamp_tree(members[0].1, replies, tally);
        if after.asks is Some {
            lemma_members_at_rest(rest, replies, after);
        }
        lemma_stamp_cut(members[0].1, replies, tally, end);
        if after.used <= end {
            lemma_stamp_members_cut(rest, replies, after, end);
        } else {
            let (_, cut_after) = stamp_tree(members[0].1, replies.take(end), tally);
            lemma_members_at_rest(rest, replies.take(end), cut_after);
            lemma_stamp_members_cut(rest, replies, after, after.used as int);
        }
    }
}

/// An object with the images signed that the rules from `rule` on pick out.
spec fn signed_by_rules_from(
    rule: Rule,
    tree: JsonTree,
    signer: spec_fn(ImageView) -> Option<Seq<u8>>,
) -> JsonTree {
    match rule {
        Rule::ImageFile => signed_by_rules(tree, signer),
        Rule::ImageUrl => signed_by_rule(
            Rule::B64Json,
            signed_by_rule(Rule::ImageUrl, tree, signer),
            signer,
        ),
        Rule::B64Json => signed_by_rule(Rule::B64Json, tree, signer),
    }
}

/// How many images are signed that the rules from `rule` on pick out of an object.
spec fn rules_count_from(
    rule: Rule,
    tree: JsonTree,
    signer: spec_fn(ImageView) -> Option<Seq<u8>>,
) -> nat {
    match rule {
        Rule::ImageFile => rules_count(tree, signer),
        Rule::ImageUrl => rule_count(Rule::ImageUrl, tree, signer) + rule_count(
            Rule::B64Json,
            signed_by_rule(Rule::ImageUrl, tree, signer),
            signer,
        ),
        Rule::B64Json => rule_count(Rule::B64Json, tree, signer),
    }
}

proof fn lemma_rules_by(
    rule: Rule,
    tree: JsonTree,
    replies: Seq<Option<Seq<u8>>>,
    tally: Tally,
    signer: spec_fn(ImageView) -> Option<Seq<u8>>,
)
    requires
        tally.asks is None,
        tally.used <= replies.len(),
        apply_rules_from(rule, tree, replies, tally).1.asks is None,
        forall|u: int|
            tally.used <= u < apply_rules_from(rule, tree, replies, tally).1.used ==> (
            apply_rules_from(rule, tree, #[trigger] replies.take(u), tally).1.asks matches Some(
                image,
            ) ==> replies[u] == signer(image)),
    ensures
        apply_rules_from(rule, tree, replies, tally).0 == signed_by_rules_from(rule, tree, signer),
        apply_rules_from(rule, tree, replies, tally).1.stamped == tally.stamped + rules_count_from(
            rule,
            tree,
            signer,
        ),
    decreases
            (match rule {
                Rule::ImageFile => 2nat,
                Rule::ImageUrl => 1nat,
                Rule::B64Json => 0nat,
            }),
{
    let next = match rule {
        Rule::ImageFile => Rule::ImageUrl,
        _ => Rule::B64Json,
    };
    let (ruled, after) = apply_rule(rule, tree, replies, tally);
    if after.asks is Some && !(rule is B64Json) {
        lemma_rules_at_rest(next, ruled, replies, after);
    }
    if !(rule is B64Json) {
        lemma_rules_cut(next, ruled, replies, after, after.used as int);
    }
    assert(ruled == signed_by_rule(rule, tree, signer) && after.stamped == tally.stamped
        + rule_count(rule, tree, signer)) by {
        if after.used > tally.used {
            let u = tally.used as int;
            let (waiting, waits) = apply_rule(rule, tree, replies.take(u), tally);
            assert(waits.asks is Some);
            if !(rule is B64Json) {
                lemma_rules_at_rest(next, waiting, replies.take(u), waits);
            }
        }
    }
    if !(rule is B64Json) {
        assert forall|u: int|
            after.used <= u < apply_rules_from(next, ruled, replies, after).1.used implies (
        apply_rules_from(next, ruled, #[trigger] replies.take(u), after).1.asks matches Some(image)
            ==> replies[u] == signer(image)) by {
            assert(apply_rule(rule, tree, replies.take(u), tally) == (ruled, after));
        }
        lemma_rules_by(next, ruled, replies, after, signer);
    }
}

proof fn lemma_stamp_by(
    tree: JsonTree,
    replies: Seq<Option<Seq<u8>>>,
    tally: Tally,
    signer: spec_fn(ImageView) -> Option<Seq<u8>>,
)
    requires
        tally.asks is None,
        tally.used <= replies.len(),
        stamp_tree(tree, replies, tally).1.asks is None,
        forall|u: int|
            tally.used <= u < stamp_tree(tree, replies, tally).1.used ==> (stamp_tree(
                tree,
                #[trigger] replies.take(u),
                tally,
            ).1.asks matches Some(image) ==> replies[u] == signer(image)),
    ensures
        stamp_tree(tree, replies, tally).0 == signed_tree(tree, signer),
        stamp_tree(tree, replies, tally).1.stamped == tally.stamped + signed_count(tree, signer),
    decreases tree_size(tree),
{
    match tree {
        JsonTree::Object(_) => {
            lemma_rules_keep_size(Rule::ImageFile, tree, replies, tally);
            let (ruled, after) = apply_rules_from(Rule::ImageFile, tree, replies, tally);
            let members = ruled->Object_0;
            if after.asks is Some {
                lemma_members_at_rest(members, replies, after);
            }
            lemma_rules_cut(Rule::ImageFile, tree, replies, tally, tally.used as int);
            lemma_stamp_members_cut(members, replies, after, after.used as int);
            assert forall|u: int| tally.used <= u < after.used implies (apply_rules_from(
                Rule::ImageFile,
                tree,
                #[trigger] replies.take(u),
                tally,
            ).1.asks matches Some(image) ==> replies[u] == signer(image)) by {
                lemma_rules_cut(Rule::ImageFile, tree, replies, tally, u);
                let (waiting, waits) = apply_rules_from(
                    Rule::ImageFile,
                    tree,
                    replies.take(u),
                    tally,
                );
                lemma_members_at_rest(waiting->Object_0, replies.take(u), waits);
            }
            lemma_rules_by(Rule::ImageFile, tree, replies, tally, signer);
            assert forall|u: int|
                after.used <= u < stamp_members(members, replies, after).1.used implies (
            stamp_members(members, #[trigger] replies.take(u), after).1.asks matches Some(image)
                ==> replies[u] == signer(image)) by {
                lemma_rules_cut(Rule::ImageFile, tree, replies, tally, u);
            }
            lemma_stamp_members_by(members, replies, after, signer);
        },
        JsonTree::Array(items) => {
            assert forall|u: int|
                tally.used <= u < stamp_items(items, replies, tally).1.used implies (stamp_items(
                items,
                #[trigger] replies.take(u),
                tally,
            ).1.asks matches Some(image) ==> replies[u] == signer(image)) by {
                assert(stamp_tree(tree, replies.take(u), tally).1 == stamp_items(
                    items,
                    replies.take(u),
                    tally,
                ).1);
            }
            lemma_stamp_items_by(items, replies, tally, signer);
        },
        JsonTree::String(text) => {
            let u = tally.used as int;
            if u < replies.len() {
                assert(replies.take(u).len() == u);
            }
        },
        _ => {},
    }
}

proof fn lemma_stamp_items_by(
    items: Seq<JsonTree>,
    replies: Seq<Option<Seq<u8>>>,
    tally: Tally,
    signer: spec_fn(ImageView) -> Option<Seq<u8>>,
)
    requires
        tally.asks is None,
        tally.used <= replies.len(),
        stamp_items(items, replies, tally).1.asks is None,
        forall|u: int|
            tally.used <= u < stamp_items(items, replies, tally).1.used ==> (stamp_items(
                items,
                #[trigger] replies.take(u),
                tally,
            ).1.asks matches Some(image) ==> replies[u] == signer(image)),
    ensures
        stamp_items(items, replies, tally).0 == signed_items(items, signer),
        stamp_items(items, replies, tally).1.stamped == tally.stamped + items_count(items, signer),
    decreases items_size(items),
{
    if items.len() > 0 {
        let rest = items.drop_first();
        let (_, after) = stamp_tree(items[0], replies, tally);
        if after.asks is Some {
            lemma_items_at_rest(rest, replies, after);
        }
        lemma_stamp_cut(items[0], replies, tally, tally.used as int);
        lemma_stamp_items_cut(rest, replies, after, after.used as int);
        assert forall|u: int| tally.used <= u < after.used implies (stamp_tree(
            items[0],
            #[trigger] replies.take(u),
            tally,
        ).1.asks matches Some(image) ==> replies[u] == signer(image)) by {
            lemma_stamp_cut(items[0], replies, tally, u);
            let (_, waits) = stamp_tree(items[0], replies.take(u), tally);
            lemma_items_at_rest(rest, replies.take(u), waits);
        }
        lemma_stamp_by(items[0], replies, tally, signer);
        assert forall|u: int|
            after.used <= u < stamp_items(rest, replies, after).1.used implies (stamp_items(
            rest,
            #[trigger] replies.take(u),
            after,
        ).1.asks matches Some(image) ==> replies[u] == signer(image)) by {
            lemma_stamp_cut(items[0], replies, tally, u);
        }
        lemma_stamp_items_by(rest, replies, after, signer);
    }
}

proof fn lemma_stamp_members_by(
    members: Seq<(Seq<char>, JsonTree)>,
    replies: Seq<Option<Seq<u8>>>,
    tally: Tally,
    signer: spec_fn(ImageView) -> Option<Seq<u8>>,
)
    requires
        tally.asks is None,
        tally.used <= replies.len(),
        stamp_members(members, replies, tally).1.asks is None,
        forall|u: int|
            tally.used <= u < stamp_members(members, replies, tally).1.used ==> (stamp_members(
                members,
                #[trigger] replies.take(u),
                tally,
            ).1.asks matches Some(image) ==> replies[u] == signer(image)),
    ensures
        stamp_members(members, replies, tally).0 == signed_members(members, signer),
        stamp_members(members, replies, tally).1.stamped == tally.stamped + members_count(
            members,
            signer,
        ),
    decreases members_size(members),
{
    if members.len() > 0 {
        let rest = members.drop_first();
        let (_, after) = stamp_tree(members[0].1, replies, tally);
        if after.asks is Some {
            lemma_members_at_rest(rest, replies, after);
        }
        lemma_stamp_cut(members[0].1, replies, tally, tally.used as int);
        lemma_stamp_members_cut(rest, replies, after, after.used as int);
        assert forall|u: int| tally.used <= u < after.used implies (stamp_tree(
            members[0].1,
            #[trigger] replies.take(u),
            tally,
        ).1.asks matches Some(image) ==> replies[u] == signer(image)) by {
            lemma_stamp_cut(members[0].1, replies, tally, u);
            let (_, waits) = stamp_tree(members[0].1, replies.take(u), tally);
            lemma_members_at_rest(rest, replies.take(u), waits);
        }
        lemma_stamp_by(members[0].1, replies, tally, signer);
        assert forall|u: int|
            after.used <= u < stamp_members(rest, replies, after).1.used implies (stamp_members(
            rest,
            #[trigger] replies.take(u),
            after,
        ).1.asks matches Some(image) ==> replies[u] == signer(image)) by {
            lemma_stamp_cut(members[0].1, replies, tally, u);
        }
        lemma_stamp_members_by(rest, replies, after, signer);
    }
}

/// Each answer to the walk through `tree` is the signer's answer to the image that was asked for.
pub open spec fn answered_by(
    tree: JsonTree,
    replies: Seq<Option<Seq<u8>>>,
    signer: spec_fn(ImageView) -> Option<Seq<u8>>,
) -> bool {
    forall|u: int|
        0 <= u < replies.len() ==> (stamp_tree(tree, #[trigger] replies.take(u), fresh()).1.asks
            matches Some(image) ==> replies[u] == signer(image))
}

/// The walk, with the answers of a signer, comes to the value with its images signed, and counts
/// them.
pub proof fn law_walk_gives_the_signed_value(
    tree: JsonTree,
    replies: Seq<Option<Seq<u8>>>,
    signer: spec_fn(ImageView) -> Option<Seq<u8>>,
)
    requires
        answered_by(tree, replies, signer),
        stamp_tree(tree, replies, fresh()).1.asks is None,
    ensures
        stamp_tree(tree, replies, fresh()).0 == signed_tree(tree, signer),
        stamp_tree(tree, replies, fresh()).1.stamped == signed_count(tree, signer),
{
    lemma_stamp_cut(tree, replies, fresh(), 0);
    lemma_stamp_by(tree, replies, fresh(), signer);
}

/// The sum of the numbers of images that are replaced in some items when each is walked alone, with
/// its own answers.
pub open spec fn sum_of_counts(
    items: Seq<JsonTree>,
    replies: Seq<Seq<Option<Seq<u8>>>>,
) -> nat
    decreases items.len(),
{
    if items.len() == 0 {
        0
    } else {
        stamp_tree(items[0], replies[0], fresh()).1.stamped + sum_of_counts(
            items.drop_first(),
            replies.drop_first(),
        )
    }
}

proof fn lemma_items_alone(
    items: Seq<JsonTree>,
    each: Seq<Seq<Option<Seq<u8>>>>,
    signer: spec_fn(ImageView) -> Option<Seq<u8>>,
)
    requires
        each.len() == items.len(),
        forall|i: int|
            0 <= i < items.len() ==> answered_by(#[trigger] items[i], each[i], signer)
                && stamp_tree(items[i], each[i], fresh()).1.asks is None,
    ensures
        items_count(items, signer) == sum_of_counts(items, each),
        signed_items(items, signer).len() == items.len(),
        forall|i: int|
            0 <= i < items.len() ==> signed_items(items, signer)[i] == stamp_tree(
                #[trigger] items[i],
                each[i],
                fresh(),
            ).0,
    decreases items.len(),
{
    if items.len() > 0 {
        let rest = items.drop_first();
        let others = each.drop_first();
        assert forall|i: int| 0 <= i < rest.len() implies answered_by(
            #[trigger] rest[i],
            others[i],
            signer,
        ) && stamp_tree(rest[i], others[i], fresh()).1.asks is None by {
            assert(rest[i] == items[i + 1]);
        }
        assert(answered_by(items[0], each[0], signer));
        law_walk_gives_the_signed_value(items[0], each[0], signer);
        lemma_items_alone(rest, others, signer);
        assert forall|i: int| 0 <= i < items.len() implies signed_items(items, signer)[i]
            == stamp_tree(#[trigger] items[i], each[i], fresh()).0 by {
            if i > 0 {
                assert(rest[i - 1] == items[i]);
            }
        }
    }
}

/// An array is walked item by item: with the answers of one signer, each item becomes what it
/// becomes when it is walked alone, in its place, and the number of images that are replaced is the
/// sum of the numbers in the items.
pub proof fn law_array_is_walked_item_by_item(
    items: Seq<JsonTree>,
    replies: Seq<Option<Seq<u8>>>,
    each: Seq<Seq<Option<Seq<u8>>>>,
    signer: spec_fn(ImageView) -> Option<Seq<u8>>,
)
    requires
        answered_by(JsonTree::Array(items), replies, signer),
        stamp_tree(JsonTree::Array(items), replies, fresh()).1.asks is None,
        each.len() == items.len(),
        forall|i: int|
            0 <= i < items.len() ==> answered_by(#[trigger] items[i], each[i], signer)
                && stamp_tree(items[i], each[i], fresh()).1.asks is None,
    ensures
        stamp_tree(JsonTree::Array(items), replies, fresh()).1.stamped == sum_of_counts(
            items,
            each,
        ),
        stamp_tree(JsonTree::Array(items), replies, fresh()).0 == JsonTree::Array(
            Seq::new(items.len(), |i: int| stamp_tree(items[i], each[i], fresh()).0),
        ),
{
    law_walk_gives_the_signed_value(JsonTree::Array(items), replies, signer);
    lemma_items_alone(items, each, signer);
    assert(signed_items(items, signer) =~= Seq::new(
        items.len(),
        |i: int| stamp_tree(items[i], each[i], fresh()).0,
    ));
}

proof fn lemma_same_answers(
    tree: JsonTree,
    replies: Seq<Option<Seq<u8>>>,
    others: Seq<Option<Seq<u8>>>,
    signer: spec_fn(ImageView) -> Option<Seq<u8>>,
    end: int,
)
    requires
        answered_by(tree, replies, signer),
        answered_by(tree, others, signer),
        stamp_tree(tree, replies, fresh()).1.asks is None,
        0 <= end <= stamp_tree(tree, replies, fresh()).1.used,
        end <= stamp_tree(tree, replies, fresh()).1.used <= replies.len(),
        end <= others.len(),
    ensures
        replies.take(end) == others.take(end),
    decreases end,
{
    if end > 0 {
        let u = end - 1;
        lemma_same_answers(tree, replies, others, signer, u);
        lemma_stamp_cut(tree, replies, fresh(), u);
        assert(replies[u] == others[u]);
        assert(replies.take(end) =~= replies.take(u).push(replies[u]));
        assert(others.take(end) =~= others.take(u).push(others[u]));
    } else {
        assert(replies.take(end) =~= others.take(end));
    }
}

/// The walk through a value, with the answers of a signer, has one end only.
pub proof fn law_signer_decides_the_walk(
    tree: JsonTree,
    replies: Seq<Option<Seq<u8>>>,
    others: Seq<Option<Seq<u8>>>,
    signer: spec_fn(ImageView) -> Option<Seq<u8>>,
)
    requires
        answered_by(tree, replies, signer),
        answered_by(tree, others, signer),
        stamp_tree(tree, replies, fresh()).1.asks is None,
        stamp_tree(tree, others, fresh()).1.asks is None,
    ensures
        stamp_tree(tree, replies, fresh()) == stamp_tree(tree, others, fresh()),
{
    let used = stamp_tree(tree, replies, fresh()).1.used as int;
    let other_used = stamp_tree(tree, others, fresh()).1.used as int;
    lemma_stamp_cut(tree, replies, fresh(), 0);
    lemma_stamp_cut(tree, others, fresh(), 0);
    if used <= other_used {
        lemma_same_answers(tree, replies, others, signer, used);
        lemma_stamp_cut(tree, replies, fresh(), used);
        lemma_stamp_cut(tree, others, fresh(), used);
    } else {
        lemma_same_answers(tree, others, replies, signer, other_used);
        lemma_stamp_cut(tree, replies, fresh(), other_used);
        lemma_stamp_cut(tree, others, fresh(), other_used);
    }
}

proof fn lemma_no_signatures(replies: Seq<Option<Seq<u8>>>)
    requires
        signatures(replies) == 0,
    ensures
        all_refused(replies),
    decreases replies.len(),
{
    if replies.len() > 0 {
        lemma_no_signatures(replies.drop_last());
        assert forall|i: int| 0 <= i < replies.len() implies (#[trigger] replies[i]) is None by {
            if i < replies.len() - 1 {
                assert(replies.drop_last()[i] == replies[i]);
            }
        }
    }
}

/// A walk that has counted no signed image has changed nothing.
pub proof fn law_uncounted_walk_changes_nothing(tree: JsonTree, replies: Seq<Option<Seq<u8>>>)
    requires
        stamp_tree(tree, replies, fresh()).1.asks is None,
        stamp_tree(tree, replies, fresh()).1.stamped == 0,
    ensures
        stamp_tree(tree, replies, fresh()).0 == tree,
{
    let used = stamp_tree(tree, replies, fresh()).1.used as int;
    law_walk_counts_signatures(tree, replies);
    lemma_no_signatures(replies.take(used));
    lemma_stamp_cut(tree, replies, fresh(), used);
    law_refused_walk_changes_nothing(tree, replies.take(used));
}

/// If a walk asks for an image, the signer refuses it.
spec fn asks_in_vain(tally: Tally, signer: spec_fn(ImageView) -> Option<Seq<u8>>) -> bool {
    tally.asks matches Some(image) ==> signer(image) is None
}

proof fn lemma_settled_rules_ask(
    rule: Rule,
    tree: JsonTree,
    replies: Seq<Option<Seq<u8>>>,
    tally: Tally,
    signer: spec_fn(ImageView) -> Option<Seq<u8>>,
)
    requires
        all_refused(replies),
        asks_in_vain(tally, signer),
        is_settled_tree(tree, signer),
        tree is Object,
    ensures
        asks_in_vain(apply_rules_from(rule, tree, replies, tally).1, signer),
        apply_rules_from(rule, tree, replies, tally).0 == tree,
    decreases
            (match rule {
                Rule::ImageFile => 2nat,
                Rule::ImageUrl => 1nat,
                Rule::B64Json => 0nat,
            }),
{
    crate::walk::lemma_same_text(tree, rule_path(rule));
    let (ruled, after) = apply_rule(rule, tree, replies, tally);
    assert(ruled == tree);
    match rule {
        Rule::ImageFile => lemma_settled_rules_ask(Rule::ImageUrl, tree, replies, after, signer),
        Rule::ImageUrl => lemma_settled_rules_ask(Rule::B64Json, tree, replies, after, signer),
        Rule::B64Json => {},
    }
}

/// A walk through a value that the signer leaves as it is asks for images in vain.
proof fn lemma_settled_ask(
    tree: JsonTree,
    replies: Seq<Option<Seq<u8>>>,
    tally: Tally,
    signer: spec_fn(ImageView) -> Option<Seq<u8>>,
)
    requires
        all_refused(replies),
        asks_in_vain(tally, signer),
        is_settled_tree(tree, signer),
    ensures
        asks_in_vain(stamp_tree(tree, replies, tally).1, signer),
    decreases tree_size(tree),
{
    match tree {
        JsonTree::Object(members) => {
            lemma_settled_rules_ask(Rule::ImageFile, tree, replies, tally, signer);
            let (_, after) = apply_rules_from(Rule::ImageFile, tree, replies, tally);
            lemma_settled_members_ask(members, replies, after, signer);
        },
        JsonTree::Array(items) => lemma_settled_items_ask(items, replies, tally, signer),
        _ => {},
    }
}

proof fn lemma_settled_items_ask(
    items: Seq<JsonTree>,
    replies: Seq<Option<Seq<u8>>>,
    tally: Tally,
    signer: spec_fn(ImageView) -> Option<Seq<u8>>,
)
    requires
        all_refused(replies),
        asks_in_vain(tally, signer),
        forall|i: int| 0 <= i < items.len() ==> is_settled_tree(#[trigger] items[i], signer),
    ensures
        asks_in_vain(stamp_items(items, replies, tally).1, signer),
    decreases items_size(items),
{
    if items.len() > 0 {
        let rest = items.drop_first();
        let (_, after) = stamp_tree(items[0], replies, tally);
        assert(is_settled_tree(items[0], signer));
        assert forall|i: int| 0 <= i < rest.len() implies is_settled_tree(
            #[trigger] rest[i],
            signer,
        ) by {
            assert(rest[i] == items[i + 1]);
        }
        lemma_settled_ask(items[0], replies, tally, signer);
        lemma_settled_items_ask(rest, replies, after, signer);
    }
}

proof fn lemma_settled_members_ask(
    members: Seq<(Seq<char>, JsonTree)>,
    replies: Seq<Option<Seq<u8>>>,
    tally: Tally,
    signer: spec_fn(ImageView) -> Option<Seq<u8>>,
)
    requires
        all_refused(replies),
        asks_in_vain(tally, signer),
        forall|i: int|
            0 <= i < members.len() ==> is_settled_tree((#[trigger] members[i]).1, signer),
    ensures
        asks_in_vain(stamp_members(members, replies, tally).1, signer),
    decreases members_size(members),
{
    if members.len() > 0 {
        let rest = members.drop_first();
        let (_, after) = stamp_tree(members[0].1, replies, tally);
        assert(is_settled_tree(members[0].1, signer));
        assert forall|i: int| 0 <= i < rest.len() implies is_settled_tree(
            (#[trigger] rest[i]).1,
            signer,
        ) by {
            assert(rest[i] == members[i + 1]);
        }
        lemma_settled_ask(members[0].1, replies, tally, signer);
        lemma_settled_members_ask(rest, replies, after, signer);
    }
}

proof fn lemma_settled_answers(
    tree: JsonTree,
    replies: Seq<Option<Seq<u8>>>,
    signer: spec_fn(ImageView) -> Option<Seq<u8>>,
    end: int,
)
    requires
        is_settled_tree(tree, signer),
        answered_by(tree, replies, signer),
        stamp_tree(tree, replies, fresh()).1.asks is None,
        0 <= end <= stamp_tree(tree, replies, fresh()).1.used,
        end <= replies.len(),
    ensures
        all_refused(replies.take(end)),
    decreases end,
{
    if end > 0 {
        let u = end - 1;
        lemma_settled_answers(tree, replies, signer, u);
        lemma_stamp_cut(tree, replies, fresh(), u);
        lemma_settled_ask(tree, replies.take(u), fresh(), signer);
        assert(replies[u] is None);
        assert forall|i: int| 0 <= i < end implies (#[trigger] replies.take(end)[i]) is None by {
            if i < u {
                assert(replies.take(u)[i] == replies[i]);
            }
        }
    }
}

/// With the answers of a signer that leaves a value as it is, a walk replaces nothing in it.
pub proof fn law_settled_value_is_left_alone(
    tree: JsonTree,
    replies: Seq<Option<Seq<u8>>>,
    signer: spec_fn(ImageView) -> Option<Seq<u8>>,
)
    requires
        is_settled_tree(tree, signer),
        answered_by(tree, replies, signer),
        stamp_tree(tree, replies, fresh()).1.asks is None,
    ensures
        stamp_tree(tree, replies, fresh()).0 == tree,
        stamp_tree(tree, replies, fresh()).1.stamped == 0,
{
    let used = stamp_tree(tree, replies, fresh()).1.used as int;
    lemma_stamp_cut(tree, replies, fresh(), 0);
    lemma_settled_answers(tree, replies, signer, used);
    lemma_stamp_cut(tree, replies, fresh(), used);
    law_refused_walk_changes_nothing(tree, replies.take(used));
}

/// What a signer signs, without the reasons for which it does not sign the rest.
pub open spec fn signing_part(
    signer: spec_fn(ImageView) -> ReplyView,
) -> spec_fn(ImageView) -> Option<Seq<u8>> {
    |image: ImageView| signed_part(signer(image))
}

/// Each of `replies` is the signer's answer to the image that was asked for at that point, where
/// `outcome` says how far the signing of a response comes with some answers.
pub open spec fn is_transcript(
    outcome: spec_fn(Seq<ReplyView>) -> Outcome,
    replies: Seq<ReplyView>,
    signer: spec_fn(ImageView) -> ReplyView,
) -> bool {
    forall|u: int|
        0 <= u < replies.len() ==> (outcome(#[trigger] replies.take(u)) matches Outcome::Asks(image)
            && replies[u] == signer(image))
}

proof fn lemma_same_transcript(
    outcome: spec_fn(Seq<ReplyView>) -> Outcome,
    replies: Seq<ReplyView>,
    others: Seq<ReplyView>,
    signer: spec_fn(ImageView) -> ReplyView,
    end: int,
)
    requires
        is_transcript(outcome, replies, signer),
        is_transcript(outcome, others, signer),
        0 <= end <= replies.len(),
        end <= others.len(),
    ensures
        replies.take(end) == others.take(end),
    decreases end,
{
    if end > 0 {
        let u = end - 1;
        lemma_same_transcript(outcome, replies, others, signer, u);
        assert(outcome(replies.take(u)) is Asks);
        assert(outcome(others.take(u)) is Asks);
        assert(replies[u] == others[u]);
        assert(replies.take(end) =~= replies.take(u).push(replies[u]));
        assert(others.take(end) =~= others.take(u).push(others[u]));
    } else {
        assert(replies.take(end) =~= others.take(end));
    }
}

/// A signer's answers decide how the signing of a response ends.
pub proof fn law_signer_decides_the_end(
    outcome: spec_fn(Seq<ReplyView>) -> Outcome,
    replies: Seq<ReplyView>,
    others: Seq<ReplyView>,
    signer: spec_fn(ImageView) -> ReplyView,
)
    requires
        is_transcript(outcome, replies, signer),
        is_transcript(outcome, others, signer),
        outcome(replies) is Sends,
        outcome(others) is Sends,
    ensures
        replies == others,
{
    let end: int = if replies.len() <= others.len() {
        replies.len() as int
    } else {
        others.len() as int
    };
    lemma_same_transcript(outcome, replies, others, signer, end);
    assert(replies.take(replies.len() as int) =~= replies);
    assert(others.take(others.len() as int) =~= others);
    if replies.len() < others.len() {
        assert(outcome(others.take(end)) is Asks);
    } else if others.len() < replies.len() {
        assert(outcome(replies.take(end)) is Asks);
    }
}

/// The answers of a signer to the images in a response are its answers to the images in its value.
pub proof fn lemma_transcript_of_walk(
    outcome: spec_fn(Seq<ReplyView>) -> Outcome,
    tree: JsonTree,
    replies: Seq<ReplyView>,
    signer: spec_fn(ImageView) -> ReplyView,
)
    requires
        is_transcript(outcome, replies, signer),
        !any_failed(replies),
        forall|some: Seq<ReplyView>|
            #![trigger outcome(some)]
            !any_failed(some) ==> (stamp_tree(
                tree,
                signed_parts(some),
                fresh(),
            ).1.asks matches Some(image) ==> outcome(some) == Outcome::Asks(image)),
    ensures
        answered_by(tree, signed_parts(replies), signing_part(signer)),
{
    let parts = signed_parts(replies);
    assert forall|u: int| 0 <= u < parts.len() implies (stamp_tree(
        tree,
        #[trigger] parts.take(u),
        fresh(),
    ).1.asks matches Some(image) ==> parts[u] == signing_part(signer)(image)) by {
        let some = replies.take(u);
        assert(parts.take(u) =~= signed_parts(some));
        assert(!any_failed(some)) by {
            if any_failed(some) {
                let i = choose|i: int| 0 <= i < some.len() && (#[trigger] some[i]) is Failed;
                assert(replies[i] is Failed);
            }
        }
        assert(outcome(some) is Asks);
    }
}

/// What becomes of a body with some answers.
pub open spec fn body_outcomes(body: Seq<u8>) -> spec_fn(Seq<ReplyView>) -> Outcome {
    |replies: Seq<ReplyView>| body_outcome(body, replies)
}

/// A signer that does not sign what it has signed leaves a body as it is once it has had it, byte
/// for byte. This rests on the body being read back to its value, but for the fractions in it.
pub proof fn law_no_body_is_stamped_twice(
    body: Seq<u8>,
    replies: Seq<ReplyView>,
    sent: Seq<u8>,
    more: Seq<ReplyView>,
    signer: spec_fn(ImageView) -> ReplyView,
)
    requires
        signs_once(signing_part(signer)),
        is_transcript(body_outcomes(body), replies, signer),
        body_outcome(body, replies) == Outcome::Sends(sent),
        json_of_bytes(body) matches Some(tree) ==> is_read_back(
            json_of_bytes(sent),
            sent_value(tree, replies),
        ),
        is_transcript(body_outcomes(sent), more, signer),
    ensures
        body_outcome(sent, more) matches Outcome::Sends(again) ==> again == sent,
{
    if body_outcome(sent, more) is Sends {
        if sent == body {
            law_signer_decides_the_end(body_outcomes(body), replies, more, signer);
        } else if !any_failed(more) {
            let tree = json_of_bytes(body)->0;
            let again = json_of_bytes(sent)->0;
            let quiet = signing_part(signer);
            lemma_transcript_of_walk(body_outcomes(body), tree, replies, signer);
            lemma_transcript_of_walk(body_outcomes(sent), again, more, signer);
            law_walk_gives_the_signed_value(tree, signed_parts(replies), quiet);
            law_signed_value_is_settled(tree, quiet);
            lemma_same_is_settled(signed_tree(tree, quiet), again, quiet);
            law_settled_value_is_left_alone(again, signed_parts(more), quiet);
        }
    }
}

} // verus!
