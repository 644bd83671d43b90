//! The walk through a JSON value, one answer at a time.

use vstd::prelude::*;

use crate::encoding::encodable;
use crate::image::{find_b64_image, find_data_uri_image, signed_b64, signed_data_uri};
use crate::image::{image_view, reads_back, Image, ImageView};
use crate::json::{field, field_is, item_trees, member_tree, member_trees, text_of, with_field};
use crate::json::{Json, JsonTree};
use crate::json::{lemma_array_view, lemma_object_view};
use crate::walk::{apply_rule, apply_rules_from, fresh, image_in, rewritten, rule_carrier};
use crate::walk::{lemma_items_at_rest, lemma_members_at_rest, lemma_rules_at_rest, rule_path};
use crate::walk::{rule_text, stamp_items, stamp_members, stamp_tree, text_at};
use crate::walk::{items_size, members_size, tree_size, with_text_at, Carrier, Rule, Tally};

verus! {

/// An array or an object that the walk is inside of: what has been walked, and what is still to be
/// walked, the next value last.
enum Frame {
    Items { done: Vec<Json>, rest: Vec<Json> },
    Members { before: Vec<(String, Json)>, key: String, after: Vec<(String, Json)> },
}

/// What the walk is about to do.
enum Position {
    /// Walk a value.
    Value(Json),
    /// Apply a rule to an object, and all that follows.
    Rules(Json, Rule),
    /// Walk the members of an object to which the rules have been applied.
    Members(Json),
    /// Leave a value that has been walked.
    Left(Json),
}

/// How many of the answers are signed images.
pub open spec fn signatures(replies: Seq<Option<Seq<u8>>>) -> nat
    decreases replies.len(),
{
    if replies.len() == 0 {
        0
    } else if replies.last() is Some {
        signatures(replies.drop_last()) + 1
    } else {
        signatures(replies.drop_last())
    }
}

/// `count`, or the largest number that a `usize` holds.
pub open spec fn capped(count: nat) -> nat {
    if count <= usize::MAX {
        count
    } else {
        usize::MAX as nat
    }
}

/// Where a walk stands that has taken all of `replies`.
spec fn after_replies(replies: Seq<Option<Seq<u8>>>) -> Tally {
    Tally { used: replies.len(), stamped: signatures(replies), asks: None }
}

/// What comes out in the end when `value` has been walked inside of `frames`.
spec fn finish(
    frames: Seq<Frame>,
    value: JsonTree,
    replies: Seq<Option<Seq<u8>>>,
    tally: Tally,
) -> (JsonTree, Tally)
    decreases frames.len(),
{
    if frames.len() == 0 {
        (value, tally)
    } else {
        match frames.last() {
            Frame::Items { done, rest } => {
                let (more, tally) = stamp_items(item_trees(rest@.reverse()), replies, tally);
                finish(
                    frames.drop_last(),
                    JsonTree::Array(item_trees(done@).push(value) + more),
                    replies,
                    tally,
                )
            },
            Frame::Members { before: done, key, after: rest } => {
                let (more, tally) = stamp_members(member_trees(rest@.reverse()), replies, tally);
                finish(
                    frames.drop_last(),
                    JsonTree::Object(member_trees(done@).push((key@, value)) + more),
                    replies,
                    tally,
                )
            },
        }
    }
}

/// What comes out in the end of a walk at `at`, inside of `frames`.
spec fn outcome(
    frames: Seq<Frame>,
    at: Position,
    replies: Seq<Option<Seq<u8>>>,
    tally: Tally,
) -> (JsonTree, Tally) {
    match at {
        Position::Value(json) => {
            let (tree, tally) = stamp_tree(json@, replies, tally);
            finish(frames, tree, replies, tally)
        },
        Position::Rules(json, rule) => {
            let (tree, tally) = apply_rules_from(rule, json@, replies, tally);
            let (members, tally) = stamp_members(tree->Object_0, replies, tally);
            finish(frames, JsonTree::Object(members), replies, tally)
        },
        Position::Members(json) => {
            let (members, tally) = stamp_members(json@->Object_0, replies, tally);
            finish(frames, JsonTree::Object(members), replies, tally)
        },
        Position::Left(json) => finish(frames, json@, replies, tally),
    }
}

/// Rules and members belong to objects.
spec fn well_placed(at: Position) -> bool {
    match at {
        Position::Rules(json, _) => json is Object,
        Position::Members(json) => json is Object,
        _ => true,
    }
}

/// Whatever answers follow `replies`, a walk at `at` inside of `frames` comes to the same end as
/// the walk through `origin`.
spec fn on_course(
    origin: JsonTree,
    frames: Seq<Frame>,
    at: Position,
    replies: Seq<Option<Seq<u8>>>,
) -> bool {
    &&& well_placed(at)
    &&& forall|all: Seq<Option<Seq<u8>>>| #[trigger]
        replies.is_prefix_of(all) ==> stamp_tree(origin, all, fresh()) == outcome(
            frames,
            at,
            all,
            after_replies(replies),
        )
}

/// A bound on the number of steps that a walk at `at` inside of `frames` has before it.
spec fn work(frames: Seq<Frame>, at: Position) -> int {
    let ahead: int = match at {
        Position::Value(json) => 6 * tree_size(json@) as int,
        Position::Rules(json, Rule::ImageFile) => 6 * tree_size(json@) - 1,
        Position::Rules(json, Rule::ImageUrl) => 6 * tree_size(json@) - 2,
        Position::Rules(json, Rule::B64Json) => 6 * tree_size(json@) - 3,
        Position::Members(json) => 6 * tree_size(json@) - 4,
        Position::Left(_) => 1,
    };
    frames_work(frames) + ahead
}

spec fn frames_work(frames: Seq<Frame>) -> nat
    decreases frames.len(),
{
    if frames.len() == 0 {
        0
    } else {
        frames_work(frames.drop_last()) + 2 + match frames.last() {
            Frame::Items { rest, .. } => 6 * items_size(item_trees(rest@.reverse())),
            Frame::Members { after: rest, .. } => 6 * members_size(member_trees(rest@.reverse())),
        }
    }
}

/// The elements of `items` in the opposite order.
fn reversed<T>(items: Vec<T>) -> (res: Vec<T>)
    ensures
        res@ == items@.reverse(),
{
    let mut left = items;
    let mut res: Vec<T> = Vec::new();
    while left.len() > 0
        invariant
            res@ + left@.reverse() == items@.reverse(),
        decreases left@.len(),
    {
        let ghost before = left@;
        let ghost done = res@;
        if let Some(item) = left.pop() {
            res.push(item);
            assert(before.reverse() =~= seq![item] + left@.reverse());
            assert(res@ + left@.reverse() =~= done + before.reverse());
        }
    }
    assert(res@ + left@.reverse() =~= res@);
    res
}

proof fn lemma_reverse_pop<T>(rest: Seq<T>)
    requires
        rest.len() > 0,
    ensures
        rest.reverse()[0] == rest.last(),
        rest.reverse().drop_first() == rest.drop_last().reverse(),
{
    assert(rest.reverse().drop_first() =~= rest.drop_last().reverse());
}

/// The walk into the first of some items is the walk through them.
proof fn lemma_next_item(
    frames: Seq<Frame>,
    done: Vec<Json>,
    all: Vec<Json>,
    next: Json,
    rest: Vec<Json>,
    replies: Seq<Option<Seq<u8>>>,
    tally: Tally,
)
    requires
        all@ == rest@.push(next),
    ensures
        outcome(
            frames.push(Frame::Items { done, rest }),
            Position::Value(next),
            replies,
            tally,
        ) == ({
            let (more, tally) = stamp_items(item_trees(all@.reverse()), replies, tally);
            finish(frames, JsonTree::Array(item_trees(done@) + more), replies, tally)
        }),
        items_size(item_trees(all@.reverse())) == 1 + tree_size(next@) + items_size(
            item_trees(rest@.reverse()),
        ),
{
    let trees = item_trees(all@.reverse());
    lemma_reverse_pop(all@);
    assert(all@.drop_last() =~= rest@);
    assert(trees[0] == next@);
    assert(trees.drop_first() =~= item_trees(rest@.reverse()));
    let frame = Frame::Items { done, rest };
    assert(frames.push(frame).drop_last() =~= frames);
    let (first, middle) = stamp_tree(next@, replies, tally);
    let (more, end) = stamp_items(trees.drop_first(), replies, middle);
    assert(item_trees(done@).push(first) + more =~= item_trees(done@) + (seq![first] + more));
}

/// The walk into the first of some members is the walk through them.
proof fn lemma_next_member(
    frames: Seq<Frame>,
    done: Vec<(String, Json)>,
    all: Vec<(String, Json)>,
    key: String,
    next: Json,
    rest: Vec<(String, Json)>,
    replies: Seq<Option<Seq<u8>>>,
    tally: Tally,
)
    requires
        all@ == rest@.push((key, next)),
    ensures
        outcome(
            frames.push(Frame::Members { before: done, key, after: rest }),
            Position::Value(next),
            replies,
            tally,
        ) == ({
            let (more, tally) = stamp_members(member_trees(all@.reverse()), replies, tally);
            finish(frames, JsonTree::Object(member_trees(done@) + more), replies, tally)
        }),
        members_size(member_trees(all@.reverse())) == 1 + tree_size(next@) + members_size(
            member_trees(rest@.reverse()),
        ),
{
    let trees = member_trees(all@.reverse());
    lemma_reverse_pop(all@);
    assert(all@.drop_last() =~= rest@);
    assert(trees[0] == member_tree((key, next)));
    assert(trees.drop_first() =~= member_trees(rest@.reverse()));
    let frame = Frame::Members { before: done, key, after: rest };
    assert(frames.push(frame).drop_last() =~= frames);
    let (first, middle) = stamp_tree(next@, replies, tally);
    let (more, end) = stamp_members(trees.drop_first(), replies, middle);
    assert(member_trees(done@).push((key@, first)) + more =~= member_trees(done@) + (seq![
        (key@, first),
    ] + more));
}

proof fn lemma_finish_at_rest(
    frames: Seq<Frame>,
    value: JsonTree,
    replies: Seq<Option<Seq<u8>>>,
    tally: Tally,
)
    requires
        tally.asks is Some,
    ensures
        finish(frames, value, replies, tally).1 == tally,
    decreases frames.len(),
{
    if frames.len() > 0 {
        match frames.last() {
            Frame::Items { done, rest } => {
                let trees = item_trees(rest@.reverse());
                lemma_items_at_rest(trees, replies, tally);
                let more = stamp_items(trees, replies, tally).0;
                lemma_finish_at_rest(
                    frames.drop_last(),
                    JsonTree::Array(item_trees(done@).push(value) + more),
                    replies,
                    tally,
                );
            },
            Frame::Members { before: done, key, after: rest } => {
                let trees = member_trees(rest@.reverse());
                lemma_members_at_rest(trees, replies, tally);
                let more = stamp_members(trees, replies, tally).0;
                lemma_finish_at_rest(
                    frames.drop_last(),
                    JsonTree::Object(member_trees(done@).push((key@, value)) + more),
                    replies,
                    tally,
                );
            },
        }
    }
}

proof fn lemma_text_at_one(tree: JsonTree, key: Seq<char>, text: Seq<char>)
    ensures
        text_at(tree, seq![key]) == match field(tree, key) {
            Some(inner) => text_of(inner),
            None => None,
        },
        with_text_at(tree, seq![key], text) == with_field(tree, key, JsonTree::String(text)),
{
    reveal_with_fuel(text_at, 2);
    reveal_with_fuel(with_text_at, 2);
    assert(seq![key].drop_first() =~= Seq::empty());
}

proof fn lemma_text_at_two(tree: JsonTree, outer: Seq<char>, inner: Seq<char>, text: Seq<char>)
    ensures
        text_at(tree, seq![outer, inner]) == match field(tree, outer) {
            Some(member) => text_at(member, seq![inner]),
            None => None,
        },
        with_text_at(tree, seq![outer, inner], text) == match field(tree, outer) {
            Some(member) => with_field(tree, outer, with_text_at(member, seq![inner], text)),
            None => tree,
        },
{
    assert(seq![outer, inner].drop_first() =~= seq![inner]);
}

/// The string that `outer.inner` leads to.
fn nested_text<'a>(json: &'a Json, outer: &str, inner: &str) -> (res: Option<&'a str>)
    ensures
        match res {
            Some(text) => text_at(json@, seq![outer@, inner@]) == Some(text@),
            None => text_at(json@, seq![outer@, inner@]) is None,
        },
{
    proof {
        lemma_text_at_two(json@, outer@, inner@, Seq::empty());
    }
    match json.get(outer) {
        Some(member) => {
            proof {
                lemma_text_at_one(member@, inner@, Seq::empty());
            }
            match member.get(inner) {
                Some(value) => value.as_str(),
                None => None,
            }
        },
        None => None,
    }
}

/// Whether the member `type` is the string `name`.
fn has_type(json: &Json, name: &str) -> (res: bool)
    ensures
        res == field_is(json@, "type"@, name@),
{
    match json.get("type") {
        Some(value) => match value.as_str() {
            Some(text) => crate::text::equal(text, name),
            None => false,
        },
        None => false,
    }
}

/// The string that a rule picks out of an object.
fn find_text(rule: Rule, json: &Json) -> (res: Option<&str>)
    ensures
        match res {
            Some(text) => rule_text(rule, json@) == Some(text@),
            None => rule_text(rule, json@) is None,
        },
{
    match rule {
        Rule::ImageFile => if has_type(json, "image_file") {
            nested_text(json, "image_file", "data")
        } else {
            None
        },
        Rule::ImageUrl => if has_type(json, "image_url") {
            nested_text(json, "image_url", "url")
        } else {
            None
        },
        Rule::B64Json => {
            proof {
                lemma_text_at_one(json@, "b64_json"@, Seq::empty());
            }
            match json.get("b64_json") {
                Some(value) => value.as_str(),
                None => None,
            }
        },
    }
}

/// Puts a string where `outer.inner` leads to.
fn set_nested_text(json: &mut Json, outer: &str, inner: &str, text: String)
    requires
        text_at(old(json)@, seq![outer@, inner@]) is Some,
    ensures
        final(json)@ == with_text_at(old(json)@, seq![outer@, inner@], text@),
{
    proof {
        lemma_text_at_two(json@, outer@, inner@, text@);
    }
    if let Some(member) = json.get_mut(outer) {
        proof {
            lemma_text_at_one(member@, inner@, text@);
        }
        if let Some(value) = member.get_mut(inner) {
            *value = Json::String(text);
        }
    }
}

/// Puts a string in the place of the string that a rule picks out of an object.
fn set_text(rule: Rule, json: &mut Json, text: String)
    requires
        rule_text(rule, old(json)@) is Some,
    ensures
        final(json)@ == with_text_at(old(json)@, rule_path(rule), text@),
{
    match rule {
        Rule::ImageFile => set_nested_text(json, "image_file", "data", text),
        Rule::ImageUrl => set_nested_text(json, "image_url", "url", text),
        Rule::B64Json => {
            proof {
                lemma_text_at_one(json@, "b64_json"@, text@);
            }
            if let Some(value) = json.get_mut("b64_json") {
                *value = Json::String(text);
            }
        },
    }
}

/// The image that a string carries.
fn find_image(carrier: Carrier, text: &str) -> (res: Option<Image>)
    ensures
        image_view(res) == image_in(carrier, text@),
{
    match carrier {
        Carrier::Base64 => find_b64_image(text),
        Carrier::DataUri => find_data_uri_image(text),
    }
}

/// The string that carries a signed image in place of the image that `text` carries.
fn rewrite(carrier: Carrier, text: &str, signed: &Vec<u8>) -> (res: String)
    requires
        encodable(signed@.len()),
    ensures
        res@ == rewritten(carrier, text@, signed@),
        reads_back(signed@),
{
    match carrier {
        Carrier::Base64 => signed_b64(signed.as_slice()),
        Carrier::DataUri => signed_data_uri(text, signed.as_slice()),
    }
}

/// How the string that a rule picks out carries an image.
fn carrier_of(rule: Rule) -> (res: Carrier)
    ensures
        res == rule_carrier(rule),
{
    match rule {
        Rule::ImageFile => Carrier::Base64,
        Rule::ImageUrl => Carrier::DataUri,
        Rule::B64Json => Carrier::Base64,
    }
}

/// What follows a rule.
fn after_rule(rule: Rule, json: Json) -> (res: Position)
    ensures
        match rule {
            Rule::ImageFile => res == Position::Rules(json, Rule::ImageUrl),
            Rule::ImageUrl => res == Position::Rules(json, Rule::B64Json),
            Rule::B64Json => res == Position::Members(json),
        },
{
    match rule {
        Rule::ImageFile => Position::Rules(json, Rule::ImageUrl),
        Rule::ImageUrl => Position::Rules(json, Rule::B64Json),
        Rule::B64Json => Position::Members(json),
    }
}

/// Where a walk is at rest.
enum Pause {
    /// At a data URI.
    Uri(String),
    /// At the string that a rule picks out of an object.
    Member(Json, Rule),
}

/// What the walk is about to do when it goes on.
spec fn position(pause: Pause) -> Position {
    match pause {
        Pause::Uri(text) => Position::Value(Json::String(text)),
        Pause::Member(json, rule) => Position::Rules(json, rule),
    }
}

/// The image that the string at a pause carries.
spec fn image_at(pause: Pause) -> Option<ImageView> {
    match pause {
        Pause::Uri(text) => if "data:image/"@.is_prefix_of(text@) {
            image_in(Carrier::DataUri, text@)
        } else {
            None
        },
        Pause::Member(json, rule) => match rule_text(rule, json@) {
            Some(text) => image_in(rule_carrier(rule), text),
            None => None,
        },
    }
}

/// A walk at rest: it goes on when it is told what came of the signing of its image.
pub struct Walk {
    frames: Vec<Frame>,
    pause: Pause,
    image: Image,
    stamped: usize,
    origin: Ghost<JsonTree>,
    replies: Ghost<Seq<Option<Seq<u8>>>>,
}

/// How far a walk has come.
pub enum Step {
    /// An image is to be signed.
    Sign(Walk),
    /// The walk is over: the value, and the number of images that were replaced in it.
    Done { value: Json, stamped: usize },
}

/// The walk through `origin`, with the answers `replies`, has come as far as `step`.
pub open spec fn step_is(step: Step, origin: JsonTree, replies: Seq<Option<Seq<u8>>>) -> bool {
    let (tree, tally) = stamp_tree(origin, replies, fresh());
    match step {
        Step::Sign(walk) => {
            &&& tally.asks == Some(walk.request())
            &&& walk.origin() == origin
            &&& walk.replies() == replies
        },
        Step::Done { value, stamped } => {
            &&& tally.asks is None
            &&& value@ == tree
            &&& stamped == capped(tally.stamped)
        },
    }
}

/// Goes on until an image is met or the walk is over.
fn advance(
    frames: Vec<Frame>,
    at: Position,
    stamped: usize,
    Ghost(origin): Ghost<JsonTree>,
    Ghost(replies): Ghost<Seq<Option<Seq<u8>>>>,
) -> (res: Step)
    requires
        on_course(origin, frames@, at, replies),
        stamped == capped(signatures(replies)),
    ensures
        step_is(res, origin, replies),
{
    let mut frames = frames;
    let mut at = at;
    loop
        invariant
            on_course(origin, frames@, at, replies),
            stamped == capped(signatures(replies)),
        decreases work(frames@, at),
    {
        let ghost inside = frames@;
        let ghost from = at;
        let ghost tally = after_replies(replies);
        match at {
            Position::Value(json) => match json {
                Json::Object(members) => {
                    at = Position::Rules(Json::Object(members), Rule::ImageFile);
                },
                Json::Array(items) => {
                    let mut rest = reversed(items);
                    proof {
                        lemma_array_view(items);
                        assert(items@.reverse().reverse() =~= items@);
                    }
                    let ghost all = rest;
                    match rest.pop() {
                        Some(first) => {
                            assert(all@ =~= rest@.push(first));
                            let done: Vec<Json> = Vec::new();
                            proof {
                                assert forall|replied: Seq<Option<Seq<u8>>>| #[trigger]
                                    replies.is_prefix_of(replied) implies outcome(
                                    inside,
                                    from,
                                    replied,
                                    tally,
                                ) == outcome(
                                    inside.push(Frame::Items { done, rest }),
                                    Position::Value(first),
                                    replied,
                                    tally,
                                ) by {
                                    lemma_next_item(inside, done, all, first, rest, replied, tally);
                                    let (more, _) = stamp_items(
                                        item_trees(items@),
                                        replied,
                                        tally,
                                    );
                                    assert(item_trees(done@) + more =~= more);
                                }
                                lemma_next_item(inside, done, all, first, rest, replies, tally);
                                let frame = Frame::Items { done, rest };
                                assert(inside.push(frame).drop_last() =~= inside);
                            }
                            frames.push(Frame::Items { done, rest });
                            at = Position::Value(first);
                        },
                        None => {
                            proof {
                                lemma_array_view(rest);
                                assert(item_trees(rest@) =~= item_trees(items@));
                            }
                            at = Position::Left(Json::Array(rest));
                        },
                    }
                },
                Json::String(text) => {
                    if crate::text::strip_prefix(text.as_str(), "data:image/").is_some() {
                        if let Some(image) = find_data_uri_image(text.as_str()) {
                            let pause = Pause::Uri(text);
                            proof {
                                lemma_waits(origin, inside, pause, replies, image@);
                            }
                            return Step::Sign(
                                Walk {
                                    frames,
                                    pause,
                                    image,
                                    stamped,
                                    origin: Ghost(origin),
                                    replies: Ghost(replies),
                                },
                            );
                        }
                    }
                    at = Position::Left(Json::String(text));
                },
                other => {
                    at = Position::Left(other);
                },
            },
            Position::Rules(json, rule) => {
                let found = match find_text(rule, &json) {
                    Some(text) => find_image(carrier_of(rule), text),
                    None => None,
                };
                if let Some(image) = found {
                    let pause = Pause::Member(json, rule);
                    proof {
                        lemma_waits(origin, inside, pause, replies, image@);
                    }
                    return Step::Sign(
                        Walk {
                            frames,
                            pause,
                            image,
                            stamped,
                            origin: Ghost(origin),
                            replies: Ghost(replies),
                        },
                    );
                }
                proof {
                    assert forall|replied: Seq<Option<Seq<u8>>>|
                        apply_rule(rule, json@, replied, tally) == (json@, tally) by {
                        crate::walk::lemma_same_text(json@, rule_path(rule));
                    }
                }
                at = after_rule(rule, json);
            },
            Position::Members(json) => if let Json::Object(members) = json {
                let mut rest = reversed(members);
                proof {
                    lemma_object_view(members);
                    assert(members@.reverse().reverse() =~= members@);
                }
                let ghost all = rest;
                match rest.pop() {
                    Some((key, first)) => {
                        assert(all@ =~= rest@.push((key, first)));
                        let done: Vec<(String, Json)> = Vec::new();
                        proof {
                            assert forall|replied: Seq<Option<Seq<u8>>>| #[trigger]
                                replies.is_prefix_of(replied) implies outcome(
                                inside,
                                from,
                                replied,
                                tally,
                            ) == outcome(
                                inside.push(Frame::Members { before: done, key, after: rest }),
                                Position::Value(first),
                                replied,
                                tally,
                            ) by {
                                lemma_next_member(
                                    inside,
                                    done,
                                    all,
                                    key,
                                    first,
                                    rest,
                                    replied,
                                    tally,
                                );
                                let (more, _) = stamp_members(
                                    member_trees(members@),
                                    replied,
                                    tally,
                                );
                                assert(member_trees(done@) + more =~= more);
                            }
                            lemma_next_member(inside, done, all, key, first, rest, replies, tally);
                            let frame = Frame::Members { before: done, key, after: rest };
                            assert(inside.push(frame).drop_last() =~= inside);
                        }
                        frames.push(Frame::Members { before: done, key, after: rest });
                        at = Position::Value(first);
                    },
                    None => {
                        proof {
                            lemma_object_view(rest);
                            assert(member_trees(rest@) =~= member_trees(members@));
                        }
                        at = Position::Left(Json::Object(rest));
                    },
                }
            } else {
                at = Position::Left(Json::Null);
            },
            Position::Left(value) => match frames.pop() {
                None => {
                    assert(replies.is_prefix_of(replies));
                    return Step::Done { value, stamped };
                },
                Some(Frame::Items { mut done, mut rest }) => {
                    let ghost before = done@;
                    let ghost all = rest;
                    done.push(value);
                    assert(item_trees(done@) =~= item_trees(before).push(value@));
                    match rest.pop() {
                        Some(next) => {
                            assert(all@ =~= rest@.push(next));
                            proof {
                                assert forall|replied: Seq<Option<Seq<u8>>>| #[trigger]
                                    replies.is_prefix_of(replied) implies outcome(
                                    inside,
                                    from,
                                    replied,
                                    tally,
                                ) == outcome(
                                    frames@.push(Frame::Items { done, rest }),
                                    Position::Value(next),
                                    replied,
                                    tally,
                                ) by {
                                    lemma_next_item(frames@, done, all, next, rest, replied, tally);
                                }
                                lemma_next_item(frames@, done, all, next, rest, replies, tally);
                                let frame = Frame::Items { done, rest };
                                assert(frames@.push(frame).drop_last() =~= frames@);
                            }
                            frames.push(Frame::Items { done, rest });
                            at = Position::Value(next);
                        },
                        None => {
                            proof {
                                lemma_array_view(done);
                                assert(item_trees(all@.reverse()) =~= Seq::empty());
                                assert forall|more: Seq<JsonTree>|
                                    more.len() == 0 implies #[trigger] (item_trees(done@) + more)
                                    == item_trees(done@) by {
                                    assert(item_trees(done@) + more =~= item_trees(done@));
                                }
                            }
                            at = Position::Left(Json::Array(done));
                        },
                    }
                },
                Some(Frame::Members { before: mut done, key, after: mut rest }) => {
                    let ghost before = done@;
                    let ghost all = rest;
                    done.push((key, value));
                    assert(member_trees(done@) =~= member_trees(before).push((key@, value@)));
                    match rest.pop() {
                        Some((next_key, next)) => {
                            assert(all@ =~= rest@.push((next_key, next)));
                            proof {
                                assert forall|replied: Seq<Option<Seq<u8>>>| #[trigger]
                                    replies.is_prefix_of(replied) implies outcome(
                                    inside,
                                    from,
                                    replied,
                                    tally,
                                ) == outcome(
                                    frames@.push(
                                        Frame::Members {
                                            before: done,
                                            key: next_key,
                                            after: rest,
                                        },
                                    ),
                                    Position::Value(next),
                                    replied,
                                    tally,
                                ) by {
                                    lemma_next_member(
                                        frames@,
                                        done,
                                        all,
                                        next_key,
                                        next,
                                        rest,
                                        replied,
                                        tally,
                                    );
                                }
                                lemma_next_member(
                                    frames@,
                                    done,
                                    all,
                                    next_key,
                                    next,
                                    rest,
                                    replies,
                                    tally,
                                );
                                let frame = Frame::Members {
                                    before: done,
                                    key: next_key,
                                    after: rest,
                                };
                                assert(frames@.push(frame).drop_last() =~= frames@);
                            }
                            frames.push(
                                Frame::Members { before: done, key: next_key, after: rest },
                            );
                            at = Position::Value(next);
                        },
                        None => {
                            proof {
                                lemma_object_view(done);
                                assert(member_trees(all@.reverse()) =~= Seq::empty());
                                assert forall|more: Seq<(Seq<char>, JsonTree)>|
                                    more.len() == 0 implies #[trigger] (member_trees(done@) + more)
                                    == member_trees(done@) by {
                                    assert(member_trees(done@) + more =~= member_trees(done@));
                                }
                            }
                            at = Position::Left(Json::Object(done));
                        },
                    }
                },
            },
        }
    }
}

/// A walk that meets an image and has no answer left asks for that image.
proof fn lemma_waits(
    origin: JsonTree,
    frames: Seq<Frame>,
    pause: Pause,
    replies: Seq<Option<Seq<u8>>>,
    image: ImageView,
)
    requires
        on_course(origin, frames, position(pause), replies),
        image_at(pause) == Some(image),
    ensures
        stamp_tree(origin, replies, fresh()).1.asks == Some(image),
{
    assert(replies.is_prefix_of(replies));
    let tally = after_replies(replies);
    let rest = Tally { asks: Some(image), ..tally };
    match pause {
        Pause::Uri(text) => {
            let (tree, _) = stamp_tree(JsonTree::String(text@), replies, tally);
            lemma_finish_at_rest(frames, tree, replies, rest);
        },
        Pause::Member(json, rule) => {
            let (ruled, _) = apply_rule(rule, json@, replies, tally);
            match rule {
                Rule::ImageFile => lemma_rules_at_rest(Rule::ImageUrl, ruled, replies, rest),
                Rule::ImageUrl => lemma_rules_at_rest(Rule::B64Json, ruled, replies, rest),
                Rule::B64Json => {},
            }
            let (tree, _) = apply_rules_from(rule, json@, replies, tally);
            lemma_members_at_rest(tree->Object_0, replies, rest);
            let (members, _) = stamp_members(tree->Object_0, replies, rest);
            lemma_finish_at_rest(frames, JsonTree::Object(members), replies, rest);
        },
    }
}

impl Walk {
    #[verifier::type_invariant]
    spec fn well_formed(&self) -> bool {
        &&& on_course(self.origin@, self.frames@, position(self.pause), self.replies@)
        &&& self.stamped == capped(signatures(self.replies@))
        &&& image_at(self.pause) == Some(self.image@)
    }

    /// The value that is walked.
    pub closed spec fn origin(&self) -> JsonTree {
        self.origin@
    }

    /// The answers so far.
    pub closed spec fn replies(&self) -> Seq<Option<Seq<u8>>> {
        self.replies@
    }

    /// The image that is to be signed.
    pub closed spec fn request(&self) -> ImageView {
        self.image@
    }

    /// The image that is to be signed.
    pub fn image(&self) -> (res: &Image)
        ensures
            res@ == self.request(),
    {
        &self.image
    }

    /// Goes on with what came of the signing: the signed image, or nothing.
    pub fn resume(self, reply: Option<Vec<u8>>) -> (res: Step)
        requires
            reply matches Some(signed) ==> encodable(signed@.len()),
        ensures
            step_is(res, self.origin(), self.replies().push(reply_view(reply))),
            reply matches Some(signed) ==> reads_back(signed@),
    {
        proof {
            use_type_invariant(&self);
        }
        let Walk { frames, pause, image: _, stamped, origin, replies } = self;
        let ghost before = after_replies(replies@);
        let ghost all = replies@.push(reply_view(reply));
        assert(all.drop_last() =~= replies@);
        let stamped: usize = match reply {
            Some(_) if stamped < usize::MAX => stamped + 1,
            _ => stamped,
        };
        let at = match pause {
            Pause::Uri(text) => Position::Left(
                Json::String(
                    match &reply {
                        Some(signed) => rewrite(Carrier::DataUri, text.as_str(), signed),
                        None => text,
                    },
                ),
            ),
            Pause::Member(json, rule) => {
                let mut json = json;
                let ghost found = json@;
                let rewritten_text = match (find_text(rule, &json), &reply) {
                    (Some(text), Some(signed)) => Some(rewrite(carrier_of(rule), text, signed)),
                    _ => None,
                };
                if let Some(text) = rewritten_text {
                    set_text(rule, &mut json, text);
                }
                proof {
                    crate::walk::lemma_same_text(found, rule_path(rule));
                    crate::walk::lemma_rules_keep_size(rule, found, all, before);
                }
                after_rule(rule, json)
            },
        };
        proof {
            assert forall|more: Seq<Option<Seq<u8>>>| #[trigger]
                all.is_prefix_of(more) implies stamp_tree(origin@, more, fresh()) == outcome(
                frames@,
                at,
                more,
                after_replies(all),
            ) by {
                assert(replies@.is_prefix_of(more)) by {
                    assert(replies@ =~= more.subrange(0, replies@.len() as int));
                }
                assert(more[replies@.len() as int] == all[replies@.len() as int]);
                if let Pause::Member(json, rule) = pause {
                    let (ruled, tally) = apply_rule(rule, json@, more, before);
                    assert(tally == after_replies(all));
                }
            }
        }
        advance(frames, at, stamped, origin, Ghost(all))
    }
}

/// What an answer holds.
pub open spec fn reply_view(reply: Option<Vec<u8>>) -> Option<Seq<u8>> {
    match reply {
        Some(signed) => Some(signed@),
        None => None,
    }
}

/// Begins the walk through a value.
pub fn stamp_images_in_value(value: Json) -> (res: Step)
    ensures
        step_is(res, value@, Seq::empty()),
{
    let ghost none: Seq<Option<Seq<u8>>> = Seq::empty();
    let frames: Vec<Frame> = Vec::new();
    let ghost origin = value@;
    advance(frames, Position::Value(value), 0, Ghost(origin), Ghost(none))
}

} // verus!
