//! The manifest that is signed into an image: a template, with the time of signing put in.

use vstd::prelude::*;

use crate::json::{distinct_keys, field, field_is, item_trees, with_field, Json, JsonTree};
use crate::json::{lemma_field_keys, lemma_field_nests, lemma_with_field_keys};
use crate::json::{lemma_with_field_nests, nests_within};

verus! {

/// A time of creation: the member `when` of an action `c2pa.created`.
pub open spec fn has_creation_time(action: JsonTree) -> bool {
    field_is(action, "action"@, "c2pa.created"@) && field(action, "when"@) is Some
}

/// The actions of an assertion that is labelled `c2pa.actions`: its member `data.actions`, if that
/// is an array.
pub open spec fn actions_of(assertion: JsonTree) -> Option<Seq<JsonTree>> {
    if field_is(assertion, "label"@, "c2pa.actions"@) {
        match field(assertion, "data"@) {
            Some(data) => match field(data, "actions"@) {
                Some(JsonTree::Array(actions)) => Some(actions),
                _ => None,
            },
            None => None,
        }
    } else {
        None
    }
}

/// The assertions of a manifest: its member `assertions`, if that is an array.
pub open spec fn assertions_of(manifest: JsonTree) -> Option<Seq<JsonTree>> {
    match field(manifest, "assertions"@) {
        Some(JsonTree::Array(assertions)) => Some(assertions),
        _ => None,
    }
}

/// How many times of creation some actions have.
pub open spec fn times_in_actions(actions: Seq<JsonTree>) -> nat
    decreases actions.len(),
{
    if actions.len() == 0 {
        0
    } else if has_creation_time(actions[0]) {
        1 + times_in_actions(actions.drop_first())
    } else {
        times_in_actions(actions.drop_first())
    }
}

/// How many times of creation some assertions have.
pub open spec fn times_in_assertions(assertions: Seq<JsonTree>) -> nat
    decreases assertions.len(),
{
    if assertions.len() == 0 {
        0
    } else {
        times_in_assertions(assertions.drop_first()) + match actions_of(assertions[0]) {
            Some(actions) => times_in_actions(actions),
            None => 0,
        }
    }
}

/// How many times of creation a manifest has.
pub open spec fn creation_times(manifest: JsonTree) -> nat {
    match assertions_of(manifest) {
        Some(assertions) => times_in_assertions(assertions),
        None => 0,
    }
}

/// Actions with the times from `times[next]` on as their times of creation, and the index of the
/// time that comes next. Where the times run out, the rest is left as it is.
pub open spec fn restamp_actions(
    actions: Seq<JsonTree>,
    times: Seq<Seq<char>>,
    next: nat,
) -> (Seq<JsonTree>, nat)
    decreases actions.len(),
{
    if actions.len() == 0 {
        (actions, next)
    } else {
        let (first, after) = if has_creation_time(actions[0]) && next < times.len() {
            (
                with_field(actions[0], "when"@, JsonTree::String(times[next as int])),
                next + 1,
            )
        } else {
            (actions[0], next)
        };
        let (rest, end) = restamp_actions(actions.drop_first(), times, after);
        (seq![first] + rest, end)
    }
}

/// An assertion with other actions in it.
pub open spec fn with_actions(assertion: JsonTree, actions: Seq<JsonTree>) -> JsonTree {
    match field(assertion, "data"@) {
        Some(data) => with_field(
            assertion,
            "data"@,
            with_field(data, "actions"@, JsonTree::Array(actions)),
        ),
        None => assertion,
    }
}

/// Assertions with the times from `times[next]` on as the times of creation of their actions, and
/// the index of the time that comes next.
pub open spec fn restamp_assertions(
    assertions: Seq<JsonTree>,
    times: Seq<Seq<char>>,
    next: nat,
) -> (Seq<JsonTree>, nat)
    decreases assertions.len(),
{
    if assertions.len() == 0 {
        (assertions, next)
    } else {
        let (first, after) = match actions_of(assertions[0]) {
            Some(actions) => {
                let (actions, after) = restamp_actions(actions, times, next);
                (with_actions(assertions[0], actions), after)
            },
            None => (assertions[0], next),
        };
        let (rest, end) = restamp_assertions(assertions.drop_first(), times, after);
        (seq![first] + rest, end)
    }
}

/// A manifest with `times` as its times of creation, in their order.
pub open spec fn restamped(manifest: JsonTree, times: Seq<Seq<char>>) -> JsonTree {
    match assertions_of(manifest) {
        Some(assertions) => with_field(
            manifest,
            "assertions"@,
            JsonTree::Array(restamp_assertions(assertions, times, 0).0),
        ),
        None => manifest,
    }
}

/// What some strings hold.
pub open spec fn text_views(texts: Seq<String>) -> Seq<Seq<char>> {
    texts.map_values(|text: String| text@)
}

/// Whether the member `key` is the string `text`.
fn member_is(json: &Json, key: &str, text: &str) -> (res: bool)
    ensures
        res == field_is(json@, key@, text@),
{
    match json.get(key) {
        Some(value) => match value.as_str() {
            Some(found) => crate::text::equal(found, text),
            None => false,
        },
        None => false,
    }
}

/// Whether an action has a time of creation.
fn is_timed(action: &Json) -> (res: bool)
    ensures
        res == has_creation_time(action@),
{
    member_is(action, "action", "c2pa.created") && action.get("when").is_some()
}

/// Puts the times from `times[next]` on into actions.
fn restamp_action_list(actions: &mut Vec<Json>, times: &Vec<String>, next: usize) -> (res: usize)
    requires
        next <= times@.len(),
    ensures
        (item_trees(final(actions)@), res as nat) == restamp_actions(
            item_trees(old(actions)@),
            text_views(times@),
            next as nat,
        ),
        res <= times@.len(),
{
    let ghost all = item_trees(actions@);
    let ghost views = text_views(times@);
    let ghost goal = restamp_actions(all, views, next as nat);
    let mut next = next;
    let mut i: usize = 0;
    proof {
        assert(all.skip(0) =~= all);
        assert(all.take(0) + goal.0 =~= goal.0);
    }
    while i < actions.len()
        invariant
            i <= actions@.len(),
            actions@.len() == all.len(),
            views == text_views(times@),
            next <= times@.len(),
            item_trees(actions@).skip(i as int) == all.skip(i as int),
            item_trees(actions@).take(i as int) + restamp_actions(
                all.skip(i as int),
                views,
                next as nat,
            ).0 == goal.0,
            restamp_actions(all.skip(i as int), views, next as nat).1 == goal.1,
        decreases actions@.len() - i,
    {
        let ghost before = actions@;
        let ghost rest = all.skip(i as int);
        let ghost from = next as nat;
        assert(item_trees(before).skip(i as int)[0] == before[i as int]@);
        assert(rest[0] == before[i as int]@);
        assert(rest.drop_first() =~= all.skip(i + 1));
        if is_timed(&actions[i]) && next < times.len() {
            if let Some(when) = actions[i].get_mut("when") {
                *when = Json::String(times[next].clone());
            }
            next += 1;
        }
        proof {
            let after = item_trees(actions@);
            assert(after.skip(i + 1) =~= item_trees(before).skip(i as int).drop_first());
            assert(after.take(i + 1) =~= item_trees(before).take(i as int).push(after[i as int]));
            let more = restamp_actions(all.skip(i + 1), views, next as nat).0;
            assert(restamp_actions(rest, views, from).0 =~= seq![after[i as int]] + more);
            assert(after.take(i + 1) + more =~= item_trees(before).take(i as int) + (seq![
                after[i as int],
            ] + more));
        }
        i += 1;
    }
    assert(item_trees(actions@).take(i as int) =~= item_trees(actions@));
    assert(item_trees(actions@).take(i as int) + restamp_actions(
        all.skip(i as int),
        views,
        next as nat,
    ).0 =~= item_trees(actions@));
    next
}

/// Puts the times from `times[next]` on into the actions of an assertion.
fn restamp_assertion(assertion: &mut Json, times: &Vec<String>, next: usize) -> (res: usize)
    requires
        next <= times@.len(),
    ensures
        (final(assertion)@, res as nat) == match actions_of(old(assertion)@) {
            Some(actions) => {
                let (actions, after) = restamp_actions(actions, text_views(times@), next as nat);
                (with_actions(old(assertion)@, actions), after)
            },
            None => (old(assertion)@, next as nat),
        },
        res <= times@.len(),
{
    proof {
        crate::json::lemma_array_views();
        crate::json::lemma_same_field(assertion@, "data"@);
    }
    if member_is(assertion, "label", "c2pa.actions") {
        if let Some(data) = assertion.get_mut("data") {
            proof {
                crate::json::lemma_same_field(data@, "actions"@);
            }
            if let Some(Json::Array(actions)) = data.get_mut("actions") {
                return restamp_action_list(actions, times, next);
            }
        }
    }
    next
}

/// Puts the times from `times[next]` on into assertions.
fn restamp_assertion_list(assertions: &mut Vec<Json>, times: &Vec<String>)
    ensures
        item_trees(final(assertions)@) == restamp_assertions(
            item_trees(old(assertions)@),
            text_views(times@),
            0,
        ).0,
{
    let ghost all = item_trees(assertions@);
    let ghost views = text_views(times@);
    let ghost goal = restamp_assertions(all, views, 0).0;
    let mut next: usize = 0;
    let mut i: usize = 0;
    proof {
        assert(all.skip(0) =~= all);
        assert(all.take(0) + goal =~= goal);
    }
    while i < assertions.len()
        invariant
            i <= assertions@.len(),
            assertions@.len() == all.len(),
            views == text_views(times@),
            next <= times@.len(),
            item_trees(assertions@).skip(i as int) == all.skip(i as int),
            item_trees(assertions@).take(i as int) + restamp_assertions(
                all.skip(i as int),
                views,
                next as nat,
            ).0 == goal,
        decreases assertions@.len() - i,
    {
        let ghost before = assertions@;
        let ghost rest = all.skip(i as int);
        let ghost from = next as nat;
        assert(item_trees(before).skip(i as int)[0] == before[i as int]@);
        assert(rest[0] == before[i as int]@);
        assert(rest.drop_first() =~= all.skip(i + 1));
        next = restamp_assertion(&mut assertions[i], times, next);
        proof {
            let after = item_trees(assertions@);
            assert(after.skip(i + 1) =~= item_trees(before).skip(i as int).drop_first());
            assert(after.take(i + 1) =~= item_trees(before).take(i as int).push(after[i as int]));
            let more = restamp_assertions(all.skip(i + 1), views, next as nat).0;
            assert(restamp_assertions(rest, views, from).0 =~= seq![after[i as int]] + more);
            assert(after.take(i + 1) + more =~= item_trees(before).take(i as int) + (seq![
                after[i as int],
            ] + more));
        }
        i += 1;
    }
    assert(item_trees(assertions@).take(i as int) =~= item_trees(assertions@));
    assert(item_trees(assertions@).take(i as int) + restamp_assertions(
        all.skip(i as int),
        views,
        next as nat,
    ).0 =~= item_trees(assertions@));
}

/// Puts times into a manifest as its times of creation.
pub fn restamp(manifest: &mut Json, times: &Vec<String>)
    ensures
        final(manifest)@ == restamped(old(manifest)@, text_views(times@)),
{
    proof {
        crate::json::lemma_array_views();
        crate::json::lemma_same_field(manifest@, "assertions"@);
    }
    if let Some(Json::Array(assertions)) = manifest.get_mut("assertions") {
        restamp_assertion_list(assertions, times);
    }
}

/// Every character of `text` is a decimal digit.
pub open spec fn are_digits(text: Seq<char>) -> bool {
    forall|i: int| 0 <= i < text.len() ==> '0' <= #[trigger] text[i] <= '9'
}

/// `text` has the form `form`, in which `d` stands for any decimal digit.
pub open spec fn has_form(text: Seq<char>, form: Seq<char>) -> bool {
    &&& text.len() == form.len()
    &&& forall|i: int|
        0 <= i < text.len() ==> if form[i] == 'd' {
            '0' <= #[trigger] text[i] <= '9'
        } else {
            text[i] == form[i]
        }
}

/// A year: four digits, or more than four after a plus sign.
pub open spec fn is_year(text: Seq<char>) -> bool {
    ||| text.len() == 4 && are_digits(text)
    ||| text.len() > 5 && text[0] == '+' && are_digits(text.skip(1))
}

/// A part of a second: nothing, or thousandths, millionths or billionths after a point.
pub open spec fn is_fraction_of_second(text: Seq<char>) -> bool {
    ||| text.len() == 0
    ||| text.len() == 4 && text[0] == '.' && are_digits(text.skip(1))
    ||| text.len() == 7 && text[0] == '.' && are_digits(text.skip(1))
    ||| text.len() == 10 && text[0] == '.' && are_digits(text.skip(1))
}

/// A time in UTC, written as RFC 3339 has it, with a year of `year` characters and a part of a
/// second of `part` characters.
pub open spec fn is_utc_time_with(text: Seq<char>, year: int, part: int) -> bool {
    &&& 0 <= year
    &&& 0 <= part
    &&& text.len() == year + 15 + part + 6
    &&& is_year(text.take(year))
    &&& has_form(text.subrange(year, year + 15), "-dd-ddTdd:dd:dd"@)
    &&& is_fraction_of_second(text.subrange(year + 15, year + 15 + part))
    &&& text.skip(year + 15 + part) == "+00:00"@
}

/// A time in UTC, written as RFC 3339 has it.
pub open spec fn is_utc_time(text: Seq<char>) -> bool {
    exists|year: int, part: int| is_utc_time_with(text, year, part)
}

/// `chrono::Utc::now`, written by `DateTime::to_rfc3339`: the time that the clock of the machine
/// shows. Which time that is, is left unsaid.
#[verifier::external_body]
pub(crate) fn utc_now() -> (res: String)
    ensures
        is_utc_time(res@),
{
    chrono::Utc::now().to_rfc3339()
}

/// `text` is a reading of the clock: a call of `utc_now` can give it.
pub closed spec fn is_clock_reading(text: Seq<char>) -> bool {
    exists|reading: String| #[trigger] call_ensures(utc_now, (), reading) && reading@ == text
}

/// Every one of some texts is a reading of the clock.
pub open spec fn are_clock_readings(times: Seq<Seq<char>>) -> bool {
    forall|i: int| 0 <= i < times.len() ==> is_clock_reading(#[trigger] times[i])
}

/// A reading of the clock is what a call that reads the clock gives.
pub(crate) proof fn law_clock_reading_comes_from_the_clock(text: Seq<char>)
    requires
        is_clock_reading(text),
    ensures
        exists|reading: String| #[trigger] call_ensures(utc_now, (), reading) && reading@ == text,
{
}

/// What a call of `read` gives.
fn reading_of<F: Fn() -> String>(read: F) -> (res: String)
    requires
        call_requires(read, ()),
    ensures
        call_ensures(read, (), res),
{
    read()
}

/// Reads the clock.
fn read_clock() -> (res: String)
    ensures
        call_ensures(utc_now, (), res),
        is_clock_reading(res@),
        is_utc_time(res@),
{
    reading_of(utc_now)
}

/// Every one of some texts is a time in UTC.
pub open spec fn are_utc_times(times: Seq<Seq<char>>) -> bool {
    forall|i: int| 0 <= i < times.len() ==> is_utc_time(#[trigger] times[i])
}

/// Reads the clock once for each time of creation that a manifest has.
pub fn read_clock_for(manifest: &Json) -> (res: Vec<String>)
    ensures
        res@.len() == creation_times(manifest@),
        are_utc_times(text_views(res@)),
        are_clock_readings(text_views(res@)),
{
    let mut times: Vec<String> = Vec::new();
    proof {
        crate::json::lemma_array_views();
    }
    if let Some(Json::Array(assertions)) = manifest.get("assertions") {
        let ghost all = item_trees(assertions@);
        let mut i: usize = 0;
        assert(all.skip(0) =~= all);
        while i < assertions.len()
            invariant
                i <= assertions@.len(),
                all == item_trees(assertions@),
                times@.len() + times_in_assertions(all.skip(i as int)) == times_in_assertions(all),
                are_utc_times(text_views(times@)),
                are_clock_readings(text_views(times@)),
            decreases assertions@.len() - i,
        {
            assert(all.skip(i as int)[0] == assertions@[i as int]@);
            assert(all.skip(i as int).drop_first() =~= all.skip(i + 1));
            read_clock_for_assertion(&assertions[i], &mut times);
            i += 1;
        }
    }
    times
}

/// Reads the clock once for each time of creation that an assertion has.
fn read_clock_for_assertion(assertion: &Json, times: &mut Vec<String>)
    requires
        are_utc_times(text_views(old(times)@)),
        are_clock_readings(text_views(old(times)@)),
    ensures
        final(times)@.len() == old(times)@.len() + match actions_of(assertion@) {
            Some(actions) => times_in_actions(actions),
            None => 0,
        },
        are_utc_times(text_views(final(times)@)),
        are_clock_readings(text_views(final(times)@)),
{
    proof {
        crate::json::lemma_array_views();
    }
    if !member_is(assertion, "label", "c2pa.actions") {
        return ;
    }
    let data = match assertion.get("data") {
        Some(data) => data,
        None => return ,
    };
    if let Some(Json::Array(actions)) = data.get("actions") {
        let ghost all = item_trees(actions@);
        let mut i: usize = 0;
        assert(all.skip(0) =~= all);
        while i < actions.len()
            invariant
                i <= actions@.len(),
                all == item_trees(actions@),
                times@.len() + times_in_actions(all.skip(i as int)) == old(times)@.len()
                    + times_in_actions(all),
                are_utc_times(text_views(times@)),
                are_clock_readings(text_views(times@)),
            decreases actions@.len() - i,
        {
            assert(all.skip(i as int)[0] == actions@[i as int]@);
            assert(all.skip(i as int).drop_first() =~= all.skip(i + 1));
            if is_timed(&actions[i]) {
                let ghost before = times@;
                let now = read_clock();
                times.push(now);
                assert(text_views(times@) =~= text_views(before).push(now@));
            }
            i += 1;
        }
    }
}

proof fn lemma_restamp_actions_keys(
    actions: Seq<JsonTree>,
    times: Seq<Seq<char>>,
    next: nat,
)
    requires
        distinct_keys(JsonTree::Array(actions)),
    ensures
        distinct_keys(JsonTree::Array(restamp_actions(actions, times, next).0)),
    decreases actions.len(),
{
    let stamped = restamp_actions(actions, times, next).0;
    if actions.len() > 0 {
        let whole = JsonTree::Array(actions);
        assert(distinct_keys(whole->Array_0[0]));
        assert forall|i: int| 0 <= i < actions.len() - 1 implies distinct_keys(
            #[trigger] actions.drop_first()[i],
        ) by {
            assert(distinct_keys(whole->Array_0[i + 1]));
        }
        let timed = has_creation_time(actions[0]) && next < times.len();
        let after = if timed {
            next + 1
        } else {
            next
        };
        if timed {
            lemma_with_field_keys(actions[0], "when"@, JsonTree::String(times[next as int]));
        }
        lemma_restamp_actions_keys(actions.drop_first(), times, after);
        let rest = JsonTree::Array(restamp_actions(actions.drop_first(), times, after).0);
        assert forall|i: int| 0 <= i < stamped.len() implies distinct_keys(
            #[trigger] stamped[i],
        ) by {
            if i > 0 {
                assert(distinct_keys(rest->Array_0[i - 1]));
            }
        }
    }
}

proof fn lemma_restamp_assertions_keys(
    assertions: Seq<JsonTree>,
    times: Seq<Seq<char>>,
    next: nat,
)
    requires
        distinct_keys(JsonTree::Array(assertions)),
    ensures
        distinct_keys(JsonTree::Array(restamp_assertions(assertions, times, next).0)),
    decreases assertions.len(),
{
    let stamped = restamp_assertions(assertions, times, next).0;
    if assertions.len() > 0 {
        let whole = JsonTree::Array(assertions);
        let first = whole->Array_0[0];
        assert(distinct_keys(first));
        assert forall|i: int| 0 <= i < assertions.len() - 1 implies distinct_keys(
            #[trigger] assertions.drop_first()[i],
        ) by {
            assert(distinct_keys(whole->Array_0[i + 1]));
        }
        let after = match actions_of(first) {
            Some(actions) => {
                lemma_field_keys(first, "data"@);
                let data = field(first, "data"@)->0;
                lemma_field_keys(data, "actions"@);
                lemma_restamp_actions_keys(actions, times, next);
                let (restamped_actions, after) = restamp_actions(actions, times, next);
                let inner = JsonTree::Array(restamped_actions);
                lemma_with_field_keys(data, "actions"@, inner);
                lemma_with_field_keys(first, "data"@, with_field(data, "actions"@, inner));
                after
            },
            None => next,
        };
        lemma_restamp_assertions_keys(assertions.drop_first(), times, after);
        let rest = JsonTree::Array(restamp_assertions(assertions.drop_first(), times, after).0);
        assert forall|i: int| 0 <= i < stamped.len() implies distinct_keys(
            #[trigger] stamped[i],
        ) by {
            if i > 0 {
                assert(distinct_keys(rest->Array_0[i - 1]));
            }
        }
    }
}

/// New times leave the keys of a manifest distinct.
pub proof fn lemma_restamped_keys(manifest: JsonTree, times: Seq<Seq<char>>)
    requires
        distinct_keys(manifest),
    ensures
        distinct_keys(restamped(manifest, times)),
{
    if let Some(assertions) = assertions_of(manifest) {
        lemma_field_keys(manifest, "assertions"@);
        lemma_restamp_assertions_keys(assertions, times, 0);
        lemma_with_field_keys(
            manifest,
            "assertions"@,
            JsonTree::Array(restamp_assertions(assertions, times, 0).0),
        );
    }
}

proof fn lemma_restamp_actions_nest(
    actions: Seq<JsonTree>,
    times: Seq<Seq<char>>,
    next: nat,
    levels: nat,
)
    requires
        forall|i: int| 0 <= i < actions.len() ==> nests_within(#[trigger] actions[i], levels),
    ensures
        ({
            let stamped = restamp_actions(actions, times, next).0;
            forall|i: int| 0 <= i < stamped.len() ==> nests_within(#[trigger] stamped[i], levels)
        }),
    decreases actions.len(),
{
    if actions.len() > 0 {
        let stamped = restamp_actions(actions, times, next).0;
        let rest = actions.drop_first();
        assert(nests_within(actions[0], levels));
        assert forall|i: int| 0 <= i < rest.len() implies nests_within(
            #[trigger] rest[i],
            levels,
        ) by {
            assert(rest[i] == actions[i + 1]);
        }
        let timed = has_creation_time(actions[0]) && next < times.len();
        let after = if timed {
            next + 1
        } else {
            next
        };
        if timed {
            lemma_with_field_nests(
                actions[0],
                "when"@,
                JsonTree::String(times[next as int]),
                levels,
            );
        }
        lemma_restamp_actions_nest(rest, times, after, levels);
        let others = restamp_actions(rest, times, after).0;
        assert forall|i: int| 0 <= i < stamped.len() implies nests_within(
            #[trigger] stamped[i],
            levels,
        ) by {
            if i > 0 {
                assert(stamped[i] == others[i - 1]);
            }
        }
    }
}

proof fn lemma_restamp_assertions_nest(
    assertions: Seq<JsonTree>,
    times: Seq<Seq<char>>,
    next: nat,
    levels: nat,
)
    requires
        forall|i: int| 0 <= i < assertions.len() ==> nests_within(#[trigger] assertions[i], levels),
    ensures
        ({
            let stamped = restamp_assertions(assertions, times, next).0;
            forall|i: int| 0 <= i < stamped.len() ==> nests_within(#[trigger] stamped[i], levels)
        }),
    decreases assertions.len(),
{
    if assertions.len() > 0 {
        let stamped = restamp_assertions(assertions, times, next).0;
        let rest = assertions.drop_first();
        let first = assertions[0];
        assert(nests_within(first, levels));
        assert forall|i: int| 0 <= i < rest.len() implies nests_within(
            #[trigger] rest[i],
            levels,
        ) by {
            assert(rest[i] == assertions[i + 1]);
        }
        let after = match actions_of(first) {
            Some(actions) => {
                let data = field(first, "data"@)->0;
                lemma_field_nests(first, "data"@, levels);
                lemma_field_nests(data, "actions"@, (levels - 1) as nat);
                let list = field(data, "actions"@)->0;
                assert(nests_within(list, (levels - 2) as nat));
                lemma_restamp_actions_nest(actions, times, next, (levels - 3) as nat);
                let (restamped_actions, after) = restamp_actions(actions, times, next);
                let inner = JsonTree::Array(restamped_actions);
                lemma_with_field_nests(data, "actions"@, inner, (levels - 1) as nat);
                lemma_with_field_nests(
                    first,
                    "data"@,
                    with_field(data, "actions"@, inner),
                    levels,
                );
                after
            },
            None => next,
        };
        lemma_restamp_assertions_nest(rest, times, after, levels);
        let others = restamp_assertions(rest, times, after).0;
        assert forall|i: int| 0 <= i < stamped.len() implies nests_within(
            #[trigger] stamped[i],
            levels,
        ) by {
            if i > 0 {
                assert(stamped[i] == others[i - 1]);
            }
        }
    }
}

/// New times let a manifest nest no deeper.
pub proof fn lemma_restamped_nests(manifest: JsonTree, times: Seq<Seq<char>>, levels: nat)
    requires
        nests_within(manifest, levels),
    ensures
        nests_within(restamped(manifest, times), levels),
{
    if let Some(assertions) = assertions_of(manifest) {
        lemma_field_nests(manifest, "assertions"@, levels);
        let list = field(manifest, "assertions"@)->0;
        assert(nests_within(list, (levels - 1) as nat));
        lemma_restamp_assertions_nest(assertions, times, 0, (levels - 2) as nat);
        lemma_with_field_nests(
            manifest,
            "assertions"@,
            JsonTree::Array(restamp_assertions(assertions, times, 0).0),
            levels,
        );
    }
}

} // verus!
