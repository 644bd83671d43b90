//! What holds of a manifest when times are put into it, in terms of the places where they stand.

use vstd::prelude::*;

use crate::encoding::{json_of_text, json_text};
use crate::json::{field, is_read_back, lemma_with_field, same_but_fractions, with_field};
use crate::json::JsonTree;
use crate::manifest::{actions_of, are_clock_readings, are_utc_times, assertions_of};
use crate::manifest::{ creation_times, has_creation_time};
use crate::manifest::{restamp_actions, restamp_assertions, restamped, times_in_actions};
use crate::manifest::{is_clock_reading, is_utc_time, times_in_assertions, with_actions};
use crate::signer::lemma_same_member;
use crate::signing::is_current_manifest;
use crate::times::lemma_actions_read_back;

verus! {

/// The items of a value, if it is an array.
pub open spec fn items_of(value: Option<JsonTree>) -> Option<Seq<JsonTree>> {
    match value {
        Some(JsonTree::Array(items)) => Some(items),
        _ => None,
    }
}

/// The member `key` of a value, if there is the value and the member.
pub open spec fn member_of(value: Option<JsonTree>, key: Seq<char>) -> Option<JsonTree> {
    match value {
        Some(tree) => field(tree, key),
        None => None,
    }
}

/// An item of a value, if the value is an array that has it.
pub open spec fn item_of(value: Option<JsonTree>, i: int) -> Option<JsonTree> {
    match items_of(value) {
        Some(items) => if 0 <= i < items.len() {
            Some(items[i])
        } else {
            None
        },
        None => None,
    }
}

/// The value at `assertions[i]` of a manifest.
pub open spec fn assertion_at(manifest: JsonTree, i: int) -> Option<JsonTree> {
    item_of(member_of(Some(manifest), "assertions"@), i)
}

/// The value at `assertions[i].data.actions[j]` of a manifest.
pub open spec fn action_at(manifest: JsonTree, i: int, j: int) -> Option<JsonTree> {
    item_of(member_of(member_of(assertion_at(manifest, i), "data"@), "actions"@), j)
}

/// The value at `assertions[i].data.actions[j].when` of a manifest is a time of creation: the label
/// at `assertions[i].label` is `c2pa.actions`, and the action at
/// `assertions[i].data.actions[j].action` is `c2pa.created`.
pub open spec fn is_time_of_creation(manifest: JsonTree, i: int, j: int) -> bool {
    &&& member_of(assertion_at(manifest, i), "label"@) == Some(JsonTree::String("c2pa.actions"@))
    &&& member_of(action_at(manifest, i, j), "action"@) == Some(JsonTree::String("c2pa.created"@))
    &&& member_of(action_at(manifest, i, j), "when"@) is Some
}

proof fn lemma_action_restamped(
    actions: Seq<JsonTree>,
    times: Seq<Seq<char>>,
    next: nat,
    j: int,
) -> (n: nat)
    requires
        0 <= j < actions.len(),
    ensures
        restamp_actions(actions, times, next).0.len() == actions.len(),
        restamp_actions(actions, times, next).0[j] == if has_creation_time(actions[j]) && n
            < times.len() {
            with_field(actions[j], "when"@, JsonTree::String(times[n as int]))
        } else {
            actions[j]
        },
        has_creation_time(actions[j]) && next + times_in_actions(actions) <= times.len() ==> n
            < times.len(),
    decreases actions.len(),
{
    reveal_with_fuel(restamp_actions, 2);
    let rest = actions.drop_first();
    let after = if has_creation_time(actions[0]) && next < times.len() {
        next + 1
    } else {
        next
    };
    if rest.len() > 0 {
        let other = lemma_action_restamped(
            rest,
            times,
            after,
            if j == 0 {
                0
            } else {
                j - 1
            },
        );
        if j > 0 {
            assert(rest[j - 1] == actions[j]);
            other
        } else {
            next
        }
    } else {
        next
    }
}

proof fn lemma_assertion_restamped(
    assertions: Seq<JsonTree>,
    times: Seq<Seq<char>>,
    next: nat,
    i: int,
) -> (n: nat)
    requires
        0 <= i < assertions.len(),
    ensures
        restamp_assertions(assertions, times, next).0.len() == assertions.len(),
        restamp_assertions(assertions, times, next).0[i] == match actions_of(assertions[i]) {
            Some(actions) => with_actions(assertions[i], restamp_actions(actions, times, n).0),
            None => assertions[i],
        },
        next + times_in_assertions(assertions) <= times.len() ==> (actions_of(
            assertions[i],
        ) matches Some(actions) ==> n + times_in_actions(actions) <= times.len()),
    decreases assertions.len(),
{
    reveal_with_fuel(restamp_assertions, 2);
    let rest = assertions.drop_first();
    let after = match actions_of(assertions[0]) {
        Some(actions) => {
            if next + times_in_assertions(assertions) <= times.len() {
                lemma_actions_read_back(actions, times, next);
            }
            restamp_actions(actions, times, next).1
        },
        None => next,
    };
    if rest.len() > 0 {
        let other = lemma_assertion_restamped(
            rest,
            times,
            after,
            if i == 0 {
                0
            } else {
                i - 1
            },
        );
        if i > 0 {
            assert(rest[i - 1] == assertions[i]);
            other
        } else {
            next
        }
    } else {
        next
    }
}

/// What becomes of the assertion at an index.
proof fn lemma_assertion_at(manifest: JsonTree, times: Seq<Seq<char>>, i: int) -> (n: nat)
    requires
        assertion_at(manifest, i) is Some,
    ensures
        assertion_at(restamped(manifest, times), i) == Some(
            match actions_of(assertion_at(manifest, i)->0) {
                Some(actions) => with_actions(
                    assertion_at(manifest, i)->0,
                    restamp_actions(actions, times, n).0,
                ),
                None => assertion_at(manifest, i)->0,
            },
        ),
        creation_times(manifest) <= times.len() ==> (actions_of(
            assertion_at(manifest, i)->0,
        ) matches Some(actions) ==> n + times_in_actions(actions) <= times.len()),
{
    let assertions = assertions_of(manifest)->0;
    let n = lemma_assertion_restamped(assertions, times, 0, i);
    lemma_with_field(
        manifest,
        "assertions"@,
        JsonTree::Array(restamp_assertions(assertions, times, 0).0),
        "assertions"@,
    );
    n
}

proof fn lemma_keys_differ()
    ensures
        "action"@ != "when"@,
        "label"@ != "data"@,
{
    reveal_strlit("action");
    reveal_strlit("when");
    reveal_strlit("label");
    reveal_strlit("data");
    assert("action"@.len() == 6 && "when"@.len() == 4);
    assert("label"@.len() == 5 && "data"@.len() == 4);
}

/// Each time of creation in a manifest becomes one of the times that are put into it, if there are
/// enough of them; otherwise it may stay. The other members of its action stay.
pub proof fn law_time_of_creation_is_set(
    manifest: JsonTree,
    times: Seq<Seq<char>>,
    i: int,
    j: int,
    key: Seq<char>,
)
    requires
        is_time_of_creation(manifest, i, j),
    ensures
        creation_times(manifest) <= times.len() || action_at(restamped(manifest, times), i, j)
            != action_at(manifest, i, j) ==> exists|k: int|
            0 <= k < times.len() && member_of(
                action_at(restamped(manifest, times), i, j),
                "when"@,
            ) == Some(JsonTree::String(#[trigger] times[k])),
        key != "when"@ ==> member_of(action_at(restamped(manifest, times), i, j), key) == member_of(
            action_at(manifest, i, j),
            key,
        ),
{
    lemma_keys_differ();
    let assertion = assertion_at(manifest, i)->0;
    let data = field(assertion, "data"@)->0;
    let actions = items_of(field(data, "actions"@))->0;
    assert(actions_of(assertion) == Some(actions));
    let n = lemma_assertion_at(manifest, times, i);
    let k = lemma_action_restamped(actions, times, n, j);
    let stamped = restamp_actions(actions, times, n).0;
    let inner = with_field(data, "actions"@, JsonTree::Array(stamped));
    lemma_with_field(assertion, "data"@, inner, "data"@);
    lemma_with_field(data, "actions"@, JsonTree::Array(stamped), "actions"@);
    assert(action_at(restamped(manifest, times), i, j) == Some(stamped[j]));
    let time = JsonTree::String(times[k as int]);
    lemma_with_field(actions[j], "when"@, time, "when"@);
    lemma_with_field(actions[j], "when"@, time, key);
    if k < times.len() {
        assert(member_of(action_at(restamped(manifest, times), i, j), "when"@) == Some(
            JsonTree::String(times[k as int]),
        ));
    }
}

/// Every other action in a manifest stays as it is, and none is added or taken away.
pub proof fn law_other_actions_stay(
    manifest: JsonTree,
    times: Seq<Seq<char>>,
    i: int,
    j: int,
)
    requires
        !is_time_of_creation(manifest, i, j),
    ensures
        action_at(restamped(manifest, times), i, j) == action_at(manifest, i, j),
{
    lemma_keys_differ();
    if assertion_at(manifest, i) is Some {
        let assertion = assertion_at(manifest, i)->0;
        let n = lemma_assertion_at(manifest, times, i);
        if let Some(actions) = actions_of(assertion) {
            let data = field(assertion, "data"@)->0;
            if 0 <= j < actions.len() {
                let k = lemma_action_restamped(actions, times, n, j);
            } else if actions.len() > 0 {
                let k = lemma_action_restamped(actions, times, n, 0);
            }
            let stamped = restamp_actions(actions, times, n).0;
            let inner = with_field(data, "actions"@, JsonTree::Array(stamped));
            lemma_with_field(assertion, "data"@, inner, "data"@);
            lemma_with_field(data, "actions"@, JsonTree::Array(stamped), "actions"@);
        }
    } else {
        lemma_no_assertion_is_added(manifest, times, i);
    }
}

proof fn lemma_no_assertion_is_added(manifest: JsonTree, times: Seq<Seq<char>>, i: int)
    requires
        assertion_at(manifest, i) is None,
    ensures
        assertion_at(restamped(manifest, times), i) is None,
{
    if let Some(assertions) = assertions_of(manifest) {
        if assertions.len() > 0 {
            let n = lemma_assertion_restamped(assertions, times, 0, 0);
        }
        lemma_with_field(
            manifest,
            "assertions"@,
            JsonTree::Array(restamp_assertions(assertions, times, 0).0),
            "assertions"@,
        );
    }
}

/// Nothing in a manifest changes but the actions in its assertions: not its other members, not the
/// other members of an assertion or of its data, and not an assertion with another label.
pub proof fn law_rest_of_manifest_stays(
    manifest: JsonTree,
    times: Seq<Seq<char>>,
    i: int,
    key: Seq<char>,
)
    ensures
        key != "assertions"@ ==> field(restamped(manifest, times), key) == field(manifest, key),
        assertion_at(manifest, i) is None ==> assertion_at(restamped(manifest, times), i) is None,
        key != "data"@ ==> member_of(assertion_at(restamped(manifest, times), i), key) == member_of(
            assertion_at(manifest, i),
            key,
        ),
        key != "actions"@ ==> member_of(
            member_of(assertion_at(restamped(manifest, times), i), "data"@),
            key,
        ) == member_of(member_of(assertion_at(manifest, i), "data"@), key),
        member_of(assertion_at(manifest, i), "label"@) != Some(JsonTree::String("c2pa.actions"@))
            ==> assertion_at(restamped(manifest, times), i) == assertion_at(manifest, i),
{
    if let Some(assertions) = assertions_of(manifest) {
        lemma_with_field(
            manifest,
            "assertions"@,
            JsonTree::Array(restamp_assertions(assertions, times, 0).0),
            key,
        );
    }
    if assertion_at(manifest, i) is Some {
        let assertion = assertion_at(manifest, i)->0;
        let n = lemma_assertion_at(manifest, times, i);
        if let Some(actions) = actions_of(assertion) {
            let data = field(assertion, "data"@)->0;
            let stamped = restamp_actions(actions, times, n).0;
            let inner = with_field(data, "actions"@, JsonTree::Array(stamped));
            lemma_with_field(assertion, "data"@, inner, "data"@);
            lemma_with_field(assertion, "data"@, inner, key);
            lemma_with_field(data, "actions"@, JsonTree::Array(stamped), key);
        }
    } else {
        lemma_no_assertion_is_added(manifest, times, i);
    }
}

/// Both values are there and are the same but for fractions, or neither is there.
pub open spec fn same_if_there(a: Option<JsonTree>, b: Option<JsonTree>) -> bool {
    match (a, b) {
        (Some(x), Some(y)) => same_but_fractions(x, y),
        (None, None) => true,
        _ => false,
    }
}

proof fn lemma_same_action_at(a: JsonTree, b: JsonTree, i: int, j: int)
    requires
        same_but_fractions(a, b),
    ensures
        same_if_there(action_at(a, i, j), action_at(b, i, j)),
{
    lemma_same_member(a, b, "assertions"@);
    if let (Some(x), Some(y)) = (field(a, "assertions"@), field(b, "assertions"@)) {
        lemma_same_item(x, y, i);
    }
    if let (Some(x), Some(y)) = (assertion_at(a, i), assertion_at(b, i)) {
        lemma_same_member(x, y, "data"@);
        if let (Some(x), Some(y)) = (field(x, "data"@), field(y, "data"@)) {
            lemma_same_member(x, y, "actions"@);
            if let (Some(x), Some(y)) = (field(x, "actions"@), field(y, "actions"@)) {
                lemma_same_item(x, y, j);
            }
        }
    }
}

proof fn lemma_same_item(a: JsonTree, b: JsonTree, i: int)
    requires
        same_but_fractions(a, b),
    ensures
        same_if_there(item_of(Some(a), i), item_of(Some(b), i)),
{
    if let JsonTree::Array(items) = a {
        if 0 <= i < items.len() {
            assert(same_but_fractions(items[i], b->Array_0[i]));
        }
    }
}

/// In the text of a manifest that is about to be signed, each time of creation is a reading of the
/// clock, and the other actions, and the other members of the manifest, are those of the template.
pub proof fn law_manifest_has_the_time_of_the_clock(
    json: Seq<char>,
    template: JsonTree,
    i: int,
    j: int,
    key: Seq<char>,
)
    requires
        is_current_manifest(json, template),
    ensures
        json_of_text(json) matches Some(manifest) && {
            &&& is_time_of_creation(template, i, j) ==> (member_of(
                action_at(manifest, i, j),
                "when"@,
            ) matches Some(JsonTree::String(time)) && is_clock_reading(time) && is_utc_time(time))
            &&& !is_time_of_creation(template, i, j) ==> same_if_there(
                action_at(template, i, j),
                action_at(manifest, i, j),
            )
            &&& key != "assertions"@ ==> same_if_there(field(template, key), field(manifest, key))
        },
{
    let times = choose|times: Seq<Seq<char>>|
        {
            &&& times.len() == creation_times(template)
            &&& are_utc_times(times)
            &&& are_clock_readings(times)
            &&& json == json_text(#[trigger] restamped(template, times))
            &&& is_read_back(json_of_text(json), restamped(template, times))
        };
    let stamped = restamped(template, times);
    let manifest = json_of_text(json)->0;
    lemma_same_action_at(stamped, manifest, i, j);
    lemma_same_member(stamped, manifest, key);
    law_rest_of_manifest_stays(template, times, i, key);
    if is_time_of_creation(template, i, j) {
        law_time_of_creation_is_set(template, times, i, j, key);
        let k = choose|k: int|
            0 <= k < times.len() && member_of(action_at(stamped, i, j), "when"@) == Some(
                JsonTree::String(#[trigger] times[k]),
            );
        lemma_same_member(action_at(stamped, i, j)->0, action_at(manifest, i, j)->0, "when"@);
    } else {
        law_other_actions_stay(template, times, i, j);
    }
}

} // verus!
