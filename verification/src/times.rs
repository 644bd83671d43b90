//! What holds of the times of creation in a manifest.

use vstd::prelude::*;

use crate::json::{field, lemma_same_field, lemma_with_field, lemma_with_field_twice, with_field};
use crate::json::JsonTree;
use crate::manifest::{actions_of, assertions_of, creation_times, has_creation_time, restamped};
use crate::manifest::{restamp_actions, restamp_assertions, times_in_actions, times_in_assertions};
use crate::manifest::with_actions;

verus! {

/// The times of creation that some actions have.
pub open spec fn times_of_actions(actions: Seq<JsonTree>) -> Seq<JsonTree>
    decreases actions.len(),
{
    if actions.len() == 0 {
        Seq::empty()
    } else if has_creation_time(actions[0]) {
        seq![field(actions[0], "when"@)->0] + times_of_actions(actions.drop_first())
    } else {
        times_of_actions(actions.drop_first())
    }
}

/// The times of creation that some assertions have.
pub open spec fn times_of_assertions(assertions: Seq<JsonTree>) -> Seq<JsonTree>
    decreases assertions.len(),
{
    if assertions.len() == 0 {
        Seq::empty()
    } else {
        let rest = times_of_assertions(assertions.drop_first());
        match actions_of(assertions[0]) {
            Some(actions) => times_of_actions(actions) + rest,
            None => rest,
        }
    }
}

/// The times of creation that a manifest has.
pub open spec fn times_of(manifest: JsonTree) -> Seq<JsonTree> {
    match assertions_of(manifest) {
        Some(assertions) => times_of_assertions(assertions),
        None => Seq::empty(),
    }
}

/// Times as the string values that they are in a manifest.
pub open spec fn time_values(times: Seq<Seq<char>>) -> Seq<JsonTree> {
    times.map_values(|time: Seq<char>| JsonTree::String(time))
}

proof fn lemma_keys()
    ensures
        "action"@ != "when"@,
        "label"@ != "data"@,
{
    reveal_strlit("action");
    reveal_strlit("when");
    reveal_strlit("label");
    reveal_strlit("data");
    assert("action"@.len() == 6 && "when"@.len() == 4);
    assert("label"@.len() == 5 && "data"@.len() == 4);
}

/// An action with a new time of creation has that time of creation.
proof fn lemma_timed_action(action: JsonTree, time: JsonTree)
    requires
        has_creation_time(action),
    ensures
        has_creation_time(with_field(action, "when"@, time)),
        field(with_field(action, "when"@, time), "when"@) == Some(time),
{
    lemma_keys();
    lemma_with_field(action, "when"@, time, "when"@);
    lemma_with_field(action, "when"@, time, "action"@);
}

/// An assertion with other actions has those actions.
proof fn lemma_actions_put(assertion: JsonTree, actions: Seq<JsonTree>)
    requires
        actions_of(assertion) is Some,
    ensures
        actions_of(with_actions(assertion, actions)) == Some(actions),
{
    let data = field(assertion, "data"@)->0;
    let inner = with_field(data, "actions"@, JsonTree::Array(actions));
    lemma_keys();
    lemma_with_field(data, "actions"@, JsonTree::Array(actions), "actions"@);
    lemma_with_field(assertion, "data"@, inner, "data"@);
    lemma_with_field(assertion, "data"@, inner, "label"@);
}

/// The times that are put into actions are their times of creation.
pub proof fn lemma_actions_read_back(actions: Seq<JsonTree>, times: Seq<Seq<char>>, next: nat)
    requires
        next + times_in_actions(actions) <= times.len(),
    ensures
        ({
            let (stamped, end) = restamp_actions(actions, times, next);
            &&& end == next + times_in_actions(actions)
            &&& times_of_actions(stamped) == time_values(times).subrange(next as int, end as int)
        }),
    decreases actions.len(),
{
    if actions.len() > 0 {
        let rest = actions.drop_first();
        let (stamped, end) = restamp_actions(actions, times, next);
        if has_creation_time(actions[0]) {
            lemma_timed_action(actions[0], JsonTree::String(times[next as int]));
            lemma_actions_read_back(rest, times, next + 1);
            assert(stamped.drop_first() =~= restamp_actions(rest, times, next + 1).0);
        } else {
            lemma_actions_read_back(rest, times, next);
            assert(stamped.drop_first() =~= restamp_actions(rest, times, next).0);
        }
        assert(times_of_actions(stamped) =~= time_values(times).subrange(
            next as int,
            end as int,
        ));
    }
}

proof fn lemma_assertions_read_back(assertions: Seq<JsonTree>, times: Seq<Seq<char>>, next: nat)
    requires
        next + times_in_assertions(assertions) <= times.len(),
    ensures
        ({
            let (stamped, end) = restamp_assertions(assertions, times, next);
            &&& end == next + times_in_assertions(assertions)
            &&& times_of_assertions(stamped) == time_values(times).subrange(next as int, end as int)
        }),
    decreases assertions.len(),
{
    if assertions.len() > 0 {
        let rest = assertions.drop_first();
        let (stamped, end) = restamp_assertions(assertions, times, next);
        let after = match actions_of(assertions[0]) {
            Some(actions) => {
                lemma_actions_read_back(actions, times, next);
                let (restamped_actions, after) = restamp_actions(actions, times, next);
                lemma_actions_put(assertions[0], restamped_actions);
                after
            },
            None => next,
        };
        lemma_assertions_read_back(rest, times, after);
        assert(stamped.drop_first() =~= restamp_assertions(rest, times, after).0);
        assert(times_of_assertions(stamped) =~= time_values(times).subrange(
            next as int,
            end as int,
        ));
    }
}

/// The times that are put into a manifest are its times of creation.
pub proof fn law_times_are_read_back(manifest: JsonTree, times: Seq<Seq<char>>)
    requires
        times.len() == creation_times(manifest),
    ensures
        times_of(restamped(manifest, times)) == time_values(times),
{
    if let Some(assertions) = assertions_of(manifest) {
        lemma_assertions_read_back(assertions, times, 0);
        let stamped = restamp_assertions(assertions, times, 0).0;
        lemma_with_field(manifest, "assertions"@, JsonTree::Array(stamped), "assertions"@);
        assert(time_values(times).subrange(0, times.len() as int) =~= time_values(times));
    } else {
        assert(time_values(times) =~= Seq::empty());
    }
}

proof fn lemma_actions_twice(
    actions: Seq<JsonTree>,
    first: Seq<Seq<char>>,
    at: nat,
    times: Seq<Seq<char>>,
    next: nat,
)
    requires
        next + times_in_actions(actions) <= times.len(),
    ensures
        restamp_actions(restamp_actions(actions, first, at).0, times, next) == restamp_actions(
            actions,
            times,
            next,
        ),
        times_in_actions(restamp_actions(actions, first, at).0) == times_in_actions(actions),
    decreases actions.len(),
{
    if actions.len() > 0 {
        let rest = actions.drop_first();
        let once = restamp_actions(actions, first, at).0;
        let timed = has_creation_time(actions[0]);
        let after = if timed && at < first.len() {
            at + 1
        } else {
            at
        };
        let then = if timed {
            next + 1
        } else {
            next
        };
        assert(once.drop_first() =~= restamp_actions(rest, first, after).0);
        lemma_actions_twice(rest, first, after, times, then);
        if timed && at < first.len() {
            let time = JsonTree::String(first[at as int]);
            lemma_timed_action(actions[0], time);
            lemma_with_field_twice(
                actions[0],
                "when"@,
                time,
                JsonTree::String(times[next as int]),
            );
        }
    }
}

/// The last of two lists of actions stays.
proof fn lemma_with_actions_twice(assertion: JsonTree, a: Seq<JsonTree>, b: Seq<JsonTree>)
    requires
        actions_of(assertion) is Some,
    ensures
        with_actions(with_actions(assertion, a), b) == with_actions(assertion, b),
{
    let data = field(assertion, "data"@)->0;
    let one = with_field(data, "actions"@, JsonTree::Array(a));
    let two = with_field(data, "actions"@, JsonTree::Array(b));
    lemma_with_field(assertion, "data"@, one, "data"@);
    lemma_with_field_twice(data, "actions"@, JsonTree::Array(a), JsonTree::Array(b));
    lemma_with_field_twice(assertion, "data"@, one, two);
}

proof fn lemma_assertions_twice(
    assertions: Seq<JsonTree>,
    first: Seq<Seq<char>>,
    at: nat,
    times: Seq<Seq<char>>,
    next: nat,
)
    requires
        next + times_in_assertions(assertions) <= times.len(),
    ensures
        restamp_assertions(restamp_assertions(assertions, first, at).0, times, next)
            == restamp_assertions(assertions, times, next),
    decreases assertions.len(),
{
    if assertions.len() > 0 {
        let rest = assertions.drop_first();
        let once = restamp_assertions(assertions, first, at).0;
        let (after, then) = match actions_of(assertions[0]) {
            Some(actions) => {
                let (one, after) = restamp_actions(actions, first, at);
                let (two, then) = restamp_actions(actions, times, next);
                lemma_actions_put(assertions[0], one);
                lemma_actions_twice(actions, first, at, times, next);
                lemma_with_actions_twice(assertions[0], one, two);
                lemma_actions_read_back(actions, times, next);
                (after, then)
            },
            None => (at, next),
        };
        assert(once.drop_first() =~= restamp_assertions(rest, first, after).0);
        lemma_assertions_twice(rest, first, after, times, then);
    }
}

/// Of times that are put into a manifest one after the other, the last stay. So the manifests that
/// one template gives differ in their times of creation alone.
pub proof fn law_last_times_stay(
    manifest: JsonTree,
    first: Seq<Seq<char>>,
    times: Seq<Seq<char>>,
)
    requires
        times.len() == creation_times(manifest),
    ensures
        restamped(restamped(manifest, first), times) == restamped(manifest, times),
{
    if let Some(assertions) = assertions_of(manifest) {
        let once = JsonTree::Array(restamp_assertions(assertions, first, 0).0);
        let twice = JsonTree::Array(restamp_assertions(assertions, times, 0).0);
        lemma_with_field(manifest, "assertions"@, once, "assertions"@);
        lemma_assertions_twice(assertions, first, 0, times, 0);
        lemma_with_field_twice(manifest, "assertions"@, once, twice);
    }
}

proof fn lemma_actions_same(actions: Seq<JsonTree>, times: Seq<Seq<char>>, next: nat)
    requires
        next + times_in_actions(actions) <= times.len(),
        times_of_actions(actions) == time_values(times).subrange(
            next as int,
            (next + times_in_actions(actions)) as int,
        ),
    ensures
        restamp_actions(actions, times, next).0 == actions,
    decreases actions.len(),
{
    if actions.len() > 0 {
        let rest = actions.drop_first();
        if has_creation_time(actions[0]) {
            let found = times_of_actions(actions);
            assert(found[0] == time_values(times)[next as int]);
            lemma_same_field(actions[0], "when"@);
            assert(times_of_actions(rest) =~= found.drop_first());
            assert(found.drop_first() =~= time_values(times).subrange(
                (next + 1) as int,
                (next + 1 + times_in_actions(rest)) as int,
            ));
            lemma_actions_same(rest, times, next + 1);
        } else {
            lemma_actions_same(rest, times, next);
        }
        assert(seq![actions[0]] + rest =~= actions);
    }
}

proof fn lemma_times_len(actions: Seq<JsonTree>)
    ensures
        times_of_actions(actions).len() == times_in_actions(actions),
    decreases actions.len(),
{
    if actions.len() > 0 {
        lemma_times_len(actions.drop_first());
    }
}

proof fn lemma_assertions_same(assertions: Seq<JsonTree>, times: Seq<Seq<char>>, next: nat)
    requires
        next + times_in_assertions(assertions) <= times.len(),
        times_of_assertions(assertions) == time_values(times).subrange(
            next as int,
            (next + times_in_assertions(assertions)) as int,
        ),
    ensures
        restamp_assertions(assertions, times, next).0 == assertions,
    decreases assertions.len(),
{
    if assertions.len() > 0 {
        let rest = assertions.drop_first();
        let found = times_of_assertions(assertions);
        let count = match actions_of(assertions[0]) {
            Some(actions) => {
                lemma_times_len(actions);
                let count = times_in_actions(actions);
                assert(times_of_actions(actions) =~= found.take(count as int));
                assert(found.take(count as int) =~= time_values(times).subrange(
                    next as int,
                    (next + count) as int,
                ));
                lemma_actions_same(actions, times, next);
                lemma_actions_read_back(actions, times, next);
                let data = field(assertions[0], "data"@)->0;
                lemma_same_field(data, "actions"@);
                lemma_same_field(assertions[0], "data"@);
                count
            },
            None => 0,
        };
        assert(times_of_assertions(rest) =~= found.skip(count as int));
        assert(found.skip(count as int) =~= time_values(times).subrange(
            (next + count) as int,
            (next + count + times_in_assertions(rest)) as int,
        ));
        lemma_assertions_same(rest, times, next + count);
        assert(seq![assertions[0]] + rest =~= assertions);
    }
}

/// The times of creation that a manifest has change nothing when they are put into it.
pub proof fn law_same_times_change_nothing(manifest: JsonTree, times: Seq<Seq<char>>)
    requires
        times.len() == creation_times(manifest),
        times_of(manifest) == time_values(times),
    ensures
        restamped(manifest, times) == manifest,
{
    if let Some(assertions) = assertions_of(manifest) {
        assert(time_values(times).subrange(0, times.len() as int) =~= time_values(times));
        lemma_assertions_same(assertions, times, 0);
        lemma_same_field(manifest, "assertions"@);
    }
}

} // verus!
