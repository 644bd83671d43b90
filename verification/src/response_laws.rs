//! What holds of bodies and events as a whole, in terms of what is received, the signer and what is
//! sent.

use vstd::prelude::*;
use vstd::utf8::{decode_utf8, encode_utf8, valid_utf8};

use crate::body::{body_outcome, body_reads_back, body_step_is, sent_value, BodyStep, Outcome};
use crate::encoding::{json_of_bytes, json_of_text, json_text};
use crate::framing::event_outcomes;
use crate::image::ImageView;
use crate::json::{is_read_back, JsonTree};
use crate::replay::{body_outcomes, is_transcript, law_walk_gives_the_signed_value};
use crate::replay::{lemma_transcript_of_walk, signing_part};
use crate::reply::{any_failed, signed_parts, ReplyView};
use crate::signer::{signed_count, signed_tree};
use crate::sse::{event_outcome, event_step_is, joined, likely_has_image, line_value, line_values};
use crate::sse::{with_values, EventStep};
use crate::text::{has_run, lines_of, trimmed};
use crate::text_laws::{law_after_prefix, law_prefix_was_there, law_run_occurs};
use crate::text_laws::law_run_stands_somewhere;
use crate::walk::{fresh, stamp_tree};
use crate::walk_laws::{carries, holds, law_requested_image_is_in_the_value, offers_no_image};
use crate::walk_laws::law_silent_walk_meets_no_image;

verus! {

/// The signed images of some answers stand in their places.
pub proof fn law_signed_parts(replies: Seq<ReplyView>)
    ensures
        signed_parts(replies).len() == replies.len(),
        forall|i: int|
            0 <= i < replies.len() ==> match #[trigger] replies[i] {
                ReplyView::Signed(signed) => signed_parts(replies)[i] == Some(signed),
                ReplyView::NoChange => signed_parts(replies)[i] is None,
                ReplyView::Failed => signed_parts(replies)[i] is None,
            },
{
}

/// There is a failure among some answers exactly if one of them is a failure.
pub proof fn law_failures(replies: Seq<ReplyView>, reply: ReplyView)
    ensures
        any_failed(replies.push(reply)) == (any_failed(replies) || reply == ReplyView::Failed),
        !any_failed(Seq::empty()),
{
    crate::reply::lemma_one_more(replies, reply);
}

/// A body that is JSON asks for what the walk through its whole value asks for, and when that walk
/// is over, the body is sent with the walked value if an image was replaced, and as it was
/// otherwise. It is so for every value.
pub proof fn law_body_goes_with_its_value(
    body: Seq<u8>,
    tree: JsonTree,
    replies: Seq<ReplyView>,
)
    requires
        json_of_bytes(body) == Some(tree),
        forall|i: int| 0 <= i < replies.len() ==> (#[trigger] replies[i]) != ReplyView::Failed,
    ensures
        ({
            let (walked, tally) = stamp_tree(tree, signed_parts(replies), fresh());
            match tally.asks {
                Some(image) => body_outcome(body, replies) == Outcome::Asks(image),
                None => body_outcome(body, replies) == Outcome::Sends(
                    if tally.stamped > 0 {
                        encode_utf8(json_text(walked))
                    } else {
                        body
                    },
                ),
            }
        }),
        sent_value(tree, replies) == stamp_tree(tree, signed_parts(replies), fresh()).0,
{
}

/// A body that is not JSON is sent as it was.
pub proof fn law_other_body_is_sent_unchanged(body: Seq<u8>, replies: Seq<ReplyView>)
    requires
        json_of_bytes(body) is None,
    ensures
        body_outcome(body, replies) == Outcome::Sends(body),
{
}

/// The steps of a body, with the answers of a signer. If no image could not be signed, the body
/// that is ready is the JSON text of its value with its images signed, and is read back to that; if
/// the signer signs nothing in it, or an image could not be signed, it is the body that was
/// received. A body that is ready at once holds out no image anywhere. A body that asks, asks for
/// an image in its value.
pub proof fn law_steps_of_a_body(
    step: BodyStep,
    body: Seq<u8>,
    replies: Seq<ReplyView>,
    inner: JsonTree,
    signer: spec_fn(ImageView) -> ReplyView,
)
    requires
        body_step_is(step, body, replies),
        body_reads_back(step, body, replies),
        is_transcript(body_outcomes(body), replies, signer),
    ensures
        match (step, json_of_bytes(body)) {
            (BodyStep::Sign(walk), Some(tree)) => {
                &&& walk.body() == body
                &&& walk.replies() == replies
                &&& forall|i: int|
                    0 <= i < replies.len() ==> (#[trigger] replies[i]) != ReplyView::Failed
                &&& carries(
                    stamp_tree(tree, signed_parts(replies), fresh()).0,
                    walk.request(),
                )
                &&& stamp_tree(tree, signed_parts(replies), fresh()).1.asks == Some(walk.request())
            },
            (BodyStep::Sign(_), None) => false,
            (BodyStep::Done { bytes, error }, None) => {
                &&& bytes@ == body
                &&& error is Some
            },
            (BodyStep::Done { bytes, error }, Some(tree)) => {
                let signs = signing_part(signer);
                if exists|i: int| 0 <= i < replies.len() && replies[i] == ReplyView::Failed {
                    &&& bytes@ == body
                    &&& error is Some
                } else {
                    &&& error is None
                    &&& signed_count(tree, signs) == 0 ==> bytes@ == body
                    &&& signed_count(tree, signs) > 0 ==> bytes@ == encode_utf8(
                        json_text(signed_tree(tree, signs)),
                    )
                    &&& is_read_back(json_of_bytes(bytes@), signed_tree(tree, signs))
                    &&& replies.len() == 0 && holds(tree, inner) ==> offers_no_image(inner, signs)
                }
            },
        },
{
    if let Some(tree) = json_of_bytes(body) {
        let parts = signed_parts(replies);
        let signs = signing_part(signer);
        if any_failed(replies) {
            let i = choose|i: int| 0 <= i < replies.len() && (#[trigger] replies[i]) is Failed;
            assert(replies[i] == ReplyView::Failed);
        } else {
            assert forall|i: int| 0 <= i < replies.len() implies (#[trigger] replies[i])
                != ReplyView::Failed by {
                if replies[i] == ReplyView::Failed {
                    assert(replies[i] is Failed);
                }
            }
            lemma_transcript_of_walk(body_outcomes(body), tree, replies, signer);
            match step {
                BodyStep::Sign(_) => law_requested_image_is_in_the_value(tree, parts),
                BodyStep::Done { .. } => {
                    law_walk_gives_the_signed_value(tree, parts, signs);
                    if replies.len() == 0 && holds(tree, inner) {
                        assert(parts =~= Seq::empty());
                        law_silent_walk_meets_no_image(tree, inner, signs);
                    }
                },
            }
        }
    }
}

/// A line that starts with `data: ` has the value that the JSON after it denotes, unless that is
/// the `[DONE]` that ends a stream.
pub proof fn law_data_line(json: Seq<char>)
    ensures
        trimmed(json) != "[DONE]"@ ==> line_value("data: "@ + json) == json_of_text(json),
        trimmed(json) == "[DONE]"@ ==> line_value("data: "@ + json) is None,
{
    law_after_prefix("data: "@, json);
}

/// A line with a value starts with `data: `.
pub proof fn law_only_data_lines_have_values(line: Seq<char>)
    ensures
        line_value(line) is Some ==> exists|json: Seq<char>| line == #[trigger] ("data: "@ + json),
{
    law_prefix_was_there(line, "data: "@);
    if let Some(json) = crate::text::after_prefix(line, "data: "@) {
        assert(line == "data: "@ + json);
    }
}

/// The values of some lines are those of the first and those of the rest, in that order.
pub proof fn law_line_values(line: Seq<char>, rest: Seq<Seq<char>>)
    ensures
        line_values(seq![line] + rest) == match line_value(line) {
            Some(value) => seq![value] + line_values(rest),
            None => line_values(rest),
        },
        line_values(Seq::empty()) == Seq::<JsonTree>::empty(),
{
    assert((seq![line] + rest).drop_first() =~= rest);
}

/// The first value is written on the first line that has a value, after `data: `.
pub proof fn law_value_is_written_on_its_line(
    line: Seq<char>,
    rest: Seq<Seq<char>>,
    value: JsonTree,
    values: Seq<JsonTree>,
)
    ensures
        line_value(line) is Some ==> with_values(seq![line] + rest, seq![value] + values) == seq![
            "data: "@ + json_text(value),
        ] + with_values(rest, values),
        line_value(line) is None ==> with_values(seq![line] + rest, values) == seq![line]
            + with_values(rest, values),
{
    assert((seq![line] + rest).drop_first() =~= rest);
    assert((seq![value] + values).drop_first() =~= values);
}

/// Each line of a text that is put together is ended by a line feed.
pub proof fn law_joined_lines(line: Seq<char>, rest: Seq<Seq<char>>)
    ensures
        joined(seq![line] + rest) == line + seq!['\n'] + joined(rest),
        joined(Seq::empty()) == Seq::<char>::empty(),
{
    assert((seq![line] + rest).drop_first() =~= rest);
}

/// An event that is text asks for what the walk through the values on all of its lines asks for,
/// and when that walk is over, the event is sent with the walked values if an image was replaced,
/// and as it was otherwise.
pub proof fn law_event_goes_with_its_values(chunk: Seq<u8>, replies: Seq<ReplyView>)
    requires
        valid_utf8(chunk),
        forall|i: int| 0 <= i < replies.len() ==> (#[trigger] replies[i]) != ReplyView::Failed,
    ensures
        ({
            let lines = lines_of(decode_utf8(chunk));
            let (walked, tally) = stamp_tree(
                JsonTree::Array(line_values(lines)),
                signed_parts(replies),
                fresh(),
            );
            match tally.asks {
                Some(image) => event_outcome(chunk, replies) == Outcome::Asks(image),
                None => event_outcome(chunk, replies) == Outcome::Sends(
                    if tally.stamped > 0 {
                        encode_utf8(joined(with_values(lines, walked->Array_0)))
                    } else {
                        chunk
                    },
                ),
            }
        }),
{
}

/// The steps of an event, with the answers of a signer. If no image could not be signed, the event
/// that is ready has its values with their images signed on its lines; if the signer signs nothing
/// in it, or an image could not be signed, or it is not text, it is the event that was received. An
/// event that is ready at once holds out no image anywhere. An event that asks, asks for an image
/// in its values.
pub proof fn law_steps_of_an_event(
    step: EventStep,
    chunk: Seq<u8>,
    replies: Seq<ReplyView>,
    inner: JsonTree,
    signer: spec_fn(ImageView) -> ReplyView,
)
    requires
        event_step_is(step, chunk, replies),
        is_transcript(event_outcomes(chunk), replies, signer),
    ensures
        ({
            let lines = lines_of(decode_utf8(chunk));
            let tree = JsonTree::Array(line_values(lines));
            let signs = signing_part(signer);
            match step {
                EventStep::Sign(walk) => {
                    &&& valid_utf8(chunk)
                    &&& walk.chunk() == chunk
                    &&& walk.replies() == replies
                    &&& forall|i: int|
                        0 <= i < replies.len() ==> (#[trigger] replies[i]) != ReplyView::Failed
                    &&& carries(
                        stamp_tree(tree, signed_parts(replies), fresh()).0,
                        walk.request(),
                    )
                    &&& stamp_tree(tree, signed_parts(replies), fresh()).1.asks == Some(
                        walk.request(),
                    )
                },
                EventStep::Done(bytes) => if !valid_utf8(chunk) || exists|i: int|
                    0 <= i < replies.len() && replies[i] == ReplyView::Failed {
                    bytes@ == chunk
                } else {
                    &&& signed_count(tree, signs) == 0 ==> bytes@ == chunk
                    &&& signed_count(tree, signs) > 0 ==> bytes@ == encode_utf8(
                        joined(with_values(lines, signed_tree(tree, signs)->Array_0)),
                    )
                    &&& replies.len() == 0 && holds(tree, inner) ==> offers_no_image(inner, signs)
                },
            }
        }),
{
    let tree = JsonTree::Array(line_values(lines_of(decode_utf8(chunk))));
    let parts = signed_parts(replies);
    let signs = signing_part(signer);
    if any_failed(replies) {
        let i = choose|i: int| 0 <= i < replies.len() && (#[trigger] replies[i]) is Failed;
        assert(replies[i] == ReplyView::Failed);
    } else {
        assert forall|i: int| 0 <= i < replies.len() implies (#[trigger] replies[i])
            != ReplyView::Failed by {
            if replies[i] == ReplyView::Failed {
                assert(replies[i] is Failed);
            }
        }
        if valid_utf8(chunk) {
            lemma_transcript_of_walk(event_outcomes(chunk), tree, replies, signer);
            match step {
                EventStep::Sign(_) => law_requested_image_is_in_the_value(tree, parts),
                EventStep::Done(_) => {
                    law_walk_gives_the_signed_value(tree, parts, signs);
                    if replies.len() == 0 && holds(tree, inner) {
                        assert(parts =~= Seq::empty());
                        law_silent_walk_meets_no_image(tree, inner, signs);
                    }
                },
            }
        }
    }
}

/// A chunk in which one of the four marks stands is worth a closer look, whatever its other bytes
/// are.
pub proof fn law_marked_chunk(before: Seq<u8>, after: Seq<u8>)
    ensures
        likely_has_image(before + encode_utf8("image_file"@) + after),
        likely_has_image(before + encode_utf8("image_url"@) + after),
        likely_has_image(before + encode_utf8("b64_json"@) + after),
        likely_has_image(before + encode_utf8("data:image"@) + after),
{
    law_run_occurs(before, encode_utf8("image_file"@), after);
    law_run_occurs(before, encode_utf8("image_url"@), after);
    law_run_occurs(before, encode_utf8("b64_json"@), after);
    law_run_occurs(before, encode_utf8("data:image"@), after);
}

/// A chunk that is worth a closer look has one of the four marks in it.
pub proof fn law_chunk_was_marked(chunk: Seq<u8>)
    requires
        likely_has_image(chunk),
    ensures
        exists|before: Seq<u8>, mark: Seq<u8>, after: Seq<u8>|
            chunk == #[trigger] (before + mark + after) && (mark == encode_utf8("image_file"@)
                || mark == encode_utf8("image_url"@) || mark == encode_utf8("b64_json"@) || mark
                == encode_utf8("data:image"@)),
{
    let mark = if has_run(chunk, encode_utf8("image_file"@)) {
        encode_utf8("image_file"@)
    } else if has_run(chunk, encode_utf8("image_url"@)) {
        encode_utf8("image_url"@)
    } else if has_run(chunk, encode_utf8("b64_json"@)) {
        encode_utf8("b64_json"@)
    } else {
        encode_utf8("data:image"@)
    };
    law_run_stands_somewhere(chunk, mark);
    let (before, after) = choose|before: Seq<u8>, after: Seq<u8>|
        chunk == #[trigger] (before + mark + after);
    assert(chunk == before + mark + after);
}

} // verus!
