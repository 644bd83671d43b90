//! What holds of the lines of an event when the values on them are written anew.

use vstd::prelude::*;
use vstd::utf8::decode_utf8;

use crate::body::Outcome;
use crate::encoding::{json_text, no_control_characters};
use crate::image::ImageView;
use crate::json::{is_read_back, same_but_fractions, JsonTree};
use crate::replay::{is_transcript, law_settled_value_is_left_alone, law_signer_decides_the_end};
use crate::replay::{law_walk_gives_the_signed_value, lemma_transcript_of_walk, signing_part};
use crate::reply::{any_failed, signed_parts, ReplyView};
use crate::signer::{law_signed_value_is_settled, lemma_same_is_settled, signed_items, signs_once};
use crate::sse::{endings_do_not_count, event_outcome, event_reads_back, event_value, joined};
use crate::sse::{line_value, line_values, values_read_back, with_values};
use crate::text::{lemma_split_at_first, lines_of, without_cr};

verus! {

/// An event keeps its number of lines, and each line without a value in its place.
pub proof fn law_other_lines_stay(lines: Seq<Seq<char>>, values: Seq<JsonTree>)
    ensures
        with_values(lines, values).len() == lines.len(),
        forall|i: int|
            0 <= i < lines.len() && line_value(#[trigger] lines[i]) is None ==> with_values(
                lines,
                values,
            )[i] == lines[i],
    decreases lines.len(),
{
    if lines.len() > 0 {
        let rest = lines.drop_first();
        let left = if line_value(lines[0]) is Some {
            values.drop_first()
        } else {
            values
        };
        law_other_lines_stay(rest, left);
        assert forall|i: int|
            0 <= i < lines.len() && line_value(#[trigger] lines[i]) is None implies with_values(
            lines,
            values,
        )[i] == lines[i] by {
            if i > 0 {
                assert(rest[i - 1] == lines[i]);
            }
        }
    }
}

/// Lines without the carriage returns that they end with, one of each.
pub open spec fn without_crs(lines: Seq<Seq<char>>) -> Seq<Seq<char>> {
    lines.map_values(|line: Seq<char>| without_cr(line))
}

/// No line has a line feed in it.
pub open spec fn are_lines(lines: Seq<Seq<char>>) -> bool {
    forall|i: int| 0 <= i < lines.len() ==> !(#[trigger] lines[i]).contains('\n')
}

/// The JSON texts of some values have no control character in them.
pub open spec fn are_plain_texts(values: Seq<JsonTree>) -> bool {
    forall|i: int|
        0 <= i < values.len() ==> no_control_characters(json_text(#[trigger] values[i]))
}

proof fn lemma_joined_lines(lines: Seq<Seq<char>>)
    requires
        are_lines(lines),
    ensures
        lines_of(joined(lines)) == without_crs(lines),
    decreases lines.len(),
{
    if lines.len() > 0 {
        let rest = lines.drop_first();
        assert forall|i: int| 0 <= i < rest.len() implies !(#[trigger] rest[i]).contains('\n') by {
            assert(rest[i] == lines[i + 1]);
        }
        lemma_joined_lines(rest);
        lemma_split_at_first(joined(lines), '\n', lines[0], joined(rest));
        assert(seq![without_cr(lines[0])] + without_crs(rest) =~= without_crs(lines));
    } else {
        assert(without_crs(lines) =~= lines_of(joined(lines)));
    }
}

proof fn lemma_lines_are_lines(text: Seq<char>)
    ensures
        are_lines(lines_of(text)),
    decreases text.len(),
{
    if text.len() > 0 && text.contains('\n') {
        let at = text.index_of_first('\n')->0;
        text.index_of_first_ensures('\n');
        let line = text.take(at);
        let rest = text.skip(at + 1);
        lemma_lines_are_lines(rest);
        assert(!line.contains('\n'));
        assert(!without_cr(line).contains('\n')) by {
            if without_cr(line).contains('\n') {
                let i = choose|i: int|
                    0 <= i < without_cr(line).len() && without_cr(line)[i] == '\n';
                assert(line[i] == '\n');
            }
        }
        assert forall|i: int| 0 <= i < lines_of(text).len() implies !(
        #[trigger] lines_of(text)[i]).contains('\n') by {
            if i > 0 {
                assert(lines_of(text)[i] == lines_of(rest)[i - 1]);
            }
        }
    }
}

/// A line with a value on it has no line break in it.
proof fn lemma_value_line(value: JsonTree)
    requires
        no_control_characters(json_text(value)),
    ensures
        !("data: "@ + json_text(value)).contains('\n'),
        without_cr("data: "@ + json_text(value)) == "data: "@ + json_text(value),
{
    reveal_strlit("data: ");
    let json = json_text(value);
    let line = "data: "@ + json;
    assert forall|i: int| 0 <= i < line.len() implies #[trigger] line[i] >= ' ' by {
        if i >= 6 {
            assert(json[i - 6] >= ' ');
        }
    }
}

proof fn lemma_written_lines(lines: Seq<Seq<char>>, values: Seq<JsonTree>)
    requires
        values.len() == line_values(lines).len(),
        are_lines(lines),
        are_plain_texts(values),
    ensures
        are_lines(with_values(lines, values)),
    decreases lines.len(),
{
    if lines.len() > 0 {
        let rest = lines.drop_first();
        let written = with_values(lines, values);
        let left = if line_value(lines[0]) is Some {
            values.drop_first()
        } else {
            values
        };
        assert forall|i: int| 0 <= i < rest.len() implies !(#[trigger] rest[i]).contains('\n') by {
            assert(rest[i] == lines[i + 1]);
        }
        assert forall|i: int| 0 <= i < left.len() implies no_control_characters(
            json_text(#[trigger] left[i]),
        ) by {
            if line_value(lines[0]) is Some {
                assert(no_control_characters(json_text(values[i + 1])));
            }
        }
        lemma_written_lines(rest, left);
        if line_value(lines[0]) is Some {
            assert(no_control_characters(json_text(values[0])));
            lemma_value_line(values[0]);
        }
        assert forall|i: int| 0 <= i < written.len() implies !(#[trigger] written[i]).contains(
            '\n',
        ) by {
            if i > 0 {
                assert(written[i] == with_values(rest, left)[i - 1]);
            }
        }
    }
}

/// The lines of an event that is written anew are read back from it, but for the carriage return
/// that a line may end with.
pub proof fn law_lines_are_read_back(text: Seq<char>, values: Seq<JsonTree>)
    requires
        values.len() == line_values(lines_of(text)).len(),
        are_plain_texts(values),
    ensures
        lines_of(joined(with_values(lines_of(text), values))) == without_crs(
            with_values(lines_of(text), values),
        ),
{
    lemma_lines_are_lines(text);
    lemma_written_lines(lines_of(text), values);
    lemma_joined_lines(with_values(lines_of(text), values));
}

/// The values that are written on the lines of an event are read back from them.
pub proof fn law_values_are_read_back(lines: Seq<Seq<char>>, values: Seq<JsonTree>)
    requires
        values.len() == line_values(lines).len(),
        values_read_back(values),
        endings_do_not_count(lines),
    ensures
        same_but_fractions(
            JsonTree::Array(values),
            JsonTree::Array(line_values(without_crs(with_values(lines, values)))),
        ),
    decreases lines.len(),
{
    if lines.len() > 0 {
        let rest = lines.drop_first();
        let read = without_crs(with_values(lines, values));
        assert forall|i: int|
            0 <= i < rest.len() && line_value(#[trigger] rest[i]) is None implies line_value(
            without_cr(rest[i]),
        ) is None by {
            assert(rest[i] == lines[i + 1]);
        }
        if line_value(lines[0]) is Some {
            let left = values.drop_first();
            assert forall|i: int| 0 <= i < left.len() implies no_control_characters(
                json_text(#[trigger] left[i]),
            ) && is_read_back(line_value("data: "@ + json_text(left[i])), left[i]) by {
                assert(left[i] == values[i + 1]);
                assert(no_control_characters(json_text(values[i + 1])));
            }
            law_values_are_read_back(rest, left);
            assert(no_control_characters(json_text(values[0])));
            lemma_value_line(values[0]);
            assert(read.drop_first() =~= without_crs(with_values(rest, left)));
            let first = line_value(read[0])->0;
            assert(same_but_fractions(values[0], first));
            let found = line_values(read);
            let others = line_values(read.drop_first());
            let whole = JsonTree::Array(left);
            assert forall|i: int| 0 <= i < values.len() implies same_but_fractions(
                #[trigger] values[i],
                found[i],
            ) by {
                if i > 0 {
                    assert(same_but_fractions(whole->Array_0[i - 1], others[i - 1]));
                }
            }
        } else {
            law_values_are_read_back(rest, values);
            assert(read.drop_first() =~= without_crs(with_values(rest, values)));
        }
    }
}

proof fn lemma_signed_items_len(
    items: Seq<JsonTree>,
    signer: spec_fn(ImageView) -> Option<Seq<u8>>,
)
    ensures
        signed_items(items, signer).len() == items.len(),
    decreases items.len(),
{
    if items.len() > 0 {
        lemma_signed_items_len(items.drop_first(), signer);
    }
}

/// What becomes of an event with some answers.
pub open spec fn event_outcomes(chunk: Seq<u8>) -> spec_fn(Seq<ReplyView>) -> Outcome {
    |replies: Seq<ReplyView>| event_outcome(chunk, replies)
}

/// A signer that does not sign what it has signed leaves an event as it is once it has had it, byte
/// for byte. This rests on the event being read back.
pub proof fn law_no_event_is_stamped_twice(
    chunk: Seq<u8>,
    replies: Seq<ReplyView>,
    sent: Seq<u8>,
    more: Seq<ReplyView>,
    signer: spec_fn(ImageView) -> ReplyView,
)
    requires
        signs_once(signing_part(signer)),
        is_transcript(event_outcomes(chunk), replies, signer),
        event_outcome(chunk, replies) == Outcome::Sends(sent),
        event_reads_back(chunk, replies),
        is_transcript(event_outcomes(sent), more, signer),
    ensures
        event_outcome(sent, more) matches Outcome::Sends(again) ==> again == sent,
{
    if event_outcome(sent, more) is Sends {
        if sent == chunk {
            law_signer_decides_the_end(event_outcomes(chunk), replies, more, signer);
        } else if !any_failed(more) {
            let quiet = signing_part(signer);
            let value = event_value(chunk);
            let lines = lines_of(decode_utf8(chunk));
            let values = signed_items(line_values(lines), quiet);
            let written = with_values(lines, values);
            lemma_transcript_of_walk(event_outcomes(chunk), value, replies, signer);
            law_walk_gives_the_signed_value(value, signed_parts(replies), quiet);
            lemma_signed_items_len(line_values(lines), quiet);
            law_lines_are_read_back(decode_utf8(chunk), values);
            law_values_are_read_back(lines, values);
            vstd::utf8::encode_utf8_valid_utf8(joined(written));
            vstd::utf8::encode_utf8_decode_utf8(joined(written));
            lemma_transcript_of_walk(event_outcomes(sent), event_value(sent), more, signer);
            law_signed_value_is_settled(value, quiet);
            lemma_same_is_settled(JsonTree::Array(values), event_value(sent), quiet);
            law_settled_value_is_left_alone(event_value(sent), signed_parts(more), quiet);
        }
    }
}

} // verus!
