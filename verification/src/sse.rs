//! Streamed responses: chunks of server-sent events, with JSON on their `data:` lines.

use vstd::prelude::*;
use vstd::utf8::{decode_utf8, encode_utf8, valid_utf8};

use crate::body::Outcome;
use crate::encoding::{encodable, json_of_text, json_text, no_control_characters};
use crate::image::{reads_back, Image, ImageView};
use crate::json::{distinct_keys, is_read_back, item_trees, nests_within, strings_occur};
use crate::json::{Json, JsonTree};
use crate::reply::{any_failed, signed_parts, Reply, ReplyView};
use crate::text::{after_prefix, has_run, lines_of, run_at, trimmed, without_cr};
use crate::walk::{fresh, stamp_tree};
use crate::walker::{stamp_images_in_value, Step, Walk};

verus! {

/// One of the marks occurs that a chunk with an image has in it.
pub open spec fn likely_has_image(chunk: Seq<u8>) -> bool {
    ||| has_run(chunk, encode_utf8("image_file"@))
    ||| has_run(chunk, encode_utf8("image_url"@))
    ||| has_run(chunk, encode_utf8("b64_json"@))
    ||| has_run(chunk, encode_utf8("data:image"@))
}

/// Whether a chunk is worth a closer look.
pub fn sse_event_likely_has_image(chunk: &[u8]) -> (res: bool)
    ensures
        res == likely_has_image(chunk@),
        forall|before: Seq<u8>, mark: Seq<u8>, after: Seq<u8>|
            chunk@ == #[trigger] (before + mark + after) && (mark == encode_utf8("image_file"@)
                || mark == encode_utf8("image_url"@) || mark == encode_utf8("b64_json"@) || mark
                == encode_utf8("data:image"@)) ==> res,
        res ==> exists|before: Seq<u8>, mark: Seq<u8>, after: Seq<u8>|
            chunk@ == #[trigger] (before + mark + after) && (mark == encode_utf8("image_file"@)
                || mark == encode_utf8("image_url"@) || mark == encode_utf8("b64_json"@) || mark
                == encode_utf8("data:image"@)),
{
    proof {
        lemma_marks(chunk@);
    }
    has_mark(chunk, "image_file") || has_mark(chunk, "image_url") || has_mark(chunk, "b64_json")
        || has_mark(chunk, "data:image")
}

proof fn lemma_marks(chunk: Seq<u8>)
    ensures
        forall|before: Seq<u8>, mark: Seq<u8>, after: Seq<u8>|
            chunk == #[trigger] (before + mark + after) && (mark == encode_utf8("image_file"@)
                || mark == encode_utf8("image_url"@) || mark == encode_utf8("b64_json"@) || mark
                == encode_utf8("data:image"@)) ==> likely_has_image(chunk),
        likely_has_image(chunk) ==> exists|before: Seq<u8>, mark: Seq<u8>, after: Seq<u8>|
            chunk == #[trigger] (before + mark + after) && (mark == encode_utf8("image_file"@)
                || mark == encode_utf8("image_url"@) || mark == encode_utf8("b64_json"@) || mark
                == encode_utf8("data:image"@)),
{
    assert forall|before: Seq<u8>, mark: Seq<u8>, after: Seq<u8>|
        chunk == #[trigger] (before + mark + after) && (mark == encode_utf8("image_file"@) || mark
            == encode_utf8("image_url"@) || mark == encode_utf8("b64_json"@) || mark == encode_utf8(
            "data:image"@,
        )) implies likely_has_image(chunk) by {
        crate::response_laws::law_marked_chunk(before, after);
    }
    if likely_has_image(chunk) {
        crate::response_laws::law_chunk_was_marked(chunk);
    }
}

fn has_mark(chunk: &[u8], mark: &str) -> (res: bool)
    ensures
        res == has_run(chunk@, encode_utf8(mark@)),
{
    crate::text::find_bytes(chunk, mark.as_bytes()).is_some()
}

/// Two line feeds in a row.
pub open spec fn event_boundary() -> Seq<u8> {
    seq![10u8, 10u8]
}

/// Where the first event in a buffer ends: the index of the first of two line feeds in a row.
pub fn find_sse_boundary(buf: &[u8]) -> (res: Option<usize>)
    ensures
        match res {
            Some(at) => run_at(buf@, event_boundary(), at as int) && forall|i: int|
                0 <= i < at ==> !#[trigger] run_at(buf@, event_boundary(), i),
            None => !has_run(buf@, event_boundary()),
        },
        match res {
            Some(at) => at + 1 < buf@.len() && buf@[at as int] == 10 && buf@[at + 1] == 10
                && forall|i: int| 0 <= i < at ==> !(#[trigger] buf@[i] == 10 && buf@[i + 1] == 10),
            None => forall|i: int|
                0 <= i < buf@.len() - 1 ==> !(#[trigger] buf@[i] == 10 && buf@[i + 1] == 10),
        },
{
    proof {
        assert forall|i: int|
            #![trigger buf@[i]]
            #![trigger run_at(buf@, event_boundary(), i)]
            0 <= i < buf@.len() - 1 implies (run_at(buf@, event_boundary(), i) <==> (buf@[i] == 10
            && buf@[i + 1] == 10)) by {
            let part = buf@.subrange(i, i + 2);
            assert(part[0] == buf@[i] && part[1] == buf@[i + 1]);
            if buf@[i] == 10 && buf@[i + 1] == 10 {
                assert(part =~= event_boundary());
            }
        }
    }
    let boundary: [u8; 2] = [10, 10];
    assert(boundary@ =~= event_boundary());
    crate::text::find_bytes(buf, boundary.as_slice())
}

/// The JSON value on a line of an event: the line starts with `data: `, and is not the `[DONE]`
/// that ends a stream.
pub open spec fn line_value(line: Seq<char>) -> Option<JsonTree> {
    match after_prefix(line, "data: "@) {
        Some(json) => if trimmed(json) == "[DONE]"@ {
            None
        } else {
            json_of_text(json)
        },
        None => None,
    }
}

/// The JSON values on the lines of an event, in their order.
pub open spec fn line_values(lines: Seq<Seq<char>>) -> Seq<JsonTree>
    decreases lines.len(),
{
    if lines.len() == 0 {
        Seq::empty()
    } else {
        match line_value(lines[0]) {
            Some(value) => seq![value] + line_values(lines.drop_first()),
            None => line_values(lines.drop_first()),
        }
    }
}

/// The lines of an event with other JSON values on them. A line without a value is kept.
pub open spec fn with_values(lines: Seq<Seq<char>>, values: Seq<JsonTree>) -> Seq<Seq<char>>
    decreases lines.len(),
{
    if lines.len() == 0 {
        Seq::empty()
    } else {
        match line_value(lines[0]) {
            Some(_) => seq!["data: "@ + json_text(values[0])] + with_values(
                lines.drop_first(),
                values.drop_first(),
            ),
            None => seq![lines[0]] + with_values(lines.drop_first(), values),
        }
    }
}

/// The text with these lines, each ended by a line feed.
pub open spec fn joined(lines: Seq<Seq<char>>) -> Seq<char>
    decreases lines.len(),
{
    if lines.len() == 0 {
        Seq::empty()
    } else {
        lines[0] + seq!['\n'] + joined(lines.drop_first())
    }
}

/// The JSON values on the lines of an event, as one value.
pub open spec fn event_value(chunk: Seq<u8>) -> JsonTree {
    JsonTree::Array(line_values(lines_of(decode_utf8(chunk))))
}

/// What becomes of an event: the JSON values on its lines are walked one after the other, and all
/// of them are written anew if an image in one was replaced. Otherwise the event is left as it is,
/// byte for byte. So it is if one of its images could not be signed, whatever came of the others.
pub open spec fn event_outcome(chunk: Seq<u8>, replies: Seq<ReplyView>) -> Outcome {
    if valid_utf8(chunk) && !any_failed(replies) {
        let lines = lines_of(decode_utf8(chunk));
        let (tree, tally) = stamp_tree(event_value(chunk), signed_parts(replies), fresh());
        match tally.asks {
            Some(image) => Outcome::Asks(image),
            None => if tally.stamped == 0 {
                Outcome::Sends(chunk)
            } else {
                Outcome::Sends(encode_utf8(joined(with_values(lines, tree->Array_0))))
            },
        }
    } else {
        Outcome::Sends(chunk)
    }
}

/// An event with an image that is to be signed. A line with a JSON value is not kept: its value is
/// in the walk.
pub struct EventWalk {
    chunk: Vec<u8>,
    kept: Vec<Option<String>>,
    walk: Walk,
    replies: Ghost<Seq<ReplyView>>,
}

/// How far the signing of the images in an event has come.
pub enum EventStep {
    /// An image is to be signed.
    Sign(EventWalk),
    /// The event is ready to be sent.
    Done(Vec<u8>),
}

/// The signing of the images in `chunk`, with the answers `replies`, has come as far as `step`.
pub open spec fn event_step_is(step: EventStep, chunk: Seq<u8>, replies: Seq<ReplyView>) -> bool {
    match step {
        EventStep::Sign(walk) => {
            &&& event_outcome(chunk, replies) == Outcome::Asks(walk.request())
            &&& walk.chunk() == chunk
            &&& walk.replies() == replies
        },
        EventStep::Done(bytes) => event_outcome(chunk, replies) == Outcome::Sends(bytes@),
    }
}

/// No line has a value only when it is without the carriage return that it ends with.
pub open spec fn endings_do_not_count(lines: Seq<Seq<char>>) -> bool {
    forall|i: int|
        0 <= i < lines.len() && line_value(#[trigger] lines[i]) is None ==> line_value(
            without_cr(lines[i]),
        ) is None
}

/// The JSON texts of some values have no line break in them, and the values are read back from the
/// lines that they are written on, but for the fractions in them.
pub open spec fn values_read_back(values: Seq<JsonTree>) -> bool {
    forall|i: int|
        0 <= i < values.len() ==> {
            let text = json_text(#[trigger] values[i]);
            &&& no_control_characters(text)
            &&& is_read_back(line_value("data: "@ + text), values[i])
        }
}

/// If an image in an event was replaced, the event is read back: the values are read back from
/// their lines, and no other line is read as a value.
pub open spec fn event_reads_back(chunk: Seq<u8>, replies: Seq<ReplyView>) -> bool {
    let (tree, tally) = stamp_tree(event_value(chunk), signed_parts(replies), fresh());
    valid_utf8(chunk) && !any_failed(replies) && tally.stamped > 0 ==> {
        &&& endings_do_not_count(lines_of(decode_utf8(chunk)))
        &&& values_read_back(tree->Array_0)
    }
}

/// `kept` has the lines without a JSON value, each in its place.
spec fn kept_from(kept: Seq<Option<String>>, lines: Seq<Seq<char>>) -> bool {
    &&& kept.len() == lines.len()
    &&& forall|i: int|
        0 <= i < kept.len() ==> match #[trigger] kept[i] {
            Some(line) => line_value(lines[i]) is None && line@ == lines[i],
            None => line_value(lines[i]) is Some,
        }
}

proof fn lemma_line_without_cr(line: Seq<char>)
    ensures
        match after_prefix(line, "data: "@) {
            Some(json) => after_prefix(without_cr(line), "data: "@) == Some(without_cr(json)),
            None => after_prefix(without_cr(line), "data: "@) is None,
        },
{
    reveal_strlit("data: ");
    let mark = "data: "@;
    let bare = without_cr(line);
    if mark.is_prefix_of(line) {
        assert(line.take(6) =~= mark);
        assert(line[5] == mark[5]);
        assert(bare.len() >= 6);
        assert(bare.subrange(0, 6) =~= mark);
        assert(bare.skip(6) =~= without_cr(line.skip(6)));
    } else if mark.is_prefix_of(bare) {
        assert(line.subrange(0, 6) =~= bare.subrange(0, 6));
    }
}

/// The JSON value on a line of an event.
fn read_line(line: &str) -> (res: Option<Json>)
    ensures
        match res {
            Some(value) => {
                &&& line_value(line@) == Some(value@)
                &&& distinct_keys(value@)
                &&& nests_within(value@, 127)
                &&& !line@.contains('\\') ==> strings_occur(value@, line@)
            },
            None => line_value(line@) is None && line_value(without_cr(line@)) is None,
        },
{
    proof {
        lemma_line_without_cr(line@);
        if let Some(json) = after_prefix(line@, "data: "@) {
            crate::text::lemma_trimmed_without_cr(json);
            let from = "data: "@.len() as int;
            crate::marks::lemma_part_is_run(line@, from, line@.len() as int);
            assert(json =~= line@.subrange(from, line@.len() as int));
            if json.contains('\\') {
                let i = choose|i: int| 0 <= i < json.len() && json[i] == '\\';
                assert(line@[i + from] == '\\');
            }
            assert forall|tree: JsonTree| #[trigger]
                strings_occur(tree, json) implies strings_occur(tree, line@) by {
                crate::marks::lemma_strings_occur_in_whole(tree, json, line@);
            }
        }
    }
    match crate::text::strip_prefix(line, "data: ") {
        Some(json) => if crate::text::equal(crate::text::trim(json), "[DONE]") {
            None
        } else {
            match Json::from_str(json) {
                Ok(value) => Some(value),
                Err(_) => None,
            }
        },
        None => None,
    }
}

proof fn lemma_line_values_push(lines: Seq<Seq<char>>, line: Seq<char>)
    ensures
        line_values(lines.push(line)) == match line_value(line) {
            Some(value) => line_values(lines).push(value),
            None => line_values(lines),
        },
    decreases lines.len(),
{
    let more = lines.push(line);
    if lines.len() == 0 {
        assert(more.drop_first() =~= lines);
        assert(line_values(more) =~= match line_value(line) {
            Some(value) => line_values(lines).push(value),
            None => line_values(lines),
        });
    } else {
        lemma_line_values_push(lines.drop_first(), line);
        assert(more.drop_first() =~= lines.drop_first().push(line));
        assert(line_values(more) =~= match line_value(line) {
            Some(value) => line_values(lines).push(value),
            None => line_values(lines),
        });
    }
}

/// Begins the signing of the images in an event. An event without any mark of an image, and without
/// a backslash, has nothing to sign.
pub fn stamp_sse_event(chunk: Vec<u8>) -> (res: EventStep)
    ensures
        event_step_is(res, chunk@, Seq::empty()),
        res is Done ==> event_reads_back(chunk@, Seq::empty()),
        !likely_has_image(chunk@) && !chunk@.contains(92u8) ==> (res matches EventStep::Done(bytes)
            && bytes@ == chunk@),
        valid_utf8(chunk@) ==> match stamp_tree(
            JsonTree::Array(line_values(lines_of(decode_utf8(chunk@)))),
            Seq::empty(),
            fresh(),
        ).1.asks {
            Some(image) => res matches EventStep::Sign(walk) && walk.request() == image,
            None => res matches EventStep::Done(bytes) && bytes@ == chunk@,
        },
        !valid_utf8(chunk@) ==> (res matches EventStep::Done(bytes) && bytes@ == chunk@),
{
    proof {
        crate::laws::law_refused_walk_changes_nothing(event_value(chunk@), Seq::empty());
    }
    let text = match crate::text::from_utf8(chunk.as_slice()) {
        Some(text) => text,
        None => return EventStep::Done(chunk),
    };
    let lines = crate::text::lines(text);
    let ghost all = lines_of(text@);
    let ghost plain = !text@.contains('\\');
    let mut kept: Vec<Option<String>> = Vec::new();
    let mut values: Vec<Json> = Vec::new();
    let mut i: usize = 0;
    while i < lines.len()
        invariant
            i <= lines@.len(),
            all == lines@.map_values(|line: &str| line@),
            kept_from(kept@, all.take(i as int)),
            item_trees(values@) == line_values(all.take(i as int)),
            forall|j: int|
                0 <= j < values@.len() ==> distinct_keys((#[trigger] values@[j])@) && nests_within(
                    values@[j]@,
                    127,
                ),
            all == lines_of(text@),
            plain == !text@.contains('\\'),
            plain ==> forall|j: int|
                0 <= j < values@.len() ==> strings_occur((#[trigger] values@[j])@, text@),
            endings_do_not_count(all.take(i as int)),
        decreases lines@.len() - i,
    {
        let line: &str = lines[i];
        assert(line@ == all[i as int]);
        proof {
            lemma_line_values_push(all.take(i as int), line@);
            assert(all.take(i + 1) =~= all.take(i as int).push(line@));
            crate::marks::lemma_lines_are_runs(text@, i as int);
            if line@.contains('\\') {
                let at = choose|at: int| #[trigger] run_at(text@, line@, at);
                let j = choose|j: int| 0 <= j < line@.len() && line@[j] == '\\';
                assert(text@.subrange(at, at + line@.len())[j] == text@[at + j]);
            }
            assert forall|tree: JsonTree| #[trigger]
                strings_occur(tree, line@) implies strings_occur(tree, text@) by {
                crate::marks::lemma_strings_occur_in_whole(tree, line@, text@);
            }
        }
        let ghost before = values@;
        match read_line(line) {
            Some(value) => {
                values.push(value);
                assert(item_trees(values@) =~= item_trees(before).push(value@));
                kept.push(None);
            },
            None => {
                kept.push(Some(line.to_owned()));
            },
        }
        i += 1;
    }
    assert(all.take(i as int) =~= all);
    proof {
        crate::json::lemma_array_view(values);
        assert(signed_parts(Seq::empty()) =~= Seq::empty());
        vstd::utf8::decode_utf8_encode_utf8(chunk@);
        if !likely_has_image(chunk@) && !chunk@.contains(92u8) {
            lemma_unmarked_event(text@, item_trees(values@));
        }
    }
    event_step(chunk, kept, stamp_images_in_value(Json::Array(values)), Ghost(Seq::empty()))
}

/// A walk through values whose strings occur in a text without any mark asks for nothing.
proof fn lemma_unmarked_event(text: Seq<char>, values: Seq<JsonTree>)
    requires
        !likely_has_image(encode_utf8(text)),
        !encode_utf8(text).contains(92u8),
        !text.contains('\\') ==> forall|i: int|
            0 <= i < values.len() ==> strings_occur(#[trigger] values[i], text),
    ensures
        stamp_tree(JsonTree::Array(values), Seq::empty(), fresh()) == (
            JsonTree::Array(values),
            fresh(),
        ),
{
    if text.contains('\\') {
        crate::marks::lemma_backslash_is_encoded(text);
    }
    assert forall|mark: Seq<char>| #[trigger] has_run(text, mark) implies has_run(
        encode_utf8(text),
        encode_utf8(mark),
    ) by {
        crate::marks::lemma_run_is_encoded(text, mark);
    }
    crate::marks::lemma_unmarked_value(JsonTree::Array(values), text, Seq::empty(), fresh());
}

/// What a step of the walk means for the event.
fn event_step(
    chunk: Vec<u8>,
    kept: Vec<Option<String>>,
    step: Step,
    Ghost(replies): Ghost<Seq<ReplyView>>,
) -> (res: EventStep)
    requires
        valid_utf8(chunk@),
        kept_from(kept@, lines_of(decode_utf8(chunk@))),
        endings_do_not_count(lines_of(decode_utf8(chunk@))),
        distinct_keys(event_value(chunk@)),
        nests_within(event_value(chunk@), 128),
        crate::walker::step_is(step, event_value(chunk@), signed_parts(replies)),
        !any_failed(replies),
    ensures
        event_step_is(res, chunk@, replies),
        res is Done ==> event_reads_back(chunk@, replies),
{
    let ghost lines = lines_of(decode_utf8(chunk@));
    let ghost origin = event_value(chunk@);
    match step {
        Step::Sign(walk) => EventStep::Sign(
            EventWalk { chunk, kept, walk, replies: Ghost(replies) },
        ),
        Step::Done { value, stamped } => if stamped == 0 {
            EventStep::Done(chunk)
        } else {
            proof {
                crate::laws::law_only_images_change(origin, signed_parts(replies));
                crate::laws::law_walk_keeps_keys(origin, signed_parts(replies));
                crate::laws::law_walk_keeps_form(origin, signed_parts(replies), 128);
            }
            match value {
                Json::Array(values) => {
                    proof {
                        crate::json::lemma_array_view(values);
                    }
                    let text = write_lines(&kept, values, Ghost(lines));
                    EventStep::Done(text.as_str().as_bytes_vec())
                },
                _ => EventStep::Done(chunk),
            }
        },
    }
}

/// The event with other JSON values on its lines.
fn write_lines(
    kept: &Vec<Option<String>>,
    values: Vec<Json>,
    Ghost(lines): Ghost<Seq<Seq<char>>>,
) -> (res: String)
    requires
        kept_from(kept@, lines),
        values@.len() == line_values(lines).len(),
        distinct_keys(JsonTree::Array(item_trees(values@))),
        nests_within(JsonTree::Array(item_trees(values@)), 128),
    ensures
        res@ == joined(with_values(lines, item_trees(values@))),
        values_read_back(item_trees(values@)),
{
    let ghost trees = item_trees(values@);
    let ghost whole = JsonTree::Array(trees);
    let mut texts: Vec<String> = Vec::new();
    for value in it: values
        invariant
            it.seq() == values@,
            trees == item_trees(values@),
            whole == JsonTree::Array(trees),
            distinct_keys(whole),
            nests_within(whole, 128),
            texts@.len() == it.index(),
            forall|j: int|
                0 <= j < texts@.len() ==> (#[trigger] texts@[j])@ == json_text(trees[j]),
            values_read_back(trees.take(it.index())),
    {
        assert(whole->Array_0[it.index()] == value@);
        let text = value.into_string();
        proof {
            let line = "data: "@ + text@;
            assert("data: "@ =~= line.subrange(0, "data: "@.len() as int));
            assert(line.skip("data: "@.len() as int) =~= text@);
            assert(trees.take(it.index() + 1) =~= trees.take(it.index()).push(value@));
        }
        texts.push(text);
    }
    assert(trees.take(values@.len() as int) =~= trees);
    let mut written = String::new();
    let mut i: usize = 0;
    let mut next: usize = 0;
    proof {
        assert(lines.skip(0) =~= lines);
        assert(trees.skip(0) =~= trees);
        assert(written@ + joined(with_values(lines, trees)) =~= joined(with_values(lines, trees)));
    }
    while i < kept.len()
        invariant
            i <= kept@.len(),
            kept_from(kept@, lines),
            texts@.len() == trees.len(),
            forall|j: int|
                0 <= j < texts@.len() ==> (#[trigger] texts@[j])@ == json_text(trees[j]),
            next + line_values(lines.skip(i as int)).len() == trees.len(),
            written@ + joined(with_values(lines.skip(i as int), trees.skip(next as int))) == joined(
                with_values(lines, trees),
            ),
        decreases kept@.len() - i,
    {
        let ghost before = written@;
        let ghost rest = lines.skip(i as int);
        let ghost left = trees.skip(next as int);
        assert(rest[0] == lines[i as int]);
        assert(rest.drop_first() =~= lines.skip(i + 1));
        let ghost mut line = lines[i as int];
        match &kept[i] {
            Some(text) => {
                written.append(text.as_str());
            },
            None => {
                written.append("data: ");
                written.append(texts[next].as_str());
                proof {
                    line = "data: "@ + json_text(left[0]);
                    assert(left.drop_first() =~= trees.skip(next + 1));
                }
                assert(next < texts.len());
                next += 1;
            },
        }
        written.append("\n");
        proof {
            reveal_strlit("\n");
            let more = with_values(lines.skip(i + 1), trees.skip(next as int));
            assert(with_values(rest, left).drop_first() =~= more);
            assert("\n"@ =~= seq!['\n']);
            assert(written@ =~= before + line + seq!['\n']);
            assert(written@ + joined(more) =~= before + (line + seq!['\n'] + joined(more)));
        }
        i += 1;
    }
    assert(written@ + joined(with_values(lines.skip(i as int), trees.skip(next as int)))
        =~= written@);
    written
}

impl EventWalk {
    #[verifier::type_invariant]
    spec fn well_formed(&self) -> bool {
        &&& valid_utf8(self.chunk@)
        &&& kept_from(self.kept@, lines_of(decode_utf8(self.chunk@)))
        &&& endings_do_not_count(lines_of(decode_utf8(self.chunk@)))
        &&& self.walk.origin() == event_value(self.chunk@)
        &&& distinct_keys(self.walk.origin())
        &&& nests_within(self.walk.origin(), 128)
        &&& !any_failed(self.replies@)
        &&& self.walk.replies() == signed_parts(self.replies@)
    }

    /// The event as it was received.
    pub closed spec fn chunk(&self) -> Seq<u8> {
        self.chunk@
    }

    /// The answers so far.
    pub closed spec fn replies(&self) -> Seq<ReplyView> {
        self.replies@
    }

    /// The image that is to be signed.
    pub closed spec fn request(&self) -> ImageView {
        self.walk.request()
    }

    /// The image that is to be signed.
    pub fn image(&self) -> (res: &Image)
        ensures
            res@ == self.request(),
    {
        self.walk.image()
    }

    /// Goes on with what came of the signing.
    pub fn resume(self, reply: Reply) -> (res: EventStep)
        requires
            reply matches Reply::Signed(signed) ==> encodable(signed@.len()),
        ensures
            event_step_is(res, self.chunk(), self.replies().push(reply@)),
            res is Done ==> event_reads_back(self.chunk(), self.replies().push(reply@)),
            reply is Failed ==> (res matches EventStep::Done(bytes) && bytes@ == self.chunk()),
            !(reply is Failed) && !any_failed(self.replies()) && valid_utf8(self.chunk()) ==> {
                let lines = lines_of(decode_utf8(self.chunk()));
                let (walked, tally) = stamp_tree(
                    JsonTree::Array(line_values(lines)),
                    signed_parts(self.replies().push(reply@)),
                    fresh(),
                );
                match tally.asks {
                    Some(image) => res matches EventStep::Sign(walk) && walk.request() == image,
                    None => res matches EventStep::Done(bytes) && bytes@ == if tally.stamped > 0 {
                        encode_utf8(joined(with_values(lines, walked->Array_0)))
                    } else {
                        self.chunk()
                    },
                }
            },
            reply matches Reply::Signed(signed) ==> reads_back(signed@),
    {
        proof {
            use_type_invariant(&self);
            crate::reply::lemma_one_more(self.replies@, reply@);
        }
        let EventWalk { chunk, kept, walk, replies } = self;
        let ghost more = replies@.push(reply@);
        match reply {
            Reply::Signed(signed) => event_step(
                chunk,
                kept,
                walk.resume(Some(signed)),
                Ghost(more),
            ),
            Reply::NoChange => event_step(chunk, kept, walk.resume(None), Ghost(more)),
            Reply::Failed => EventStep::Done(chunk),
        }
    }
}

/// Begins the signing of the images in a chunk of a streamed response. A chunk without any mark of
/// an image is passed on as it is.
pub fn stamp_chunk(chunk: Vec<u8>) -> (res: EventStep)
    ensures
        likely_has_image(chunk@) ==> event_step_is(res, chunk@, Seq::empty()),
        likely_has_image(chunk@) && res is Done ==> event_reads_back(chunk@, Seq::empty()),
        !likely_has_image(chunk@) ==> (res matches EventStep::Done(bytes) && bytes@ == chunk@),
        forall|before: Seq<u8>, mark: Seq<u8>, after: Seq<u8>|
            chunk@ == #[trigger] (before + mark + after) && (mark == encode_utf8("image_file"@)
                || mark == encode_utf8("image_url"@) || mark == encode_utf8("b64_json"@) || mark
                == encode_utf8("data:image"@)) ==> event_step_is(res, chunk@, Seq::empty()),
        event_step_is(res, chunk@, Seq::empty()) || (res matches EventStep::Done(bytes) && bytes@
            == chunk@),
{
    proof {
        lemma_marks(chunk@);
    }
    if sse_event_likely_has_image(chunk.as_slice()) {
        stamp_sse_event(chunk)
    } else {
        EventStep::Done(chunk)
    }
}

} // verus!
