use c2pa_stamping::image::Image;
use c2pa_stamping::reply::Reply;
use c2pa_stamping::sse::{find_sse_boundary, sse_event_likely_has_image};
use c2pa_stamping::sse::{stamp_chunk, stamp_sse_event, EventStep};

const MARK: &[u8] = b"+signed";

/// A stand-in for a signer: it marks an image at its end, and leaves an image that has the mark.
fn marking(image: &Image) -> Reply {
    if image.bytes.ends_with(MARK) {
        return Reply::NoChange;
    }
    Reply::Signed(marked(image.bytes.clone()))
}

fn leaving(_: &Image) -> Reply {
    Reply::NoChange
}

/// A signer that cannot sign images that end with one.
fn failing_on_one(image: &Image) -> Reply {
    if image.bytes.ends_with(&[1]) {
        return Reply::Failed;
    }
    marking(image)
}

fn marked(mut image: Vec<u8>) -> Vec<u8> {
    image.extend_from_slice(MARK);
    image
}

fn jpeg(last: u8) -> Vec<u8> {
    vec![0xFF, 0xD8, last]
}

fn b64(bytes: &[u8]) -> String {
    base64::Engine::encode(&base64::engine::general_purpose::STANDARD, bytes)
}

/// What is sent for an event, and the images that were asked for on the way.
fn finish(mut step: EventStep, signer: fn(&Image) -> Reply) -> (Vec<u8>, Vec<Vec<u8>>) {
    let mut asked = Vec::new();
    loop {
        match step {
            EventStep::Sign(walk) => {
                asked.push(walk.image().bytes.clone());
                let reply = signer(walk.image());
                step = walk.resume(reply);
            }
            EventStep::Done(bytes) => return (bytes, asked),
        }
    }
}

fn stamp(chunk: &[u8], signer: fn(&Image) -> Reply) -> (Vec<u8>, Vec<Vec<u8>>) {
    finish(stamp_sse_event(chunk.to_vec()), signer)
}

#[test]
fn test_sse_boundary() {
    assert_eq!(find_sse_boundary(b"data: {}\n\ndata:"), Some(8));
    assert_eq!(find_sse_boundary(b"data: {}"), None);
}

#[test]
fn test_sse_likely_has_image() {
    assert!(sse_event_likely_has_image(
        b"data: {\"type\":\"image_file\"}"
    ));
    assert!(sse_event_likely_has_image(b"data: {\"b64_json\":\"abc\"}"));
    assert!(!sse_event_likely_has_image(b"data: {\"type\":\"text\"}"));
}

#[test]
fn boundary_is_the_first_of_two_line_feeds() {
    assert_eq!(find_sse_boundary(b"\n\n\n\n"), Some(0));
    assert_eq!(find_sse_boundary(b"a\r\n\r\nb\n\nc\n\n"), Some(6));
    assert_eq!(find_sse_boundary(b"\n"), None);
    assert_eq!(find_sse_boundary(b""), None);
}

#[test]
fn every_mark_counts() {
    assert!(sse_event_likely_has_image(b"x image_url"));
    assert!(sse_event_likely_has_image(b"\xFFdata:image"));
    assert!(!sse_event_likely_has_image(b"image_fil b64_jso data:imag image_ur"));
    assert!(!sse_event_likely_has_image(b""));
}

#[test]
fn event_lines_are_written_anew() {
    let chunk = concat_lines(&[
        "event: image",
        "data: { \"b64_json\" : \"/9gA\" }",
        "",
        ": a comment",
        "data: {\"text\" : 1.50}",
        "data: not json",
        "data:{\"b64_json\":\"/9gB\"}",
        "data:  [DONE] ",
    ]);
    let (result, asked) = stamp(chunk.as_bytes(), marking);
    assert_eq!(asked, vec![jpeg(0)]);
    let image = format!("data: {{\"b64_json\":\"{}\"}}", b64(&marked(jpeg(0))));
    let expected = concat_lines(&[
        "event: image",
        image.as_str(),
        "",
        ": a comment",
        "data: {\"text\":1.5}",
        "data: not json",
        "data:{\"b64_json\":\"/9gB\"}",
        "data:  [DONE] ",
    ]);
    assert_eq!(String::from_utf8(result).unwrap(), expected);
}

fn concat_lines(lines: &[&str]) -> String {
    let mut text = String::new();
    for line in lines {
        text.push_str(line);
        text.push('\n');
    }
    text
}

#[test]
fn line_endings_become_line_feeds() {
    let chunk = b"id: 1\r\ndata: {\"b64_json\":\"/9gA\"}\r\nlast";
    let (result, _) = stamp(chunk, marking);
    let expected = format!(
        "id: 1\ndata: {{\"b64_json\":\"{}\"}}\nlast\n",
        b64(&marked(jpeg(0)))
    );
    assert_eq!(String::from_utf8(result).unwrap(), expected);
}

#[test]
fn images_on_several_lines_are_asked_for_in_their_order() {
    let chunk = b"data: {\"b64_json\":\"/9gA\"}\ndata: [\"data:image/jpeg;base64,/9gB\"]\n";
    let (result, asked) = stamp(chunk, marking);
    assert_eq!(asked, vec![jpeg(0), jpeg(1)]);
    let expected = format!(
        "data: {{\"b64_json\":\"{}\"}}\ndata: [\"data:image/jpeg;base64,{}\"]\n",
        b64(&marked(jpeg(0))),
        b64(&marked(jpeg(1)))
    );
    assert_eq!(String::from_utf8(result).unwrap(), expected);
}

#[test]
fn unsigned_event_is_sent_byte_for_byte() {
    let chunk = b"data: { \"b64_json\" : \"/9gA\" }\r\n\r\nlast";
    let (result, asked) = stamp(chunk, leaving);
    assert_eq!(asked, vec![jpeg(0)]);
    assert_eq!(result, chunk);
}

#[test]
fn event_without_an_image_is_sent_byte_for_byte() {
    for chunk in [
        "data: { \"b64_json\" : \"nothing\" }\r\n",
        "data: [DONE]",
        "",
        "b64_json",
    ] {
        let (result, asked) = stamp(chunk.as_bytes(), marking);
        assert!(asked.is_empty());
        assert_eq!(result, chunk.as_bytes());
    }
}

#[test]
fn bytes_that_are_not_text_are_sent_as_they_are() {
    let chunk = b"data: {\"b64_json\":\"/9gA\"}\n\xFF";
    let (result, asked) = stamp(chunk, marking);
    assert!(asked.is_empty());
    assert_eq!(result, chunk);
}

#[test]
fn text_beyond_ascii_is_kept() {
    let chunk = "data: {\"b64_json\":\"/9gA\",\"t\":\"zażółć 🎈\"}\n: ünï\n";
    let (result, _) = stamp(chunk.as_bytes(), marking);
    let expected = chunk.replace("/9gA", &b64(&marked(jpeg(0))));
    assert_eq!(String::from_utf8(result).unwrap(), expected);
}

#[test]
fn event_is_not_stamped_twice() {
    let chunk = b"id: 7\ndata: { \"b64_json\" : \"/9gA\" , \"n\" : 1 }\n\n";
    let (first, _) = stamp(chunk, marking);
    assert_ne!(first, chunk);
    let (second, asked) = stamp(&first, marking);
    assert_eq!(asked, vec![marked(jpeg(0))]);
    assert_eq!(second, first);
}

#[test]
fn chunk_without_a_mark_is_passed_on() {
    let chunk = b"data: {\"content\":\"hi\"}\r\n\r\n".to_vec();
    match stamp_chunk(chunk.clone()) {
        EventStep::Done(bytes) => assert_eq!(bytes, chunk),
        EventStep::Sign(_) => panic!("nothing is to be signed"),
    }
}

#[test]
fn chunk_with_a_mark_is_stamped() {
    let chunk = b"data: {\"b64_json\":\"/9gA\"}\n".to_vec();
    let (result, asked) = finish(stamp_chunk(chunk), marking);
    assert_eq!(asked, vec![jpeg(0)]);
    let expected = format!("data: {{\"b64_json\":\"{}\"}}\n", b64(&marked(jpeg(0))));
    assert_eq!(String::from_utf8(result).unwrap(), expected);
}

#[test]
fn event_with_odd_endings_is_not_stamped_twice() {
    let chunk = b"id: 7\r\r\ndata: {\"b64_json\":\"/9gA\",\"n\":0.1}\r\r\n: x\r";
    let (first, _) = stamp(chunk, marking);
    let expected = format!(
        "id: 7\r\ndata: {{\"b64_json\":\"{}\",\"n\":0.1}}\n: x\r\n",
        b64(&marked(jpeg(0)))
    );
    assert_eq!(String::from_utf8(first.clone()).unwrap(), expected);
    let (second, asked) = stamp(&first, marking);
    assert_eq!(asked, vec![marked(jpeg(0))]);
    assert_eq!(second, first);
}

#[test]
fn one_failure_sends_the_event_as_it_was() {
    let chunk = b"data: { \"b64_json\":\"/9gA\"}\r\ndata: [\"data:image/jpeg;base64,/9gB\"]\n";
    let (result, asked) = stamp(chunk, failing_on_one);
    assert_eq!(asked, vec![jpeg(0), jpeg(1)]);
    assert_eq!(result, chunk);
    let (again, _) = stamp(&result, failing_on_one);
    assert_eq!(again, chunk);
}

#[test]
fn event_without_a_mark_has_nothing_to_sign() {
    let chunk = b"data: {\"type\":\"image\",\"file\":{\"data\":\"/9gA\"}}\ndata: [\"data:imag\"]\n";
    assert!(!sse_event_likely_has_image(chunk));
    let (result, asked) = stamp(chunk, marking);
    assert!(asked.is_empty());
    assert_eq!(result, chunk);
}

#[test]
fn an_escape_can_hide_a_mark() {
    let chunk = b"data: {\"b64\\u005fjson\":\"/9gA\"}\n";
    assert!(!sse_event_likely_has_image(chunk));
    let (_, asked) = stamp(chunk, marking);
    assert_eq!(asked, vec![jpeg(0)]);
    let (result, asked) = finish(stamp_chunk(chunk.to_vec()), marking);
    assert!(asked.is_empty());
    assert_eq!(result, chunk);
}
