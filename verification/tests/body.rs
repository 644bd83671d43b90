use c2pa_stamping::body::{stamp_images_in_response_body, BodyError, BodyStep};
use c2pa_stamping::image::Image;
use c2pa_stamping::json::Json;
use c2pa_stamping::reply::Reply;

const MARK: &[u8] = b"+signed";

/// A stand-in for a signer: it marks an image at its end, and leaves an image that has the mark.
fn marking(image: &Image) -> Reply {
    if image.bytes.ends_with(MARK) {
        return Reply::NoChange;
    }
    let mut signed = image.bytes.clone();
    signed.extend_from_slice(MARK);
    Reply::Signed(signed)
}

fn leaving(_: &Image) -> Reply {
    Reply::NoChange
}

fn failing(_: &Image) -> Reply {
    Reply::Failed
}

/// A signer that cannot sign images that end with seven.
fn failing_on_seven(image: &Image) -> Reply {
    if image.bytes.ends_with(&[7]) {
        return Reply::Failed;
    }
    marking(image)
}

/// What is sent for a body, the images that were asked for on the way, and the error.
fn run(
    body: &[u8],
    signer: fn(&Image) -> Reply,
) -> (Vec<u8>, Vec<Vec<u8>>, Option<BodyError>) {
    let mut asked = Vec::new();
    let mut step = stamp_images_in_response_body(body.to_vec());
    loop {
        match step {
            BodyStep::Sign(walk) => {
                asked.push(walk.image().bytes.clone());
                let reply = signer(walk.image());
                step = walk.resume(reply);
            }
            BodyStep::Done { bytes, error } => return (bytes, asked, error),
        }
    }
}

fn stamp(body: &[u8], signer: fn(&Image) -> Reply) -> (Vec<u8>, Vec<Vec<u8>>) {
    let (bytes, asked, _) = run(body, signer);
    (bytes, asked)
}

fn jpeg(last: u8) -> Vec<u8> {
    vec![0xFF, 0xD8, last]
}

fn marked(mut image: Vec<u8>) -> Vec<u8> {
    image.extend_from_slice(MARK);
    image
}

fn b64(bytes: &[u8]) -> String {
    base64::Engine::encode(&base64::engine::general_purpose::STANDARD, bytes)
}

#[test]
fn test_stamp_no_images_passthrough() {
    let body = r#"{"model":"gpt-4o","choices":[{"message":{"content":"hi"}}]}"#.as_bytes();
    let (result, asked) = stamp(body, marking);
    assert_eq!(result, body, "body with no images should be unchanged");
    assert!(asked.is_empty());
}

#[test]
fn test_stamp_non_json_passthrough() {
    let body = "not json".as_bytes();
    let (result, asked) = stamp(body, marking);
    assert_eq!(result, body, "non-JSON body should be unchanged");
    assert!(asked.is_empty());
}

#[test]
fn test_stamp_invalid_b64_passthrough() {
    let body = r#"{"data":[{"b64_json":"!!!not-valid-base64!!!"}]}"#.as_bytes();
    let (result, asked) = stamp(body, marking);
    assert_eq!(result, body, "invalid base64 should be unchanged");
    assert!(asked.is_empty());
}

#[test]
fn b64_json_image_is_signed() {
    let body = r#"{"created": 1234567890, "data": [{"b64_json": "/9gA", "revised_prompt": "a test image"}]}"#;
    let (result, asked) = stamp(body.as_bytes(), marking);
    assert_eq!(asked, vec![jpeg(0)]);
    let expected = format!(
        r#"{{"created":1234567890,"data":[{{"b64_json":"{}","revised_prompt":"a test image"}}]}}"#,
        b64(&marked(jpeg(0)))
    );
    assert_eq!(String::from_utf8(result).unwrap(), expected);
}

#[test]
fn image_file_of_the_response_api_is_signed() {
    let body = r#"{"id":"resp_001","status":"completed","model":"gpt-4o","output":[{"type":"message","content":[{"type":"image_file","image_file":{"data":"/9gA","mime_type":"image/jpeg"}}]}]}"#;
    let (result, asked) = stamp(body.as_bytes(), marking);
    assert_eq!(asked, vec![jpeg(0)]);
    let expected = body.replace("/9gA", &b64(&marked(jpeg(0))));
    assert_eq!(String::from_utf8(result).unwrap(), expected);
}

#[test]
fn data_uri_in_a_string_is_signed() {
    let body = r#"{"model":"gpt-4o","choices":[{"message":{"content":"data:image/jpeg;base64,/9gA","role":"assistant"}}]}"#;
    let (result, asked) = stamp(body.as_bytes(), marking);
    assert_eq!(asked, vec![jpeg(0)]);
    let expected = body.replace("/9gA", &b64(&marked(jpeg(0))));
    assert_eq!(String::from_utf8(result).unwrap(), expected);
}

#[test]
fn image_url_is_asked_for_as_a_member_and_as_a_string() {
    let body = r#"{"image_url":{"url":"data:image/png;base64,iVBORw=="},"type":"image_url"}"#;
    let (result, asked) = stamp(body.as_bytes(), marking);
    let png = vec![0x89, 0x50, 0x4E, 0x47];
    assert_eq!(asked, vec![png.clone(), marked(png.clone())]);
    let expected = body.replace("iVBORw==", &b64(&marked(png)));
    assert_eq!(String::from_utf8(result).unwrap(), expected);
}

#[test]
fn image_url_needs_no_data_prefix() {
    let body = r#"{"type":"image_url","image_url":{"url":"base64,/9gA"}}"#;
    let (result, asked) = stamp(body.as_bytes(), marking);
    assert_eq!(asked, vec![jpeg(0), marked(jpeg(0))]);
    let expected = format!(
        r#"{{"type":"image_url","image_url":{{"url":"data:image/jpeg;base64,{}"}}}}"#,
        b64(&marked(jpeg(0)))
    );
    assert_eq!(String::from_utf8(result).unwrap(), expected);
}

#[test]
fn rules_ask_for_the_right_type() {
    for body in [
        r#"{"type":"image_url","image_file":{"data":"/9gA"}}"#,
        r#"{"image_file":{"data":"/9gA"}}"#,
        r#"{"type":7,"image_file":{"data":"/9gA"}}"#,
        r#"{"type":"image_file","image_file":"/9gA"}"#,
        r#"{"type":"image_file","image_file":{"data":["/9gA"]}}"#,
        r#"{"type":"image_url","image_url":{"url":"https://example.com/cat.jpg"}}"#,
        r#"{"type":"image_url","image_url":{"url":"/9gA"}}"#,
        r#"{"b64_json":17}"#,
        r#"["/9gA","data:text/plain;base64,/9gA"]"#,
        r#""/9gA""#,
    ] {
        let (result, asked) = stamp(body.as_bytes(), marking);
        assert!(asked.is_empty(), "{body}");
        assert_eq!(result, body.as_bytes());
    }
}

#[test]
fn rules_come_before_members_and_members_in_their_order() {
    let body = r#"{
        "z": "data:image/jpeg;base64,/9gB",
        "type": "image_file",
        "a": [{"b64_json": "/9gC"}, "data:image/jpeg;base64,/9gD"],
        "b64_json": "/9gE",
        "image_file": {"other": "data:image/jpeg;base64,/9gF", "data": "/9gG"}
    }"#;
    let (_, asked) = stamp(body.as_bytes(), marking);
    assert_eq!(
        asked,
        vec![jpeg(6), jpeg(4), jpeg(1), jpeg(2), jpeg(3), jpeg(5)]
    );
}

#[test]
fn base64_with_white_space_is_signed() {
    let (result, asked) = stamp(br#"{"b64_json":" /9gA\n"}"#, marking);
    assert_eq!(asked, vec![jpeg(0)]);
    let expected = format!(r#"{{"b64_json":"{}"}}"#, b64(&marked(jpeg(0))));
    assert_eq!(String::from_utf8(result).unwrap(), expected);
}

#[test]
fn unsigned_body_is_sent_byte_for_byte() {
    let body = br#" { "b64_json" : "/9gA" , "x" : 1.50 , "x" : [ ] }  "#;
    let (result, asked) = stamp(body, leaving);
    assert_eq!(asked, vec![jpeg(0)]);
    assert_eq!(result, body);
    let (result, asked) = stamp(body, failing);
    assert_eq!(asked, vec![jpeg(0)]);
    assert_eq!(result, body);
}

#[test]
fn only_images_change() {
    let body = r#"{"model":"gpt-4o","n":[0,-7,18446744073709551615,1.5,true,null],"choices":[{"message":{"content":"Hello world","role":"assistant"}}],"data":[{"b64_json":"/9gA","revised_prompt":"a cat"}]}"#;
    let (result, _) = stamp(body.as_bytes(), marking);
    let expected = body.replace("/9gA", &b64(&marked(jpeg(0))));
    assert_eq!(String::from_utf8(result).unwrap(), expected);
}

#[test]
fn mixed_answers_leave_the_signed_image() {
    let first = b64(&marked(jpeg(9)));
    let body = format!(r#"[{{"b64_json":"{first}"}},{{"b64_json":"/9gA"}}]"#);
    let (result, asked) = stamp(body.as_bytes(), marking);
    assert_eq!(asked, vec![marked(jpeg(9)), jpeg(0)]);
    let expected = body.replace("/9gA", &b64(&marked(jpeg(0))));
    assert_eq!(String::from_utf8(result).unwrap(), expected);
}

#[test]
fn body_is_not_stamped_twice() {
    let body = r#"{ "data": [{"b64_json": "/9gA"}, {"type": "image_url", "image_url": {"url": "data:image/png;base64,iVBORw=="}}, 1] }"#;
    let (first, _) = stamp(body.as_bytes(), marking);
    assert_ne!(first, body.as_bytes());
    let (second, asked) = stamp(&first, marking);
    assert!(!asked.is_empty());
    assert_eq!(first, second, "already-signed should not change again");
}

#[test]
fn stamped_body_is_read_back() {
    let body = r#"{"a\n\"é":[{"b64_json":"/9gA"},{},[],"\u0001"],"n":-3}"#;
    let (result, _) = stamp(body.as_bytes(), marking);
    let value = Json::from_slice(&result).expect("JSON");
    let items = match value.get("a\n\"é") {
        Some(Json::Array(items)) => items,
        other => panic!("{other:?}"),
    };
    let image = items[0].get("b64_json").and_then(Json::as_str).unwrap();
    assert_eq!(image, b64(&marked(jpeg(0))));
    assert_eq!(items[3].as_str(), Some("\u{1}"));
    assert_eq!(value.get("n"), Json::from_str("-3").ok().as_ref());
}

#[test]
fn deep_body_is_walked() {
    let body = format!(
        "{}{}{}",
        "[".repeat(126),
        r#"{"b64_json":"/9gA"}"#,
        "]".repeat(126)
    );
    let (result, asked) = stamp(body.as_bytes(), marking);
    assert_eq!(asked, vec![jpeg(0)]);
    assert!(Json::from_slice(&result).is_ok());
    let deeper = format!("[{body}]");
    let (result, asked) = stamp(deeper.as_bytes(), marking);
    assert!(asked.is_empty());
    assert_eq!(result, deeper.as_bytes());
}

#[test]
fn body_with_fractions_is_not_stamped_twice() {
    let body = r#"{"b64_json":"/9gA","n":[0.7,31.245270191439438,1e300,5e-324,-0.0,1.0]}"#;
    let (first, _) = stamp(body.as_bytes(), marking);
    assert_ne!(first, body.as_bytes());
    let (second, asked) = stamp(&first, marking);
    assert_eq!(asked, vec![marked(jpeg(0))]);
    assert_eq!(first, second);
}

#[test]
fn one_failure_sends_the_body_as_it_was() {
    let body = br#"{ "data": [ {"b64_json": "/9gA"}, {"b64_json": "/9gH"}, {"b64_json": "/9gB"} ] }"#;
    let (result, asked, error) = run(body, failing_on_seven);
    assert_eq!(asked, vec![jpeg(0), jpeg(7)]);
    assert_eq!(result, body);
    assert!(matches!(error, Some(BodyError::SigningFailed)));
    let (again, _, _) = run(&result, failing_on_seven);
    assert_eq!(again, body);
}

#[test]
fn a_failure_counts_before_and_after_a_signed_image() {
    for body in [
        r#"[{"b64_json":"/9gH"},{"b64_json":"/9gA"}]"#,
        r#"[{"b64_json":"/9gA"},"data:image/jpeg;base64,/9gH"]"#,
    ] {
        let (result, _, error) = run(body.as_bytes(), failing_on_seven);
        assert_eq!(result, body.as_bytes());
        assert!(matches!(error, Some(BodyError::SigningFailed)));
    }
}

#[test]
fn what_is_no_image_is_no_failure() {
    let body = r#"[{"b64_json":"!!!"},{"b64_json":"aGVsbG8="},{"b64_json":"/9gA"}]"#;
    let (result, asked, error) = run(body.as_bytes(), marking);
    assert_eq!(asked, vec![jpeg(0)]);
    assert!(error.is_none());
    let expected = body.replace("/9gA", &b64(&marked(jpeg(0))));
    assert_eq!(String::from_utf8(result).unwrap(), expected);
}

#[test]
fn what_is_no_json_is_reported() {
    let (result, asked, error) = run(b"{\"a\": tru", marking);
    assert_eq!(result, b"{\"a\": tru");
    assert!(asked.is_empty());
    match error {
        Some(BodyError::NotJson(refusal)) => {
            assert!(refusal.cause.to_string().contains("line 1"));
        }
        other => panic!("{other:?}"),
    }
}

#[test]
fn strings_change_only_where_they_are_picked() {
    let body = r#"{"type":"image_file","image_file":{"data":"/9gA","copy":"/9gA"},"data":"/9gA","x":["/9gA",{"url":"base64,/9gA"}],"image_url":{"url":"base64,/9gA"}}"#;
    let (result, asked) = stamp(body.as_bytes(), marking);
    assert_eq!(asked, vec![jpeg(0)]);
    let expected = body.replacen("/9gA", &b64(&marked(jpeg(0))), 1);
    assert_eq!(String::from_utf8(result).unwrap(), expected);
}
