use c2pa_stamping::image::Image;
use c2pa_stamping::json::Json;
use c2pa_stamping::walker::{stamp_images_in_value, Step};

fn parse(text: &str) -> Json {
    Json::from_str(text).expect("JSON")
}

#[test]
fn values_are_read() {
    assert_eq!(parse("null"), Json::Null);
    assert_eq!(parse(" true "), Json::Bool(true));
    assert_eq!(parse(r#""aA\n""#), Json::String("aA\n".to_owned()));
    assert_eq!(parse("[]"), Json::Array(vec![]));
    assert_eq!(
        parse(r#"{"b":[false],"a":{}}"#),
        Json::Object(vec![
            ("b".to_owned(), Json::Array(vec![Json::Bool(false)])),
            ("a".to_owned(), Json::Object(vec![])),
        ])
    );
    assert_eq!(
        parse("17"),
        Json::Number(serde_json::Number::from(17u8))
    );
}

#[test]
fn other_text_is_refused() {
    for text in ["", "not json", "{", "[1,]", "\"", "{\"a\":1}x", "nul"] {
        let error = Json::from_str(text).unwrap_err();
        assert!(error.cause.is_syntax() || error.cause.is_eof());
        let same = Json::from_slice(text.as_bytes()).unwrap_err();
        assert_eq!(error.cause.to_string(), same.cause.to_string());
    }
    assert!(Json::from_slice(b"\"\xFF\"").is_err());
    let error = Json::from_str("{\"a\" 1}").unwrap_err();
    assert_eq!(error.cause.to_string(), "expected `:` at line 1 column 6");
}

#[test]
fn the_last_of_two_equal_keys_counts() {
    assert_eq!(
        parse(r#"{"a":1,"b":2,"a":3}"#),
        parse(r#"{"a":3,"b":2}"#)
    );
}

#[test]
fn written_text_is_read_back() {
    for text in [
        "null",
        "[true,false,null]",
        "[0,-1,18446744073709551615,-9223372036854775808]",
        r#"{"z":{"y":[]},"a":"\"\\\u0000\u001f é 🎈"}"#,
    ] {
        let value = parse(text);
        let written = value.duplicate().into_string();
        assert_eq!(parse(&written), value);
        assert!(written.chars().all(|c| c >= ' '));
        assert_eq!(value.duplicate().into_vec(), written.as_bytes());
        assert_eq!(Json::from_slice(written.as_bytes()).ok(), Some(value));
    }
    assert_eq!(
        parse(r#" { "z" : 1 , "a" : [ "\n" ] } "#).into_string(),
        r#"{"z":1,"a":["\n"]}"#
    );
}

#[test]
fn copies_are_equal() {
    let value = parse(r#"{"a":[1,2.5,"x",{"b":null}],"c":true}"#);
    assert_eq!(value.duplicate(), value);
}

#[test]
fn members_are_found() {
    let value = parse(r#"{"a":{"b":"c"},"d":1}"#);
    assert_eq!(value.get("a").and_then(|a| a.get("b")), Some(&Json::String("c".to_owned())));
    assert_eq!(value.get("b"), None);
    assert_eq!(parse("[1]").get("0"), None);
    assert_eq!(value.get("a").and_then(Json::as_str), None);
    assert_eq!(parse("\"x\"").as_str(), Some("x"));
}

#[test]
fn members_are_changed_in_place() {
    let mut value = parse(r#"{"a":1,"b":2}"#);
    *value.get_mut("a").unwrap() = Json::Null;
    assert!(value.get_mut("c").is_none());
    assert_eq!(value, parse(r#"{"a":null,"b":2}"#));
    assert!(parse("\"a\"").get_mut("a").is_none());
}

fn bytes_of(image: &Image) -> Vec<u8> {
    image.bytes.clone()
}

#[test]
fn walk_counts_the_replaced_images() {
    let value = parse(r#"[{"b64_json":"/9gA"},{"b64_json":"/9gB"},{"b64_json":"/9gC"}]"#);
    let replies = [Some(vec![0xFF, 0xD8, 9]), None, Some(vec![])];
    let mut taken = 0;
    let mut step = stamp_images_in_value(value);
    loop {
        match step {
            Step::Sign(walk) => {
                assert_eq!(bytes_of(walk.image()), vec![0xFF, 0xD8, taken as u8]);
                assert_eq!(walk.image().extension, "jpg");
                step = walk.resume(replies[taken].clone());
                taken += 1;
            }
            Step::Done { value, stamped } => {
                assert_eq!(taken, 3);
                assert_eq!(stamped, 2);
                assert_eq!(
                    value,
                    parse(r#"[{"b64_json":"/9gJ"},{"b64_json":"/9gB"},{"b64_json":""}]"#)
                );
                return;
            }
        }
    }
}

#[test]
fn walk_without_an_image_is_over_at_once() {
    let text = r#"{"a":[1,"x",null,{"b64_json":"x"}],"type":"image_file"}"#;
    match stamp_images_in_value(parse(text)) {
        Step::Done { value, stamped } => {
            assert_eq!(stamped, 0);
            assert_eq!(value, parse(text));
        }
        Step::Sign(_) => panic!("there is no image"),
    }
}

/// A walk with a signer that signs all images but those that end with one.
fn walk(text: &str) -> (Json, usize) {
    let mut step = stamp_images_in_value(parse(text));
    loop {
        match step {
            Step::Sign(walk) => {
                let mut bytes = bytes_of(walk.image());
                let reply = if bytes.ends_with(&[1]) {
                    None
                } else {
                    bytes.push(9);
                    Some(bytes)
                };
                step = walk.resume(reply);
            }
            Step::Done { value, stamped } => return (value, stamped),
        }
    }
}

#[test]
fn an_array_is_walked_item_by_item() {
    let items = [
        r#"{"b64_json":"/9gA","x":"data:image/jpeg;base64,/9gC"}"#,
        r#"{"b64_json":"/9gB"}"#,
        r#"[{"b64_json":"/9gC"}]"#,
        "7",
    ];
    let mut expected = Vec::new();
    let mut sum = 0;
    for item in items {
        let (value, stamped) = walk(item);
        expected.push(value);
        sum += stamped;
    }
    assert_eq!(sum, 3);
    let (value, stamped) = walk(&format!("[{}]", items.join(",")));
    assert_eq!(stamped, sum);
    assert_eq!(value, Json::Array(expected));
}

#[test]
fn a_carriage_return_at_the_end_does_not_count() {
    for text in ["1\r", "{}\r", "\"a\"\r"] {
        assert_eq!(parse(text), parse(&text[..text.len() - 1]));
    }
    for text in ["\r", "tru\r", "\"a\r", "[DONE]\r", " [DONE] "] {
        assert!(Json::from_str(text).is_err());
        assert!(Json::from_str(text.trim_end_matches('\r')).is_err());
    }
}
