use c2pa_stamping::image::{detect_image_format, extract_data_uri_b64, extract_data_uri_mime};
use c2pa_stamping::image::{find_b64_image, find_data_uri_image, signed_b64, signed_data_uri};

#[test]
fn test_detect_image_format_jpeg() {
    assert_eq!(detect_image_format(&[0xFF, 0xD8, 0x00]), Some("jpg"));
}

#[test]
fn test_detect_image_format_png() {
    assert_eq!(
        detect_image_format(&[0x89, 0x50, 0x4E, 0x47, 0x00]),
        Some("png")
    );
}

#[test]
fn test_detect_image_format_unknown() {
    assert_eq!(detect_image_format(b"hello"), None);
}

#[test]
fn test_extract_data_uri_b64() {
    assert_eq!(
        extract_data_uri_b64("data:image/jpeg;base64,/9j/abc"),
        Some("/9j/abc")
    );
}

#[test]
fn test_extract_data_uri_b64_no_marker() {
    assert_eq!(extract_data_uri_b64("data:image/svg+xml,<svg/>"), None);
}

#[test]
fn test_extract_data_uri_mime() {
    assert_eq!(
        extract_data_uri_mime("data:image/png;base64,abc"),
        Some("image/png")
    );
}

#[test]
fn short_bytes_are_no_image() {
    assert_eq!(detect_image_format(&[]), None);
    assert_eq!(detect_image_format(&[0xFF]), None);
    assert_eq!(detect_image_format(&[0x89, 0x50, 0x4E]), None);
    assert_eq!(detect_image_format(&[0x89, 0x50, 0x4E, 0x48]), None);
    assert_eq!(detect_image_format(&[0xFF, 0xD8]), Some("jpg"));
    assert_eq!(detect_image_format(&[0x89, 0x50, 0x4E, 0x47]), Some("png"));
}

#[test]
fn payload_follows_the_first_comma() {
    assert_eq!(extract_data_uri_b64("data:;base64,a,b"), Some("a,b"));
    assert_eq!(extract_data_uri_b64("base64,"), Some(""));
    assert_eq!(extract_data_uri_b64("data:image/png;base64"), None);
    assert_eq!(extract_data_uri_b64("data:text,base64,abc"), None);
    assert_eq!(extract_data_uri_b64(""), None);
}

#[test]
fn mime_stands_before_the_first_semicolon() {
    assert_eq!(extract_data_uri_mime("data:;base64,abc"), Some(""));
    assert_eq!(
        extract_data_uri_mime("data:image/png;a=b;base64,abc"),
        Some("image/png")
    );
    assert_eq!(extract_data_uri_mime("data:image/png,abc"), None);
    assert_eq!(extract_data_uri_mime("image/png;base64,abc"), None);
    assert_eq!(extract_data_uri_mime("Data:image/png;base64,abc"), None);
}

#[test]
fn base64_image_is_found() {
    let image = find_b64_image("/9gA").expect("a JPEG");
    assert_eq!(image.bytes, vec![0xFF, 0xD8, 0x00]);
    assert_eq!(image.extension, "jpg");
    let image = find_b64_image("iVBORw==").expect("a PNG");
    assert_eq!(image.bytes, vec![0x89, 0x50, 0x4E, 0x47]);
    assert_eq!(image.extension, "png");
}

#[test]
fn white_space_around_base64_does_not_count() {
    for text in [" /9gA", "/9gA\r\n", "\t\u{a0}/9gA\u{3000}\u{2028}", "\u{85}/9gA "] {
        let image = find_b64_image(text).expect("a JPEG");
        assert_eq!(image.bytes, vec![0xFF, 0xD8, 0x00]);
    }
    assert!(find_b64_image("/9 gA").is_none());
    assert!(find_b64_image("\u{200b}/9gA").is_none());
}

#[test]
fn other_text_carries_no_image() {
    assert!(find_b64_image("").is_none());
    assert!(find_b64_image("aGVsbG8=").is_none());
    assert!(find_b64_image("/9g").is_none());
    assert!(find_b64_image("_9gA").is_none());
    assert!(find_b64_image("!!!not-valid-base64!!!").is_none());
}

#[test]
fn data_uri_image_is_found() {
    let image = find_data_uri_image("data:image/jpeg;base64, /9gA\n").expect("a JPEG");
    assert_eq!(image.bytes, vec![0xFF, 0xD8, 0x00]);
    assert_eq!(image.extension, "jpg");
    assert!(find_data_uri_image("data:image/jpeg,/9gA").is_none());
    assert!(find_data_uri_image("data:image/jpeg;base64,hello").is_none());
    assert!(find_data_uri_image("/9gA").is_none());
}

#[test]
fn signed_base64_reads_back() {
    assert_eq!(signed_b64(&[0xFF, 0xD8, 0x00]), "/9gA");
    assert_eq!(signed_b64(&[0x89, 0x50, 0x4E, 0x47]), "iVBORw==");
    assert_eq!(signed_b64(&[]), "");
    let signed: Vec<u8> = vec![0xFF, 0xD8, 1, 2, 3, 4, 5];
    let image = find_b64_image(&signed_b64(&signed)).expect("the signed image");
    assert_eq!(image.bytes, signed);
}

#[test]
fn signed_uri_keeps_the_media_type() {
    let signed = [0xFF, 0xD8, 0x07];
    let uri = signed_data_uri("data:image/webp;charset=x;base64,/9gA", &signed);
    assert_eq!(uri, "data:image/webp;base64,/9gH");
    assert_eq!(extract_data_uri_mime(&uri), Some("image/webp"));
    let image = find_data_uri_image(&uri).expect("the signed image");
    assert_eq!(image.bytes, signed);
}

#[test]
fn signed_uri_without_a_media_type_is_a_jpeg() {
    let uri = signed_data_uri("base64,/9gA", &[0xFF, 0xD8, 0x07]);
    assert_eq!(uri, "data:image/jpeg;base64,/9gH");
    let uri = signed_data_uri("data:;base64,/9gA", &[0xFF, 0xD8, 0x07]);
    assert_eq!(uri, "data:;base64,/9gH");
}
