use c2pa_stamping::text::{find_bytes, lines};

#[test]
fn lines_end_at_line_feeds() {
    assert_eq!(lines("a\nb\n"), vec!["a", "b"]);
    assert_eq!(lines("a\nb"), vec!["a", "b"]);
    assert_eq!(lines("\n\n"), vec!["", ""]);
    assert_eq!(lines("a\r\nb\r\n"), vec!["a", "b"]);
    assert_eq!(lines("é\n🎈"), vec!["é", "🎈"]);
    assert!(lines("").is_empty());
}

#[test]
fn a_carriage_return_alone_ends_no_line() {
    assert_eq!(lines("a\rb\r\r\nc\r"), vec!["a\rb\r", "c\r"]);
    assert_eq!(lines("\r"), vec!["\r"]);
}

#[test]
fn lines_are_those_of_the_standard_library() {
    for text in ["", "\n", "a", "a\r\n\r\nb\r", "\r\n\n\r\n", "x\n\r\ny\n"] {
        let expected: Vec<&str> = text.lines().collect();
        assert_eq!(lines(text), expected);
    }
}

#[test]
fn the_first_occurrence_is_found() {
    assert_eq!(find_bytes(b"abcabc", b"bc"), Some(1));
    assert_eq!(find_bytes(b"aab", b"ab"), Some(1));
    assert_eq!(find_bytes(b"abc", b""), Some(0));
    assert_eq!(find_bytes(b"", b""), Some(0));
    assert_eq!(find_bytes(b"ab", b"abc"), None);
    assert_eq!(find_bytes(b"abab", b"ba "), None);
    assert_eq!(find_bytes(b"xyz", b"z"), Some(2));
}
