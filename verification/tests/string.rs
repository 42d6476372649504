use kowito_json::KString;

#[test]
fn test_empty_string() {
    let s = KString::new(b"", false);
    assert_eq!(s.as_raw(), b"");
    assert!(!s.has_escapes());
    assert_eq!(s.decode(), "");
}

#[test]
fn test_basic_string() {
    let s = KString::new(b"hello world", false);
    assert_eq!(s.as_raw(), b"hello world");
    assert!(!s.has_escapes());
    assert_eq!(s.decode(), "hello world");
}

#[test]
fn test_simple_escapes() {
    let s = KString::new(br#"line\nbreak"#, true);
    assert!(s.has_escapes());
    assert_eq!(s.decode(), "line\nbreak");
}

#[test]
fn test_all_control_escapes() {
    let raw = br#"\"\/\b\f\n\r\t\\"#;
    let s = KString::new(raw, true);
    assert!(s.has_escapes());
    assert_eq!(
        s.decode(),
        "\"/\\x08\\x0C\n\r\t\\"
            .replace("\\x08", "\x08")
            .replace("\\x0C", "\x0C")
    );
}

#[test]
fn test_unicode_escape_skip() {
    let raw = br#"hello\u1234world"#;
    let s = KString::new(raw, true);
    assert!(s.has_escapes());
    assert_eq!(s.decode(), "helloworld");
}

#[test]
fn test_invalid_escape_at_end() {
    let raw = br#"hello\"#;
    let s = KString::new(raw, true);
    assert!(s.has_escapes());
    assert_eq!(s.decode(), "hello");
}

#[test]
fn kstring_unknown_escape_kept() {
    let s = KString::new(br#"a\qb"#, true);
    assert_eq!(s.decode(), "a\\qb");
}

#[test]
fn kstring_flag_false_keeps_backslashes() {
    let s = KString::new(br#"a\nb"#, false);
    assert_eq!(s.decode(), "a\\nb");
}

#[test]
fn kstring_short_unicode_escape_drops_rest() {
    let s = KString::new(br#"ab\u12"#, true);
    assert_eq!(s.decode(), "ab");
}
