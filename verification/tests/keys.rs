use bote::keys::{compare, decode_escaped, decode_simple, is_escaped};

#[test]
fn compare_escape_free_matches_by_bytes_and_length() {
    assert_eq!(compare(b"name", "name"), Ok(true));
    assert_eq!(compare(b"name", "nope"), Ok(false)); // same length, different bytes
    assert_eq!(compare(b"name", "nam"), Ok(false)); // longer interior
    assert_eq!(compare(b"nam", "name"), Ok(false)); // shorter interior
    assert_eq!(compare(b"", ""), Ok(true));
    assert_eq!(compare(b"x", ""), Ok(false));
}

#[test]
fn compare_decodes_escaped_interiors() {
    // Interior `a\"b` decodes to `a"b`.
    assert_eq!(compare(br#"a\"b"#, "a\"b"), Ok(true));
    assert_eq!(compare(br#"a\"b"#, "axb"), Ok(false)); // decodes unequal
    assert_eq!(compare(br#"a\"bcd"#, "a\"b"), Ok(false)); // decodes longer
}

#[test]
fn compare_rejects_malformed_escape() {
    assert!(compare(br#"\x"#, "x").is_err());
}

#[test]
fn is_escaped_detects_a_backslash() {
    assert!(!is_escaped(b"name"));
    assert!(!is_escaped(b""));
    assert!(is_escaped(br#"a\"b"#));
}

#[test]
fn decode_simple_owns_escape_free_bytes_and_validates_utf8() {
    assert_eq!(decode_simple(b"name"), Ok("name".to_string()));
    assert_eq!(decode_simple(b""), Ok(String::new()));
    assert!(decode_simple(&[b'a', 0xFF]).is_err()); // invalid UTF-8
}

#[test]
fn decode_escaped_resolves_escapes() {
    assert_eq!(decode_escaped(br#"a\"b"#), Ok("a\"b".to_string())); // `a\"b` -> `a"b`
    assert!(decode_escaped(br#"\x"#).is_err()); // malformed escape
}

#[test]
fn compare_rejects_a_malformed_escape_of_any_length() {
    assert_eq!(compare(br#"\x"#, "abc"), Err(()));
    assert_eq!(compare(br#"\"#, "abc"), Err(()));
    // A short interior without escapes is a plain mismatch.
    assert_eq!(compare(b"ab", "abc"), Ok(false));
    // An escape stands for no more bytes than it takes.
    assert_eq!(compare(br#"\n"#, "abc"), Ok(false));
}
