use tryckeri::autolink::{
    domain_has_dot, is_email_local_char, prev_is_loose_only, scan_autolink_literal,
    scan_email_autolink, update_bracket_depth,
};

#[test]
fn url_with_trailing_period_is_trimmed() {
    let b = b"see https://example.com/path. ok";
    assert_eq!(
        scan_autolink_literal(b, 4),
        Some((4, 29, 28, "https://example.com/path".to_string(), false))
    );
}

#[test]
fn www_url_gets_http_scheme() {
    assert_eq!(
        scan_autolink_literal(b"www.example.com", 0),
        Some((0, 15, 15, "http://www.example.com".to_string(), false))
    );
    assert_eq!(scan_autolink_literal(b"www.", 0), None);
    assert_eq!(scan_autolink_literal(b"www.example", 0), None);
}

#[test]
fn letter_before_scheme_rejects() {
    assert_eq!(scan_autolink_literal(b"xhttps://a.b", 1), None);
    assert_eq!(scan_autolink_literal(b"ftp://a.b", 0), None);
}

#[test]
fn unbalanced_closing_paren_is_trimmed() {
    let b = b"https://en.wikipedia.org/wiki/Foo_(bar))";
    assert_eq!(
        scan_autolink_literal(b, 0),
        Some((0, 40, 39, "https://en.wikipedia.org/wiki/Foo_(bar)".to_string(), false))
    );
}

#[test]
fn bracket_before_resource_ends_url() {
    let b = b"https://example.com/?q=](uri)";
    let r = scan_autolink_literal(b, 0).unwrap();
    assert_eq!(r.1, 23);
    assert_eq!(r.3, "https://example.com/?q=");
}

#[test]
fn find_and_replace_only_match() {
    assert_eq!(
        scan_autolink_literal(b"https://.foo", 0),
        Some((0, 12, 12, "https://.foo".to_string(), true))
    );
}

#[test]
fn digit_before_and_underscore_domain_rejects() {
    assert_eq!(scan_autolink_literal(b"0https://a_b.com", 1), None);
    assert!(scan_autolink_literal(b"0https://ab.com", 1).is_some());
}

#[test]
fn email_with_trailing_dot() {
    let b = b"mail foo.bar@example.com.";
    assert_eq!(
        scan_email_autolink(b, 12),
        Some((5, 24, "mailto:foo.bar@example.com".to_string(), false))
    );
}

#[test]
fn email_rejections() {
    assert_eq!(scan_email_autolink(b"a/b@c.de", 3), None);
    assert_eq!(scan_email_autolink(b"x@y.c1", 1), None);
    assert_eq!(scan_email_autolink(b"x@y_z.com", 1), None);
    assert_eq!(scan_email_autolink(b"x@localhost", 1), None);
    assert_eq!(scan_email_autolink(b"@a.com", 0), None);
    assert_eq!(scan_email_autolink(b"x@a.com", 0), None);
}

#[test]
fn email_after_slash_retries_shorter_start() {
    // `/` before the longest local part: the start moves past `+`.
    assert_eq!(
        scan_email_autolink(b"/a+b@c.de", 4),
        Some((3, 9, "mailto:b@c.de".to_string(), true))
    );
}

#[test]
fn email_local_chars() {
    assert!(is_email_local_char(b'a'));
    assert!(is_email_local_char(b'+'));
    assert!(!is_email_local_char(b'@'));
    assert!(!is_email_local_char(b'/'));
}

#[test]
fn domain_dot_checks() {
    assert!(domain_has_dot("https://example.com/x"));
    assert!(!domain_has_dot("https://localhost/a.b"));
    assert!(domain_has_dot("a.b"));
    assert!(!domain_has_dot("http://x?y.z"));
}

#[test]
fn bracket_depth_fold() {
    assert!(update_bracket_depth(false, "[a"));
    assert!(!update_bracket_depth(false, "[a]"));
    assert!(!update_bracket_depth(true, "]"));
    assert!(!update_bracket_depth(false, "\\["));
    assert!(update_bracket_depth(true, "x"));
    assert!(!update_bracket_depth(false, "]"));
    assert!(update_bracket_depth(false, "[[]"));
}

#[test]
fn previous_character_classes() {
    assert!(prev_is_loose_only(b"0x", 1));
    assert!(!prev_is_loose_only(b" x", 1));
    assert!(!prev_is_loose_only(b"ax", 1));
    assert!(!prev_is_loose_only(b"x", 0));
    assert!(!prev_is_loose_only("éx".as_bytes(), 2));
    assert!(prev_is_loose_only("\u{663}x".as_bytes(), 2));
}
