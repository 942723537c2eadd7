use tryckeri::autolink_pass::{bracket_open_at, fnr_domain_rejected, url_search_end, url_trail_end};
use tryckeri::source_map::text_to_source_map;

#[test]
fn identical_text_maps_to_itself() {
    assert_eq!(text_to_source_map(b"abc", b"abc"), Some(vec![0, 1, 2, 3]));
}

#[test]
fn escapes_are_skipped() {
    assert_eq!(text_to_source_map(b"a*b", b"a\\*b"), Some(vec![0, 2, 3, 4]));
}

#[test]
fn trailing_blanks_before_a_line_ending_are_skipped() {
    assert_eq!(text_to_source_map(b"a\nb", b"a  \nb"), Some(vec![0, 3, 4, 5]));
}

#[test]
fn continuation_indentation_is_skipped() {
    assert_eq!(text_to_source_map(b"a\nb", b"a\n  b"), Some(vec![0, 1, 4, 5]));
}

#[test]
fn blockquote_markers_are_skipped() {
    assert_eq!(text_to_source_map(b"a\nb", b"a\n> b"), Some(vec![0, 1, 4, 5]));
}

#[test]
fn other_differences_give_no_map() {
    assert_eq!(text_to_source_map(b"abc", b"xbc"), None);
    assert_eq!(text_to_source_map(b"a", b""), None);
    assert_eq!(text_to_source_map(b"", b""), Some(vec![0]));
}

#[test]
fn open_bracket_before_candidate() {
    assert!(bracket_open_at(b"[a https", None, b"", false, 3));
    assert!(!bracket_open_at(b"[a] https", None, b"", false, 4));
    assert!(!bracket_open_at(b"\\[ x", None, b"", false, 3));
    assert!(bracket_open_at(b"x", None, b"", true, 1));
    assert!(!bracket_open_at(b"] x", None, b"", true, 2));
}

#[test]
fn bracket_escaped_in_source_does_not_count() {
    let map = [1usize, 2, 3];
    assert!(!bracket_open_at(b"[x", Some(&map), b"\\[x", false, 2));
    let plain = [0usize, 1, 2];
    assert!(bracket_open_at(b"[x", Some(&plain), b"[x", false, 2));
}

#[test]
fn find_and_replace_domain_check() {
    assert!(!fnr_domain_rejected(b"https://example.com/x", 0));
    assert!(fnr_domain_rejected(b"http://localhost/x", 0));
    assert!(fnr_domain_rejected(b"www.a_b.com", 0));
}

#[test]
fn trail_runs_over_punctuation_but_not_parentheses() {
    let b = b"x.com).,;!z";
    assert_eq!(url_trail_end(b, 6), 10);
    assert_eq!(url_trail_end(b, 5), 5);
}

#[test]
fn url_stops_before_a_code_span() {
    assert_eq!(url_search_end(b"a`b`c", 0, 5), 1);
    assert_eq!(url_search_end(b"a``b`c", 0, 6), 6);
}

use tryckeri::autolink_pass::{autolink_candidates, autolink_replacements, Candidate, Replacement};

#[test]
fn candidates_find_urls_and_emails_in_order() {
    assert_eq!(
        autolink_candidates(b"see https://example.com/path. ok", None, b"", false),
        vec![Candidate {
            start: 4,
            raw_end: 29,
            end: 28,
            url: "https://example.com/path".to_string(),
            is_email: false,
            fnr_only: false,
        }]
    );
    assert_eq!(
        autolink_candidates(b"mail foo.bar@example.com.", None, b"", false),
        vec![Candidate {
            start: 5,
            raw_end: 24,
            end: 24,
            url: "mailto:foo.bar@example.com".to_string(),
            is_email: true,
            fnr_only: false,
        }]
    );
    assert!(autolink_candidates(b"nothing here", None, b"", false).is_empty());
}

#[test]
fn url_after_open_bracket_is_marked_and_its_trail_kept() {
    assert_eq!(
        autolink_replacements(b"[https://example.com/path. ok", None, b"", false),
        vec![Replacement {
            start: 1,
            raw_end: 26,
            end: 25,
            url: "https://example.com/path".to_string(),
            is_email: false,
            fnr_only: false,
            bracket_open: true,
        }]
    );
}

#[test]
fn loose_previous_character_inside_open_bracket_drops_the_url() {
    assert!(autolink_replacements(b"[0https://ab.com", None, b"", false).is_empty());
    let r = autolink_replacements(b"0https://ab.com", None, b"", false);
    assert_eq!(r.len(), 1);
    assert_eq!(r[0].start, 1);
    assert!(!r[0].bracket_open);
}

#[test]
fn trail_after_url_in_open_bracket_extends_raw_end() {
    assert_eq!(
        autolink_replacements(b"[https://foo.barq] x", None, b"", false),
        vec![Replacement {
            start: 1,
            raw_end: 18,
            end: 17,
            url: "https://foo.barq".to_string(),
            is_email: false,
            fnr_only: false,
            bracket_open: true,
        }]
    );
}

use tryckeri::source_map::{line_col_in, url_in_source};

#[test]
fn line_and_column_count_characters_and_line_endings() {
    assert_eq!(line_col_in(b"ab\ncd", 4, 1, 1), (2, 2));
    assert_eq!(line_col_in(b"a\r\nb", 4, 3, 5), (4, 2));
    assert_eq!(line_col_in("\u{e9}x".as_bytes(), 3, 1, 1), (1, 3));
    assert_eq!(line_col_in(b"abc", 0, 7, 9), (7, 9));
}

#[test]
fn url_found_verbatim_in_source() {
    assert!(url_in_source(b"see https://x.y", b"https://x.y"));
    assert!(!url_in_source(b"", b"a"));
    assert!(!url_in_source(b"abc", b"abd"));
    assert!(!url_in_source(b"ab", b"abc"));
}
