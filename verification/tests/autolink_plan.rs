use tryckeri::autolink_pass::autolink_replacements;
use tryckeri::autolink_plan::{autolink_node_plan, autolink_split_fits, split_text_with_autolinks, AutolinkNode, SourceSpan};
use tryckeri::source_map::text_to_source_map;

fn plan(text: &[u8], source: &[u8], start_line: u32, start_column: u32) -> Vec<AutolinkNode> {
    let map = text_to_source_map(text, source);
    let repls = autolink_replacements(text, map.as_deref(), source, false);
    let nodes = autolink_node_plan(text, source, map.as_deref(), &repls, start_line, start_column).unwrap();
    assert!(autolink_split_fits(text, source, false, start_line, start_column));
    assert_eq!(split_text_with_autolinks(text, source, false, start_line, start_column), Some(nodes.clone()));
    nodes
}

fn span(start: usize, end: usize, sl: u32, sc: u32, el: u32, ec: u32) -> Option<SourceSpan> {
    Some(SourceSpan {
        start,
        end,
        start_line: sl,
        start_column: sc,
        end_line: el,
        end_column: ec,
    })
}

#[test]
fn url_splits_text_into_three_positioned_nodes() {
    let text = b"see https://example.com here";
    assert_eq!(
        plan(text, text, 1, 1),
        vec![
            AutolinkNode::Text { start: 0, end: 4, position: span(0, 4, 1, 1, 1, 5) },
            AutolinkNode::Link {
                start: 4,
                end: 23,
                url: "https://example.com".to_string(),
                from_source: false,
                position: span(4, 23, 1, 5, 1, 24),
            },
            AutolinkNode::Text { start: 23, end: 28, position: span(23, 28, 1, 24, 1, 29) },
        ]
    );
}

#[test]
fn email_link_gets_mailto_and_positions() {
    let text = b"mail foo@bar.com now";
    assert_eq!(
        plan(text, text, 1, 1),
        vec![
            AutolinkNode::Text { start: 0, end: 5, position: span(0, 5, 1, 1, 1, 6) },
            AutolinkNode::Link {
                start: 5,
                end: 16,
                url: "mailto:foo@bar.com".to_string(),
                from_source: false,
                position: span(5, 16, 1, 6, 1, 17),
            },
            AutolinkNode::Text { start: 16, end: 20, position: span(16, 20, 1, 17, 1, 21) },
        ]
    );
}

#[test]
fn open_bracket_leaves_every_node_without_position() {
    let text = b"[https://foo.barq] x";
    assert_eq!(
        plan(text, text, 1, 1),
        vec![
            AutolinkNode::Text { start: 0, end: 1, position: None },
            AutolinkNode::Link {
                start: 1,
                end: 17,
                url: "https://foo.barq".to_string(),
                from_source: false,
                position: None,
            },
            AutolinkNode::Text { start: 17, end: 18, position: None },
            AutolinkNode::Text { start: 18, end: 20, position: None },
        ]
    );
}

#[test]
fn positions_follow_line_breaks_of_the_source() {
    let text = b"a\nhttps://x.com";
    assert_eq!(
        plan(text, text, 3, 2),
        vec![
            AutolinkNode::Text { start: 0, end: 2, position: span(0, 2, 3, 2, 4, 1) },
            AutolinkNode::Link {
                start: 2,
                end: 15,
                url: "https://x.com".to_string(),
                from_source: false,
                position: span(2, 15, 4, 1, 4, 14),
            },
        ]
    );
}

#[test]
fn escaped_url_keeps_its_raw_source_bytes() {
    let text = b"https://a.com/x*y";
    let source = b"https://a.com/x\\*y";
    assert_eq!(
        plan(text, source, 1, 1),
        vec![AutolinkNode::Link {
            start: 0,
            end: 17,
            url: "https://a.com/x\\*y".to_string(),
            from_source: true,
            position: span(0, 18, 1, 1, 1, 19),
        }]
    );
}

#[test]
fn text_without_autolinks_stays_as_it_is() {
    assert_eq!(split_text_with_autolinks(b"no links here", b"no links here", false, 1, 1), None);
    assert_eq!(split_text_with_autolinks(b"", b"", false, 1, 1), None);
}

#[test]
fn strict_domain_needs_a_dot_in_the_domain() {
    assert_eq!(split_text_with_autolinks(b"see http://localhost x", b"see http://localhost x", true, 1, 1), None);
    let nodes = split_text_with_autolinks(b"see http://localhost x", b"see http://localhost x", false, 1, 1).unwrap();
    assert_eq!(nodes.len(), 3);
}

#[test]
fn nodes_cover_the_whole_text() {
    let text = b"a https://x.com), then b@c.org and [www.y.org] end";
    let nodes = split_text_with_autolinks(text, text, false, 1, 1).unwrap();
    let mut at = 0;
    for n in &nodes {
        let (s, e) = match n {
            AutolinkNode::Text { start, end, .. } => (*start, *end),
            AutolinkNode::Link { start, end, .. } => (*start, *end),
        };
        assert_eq!(s, at);
        assert!(s < e);
        at = e;
    }
    assert_eq!(at, text.len());
}

#[test]
fn split_fits_without_links() {
    assert!(autolink_split_fits(b"no links here", b"no links here", false, 1, 1));
}

#[test]
fn split_does_not_fit_when_spans_pass_the_source_end() {
    let text = b"https://a.com xx";
    let source = b"https://a.com";
    assert!(!autolink_split_fits(text, source, false, 1, 1));
}
