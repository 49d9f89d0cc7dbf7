use kipclip::enrich::sanitize_text;
use kipclip::urls::{join_url, parse_url};

#[test]
fn parsed_url_parts() {
    let u = parse_url("HTTP://Example.COM:8080/a/b?x=1&y=two%20words#frag").unwrap();
    assert_eq!(u.scheme(), "http");
    assert_eq!(u.host(), Some("example.com"));
    assert_eq!(u.port(), Some(8080));
    assert_eq!(u.path(), "/a/b");
    assert_eq!(u.query_len(), 2);
    assert_eq!(u.query_pair(0), ("x", "1"));
    assert_eq!(u.query_pair(1), ("y", "two words"));
    assert_eq!(u.origin(), "http://example.com:8080");
    assert_eq!(u.href(), "http://example.com:8080/a/b?x=1&y=two%20words#frag");
}

#[test]
fn default_ports_are_known() {
    assert_eq!(parse_url("https://example.com").unwrap().port(), Some(443));
    assert_eq!(parse_url("http://example.com").unwrap().port(), Some(80));
    assert_eq!(parse_url("mailto:someone@example.com").unwrap().host(), None);
    assert!(parse_url("relative/path").is_none());
}

#[test]
fn joining_resolves_relative_references() {
    let base = parse_url("https://example.com/a/b").unwrap();
    assert_eq!(join_url(&base, "c").unwrap().href(), "https://example.com/a/c");
    assert_eq!(join_url(&base, "/d").unwrap().href(), "https://example.com/d");
    assert_eq!(join_url(&base, "http://other.example/").unwrap().href(), "http://other.example/");
}

#[test]
fn sanitized_text_has_no_control_characters_and_respects_the_limit() {
    let messy = "\u{1b}[31m  red\ttext \u{7f} with\r\nbreaks  and   spaces \u{0}";
    for max in [0usize, 3, 10, 200] {
        let s = sanitize_text(messy, max);
        assert!(s.chars().all(|c| !c.is_control()));
        assert!(s.chars().count() <= max);
    }
    assert_eq!(sanitize_text(messy, 200), "[31m redtext withbreaks and spaces");
}
