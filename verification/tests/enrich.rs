use kipclip::enrich::{
    default_favicon, extract_meta_content, fallback_metadata, parse_html_metadata, resolve_url, sanitize_text,
    should_parse_body,
};
use kipclip::urls::{parse_url, validate_http_url, UrlError};

#[test]
fn sanitize_trims_and_collapses_white_space() {
    assert_eq!(sanitize_text("  Hello \t  World  ", 200), "Hello World");
    assert_eq!(sanitize_text("a\u{00A0}\u{2003}b", 200), "a b");
    assert_eq!(sanitize_text("", 200), "");
    assert_eq!(sanitize_text("   ", 200), "");
}

#[test]
fn sanitize_drops_control_characters_before_splitting() {
    assert_eq!(sanitize_text("  a \u{7}b\n\n c  ", 200), "a b c");
    // A line break between two words is a control character and goes away.
    assert_eq!(sanitize_text("x\ny", 200), "xy");
}

#[test]
fn sanitize_cuts_to_max_characters() {
    assert_eq!(sanitize_text("hello world", 7), "hello w");
    assert_eq!(sanitize_text("héllo", 2), "hé");
    assert_eq!(sanitize_text("hello", 0), "");
}

#[test]
fn meta_content_in_either_attribute_order() {
    let html = r#"<meta name="description" content="First"><meta content="Second" property="og:title">"#;
    assert_eq!(extract_meta_content(html, "name", "description").as_deref(), Some("First"));
    assert_eq!(extract_meta_content(html, "property", "og:title").as_deref(), Some("Second"));
    assert_eq!(extract_meta_content(html, "property", "og:image"), None);
}

#[test]
fn page_metadata_is_extracted() {
    let url = parse_url("https://example.com/a/b").unwrap();
    let html = "<html><head><title>  Hello\n\tWorld  </title>\
        <meta name=\"description\" content=\"A  page\">\
        <link rel=\"icon\" href=\"/fav.png\">\
        <meta property=\"og:image\" content=\"https://cdn.example.com/i.png\"></head></html>";
    let m = parse_html_metadata(html, &url);
    assert_eq!(m.title.as_deref(), Some("HelloWorld"));
    assert_eq!(m.description.as_deref(), Some("A page"));
    assert_eq!(m.favicon.as_deref(), Some("https://example.com/fav.png"));
    assert_eq!(m.image.as_deref(), Some("https://cdn.example.com/i.png"));
}

#[test]
fn page_metadata_falls_back() {
    let url = parse_url("https://example.com/x").unwrap();
    let html = r#"<meta content="OG Title" property="og:title">
        <meta property="og:description" content="OG desc">
        <meta property="og:image" content="javascript:alert(1)">
        <meta name="twitter:image" content="img/t.png">"#;
    let m = parse_html_metadata(html, &url);
    assert_eq!(m.title.as_deref(), Some("OG Title"));
    assert_eq!(m.description.as_deref(), Some("OG desc"));
    assert_eq!(m.favicon.as_deref(), Some("https://example.com/favicon.ico"));
    assert_eq!(m.image.as_deref(), Some("https://example.com/img/t.png"));
}

#[test]
fn page_without_metadata_is_named_by_host() {
    let url = parse_url("http://example.org:8080/page").unwrap();
    let m = parse_html_metadata("<html><body>nothing</body></html>", &url);
    assert_eq!(m.title.as_deref(), Some("example.org"));
    assert_eq!(m.description, None);
    assert_eq!(m.favicon.as_deref(), Some("http://example.org:8080/favicon.ico"));
    assert_eq!(m.image, None);
}

#[test]
fn favicon_defaults_to_origin() {
    assert_eq!(default_favicon(&parse_url("https://example.com/a/b?c").unwrap()), "https://example.com/favicon.ico");
    assert_eq!(default_favicon(&parse_url("http://example.com:80/").unwrap()), "http://example.com/favicon.ico");
    assert_eq!(default_favicon(&parse_url("https://example.com:8443/").unwrap()), "https://example.com:8443/favicon.ico");
}

#[test]
fn links_resolve_only_to_short_http_urls() {
    let base = parse_url("https://example.com/dir/page.html").unwrap();
    assert_eq!(resolve_url("img.png", &base).as_deref(), Some("https://example.com/dir/img.png"));
    assert_eq!(resolve_url("//cdn.example.net/x.png", &base).as_deref(), Some("https://cdn.example.net/x.png"));
    assert_eq!(resolve_url("data:image/png;base64,AAAA", &base), None);
    assert_eq!(resolve_url("ftp://example.com/x", &base), None);
    let long = format!("/{}", "a".repeat(2100));
    assert_eq!(resolve_url(&long, &base), None);
}

#[test]
fn fallback_metadata_uses_host_and_default_favicon() {
    let url = parse_url("https://example.com/doc.pdf").unwrap();
    let m = fallback_metadata("https://example.com/doc.pdf", &url);
    assert_eq!(m.title.as_deref(), Some("example.com"));
    assert_eq!(m.description, None);
    assert_eq!(m.favicon.as_deref(), Some("https://example.com/favicon.ico"));
    assert_eq!(m.image, None);
}

#[test]
fn only_successful_html_bodies_are_parsed() {
    assert!(should_parse_body(true, "text/html; charset=utf-8"));
    assert!(!should_parse_body(false, "text/html"));
    assert!(!should_parse_body(true, "application/json"));
    assert!(!should_parse_body(true, ""));
}

#[test]
fn only_http_urls_validate() {
    let u = validate_http_url("https://Example.com/a").unwrap();
    assert_eq!(u.scheme(), "https");
    assert_eq!(u.host(), Some("example.com"));
    assert_eq!(u.href(), "https://example.com/a");
    assert!(validate_http_url("http://example.com").is_ok());
    assert_eq!(validate_http_url("ftp://example.com").err(), Some(UrlError::NotHttp));
    assert_eq!(validate_http_url("mailto:a@example.com").err(), Some(UrlError::NotHttp));
    assert_eq!(validate_http_url("not a url").err(), Some(UrlError::Invalid));
}

#[test]
fn sanitizing_again_only_drops_a_trailing_space() {
    let once = sanitize_text("ab cd", 3);
    assert_eq!(once, "ab ");
    assert_eq!(sanitize_text(&once, 3), once.trim_end());
    let text = "  Title\twith   spaces ";
    for n in [0usize, 5, 6, 11, 100] {
        let s = sanitize_text(text, n);
        assert_eq!(sanitize_text(&s, n), s.trim_end());
    }
}

#[test]
fn a_smaller_limit_gives_a_prefix() {
    let text = "one two  three\tfour";
    for m in 0..20usize {
        for n in m..20usize {
            assert!(sanitize_text(text, n).starts_with(&sanitize_text(text, m)));
        }
    }
}
