use kipclip::bookmarks::{count_tags, filter_bookmarks, merge_tags, remove_tags, select_bookmarks};
use kipclip::types::EnrichedBookmark;

fn bm(rkey: &str, subject: &str, tags: &[&str]) -> EnrichedBookmark {
    EnrichedBookmark {
        uri: format!("at://did:plc:abc/community.lexicon.bookmarks.bookmark/{rkey}"),
        cid: "cid".to_string(),
        rkey: rkey.to_string(),
        subject: subject.to_string(),
        created_at: "2024-01-01T00:00:00Z".to_string(),
        tags: tags.iter().map(|t| t.to_string()).collect(),
        title: None,
        description: None,
        favicon: None,
        image: None,
        note: None,
    }
}

fn strings(v: &[&str]) -> Vec<String> {
    v.iter().map(|s| s.to_string()).collect()
}

fn sample() -> Vec<EnrichedBookmark> {
    let mut a = bm("aaaa1", "https://rust-lang.org", &["Rust", "lang"]);
    a.title = Some("The Rust Language".to_string());
    let mut b = bm("bbbb2", "https://example.com/page", &["reading"]);
    b.description = Some("A page about Gardening".to_string());
    let mut c = bm("cccc3", "https://news.example.org", &["rust", "news"]);
    c.note = Some("read later".to_string());
    vec![a, b, c]
}

fn rkeys(v: &[EnrichedBookmark]) -> Vec<String> {
    v.iter().map(|b| b.rkey.clone()).collect()
}

#[test]
fn filter_without_criteria_keeps_everything() {
    let all = sample();
    assert_eq!(filter_bookmarks(all.clone(), None, None), all);
}

#[test]
fn filter_by_tag_ignores_case() {
    let r = filter_bookmarks(sample(), Some("RUST"), None);
    assert_eq!(rkeys(&r), strings(&["aaaa1", "cccc3"]));
    let r = filter_bookmarks(sample(), Some("missing"), None);
    assert!(r.is_empty());
}

#[test]
fn search_looks_at_title_url_description_and_note() {
    assert_eq!(rkeys(&filter_bookmarks(sample(), None, Some("rust language"))), strings(&["aaaa1"]));
    assert_eq!(rkeys(&filter_bookmarks(sample(), None, Some("EXAMPLE"))), strings(&["bbbb2", "cccc3"]));
    assert_eq!(rkeys(&filter_bookmarks(sample(), None, Some("gardening"))), strings(&["bbbb2"]));
    assert_eq!(rkeys(&filter_bookmarks(sample(), None, Some("LATER"))), strings(&["cccc3"]));
    assert!(filter_bookmarks(sample(), None, Some("nothing here")).is_empty());
}

#[test]
fn tag_and_search_combine() {
    let r = filter_bookmarks(sample(), Some("rust"), Some("news"));
    assert_eq!(rkeys(&r), strings(&["cccc3"]));
}

#[test]
fn select_applies_limit_after_filtering() {
    assert_eq!(rkeys(&select_bookmarks(sample(), None, None, Some(2))), strings(&["aaaa1", "bbbb2"]));
    assert_eq!(rkeys(&select_bookmarks(sample(), Some("rust"), None, Some(1))), strings(&["aaaa1"]));
    assert_eq!(select_bookmarks(sample(), None, None, Some(10)).len(), 3);
    assert!(select_bookmarks(sample(), None, None, Some(0)).is_empty());
}

#[test]
fn merge_skips_tags_already_present() {
    let r = merge_tags(&strings(&["rust", "Web"]), &strings(&["web", "go", "GO"]));
    assert_eq!(r, strings(&["rust", "Web", "go"]));
}

#[test]
fn merge_twice_changes_nothing() {
    let once = merge_tags(&strings(&["a"]), &strings(&["b", "A", "c"]));
    let twice = merge_tags(&once, &strings(&["b", "A", "c"]));
    assert_eq!(once, strings(&["a", "b", "c"]));
    assert_eq!(twice, once);
}

#[test]
fn remove_ignores_case_and_keeps_order() {
    let r = remove_tags(&strings(&["rust", "Web", "go", "web"]), &strings(&["WEB"]));
    assert_eq!(r, strings(&["rust", "go"]));
    assert_eq!(remove_tags(&r, &strings(&["WEB"])), r);
}

#[test]
fn untag_after_tag_equals_untag() {
    let existing = strings(&["rust", "news"]);
    let added = strings(&["News", "go"]);
    let after = remove_tags(&merge_tags(&existing, &added), &added);
    assert_eq!(after, remove_tags(&existing, &added));
    assert_eq!(after, strings(&["rust"]));
}

#[test]
fn tag_counts_are_sorted_and_complete() {
    let bms = vec![
        bm("aaaa", "u1", &["rust", "web"]),
        bm("bbbb", "u2", &["rust"]),
        bm("cccc", "u3", &["Zeta", "alpha"]),
        bm("dddd", "u4", &[]),
    ];
    let counts = count_tags(&bms);
    let expected: Vec<(String, usize)> = vec![
        ("Zeta".to_string(), 1),
        ("alpha".to_string(), 1),
        ("rust".to_string(), 2),
        ("web".to_string(), 1),
    ];
    assert_eq!(counts, expected);
    let total: usize = counts.iter().map(|c| c.1).sum();
    assert_eq!(total, 5);
}

#[test]
fn tag_counts_of_nothing_are_empty() {
    assert!(count_tags(&vec![]).is_empty());
    assert!(count_tags(&vec![bm("aaaa", "u", &[])]).is_empty());
}

#[test]
fn tag_counts_count_repeats_within_a_bookmark() {
    let counts = count_tags(&vec![bm("aaaa", "u", &["x", "x", "é", "e"])]);
    let expected: Vec<(String, usize)> = vec![("e".to_string(), 1), ("x".to_string(), 2), ("é".to_string(), 1)];
    assert_eq!(counts, expected);
}

#[test]
fn empty_search_keeps_every_bookmark() {
    let all = sample();
    assert_eq!(filter_bookmarks(all.clone(), None, Some("")), all);
    assert_eq!(
        rkeys(&filter_bookmarks(sample(), Some("rust"), Some(""))),
        rkeys(&filter_bookmarks(sample(), Some("rust"), None))
    );
}

#[test]
fn filters_compose_in_either_order_and_are_idempotent() {
    let both = filter_bookmarks(sample(), Some("rust"), Some("news"));
    let tag_then_search = filter_bookmarks(filter_bookmarks(sample(), Some("rust"), None), None, Some("news"));
    let search_then_tag = filter_bookmarks(filter_bookmarks(sample(), None, Some("news")), Some("rust"), None);
    assert_eq!(both, tag_then_search);
    assert_eq!(both, search_then_tag);
    assert_eq!(filter_bookmarks(both.clone(), Some("rust"), Some("news")), both);
}
