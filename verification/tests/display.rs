use kipclip::display::{bookmark_row, column_widths, detail_lines, truncate, DetailField};
use kipclip::types::EnrichedBookmark;

fn sample() -> EnrichedBookmark {
    EnrichedBookmark {
        uri: "at://did:plc:abc/community.lexicon.bookmarks.bookmark/3kabcdefghij".to_string(),
        cid: "cid".to_string(),
        rkey: "3kabcdefghij".to_string(),
        subject: "https://example.com/a/long/path".to_string(),
        created_at: "2024-01-01T00:00:00Z".to_string(),
        tags: vec!["rust".to_string(), "reading".to_string()],
        title: None,
        description: Some("About things".to_string()),
        favicon: None,
        image: None,
        note: None,
    }
}

#[test]
fn truncate_keeps_what_fits() {
    assert_eq!(truncate("hello", 10), "hello");
    assert_eq!(truncate("hello", 5), "hello");
    assert_eq!(truncate("", 0), "");
}

#[test]
fn truncate_cuts_with_ellipsis() {
    assert_eq!(truncate("hello world", 5), "hell…");
    assert_eq!(truncate("ab", 0), "…");
    assert_eq!(truncate("ab", 1), "…");
}

#[test]
fn truncate_counts_wide_characters() {
    assert_eq!(truncate("日本語テキスト", 6), "日本…");
    assert_eq!(truncate("日本語テキスト", 14), "日本語テキスト");
}

#[test]
fn column_widths_split_the_rest_two_to_one() {
    let w = column_widths(Some(100));
    assert_eq!((w.title, w.url), (42, 21));
    let d = column_widths(None);
    assert_eq!((d.title, d.url), (42, 21));
    let s = column_widths(Some(30));
    assert_eq!((s.title, s.url), (0, 0));
    let b = column_widths(Some(200));
    assert_eq!((b.title, b.url), (109, 54));
}

#[test]
fn row_cells_are_cut_to_their_columns() {
    let b = sample();
    let row = bookmark_row(&b, &column_widths(Some(100)));
    assert_eq!(row.reference, "3kabcdef");
    assert_eq!(row.title, "https://example.com/a/long/path");
    assert_eq!(row.url, "https://example.com/…");
    assert_eq!(row.tags, "rust, reading");
    let narrow = bookmark_row(&b, &column_widths(Some(60)));
    assert_eq!(narrow.title, "https://example…");
    assert_eq!(narrow.url, "https:/…");
}

#[test]
fn detail_lists_present_fields_in_order() {
    let mut b = sample();
    b.note = Some("later".to_string());
    let lines = detail_lines(&b);
    let fields: Vec<DetailField> = lines.iter().map(|l| l.0).collect();
    assert_eq!(
        fields,
        vec![DetailField::Ref, DetailField::Url, DetailField::Description, DetailField::Tags, DetailField::Note, DetailField::Created]
    );
    assert_eq!(lines[3].1, "rust, reading");
    let mut plain = sample();
    plain.tags.clear();
    plain.description = None;
    plain.title = Some("T".to_string());
    let fields: Vec<DetailField> = detail_lines(&plain).iter().map(|l| l.0).collect();
    assert_eq!(fields, vec![DetailField::Ref, DetailField::Title, DetailField::Url, DetailField::Created]);
}
