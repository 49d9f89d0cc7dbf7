use kipclip::config::{appview_url, auth_store_path, session_info_path};
use kipclip::records::{
    bookmarks_from_records, has_bookmark_for, join_bookmarks, new_annotation, new_bookmark_record, next_page,
    note_annotation, page_limit, PageStep,
};
use kipclip::refs::rkey_from_uri;
use kipclip::types::{AnnotationRecord, BookmarkRecord, FetchedRecord, UrlMetadata};

fn bookmark_rec(rkey: &str, subject: &str) -> FetchedRecord<BookmarkRecord> {
    FetchedRecord {
        uri: format!("at://did:plc:abc/community.lexicon.bookmarks.bookmark/{rkey}"),
        cid: format!("cid-{rkey}"),
        value: Some(BookmarkRecord {
            subject: subject.to_string(),
            created_at: "2024-01-01T00:00:00Z".to_string(),
            tags: vec!["t".to_string()],
        }),
    }
}

fn annotation_rec(rkey: &str, title: Option<&str>) -> FetchedRecord<AnnotationRecord> {
    FetchedRecord {
        uri: format!("at://did:plc:abc/com.kipclip.annotation/{rkey}"),
        cid: "c".to_string(),
        value: Some(AnnotationRecord {
            subject: "s".to_string(),
            created_at: "now".to_string(),
            note: Some(format!("note {rkey}")),
            title: title.map(|t| t.to_string()),
            description: None,
            favicon: None,
            image: None,
        }),
    }
}

#[test]
fn bookmarks_join_the_last_readable_annotation_of_their_key() {
    let bookmarks = vec![bookmark_rec("aaaa", "https://a.example"), bookmark_rec("bbbb", "https://b.example")];
    let mut unreadable = annotation_rec("aaaa", None);
    unreadable.value = None;
    let annotations = vec![
        annotation_rec("aaaa", Some("old")),
        annotation_rec("cccc", Some("other")),
        annotation_rec("aaaa", Some("new")),
        unreadable,
    ];
    let joined = join_bookmarks(bookmarks, annotations);
    assert_eq!(joined.len(), 2);
    assert_eq!(joined[0].rkey, "aaaa");
    assert_eq!(joined[0].cid, "cid-aaaa");
    assert_eq!(joined[0].subject, "https://a.example");
    assert_eq!(joined[0].title.as_deref(), Some("new"));
    assert_eq!(joined[0].note.as_deref(), Some("note aaaa"));
    assert_eq!(joined[1].rkey, "bbbb");
    assert_eq!(joined[1].title, None);
    assert_eq!(joined[1].note, None);
}

#[test]
fn unreadable_bookmark_gets_empty_fields() {
    let mut rec = bookmark_rec("aaaa", "x");
    rec.value = None;
    let b = bookmarks_from_records(vec![rec]);
    assert_eq!(b[0].subject, "");
    assert_eq!(b[0].created_at, "");
    assert!(b[0].tags.is_empty());
    assert_eq!(b[0].rkey, "aaaa");
}

#[test]
fn duplicate_detection_compares_urls() {
    let b = bookmarks_from_records(vec![bookmark_rec("aaaa", "https://a.example")]);
    assert!(has_bookmark_for(&b, "https://a.example"));
    assert!(!has_bookmark_for(&b, "https://a.example/"));
}

#[test]
fn new_records_share_the_bookmark_key() {
    let r = new_bookmark_record("https://a.example", "2024", &vec!["x".to_string()]);
    assert_eq!(r.subject, "https://a.example");
    assert_eq!(r.tags, vec!["x".to_string()]);
    let uri = "at://did:plc:abc/community.lexicon.bookmarks.bookmark/3kzz";
    let meta = UrlMetadata { title: Some("T".to_string()), description: None, favicon: None, image: None };
    let (rkey, a) = new_annotation(uri, "2024", meta);
    assert_eq!(rkey, "3kzz");
    assert_eq!(a.subject, uri);
    assert_eq!(a.title.as_deref(), Some("T"));
    assert_eq!(a.note, None);
    let ann_uri = format!("at://did:plc:abc/com.kipclip.annotation/{rkey}");
    assert_eq!(rkey_from_uri(&ann_uri), rkey_from_uri(uri));
    let n = note_annotation(uri, "2024", Some("hi"));
    assert_eq!(n.note.as_deref(), Some("hi"));
    assert_eq!(note_annotation(uri, "2024", None).note, None);
}

#[test]
fn paging_follows_cursor_until_limit() {
    assert_eq!(page_limit(None), 100);
    assert_eq!(page_limit(Some(10)), 10);
    assert_eq!(page_limit(Some(500)), 100);
    assert_eq!(next_page(5, None, Some("c".to_string())), PageStep::Next("c".to_string()));
    assert_eq!(next_page(5, None, Some(String::new())), PageStep::Stop(5));
    assert_eq!(next_page(5, None, None), PageStep::Stop(5));
    assert_eq!(next_page(120, Some(50), Some("c".to_string())), PageStep::Stop(50));
    assert_eq!(next_page(20, Some(50), Some("c".to_string())), PageStep::Next("c".to_string()));
}

#[test]
fn config_files_sit_in_the_config_directory() {
    assert_eq!(auth_store_path("/home/u/.config/kipclip"), "/home/u/.config/kipclip/session.json");
    assert_eq!(session_info_path("/home/u/.config/kipclip/"), "/home/u/.config/kipclip/whoami.json");
    assert_eq!(auth_store_path(""), "session.json");
    assert_eq!(appview_url(None), "https://kipclip.com");
    assert_eq!(appview_url(Some("http://localhost:8000".to_string())), "http://localhost:8000");
}

#[test]
fn reads_with_and_without_annotations_agree() {
    let recs = || vec![bookmark_rec("aaaa", "https://a.example"), bookmark_rec("bbbb", "https://b.example")];
    let joined = join_bookmarks(recs(), vec![annotation_rec("aaaa", Some("T"))]);
    let plain = bookmarks_from_records(recs());
    assert_eq!(joined.len(), plain.len());
    for (o, e) in plain.iter().zip(joined.iter()) {
        assert_eq!((&o.uri, &o.cid, &o.rkey, &o.subject, &o.created_at, &o.tags), (&e.uri, &e.cid, &e.rkey, &e.subject, &e.created_at, &e.tags));
        assert_eq!((&o.title, &o.description, &o.favicon, &o.image, &o.note), (&None, &None, &None, &None, &None));
    }
    assert_eq!(joined[0].title.as_deref(), Some("T"));
}
