use kipclip::refs::{resolve_ref, rkey_from_uri, RefError};
use kipclip::types::EnrichedBookmark;

fn bookmark(rkey: &str) -> EnrichedBookmark {
    EnrichedBookmark {
        uri: format!("at://did:plc:abc/community.lexicon.bookmarks.bookmark/{rkey}"),
        cid: "cid".to_string(),
        rkey: rkey.to_string(),
        subject: format!("https://example.com/{rkey}"),
        created_at: "2024-01-01T00:00:00Z".to_string(),
        tags: vec![],
        title: None,
        description: None,
        favicon: None,
        image: None,
        note: None,
    }
}

#[test]
fn rkey_is_last_path_segment() {
    assert_eq!(rkey_from_uri("at://did:plc:abc/community.lexicon.bookmarks.bookmark/3kabc"), "3kabc");
    assert_eq!(rkey_from_uri("no-slash"), "no-slash");
    assert_eq!(rkey_from_uri("trailing/"), "");
    assert_eq!(rkey_from_uri(""), "");
}

#[test]
fn rkey_roundtrips_through_a_uri() {
    let base = "at://did:plc:xyz/com.kipclip.annotation";
    let key = "3lrk2x7q";
    assert_eq!(rkey_from_uri(&format!("{base}/{key}")), key);
}

#[test]
fn ref_needs_four_characters() {
    let bms = vec![bookmark("3kabcdef")];
    assert_eq!(resolve_ref("3ka", &bms).unwrap_err(), RefError::TooShort);
    assert_eq!(resolve_ref("", &bms).unwrap_err(), RefError::TooShort);
    assert_eq!(resolve_ref("3kab", &bms).unwrap().rkey, "3kabcdef");
}

#[test]
fn ref_resolution_outcomes() {
    let bms = vec![bookmark("3kabc111"), bookmark("3kabc222"), bookmark("3kxyz333")];
    assert_eq!(resolve_ref("3kxy", &bms).unwrap().rkey, "3kxyz333");
    assert_eq!(resolve_ref("3kabc2", &bms).unwrap().rkey, "3kabc222");
    assert_eq!(resolve_ref("3kab", &bms).unwrap_err(), RefError::Ambiguous(2));
    assert_eq!(resolve_ref("zzzz", &bms).unwrap_err(), RefError::NotFound);
    assert_eq!(resolve_ref("3kabc1111", &bms).unwrap_err(), RefError::NotFound);
}

#[test]
fn ref_counts_characters() {
    let bms = vec![bookmark("ééééx")];
    // Two characters are too short even though they take four bytes.
    assert_eq!(resolve_ref("éé", &bms).unwrap_err(), RefError::TooShort);
    assert_eq!(resolve_ref("éééé", &bms).unwrap().rkey, "ééééx");
}
