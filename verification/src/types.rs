//! Record types of the bookmark and annotation collections, and the joined
//! view of a bookmark that the commands work on.

use vstd::prelude::*;

verus! {

/// Collection of bookmark records (`community.lexicon.bookmarks.bookmark`).
pub const BOOKMARK_COLLECTION: &'static str = "community.lexicon.bookmarks.bookmark";

/// Collection of annotation sidecar records (`com.kipclip.annotation`).
pub const ANNOTATION_COLLECTION: &'static str = "com.kipclip.annotation";

/// Bookmark record stored on the PDS.
#[derive(Debug, Clone, PartialEq, Eq)]
pub struct BookmarkRecord {
    pub subject: String,
    pub created_at: String,
    pub tags: Vec<String>,
}

/// Annotation sidecar record; it shares the record key of its bookmark.
#[derive(Debug, Clone, PartialEq, Eq)]
pub struct AnnotationRecord {
    pub subject: String,
    pub created_at: String,
    pub note: Option<String>,
    pub title: Option<String>,
    pub description: Option<String>,
    pub favicon: Option<String>,
    pub image: Option<String>,
}

/// Metadata extracted from a bookmarked page.
#[derive(Debug, Clone, PartialEq, Eq)]
pub struct UrlMetadata {
    pub title: Option<String>,
    pub description: Option<String>,
    pub favicon: Option<String>,
    pub image: Option<String>,
}

/// A bookmark joined with the fields of its annotation.
#[derive(Debug, Clone, PartialEq, Eq)]
pub struct EnrichedBookmark {
    pub uri: String,
    pub cid: String,
    pub rkey: String,
    pub subject: String,
    pub created_at: String,
    pub tags: Vec<String>,
    pub title: Option<String>,
    pub description: Option<String>,
    pub favicon: Option<String>,
    pub image: Option<String>,
    pub note: Option<String>,
}

/// What the PDS answers to a record creation.
#[derive(Debug, Clone, PartialEq, Eq)]
pub struct CreateRecordResponse {
    pub uri: String,
}

/// Session information kept beside the OAuth tokens.
#[derive(Debug, Clone, PartialEq, Eq)]
pub struct SessionInfo {
    pub did: String,
    pub handle: String,
    pub session_id: String,
}

impl EnrichedBookmark {
    /// The name a bookmark is shown by: its title, else its URL.
    pub fn display_title(&self) -> (r: &str)
        ensures
            r@ == match self.title {
                Some(t) => t@,
                None => self.subject@,
            },
    {
        match &self.title {
            Some(t) => t.as_str(),
            None => self.subject.as_str(),
        }
    }
}

/// A record as listed from a collection: its URI and CID, and its value
/// read as `T` (`None` when the stored value does not have that shape).
#[derive(Debug, Clone, PartialEq, Eq)]
pub struct FetchedRecord<T> {
    pub uri: String,
    pub cid: String,
    pub value: Option<T>,
}

/// The view of an optional string.
pub open spec fn opt_view(o: Option<String>) -> Option<Seq<char>> {
    match o {
        Some(s) => Some(s@),
        None => None,
    }
}

} // verus!
