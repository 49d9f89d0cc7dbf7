//! Joining the bookmark and annotation collections, building the records
//! that adding and annotating a bookmark write, and paging through a
//! collection listing.

use vstd::prelude::*;

use crate::refs::{last_segment, rkey_from_uri};
use crate::text::{copy_string, str_eq, views};
use crate::types::{opt_view, AnnotationRecord, BookmarkRecord, EnrichedBookmark, FetchedRecord, UrlMetadata};

verus! {

/// The annotation that a bookmark with record key `rkey` is joined with:
/// the last readable annotation record with that key.
pub open spec fn annotation_for(anns: Seq<FetchedRecord<AnnotationRecord>>, rkey: Seq<char>) -> Option<AnnotationRecord>
    decreases anns.len(),
{
    if anns.len() == 0 {
        None
    } else if anns.last().value is Some && last_segment(anns.last().uri@) == rkey {
        anns.last().value
    } else {
        annotation_for(anns.drop_last(), rkey)
    }
}

/// `e` is the bookmark record `rec` joined with annotation `a`.
pub open spec fn joined(e: EnrichedBookmark, rec: FetchedRecord<BookmarkRecord>, a: Option<AnnotationRecord>) -> bool {
    &&& e.uri@ == rec.uri@
    &&& e.cid@ == rec.cid@
    &&& e.rkey@ == last_segment(rec.uri@)
    &&& match rec.value {
        Some(b) => e.subject@ == b.subject@ && e.created_at@ == b.created_at@ && views(e.tags@) == views(b.tags@),
        None => e.subject@.len() == 0 && e.created_at@.len() == 0 && e.tags@.len() == 0,
    }
    &&& match a {
        Some(a) => {
            &&& opt_view(e.title) == opt_view(a.title)
            &&& opt_view(e.description) == opt_view(a.description)
            &&& opt_view(e.favicon) == opt_view(a.favicon)
            &&& opt_view(e.image) == opt_view(a.image)
            &&& opt_view(e.note) == opt_view(a.note)
        },
        None => e.title is None && e.description is None && e.favicon is None && e.image is None && e.note is None,
    }
}

fn copy_opt(o: &Option<String>) -> (r: Option<String>)
    ensures
        opt_view(r) == opt_view(*o),
{
    match o {
        Some(s) => Some(copy_string(s)),
        None => None,
    }
}

fn find_annotation<'a>(
    anns: &'a Vec<FetchedRecord<AnnotationRecord>>,
    keys: &Vec<String>,
    rkey: &str,
) -> (r: Option<&'a AnnotationRecord>)
    requires
        keys@.len() == anns@.len(),
        forall|j: int| 0 <= j < anns@.len() ==> (#[trigger] keys@[j])@ == last_segment(anns@[j].uri@),
    ensures
        r is Some <==> annotation_for(anns@, rkey@) is Some,
        r matches Some(a) ==> *a == annotation_for(anns@, rkey@)->0,
{
    let mut j: usize = anns.len();
    assert(anns@.take(j as int) =~= anns@);
    while j > 0
        invariant
            0 <= j <= anns@.len(),
            keys@.len() == anns@.len(),
            forall|i: int| 0 <= i < anns@.len() ==> (#[trigger] keys@[i])@ == last_segment(anns@[i].uri@),
            annotation_for(anns@, rkey@) == annotation_for(anns@.take(j as int), rkey@),
        decreases j,
    {
        let ghost t = anns@.take(j as int);
        assert(t.drop_last() =~= anns@.take(j - 1));
        assert(t.last() == anns@[j - 1]);
        if anns[j - 1].value.is_some() && str_eq(keys[j - 1].as_str(), rkey) {
            return anns[j - 1].value.as_ref();
        }
        j -= 1;
    }
    None
}

/// Joins bookmark records with their annotations by record key, keeping the
/// order of the bookmarks. A bookmark whose value cannot be read gets empty
/// fields; an annotation whose value cannot be read is passed over.
pub fn join_bookmarks(
    bookmarks: Vec<FetchedRecord<BookmarkRecord>>,
    annotations: Vec<FetchedRecord<AnnotationRecord>>,
) -> (r: Vec<EnrichedBookmark>)
    ensures
        r@.len() == bookmarks@.len(),
        forall|i: int| 0 <= i < r@.len() ==> joined(
            #[trigger] r@[i],
            bookmarks@[i],
            annotation_for(annotations@, last_segment(bookmarks@[i].uri@)),
        ),
{
    let mut keys: Vec<String> = Vec::new();
    let mut j: usize = 0;
    while j < annotations.len()
        invariant
            0 <= j <= annotations@.len(),
            keys@.len() == j,
            forall|i: int| 0 <= i < j ==> (#[trigger] keys@[i])@ == last_segment(annotations@[i].uri@),
        decreases annotations@.len() - j,
    {
        keys.push(rkey_from_uri(annotations[j].uri.as_str()));
        j += 1;
    }
    let ghost bms = bookmarks@;
    let mut out: Vec<EnrichedBookmark> = Vec::new();
    for rec in it: bookmarks
        invariant
            it.seq() == bms,
            keys@.len() == annotations@.len(),
            forall|i: int| 0 <= i < annotations@.len() ==> (#[trigger] keys@[i])@ == last_segment(annotations@[i].uri@),
            out@.len() == it.index(),
            forall|i: int| 0 <= i < it.index() ==> joined(
                #[trigger] out@[i],
                bms[i],
                annotation_for(annotations@, last_segment(bms[i].uri@)),
            ),
    {
        let ghost k = it.index();
        assert(rec == bms[k as int]);
        let rkey = rkey_from_uri(rec.uri.as_str());
        let ann = find_annotation(&annotations, &keys, rkey.as_str());
        let (title, description, favicon, image, note) = match ann {
            Some(a) => (copy_opt(&a.title), copy_opt(&a.description), copy_opt(&a.favicon), copy_opt(&a.image), copy_opt(&a.note)),
            None => (None, None, None, None, None),
        };
        let FetchedRecord { uri, cid, value } = rec;
        let (subject, created_at, tags) = match value {
            Some(b) => (b.subject, b.created_at, b.tags),
            None => (String::new(), String::new(), Vec::new()),
        };
        let e = EnrichedBookmark { uri, cid, rkey, subject, created_at, tags, title, description, favicon, image, note };
        assert(joined(e, bms[k as int], annotation_for(annotations@, last_segment(bms[k as int].uri@))));
        out.push(e);
    }
    out
}

/// An annotation stored under the record key of a bookmark (its URI is a
/// collection, `/` and that key) is the one the bookmark is joined with,
/// when it is the last readable one listed.
pub proof fn lemma_annotation_pairs_with_bookmark(
    anns: Seq<FetchedRecord<AnnotationRecord>>,
    collection: Seq<char>,
    bookmark_uri: Seq<char>,
    rec: FetchedRecord<AnnotationRecord>,
)
    requires
        rec.uri@ == collection.push('/') + last_segment(bookmark_uri),
        rec.value is Some,
    ensures
        annotation_for(anns.push(rec), last_segment(bookmark_uri)) == rec.value,
{
    crate::refs::lemma_last_segment_has_no_slash(bookmark_uri);
    crate::refs::lemma_rkey_of_appended_key(collection, last_segment(bookmark_uri));
    assert(anns.push(rec).last() == rec);
}

/// Bookmark records as bookmarks without annotation fields.
pub fn bookmarks_from_records(bookmarks: Vec<FetchedRecord<BookmarkRecord>>) -> (r: Vec<EnrichedBookmark>)
    ensures
        r@.len() == bookmarks@.len(),
        forall|i: int| 0 <= i < r@.len() ==> joined(#[trigger] r@[i], bookmarks@[i], None),
{
    let ghost bms = bookmarks@;
    let empty: Vec<FetchedRecord<AnnotationRecord>> = Vec::new();
    let r = join_bookmarks(bookmarks, empty);
    assert forall|i: int| 0 <= i < r@.len() implies joined(#[trigger] r@[i], bms[i], None) by {
        assert(annotation_for(Seq::<FetchedRecord<AnnotationRecord>>::empty(), last_segment(bms[i].uri@)) is None);
    }
    r
}

/// Bookmarks read with and without their annotations agree: the same count,
/// and at each position the same URI, CID, record key, URL, creation time and
/// tags; without annotations, title, description, favicon, image and note are
/// absent. (`with_annotations` and `without` are what `join_bookmarks` and
/// `bookmarks_from_records` return for the same bookmark records.)
pub proof fn lemma_bookmark_reads_agree(
    records: Seq<FetchedRecord<BookmarkRecord>>,
    annotations: Seq<FetchedRecord<AnnotationRecord>>,
    with_annotations: Seq<EnrichedBookmark>,
    without: Seq<EnrichedBookmark>,
)
    requires
        with_annotations.len() == records.len(),
        forall|i: int| 0 <= i < with_annotations.len() ==> joined(
            #[trigger] with_annotations[i],
            records[i],
            annotation_for(annotations, last_segment(records[i].uri@)),
        ),
        without.len() == records.len(),
        forall|i: int| 0 <= i < without.len() ==> joined(#[trigger] without[i], records[i], None),
    ensures
        without.len() == with_annotations.len(),
        forall|i: int| 0 <= i < without.len() ==> {
            &&& (#[trigger] without[i]).uri@ == with_annotations[i].uri@
            &&& without[i].cid@ == with_annotations[i].cid@
            &&& without[i].rkey@ == with_annotations[i].rkey@
            &&& without[i].subject@ == with_annotations[i].subject@
            &&& without[i].created_at@ == with_annotations[i].created_at@
            &&& views(without[i].tags@) == views(with_annotations[i].tags@)
            &&& without[i].title is None
            &&& without[i].description is None
            &&& without[i].favicon is None
            &&& without[i].image is None
            &&& without[i].note is None
        },
{
    assert forall|i: int| 0 <= i < without.len() implies {
        &&& (#[trigger] without[i]).uri@ == with_annotations[i].uri@
        &&& without[i].cid@ == with_annotations[i].cid@
        &&& without[i].rkey@ == with_annotations[i].rkey@
        &&& without[i].subject@ == with_annotations[i].subject@
        &&& without[i].created_at@ == with_annotations[i].created_at@
        &&& views(without[i].tags@) == views(with_annotations[i].tags@)
        &&& without[i].title is None
        &&& without[i].description is None
        &&& without[i].favicon is None
        &&& without[i].image is None
        &&& without[i].note is None
    } by {
        assert(joined(with_annotations[i], records[i], annotation_for(annotations, last_segment(records[i].uri@))));
        assert(joined(without[i], records[i], None));
        if records[i].value is None {
            assert(views(without[i].tags@) =~= views(with_annotations[i].tags@));
        }
    }
}

/// Whether some bookmark already points at `url`.
pub fn has_bookmark_for(existing: &Vec<EnrichedBookmark>, url: &str) -> (r: bool)
    ensures
        r == exists|i: int| 0 <= i < existing@.len() && (#[trigger] existing@[i]).subject@ == url@,
{
    let mut i: usize = 0;
    while i < existing.len()
        invariant
            0 <= i <= existing@.len(),
            forall|k: int| 0 <= k < i ==> (#[trigger] existing@[k]).subject@ != url@,
        decreases existing@.len() - i,
    {
        if str_eq(existing[i].subject.as_str(), url) {
            return true;
        }
        i += 1;
    }
    false
}

/// The bookmark record for a new bookmark of `url`.
pub fn new_bookmark_record(url: &str, created_at: &str, tags: &Vec<String>) -> (r: BookmarkRecord)
    ensures
        r.subject@ == url@,
        r.created_at@ == created_at@,
        views(r.tags@) == views(tags@),
{
    let mut t: Vec<String> = Vec::new();
    let mut i: usize = 0;
    while i < tags.len()
        invariant
            0 <= i <= tags@.len(),
            t@.len() == i,
            forall|k: int| 0 <= k < i ==> (#[trigger] t@[k])@ == tags@[k]@,
        decreases tags@.len() - i,
    {
        t.push(copy_string(&tags[i]));
        i += 1;
    }
    assert(views(t@) =~= views(tags@));
    BookmarkRecord { subject: url.to_owned(), created_at: created_at.to_owned(), tags: t }
}

/// The annotation written beside a new bookmark: it shares the bookmark's
/// record key (returned first), points at the bookmark's URI and carries
/// the page metadata.
pub fn new_annotation(bookmark_uri: &str, created_at: &str, metadata: UrlMetadata) -> (r: (String, AnnotationRecord))
    ensures
        r.0@ == last_segment(bookmark_uri@),
        r.1.subject@ == bookmark_uri@,
        r.1.created_at@ == created_at@,
        r.1.note is None,
        r.1.title == metadata.title,
        r.1.description == metadata.description,
        r.1.favicon == metadata.favicon,
        r.1.image == metadata.image,
{
    let rkey = rkey_from_uri(bookmark_uri);
    let a = AnnotationRecord {
        subject: bookmark_uri.to_owned(),
        created_at: created_at.to_owned(),
        note: None,
        title: metadata.title,
        description: metadata.description,
        favicon: metadata.favicon,
        image: metadata.image,
    };
    (rkey, a)
}

/// The annotation created for a bookmark that has none when a note is set
/// or cleared.
pub fn note_annotation(bookmark_uri: &str, created_at: &str, note: Option<&str>) -> (r: AnnotationRecord)
    ensures
        r.subject@ == bookmark_uri@,
        r.created_at@ == created_at@,
        opt_view(r.note) == match note {
            Some(n) => Some(n@),
            None => None::<Seq<char>>,
        },
        r.title is None,
        r.description is None,
        r.favicon is None,
        r.image is None,
{
    let n = match note {
        Some(t) => Some(t.to_owned()),
        None => None,
    };
    AnnotationRecord {
        subject: bookmark_uri.to_owned(),
        created_at: created_at.to_owned(),
        note: n,
        title: None,
        description: None,
        favicon: None,
        image: None,
    }
}

/// Largest page asked of the PDS.
pub const MAX_PAGE: i64 = 100;

/// The page size asked for: the limit, at most `MAX_PAGE`, or `MAX_PAGE`.
pub fn page_limit(limit: Option<i64>) -> (r: i64)
    ensures
        r == match limit {
            Some(n) => if n < MAX_PAGE {
                n
            } else {
                MAX_PAGE
            },
            None => MAX_PAGE,
        },
{
    match limit {
        Some(n) => if n < MAX_PAGE {
            n
        } else {
            MAX_PAGE
        },
        None => MAX_PAGE,
    }
}

/// What to do after a page of a listing has been added.
#[derive(Debug, Clone, PartialEq, Eq)]
pub enum PageStep {
    /// Stop, keeping this many records.
    Stop(usize),
    /// Ask for the next page from this cursor.
    Next(String),
}

/// Whether a listing holding `collected` records has reached `limit`.
pub open spec fn limit_reached(collected: usize, limit: Option<i64>) -> bool {
    match limit {
        Some(max) => collected >= max as usize,
        None => false,
    }
}

/// Decides, after a page, whether a listing goes on: it stops once `limit`
/// records are held (keeping that many), and otherwise follows a non-empty
/// cursor.
pub fn next_page(collected: usize, limit: Option<i64>, cursor: Option<String>) -> (r: PageStep)
    ensures
        limit_reached(collected, limit) ==> r == PageStep::Stop(limit->0 as usize),
        !limit_reached(collected, limit) ==> match cursor {
            Some(c) => if c@.len() > 0 {
                r matches PageStep::Next(n) && n@ == c@
            } else {
                r == PageStep::Stop(collected)
            },
            None => r == PageStep::Stop(collected),
        },
{
    if let Some(max) = limit {
        let keep = max as usize;
        if collected >= keep {
            return PageStep::Stop(keep);
        }
    }
    match cursor {
        Some(c) => if c.as_str().is_empty() {
            PageStep::Stop(collected)
        } else {
            PageStep::Next(c)
        },
        None => PageStep::Stop(collected),
    }
}

} // verus!
