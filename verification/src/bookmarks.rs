//! The rules of the bookmark commands: listing filters, tag edits and tag
//! counts.

use vstd::prelude::*;

use crate::text::{
    contains, copy_string, lemma_lex_irreflexive, lemma_lex_total, lemma_lex_transitive, lex_less, lex_lt,
    lowercase, occurs_in, str_eq, to_lowercase, views,
};
use crate::types::{opt_view, EnrichedBookmark};

verus! {

/// Whether `tags` holds `tag`, ignoring case.
pub open spec fn has_tag_ci(tags: Seq<Seq<char>>, tag: Seq<char>) -> bool {
    exists|i: int| 0 <= i < tags.len() && lowercase(#[trigger] tags[i]) == lowercase(tag)
}

/// Whether an optional field holds `q` (already lowercased), ignoring case.
pub open spec fn field_matches(field: Option<String>, q: Seq<char>) -> bool {
    match field {
        Some(f) => occurs_in(q, lowercase(f@)),
        None => false,
    }
}

/// Whether a bookmark matches a search query: the query, ignoring case,
/// occurs in its title, URL, description or note.
pub open spec fn matches_search(b: EnrichedBookmark, query: Seq<char>) -> bool {
    let q = lowercase(query);
    field_matches(b.title, q) || occurs_in(q, lowercase(b.subject@)) || field_matches(b.description, q)
        || field_matches(b.note, q)
}

/// Whether a bookmark passes the tag filter and the search query of a listing.
pub open spec fn listed(b: EnrichedBookmark, tag: Option<Seq<char>>, search: Option<Seq<char>>) -> bool {
    &&& tag matches Some(t) ==> has_tag_ci(views(b.tags@), t)
    &&& search matches Some(q) ==> matches_search(b, q)
}

/// The view of an optional string slice.
pub open spec fn str_opt_view(o: Option<&str>) -> Option<Seq<char>> {
    match o {
        Some(s) => Some(s@),
        None => None,
    }
}

fn has_tag_lower(tags: &Vec<String>, tag_lower: &str) -> (r: bool)
    ensures
        r == exists|i: int| 0 <= i < tags@.len() && lowercase(#[trigger] views(tags@)[i]) == tag_lower@,
{
    let mut i: usize = 0;
    while i < tags.len()
        invariant
            0 <= i <= tags@.len(),
            forall|k: int| 0 <= k < i ==> lowercase(#[trigger] views(tags@)[k]) != tag_lower@,
        decreases tags@.len() - i,
    {
        let t = to_lowercase(tags[i].as_str());
        assert(views(tags@)[i as int] == tags@[i as int]@);
        if str_eq(t.as_str(), tag_lower) {
            return true;
        }
        i += 1;
    }
    false
}

fn field_contains(field: &Option<String>, q: &str) -> (r: bool)
    ensures
        r == field_matches(*field, q@),
{
    match field {
        Some(f) => {
            let l = to_lowercase(f.as_str());
            contains(l.as_str(), q)
        },
        None => false,
    }
}

/// Whether a bookmark passes a listing's filters, given the tag and the query
/// already lowercased.
pub open spec fn listed_lower(b: EnrichedBookmark, tag_lower: Option<Seq<char>>, query_lower: Option<Seq<char>>) -> bool {
    &&& tag_lower matches Some(t) ==> exists|i: int| 0 <= i < b.tags@.len() && lowercase(#[trigger] views(b.tags@)[i]) == t
    &&& query_lower matches Some(q) ==> (field_matches(b.title, q) || occurs_in(q, lowercase(b.subject@))
        || field_matches(b.description, q) || field_matches(b.note, q))
}

/// The lowercase form of an optional text.
pub open spec fn lower_opt(o: Option<Seq<char>>) -> Option<Seq<char>> {
    match o {
        Some(s) => Some(lowercase(s)),
        None => None,
    }
}

fn lower_opt_exec(o: Option<&str>) -> (r: Option<String>)
    ensures
        opt_view(r) == lower_opt(str_opt_view(o)),
        o matches Some(q) && q@.len() == 0 ==> (r matches Some(s) && s@.len() == 0),
{
    match o {
        Some(q) => Some(to_lowercase(q)),
        None => None,
    }
}

fn is_listed(b: &EnrichedBookmark, tag_lower: &Option<String>, query_lower: &Option<String>) -> (r: bool)
    ensures
        r == listed_lower(*b, opt_view(*tag_lower), opt_view(*query_lower)),
{
    if let Some(tl) = tag_lower {
        if !has_tag_lower(&b.tags, tl.as_str()) {
            return false;
        }
    }
    if let Some(ql) = query_lower {
        let in_title = field_contains(&b.title, ql.as_str());
        let subject = to_lowercase(b.subject.as_str());
        let in_url = contains(subject.as_str(), ql.as_str());
        let in_desc = field_contains(&b.description, ql.as_str());
        let in_note = field_contains(&b.note, ql.as_str());
        if !(in_title || in_url || in_desc || in_note) {
            return false;
        }
    }
    true
}

/// Keeps the bookmarks that carry `tag` (ignoring case) and match `search`
/// (ignoring case, in title, URL, description or note), in order. An empty
/// query keeps every bookmark that the tag filter keeps.
pub fn filter_bookmarks(bookmarks: Vec<EnrichedBookmark>, tag: Option<&str>, search: Option<&str>) -> (r: Vec<EnrichedBookmark>)
    ensures
        r@ == bookmarks@.filter(|b: EnrichedBookmark| listed(b, str_opt_view(tag), str_opt_view(search))),
        search matches Some(q) && q@.len() == 0 ==> r@ == bookmarks@.filter(
            |b: EnrichedBookmark| listed(b, str_opt_view(tag), None),
        ),
{
    let ghost all = bookmarks@;
    let ghost pred = |b: EnrichedBookmark| listed(b, str_opt_view(tag), str_opt_view(search));
    let tag_lower = lower_opt_exec(tag);
    let query_lower = lower_opt_exec(search);
    let ghost tlv = opt_view(tag_lower);
    let ghost qlv = opt_view(query_lower);
    assert(tlv == lower_opt(str_opt_view(tag)));
    assert(qlv == lower_opt(str_opt_view(search)));
    let mut out: Vec<EnrichedBookmark> = Vec::new();
    for b in it: bookmarks
        invariant
            it.seq() == all,
            pred == (|b: EnrichedBookmark| listed(b, str_opt_view(tag), str_opt_view(search))),
            tlv == lower_opt(str_opt_view(tag)),
            qlv == lower_opt(str_opt_view(search)),
            tlv == opt_view(tag_lower),
            qlv == opt_view(query_lower),
            out@ == all.take(it.index() as int).filter(pred),
    {
        let ghost k = it.index();
        assert(b == all[k as int]);
        let keep = is_listed(&b, &tag_lower, &query_lower);
        proof {
            let s = all.take(k + 1);
            assert(s.drop_last() =~= all.take(k as int));
            assert(s.last() == b);
            assert(listed(b, str_opt_view(tag), str_opt_view(search)) == listed_lower(b, tlv, qlv));
            assert(pred(b) == keep);
            assert(s.filter(pred) == if keep { s.drop_last().filter(pred).push(b) } else { s.drop_last().filter(pred) }) by {
                reveal_with_fuel(Seq::<_>::filter, 1);
            }
        }
        if keep {
            out.push(b);
        }
    }
    proof {
        assert(all.take(all.len() as int) =~= all);
        if let Some(q) = search {
            if q@.len() == 0 {
                let e = lowercase(q@);
                assert(e.len() == 0);
                assert forall|b: EnrichedBookmark| #[trigger] listed(b, str_opt_view(tag), Some(q@)) == listed(b, str_opt_view(tag), None) by {
                    assert(lowercase(b.subject@).subrange(0int, 0int + e.len()) =~= e);
                    assert(occurs_in(e, lowercase(b.subject@)));
                }
                assert(pred =~= (|b: EnrichedBookmark| listed(b, str_opt_view(tag), None)));
            }
        }
    }
    out
}

/// A listing keeps a bookmark of its input exactly when the bookmark carries
/// the tag (some tag equal to it once both are lowercased) and the query,
/// lowercased, occurs in its lowercased title, URL, description or note.
pub proof fn lemma_listing_keeps_matches(
    bookmarks: Seq<EnrichedBookmark>,
    tag: Option<Seq<char>>,
    search: Option<Seq<char>>,
    i: int,
)
    requires
        0 <= i < bookmarks.len(),
    ensures
        bookmarks.filter(|b: EnrichedBookmark| listed(b, tag, search)).contains(bookmarks[i]) <==> ({
            let b = bookmarks[i];
            &&& tag matches Some(t) ==> exists|k: int|
                0 <= k < b.tags@.len() && lowercase((#[trigger] b.tags@[k])@) == lowercase(t)
            &&& search matches Some(q) ==> {
                ||| (b.title matches Some(x) && occurs_in(lowercase(q), lowercase(x@)))
                ||| occurs_in(lowercase(q), lowercase(b.subject@))
                ||| (b.description matches Some(x) && occurs_in(lowercase(q), lowercase(x@)))
                ||| (b.note matches Some(x) && occurs_in(lowercase(q), lowercase(x@)))
            }
        }),
{
    let pred = |b: EnrichedBookmark| listed(b, tag, search);
    let f = bookmarks.filter(pred);
    let b = bookmarks[i];
    if let Some(t) = tag {
        if exists|k: int| 0 <= k < b.tags@.len() && lowercase((#[trigger] b.tags@[k])@) == lowercase(t) {
            let k = choose|k: int| 0 <= k < b.tags@.len() && lowercase((#[trigger] b.tags@[k])@) == lowercase(t);
            assert(views(b.tags@)[k] == b.tags@[k]@);
        }
        if has_tag_ci(views(b.tags@), t) {
            let k = choose|k: int| 0 <= k < views(b.tags@).len() && lowercase(#[trigger] views(b.tags@)[k]) == lowercase(t);
            assert(views(b.tags@)[k] == b.tags@[k]@);
        }
    }
    if pred(b) {
        bookmarks.lemma_filter_contains(pred, i);
    }
    if f.contains(b) {
        let j = choose|j: int| 0 <= j < f.len() && f[j] == b;
        bookmarks.lemma_filter_pred(pred, j);
    }
}

/// Filtering by a conjunction is filtering by one condition, then the other.
proof fn lemma_filter_and<A>(s: Seq<A>, p: spec_fn(A) -> bool, q: spec_fn(A) -> bool)
    ensures
        s.filter(|x: A| p(x) && q(x)) == s.filter(p).filter(q),
    decreases s.len(),
{
    reveal_with_fuel(Seq::<_>::filter, 1);
    if s.len() > 0 {
        lemma_filter_and(s.drop_last(), p, q);
        let f = s.drop_last().filter(p);
        if p(s.last()) {
            assert(f.push(s.last()).drop_last() =~= f);
        }
    }
}

/// Filtering again by the same condition changes nothing.
proof fn lemma_filter_twice<A>(s: Seq<A>, p: spec_fn(A) -> bool)
    ensures
        s.filter(p).filter(p) == s.filter(p),
    decreases s.len(),
{
    reveal_with_fuel(Seq::<_>::filter, 1);
    if s.len() > 0 {
        lemma_filter_twice(s.drop_last(), p);
        let f = s.drop_last().filter(p);
        if p(s.last()) {
            assert(f.push(s.last()).drop_last() =~= f);
        }
    }
}

/// The tag filter and the search of a listing can be applied one after the
/// other in either order, and a listing's filters applied to their own
/// result keep it unchanged.
pub proof fn lemma_listing_filters_compose(
    bookmarks: Seq<EnrichedBookmark>,
    tag: Option<Seq<char>>,
    search: Option<Seq<char>>,
)
    ensures
        bookmarks.filter(|b: EnrichedBookmark| listed(b, tag, search)) == bookmarks.filter(
            |b: EnrichedBookmark| listed(b, tag, None),
        ).filter(|b: EnrichedBookmark| listed(b, None, search)),
        bookmarks.filter(|b: EnrichedBookmark| listed(b, tag, search)) == bookmarks.filter(
            |b: EnrichedBookmark| listed(b, None, search),
        ).filter(|b: EnrichedBookmark| listed(b, tag, None)),
        bookmarks.filter(|b: EnrichedBookmark| listed(b, tag, search)).filter(
            |b: EnrichedBookmark| listed(b, tag, search),
        ) == bookmarks.filter(|b: EnrichedBookmark| listed(b, tag, search)),
{
    let both = |b: EnrichedBookmark| listed(b, tag, search);
    let by_tag = |b: EnrichedBookmark| listed(b, tag, None);
    let by_search = |b: EnrichedBookmark| listed(b, None, search);
    lemma_filter_and(bookmarks, by_tag, by_search);
    lemma_filter_and(bookmarks, by_search, by_tag);
    assert((|x: EnrichedBookmark| by_tag(x) && by_search(x)) =~= both);
    assert((|x: EnrichedBookmark| by_search(x) && by_tag(x)) =~= both);
    lemma_filter_twice(bookmarks, both);
}

/// A listing without tag filter or search shows every bookmark, in order.
pub proof fn lemma_unfiltered_lists_all(bookmarks: Seq<EnrichedBookmark>)
    ensures
        bookmarks.filter(|b: EnrichedBookmark| listed(b, None, None)) == bookmarks,
    decreases bookmarks.len(),
{
    reveal_with_fuel(Seq::<_>::filter, 1);
    if bookmarks.len() > 0 {
        lemma_unfiltered_lists_all(bookmarks.drop_last());
        assert(bookmarks.drop_last().push(bookmarks.last()) =~= bookmarks);
    }
}

/// The bookmarks that a listing shows: those that pass the filters, at most
/// `limit` of them.
pub open spec fn selected(
    bookmarks: Seq<EnrichedBookmark>,
    tag: Option<Seq<char>>,
    search: Option<Seq<char>>,
    limit: Option<u32>,
) -> Seq<EnrichedBookmark> {
    let f = bookmarks.filter(|b: EnrichedBookmark| listed(b, tag, search));
    match limit {
        Some(n) => if (n as int) < f.len() {
            f.take(n as int)
        } else {
            f
        },
        None => f,
    }
}

/// Filters bookmarks as `filter_bookmarks` does and keeps at most `limit`.
pub fn select_bookmarks(
    bookmarks: Vec<EnrichedBookmark>,
    tag: Option<&str>,
    search: Option<&str>,
    limit: Option<u32>,
) -> (r: Vec<EnrichedBookmark>)
    ensures
        r@ == selected(bookmarks@, str_opt_view(tag), str_opt_view(search), limit),
{
    let mut f = filter_bookmarks(bookmarks, tag, search);
    if let Some(n) = limit {
        f.truncate(n as usize);
    }
    proof {
        if let Some(n) = limit {
            if (n as int) < f@.len() {
                assert(f@ =~= selected(bookmarks@, str_opt_view(tag), str_opt_view(search), limit));
            }
        }
    }
    f
}

/// A bookmark's existing tags followed by each new tag that it does not
/// already carry (ignoring case), in order.
pub open spec fn merged_tags(existing: Seq<Seq<char>>, new: Seq<Seq<char>>) -> Seq<Seq<char>>
    decreases new.len(),
{
    if new.len() == 0 {
        existing
    } else {
        let m = merged_tags(existing, new.drop_last());
        if has_tag_ci(m, new.last()) {
            m
        } else {
            m.push(new.last())
        }
    }
}

/// The tags that are not named in `remove` (ignoring case), in order.
pub open spec fn without_tags(tags: Seq<Seq<char>>, remove: Seq<Seq<char>>) -> Seq<Seq<char>>
    decreases tags.len(),
{
    if tags.len() == 0 {
        tags
    } else {
        let w = without_tags(tags.drop_last(), remove);
        if has_tag_ci(remove, tags.last()) {
            w
        } else {
            w.push(tags.last())
        }
    }
}

fn copy_strings(v: &Vec<String>) -> (r: Vec<String>)
    ensures
        views(r@) == views(v@),
{
    let mut out: Vec<String> = Vec::new();
    let mut i: usize = 0;
    while i < v.len()
        invariant
            0 <= i <= v@.len(),
            out@.len() == i,
            forall|k: int| 0 <= k < i ==> (#[trigger] out@[k])@ == v@[k]@,
        decreases v@.len() - i,
    {
        out.push(copy_string(&v[i]));
        i += 1;
    }
    assert(views(out@) =~= views(v@));
    out
}

fn has_tag(tags: &Vec<String>, tag: &str) -> (r: bool)
    ensures
        r == has_tag_ci(views(tags@), tag@),
{
    let l = to_lowercase(tag);
    has_tag_lower(tags, l.as_str())
}

/// Adds tags to a bookmark's tags, skipping those it already carries
/// (ignoring case).
pub fn merge_tags(existing: &Vec<String>, new_tags: &Vec<String>) -> (r: Vec<String>)
    ensures
        views(r@) == merged_tags(views(existing@), views(new_tags@)),
{
    let mut tags = copy_strings(existing);
    let mut i: usize = 0;
    while i < new_tags.len()
        invariant
            0 <= i <= new_tags@.len(),
            views(tags@) == merged_tags(views(existing@), views(new_tags@).take(i as int)),
        decreases new_tags@.len() - i,
    {
        let ghost n = views(new_tags@).take(i + 1);
        assert(n.drop_last() =~= views(new_tags@).take(i as int));
        assert(n.last() == new_tags@[i as int]@);
        if !has_tag(&tags, new_tags[i].as_str()) {
            let t = copy_string(&new_tags[i]);
            tags.push(t);
            assert(views(tags@) =~= merged_tags(views(existing@), n));
        }
        i += 1;
    }
    assert(views(new_tags@).take(new_tags@.len() as int) =~= views(new_tags@));
    tags
}

/// Removes from a bookmark's tags those named in `remove` (ignoring case).
pub fn remove_tags(tags: &Vec<String>, remove: &Vec<String>) -> (r: Vec<String>)
    ensures
        views(r@) == without_tags(views(tags@), views(remove@)),
{
    let mut out: Vec<String> = Vec::new();
    let mut i: usize = 0;
    while i < tags.len()
        invariant
            0 <= i <= tags@.len(),
            views(out@) == without_tags(views(tags@).take(i as int), views(remove@)),
        decreases tags@.len() - i,
    {
        let ghost s = views(tags@).take(i + 1);
        assert(s.drop_last() =~= views(tags@).take(i as int));
        assert(s.last() == tags@[i as int]@);
        if !has_tag(remove, tags[i].as_str()) {
            out.push(copy_string(&tags[i]));
            assert(views(out@) =~= without_tags(s, views(remove@)));
        }
        i += 1;
    }
    assert(views(tags@).take(tags@.len() as int) =~= views(tags@));
    out
}

/// Untagging keeps, in order, exactly the tags that no removed tag equals
/// once both are lowercased.
pub proof fn lemma_without_tags_keeps_unnamed(tags: Seq<Seq<char>>, remove: Seq<Seq<char>>)
    ensures
        without_tags(tags, remove) == tags.filter(
            |t: Seq<char>| forall|i: int| 0 <= i < remove.len() ==> lowercase(#[trigger] remove[i]) != lowercase(t),
        ),
    decreases tags.len(),
{
    let keep = |t: Seq<char>| forall|i: int| 0 <= i < remove.len() ==> lowercase(#[trigger] remove[i]) != lowercase(t);
    reveal_with_fuel(Seq::<_>::filter, 1);
    if tags.len() > 0 {
        lemma_without_tags_keeps_unnamed(tags.drop_last(), remove);
        assert(keep(tags.last()) == !has_tag_ci(remove, tags.last()));
    }
}

/// Merging keeps the existing tags, in order, at the front.
pub proof fn lemma_merged_keeps_existing(existing: Seq<Seq<char>>, new: Seq<Seq<char>>)
    ensures
        merged_tags(existing, new).len() >= existing.len(),
        merged_tags(existing, new).take(existing.len() as int) == existing,
    decreases new.len(),
{
    if new.len() > 0 {
        lemma_merged_keeps_existing(existing, new.drop_last());
        let m = merged_tags(existing, new.drop_last());
        assert(m.push(new.last()).take(existing.len() as int) =~= m.take(existing.len() as int));
    }
}

/// After merging, the bookmark carries every new tag (ignoring case).
pub proof fn lemma_merged_covers(existing: Seq<Seq<char>>, new: Seq<Seq<char>>)
    ensures
        forall|k: int| 0 <= k < new.len() ==> has_tag_ci(merged_tags(existing, new), #[trigger] new[k]),
    decreases new.len(),
{
    if new.len() > 0 {
        let d = new.drop_last();
        lemma_merged_covers(existing, d);
        let m = merged_tags(existing, d);
        assert forall|k: int| 0 <= k < new.len() implies has_tag_ci(merged_tags(existing, new), #[trigger] new[k]) by {
            if k < new.len() - 1 {
                assert(new[k] == d[k]);
                assert(has_tag_ci(m, d[k]));
                if !has_tag_ci(m, new.last()) {
                    let j = choose|j: int| 0 <= j < m.len() && lowercase(#[trigger] m[j]) == lowercase(d[k]);
                    assert(m.push(new.last())[j] == m[j]);
                }
            } else {
                if !has_tag_ci(m, new.last()) {
                    assert(m.push(new.last())[m.len() as int] == new.last());
                }
            }
        }
    }
}

/// Merging tags that are all present already changes nothing.
pub proof fn lemma_merge_present(existing: Seq<Seq<char>>, new: Seq<Seq<char>>)
    requires
        forall|k: int| 0 <= k < new.len() ==> has_tag_ci(existing, #[trigger] new[k]),
    ensures
        merged_tags(existing, new) == existing,
    decreases new.len(),
{
    if new.len() > 0 {
        let d = new.drop_last();
        assert forall|k: int| 0 <= k < d.len() implies has_tag_ci(existing, #[trigger] d[k]) by {
            assert(d[k] == new[k]);
        }
        lemma_merge_present(existing, d);
        assert(has_tag_ci(existing, new[new.len() - 1]));
    }
}

/// Tagging twice with the same tags is the same as tagging once.
pub proof fn lemma_merge_idempotent(existing: Seq<Seq<char>>, new: Seq<Seq<char>>)
    ensures
        merged_tags(merged_tags(existing, new), new) == merged_tags(existing, new),
{
    lemma_merged_covers(existing, new);
    lemma_merge_present(merged_tags(existing, new), new);
}

/// After removal no remaining tag is named in `remove` (ignoring case), and
/// every remaining tag was there before.
pub proof fn lemma_without_tags_removes(tags: Seq<Seq<char>>, remove: Seq<Seq<char>>)
    ensures
        forall|k: int| 0 <= k < without_tags(tags, remove).len() ==> !has_tag_ci(remove, #[trigger] without_tags(tags, remove)[k]),
        forall|k: int| 0 <= k < without_tags(tags, remove).len() ==> tags.contains(#[trigger] without_tags(tags, remove)[k]),
    decreases tags.len(),
{
    if tags.len() > 0 {
        let d = tags.drop_last();
        lemma_without_tags_removes(d, remove);
        let w = without_tags(d, remove);
        assert forall|k: int| 0 <= k < without_tags(tags, remove).len() implies tags.contains(#[trigger] without_tags(tags, remove)[k]) by {
            if k < w.len() {
                let x = w[k];
                assert(d.contains(x));
                let j = choose|j: int| 0 <= j < d.len() && d[j] == x;
                assert(tags[j] == d[j]);
            } else {
                assert(tags[tags.len() - 1] == tags.last());
            }
        }
    }
}

/// Removing the same tags twice is the same as removing them once.
pub proof fn lemma_without_tags_idempotent(tags: Seq<Seq<char>>, remove: Seq<Seq<char>>)
    ensures
        without_tags(without_tags(tags, remove), remove) == without_tags(tags, remove),
    decreases tags.len(),
{
    if tags.len() > 0 {
        let d = tags.drop_last();
        lemma_without_tags_idempotent(d, remove);
        let w = without_tags(d, remove);
        if !has_tag_ci(remove, tags.last()) {
            assert(w.push(tags.last()).drop_last() =~= w);
        }
    }
}

/// Removal distributes over concatenation.
proof fn lemma_without_tags_concat(a: Seq<Seq<char>>, b: Seq<Seq<char>>, remove: Seq<Seq<char>>)
    ensures
        without_tags(a + b, remove) == without_tags(a, remove) + without_tags(b, remove),
    decreases b.len(),
{
    if b.len() == 0 {
        assert(a + b =~= a);
        assert(without_tags(a, remove) + without_tags(b, remove) =~= without_tags(a, remove));
    } else {
        assert((a + b).drop_last() =~= a + b.drop_last());
        lemma_without_tags_concat(a, b.drop_last(), remove);
        assert((a + b).last() == b.last());
        if !has_tag_ci(remove, b.last()) {
            assert(without_tags(a, remove) + without_tags(b.drop_last(), remove).push(b.last())
                =~= (without_tags(a, remove) + without_tags(b.drop_last(), remove)).push(b.last()));
        }
    }
}

/// What merging appends consists of new tags only.
proof fn lemma_merged_suffix_from_new(existing: Seq<Seq<char>>, new: Seq<Seq<char>>)
    ensures
        merged_tags(existing, new) == existing + merged_tags(existing, new).skip(existing.len() as int),
        forall|k: int| 0 <= k < merged_tags(existing, new).skip(existing.len() as int).len()
            ==> has_tag_ci(new, #[trigger] merged_tags(existing, new).skip(existing.len() as int)[k]),
    decreases new.len(),
{
    lemma_merged_keeps_existing(existing, new);
    let m = merged_tags(existing, new);
    assert(m =~= existing + m.skip(existing.len() as int));
    if new.len() > 0 {
        let d = new.drop_last();
        lemma_merged_suffix_from_new(existing, d);
        lemma_merged_keeps_existing(existing, d);
        let md = merged_tags(existing, d);
        let e = existing.len() as int;
        assert forall|k: int| 0 <= k < m.skip(e).len() implies has_tag_ci(new, #[trigger] m.skip(e)[k]) by {
            if k < md.skip(e).len() {
                assert(m.skip(e)[k] == md.skip(e)[k]);
                let x = md.skip(e)[k];
                assert(has_tag_ci(d, x));
                let j = choose|j: int| 0 <= j < d.len() && lowercase(#[trigger] d[j]) == lowercase(x);
                assert(new[j] == d[j]);
            } else {
                assert(m.skip(e)[k] == new.last());
                assert(new[new.len() - 1] == new.last());
            }
        }
    }
}

/// Untagging after tagging with the same tags leaves what untagging alone
/// leaves.
pub proof fn lemma_remove_after_merge(existing: Seq<Seq<char>>, tags: Seq<Seq<char>>)
    ensures
        without_tags(merged_tags(existing, tags), tags) == without_tags(existing, tags),
{
    lemma_merged_suffix_from_new(existing, tags);
    let m = merged_tags(existing, tags);
    let extra = m.skip(existing.len() as int);
    lemma_without_tags_concat(existing, extra, tags);
    lemma_without_all_removed(extra, tags);
    assert(without_tags(existing, tags) + without_tags(extra, tags) =~= without_tags(existing, tags));
}

proof fn lemma_without_all_removed(s: Seq<Seq<char>>, remove: Seq<Seq<char>>)
    requires
        forall|k: int| 0 <= k < s.len() ==> has_tag_ci(remove, #[trigger] s[k]),
    ensures
        without_tags(s, remove).len() == 0,
    decreases s.len(),
{
    if s.len() > 0 {
        let d = s.drop_last();
        assert forall|k: int| 0 <= k < d.len() implies has_tag_ci(remove, #[trigger] d[k]) by {
            assert(d[k] == s[k]);
        }
        lemma_without_all_removed(d, remove);
        assert(has_tag_ci(remove, s[s.len() - 1]));
    }
}

/// Every tag of every bookmark, in order.
pub open spec fn all_tags(bms: Seq<EnrichedBookmark>) -> Seq<Seq<char>>
    decreases bms.len(),
{
    if bms.len() == 0 {
        Seq::empty()
    } else {
        all_tags(bms.drop_last()) + views(bms.last().tags@)
    }
}

/// How many times `t` occurs in `s`.
pub open spec fn occurrences(s: Seq<Seq<char>>, t: Seq<char>) -> nat
    decreases s.len(),
{
    if s.len() == 0 {
        0
    } else {
        occurrences(s.drop_last(), t) + if s.last() == t {
            1nat
        } else {
            0nat
        }
    }
}

/// Keys in strictly increasing code point order.
pub open spec fn sorted_keys(keys: Seq<Seq<char>>) -> bool {
    forall|i: int, j: int| 0 <= i < j < keys.len() ==> lex_lt(#[trigger] keys[i], #[trigger] keys[j])
}

/// `keys` and `counts` tally the tags `seen`: each distinct tag once, in
/// code point order, beside its number of occurrences.
pub open spec fn tallies(keys: Seq<Seq<char>>, counts: Seq<usize>, seen: Seq<Seq<char>>) -> bool {
    &&& keys.len() == counts.len()
    &&& sorted_keys(keys)
    &&& forall|i: int| 0 <= i < keys.len() ==> #[trigger] counts[i] == occurrences(seen, keys[i])
    &&& forall|i: int| 0 <= i < keys.len() ==> seen.contains(#[trigger] keys[i])
    &&& forall|k: int| 0 <= k < seen.len() ==> keys.contains(#[trigger] seen[k])
}

/// The tags of a tag count list.
pub open spec fn count_keys(c: Seq<(String, usize)>) -> Seq<Seq<char>> {
    c.map_values(|p: (String, usize)| p.0@)
}

/// The counts of a tag count list.
pub open spec fn count_values(c: Seq<(String, usize)>) -> Seq<usize> {
    c.map_values(|p: (String, usize)| p.1)
}

proof fn lemma_occurrences_bound(s: Seq<Seq<char>>, t: Seq<char>)
    ensures
        occurrences(s, t) <= s.len(),
    decreases s.len(),
{
    if s.len() > 0 {
        lemma_occurrences_bound(s.drop_last(), t);
    }
}

proof fn lemma_occurrences_absent(s: Seq<Seq<char>>, t: Seq<char>)
    requires
        !s.contains(t),
    ensures
        occurrences(s, t) == 0,
    decreases s.len(),
{
    if s.len() > 0 {
        assert(!s.drop_last().contains(t)) by {
            if s.drop_last().contains(t) {
                let j = choose|j: int| 0 <= j < s.drop_last().len() && s.drop_last()[j] == t;
                assert(s[j] == t);
            }
        }
        lemma_occurrences_absent(s.drop_last(), t);
        assert(s[s.len() - 1] != t);
    }
}

proof fn lemma_sorted_distinct(keys: Seq<Seq<char>>, i: int, j: int)
    requires
        sorted_keys(keys),
        0 <= i < keys.len(),
        0 <= j < keys.len(),
        i != j,
    ensures
        keys[i] != keys[j],
{
    if i < j {
        assert(lex_lt(keys[i], keys[j]));
        lemma_lex_irreflexive(keys[i]);
    } else {
        assert(lex_lt(keys[j], keys[i]));
        lemma_lex_irreflexive(keys[j]);
    }
}

proof fn lemma_tally_bump(keys: Seq<Seq<char>>, counts: Seq<usize>, seen: Seq<Seq<char>>, pos: int, t: Seq<char>)
    requires
        tallies(keys, counts, seen),
        0 <= pos < keys.len(),
        keys[pos] == t,
        counts[pos] < usize::MAX,
    ensures
        tallies(keys, counts.update(pos, (counts[pos] + 1) as usize), seen.push(t)),
{
    let c2 = counts.update(pos, (counts[pos] + 1) as usize);
    let s2 = seen.push(t);
    assert(s2.drop_last() =~= seen);
    assert forall|i: int| 0 <= i < keys.len() implies #[trigger] c2[i] == occurrences(s2, keys[i]) by {
        if i != pos {
            lemma_sorted_distinct(keys, i, pos);
        }
    }
    assert forall|i: int| 0 <= i < keys.len() implies s2.contains(#[trigger] keys[i]) by {
        let j = choose|j: int| 0 <= j < seen.len() && seen[j] == keys[i];
        assert(s2[j] == seen[j]);
    }
    assert forall|k: int| 0 <= k < s2.len() implies keys.contains(#[trigger] s2[k]) by {
        if k < seen.len() {
            assert(s2[k] == seen[k]);
        } else {
            assert(keys[pos] == s2[k]);
        }
    }
}

proof fn lemma_tally_insert(keys: Seq<Seq<char>>, counts: Seq<usize>, seen: Seq<Seq<char>>, pos: int, t: Seq<char>)
    requires
        tallies(keys, counts, seen),
        0 <= pos <= keys.len(),
        forall|j: int| 0 <= j < pos ==> lex_lt(#[trigger] keys[j], t),
        pos < keys.len() ==> !lex_lt(keys[pos], t) && keys[pos] != t,
    ensures
        tallies(keys.insert(pos, t), counts.insert(pos, 1usize), seen.push(t)),
{
    let k2 = keys.insert(pos, t);
    let c2 = counts.insert(pos, 1usize);
    let s2 = seen.push(t);
    assert(s2.drop_last() =~= seen);
    if pos < keys.len() {
        lemma_lex_total(keys[pos], t);
    }
    // Every key after the insertion point follows `t`.
    assert forall|j: int| pos <= j < keys.len() implies lex_lt(t, #[trigger] keys[j]) by {
        if j > pos {
            assert(lex_lt(keys[pos], keys[j]));
            lemma_lex_transitive(t, keys[pos], keys[j]);
        }
    }
    // No key equals `t`.
    assert forall|j: int| 0 <= j < keys.len() implies #[trigger] keys[j] != t by {
        if j < pos {
            assert(lex_lt(keys[j], t));
            lemma_lex_irreflexive(t);
        } else {
            assert(lex_lt(t, keys[j]));
            lemma_lex_irreflexive(t);
        }
    }
    assert(!seen.contains(t)) by {
        if seen.contains(t) {
            let k = choose|k: int| 0 <= k < seen.len() && seen[k] == t;
            assert(keys.contains(seen[k]));
        }
    }
    lemma_occurrences_absent(seen, t);
    assert forall|i: int, j: int| 0 <= i < j < k2.len() implies lex_lt(#[trigger] k2[i], #[trigger] k2[j]) by {
        if j < pos {
            assert(k2[i] == keys[i] && k2[j] == keys[j]);
        } else if j == pos {
            assert(k2[i] == keys[i]);
        } else if i < pos {
            assert(k2[i] == keys[i] && k2[j] == keys[j - 1]);
            assert(lex_lt(keys[i], t));
            lemma_lex_transitive(keys[i], t, keys[j - 1]);
        } else if i == pos {
            assert(k2[j] == keys[j - 1]);
        } else {
            assert(k2[i] == keys[i - 1] && k2[j] == keys[j - 1]);
        }
    }
    assert forall|i: int| 0 <= i < k2.len() implies #[trigger] c2[i] == occurrences(s2, k2[i]) by {
        if i < pos {
            assert(k2[i] == keys[i] && c2[i] == counts[i]);
        } else if i > pos {
            assert(k2[i] == keys[i - 1] && c2[i] == counts[i - 1]);
        }
    }
    assert forall|i: int| 0 <= i < k2.len() implies s2.contains(#[trigger] k2[i]) by {
        if i == pos {
            assert(s2[seen.len() as int] == t);
        } else {
            let ki = if i < pos { i } else { i - 1 };
            assert(k2[i] == keys[ki]);
            let j = choose|j: int| 0 <= j < seen.len() && seen[j] == keys[ki];
            assert(s2[j] == seen[j]);
        }
    }
    assert forall|k: int| 0 <= k < s2.len() implies k2.contains(#[trigger] s2[k]) by {
        if k < seen.len() {
            assert(s2[k] == seen[k]);
            let j = choose|j: int| 0 <= j < keys.len() && keys[j] == seen[k];
            if j < pos {
                assert(k2[j] == keys[j]);
            } else {
                assert(k2[j + 1] == keys[j]);
            }
        } else {
            assert(k2[pos] == t);
        }
    }
}

/// Sum of a list of counts.
pub open spec fn sum_counts(c: Seq<usize>) -> nat
    decreases c.len(),
{
    if c.len() == 0 {
        0
    } else {
        sum_counts(c.drop_last()) + c.last() as nat
    }
}

spec fn sum_occurrences(keys: Seq<Seq<char>>, seen: Seq<Seq<char>>) -> nat
    decreases keys.len(),
{
    if keys.len() == 0 {
        0
    } else {
        sum_occurrences(keys.drop_last(), seen) + occurrences(seen, keys.last())
    }
}

spec fn key_count(keys: Seq<Seq<char>>, x: Seq<char>) -> nat
    decreases keys.len(),
{
    if keys.len() == 0 {
        0
    } else {
        key_count(keys.drop_last(), x) + if keys.last() == x {
            1nat
        } else {
            0nat
        }
    }
}

proof fn lemma_sum_occurrences_push(keys: Seq<Seq<char>>, seen: Seq<Seq<char>>, x: Seq<char>)
    ensures
        sum_occurrences(keys, seen.push(x)) == sum_occurrences(keys, seen) + key_count(keys, x),
    decreases keys.len(),
{
    assert(seen.push(x).drop_last() =~= seen);
    if keys.len() > 0 {
        lemma_sum_occurrences_push(keys.drop_last(), seen, x);
    }
}

proof fn lemma_key_count(keys: Seq<Seq<char>>, x: Seq<char>)
    requires
        sorted_keys(keys),
    ensures
        key_count(keys, x) == if keys.contains(x) {
            1nat
        } else {
            0nat
        },
    decreases keys.len(),
{
    if keys.len() > 0 {
        let d = keys.drop_last();
        assert(sorted_keys(d)) by {
            assert forall|i: int, j: int| 0 <= i < j < d.len() implies lex_lt(#[trigger] d[i], #[trigger] d[j]) by {
                assert(d[i] == keys[i] && d[j] == keys[j]);
            }
        }
        lemma_key_count(d, x);
        if keys.last() == x {
            assert(!d.contains(x)) by {
                if d.contains(x) {
                    let j = choose|j: int| 0 <= j < d.len() && d[j] == x;
                    lemma_sorted_distinct(keys, j, keys.len() - 1);
                }
            }
            assert(keys[keys.len() - 1] == x);
        } else {
            if keys.contains(x) {
                let j = choose|j: int| 0 <= j < keys.len() && keys[j] == x;
                assert(j != keys.len() - 1);
                assert(d[j] == x);
            }
            if d.contains(x) {
                let j = choose|j: int| 0 <= j < d.len() && d[j] == x;
                assert(keys[j] == x);
            }
        }
    }
}

proof fn lemma_sum_occurrences_covers(keys: Seq<Seq<char>>, seen: Seq<Seq<char>>)
    requires
        sorted_keys(keys),
        forall|k: int| 0 <= k < seen.len() ==> keys.contains(#[trigger] seen[k]),
    ensures
        sum_occurrences(keys, seen) == seen.len(),
    decreases seen.len(),
{
    if seen.len() == 0 {
        lemma_sum_occurrences_empty(keys, seen);
    } else {
        let d = seen.drop_last();
        assert forall|k: int| 0 <= k < d.len() implies keys.contains(#[trigger] d[k]) by {
            assert(d[k] == seen[k]);
        }
        lemma_sum_occurrences_covers(keys, d);
        lemma_sum_occurrences_push(keys, d, seen.last());
        assert(keys.contains(seen[seen.len() - 1]));
        lemma_key_count(keys, seen.last());
        assert(d.push(seen.last()) =~= seen);
    }
}

proof fn lemma_sum_occurrences_empty(keys: Seq<Seq<char>>, seen: Seq<Seq<char>>)
    requires
        seen.len() == 0,
    ensures
        sum_occurrences(keys, seen) == 0,
    decreases keys.len(),
{
    if keys.len() > 0 {
        lemma_sum_occurrences_empty(keys.drop_last(), seen);
    }
}

proof fn lemma_sum_counts_matches(keys: Seq<Seq<char>>, counts: Seq<usize>, seen: Seq<Seq<char>>)
    requires
        keys.len() == counts.len(),
        forall|i: int| 0 <= i < keys.len() ==> #[trigger] counts[i] == occurrences(seen, keys[i]),
    ensures
        sum_counts(counts) == sum_occurrences(keys, seen),
    decreases keys.len(),
{
    if keys.len() > 0 {
        let dk = keys.drop_last();
        let dc = counts.drop_last();
        assert forall|i: int| 0 <= i < dk.len() implies #[trigger] dc[i] == occurrences(seen, dk[i]) by {
            assert(dc[i] == counts[i] && dk[i] == keys[i]);
        }
        lemma_sum_counts_matches(dk, dc, seen);
        assert(counts[counts.len() - 1] == occurrences(seen, keys[keys.len() - 1]));
    }
}

/// The counts of a tally add up to the number of tags counted.
pub proof fn lemma_tally_total(keys: Seq<Seq<char>>, counts: Seq<usize>, seen: Seq<Seq<char>>)
    requires
        tallies(keys, counts, seen),
    ensures
        sum_counts(counts) == seen.len(),
{
    lemma_sum_counts_matches(keys, counts, seen);
    lemma_sum_occurrences_covers(keys, seen);
}

/// Flattens the tags of all bookmarks.
fn collect_tags(bookmarks: &Vec<EnrichedBookmark>) -> (r: Vec<String>)
    ensures
        views(r@) == all_tags(bookmarks@),
{
    let mut out: Vec<String> = Vec::new();
    let mut i: usize = 0;
    while i < bookmarks.len()
        invariant
            0 <= i <= bookmarks@.len(),
            views(out@) == all_tags(bookmarks@.take(i as int)),
        decreases bookmarks@.len() - i,
    {
        let tags = &bookmarks[i].tags;
        let ghost base = views(out@);
        let mut j: usize = 0;
        while j < tags.len()
            invariant
                0 <= j <= tags@.len(),
                tags == bookmarks@[i as int].tags,
                views(out@) == base + views(tags@).take(j as int),
            decreases tags@.len() - j,
        {
            let ghost before = out@;
            out.push(copy_string(&tags[j]));
            assert(views(out@) =~= base + views(tags@).take(j + 1)) by {
                assert(views(out@) =~= views(before).push(tags@[j as int]@));
            }
            j += 1;
        }
        assert(bookmarks@.take(i + 1).drop_last() =~= bookmarks@.take(i as int));
        assert(views(tags@).take(tags@.len() as int) =~= views(tags@));
        i += 1;
    }
    assert(bookmarks@.take(bookmarks@.len() as int) =~= bookmarks@);
    out
}

/// Counts the bookmarks per tag: each distinct tag once, in code point order
/// (the order of a `BTreeMap<String, _>`), with the number of times it occurs
/// over all bookmarks.
pub fn count_tags(bookmarks: &Vec<EnrichedBookmark>) -> (r: Vec<(String, usize)>)
    requires
        all_tags(bookmarks@).len() <= usize::MAX,
    ensures
        tallies(count_keys(r@), count_values(r@), all_tags(bookmarks@)),
{
    let all = collect_tags(bookmarks);
    let ghost seen = views(all@);
    let mut keys: Vec<String> = Vec::new();
    let mut counts: Vec<usize> = Vec::new();
    let mut k: usize = 0;
    while k < all.len()
        invariant
            0 <= k <= all@.len(),
            seen == views(all@),
            seen.len() <= usize::MAX,
            tallies(views(keys@), counts@, seen.take(k as int)),
        decreases all@.len() - k,
    {
        let t = all[k].as_str();
        assert(seen.take(k + 1) =~= seen.take(k as int).push(t@));
        let mut pos: usize = 0;
        while pos < keys.len() && lex_less(keys[pos].as_str(), t)
            invariant
                0 <= pos <= keys@.len(),
                forall|j: int| 0 <= j < pos ==> lex_lt(#[trigger] views(keys@)[j], t@),
            decreases keys@.len() - pos,
        {
            pos += 1;
        }
        if pos < keys.len() && str_eq(keys[pos].as_str(), t) {
            proof {
                lemma_occurrences_bound(seen.take(k as int), t@);
            }
            let c = counts[pos];
            proof {
                lemma_tally_bump(views(keys@), counts@, seen.take(k as int), pos as int, t@);
            }
            counts.set(pos, c + 1);
        } else {
            proof {
                lemma_tally_insert(views(keys@), counts@, seen.take(k as int), pos as int, t@);
            }
            let ghost old_keys = keys@;
            keys.insert(pos, copy_string(&all[k]));
            counts.insert(pos, 1);
            assert(views(keys@) =~= views(old_keys).insert(pos as int, t@));
        }
        k += 1;
    }
    assert(seen.take(all@.len() as int) =~= seen);
    let mut out: Vec<(String, usize)> = Vec::new();
    let mut i: usize = 0;
    while i < keys.len()
        invariant
            0 <= i <= keys@.len(),
            keys@.len() == counts@.len(),
            out@.len() == i,
            forall|j: int| 0 <= j < i ==> (#[trigger] out@[j]).0@ == keys@[j]@ && out@[j].1 == counts@[j],
        decreases keys@.len() - i,
    {
        out.push((copy_string(&keys[i]), counts[i]));
        i += 1;
    }
    assert(count_keys(out@) =~= views(keys@));
    assert(count_values(out@) =~= counts@);
    out
}

} // verus!
