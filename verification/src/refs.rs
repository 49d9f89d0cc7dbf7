//! Bookmark references: record keys taken from AT URIs, and short key
//! prefixes that the user types to name a bookmark.

use vstd::prelude::*;

use crate::text::{chars_of, is_prefix, starts_with, string_of_range};
use crate::types::EnrichedBookmark;

verus! {

/// Shortest reference accepted, in characters.
pub const MIN_REF_LEN: usize = 4;

/// The text after the last `/` of `s`, or all of `s` when it holds none.
pub open spec fn last_segment(s: Seq<char>) -> Seq<char>
    decreases s.len(),
{
    if s.len() == 0 {
        s
    } else if s.last() == '/' {
        Seq::empty()
    } else {
        last_segment(s.drop_last()).push(s.last())
    }
}

/// Record key of an AT URI: its last path segment.
pub fn rkey_from_uri(uri: &str) -> (r: String)
    ensures
        r@ == last_segment(uri@),
{
    let v = chars_of(uri);
    let mut start: usize = 0;
    let mut i: usize = 0;
    while i < v.len()
        invariant
            v@ == uri@,
            0 <= start <= i <= v@.len(),
            last_segment(v@.take(i as int)) == v@.subrange(start as int, i as int),
        decreases v@.len() - i,
    {
        assert(v@.take(i + 1).drop_last() =~= v@.take(i as int));
        if v[i] == '/' {
            start = i + 1;
            assert(v@.subrange(start as int, i + 1) =~= Seq::<char>::empty());
        } else {
            assert(v@.subrange(start as int, i + 1) =~= v@.subrange(start as int, i as int).push(v@[i as int]));
        }
        i += 1;
    }
    assert(v@.take(v@.len() as int) =~= v@);
    string_of_range(&v, start, v.len())
}

/// Why a reference names no single bookmark.
#[derive(Debug, Clone, Copy, PartialEq, Eq)]
pub enum RefError {
    /// The reference has fewer than four characters.
    TooShort,
    /// No record key starts with the reference.
    NotFound,
    /// This many record keys start with the reference.
    Ambiguous(usize),
}

/// Positions, in order, of the bookmarks whose record key starts with `p`.
pub open spec fn ref_matches(bms: Seq<EnrichedBookmark>, p: Seq<char>) -> Seq<int>
    decreases bms.len(),
{
    if bms.len() == 0 {
        Seq::empty()
    } else {
        let rest = ref_matches(bms.drop_last(), p);
        if is_prefix(p, bms.last().rkey@) {
            rest.push(bms.len() - 1)
        } else {
            rest
        }
    }
}

/// The error that `resolve_ref` gives for reference `p`, when it gives one.
pub open spec fn ref_error(bms: Seq<EnrichedBookmark>, p: Seq<char>) -> RefError {
    if p.len() < MIN_REF_LEN {
        RefError::TooShort
    } else if ref_matches(bms, p).len() == 0 {
        RefError::NotFound
    } else {
        RefError::Ambiguous(ref_matches(bms, p).len() as usize)
    }
}

proof fn lemma_ref_matches_bounds(bms: Seq<EnrichedBookmark>, p: Seq<char>)
    ensures
        ref_matches(bms, p).len() <= bms.len(),
        forall|k: int| 0 <= k < ref_matches(bms, p).len() ==> 0 <= #[trigger] ref_matches(bms, p)[k] < bms.len(),
    decreases bms.len(),
{
    if bms.len() > 0 {
        lemma_ref_matches_bounds(bms.drop_last(), p);
    }
}

/// Resolves a reference (a record key prefix of at least four characters) to
/// the one bookmark whose record key starts with it.
pub fn resolve_ref<'a>(prefix: &str, bookmarks: &'a [EnrichedBookmark]) -> (r: Result<&'a EnrichedBookmark, RefError>)
    ensures
        r is Ok <==> (prefix@.len() >= MIN_REF_LEN && ref_matches(bookmarks@, prefix@).len() == 1),
        r matches Ok(b) ==> *b == bookmarks@[ref_matches(bookmarks@, prefix@)[0]],
        r matches Err(e) ==> e == ref_error(bookmarks@, prefix@),
{
    let pv = chars_of(prefix);
    if pv.len() < MIN_REF_LEN {
        return Err(RefError::TooShort);
    }
    let ghost bms = bookmarks@;
    let mut count: usize = 0;
    let mut first: usize = 0;
    let mut i: usize = 0;
    while i < bookmarks.len()
        invariant
            bms == bookmarks@,
            0 <= i <= bms.len(),
            count == ref_matches(bms.take(i as int), prefix@).len(),
            count > 0 ==> first == ref_matches(bms.take(i as int), prefix@)[0],
            count <= i,
        decreases bms.len() - i,
    {
        assert(bms.take(i + 1).drop_last() =~= bms.take(i as int));
        if starts_with(bookmarks[i].rkey.as_str(), prefix) {
            if count == 0 {
                first = i;
            }
            count += 1;
        }
        i += 1;
    }
    assert(bms.take(bms.len() as int) =~= bms);
    proof {
        lemma_ref_matches_bounds(bms, prefix@);
    }
    if count == 0 {
        Err(RefError::NotFound)
    } else if count == 1 {
        Ok(&bookmarks[first])
    } else {
        Err(RefError::Ambiguous(count))
    }
}

/// Every bookmark that a reference matches has a record key starting with
/// the reference; so the bookmark that `resolve_ref` returns does.
pub proof fn lemma_ref_matches_prefix(bms: Seq<EnrichedBookmark>, p: Seq<char>)
    ensures
        forall|k: int| 0 <= k < ref_matches(bms, p).len() ==> is_prefix(p, bms[#[trigger] ref_matches(bms, p)[k]].rkey@),
    decreases bms.len(),
{
    if bms.len() > 0 {
        let d = bms.drop_last();
        lemma_ref_matches_prefix(d, p);
        lemma_ref_matches_bounds(d, p);
        let m = ref_matches(d, p);
        assert forall|k: int| 0 <= k < ref_matches(bms, p).len() implies is_prefix(p, bms[#[trigger] ref_matches(bms, p)[k]].rkey@) by {
            if k < m.len() {
                assert(ref_matches(bms, p)[k] == m[k]);
                assert(bms[m[k]] == d[m[k]]);
            }
        }
    }
}

/// The matches of a reference are exactly the positions whose record key
/// starts with it, in increasing order.
pub proof fn lemma_ref_matches_complete(bms: Seq<EnrichedBookmark>, p: Seq<char>)
    ensures
        forall|k: int| 0 <= k < bms.len() ==> (ref_matches(bms, p).contains(k) <==> (p.len() <= (#[trigger] bms[k]).rkey@.len()
            && bms[k].rkey@.take(p.len() as int) == p)),
        forall|a: int, b: int| 0 <= a < b < ref_matches(bms, p).len() ==> ref_matches(bms, p)[a] < ref_matches(bms, p)[b],
        forall|a: int| 0 <= a < ref_matches(bms, p).len() ==> 0 <= #[trigger] ref_matches(bms, p)[a] < bms.len(),
    decreases bms.len(),
{
    lemma_ref_matches_bounds(bms, p);
    if bms.len() > 0 {
        let d = bms.drop_last();
        lemma_ref_matches_complete(d, p);
        lemma_ref_matches_bounds(d, p);
        let m = ref_matches(d, p);
        let n = bms.len() - 1;
        assert forall|k: int| 0 <= k < bms.len() implies (ref_matches(bms, p).contains(k) <==> (p.len() <= (#[trigger] bms[k]).rkey@.len()
            && bms[k].rkey@.take(p.len() as int) == p)) by {
            if k < n {
                assert(bms[k] == d[k]);
                if ref_matches(bms, p).contains(k) {
                    let j = choose|j: int| 0 <= j < ref_matches(bms, p).len() && ref_matches(bms, p)[j] == k;
                    if j < m.len() {
                        assert(ref_matches(bms, p)[j] == m[j]);
                    }
                }
                if m.contains(k) {
                    let j = choose|j: int| 0 <= j < m.len() && m[j] == k;
                    if is_prefix(p, bms.last().rkey@) {
                        assert(m.push(n)[j] == k);
                    }
                }
            } else {
                assert(bms[k] == bms.last());
                if is_prefix(p, bms.last().rkey@) {
                    assert(m.push(n)[m.len() as int] == n);
                } else if m.contains(k) {
                    let j = choose|j: int| 0 <= j < m.len() && m[j] == k;
                }
            }
        }
    }
}

/// A reference of at least four characters that starts exactly one record
/// key resolves to that bookmark.
pub proof fn lemma_unique_prefix_resolves(bms: Seq<EnrichedBookmark>, p: Seq<char>, k: int)
    requires
        p.len() >= 4,
        0 <= k < bms.len(),
        p.len() <= bms[k].rkey@.len() && bms[k].rkey@.take(p.len() as int) == p,
        forall|j: int| 0 <= j < bms.len() && j != k ==> !(p.len() <= (#[trigger] bms[j]).rkey@.len() && bms[j].rkey@.take(p.len() as int) == p),
    ensures
        p.len() >= MIN_REF_LEN,
        ref_matches(bms, p) == seq![k],
{
    lemma_ref_matches_complete(bms, p);
    let m = ref_matches(bms, p);
    assert(m.contains(k));
    assert forall|a: int| 0 <= a < m.len() implies #[trigger] m[a] == k by {
        let x = m[a];
        assert(0 <= x < bms.len());
        assert(m.contains(x)) by {
            assert(m[a] == x);
        }
        let bx = bms[x];
        assert(p.len() <= bx.rkey@.len() && bx.rkey@.take(p.len() as int) == p);
        if x != k {
            assert(!(p.len() <= bms[x].rkey@.len() && bms[x].rkey@.take(p.len() as int) == p));
        }
    }
    if m.len() > 1 {
        assert(m[0] < m[1]);
    }
    assert(m =~= seq![k]);
}

/// A reference of fewer than four characters is refused as too short.
pub proof fn lemma_short_ref_refused(bms: Seq<EnrichedBookmark>, p: Seq<char>)
    requires
        p.len() < 4,
    ensures
        p.len() < MIN_REF_LEN,
        ref_error(bms, p) == RefError::TooShort,
{
}

/// The record key of a URI holds no `/`.
pub proof fn lemma_last_segment_has_no_slash(s: Seq<char>)
    ensures
        !last_segment(s).contains('/'),
        last_segment(s).len() <= s.len(),
        last_segment(s) == s.subrange(s.len() - last_segment(s).len(), s.len() as int),
    decreases s.len(),
{
    if s.len() > 0 && s.last() != '/' {
        lemma_last_segment_has_no_slash(s.drop_last());
        let r = last_segment(s.drop_last());
        assert(s.subrange(s.len() - r.len() - 1, s.len() as int) =~= s.drop_last().subrange(
            s.len() - 1 - r.len(),
            s.len() - 1,
        ).push(s.last()));
        assert forall|k: int| 0 <= k < r.push(s.last()).len() implies r.push(s.last())[k] != '/' by {
            if k < r.len() {
                assert(!r.contains('/'));
                assert(r[k] == r.push(s.last())[k]);
            }
        }
    } else if s.len() > 0 {
        assert(s.subrange(s.len() as int, s.len() as int) =~= Seq::<char>::empty());
    }
}

/// A URI built from any base, a `/` and a record key holding no `/` gives
/// that record key back.
pub proof fn lemma_rkey_of_appended_key(base: Seq<char>, key: Seq<char>)
    requires
        !key.contains('/'),
    ensures
        last_segment(base.push('/') + key) == key,
    decreases key.len(),
{
    if key.len() == 0 {
        assert(base.push('/') + key =~= base.push('/'));
    } else {
        assert((base.push('/') + key).drop_last() =~= base.push('/') + key.drop_last());
        assert(!key.drop_last().contains('/')) by {
            assert forall|k: int| 0 <= k < key.drop_last().len() implies key.drop_last()[k] != '/' by {
                assert(key.drop_last()[k] == key[k]);
            }
        }
        assert(key.last() != '/') by {
            assert(key[key.len() - 1] == key.last());
        }
        lemma_rkey_of_appended_key(base, key.drop_last());
        assert(key.drop_last().push(key.last()) =~= key);
    }
}

} // verus!
