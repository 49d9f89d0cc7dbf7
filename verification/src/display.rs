//! Terminal layout of bookmarks: column widths, cells cut to their display
//! width, and the fields of the detail view. Colouring and printing are left
//! to the caller.

use vstd::prelude::*;

use crate::text::{chars_of, copy_string, is_control, join_strings, join_with, push_char, views};
use crate::types::EnrichedBookmark;
use vstd::string::StringSliceAdditionalSpecFns;
use vstd::utf8::{decode_utf8, encode_utf8, encode_utf8_decode_utf8};

verus! {

/// Displayed width of a string, as `unicode_width::UnicodeWidthStr::width`
/// computes it.
pub uninterp spec fn str_width(s: Seq<char>) -> usize;

/// Displayed width of a character, as `unicode_width::UnicodeWidthChar::width`
/// computes it (`None` for control characters).
pub uninterp spec fn char_width(c: char) -> Option<usize>;

/// Displayed width of a string, from `UnicodeWidthStr::width`.
#[verifier::external_body]
pub fn display_width(s: &str) -> (r: usize)
    ensures
        r == str_width(s@),
{
    unicode_width::UnicodeWidthStr::width(s)
}

/// Displayed width of a character, from `UnicodeWidthChar::width`. As the
/// crate's source shows, it is `None` exactly for control characters and 1
/// for printable ASCII.
#[verifier::external_body]
pub fn char_display_width(c: char) -> (r: Option<usize>)
    ensures
        r == char_width(c),
        r is None <==> is_control(c),
        (' ' <= c <= '~') ==> r == Some(1usize),
{
    unicode_width::UnicodeWidthChar::width(c)
}

/// Width counted for one character while cutting: its width, or 0.
pub open spec fn cell_char_width(c: char) -> nat {
    match char_width(c) {
        Some(w) => w as nat,
        None => 0,
    }
}

/// Sum of the character widths of `s`.
pub open spec fn width_sum(s: Seq<char>) -> nat
    decreases s.len(),
{
    if s.len() == 0 {
        0
    } else {
        width_sum(s.drop_last()) + cell_char_width(s.last())
    }
}

/// Cutting `s` from position `i`: the first character that would not leave
/// room for `…` is replaced by it.
pub open spec fn cut_from(s: Seq<char>, max: nat, i: nat) -> Seq<char>
    decreases s.len() - i,
{
    if i >= s.len() {
        s
    } else if width_sum(s.take(i as int)) + cell_char_width(s[i as int]) + 1 > max {
        s.take(i as int).push('…')
    } else {
        cut_from(s, max, i + 1)
    }
}

/// `s` fitted to `max` columns: unchanged when it fits, else its longest
/// prefix that leaves a column for `…`, followed by `…`.
pub open spec fn truncated(s: Seq<char>, max: nat) -> Seq<char> {
    if str_width(s) <= max {
        s
    } else {
        cut_from(s, max, 0)
    }
}

/// A cut text is the text itself, or a proper prefix of it followed by `…`,
/// where every character kept left room for `…` within the width.
pub proof fn lemma_cut_shape(s: Seq<char>, max: nat, i: nat)
    ensures
        cut_from(s, max, i) == s || exists|k: int|
            i <= k < s.len() && cut_from(s, max, i) == s.take(k).push('…') && width_sum(s.take(k)) + cell_char_width(
                s[k],
            ) + 1 > max && forall|j: int| i <= j < k ==> width_sum(s.take(j)) + cell_char_width(#[trigger] s[j]) + 1 <= max,
    decreases s.len() - i,
{
    if i < s.len() {
        if width_sum(s.take(i as int)) + cell_char_width(s[i as int]) + 1 > max {
            assert(cut_from(s, max, i) == s.take(i as int).push('…'));
        } else {
            lemma_cut_shape(s, max, i + 1);
            if cut_from(s, max, i + 1) != s {
                let k = choose|k: int|
                    i + 1 <= k < s.len() && cut_from(s, max, i + 1) == s.take(k).push('…') && width_sum(s.take(k))
                        + cell_char_width(s[k]) + 1 > max && forall|j: int|
                        i + 1 <= j < k ==> width_sum(s.take(j)) + cell_char_width(#[trigger] s[j]) + 1 <= max;
                assert forall|j: int| i <= j < k implies width_sum(s.take(j)) + cell_char_width(#[trigger] s[j]) + 1 <= max by {
                    if j != i {
                        assert(i + 1 <= j < k);
                    }
                }
            }
        }
    }
}

proof fn lemma_width_sum_step(s: Seq<char>, j: int)
    requires
        0 <= j < s.len(),
    ensures
        width_sum(s.take(j + 1)) == width_sum(s.take(j)) + cell_char_width(s[j]),
{
    assert(s.take(j + 1).drop_last() =~= s.take(j));
    assert(s.take(j + 1).last() == s[j]);
}

proof fn lemma_width_sum_monotone(s: Seq<char>, a: int, b: int)
    requires
        0 <= a <= b <= s.len(),
    ensures
        width_sum(s.take(a)) <= width_sum(s.take(b)),
    decreases b - a,
{
    if a < b {
        lemma_width_sum_monotone(s, a, b - 1);
        lemma_width_sum_step(s, b - 1);
    }
}

proof fn lemma_cut_from_outcome(s: Seq<char>, max: nat, i: int)
    requires
        0 <= i <= s.len(),
    ensures
        (forall|j: int| i <= j < s.len() ==> width_sum(#[trigger] s.take(j + 1)) + 1 <= max) ==> cut_from(s, max, i as nat) == s,
        (exists|j: int| i <= j < s.len() && width_sum(#[trigger] s.take(j + 1)) + 1 > max) ==> exists|k: int|
            i <= k < s.len() && cut_from(s, max, i as nat) == s.take(k).push('…') && width_sum(s.take(k + 1)) + 1 > max
                && forall|j: int| i <= j < k ==> width_sum(#[trigger] s.take(j + 1)) + 1 <= max,
    decreases s.len() - i,
{
    if i < s.len() {
        lemma_width_sum_step(s, i);
        lemma_cut_from_outcome(s, max, i + 1);
        if width_sum(s.take(i + 1)) + 1 > max {
            assert(cut_from(s, max, i as nat) == s.take(i).push('…'));
        } else {
            assert(cut_from(s, max, i as nat) == cut_from(s, max, (i + 1) as nat));
            if exists|j: int| i <= j < s.len() && width_sum(#[trigger] s.take(j + 1)) + 1 > max {
                let j0 = choose|j: int| i <= j < s.len() && width_sum(#[trigger] s.take(j + 1)) + 1 > max;
                assert(j0 != i);
                assert(i + 1 <= j0 < s.len() && width_sum(s.take(j0 + 1)) + 1 > max);
                let k = choose|k: int|
                    i + 1 <= k < s.len() && cut_from(s, max, (i + 1) as nat) == s.take(k).push('…') && width_sum(s.take(k + 1)) + 1
                        > max && forall|j: int| i + 1 <= j < k ==> width_sum(#[trigger] s.take(j + 1)) + 1 <= max;
                assert forall|j: int| i <= j < k implies width_sum(#[trigger] s.take(j + 1)) + 1 <= max by {
                    if j != i {
                        assert(i + 1 <= j < k);
                    }
                }
            }
        }
    }
}

/// Cutting to a width: a text whose display width fits comes back as it is.
/// Otherwise, when the widths of its characters (control characters counted
/// as 0) add up to at least the width, it becomes its longest prefix whose
/// character widths leave one column for `…`, followed by `…`; when they add
/// up to less, it comes back as it is.
pub proof fn lemma_truncate_law(s: Seq<char>, max: nat)
    ensures
        str_width(s) <= max ==> truncated(s, max) == s,
        str_width(s) > max && width_sum(s) + 1 <= max ==> truncated(s, max) == s,
        str_width(s) > max && s.len() > 0 && width_sum(s) + 1 > max ==> exists|k: int|
            0 <= k < s.len() && truncated(s, max) == s.take(k).push('…') && width_sum(s.take(k + 1)) + 1 > max && (k == 0
                || width_sum(s.take(k)) + 1 <= max),
{
    lemma_cut_from_outcome(s, max, 0);
    assert(s.take(s.len() as int) =~= s);
    if width_sum(s) + 1 <= max {
        assert forall|j: int| 0 <= j < s.len() implies width_sum(#[trigger] s.take(j + 1)) + 1 <= max by {
            lemma_width_sum_monotone(s, j + 1, s.len() as int);
        }
    }
    if s.len() > 0 && width_sum(s) + 1 > max {
        let j = s.len() - 1;
        assert(s.take(j + 1) =~= s);
        assert(width_sum(s.take(j + 1)) + 1 > max);
        if str_width(s) > max {
            let k = choose|k: int|
                0 <= k < s.len() && cut_from(s, max, 0) == s.take(k).push('…') && width_sum(s.take(k + 1)) + 1 > max
                    && forall|j: int| 0 <= j < k ==> width_sum(#[trigger] s.take(j + 1)) + 1 <= max;
            if k > 0 {
                assert(width_sum(s.take((k - 1) + 1)) + 1 <= max);
            }
        }
    }
}

/// The title and URL columns never take more than what the fixed columns
/// leave.
pub proof fn lemma_columns_fit(rem: int)
    requires
        rem >= 0,
    ensures
        rem * 2 / 3 + rem / 3 <= rem,
{
    assert(rem * 2 / 3 + rem / 3 <= rem) by (nonlinear_arith)
        requires
            rem >= 0,
    ;
}

/// Cuts a string to a display width, ending it with `…` when cut.
pub fn truncate(s: &str, max_width: usize) -> (r: String)
    ensures
        r@ == truncated(s@, max_width as nat),
{
    if display_width(s) <= max_width {
        return s.to_owned();
    }
    let v = chars_of(s);
    let mut result = String::new();
    let mut width: usize = 0;
    let mut i: usize = 0;
    while i < v.len()
        invariant
            v@ == s@,
            0 <= i <= v@.len(),
            result@ == v@.take(i as int),
            width == width_sum(v@.take(i as int)),
            width <= max_width,
            str_width(s@) > max_width,
            cut_from(v@, max_width as nat, 0) == cut_from(v@, max_width as nat, i as nat),
        decreases v@.len() - i,
    {
        let ch = v[i];
        let ch_width = match char_display_width(ch) {
            Some(w) => w,
            None => 0,
        };
        assert(v@.take(i + 1).drop_last() =~= v@.take(i as int));
        assert(v@.take(i + 1).last() == ch);
        if ch_width >= max_width - width {
            push_char(&mut result, '…');
            return result;
        }
        push_char(&mut result, ch);
        assert(result@ =~= v@.take(i + 1));
        width += ch_width;
        i += 1;
    }
    assert(v@.take(v@.len() as int) =~= v@);
    result
}

/// Widths of the title and URL columns.
pub struct ColumnWidths {
    pub title: usize,
    pub url: usize,
}

/// Width of the reference column.
pub const REF_WIDTH: usize = 8;

/// Width of the tags column.
pub const TAGS_WIDTH: usize = 20;

/// Terminal width assumed when it cannot be read.
pub const DEFAULT_TERM_WIDTH: usize = 100;

/// The columns left for title and URL: of the terminal width less the fixed
/// columns and separators, two thirds for the title and one third for the URL.
pub fn column_widths(term_width: Option<u16>) -> (r: ColumnWidths)
    ensures
        ({
            let t: int = match term_width {
                Some(w) => w as int,
                None => DEFAULT_TERM_WIDTH as int,
            };
            let rem: int = if t > REF_WIDTH + TAGS_WIDTH + 8 {
                t - (REF_WIDTH + TAGS_WIDTH + 8)
            } else {
                0
            };
            r.title == rem * 2 / 3 && r.url == rem / 3
        }),
{
    let t: usize = match term_width {
        Some(w) => w as usize,
        None => DEFAULT_TERM_WIDTH,
    };
    let fixed = REF_WIDTH + TAGS_WIDTH + 8;
    let remaining = t.saturating_sub(fixed);
    ColumnWidths { title: remaining * 2 / 3, url: remaining / 3 }
}

/// The cells of one bookmark row, before colouring.
pub struct BookmarkRow {
    pub reference: String,
    pub title: String,
    pub url: String,
    pub tags: String,
}

/// The characters of the first `REF_WIDTH` bytes of a record key (or all of
/// it when shorter).
pub open spec fn ref_prefix(rkey: Seq<char>) -> Seq<char> {
    decode_utf8(encode_utf8(rkey).take(ref_cut(rkey)))
}

/// The byte length at which the reference column cuts a record key.
pub open spec fn ref_cut(rkey: Seq<char>) -> int {
    let n = encode_utf8(rkey).len() as usize;
    if n < REF_WIDTH { n as int } else { REF_WIDTH as int }
}

/// The cells of a bookmark's row: its record key (first eight bytes), its
/// title (or URL), its URL and its tags joined with `, `, each cut to its
/// column. The record key must not be cut inside a character.
pub fn bookmark_row(b: &EnrichedBookmark, widths: &ColumnWidths) -> (r: BookmarkRow)
    requires
        vstd::utf8::is_char_boundary(encode_utf8(b.rkey@), ref_cut(b.rkey@)),
    ensures
        r.reference@ == truncated(ref_prefix(b.rkey@), REF_WIDTH as nat),
        r.title@ == truncated(
            match b.title {
                Some(t) => t@,
                None => b.subject@,
            },
            widths.title as nat,
        ),
        r.url@ == truncated(b.subject@, widths.url as nat),
        r.tags@ == truncated(join_with(views(b.tags@), ", "@), TAGS_WIDTH as nat),
{
    let key = b.rkey.as_str();
    let n = key.len();
    let cut = if n < REF_WIDTH { n } else { REF_WIDTH };
    let (head, _) = key.split_at(cut);
    proof {
        encode_utf8_decode_utf8(head@);
        assert(head.spec_bytes() == encode_utf8(head@));
        assert(encode_utf8(b.rkey@).take(cut as int) =~= encode_utf8(b.rkey@).subrange(0, cut as int));
    }
    let reference = truncate(head, REF_WIDTH);
    let title = truncate(b.display_title(), widths.title);
    let url = truncate(b.subject.as_str(), widths.url);
    let joined = join_strings(&b.tags, ", ");
    let tags = truncate(joined.as_str(), TAGS_WIDTH);
    BookmarkRow { reference, title, url, tags }
}

/// The fields shown in a bookmark's detail view.
#[derive(Debug, Clone, Copy, PartialEq, Eq)]
pub enum DetailField {
    Ref,
    Title,
    Url,
    Description,
    Tags,
    Note,
    Created,
}

/// The detail lines of a bookmark, as fields and their text views.
pub open spec fn detail_spec(b: EnrichedBookmark) -> Seq<(DetailField, Seq<char>)> {
    let title = match b.title {
        Some(t) => seq![(DetailField::Title, t@)],
        None => Seq::empty(),
    };
    let desc = match b.description {
        Some(d) => seq![(DetailField::Description, d@)],
        None => Seq::empty(),
    };
    let tags = if b.tags@.len() > 0 {
        seq![(DetailField::Tags, join_with(views(b.tags@), ", "@))]
    } else {
        Seq::empty()
    };
    let note = match b.note {
        Some(n) => seq![(DetailField::Note, n@)],
        None => Seq::empty(),
    };
    seq![(DetailField::Ref, b.rkey@)] + title + seq![(DetailField::Url, b.subject@)] + desc + tags + note
        + seq![(DetailField::Created, b.created_at@)]
}

/// The view of detail lines.
pub open spec fn detail_view(lines: Seq<(DetailField, String)>) -> Seq<(DetailField, Seq<char>)> {
    lines.map_values(|l: (DetailField, String)| (l.0, l.1@))
}

/// The lines of a bookmark's detail view: record key, title if any, URL,
/// description if any, tags if any, note if any, creation time.
pub fn detail_lines(b: &EnrichedBookmark) -> (r: Vec<(DetailField, String)>)
    ensures
        detail_view(r@) == detail_spec(*b),
{
    let mut out: Vec<(DetailField, String)> = Vec::new();
    out.push((DetailField::Ref, copy_string(&b.rkey)));
    if let Some(t) = &b.title {
        out.push((DetailField::Title, copy_string(t)));
    }
    out.push((DetailField::Url, copy_string(&b.subject)));
    if let Some(d) = &b.description {
        out.push((DetailField::Description, copy_string(d)));
    }
    if b.tags.len() > 0 {
        out.push((DetailField::Tags, join_strings(&b.tags, ", ")));
    }
    if let Some(n) = &b.note {
        out.push((DetailField::Note, copy_string(n)));
    }
    out.push((DetailField::Created, copy_string(&b.created_at)));
    assert(detail_view(out@) =~= detail_spec(*b));
    out
}

} // verus!
