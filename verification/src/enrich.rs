//! Page metadata: a fetched page's title, description, favicon and image,
//! found with regular expressions over its HTML and cleaned up.

use vstd::prelude::*;

use crate::text::{
    char_is_control, char_is_white_space, chars_of, contains, is_control, is_prefix, is_white_space, join_with,
    lemma_join_extend_last, lemma_join_push, occurs_in, string_of_range,
};
use crate::types::{opt_view, UrlMetadata};
use crate::urls::{is_http_scheme, http_scheme, join_url, url_join, ParsedUrl, UrlView};
use vstd::string::StringExecFns;
use vstd::utf8::encode_utf8;

verus! {

/// Longest title kept, in characters.
pub const MAX_TITLE_LENGTH: usize = 200;

/// Longest description kept, in characters.
pub const MAX_DESCRIPTION_LENGTH: usize = 500;

/// Longest favicon or image URL kept, in bytes.
pub const MAX_URL_LENGTH: usize = 2000;

/// `s` without its leading white space.
pub open spec fn trim_start(s: Seq<char>) -> Seq<char>
    decreases s.len(),
{
    if s.len() > 0 && is_white_space(s[0]) {
        trim_start(s.drop_first())
    } else {
        s
    }
}

/// `s` without its trailing white space.
pub open spec fn trim_end(s: Seq<char>) -> Seq<char>
    decreases s.len(),
{
    if s.len() > 0 && is_white_space(s.last()) {
        trim_end(s.drop_last())
    } else {
        s
    }
}

/// `s` without leading and trailing white space (`str::trim`).
pub open spec fn trim(s: Seq<char>) -> Seq<char> {
    trim_end(trim_start(s))
}

/// `s` without its control characters.
pub open spec fn strip_control(s: Seq<char>) -> Seq<char>
    decreases s.len(),
{
    if s.len() == 0 {
        s
    } else if is_control(s.last()) {
        strip_control(s.drop_last())
    } else {
        strip_control(s.drop_last()).push(s.last())
    }
}

/// The maximal runs of non-white-space characters of `s`, in order
/// (`str::split_whitespace`).
pub open spec fn words(s: Seq<char>) -> Seq<Seq<char>>
    decreases s.len(),
{
    if s.len() == 0 {
        Seq::empty()
    } else {
        let w = words(s.drop_last());
        let c = s.last();
        if is_white_space(c) {
            w
        } else if s.len() >= 2 && !is_white_space(s[s.len() - 2]) && w.len() > 0 {
            w.update(w.len() - 1, w.last().push(c))
        } else {
            w.push(seq![c])
        }
    }
}

/// At most the first `n` characters of `s`.
pub open spec fn take_upto(s: Seq<char>, n: nat) -> Seq<char> {
    if n < s.len() {
        s.take(n as int)
    } else {
        s
    }
}

/// Text cleaned for storage: trimmed, control characters removed, white
/// space runs collapsed to one space, cut to `max` characters.
pub open spec fn sanitized(s: Seq<char>, max: nat) -> Seq<char> {
    take_upto(join_with(words(strip_control(trim(s))), seq![' ']), max)
}

proof fn lemma_trim_start(s: Seq<char>, a: int)
    requires
        0 <= a <= s.len(),
        forall|k: int| 0 <= k < a ==> is_white_space(#[trigger] s[k]),
        a == s.len() || !is_white_space(s[a]),
    ensures
        trim_start(s) == s.subrange(a, s.len() as int),
    decreases a,
{
    if a == 0 {
        assert(s.subrange(0, s.len() as int) =~= s);
    } else {
        let t = s.drop_first();
        assert forall|k: int| 0 <= k < a - 1 implies is_white_space(#[trigger] t[k]) by {
            assert(t[k] == s[k + 1]);
        }
        if a < s.len() {
            assert(t[a - 1] == s[a]);
        }
        lemma_trim_start(t, a - 1);
        assert(t.subrange(a - 1, t.len() as int) =~= s.subrange(a, s.len() as int));
        assert(is_white_space(s[0]));
    }
}

proof fn lemma_trim_end(t: Seq<char>, b: int)
    requires
        0 <= b <= t.len(),
        forall|k: int| b <= k < t.len() ==> is_white_space(#[trigger] t[k]),
        b == 0 || !is_white_space(t[b - 1]),
    ensures
        trim_end(t) == t.take(b),
    decreases t.len() - b,
{
    if b == t.len() {
        assert(t.take(b) =~= t);
        if t.len() > 0 {
            assert(t.last() == t[b - 1]);
        }
    } else {
        let u = t.drop_last();
        assert(is_white_space(t[t.len() - 1]));
        assert forall|k: int| b <= k < u.len() implies is_white_space(#[trigger] u[k]) by {
            assert(u[k] == t[k]);
        }
        if b > 0 {
            assert(u[b - 1] == t[b - 1]);
        }
        lemma_trim_end(u, b);
        assert(u.take(b) =~= t.take(b));
    }
}

/// A text ending in a non-white-space character has a word.
proof fn lemma_words_nonempty(s: Seq<char>)
    requires
        s.len() > 0,
        !is_white_space(s.last()),
    ensures
        words(s).len() > 0,
{
    let w = words(s.drop_last());
    if s.len() >= 2 && !is_white_space(s[s.len() - 2]) && w.len() > 0 {
        assert(w.update(w.len() - 1, w.last().push(s.last())).len() == w.len());
    }
}

/// No character of `s` is a control character.
pub open spec fn free_of_control(s: Seq<char>) -> bool {
    forall|k: int| 0 <= k < s.len() ==> !is_control(#[trigger] s[k])
}

proof fn lemma_strip_control_clean(s: Seq<char>)
    ensures
        free_of_control(strip_control(s)),
    decreases s.len(),
{
    if s.len() > 0 {
        lemma_strip_control_clean(s.drop_last());
        let r = strip_control(s.drop_last());
        if !is_control(s.last()) {
            assert forall|k: int| 0 <= k < r.push(s.last()).len() implies !is_control(#[trigger] r.push(s.last())[k]) by {
                if k < r.len() {
                    assert(r.push(s.last())[k] == r[k]);
                }
            }
        }
    }
}

proof fn lemma_words_clean(s: Seq<char>)
    requires
        free_of_control(s),
    ensures
        forall|i: int| 0 <= i < words(s).len() ==> free_of_control(#[trigger] words(s)[i]),
    decreases s.len(),
{
    if s.len() > 0 {
        let d = s.drop_last();
        assert(free_of_control(d)) by {
            assert forall|k: int| 0 <= k < d.len() implies !is_control(#[trigger] d[k]) by {
                assert(d[k] == s[k]);
            }
        }
        lemma_words_clean(d);
        let w = words(d);
        let c = s.last();
        assert(!is_control(s[s.len() - 1]));
        if !is_white_space(c) {
            if s.len() >= 2 && !is_white_space(s[s.len() - 2]) && w.len() > 0 {
                let u = w.update(w.len() - 1, w.last().push(c));
                assert forall|i: int| 0 <= i < u.len() implies free_of_control(#[trigger] u[i]) by {
                    if i == w.len() - 1 {
                        assert(free_of_control(w[i]));
                        assert forall|k: int| 0 <= k < u[i].len() implies !is_control(#[trigger] u[i][k]) by {
                            if k < w[i].len() {
                                assert(u[i][k] == w[i][k]);
                            }
                        }
                    } else {
                        assert(u[i] == w[i]);
                    }
                }
            } else {
                let u = w.push(seq![c]);
                assert forall|i: int| 0 <= i < u.len() implies free_of_control(#[trigger] u[i]) by {
                    if i < w.len() {
                        assert(u[i] == w[i]);
                    }
                }
            }
        }
    }
}

proof fn lemma_join_clean(parts: Seq<Seq<char>>, sep: Seq<char>)
    requires
        free_of_control(sep),
        forall|i: int| 0 <= i < parts.len() ==> free_of_control(#[trigger] parts[i]),
    ensures
        free_of_control(join_with(parts, sep)),
    decreases parts.len(),
{
    if parts.len() == 1 {
        assert(free_of_control(parts[0]));
    } else if parts.len() > 1 {
        let d = parts.drop_last();
        assert forall|i: int| 0 <= i < d.len() implies free_of_control(#[trigger] d[i]) by {
            assert(d[i] == parts[i]);
        }
        lemma_join_clean(d, sep);
        let a = join_with(d, sep);
        let l = parts.last();
        assert(free_of_control(parts[parts.len() - 1]));
        assert forall|k: int| 0 <= k < (a + sep + l).len() implies !is_control(#[trigger] (a + sep + l)[k]) by {
            if k < a.len() {
                assert((a + sep + l)[k] == a[k]);
            } else if k < a.len() + sep.len() {
                assert((a + sep + l)[k] == sep[k - a.len()]);
            } else {
                assert((a + sep + l)[k] == l[k - a.len() - sep.len()]);
            }
        }
    }
}

/// Sanitized text holds no control character and at most `max`
/// characters.
pub proof fn lemma_sanitized_clean(s: Seq<char>, max: nat)
    ensures
        free_of_control(sanitized(s, max)),
        sanitized(s, max).len() <= max,
{
    let f = strip_control(trim(s));
    lemma_strip_control_clean(trim(s));
    lemma_words_clean(f);
    assert(free_of_control(seq![' '])) by {
        assert forall|k: int| 0 <= k < seq![' '].len() implies !is_control(#[trigger] seq![' '][k]) by {
            assert(seq![' '][k] == ' ');
        }
    }
    lemma_join_clean(words(f), seq![' ']);
    let j = join_with(words(f), seq![' ']);
    if max < j.len() {
        assert forall|k: int| 0 <= k < j.take(max as int).len() implies !is_control(#[trigger] j.take(max as int)[k]) by {
            assert(j.take(max as int)[k] == j[k]);
        }
    }
}

/// Text in the form sanitizing gives before the cut: no control
/// characters, and white space only as single spaces between two other
/// characters.
pub open spec fn normalized(s: Seq<char>) -> bool {
    &&& free_of_control(s)
    &&& forall|k: int|
        0 <= k < s.len() && is_white_space(#[trigger] s[k]) ==> s[k] == ' ' && 0 < k < s.len() - 1
            && !is_white_space(s[k - 1]) && !is_white_space(s[k + 1])
}

proof fn lemma_words_plain(s: Seq<char>)
    ensures
        forall|i: int| 0 <= i < words(s).len() ==> (#[trigger] words(s)[i]).len() > 0,
        forall|i: int, k: int| 0 <= i < words(s).len() && 0 <= k < words(s)[i].len() ==> !is_white_space(#[trigger] words(s)[i][k]),
    decreases s.len(),
{
    if s.len() > 0 {
        let d = s.drop_last();
        lemma_words_plain(d);
        let w = words(d);
        let c = s.last();
        if !is_white_space(c) {
            if s.len() >= 2 && !is_white_space(s[s.len() - 2]) && w.len() > 0 {
                let u = w.update(w.len() - 1, w.last().push(c));
                assert forall|i: int, k: int| 0 <= i < u.len() && 0 <= k < u[i].len() implies !is_white_space(#[trigger] u[i][k]) by {
                    if i == w.len() - 1 && k < w[i].len() {
                        assert(u[i][k] == w[i][k]);
                    } else if i < w.len() - 1 {
                        assert(u[i] == w[i]);
                    }
                }
                assert forall|i: int| 0 <= i < u.len() implies (#[trigger] u[i]).len() > 0 by {
                    if i < w.len() - 1 {
                        assert(u[i] == w[i]);
                    }
                }
            } else {
                let u = w.push(seq![c]);
                assert forall|i: int, k: int| 0 <= i < u.len() && 0 <= k < u[i].len() implies !is_white_space(#[trigger] u[i][k]) by {
                    if i < w.len() {
                        assert(u[i] == w[i]);
                    }
                }
                assert forall|i: int| 0 <= i < u.len() implies (#[trigger] u[i]).len() > 0 by {
                    if i < w.len() {
                        assert(u[i] == w[i]);
                    }
                }
            }
        }
    }
}

/// Words joined with single spaces are normalized text.
proof fn lemma_join_normalized(parts: Seq<Seq<char>>)
    requires
        forall|i: int| 0 <= i < parts.len() ==> (#[trigger] parts[i]).len() > 0,
        forall|i: int, k: int| 0 <= i < parts.len() && 0 <= k < parts[i].len() ==> !is_white_space(#[trigger] parts[i][k]),
        forall|i: int| 0 <= i < parts.len() ==> free_of_control(#[trigger] parts[i]),
    ensures
        normalized(join_with(parts, seq![' '])),
        parts.len() > 0 ==> join_with(parts, seq![' ']).len() > 0,
    decreases parts.len(),
{
    let sp = seq![' '];
    if parts.len() == 1 {
        let p = parts[0];
        assert(free_of_control(p));
        assert forall|k: int| 0 <= k < p.len() implies !is_white_space(#[trigger] p[k]) by {
            assert(!is_white_space(parts[0][k]));
        }
    } else if parts.len() > 1 {
        let d = parts.drop_last();
        assert forall|i: int| 0 <= i < d.len() implies (#[trigger] d[i]).len() > 0 by {
            assert(d[i] == parts[i]);
        }
        assert forall|i: int, k: int| 0 <= i < d.len() && 0 <= k < d[i].len() implies !is_white_space(#[trigger] d[i][k]) by {
            assert(d[i] == parts[i]);
        }
        assert forall|i: int| 0 <= i < d.len() implies free_of_control(#[trigger] d[i]) by {
            assert(d[i] == parts[i]);
        }
        lemma_join_normalized(d);
        let a = join_with(d, sp);
        let l = parts.last();
        let j = a + sp + l;
        assert(l == parts[parts.len() - 1]);
        assert(l.len() > 0);
        assert(free_of_control(l));
        assert(a.len() > 0);
        assert(!is_white_space(a[a.len() - 1]));
        assert forall|k: int| 0 <= k < j.len() implies !is_control(#[trigger] j[k]) by {
            if k < a.len() {
                assert(j[k] == a[k]);
            } else if k == a.len() {
                assert(j[k] == ' ');
            } else {
                assert(j[k] == l[k - a.len() - 1]);
            }
        }
        assert forall|k: int| 0 <= k < j.len() && is_white_space(#[trigger] j[k]) implies j[k] == ' ' && 0 < k < j.len() - 1
            && !is_white_space(j[k - 1]) && !is_white_space(j[k + 1]) by {
            if k < a.len() {
                assert(j[k] == a[k]);
                assert(j[k - 1] == a[k - 1]);
                assert(j[k + 1] == a[k + 1]);
            } else if k == a.len() {
                assert(j[k - 1] == a[a.len() - 1]);
                assert(j[k + 1] == l[0]);
                assert(!is_white_space(parts[parts.len() - 1][0]));
            } else {
                assert(j[k] == l[k - a.len() - 1]);
                assert(!is_white_space(parts[parts.len() - 1][k - a.len() - 1]));
            }
        }
    }
}

/// Normalized text is its own words joined with single spaces.
proof fn lemma_normalized_rejoins(s: Seq<char>)
    requires
        normalized(s),
    ensures
        join_with(words(s), seq![' ']) == s,
    decreases s.len(),
{
    let sp = seq![' '];
    if s.len() > 0 {
        let n = s.len();
        let d = s.drop_last();
        let c = s.last();
        // White space never ends normalized text.
        assert(!is_white_space(c)) by {
            assert(c == s[n - 1]);
        }
        if n >= 2 && !is_white_space(s[n - 2]) {
            assert(normalized(d)) by {
                assert forall|k: int| 0 <= k < d.len() implies !is_control(#[trigger] d[k]) by {
                    assert(d[k] == s[k]);
                }
                assert forall|k: int| 0 <= k < d.len() && is_white_space(#[trigger] d[k]) implies d[k] == ' ' && 0 < k < d.len() - 1
                    && !is_white_space(d[k - 1]) && !is_white_space(d[k + 1]) by {
                    assert(d[k] == s[k]);
                    assert(k != n - 2);
                    assert(d[k - 1] == s[k - 1]);
                    assert(d[k + 1] == s[k + 1]);
                }
            }
            lemma_normalized_rejoins(d);
            assert(d.last() == s[n - 2]);
            lemma_words_nonempty(d);
            lemma_join_extend_last(words(d), sp, c);
            assert(d.push(c) =~= s);
        } else if n == 1 {
            assert(words(d) =~= Seq::<Seq<char>>::empty());
            lemma_join_push(words(d), sp, seq![c]);
            assert(seq![c] =~= s);
        } else {
            // The character before the last is a space between two words.
            assert(is_white_space(s[n - 2]));
            assert(s[n - 2] == ' ' && n - 2 > 0 && !is_white_space(s[n - 3]));
            let e = d.drop_last();
            assert(normalized(e)) by {
                assert forall|k: int| 0 <= k < e.len() implies !is_control(#[trigger] e[k]) by {
                    assert(e[k] == s[k]);
                }
                assert forall|k: int| 0 <= k < e.len() && is_white_space(#[trigger] e[k]) implies e[k] == ' ' && 0 < k < e.len() - 1
                    && !is_white_space(e[k - 1]) && !is_white_space(e[k + 1]) by {
                    assert(e[k] == s[k]);
                    assert(k != n - 3);
                    assert(e[k - 1] == s[k - 1]);
                    assert(e[k + 1] == s[k + 1]);
                }
            }
            lemma_normalized_rejoins(e);
            assert(d.last() == s[n - 2]);
            assert(d.drop_last() =~= e);
            assert(words(d) == words(e));
            assert(e.last() == s[n - 3]);
            lemma_words_nonempty(e);
            lemma_join_push(words(e), sp, seq![c]);
            assert(e + sp + seq![c] =~= s);
        }
    }
}

proof fn lemma_strip_control_clean_is_identity(s: Seq<char>)
    requires
        free_of_control(s),
    ensures
        strip_control(s) == s,
    decreases s.len(),
{
    if s.len() > 0 {
        let d = s.drop_last();
        assert(free_of_control(d)) by {
            assert forall|k: int| 0 <= k < d.len() implies !is_control(#[trigger] d[k]) by {
                assert(d[k] == s[k]);
            }
        }
        lemma_strip_control_clean_is_identity(d);
        assert(!is_control(s[s.len() - 1]));
        assert(d.push(s.last()) =~= s);
    }
}

/// The text that sanitizing gives before the cut is normalized.
proof fn lemma_joined_words_normalized(s: Seq<char>)
    ensures
        normalized(join_with(words(strip_control(trim(s))), seq![' '])),
{
    let f = strip_control(trim(s));
    lemma_strip_control_clean(trim(s));
    lemma_words_clean(f);
    lemma_words_plain(f);
    lemma_join_normalized(words(f));
}

/// Sanitizing with a smaller limit gives a prefix of sanitizing with a larger
/// one.
pub proof fn lemma_sanitized_prefix(s: Seq<char>, m: nat, n: nat)
    requires
        m <= n,
    ensures
        is_prefix(sanitized(s, m), sanitized(s, n)),
{
    let j = join_with(words(strip_control(trim(s))), seq![' ']);
    let a = take_upto(j, m);
    let b = take_upto(j, n);
    assert(b.take(a.len() as int) =~= a);
}

/// Sanitizing sanitized text gives it back, less the one trailing space
/// that a cut can leave.
pub proof fn lemma_sanitize_idempotent(s: Seq<char>, n: nat)
    ensures
        sanitized(sanitized(s, n), n) == trim_end(sanitized(s, n)),
{
    let j = join_with(words(strip_control(trim(s))), seq![' ']);
    lemma_joined_words_normalized(s);
    let p = take_upto(j, n);
    assert(p.len() <= j.len());
    assert forall|k: int| 0 <= k < p.len() implies #[trigger] p[k] == j[k] by {}
    // The cut text starts with no white space.
    if p.len() > 0 {
        assert(!is_white_space(p[0])) by {
            assert(p[0] == j[0]);
        }
    }
    assert(trim_start(p) == p);
    // Trimming its end removes at most one space.
    let q = if p.len() > 0 && is_white_space(p.last()) { p.drop_last() } else { p };
    if p.len() > 0 && is_white_space(p.last()) {
        let k = p.len() - 1;
        assert(p[k] == j[k]);
        assert(k > 0 && !is_white_space(j[k - 1]));
        assert(q.last() == j[k - 1]);
        assert(trim_end(q) == q);
    }
    assert(trim_end(p) == q);
    assert(normalized(q)) by {
        assert forall|k: int| 0 <= k < q.len() implies #[trigger] q[k] == j[k] by {}
        assert forall|k: int| 0 <= k < q.len() implies !is_control(#[trigger] q[k]) by {
            assert(q[k] == j[k]);
        }
        assert forall|k: int| 0 <= k < q.len() && is_white_space(#[trigger] q[k]) implies q[k] == ' ' && 0 < k < q.len() - 1
            && !is_white_space(q[k - 1]) && !is_white_space(q[k + 1]) by {
            assert(q[k] == j[k]);
            assert(k != q.len() - 1);
            assert(q[k - 1] == j[k - 1]);
            assert(q[k + 1] == j[k + 1]);
        }
    }
    assert(trim(p) == q);
    lemma_strip_control_clean_is_identity(q);
    lemma_normalized_rejoins(q);
    assert(take_upto(q, n) == q);
}

/// `str::trim` as positions: the trimmed text of `v`.
fn trim_bounds(v: &Vec<char>) -> (r: (usize, usize))
    ensures
        r.0 <= r.1 <= v@.len(),
        v@.subrange(r.0 as int, r.1 as int) == trim(v@),
{
    let n = v.len();
    let mut a: usize = 0;
    while a < n && char_is_white_space(v[a])
        invariant
            n == v@.len(),
            0 <= a <= n,
            forall|k: int| 0 <= k < a ==> is_white_space(#[trigger] v@[k]),
        decreases n - a,
    {
        a += 1;
    }
    proof {
        lemma_trim_start(v@, a as int);
    }
    let ghost t = v@.subrange(a as int, n as int);
    let mut b: usize = n;
    while b > a && char_is_white_space(v[b - 1])
        invariant
            n == v@.len(),
            0 <= a <= b <= n,
            t == v@.subrange(a as int, n as int),
            forall|k: int| b <= k < n ==> is_white_space(#[trigger] v@[k]),
        decreases b - a,
    {
        b -= 1;
    }
    proof {
        assert forall|k: int| b - a <= k < t.len() implies is_white_space(#[trigger] t[k]) by {
            assert(t[k] == v@[a + k]);
        }
        if b > a {
            assert(t[b - a - 1] == v@[b - 1]);
        }
        lemma_trim_end(t, b - a);
        assert(t.take(b - a) =~= v@.subrange(a as int, b as int));
    }
    (a, b)
}

/// Cleans text for storage: trims it, drops control characters, collapses
/// white space runs to single spaces and keeps at most `max_len` characters.
pub fn sanitize_text(text: &str, max_len: usize) -> (r: String)
    ensures
        r@ == sanitized(text@, max_len as nat),
{
    let v = chars_of(text);
    let (a, b) = trim_bounds(&v);
    let ghost t = v@.subrange(a as int, b as int);
    // Drop control characters.
    let mut f: Vec<char> = Vec::new();
    let mut i: usize = a;
    while i < b
        invariant
            a <= i <= b <= v@.len(),
            t == v@.subrange(a as int, b as int),
            f@ == strip_control(t.take(i - a)),
        decreases b - i,
    {
        assert(t.take(i - a + 1).drop_last() =~= t.take(i - a));
        assert(t.take(i - a + 1).last() == v@[i as int]);
        if !char_is_control(v[i]) {
            f.push(v[i]);
        }
        i += 1;
    }
    assert(t.take(b - a) =~= t);
    // Collapse white space runs.
    let ghost sp: Seq<char> = seq![' '];
    let mut out: Vec<char> = Vec::new();
    let mut j: usize = 0;
    while j < f.len()
        invariant
            0 <= j <= f@.len(),
            sp == seq![' '],
            out@ == join_with(words(f@.take(j as int)), sp),
            (words(f@.take(j as int)).len() == 0) == (out@.len() == 0),
        decreases f@.len() - j,
    {
        let ghost s = f@.take(j + 1);
        let ghost w = words(f@.take(j as int));
        assert(s.drop_last() =~= f@.take(j as int));
        assert(s.last() == f@[j as int]);
        let c = f[j];
        if char_is_white_space(c) {
        } else if j >= 1 && !char_is_white_space(f[j - 1]) {
            proof {
                assert(s[s.len() - 2] == f@[j - 1]);
                assert(f@.take(j as int).last() == f@[j - 1]);
                lemma_words_nonempty(f@.take(j as int));
                lemma_join_extend_last(w, sp, c);
            }
            out.push(c);
        } else {
            proof {
                if j >= 1 {
                    assert(s[s.len() - 2] == f@[j - 1]);
                }
                lemma_join_push(w, sp, seq![c]);
                if w.len() != 0 {
                    assert(out@ + sp + seq![c] =~= out@.push(' ').push(c));
                } else {
                    assert(out@.push(c) =~= seq![c]);
                }
            }
            if out.len() > 0 {
                out.push(' ');
            }
            out.push(c);
        }
        j += 1;
    }
    assert(f@.take(f@.len() as int) =~= f@);
    let end = if max_len < out.len() { max_len } else { out.len() };
    let r = string_of_range(&out, 0, end);
    assert(out@.subrange(0, end as int) =~= take_upto(out@, max_len as nat));
    r
}

#[verifier::external_type_specification]
#[verifier::external_body]
pub struct ExRegex(regex_lite::Regex);

/// Whether `regex_lite::Regex::new` accepts `pattern`.
pub uninterp spec fn regex_accepts(pattern: Seq<char>) -> bool;

/// The text of capture group 1 of the leftmost match of `pattern` in
/// `haystack`, as `regex_lite` finds it; `None` when there is no match or
/// the group takes no part in it.
pub uninterp spec fn regex_group1(pattern: Seq<char>, haystack: Seq<char>) -> Option<Seq<char>>;

/// A compiled regular expression together with its source.
pub struct Pattern {
    source: String,
    regex: regex_lite::Regex,
}

impl View for Pattern {
    type V = Seq<char>;

    closed spec fn view(&self) -> Seq<char> {
        self.source@
    }
}

/// Compiles `pattern` with `regex_lite::Regex::new`: `None` exactly when
/// that function returns an error (which `regex_accepts` names).
#[verifier::external_body]
pub fn compile(pattern: &str) -> (r: Option<Pattern>)
    ensures
        r is Some <==> regex_accepts(pattern@),
        r matches Some(p) ==> p@ == pattern@,
{
    let regex = regex_lite::Regex::new(pattern).ok()?;
    Some(Pattern { source: pattern.to_string(), regex })
}

/// Capture group 1 of the first match, from `regex_lite::Regex::captures`
/// and `Captures::get(1)`; the result is what `regex_group1` names for the
/// pattern's source and the haystack.
#[verifier::external_body]
pub fn first_group(p: &Pattern, haystack: &str) -> (r: Option<String>)
    ensures
        r is Some <==> regex_group1(p@, haystack@) is Some,
        r matches Some(g) ==> g@ == regex_group1(p@, haystack@)->0,
{
    p.regex.captures(haystack).and_then(|c| c.get(1)).map(|m| m.as_str().to_string())
}

/// Group 1 of the first match of `pattern` in `html`, or `None` when the
/// pattern does not compile or does not match.
pub open spec fn capture(pattern: Seq<char>, html: Seq<char>) -> Option<Seq<char>> {
    if regex_accepts(pattern) {
        regex_group1(pattern, html)
    } else {
        None
    }
}

fn capture_exec(pattern: &str, html: &str) -> (r: Option<String>)
    ensures
        r is Some <==> capture(pattern@, html@) is Some,
        r matches Some(g) ==> g@ == capture(pattern@, html@)->0,
{
    match compile(pattern) {
        Some(p) => first_group(&p, html),
        None => None,
    }
}

/// The `<title>` pattern.
pub open spec fn title_pattern() -> Seq<char> {
    "(?i)<title[^>]*>([^<]+)</title>"@
}

/// The `<link rel="icon">` pattern.
pub open spec fn icon_pattern() -> Seq<char> {
    "(?i)<link[^>]+rel=[\"'](?:icon|shortcut icon)[\"'][^>]+?href=[\"']([^\"']+)[\"']"@
}

/// The `<meta>` pattern with the attribute before `content`.
pub open spec fn meta_pattern_attr_first(name: Seq<char>, value: Seq<char>) -> Seq<char> {
    "(?i)<meta[^>]+"@ + name + "=[\"']"@ + value + "[\"'][^>]+content=[\"']([^\"']+)[\"']"@
}

/// The `<meta>` pattern with `content` before the attribute.
pub open spec fn meta_pattern_content_first(name: Seq<char>, value: Seq<char>) -> Seq<char> {
    "(?i)<meta[^>]+content=[\"']([^\"']+)[\"'][^>]+"@ + name + "=[\"']"@ + value + "[\"']"@
}

/// The `content` of the first `<meta>` tag whose attribute `name` is `value`.
pub open spec fn meta_content(html: Seq<char>, name: Seq<char>, value: Seq<char>) -> Option<Seq<char>> {
    match capture(meta_pattern_attr_first(name, value), html) {
        Some(c) => Some(c),
        None => capture(meta_pattern_content_first(name, value), html),
    }
}

/// Extracts the `content` of a `<meta>` tag whose attribute `attr_name` has
/// the value `attr_value`, trying both attribute orders.
pub fn extract_meta_content(html: &str, attr_name: &str, attr_value: &str) -> (r: Option<String>)
    ensures
        r is Some <==> meta_content(html@, attr_name@, attr_value@) is Some,
        r matches Some(c) ==> c@ == meta_content(html@, attr_name@, attr_value@)->0,
{
    let mut p1 = "(?i)<meta[^>]+".to_owned();
    p1.append(attr_name);
    p1.append("=[\"']");
    p1.append(attr_value);
    p1.append("[\"'][^>]+content=[\"']([^\"']+)[\"']");
    assert(p1@ == meta_pattern_attr_first(attr_name@, attr_value@));
    if let Some(c) = capture_exec(p1.as_str(), html) {
        return Some(c);
    }
    let mut p2 = "(?i)<meta[^>]+content=[\"']([^\"']+)[\"'][^>]+".to_owned();
    p2.append(attr_name);
    p2.append("=[\"']");
    p2.append(attr_value);
    p2.append("[\"']");
    assert(p2@ == meta_pattern_content_first(attr_name@, attr_value@));
    capture_exec(p2.as_str(), html)
}

/// The favicon location used when a page names none: `/favicon.ico` at the
/// URL's origin.
pub open spec fn default_favicon_of(url: UrlView) -> Seq<char> {
    url.origin + "/favicon.ico"@
}

/// The favicon location used when a page names none.
pub fn default_favicon(url: &ParsedUrl) -> (r: String)
    ensures
        r@ == default_favicon_of(url@),
{
    let mut r = url.origin().to_owned();
    r.append("/favicon.ico");
    r
}

/// `href` resolved against the URL serialized as `base`, when the result is
/// an HTTP(S) URL of at most `MAX_URL_LENGTH` bytes.
pub open spec fn resolved_url(href: Seq<char>, base: Seq<char>) -> Option<Seq<char>> {
    match url_join(base, href) {
        None => None,
        Some(v) => if !is_http_scheme(v.scheme) {
            None
        } else if encode_utf8(v.href).len() as usize > MAX_URL_LENGTH {
            None
        } else {
            Some(v.href)
        },
    }
}

/// Resolves a link found in a page against the page's URL; keeps it only
/// when it is an HTTP(S) URL of at most `MAX_URL_LENGTH` bytes.
pub fn resolve_url(href: &str, base: &ParsedUrl) -> (r: Option<String>)
    ensures
        opt_view(r) == resolved_url(href@, base@.href),
{
    let resolved = match join_url(base, href) {
        Some(u) => u,
        None => {
            return None;
        },
    };
    if !http_scheme(resolved.scheme()) {
        return None;
    }
    let s = resolved.href();
    if s.len() > MAX_URL_LENGTH {
        return None;
    }
    Some(s.to_owned())
}

/// Sanitizes an optional text.
pub open spec fn sanitized_opt(o: Option<Seq<char>>, max: nat) -> Option<Seq<char>> {
    match o {
        Some(t) => Some(sanitized(t, max)),
        None => None,
    }
}

/// A page's title: its `<title>`, else its `og:title`, both sanitized, else
/// the URL's host.
pub open spec fn page_title(html: Seq<char>, url: UrlView) -> Option<Seq<char>> {
    match capture(title_pattern(), html) {
        Some(t) => Some(sanitized(t, MAX_TITLE_LENGTH as nat)),
        None => match meta_content(html, "property"@, "og:title"@) {
            Some(t) => Some(sanitized(t, MAX_TITLE_LENGTH as nat)),
            None => url.host,
        },
    }
}

/// A page's description: its `description` meta tag, else its
/// `og:description`, sanitized.
pub open spec fn page_description(html: Seq<char>) -> Option<Seq<char>> {
    match meta_content(html, "name"@, "description"@) {
        Some(d) => Some(sanitized(d, MAX_DESCRIPTION_LENGTH as nat)),
        None => sanitized_opt(meta_content(html, "property"@, "og:description"@), MAX_DESCRIPTION_LENGTH as nat),
    }
}

/// A page's favicon: its icon link resolved, else the default favicon.
pub open spec fn page_favicon(html: Seq<char>, url: UrlView) -> Seq<char> {
    match capture(icon_pattern(), html) {
        Some(h) => match resolved_url(h, url.href) {
            Some(f) => f,
            None => default_favicon_of(url),
        },
        None => default_favicon_of(url),
    }
}

/// The resolved image named by a meta tag, if any.
pub open spec fn meta_image(html: Seq<char>, url: UrlView, name: Seq<char>, value: Seq<char>) -> Option<Seq<char>> {
    match meta_content(html, name, value) {
        Some(i) => resolved_url(i, url.href),
        None => None,
    }
}

/// A page's image: its `og:image`, else its `twitter:image`, resolved.
pub open spec fn page_image(html: Seq<char>, url: UrlView) -> Option<Seq<char>> {
    match meta_image(html, url, "property"@, "og:image"@) {
        Some(i) => Some(i),
        None => meta_image(html, url, "name"@, "twitter:image"@),
    }
}

/// A page's image is a link of its `og:image` (else `twitter:image`) meta
/// tag resolved against the page URL: an HTTP(S) URL of at most
/// `MAX_URL_LENGTH` bytes. When the `og:image` link resolves so, it is the
/// image.
pub proof fn lemma_page_image_resolved(html: Seq<char>, url: UrlView)
    ensures
        page_image(html, url) is Some ==> exists|c: Seq<char>|
            (meta_content(html, "property"@, "og:image"@) == Some(c) || meta_content(html, "name"@, "twitter:image"@) == Some(c))
                && #[trigger] url_join(url.href, c) is Some && url_join(url.href, c)->0.href == page_image(html, url)->0
                && is_http_scheme(url_join(url.href, c)->0.scheme)
                && encode_utf8(url_join(url.href, c)->0.href).len() as usize <= MAX_URL_LENGTH,
        forall|c: Seq<char>|
            meta_content(html, "property"@, "og:image"@) == Some(c) && #[trigger] url_join(url.href, c) is Some
                && is_http_scheme(url_join(url.href, c)->0.scheme)
                && encode_utf8(url_join(url.href, c)->0.href).len() as usize <= MAX_URL_LENGTH
                ==> page_image(html, url) == Some(url_join(url.href, c)->0.href),
{
    if page_image(html, url) is Some {
        match meta_content(html, "property"@, "og:image"@) {
            Some(c) => {
                if resolved_url(c, url.href) is Some {
                    assert(url_join(url.href, c) is Some);
                } else {
                    let c2 = meta_content(html, "name"@, "twitter:image"@)->0;
                    assert(url_join(url.href, c2) is Some);
                }
            },
            None => {
                let c2 = meta_content(html, "name"@, "twitter:image"@)->0;
                assert(url_join(url.href, c2) is Some);
            },
        }
    }
}

/// A page's title is cleaned text of at most `MAX_TITLE_LENGTH` characters
/// with no control character, or else the URL's host; its description is
/// cleaned text of at most `MAX_DESCRIPTION_LENGTH` characters.
pub proof fn lemma_page_text_clean(html: Seq<char>, url: UrlView)
    ensures
        page_title(html, url) is Some ==> (page_title(html, url)->0.len() <= 200 && free_of_control(page_title(html, url)->0))
            || page_title(html, url) == url.host,
        page_description(html) is Some ==> page_description(html)->0.len() <= 500 && free_of_control(
            page_description(html)->0,
        ),
{
    if let Some(t) = capture(title_pattern(), html) {
        lemma_sanitized_clean(t, MAX_TITLE_LENGTH as nat);
    } else if let Some(t) = meta_content(html, "property"@, "og:title"@) {
        lemma_sanitized_clean(t, MAX_TITLE_LENGTH as nat);
    }
    if let Some(d) = meta_content(html, "name"@, "description"@) {
        lemma_sanitized_clean(d, MAX_DESCRIPTION_LENGTH as nat);
    } else if let Some(d) = meta_content(html, "property"@, "og:description"@) {
        lemma_sanitized_clean(d, MAX_DESCRIPTION_LENGTH as nat);
    }
}

/// A page's favicon is its icon link resolved against the page URL (an
/// HTTP(S) URL of at most `MAX_URL_LENGTH` bytes) when there is one that
/// resolves so, and `/favicon.ico` at the page's origin otherwise.
pub proof fn lemma_page_favicon_resolved(html: Seq<char>, url: UrlView)
    ensures
        forall|h: Seq<char>|
            capture(icon_pattern(), html) == Some(h) && #[trigger] url_join(url.href, h) is Some
                && is_http_scheme(url_join(url.href, h)->0.scheme)
                && encode_utf8(url_join(url.href, h)->0.href).len() as usize <= MAX_URL_LENGTH
                ==> page_favicon(html, url) == url_join(url.href, h)->0.href,
        page_favicon(html, url) == url.origin + "/favicon.ico"@ || exists|h: Seq<char>|
            capture(icon_pattern(), html) == Some(h) && #[trigger] url_join(url.href, h) is Some
                && url_join(url.href, h)->0.href == page_favicon(html, url)
                && is_http_scheme(url_join(url.href, h)->0.scheme),
{
    if let Some(h) = capture(icon_pattern(), html) {
        if resolved_url(h, url.href) is Some {
            assert(url_join(url.href, h) is Some);
        }
    }
}

fn sanitize_opt(o: Option<String>, max_len: usize) -> (r: Option<String>)
    ensures
        opt_view(r) == sanitized_opt(opt_view(o), max_len as nat),
{
    match o {
        Some(t) => Some(sanitize_text(t.as_str(), max_len)),
        None => None,
    }
}

fn meta_image_exec(html: &str, url: &ParsedUrl, name: &str, value: &str) -> (r: Option<String>)
    ensures
        opt_view(r) == meta_image(html@, url@, name@, value@),
{
    match extract_meta_content(html, name, value) {
        Some(i) => resolve_url(i.as_str(), url),
        None => None,
    }
}

/// Extracts title, description, favicon and image from a page's HTML.
pub fn parse_html_metadata(html: &str, url: &ParsedUrl) -> (r: UrlMetadata)
    ensures
        opt_view(r.title) == page_title(html@, url@),
        opt_view(r.description) == page_description(html@),
        opt_view(r.favicon) == Some(page_favicon(html@, url@)),
        opt_view(r.image) == page_image(html@, url@),
{
    let title = match capture_exec("(?i)<title[^>]*>([^<]+)</title>", html) {
        Some(t) => Some(sanitize_text(t.as_str(), MAX_TITLE_LENGTH)),
        None => match extract_meta_content(html, "property", "og:title") {
            Some(t) => Some(sanitize_text(t.as_str(), MAX_TITLE_LENGTH)),
            None => match url.host() {
                Some(h) => Some(h.to_owned()),
                None => None,
            },
        },
    };
    let description = match extract_meta_content(html, "name", "description") {
        Some(d) => Some(sanitize_text(d.as_str(), MAX_DESCRIPTION_LENGTH)),
        None => sanitize_opt(extract_meta_content(html, "property", "og:description"), MAX_DESCRIPTION_LENGTH),
    };
    let icon = match capture_exec(
        "(?i)<link[^>]+rel=[\"'](?:icon|shortcut icon)[\"'][^>]+?href=[\"']([^\"']+)[\"']",
        html,
    ) {
        Some(h) => resolve_url(h.as_str(), url),
        None => None,
    };
    let favicon = match icon {
        Some(f) => f,
        None => default_favicon(url),
    };
    let image = match meta_image_exec(html, url, "property", "og:image") {
        Some(i) => Some(i),
        None => meta_image_exec(html, url, "name", "twitter:image"),
    };
    UrlMetadata { title, description, favicon: Some(favicon), image }
}

/// Metadata for a page whose body is not read (an error status or a
/// non-HTML content type): the host (or the URL as given) as title and the
/// default favicon.
pub fn fallback_metadata(input: &str, url: &ParsedUrl) -> (r: UrlMetadata)
    ensures
        opt_view(r.title) == Some(match url@.host {
            Some(h) => h,
            None => input@,
        }),
        r.description is None,
        opt_view(r.favicon) == Some(default_favicon_of(url@)),
        r.image is None,
{
    let title = match url.host() {
        Some(h) => h.to_owned(),
        None => input.to_owned(),
    };
    UrlMetadata { title: Some(title), description: None, favicon: Some(default_favicon(url)), image: None }
}

/// Whether a fetched page's body is parsed for metadata: the status is a
/// success and the content type names `text/html`.
pub fn should_parse_body(status_success: bool, content_type: &str) -> (r: bool)
    ensures
        r == (status_success && occurs_in("text/html"@, content_type@)),
{
    status_success && contains(content_type, "text/html")
}

} // verus!
