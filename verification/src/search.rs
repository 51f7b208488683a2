//! Finding files by name and text in files.

use vstd::prelude::*;
use vstd::utf8::*;

use crate::git::{find_at, find_byte, lemma_find_at};
use crate::text::{boundary, is_space, skip_space, trim_end, trimmed, utf8};

verus! {

broadcast use {
    vstd::utf8::encode_utf8_valid_utf8,
    vstd::utf8::decode_utf8_encode_utf8,
    vstd::utf8::encode_utf8_decode_utf8,
};

/// A place in a file: its path, its line and column (both from 1, the
/// column counted in UTF-16 units) and the text shown for it.
#[derive(Clone, Debug, PartialEq, Eq)]
pub struct Match {
    pub path: String,
    pub line: usize,
    pub column: usize,
    pub preview: String,
}

/// The first place at or after `from` where `needle` occurs in `t`.
pub open spec fn find_seq(t: Seq<u8>, needle: Seq<u8>, from: int) -> Option<int>
    decreases t.len() + 1 - from,
{
    if from < 0 || from + needle.len() > t.len() {
        None
    } else if t.subrange(from, from + needle.len()) == needle {
        Some(from)
    } else {
        find_seq(t, needle, from + 1)
    }
}

pub proof fn lemma_find_seq(t: Seq<u8>, needle: Seq<u8>, from: int)
    requires
        0 <= from,
    ensures
        find_seq(t, needle, from) matches Some(k) ==> from <= k && k + needle.len() <= t.len()
            && t.subrange(k, k + needle.len()) == needle,
    decreases t.len() + 1 - from,
{
    if from + needle.len() <= t.len() && t.subrange(from, from + needle.len()) != needle {
        lemma_find_seq(t, needle, from + 1);
    }
}

/// Finds `needle` in `t` from `from` on (see [`find_seq`]).
pub fn find_bytes(t: &[u8], needle: &[u8], from: usize) -> (res: Option<usize>)
    ensures
        match find_seq(t@, needle@, from as int) {
            Some(k) => res == Some(k as usize),
            None => res is None,
        },
{
    proof {
        lemma_find_seq(t@, needle@, from as int);
    }
    let n = t.len();
    let m = needle.len();
    if m > n {
        return None;
    }
    let mut k = from;
    while k <= n - m
        invariant
            n == t@.len(),
            m == needle@.len(),
            m <= n,
            from <= k,
            find_seq(t@, needle@, k as int) == find_seq(t@, needle@, from as int),
        decreases n - k,
    {
        let mut j: usize = 0;
        while j < m && t[k + j] == needle[j]
            invariant
                n == t@.len(),
                m == needle@.len(),
                j <= m,
                k + m <= n,
                forall|x: int| 0 <= x < j ==> t@[k + x] == needle@[x],
            decreases m - j,
        {
            j = j + 1;
        }
        if j == m {
            assert(t@.subrange(k as int, k + m) =~= needle@);
            return Some(k);
        }
        assert(t@.subrange(k as int, k + m)[j as int] != needle@[j as int]);
        k = k + 1;
    }
    None
}

/// The UTF-16 length of the text that `b` encodes: one unit per
/// character, two for characters outside the basic plane (those that take
/// four bytes).
pub open spec fn utf16_len(b: Seq<u8>) -> int
    decreases b.len(),
{
    if b.len() == 0 {
        0
    } else {
        utf16_len(b.drop_last()) + if is_continuation_byte(b.last()) {
            0int
        } else if b.last() >= 0xf0 {
            2int
        } else {
            1int
        }
    }
}

proof fn lemma_utf16_concat(a: Seq<u8>, b: Seq<u8>)
    ensures
        utf16_len(a + b) == utf16_len(a) + utf16_len(b),
    decreases b.len(),
{
    if b.len() == 0 {
        assert(a + b =~= a);
    } else {
        lemma_utf16_concat(a, b.drop_last());
        assert((a + b).drop_last() =~= a + b.drop_last());
    }
}

proof fn lemma_utf16_valid(b: Seq<u8>)
    requires
        valid_utf8(b),
    ensures
        utf16_len(b) <= b.len(),
    decreases b.len(),
{
    if b.len() > 0 {
        let w = length_of_first_scalar(b);
        let head = b.subrange(0, w);
        let rest = pop_first_scalar(b);
        assert(b =~= head + rest);
        lemma_utf16_concat(head, rest);
        assert(rest.len() < b.len());
        lemma_utf16_valid(rest);
        assert(valid_first_scalar(b));
        assert(valid_leading_and_continuation_bytes_first_codepoint(b));
        assert(1 <= w <= b.len());
        assert(head.len() == w);
        assert(head[0] == b[0]);
        assert(utf16_len(Seq::<u8>::empty()) == 0);
        if w == 1 {
            assert(head.drop_last() =~= Seq::<u8>::empty());
            assert(head.last() == b[0]);
            assert(utf16_len(head) == utf16_len(head.drop_last()) + 1);
            assert(utf16_len(head) == 1);
        } else if w == 2 {
            let h1 = head.drop_last();
            assert(h1 =~= seq![b[0]]);
            assert(h1.drop_last() =~= Seq::<u8>::empty());
            assert(h1.last() == b[0]);
            assert(utf16_len(h1) == utf16_len(h1.drop_last()) + 1);
            assert(utf16_len(h1) == 1);
            assert(head.last() == b[1]);
            assert(is_continuation_byte(head.last()));
            assert(utf16_len(head) == 1);
        } else if w == 3 {
            let h1 = head.drop_last();
            let h2 = h1.drop_last();
            assert(h1 =~= seq![b[0], b[1]]);
            assert(h2 =~= seq![b[0]]);
            assert(h2.drop_last() =~= Seq::<u8>::empty());
            assert(utf16_len(h2) == 1);
            assert(utf16_len(h1) == 1);
            assert(utf16_len(head) == 1);
        } else {
            let h1 = head.drop_last();
            let h2 = h1.drop_last();
            let h3 = h2.drop_last();
            assert(h1 =~= seq![b[0], b[1], b[2]]);
            assert(h2 =~= seq![b[0], b[1]]);
            assert(h3 =~= seq![b[0]]);
            assert(h3.drop_last() =~= Seq::<u8>::empty());
            assert(h3.last() == b[0]);
            assert(utf16_len(h3) <= utf16_len(h3.drop_last()) + 2);
            assert(utf16_len(h3) <= 2);
            assert(utf16_len(h2) <= 2);
            assert(utf16_len(h1) <= 2);
            assert(utf16_len(head) <= 2);
        }
    }
}

pub(crate) fn utf16_count(b: &[u8], a: usize, e: usize) -> (res: usize)
    requires
        a <= e <= b@.len(),
        valid_utf8(b@.subrange(a as int, e as int)),
    ensures
        res == utf16_len(b@.subrange(a as int, e as int)),
        res <= e - a,
{
    proof {
        lemma_utf16_valid(b@.subrange(a as int, e as int));
    }
    let mut count: u128 = 0;
    let mut i: usize = a;
    while i < e
        invariant
            a <= i <= e <= b@.len(),
            count == utf16_len(b@.subrange(a as int, i as int)),
            count <= 2 * (i - a),
        decreases e - i,
    {
        let x = b[i];
        assert(b@.subrange(a as int, i + 1).drop_last() =~= b@.subrange(a as int, i as int));
        if !(0x80 <= x && x <= 0xbf) {
            if x >= 0xf0 {
                count = count + 2;
            } else {
                count = count + 1;
            }
        }
        i = i + 1;
    }
    count as usize
}

/// The lines of `s` from byte `i` on, as `str::lines` gives them: the text
/// of each line, without its `\n` and the `\r` before that, as
/// `(start, end)`.
pub open spec fn lines_from(s: Seq<u8>, i: int) -> Seq<(int, int)>
    decreases s.len() + 1 - i,
{
    if i < 0 || i >= s.len() {
        Seq::empty()
    } else {
        let j = find_at(s, 10, i, s.len() as int);
        let e = if j < s.len() && j > i && s[j - 1] == 13 {
            j - 1
        } else {
            j
        };
        proof {
            lemma_find_at(s, 10, i, s.len() as int);
        }
        seq![(i, e)] + lines_from(s, j + 1)
    }
}

/// Where `q` occurs in `s[a..e]` from `k` on, left to right without
/// overlapping.
pub open spec fn occurrences(s: Seq<u8>, a: int, e: int, q: Seq<u8>, k: int) -> Seq<int>
    decreases e - k,
{
    if q.len() == 0 || k < a || e > s.len() || e < 0 {
        Seq::empty()
    } else {
        match find_seq(s.subrange(0, e), q, k) {
            None => Seq::empty(),
            Some(x) => {
                proof {
                    lemma_find_seq(s.subrange(0, e), q, k);
                }
                seq![x] + occurrences(s, a, e, q, x + q.len())
            },
        }
    }
}

/// The hits of `q` in the lines of `s`, in order: the line's number (from
/// 0), its start and end, and where in the text the hit starts.
pub open spec fn hits_in(s: Seq<u8>, q: Seq<u8>, lines: Seq<(int, int)>, n: int) -> Seq<(int, int, int, int)>
    decreases n,
{
    if n <= 0 {
        Seq::empty()
    } else {
        let l = lines[n - 1];
        let here = occurrences(s, l.0, l.1, q, l.0);
        hits_in(s, q, lines, n - 1) + Seq::new(here.len(), |k: int| (n - 1, l.0, l.1, here[k]))
    }
}

/// The preview of a line: its characters without whitespace at either
/// end, at most 160 of them.
pub open spec fn preview_of(u: Seq<char>) -> Seq<char> {
    let a = skip_space(u, 0, u.len() as int);
    let e = trim_end(u, a, u.len() as int, |c: char| is_space(c));
    u.subrange(a, if e - a > 160 {
        a + 160
    } else {
        e
    })
}

/// A hit as plain values: line (from 1), column (from 1, UTF-16 units)
/// and preview, for the text `s`.
pub open spec fn hit_view(s: Seq<u8>, h: (int, int, int, int)) -> (int, int, Seq<char>) {
    (
        h.0 + 1,
        utf16_len(s.subrange(h.1, h.3)) + 1,
        preview_of(decode_utf8(s.subrange(h.1, h.2))),
    )
}

/// The first `limit` items of a list.
pub open spec fn first<T>(x: Seq<T>, limit: int) -> Seq<T> {
    if x.len() <= limit {
        x
    } else {
        x.subrange(0, limit)
    }
}

/// The hits of a query in a text (see [`hits_in`]), at most `limit`.
pub open spec fn source_hits(s: Seq<u8>, q: Seq<u8>, limit: int) -> Seq<(int, int, int, int)> {
    if q.len() == 0 {
        Seq::empty()
    } else {
        first(hits_in(s, q, lines_from(s, 0), lines_from(s, 0).len() as int), limit)
    }
}

/// A match as plain values.
pub open spec fn match_view(m: Match) -> (int, int, Seq<char>) {
    (m.line as int, m.column as int, m.preview@)
}

proof fn lemma_lines_len(s: Seq<u8>, i: int)
    requires
        0 <= i <= s.len(),
    ensures
        lines_from(s, i).len() <= s.len() - i,
    decreases s.len() + 1 - i,
{
    if i < s.len() {
        lemma_find_at(s, 10, i, s.len() as int);
        let j = find_at(s, 10, i, s.len() as int);
        if j + 1 <= s.len() {
            lemma_lines_len(s, j + 1);
        }
        assert(lines_from(s, i).len() == 1 + lines_from(s, j + 1).len());
    }
}

/// The hits of one line: line `l`, spanning `a..e`, at the offsets `xs`.
pub open spec fn line_hits(l: int, a: int, e: int, xs: Seq<int>) -> Seq<(int, int, int, int)> {
    Seq::new(xs.len(), |y: int| (l, a, e, xs[y]))
}

/// The plain values of a list of matches.
pub open spec fn match_views(v: Seq<Match>) -> Seq<(int, int, Seq<char>)> {
    Seq::new(v.len(), |k: int| match_view(v[k]))
}

/// The plain values of a list of hits in `s`.
pub open spec fn hit_views(s: Seq<u8>, h: Seq<(int, int, int, int)>) -> Seq<(int, int, Seq<char>)> {
    Seq::new(h.len(), |k: int| hit_view(s, h[k]))
}

proof fn lemma_hits_prefix(s: Seq<u8>, q: Seq<u8>, lines: Seq<(int, int)>, a: int, b: int)
    requires
        0 <= a <= b,
    ensures
        hits_in(s, q, lines, a).len() <= hits_in(s, q, lines, b).len(),
        hits_in(s, q, lines, a) == hits_in(s, q, lines, b).subrange(0, hits_in(s, q, lines, a).len() as int),
    decreases b - a,
{
    if a < b {
        lemma_hits_prefix(s, q, lines, a, b - 1);
        let h = hits_in(s, q, lines, b - 1);
        let l = lines[b - 1];
        let here = occurrences(s, l.0, l.1, q, l.0);
        assert(hits_in(s, q, lines, b) == h + line_hits(b - 1, l.0, l.1, here)) by {
            assert(Seq::new(here.len(), |k: int| (b - 1, l.0, l.1, here[k])) =~= line_hits(b - 1, l.0, l.1, here));
        }
        assert(hits_in(s, q, lines, a) =~= hits_in(s, q, lines, b).subrange(0, hits_in(s, q, lines, a).len() as int));
    } else {
        assert(hits_in(s, q, lines, a) =~= hits_in(s, q, lines, b).subrange(0, hits_in(s, q, lines, a).len() as int));
    }
}

/// The matches of `query` in the text of the file at `path`, line by line
/// and left to right, at most `limit` of them (see [`source_hits`]).
pub fn search_source(path: &str, source: &str, query: &str, limit: usize) -> (res: Vec<Match>)
    ensures
        match_views(res@) == hit_views(utf8(source@), source_hits(utf8(source@), utf8(query@), limit as int)),
        forall|i: int| 0 <= i < res@.len() ==> (#[trigger] res@[i]).path@ == path@,
{
    let s = source.as_bytes();
    let q = query.as_bytes();
    let n = s.len();
    let m = q.len();
    assert(n == s@.len() && m == q@.len());
    let mut out: Vec<Match> = Vec::new();
    if m == 0 {
        assert(match_views(out@) =~= hit_views(s@, source_hits(s@, q@, limit as int)));
        return out;
    }
    let ghost lines = lines_from(s@, 0);
    let ghost all = hits_in(s@, q@, lines, lines.len() as int);
    proof {
        lemma_lines_len(s@, 0);
        is_char_boundary_start_end_of_seq(s@);
    }
    let mut i: usize = 0;
    let mut l: usize = 0;
    assert(lines.subrange(0, 0) + lines_from(s@, 0) =~= lines);
    assert(match_views(out@) =~= hit_views(s@, first(hits_in(s@, q@, lines, 0), limit as int)));
    while i < n && out.len() < limit
        invariant
            n == s@.len(),
            m == q@.len() > 0,
            s@ == utf8(source@),
            q@ == utf8(query@),
            valid_utf8(s@),
            valid_utf8(q@),
            boundary(s@, n as int),
            lines == lines_from(s@, 0),
            all == hits_in(s@, q@, lines, lines.len() as int),
            i <= n,
            i == 0 || i == n || s@[i - 1] == 10,
            l <= i,
            l <= lines.len(),
            lines.subrange(0, l as int) + lines_from(s@, i as int) == lines,
            out@.len() <= limit,
            match_views(out@) == hit_views(s@, first(hits_in(s@, q@, lines, l as int), limit as int)),
            forall|k: int| 0 <= k < out@.len() ==> (#[trigger] out@[k]).path@ == path@,
        decreases n - i,
    {
        let j = find_byte(s, 10, i, n);
        proof {
            lemma_find_at(s@, 10, i as int, n as int);
        }
        let e = if j < n && j > i && s[j - 1] == 13 {
            j - 1
        } else {
            j
        };
        proof {
            assert(lines_from(s@, i as int) == seq![(i as int, e as int)] + lines_from(s@, j + 1));
            assert(lines[l as int] == (i as int, e as int)) by {
                assert(lines == lines.subrange(0, l as int) + lines_from(s@, i as int));
            }
            assert(l < lines.len());
            crate::git::lemma_ascii_edges(s@, i as int, e as int);
            crate::git::lemma_sub_boundary(s@, i as int, n as int, (e - i) as int);
        }
        let ghost y = hits_in(s@, q@, lines, l as int);
        assert(match_views(out@).len() == out@.len());
        assert(hit_views(s@, first(y, limit as int)).len() == first(y, limit as int).len());
        assert(first(y, limit as int) == y);
        let (_, tail) = source.split_at(i);
        let (text, _) = tail.split_at(e - i);
        assert(utf8(text@) =~= s@.subrange(i as int, e as int));
        let count = text.unicode_len();
        let (ta, te) = trimmed(text, 0, count);
        let stop = if te - ta > 160 {
            ta + 160
        } else {
            te
        };
        let preview = text.substring_char(ta, stop);
        assert(preview@ == preview_of(decode_utf8(s@.subrange(i as int, e as int))));
        let ghost occ = occurrences(s@, i as int, e as int, q@, i as int);
        let ghost mut done: Seq<int> = Seq::empty();
        let line_no = l + 1;
        let head = &s[0..e];
        assert(head@ == s@.subrange(0, e as int));
        let mut k = i;
        assert(occ =~= done + occurrences(s@, i as int, e as int, q@, k as int));
        assert(y + line_hits(l as int, i as int, e as int, done) =~= y);
        loop
            invariant
                n == s@.len(),
                m == q@.len() > 0,
                valid_utf8(s@),
                valid_utf8(q@),
                head@ == s@.subrange(0, e as int),
                i <= k,
                i <= e <= n,
                boundary(s@, i as int),
                occ == occurrences(s@, i as int, e as int, q@, i as int),
                occ == done + occurrences(s@, i as int, e as int, q@, k as int),
                line_no == l + 1,
                out@.len() <= limit,
                match_views(out@) == hit_views(s@, y + line_hits(l as int, i as int, e as int, done)),
                forall|x: int| 0 <= x < out@.len() ==> (#[trigger] out@[x]).path@ == path@,
                preview@ == preview_of(decode_utf8(s@.subrange(i as int, e as int))),
            ensures
                match_views(out@) == hit_views(s@, y + line_hits(l as int, i as int, e as int, done)),
                out@.len() <= limit,
                forall|x: int| 0 <= x < out@.len() ==> (#[trigger] out@[x]).path@ == path@,
                done == occ || out@.len() == limit,
            decreases e - k,
        {
            if out.len() >= limit {
                break;
            }
            let found = find_bytes(head, q, k);
            proof {
                lemma_find_seq(head@, q@, k as int);
            }
            match found {
                None => {
                    proof {
                        assert(occurrences(s@, i as int, e as int, q@, k as int) =~= Seq::<int>::empty());
                        assert(occ =~= done);
                    }
                    break;
                },
                Some(x) => {
                    proof {
                        assert(occurrences(s@, i as int, e as int, q@, k as int) == seq![x as int]
                            + occurrences(s@, i as int, e as int, q@, x + m));
                        assert(s@[x as int] == q@[0]) by {
                            assert(head@.subrange(x as int, x + m)[0] == q@[0]);
                        }
                        is_char_boundary_start_end_of_seq(q@);
                        lemma_first_not_continuation(q@);
                        is_char_boundary_iff_not_is_continuation_byte(s@, x as int);
                        crate::text::lemma_valid_between(s@, i as int, x as int);
                    }
                    let column = utf16_count(s, i, x) + 1;
                    let hit = Match {
                        path: String::from_str(path),
                        line: line_no,
                        column,
                        preview: preview.to_owned(),
                    };
                    let ghost prev_out = out@;
                    out.push(hit);
                    proof {
                        let before = y + line_hits(l as int, i as int, e as int, done);
                        done = done.push(x as int);
                        let after = y + line_hits(l as int, i as int, e as int, done);
                        assert(after =~= before.push((l as int, i as int, e as int, x as int)));
                        assert(match_views(out@) =~= match_views(prev_out).push(match_view(out@.last())));
                        assert(hit_views(s@, after) =~= hit_views(s@, before).push(hit_view(s@, (l as int, i as int, e as int, x as int))));
                        assert(occ =~= done + occurrences(s@, i as int, e as int, q@, x + m));
                    }
                    k = x + m;
                },
            }
        }
        proof {
            let h2 = hits_in(s@, q@, lines, l + 1);
            assert(h2 == y + line_hits(l as int, i as int, e as int, occ)) by {
                assert(Seq::new(occ.len(), |x: int| (l as int, i as int, e as int, occ[x])) =~= line_hits(l as int, i as int, e as int, occ));
            }
            let now = y + line_hits(l as int, i as int, e as int, done);
            if done == occ {
                assert(first(h2, limit as int) == h2);
            } else {
                assert(now =~= h2.subrange(0, now.len() as int));
                assert(first(h2, limit as int) =~= now);
            }
            assert(lines.subrange(0, l + 1) =~= lines.subrange(0, l as int).push(lines[l as int]));
            assert(lines.subrange(0, l + 1) + lines_from(s@, j + 1) =~= lines);
        }
        l = l + 1;
        if j >= n {
            i = n;
        } else {
            i = j + 1;
        }
    }
    proof {
        lemma_hits_prefix(s@, q@, lines, l as int, lines.len() as int);
        if i >= n {
            assert(lines_from(s@, i as int) =~= Seq::<(int, int)>::empty());
            assert(lines.subrange(0, l as int) =~= lines);
        }
        let h = hits_in(s@, q@, lines, l as int);
        if out@.len() >= limit {
            assert(first(all, limit as int) =~= first(h, limit as int));
        }
    }
    out
}

proof fn lemma_first_not_continuation(q: Seq<u8>)
    requires
        valid_utf8(q),
        q.len() > 0,
    ensures
        !is_continuation_byte(q[0]),
{
    assert(valid_first_scalar(q));
}

/// What `str::to_lowercase` gives for a text: its characters in lower
/// case, by Unicode's rules as the standard library implements them.
pub uninterp spec fn lowercased(s: Seq<char>) -> Seq<char>;

/// Lowers a text with `str::to_lowercase`.
/// Trusted: the result is named by [`lowercased`]: it depends on the text
/// alone (through the standard library's Unicode tables); nothing more is
/// stated of it.
#[verifier::external_body]
pub(crate) fn to_lowercase(s: &str) -> (res: String)
    ensures
        res@ == lowercased(s@),
{
    s.to_lowercase()
}

/// What `str::to_uppercase` gives for a text: its characters in upper
/// case, by Unicode's rules as the standard library implements them.
pub uninterp spec fn uppercased(s: Seq<char>) -> Seq<char>;

/// Raises a text with `str::to_uppercase`.
/// Trusted: the result is named by [`uppercased`]: it depends on the text
/// alone (through the standard library's Unicode tables); nothing more is
/// stated of it.
#[verifier::external_body]
pub(crate) fn to_uppercase(s: &str) -> (res: String)
    ensures
        res@ == uppercased(s@),
{
    s.to_uppercase()
}

/// The byte length of the character that starts `q[i..]`, read from its
/// first byte.
pub open spec fn char_width(q: Seq<u8>, i: int) -> int {
    length_of_first_codepoint(q.subrange(i, q.len() as int))
}

fn width_at(q: &[u8], i: usize) -> (res: usize)
    requires
        i < q@.len(),
    ensures
        res == char_width(q@, i as int),
        1 <= res <= 4,
{
    let b = q[i];
    assert(q@.subrange(i as int, q@.len() as int)[0] == b);
    if b <= 0x7f {
        1
    } else if 0xc0 <= b && b <= 0xdf {
        2
    } else if 0xe0 <= b && b <= 0xef {
        3
    } else {
        4
    }
}

/// The score of matching the characters of `q[i..]` in order in `t`, from
/// `t[from..]` on: each character is found at its first place after the
/// last one, and the score adds up the bytes skipped; none when a character
/// is missing.
pub open spec fn fuzzy_score(t: Seq<u8>, q: Seq<u8>, i: int, from: int, score: int) -> Option<int>
    decreases q.len() - i,
{
    if i < 0 || i >= q.len() {
        Some(score)
    } else {
        let w = char_width(q, i);
        let end = if i + w <= q.len() {
            i + w
        } else {
            q.len() as int
        };
        let needle = q.subrange(i, end);
        match find_seq(t, needle, from) {
            None => None,
            Some(k) => fuzzy_score(t, q, end, k + needle.len(), score + (k - from)),
        }
    }
}

/// The end of the character of `q` that starts at `i`.
pub open spec fn char_end(q: Seq<u8>, i: int) -> int {
    if i + char_width(q, i) <= q.len() {
        i + char_width(q, i)
    } else {
        q.len() as int
    }
}

/// Whether the characters of `q[i..]` are found in `t` at the places `ps`
/// (the UTF-8 bytes of each whole), in order from `from`, each after the
/// one before.
pub open spec fn found_at_places(t: Seq<u8>, q: Seq<u8>, i: int, from: int, ps: Seq<int>) -> bool
    decreases q.len() - i,
{
    if i < 0 || i >= q.len() {
        true
    } else {
        let needle = q.subrange(i, char_end(q, i));
        &&& ps.len() > 0
        &&& from <= ps[0]
        &&& ps[0] + needle.len() <= t.len()
        &&& t.subrange(ps[0], ps[0] + needle.len()) == needle
        &&& found_at_places(t, q, char_end(q, i), ps[0] + needle.len(), ps.drop_first())
    }
}

/// Whether the characters of `q` occur in `t` in order.
pub open spec fn chars_in_order(t: Seq<u8>, q: Seq<u8>) -> bool {
    exists|ps: Seq<int>| found_at_places(t, q, 0, 0, ps)
}

/// `find_seq` finds the first place: none is missed before it.
proof fn lemma_find_seq_first(t: Seq<u8>, needle: Seq<u8>, from: int, k: int)
    requires
        0 <= from <= k,
        k + needle.len() <= t.len(),
        t.subrange(k, k + needle.len()) == needle,
    ensures
        find_seq(t, needle, from) matches Some(k0) && k0 <= k,
    decreases k - from,
{
    if t.subrange(from, from + needle.len()) != needle {
        lemma_find_seq_first(t, needle, from + 1, k);
    }
}

/// The greedy match of [`fuzzy_score`] succeeds exactly when the characters
/// can be found in order.
proof fn lemma_fuzzy_found(t: Seq<u8>, q: Seq<u8>, i: int, from: int, score: int)
    requires
        0 <= i,
        0 <= from,
    ensures
        (fuzzy_score(t, q, i, from, score) is Some) == exists|ps: Seq<int>| #[trigger] found_at_places(t, q, i, from, ps),
    decreases q.len() - i,
{
    if i < q.len() {
        let end = char_end(q, i);
        let needle = q.subrange(i, end);
        lemma_find_seq(t, needle, from);
        match find_seq(t, needle, from) {
            Some(k0) => {
                lemma_fuzzy_found(t, q, end, k0 + needle.len(), score + (k0 - from));
                if fuzzy_score(t, q, i, from, score) is Some {
                    let rest = choose|ps: Seq<int>| #[trigger] found_at_places(t, q, end, k0 + needle.len(), ps);
                    let ps = seq![k0] + rest;
                    assert(ps.drop_first() =~= rest);
                    assert(found_at_places(t, q, i, from, ps));
                }
                if exists|ps: Seq<int>| #[trigger] found_at_places(t, q, i, from, ps) {
                    let ps = choose|ps: Seq<int>| #[trigger] found_at_places(t, q, i, from, ps);
                    lemma_find_seq_first(t, needle, from, ps[0]);
                    lemma_found_earlier(t, q, end, k0 + needle.len(), ps[0] + needle.len(), ps.drop_first());
                }
            },
            None => {
                if exists|ps: Seq<int>| #[trigger] found_at_places(t, q, i, from, ps) {
                    let ps = choose|ps: Seq<int>| #[trigger] found_at_places(t, q, i, from, ps);
                    lemma_find_seq_first(t, needle, from, ps[0]);
                }
            },
        }
    } else {
        assert(found_at_places(t, q, i, from, Seq::empty()));
    }
}

/// Characters found at places from some point are found there from any
/// earlier point too.
proof fn lemma_found_earlier(t: Seq<u8>, q: Seq<u8>, i: int, early: int, late: int, ps: Seq<int>)
    requires
        early <= late,
        found_at_places(t, q, i, late, ps),
    ensures
        found_at_places(t, q, i, early, ps),
{
}

/// A path ranks for a query exactly when the query's characters occur in
/// the path in order; an empty query ranks first.
pub proof fn lemma_rank_is_subsequence(t: Seq<u8>, q: Seq<u8>)
    ensures
        (rank_spec(t, q) is Some) == chars_in_order(t, q),
        q.len() == 0 ==> rank_spec(t, q) == Some(0int),
{
    lemma_fuzzy_found(t, q, 0, 0, 0);
}

proof fn lemma_fuzzy_score_range(t: Seq<u8>, q: Seq<u8>, i: int, from: int, score: int)
    requires
        0 <= i <= q.len(),
        0 <= from <= t.len(),
    ensures
        fuzzy_score(t, q, i, from, score) matches Some(sc) ==> score <= sc <= score + t.len() - from
            - (q.len() - i),
    decreases q.len() - i,
{
    if i < q.len() {
        let end = char_end(q, i);
        let needle = q.subrange(i, end);
        lemma_find_seq(t, needle, from);
        if let Some(k) = find_seq(t, needle, from) {
            lemma_fuzzy_score_range(t, q, end, k + needle.len(), score + (k - from));
        }
    }
}

proof fn lemma_fuzzy_score_prefix(t: Seq<u8>, q: Seq<u8>, i: int)
    requires
        0 <= i <= q.len() <= t.len(),
        t.subrange(0, q.len() as int) == q,
    ensures
        fuzzy_score(t, q, i, i, 0) == Some(0int),
    decreases q.len() - i,
{
    if i < q.len() {
        let end = char_end(q, i);
        let needle = q.subrange(i, end);
        assert(t.subrange(i, end) =~= needle) by {
            assert forall|k: int| 0 <= k < end - i implies t.subrange(i, end)[k] == needle[k] by {
                assert(t.subrange(0, q.len() as int)[i + k] == q[i + k]);
            }
        }
        assert(find_seq(t, needle, i) == Some(i));
        lemma_fuzzy_score_prefix(t, q, end);
    }
}

/// The fuzzy score counts the bytes skipped between the query's
/// characters: it is never negative and never more than the bytes of `t`
/// that the query leaves over, and a text that starts with the query
/// scores 0.
pub proof fn lemma_fuzzy_score_counts_skips(t: Seq<u8>, q: Seq<u8>)
    ensures
        fuzzy_score(t, q, 0, 0, 0) matches Some(sc) ==> 0 <= sc <= t.len() - q.len(),
        q.len() <= t.len() && t.subrange(0, q.len() as int) == q ==> fuzzy_score(t, q, 0, 0, 0)
            == Some(0int),
{
    lemma_fuzzy_score_range(t, q, 0, 0, 0);
    if q.len() <= t.len() && t.subrange(0, q.len() as int) == q {
        lemma_fuzzy_score_prefix(t, q, 0);
    }
}

/// Where the last piece of `t` starts, pieces being separated by `/` and
/// `\`.
pub open spec fn last_piece_start(t: Seq<u8>, e: int) -> int
    decreases e,
{
    if e <= 0 {
        0
    } else if t[e - 1] == 47 || t[e - 1] == 92 {
        e
    } else {
        last_piece_start(t, e - 1)
    }
}

/// The rank of a lowered path `t` for a lowered query `q`: 0 for an empty
/// query; none when the query's characters do not all occur in order;
/// else the bytes skipped between them, less 5 (down to 0) when the file
/// name holds the whole query.
pub open spec fn rank_spec(t: Seq<u8>, q: Seq<u8>) -> Option<int> {
    if q.len() == 0 {
        Some(0)
    } else {
        match fuzzy_score(t, q, 0, 0, 0) {
            None => None,
            Some(score) => {
                let name = t.subrange(last_piece_start(t, t.len() as int), t.len() as int);
                Some(
                    if find_seq(name, q, 0) is Some {
                        if score >= 5 {
                            score - 5
                        } else {
                            0
                        }
                    } else {
                        score
                    },
                )
            },
        }
    }
}

proof fn lemma_last_piece_start(t: Seq<u8>, e: int)
    requires
        0 <= e <= t.len(),
    ensures
        0 <= last_piece_start(t, e) <= e,
    decreases e,
{
    if e > 0 && !(t[e - 1] == 47 || t[e - 1] == 92) {
        lemma_last_piece_start(t, e - 1);
    }
}

proof fn lemma_last_piece_is(t: Seq<u8>, e: int, p: int)
    requires
        0 <= p <= e <= t.len(),
        p == 0 || t[p - 1] == 47 || t[p - 1] == 92,
        forall|k: int| p <= k < e ==> t[k] != 47 && t[k] != 92,
    ensures
        last_piece_start(t, e) == p,
    decreases e,
{
    if e > p {
        lemma_last_piece_is(t, e - 1, p);
    }
}

/// Whether `q` occurs in `t` at or after `p`.
pub open spec fn occurs_from(t: Seq<u8>, q: Seq<u8>, p: int) -> bool {
    exists|i: int| p <= i && i + q.len() <= t.len() && #[trigger] t.subrange(i, i + q.len()) == q
}

/// The file name bonus: for a non-empty query whose characters occur in
/// order in `t`, with the file name of `t` starting at `p` (just after the
/// last `/` or `\`, or at 0), the rank is the fuzzy score less 5 (down to
/// 0) when the whole query occurs in the file name, and the fuzzy score
/// itself when it does not.
pub proof fn lemma_rank_name_bonus(t: Seq<u8>, q: Seq<u8>, p: int)
    requires
        q.len() > 0,
        0 <= p <= t.len(),
        p == 0 || t[p - 1] == 47 || t[p - 1] == 92,
        forall|k: int| p <= k < t.len() ==> t[k] != 47 && t[k] != 92,
    ensures
        fuzzy_score(t, q, 0, 0, 0) is None ==> rank_spec(t, q) is None,
        fuzzy_score(t, q, 0, 0, 0) matches Some(score) ==> rank_spec(t, q) == Some(
            if occurs_from(t, q, p) {
                if score >= 5 {
                    score - 5
                } else {
                    0
                }
            } else {
                score
            },
        ),
{
    lemma_last_piece_is(t, t.len() as int, p);
    let name = t.subrange(p, t.len() as int);
    lemma_find_seq(name, q, 0);
    if let Some(k) = find_seq(name, q, 0) {
        assert(t.subrange(p + k, p + k + q.len()) =~= name.subrange(k, k + q.len()));
        assert(occurs_from(t, q, p));
    }
    if occurs_from(t, q, p) {
        let i = choose|i: int| p <= i && i + q.len() <= t.len() && #[trigger] t.subrange(i, i + q.len()) == q;
        assert(name.subrange(i - p, i - p + q.len()) =~= t.subrange(i, i + q.len()));
        lemma_find_seq_first(name, q, 0, i - p);
    }
}

/// Ranks a path for a query, both already lowered (see [`rank_spec`]).
pub fn rank_lowered(text: &str, query: &str) -> (res: Option<usize>)
    ensures
        match rank_spec(utf8(text@), utf8(query@)) {
            Some(r) => res == Some(r as usize),
            None => res is None,
        },
{
    let t = text.as_bytes();
    let q = query.as_bytes();
    let n = t.len();
    let m = q.len();
    assert(n == t@.len() && m == q@.len());
    if m == 0 {
        return Some(0);
    }
    let mut i: usize = 0;
    let mut from: usize = 0;
    let mut score: usize = 0;
    while i < m
        invariant
            n == t@.len(),
            m == q@.len(),
            m > 0,
            t@ == utf8(text@),
            q@ == utf8(query@),
            i <= m,
            score <= from <= n,
            fuzzy_score(t@, q@, i as int, from as int, score as int) == fuzzy_score(t@, q@, 0, 0, 0),
        decreases m - i,
    {
        let w = width_at(q, i);
        let end = if m - i >= w {
            i + w
        } else {
            m
        };
        let needle = &q[i..end];
        assert(needle@ == q@.subrange(i as int, end as int));
        match find_bytes(t, needle, from) {
            None => {
                return None;
            },
            Some(k) => {
                proof {
                    lemma_find_seq(t@, needle@, from as int);
                }
                score = score + (k - from);
                from = k + (end - i);
                i = end;
            },
        }
    }
    let name_start = {
        let mut e = n;
        while e > 0 && !(t[e - 1] == 47 || t[e - 1] == 92)
            invariant
                e <= n == t@.len(),
                last_piece_start(t@, e as int) == last_piece_start(t@, n as int),
            decreases e,
        {
            e = e - 1;
        }
        e
    };
    let name = &t[name_start..n];
    assert(name@ == t@.subrange(last_piece_start(t@, n as int), n as int));
    let holds = find_bytes(name, q, 0).is_some();
    Some(
        if holds {
            if score >= 5 {
                score - 5
            } else {
                0
            }
        } else {
            score
        },
    )
}

/// Ranks a path for a query typed in quick open: both are lowered with
/// `str::to_lowercase` (see [`lowercased`]) and ranked by
/// [`rank_lowered`]; lower ranks match better.
pub fn rank(path: &str, query: &str) -> (res: Option<usize>)
    ensures
        match rank_spec(utf8(lowercased(path@)), utf8(lowercased(query@))) {
            Some(r) => res == Some(r as usize),
            None => res is None,
        },
{
    let text = to_lowercase(path);
    let q = to_lowercase(query);
    rank_lowered(text.as_str(), q.as_str())
}


/// A match with its path, as plain values.
pub open spec fn placed_view(m: Match) -> (Seq<char>, int, int, Seq<char>) {
    (m.path@, m.line as int, m.column as int, m.preview@)
}

/// The plain values of a list of matches with their paths.
pub open spec fn placed_views(v: Seq<Match>) -> Seq<(Seq<char>, int, int, Seq<char>)> {
    Seq::new(v.len(), |k: int| placed_view(v[k]))
}

/// The hits of `q` in the first `n` open buffers `(path, text)`, at most
/// `limit` in all: each buffer's hits in order, up to what is left.
pub open spec fn buffer_hits(open: Seq<(String, String)>, q: Seq<u8>, limit: int, n: int) -> Seq<
    (Seq<char>, int, int, Seq<char>),
>
    decreases n,
{
    if n <= 0 {
        Seq::empty()
    } else {
        let before = buffer_hits(open, q, limit, n - 1);
        let path = open[n - 1].0@;
        let s = utf8(open[n - 1].1@);
        before + hit_views(s, source_hits(s, q, limit - before.len())).map_values(
            |h: (int, int, Seq<char>)| (path, h.0, h.1, h.2),
        )
    }
}

/// Searches the open buffers `(path, text)` for `query`, at most `limit`
/// hits in all (see [`buffer_hits`]); the files on disk that are not open
/// get what is left.
pub fn search_buffers(open: &Vec<(String, String)>, query: &str, limit: usize) -> (res: Vec<Match>)
    ensures
        placed_views(res@) == buffer_hits(open@, utf8(query@), limit as int, open@.len() as int),
        res@.len() <= limit,
{
    let mut hits: Vec<Match> = Vec::new();
    let mut k: usize = 0;
    while k < open.len()
        invariant
            k <= open@.len(),
            hits@.len() <= limit,
            placed_views(hits@) == buffer_hits(open@, utf8(query@), limit as int, k as int),
        decreases open@.len() - k,
    {
        let (path, source) = &open[k];
        let found = search_source(path.as_str(), source.as_str(), query, limit - hits.len());
        let ghost before = placed_views(hits@);
        let ghost s = utf8(source@);
        let ghost src = source_hits(s, utf8(query@), limit - hits@.len());
        proof {
            assert(match_views(found@).len() == found@.len());
            assert(hit_views(s, src).len() == src.len());
        }
        let mut found = found;
        let ghost added = found@;
        hits.append(&mut found);
        assert(placed_views(hits@) =~= before + placed_views(added));
        proof {
            assert(placed_views(added) =~= hit_views(s, src).map_values(
                |h: (int, int, Seq<char>)| (path@, h.0, h.1, h.2),
            )) by {
                assert forall|i: int| 0 <= i < added.len() implies placed_views(added)[i] == hit_views(
                    s,
                    src,
                ).map_values(|h: (int, int, Seq<char>)| (path@, h.0, h.1, h.2))[i] by {
                    assert(match_views(added)[i] == match_view(added[i]));
                }
            }
            assert(open@[k as int].0 == *path);
            assert(open@[k as int].1 == *source);
        }
        k = k + 1;
    }
    hits
}

/// The folders that a workspace search never enters: version control,
/// dependencies and build output.
pub open spec fn skipped_name(name: Seq<char>) -> bool {
    name == ".git"@ || name == "target"@ || name == "node_modules"@ || name == "dist"@ || name
        == "build"@ || name == "bin"@ || name == "obj"@ || name == "zig-cache"@ || name
        == "zig-out"@
}

/// Whether a workspace search skips an entry of this name (see
/// [`skipped_name`]).
pub fn skipped(name: &str) -> (res: bool)
    ensures
        res == skipped_name(name@),
{
    let n = name.unicode_len();
    proof {
        assert(name@.subrange(0, n as int) =~= name@);
    }
    crate::text::spells_chars(name, 0, n, ".git") || crate::text::spells_chars(name, 0, n, "target")
        || crate::text::spells_chars(name, 0, n, "node_modules") || crate::text::spells_chars(
        name,
        0,
        n,
        "dist",
    ) || crate::text::spells_chars(name, 0, n, "build") || crate::text::spells_chars(
        name,
        0,
        n,
        "bin",
    ) || crate::text::spells_chars(name, 0, n, "obj") || crate::text::spells_chars(
        name,
        0,
        n,
        "zig-cache",
    ) || crate::text::spells_chars(name, 0, n, "zig-out")
}

/// The most files a workspace search reads.
pub const MAX_SEARCH_FILES: usize = 20000;

/// What a workspace walk does with one entry of a folder.
#[derive(Clone, Copy, Debug, PartialEq, Eq, Structural)]
pub enum WalkStep {
    /// The entry is passed over.
    Skip,
    /// The entry is a folder to walk into.
    Enter,
    /// The entry is a file to search.
    Collect,
}

/// What a workspace walk does with an entry: links, skipped names and
/// entries under a path that Git ignores are passed over; folders are
/// walked into; files are searched when their size is known and at most
/// [`crate::document::MAX_OPEN_BYTES`].
pub open spec fn walk_step_of(
    symlink: bool,
    name: Seq<char>,
    ignored: bool,
    is_dir: bool,
    is_file: bool,
    size: Option<u64>,
) -> WalkStep {
    if symlink || skipped_name(name) || ignored {
        WalkStep::Skip
    } else if is_dir {
        WalkStep::Enter
    } else if is_file && (size matches Some(n) && n <= crate::document::MAX_OPEN_BYTES) {
        WalkStep::Collect
    } else {
        WalkStep::Skip
    }
}

/// What a workspace walk does with an entry (see [`walk_step_of`]).
pub fn walk_step(
    symlink: bool,
    name: &str,
    ignored: bool,
    is_dir: bool,
    is_file: bool,
    size: Option<u64>,
) -> (res: WalkStep)
    ensures
        res == walk_step_of(symlink, name@, ignored, is_dir, is_file, size),
{
    if symlink || skipped(name) || ignored {
        WalkStep::Skip
    } else if is_dir {
        WalkStep::Enter
    } else if is_file && match size {
        Some(n) => n <= crate::document::MAX_OPEN_BYTES,
        None => false,
    } {
        WalkStep::Collect
    } else {
        WalkStep::Skip
    }
}

} // verus!
