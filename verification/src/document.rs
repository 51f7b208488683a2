//! Reading and writing the bytes of text files: the byte order mark, the
//! line endings and the checks made before a file is opened.

use vstd::prelude::*;
use vstd::utf8::*;

use crate::text::{boundary, checked_string, lemma_after_ascii, lemma_ascii_is_boundary, lemma_ascii_valid, lemma_valid_between, push_range, push_str, string_from_utf8, utf8};

verus! {

broadcast use {
    vstd::utf8::encode_utf8_valid_utf8,
    vstd::utf8::decode_utf8_encode_utf8,
    vstd::utf8::valid_utf8_concat,
};

/// The largest file that is opened, in bytes.
pub const MAX_OPEN_BYTES: u64 = 8388608;

/// How a file ends its lines.
#[derive(Clone, Copy, Debug, PartialEq, Eq, Structural)]
pub enum LineEnding {
    Lf,
    CrLf,
}

impl Default for LineEnding {
    fn default() -> (res: Self)
        ensures
            res == LineEnding::Lf,
    {
        LineEnding::Lf
    }
}

impl LineEnding {
    /// The name shown in the status bar.
    pub fn label(self) -> (res: &'static str)
        ensures
            res@ == match self {
                LineEnding::Lf => "LF"@,
                LineEnding::CrLf => "CRLF"@,
            },
    {
        match self {
            LineEnding::Lf => "LF",
            LineEnding::CrLf => "CRLF",
        }
    }
}

/// Why a file cannot be edited.
#[derive(Clone, Copy, Debug, PartialEq, Eq, Structural)]
pub enum DecodeError {
    NotUtf8,
    Binary,
}

/// Why a file cannot be opened for editing.
#[derive(Clone, Copy, Debug, PartialEq, Eq, Structural)]
pub enum OpenError {
    /// It is larger than the editor takes.
    TooLarge,
    /// Its bytes are no text the editor edits.
    Unreadable(DecodeError),
}

impl OpenError {
    /// The message shown for the error.
    pub fn message(self) -> (res: &'static str)
        ensures
            res@ == match self {
                OpenError::TooLarge => "Basic editor supports files up to 8 MiB"@,
                OpenError::Unreadable(DecodeError::NotUtf8) => "Only UTF-8 text files are supported"@,
                OpenError::Unreadable(DecodeError::Binary) => "Binary files cannot be edited"@,
            },
    {
        match self {
            OpenError::TooLarge => "Basic editor supports files up to 8 MiB",
            OpenError::Unreadable(e) => e.message(),
        }
    }
}

impl DecodeError {
    /// The message shown for the error.
    pub fn message(self) -> (res: &'static str)
        ensures
            res@ == match self {
                DecodeError::NotUtf8 => "Only UTF-8 text files are supported"@,
                DecodeError::Binary => "Binary files cannot be edited"@,
            },
    {
        match self {
            DecodeError::NotUtf8 => "Only UTF-8 text files are supported",
            DecodeError::Binary => "Binary files cannot be edited",
        }
    }
}

/// Whether the bytes start with the UTF-8 byte order mark.
pub open spec fn has_bom(b: Seq<u8>) -> bool {
    b.len() >= 3 && b[0] == 0xef && b[1] == 0xbb && b[2] == 0xbf
}

/// Whether `s[k]` is a `\r` that starts a `\r\n`.
pub open spec fn crlf_at(s: Seq<u8>, k: int) -> bool {
    0 <= k && k + 1 < s.len() && s[k] == 13 && s[k + 1] == 10
}

/// `s[..k]` with the `\r` of each `\r\n` left out: `\r\n` read as `\n`.
pub open spec fn lf_text(s: Seq<u8>, k: int) -> Seq<u8>
    decreases k,
{
    if k <= 0 {
        Seq::empty()
    } else if crlf_at(s, k - 1) {
        lf_text(s, k - 1)
    } else {
        lf_text(s, k - 1).push(s[k - 1])
    }
}

/// The number of `\r\n` in `s[..k]`.
pub open spec fn crlf_count(s: Seq<u8>, k: int) -> int
    decreases k,
{
    if k <= 0 {
        0
    } else {
        crlf_count(s, k - 1) + if crlf_at(s, k - 1) {
            1int
        } else {
            0
        }
    }
}

/// The number of `\n` in `s[..k]`.
pub open spec fn lf_count(s: Seq<u8>, k: int) -> int
    decreases k,
{
    if k <= 0 {
        0
    } else {
        lf_count(s, k - 1) + if s[k - 1] == 10 {
            1int
        } else {
            0
        }
    }
}

/// A file's bytes read for editing: the byte order mark is dropped; the
/// rest must be UTF-8 without NUL bytes; the file ends its lines with
/// `\r\n` when every one of its line breaks is a `\r\n` (and it has one),
/// and the text has `\n` line breaks. The result is the text, the line
/// ending and whether there was a byte order mark.
pub open spec fn decoded(b: Seq<u8>) -> Result<(Seq<u8>, LineEnding, bool), DecodeError> {
    let bom = has_bom(b);
    let s = if bom {
        b.subrange(3, b.len() as int)
    } else {
        b
    };
    let n = s.len() as int;
    if !valid_utf8(s) {
        Err(DecodeError::NotUtf8)
    } else if s.contains(0) {
        Err(DecodeError::Binary)
    } else {
        let ending = if crlf_count(s, n) > 0 && crlf_count(s, n) == lf_count(s, n) {
            LineEnding::CrLf
        } else {
            LineEnding::Lf
        };
        Ok((lf_text(s, n), ending, bom))
    }
}

/// The text of a file read for editing, its line ending and whether it
/// starts with a byte order mark (see [`decoded`]).
pub fn decode(bytes: &[u8]) -> (res: Result<(String, LineEnding, bool), DecodeError>)
    ensures
        match decoded(bytes@) {
            Ok(d) => res matches Ok(r) && utf8(r.0@) == d.0 && r.1 == d.1 && r.2 == d.2,
            Err(e) => res == Err::<(String, LineEnding, bool), DecodeError>(e),
        },
{
    let bom = bytes.len() >= 3 && bytes[0] == 0xef && bytes[1] == 0xbb && bytes[2] == 0xbf;
    let start: usize = if bom {
        3
    } else {
        0
    };
    let n = bytes.len();
    let ghost s = bytes@.subrange(start as int, n as int);
    let mut rest: Vec<u8> = Vec::new();
    push_range(&mut rest, bytes, start, n);
    assert(bom == has_bom(bytes@));
    assert(rest@ =~= s);
    assert(s =~= if bom {
        bytes@.subrange(3, bytes@.len() as int)
    } else {
        bytes@
    });
    let checked = checked_string(rest);
    if checked.is_none() {
        return Err(DecodeError::NotUtf8);
    }
    let text = checked.unwrap();
    let src = text.as_str().as_bytes();
    assert(src@ == s);
    let m = src.len();
    let mut k: usize = 0;
    while k < m
        invariant
            m == src@.len(),
            k <= m,
            forall|j: int| 0 <= j < k ==> src@[j] != 0,
            src@ == s,
            valid_utf8(s),
            bom == has_bom(bytes@),
            s == if bom {
                bytes@.subrange(3, bytes@.len() as int)
            } else {
                bytes@
            },
        decreases m - k,
    {
        if src[k] == 0 {
            assert(src@.contains(0u8));
            return Err(DecodeError::Binary);
        }
        k = k + 1;
    }
    assert(!src@.contains(0u8));
    let mut out: Vec<u8> = Vec::new();
    let mut crlf: usize = 0;
    let mut lf: usize = 0;
    let mut seg: usize = 0;
    let mut i: usize = 0;
    assert(out@ + src@.subrange(seg as int, i as int) =~= lf_text(src@, 0));
    while i < m
        invariant
            m == src@.len(),
            valid_utf8(src@),
            seg <= i <= m,
            boundary(src@, seg as int),
            valid_utf8(out@),
            out@ + src@.subrange(seg as int, i as int) == lf_text(src@, i as int),
            crlf == crlf_count(src@, i as int),
            lf == lf_count(src@, i as int),
            crlf <= i,
            lf <= i,
        decreases m - i,
    {
        let b = src[i];
        if b == 13 && i + 1 < m && src[i + 1] == 10 {
            proof {
                lemma_ascii_is_boundary(src@, i as int);
                lemma_valid_between(src@, seg as int, i as int);
                valid_utf8_concat(out@, src@.subrange(seg as int, i as int));
                lemma_after_ascii(src@, i + 1);
            }
            push_range(&mut out, src, seg, i);
            crlf = crlf + 1;
            i = i + 1;
            seg = i;
            assert(out@ + src@.subrange(seg as int, i as int) =~= lf_text(src@, i as int));
        } else {
            if b == 10 {
                lf = lf + 1;
            }
            i = i + 1;
            assert(src@.subrange(seg as int, i as int) =~= src@.subrange(seg as int, i - 1).push(b));
            assert(out@ + src@.subrange(seg as int, i as int) =~= lf_text(src@, i as int));
        }
    }
    proof {
        is_char_boundary_start_end_of_seq(src@);
        lemma_valid_between(src@, seg as int, m as int);
        valid_utf8_concat(out@, src@.subrange(seg as int, m as int));
    }
    push_range(&mut out, src, seg, m);
    assert(out@ =~= lf_text(src@, m as int));
    let ending = if crlf > 0 && crlf == lf {
        LineEnding::CrLf
    } else {
        LineEnding::Lf
    };
    Ok((string_from_utf8(out), ending, bom))
}

/// `s` with each `\n` written as `\r\n`.
pub open spec fn crlf_text(s: Seq<u8>, k: int) -> Seq<u8>
    decreases k,
{
    if k <= 0 {
        Seq::empty()
    } else if s[k - 1] == 10 {
        crlf_text(s, k - 1) + seq![13u8, 10u8]
    } else {
        crlf_text(s, k - 1).push(s[k - 1])
    }
}

/// The bytes written for a text: `\r\n` read as `\n`, then every `\n`
/// written as the line ending, after the byte order mark when the file had
/// one.
pub open spec fn encoded(t: Seq<u8>, ending: LineEnding, bom: bool) -> Seq<u8> {
    let lf = lf_text(t, t.len() as int);
    let body = match ending {
        LineEnding::Lf => lf,
        LineEnding::CrLf => crlf_text(lf, lf.len() as int),
    };
    if bom {
        seq![0xefu8, 0xbbu8, 0xbfu8] + body
    } else {
        body
    }
}

/// The bytes to write for a text (see [`encoded`]).
pub fn encode(text: &str, ending: LineEnding, bom: bool) -> (res: Vec<u8>)
    ensures
        res@ == encoded(utf8(text@), ending, bom),
{
    let src = text.as_bytes();
    let m = src.len();
    let mut lf: Vec<u8> = Vec::new();
    let mut i: usize = 0;
    while i < m
        invariant
            m == src@.len(),
            i <= m,
            lf@ == lf_text(src@, i as int),
        decreases m - i,
    {
        if !(src[i] == 13 && i + 1 < m && src[i + 1] == 10) {
            lf.push(src[i]);
        }
        i = i + 1;
    }
    let mut out: Vec<u8> = Vec::new();
    if bom {
        out.push(0xef);
        out.push(0xbb);
        out.push(0xbf);
    }
    let ghost head = out@;
    let mut j: usize = 0;
    while j < lf.len()
        invariant
            j <= lf@.len(),
            out@ == head + match ending {
                LineEnding::Lf => lf@.subrange(0, j as int),
                LineEnding::CrLf => crlf_text(lf@, j as int),
            },
        decreases lf.len() - j,
    {
        let b = lf[j];
        if b == 10 && ending == LineEnding::CrLf {
            out.push(13);
        }
        out.push(b);
        j = j + 1;
        proof {
            assert(lf@.subrange(0, j as int) =~= lf@.subrange(0, j - 1).push(b));
            match ending {
                LineEnding::Lf => {
                    assert(out@ =~= head + lf@.subrange(0, j as int));
                },
                LineEnding::CrLf => {
                    assert(out@ =~= head + crlf_text(lf@, j as int));
                },
            }
        }
    }
    assert(lf@.subrange(0, j as int) =~= lf@);
    assert(out@ =~= encoded(utf8(text@), ending, bom));
    out
}


/// The bytes after the byte order mark, if there is one.
pub open spec fn body(b: Seq<u8>) -> Seq<u8> {
    if has_bom(b) {
        b.subrange(3, b.len() as int)
    } else {
        b
    }
}

/// Whether some `\r` of `s` comes just before a `\r\n`.
pub open spec fn cr_before_crlf(s: Seq<u8>) -> bool {
    exists|k: int| 0 <= k && s[k] == 13 && #[trigger] crlf_at(s, k + 1)
}

/// Whether the line breaks of `s` are uniform: none is a `\r\n`, or all
/// are.
pub open spec fn uniform_endings(s: Seq<u8>) -> bool {
    crlf_count(s, s.len() as int) == 0 || crlf_count(s, s.len() as int) == lf_count(
        s,
        s.len() as int,
    )
}

/// With no `\r` just before a `\r\n`, reading `\r\n` as `\n` leaves no
/// `\r\n`; the text read so far ends with the last byte when that byte
/// does not start a `\r\n`.
proof fn lemma_lf_text_unpaired(s: Seq<u8>, k: int)
    requires
        0 <= k <= s.len(),
        !cr_before_crlf(s),
    ensures
        forall|j: int| !#[trigger] crlf_at(lf_text(s, k), j),
        k > 0 && !crlf_at(s, k - 1) ==> lf_text(s, k).len() > 0 && lf_text(s, k).last() == s[k - 1],
    decreases k,
{
    if k > 0 {
        lemma_lf_text_unpaired(s, k - 1);
        if !crlf_at(s, k - 1) {
            let u = lf_text(s, k - 1);
            let w = u.push(s[k - 1]);
            assert(lf_text(s, k) == w);
            if s[k - 1] == 10 && u.len() > 0 && u.last() == 13 {
                assert(k - 1 > 0);
                if s[k - 2] != 13 {
                    assert(!crlf_at(s, k - 2));
                    assert(u.last() == s[k - 2]);
                }
                assert(crlf_at(s, k - 2));
                lemma_lf_text_unpaired(s, k - 2);
                assert(u == lf_text(s, k - 2));
                assert(!crlf_at(s, k - 3));
                assert(s[k - 3] == 13);
                assert(crlf_at(s, (k - 3) + 1));
                assert(cr_before_crlf(s));
            }
            assert forall|j: int| !#[trigger] crlf_at(w, j) by {
                if crlf_at(w, j) {
                    if j + 1 < u.len() {
                        assert(crlf_at(u, j));
                    } else {
                        assert(j + 1 == u.len());
                        assert(u.last() == 13);
                    }
                }
            }
        } else {
            assert(lf_text(s, k) == lf_text(s, k - 1));
        }
    }
}

proof fn lemma_lf_text_plain(t: Seq<u8>, k: int)
    requires
        0 <= k <= t.len(),
        forall|j: int| !#[trigger] crlf_at(t, j),
    ensures
        lf_text(t, k) == t.take(k),
    decreases k,
{
    if k > 0 {
        lemma_lf_text_plain(t, k - 1);
        assert(t.take(k) =~= t.take(k - 1).push(t[k - 1]));
    }
}

proof fn lemma_crlf_text_prefix(u: Seq<u8>, v: Seq<u8>, j: int)
    requires
        0 <= j <= u.len(),
        j <= v.len(),
        u.take(j) == v.take(j),
    ensures
        crlf_text(u, j) == crlf_text(v, j),
    decreases j,
{
    if j > 0 {
        assert(u.take(j - 1) =~= u.take(j).take(j - 1));
        assert(v.take(j - 1) =~= v.take(j).take(j - 1));
        assert(u[j - 1] == u.take(j)[j - 1]);
        assert(v[j - 1] == v.take(j)[j - 1]);
        lemma_crlf_text_prefix(u, v, j - 1);
    }
}

/// Appending a byte to a text appends its encoding with `\r\n` endings.
proof fn lemma_crlf_text_push(u: Seq<u8>, x: u8)
    ensures
        crlf_text(u.push(x), u.len() + 1int) == crlf_text(u, u.len() as int) + if x == 10 {
            seq![13u8, 10u8]
        } else {
            seq![x]
        },
{
    let w = u.push(x);
    assert(w.take(u.len() as int) =~= u.take(u.len() as int));
    lemma_crlf_text_prefix(w, u, u.len() as int);
    if x != 10 {
        assert(crlf_text(w, u.len() as int).push(x) =~= crlf_text(u, u.len() as int) + seq![x]);
    }
}

/// Whether the `\n` at `j` comes without a `\r` before it.
pub open spec fn unpaired_at(s: Seq<u8>, j: int) -> bool {
    s[j] == 10 && !(j > 0 && s[j - 1] == 13)
}

/// The number of `\n` in `s[..k]` without a `\r` before them.
pub open spec fn unpaired_count(s: Seq<u8>, k: int) -> int
    decreases k,
{
    if k <= 0 {
        0
    } else {
        unpaired_count(s, k - 1) + if unpaired_at(s, k - 1) {
            1int
        } else {
            0
        }
    }
}

/// Each `\n` is either the end of a `\r\n` pair or unpaired (a pair
/// whose `\n` lies just past `k` is counted on the left).
proof fn lemma_pairs_and_breaks(s: Seq<u8>, k: int)
    requires
        0 <= k <= s.len(),
    ensures
        lf_count(s, k) + (if k > 0 && crlf_at(s, k - 1) {
            1int
        } else {
            0
        }) == crlf_count(s, k) + unpaired_count(s, k),
    decreases k,
{
    if k > 0 {
        lemma_pairs_and_breaks(s, k - 1);
    }
}

proof fn lemma_unpaired_counted(s: Seq<u8>, j: int, k: int)
    requires
        0 <= j < k <= s.len(),
        unpaired_at(s, j),
    ensures
        unpaired_count(s, k) > 0,
    decreases k,
{
    if j < k - 1 {
        lemma_unpaired_counted(s, j, k - 1);
    }
    lemma_unpaired_nonneg(s, k - 1);
}

proof fn lemma_unpaired_nonneg(s: Seq<u8>, k: int)
    ensures
        unpaired_count(s, k) >= 0,
    decreases k,
{
    if k > 0 {
        lemma_unpaired_nonneg(s, k - 1);
    }
}

/// With as many `\r\n` pairs as `\n`, every `\n` comes after a `\r`.
proof fn lemma_every_break_paired(s: Seq<u8>)
    requires
        crlf_count(s, s.len() as int) == lf_count(s, s.len() as int),
    ensures
        forall|j: int| 0 <= j < s.len() && #[trigger] s[j] == 10 ==> j > 0 && s[j - 1] == 13,
{
    let n = s.len() as int;
    lemma_pairs_and_breaks(s, n);
    assert forall|j: int| 0 <= j < s.len() && #[trigger] s[j] == 10 implies j > 0 && s[j - 1] == 13 by {
        if !(j > 0 && s[j - 1] == 13) {
            lemma_unpaired_counted(s, j, n);
        }
    }
}

/// From a position that does not split a `\r\n`, writing the rest of the
/// text back with `\r\n` endings gives the text again.
proof fn lemma_crlf_restores(s: Seq<u8>, k: int)
    requires
        0 <= k <= s.len(),
        forall|j: int| 0 <= j < s.len() && #[trigger] s[j] == 10 ==> j > 0 && s[j - 1] == 13,
        k == 0 || !crlf_at(s, k - 1),
        crlf_text(lf_text(s, k), lf_text(s, k).len() as int) == s.take(k),
    ensures
        crlf_text(lf_text(s, s.len() as int), lf_text(s, s.len() as int).len() as int) == s,
    decreases s.len() - k,
{
    let n = s.len() as int;
    if k == n {
        assert(s.take(n) =~= s);
    } else if crlf_at(s, k) {
        let u = lf_text(s, k);
        assert(lf_text(s, k + 1) == u);
        assert(!crlf_at(s, k + 1));
        assert(lf_text(s, k + 2) == u.push(10u8));
        lemma_crlf_text_push(u, 10u8);
        assert(s.take(k + 2) =~= s.take(k) + seq![13u8, 10u8]);
        lemma_crlf_restores(s, k + 2);
    } else {
        if s[k] == 10 {
            assert(k > 0 && s[k - 1] == 13);
            assert(crlf_at(s, k - 1));
        }
        let u = lf_text(s, k);
        assert(lf_text(s, k + 1) == u.push(s[k]));
        lemma_crlf_text_push(u, s[k]);
        assert(s.take(k + 1) =~= s.take(k) + seq![s[k]]);
        lemma_crlf_restores(s, k + 1);
    }
}

/// Saving what was opened writes the file back unchanged when its line
/// breaks are uniform (all `\n`, or all `\r\n`) and no `\r` comes just
/// before a `\r\n`: the byte order mark and the line ending are kept.
pub proof fn lemma_uniform_endings_round_trip(b: Seq<u8>)
    requires
        decoded(b) is Ok,
        !cr_before_crlf(body(b)),
        uniform_endings(body(b)),
    ensures
        decoded(b) matches Ok((t, ending, bom)) && encoded(t, ending, bom) == b,
{
    let s = body(b);
    let n = s.len() as int;
    let t = lf_text(s, n);
    if crlf_count(s, n) > 0 && crlf_count(s, n) == lf_count(s, n) {
        lemma_every_break_paired(s);
        assert(lf_text(s, 0) =~= Seq::<u8>::empty());
        assert(s.take(0) =~= Seq::<u8>::empty());
        lemma_crlf_restores(s, 0);
        lemma_lf_text_unpaired(s, n);
        lemma_lf_text_plain(t, t.len() as int);
        assert(t.take(t.len() as int) =~= t);
    } else {
        assert forall|j: int| !#[trigger] crlf_at(s, j) by {
            if crlf_at(s, j) {
                lemma_pair_counted(s, j, n);
            }
        }
        lemma_lf_text_plain(s, n);
        assert(s.take(n) =~= s);
        lemma_lf_text_plain(t, t.len() as int);
        assert(t.take(t.len() as int) =~= t);
    }
    if has_bom(b) {
        assert(seq![0xefu8, 0xbbu8, 0xbfu8] + s =~= b);
    }
}

/// A `\r\n` pair before `k` is counted.
proof fn lemma_pair_counted(s: Seq<u8>, j: int, k: int)
    requires
        0 <= j < k <= s.len(),
        crlf_at(s, j),
    ensures
        crlf_count(s, k) > 0,
    decreases k,
{
    if j < k - 1 {
        lemma_pair_counted(s, j, k - 1);
    }
    lemma_crlf_count_nonneg(s, k - 1);
}

proof fn lemma_crlf_count_nonneg(s: Seq<u8>, k: int)
    ensures
        crlf_count(s, k) >= 0,
    decreases k,
{
    if k > 0 {
        lemma_crlf_count_nonneg(s, k - 1);
    }
}

/// What saving writes back: with no `\r` just before a `\r\n`, the file
/// as it was when its line breaks are uniform, else (mixed) its body with
/// each `\r\n` read as `\n`, after the byte order mark when it had one.
pub proof fn lemma_saved_bytes(b: Seq<u8>)
    requires
        decoded(b) is Ok,
        !cr_before_crlf(body(b)),
    ensures
        decoded(b) matches Ok((t, ending, bom)) && encoded(t, ending, bom) == if uniform_endings(
            body(b),
        ) {
            b
        } else {
            (if has_bom(b) {
                seq![0xefu8, 0xbbu8, 0xbfu8]
            } else {
                Seq::<u8>::empty()
            }) + lf_text(body(b), body(b).len() as int)
        },
{
    let s = body(b);
    if uniform_endings(s) {
        lemma_uniform_endings_round_trip(b);
    } else {
        let t = lf_text(s, s.len() as int);
        lemma_lf_text_unpaired(s, s.len() as int);
        lemma_lf_text_plain(t, t.len() as int);
        assert(t.take(t.len() as int) =~= t);
        if !has_bom(b) {
            assert(Seq::<u8>::empty() + t =~= t);
        }
    }
}

/// A file whose line breaks mix `\r\n` and `\n` is saved with `\n` line
/// breaks.
pub proof fn lemma_mixed_endings_become_lf(b: Seq<u8>)
    requires
        decoded(b) is Ok,
        !uniform_endings(body(b)),
    ensures
        decoded(b) matches Ok((_, ending, _)) && ending == LineEnding::Lf,
{
}


/// An open text file: its path (once it has one), its text and the text
/// as last saved, its line ending and byte order mark, and a hash of the
/// bytes last read from or written to disk.
pub struct Document {
    path: Option<String>,
    text: String,
    saved_text: String,
    line_ending: LineEnding,
    utf8_bom: bool,
    disk_hash: Option<u64>,
}

/// What a document holds.
pub struct DocumentView {
    pub path: Option<Seq<char>>,
    pub text: Seq<char>,
    pub saved_text: Seq<char>,
    pub line_ending: LineEnding,
    pub utf8_bom: bool,
    pub disk_hash: Option<u64>,
}

impl View for Document {
    type V = DocumentView;

    closed spec fn view(&self) -> DocumentView {
        DocumentView {
            path: match self.path {
                Some(p) => Some(p@),
                None => None,
            },
            text: self.text@,
            saved_text: self.saved_text@,
            line_ending: self.line_ending,
            utf8_bom: self.utf8_bom,
            disk_hash: self.disk_hash,
        }
    }
}

/// The name shown for a document: its file name, or `Untitled`.
pub open spec fn document_name(path: Option<Seq<char>>) -> Seq<u8> {
    match path {
        Some(p) => match crate::file_icons::file_name(utf8(p)) {
            Some((a, b)) => utf8(p).subrange(a, b),
            None => utf8("Untitled"@),
        },
        None => utf8("Untitled"@),
    }
}

impl Default for Document {
    fn default() -> (res: Self)
        ensures
            res@.path is None,
            res@.text.len() == 0,
            res@.saved_text.len() == 0,
            res@.line_ending == LineEnding::Lf,
            !res@.utf8_bom,
            res@.disk_hash is None,
    {
        Document {
            path: None,
            text: String::new(),
            saved_text: String::new(),
            line_ending: LineEnding::Lf,
            utf8_bom: false,
            disk_hash: None,
        }
    }
}

impl Document {
    /// A document read from a file's bytes (see [`decoded`]), with no path
    /// yet: its text is saved as it is.
    pub fn decode(bytes: &[u8]) -> (res: Result<Document, DecodeError>)
        ensures
            match decoded(bytes@) {
                Ok((t, ending, bom)) => res matches Ok(d) && utf8(d@.text) == t && d@.saved_text
                    == d@.text && d@.line_ending == ending && d@.utf8_bom == bom && d@.path is None
                    && d@.disk_hash is None,
                Err(e) => res matches Err(f) && f == e,
            },
    {
        match decode(bytes) {
            Ok((text, line_ending, utf8_bom)) => {
                let saved_text = text.clone();
                Ok(Document { path: None, text, saved_text, line_ending, utf8_bom, disk_hash: None })
            },
            Err(e) => Err(e),
        }
    }

    /// The document opened from `path`, whose bytes `bytes` hash to
    /// `disk_hash`: refused when the file is larger than the editor takes,
    /// else decoded (see [`decoded`]).
    pub fn read(bytes: &[u8], path: String, disk_hash: u64) -> (res: Result<Document, OpenError>)
        ensures
            bytes@.len() > MAX_OPEN_BYTES ==> res == Err::<Document, OpenError>(OpenError::TooLarge),
            bytes@.len() <= MAX_OPEN_BYTES ==> match decoded(bytes@) {
                Ok((t, ending, bom)) => res matches Ok(d) && utf8(d@.text) == t && d@.saved_text
                    == d@.text && d@.line_ending == ending && d@.utf8_bom == bom && d@.path == Some(
                    path@,
                ) && d@.disk_hash == Some(disk_hash),
                Err(e) => res == Err::<Document, OpenError>(OpenError::Unreadable(e)),
            },
    {
        if bytes.len() as u64 > MAX_OPEN_BYTES {
            return Err(OpenError::TooLarge);
        }
        match Document::decode(bytes) {
            Ok(d) => Ok(d.opened(path, disk_hash)),
            Err(e) => Err(OpenError::Unreadable(e)),
        }
    }

    /// The document as opened from `path`, whose bytes hash to `disk_hash`.
    pub fn opened(self, path: String, disk_hash: u64) -> (res: Document)
        ensures
            res@.path == Some(path@),
            res@.disk_hash == Some(disk_hash),
            res@.text == self@.text,
            res@.saved_text == self@.saved_text,
            res@.line_ending == self@.line_ending,
            res@.utf8_bom == self@.utf8_bom,
    {
        Document { path: Some(path), disk_hash: Some(disk_hash), ..self }
    }

    /// The file's path, once it has one.
    pub fn path(&self) -> (res: Option<&str>)
        ensures
            match self@.path {
                Some(p) => res matches Some(r) && r@ == p,
                None => res is None,
            },
    {
        match &self.path {
            Some(p) => Some(p.as_str()),
            None => None,
        }
    }

    /// The name shown for the document (see [`document_name`]).
    pub fn name(&self) -> (res: String)
        ensures
            utf8(res@) == document_name(self@.path),
    {
        let untitled = "Untitled";
        let path = match &self.path {
            Some(p) => p.as_str(),
            None => {
                return untitled.to_owned();
            },
        };
        let p = path.as_bytes();
        match crate::file_icons::name_range(p) {
            None => untitled.to_owned(),
            Some((a, b)) => {
                proof {
                    crate::file_icons::lemma_name_edges(p@);
                    crate::git::lemma_ascii_edges(p@, a as int, b as int);
                    crate::git::lemma_ascii_edges(p@, a as int, p@.len() as int);
                    crate::git::lemma_sub_boundary(p@, a as int, p@.len() as int, (b - a) as int);
                }
                let (_, tail) = path.split_at(a);
                let (name, _) = tail.split_at(b - a);
                assert(utf8(name@) =~= p@.subrange(a as int, b as int));
                name.to_owned()
            },
        }
    }

    /// The text being edited.
    pub fn text(&self) -> (res: &str)
        ensures
            res@ == self@.text,
    {
        self.text.as_str()
    }

    /// Replaces the text being edited.
    pub fn set_text(&mut self, text: String)
        ensures
            final(self)@.text == text@,
            final(self)@.saved_text == old(self)@.saved_text,
            final(self)@.path == old(self)@.path,
            final(self)@.line_ending == old(self)@.line_ending,
            final(self)@.utf8_bom == old(self)@.utf8_bom,
            final(self)@.disk_hash == old(self)@.disk_hash,
    {
        self.text = text;
    }

    /// Whether the text differs from the text as last saved.
    pub fn is_dirty(&self) -> (res: bool)
        ensures
            res == unsaved(self@),
    {
        let a = self.text.as_str();
        let b = self.saved_text.as_str();
        let n = a.unicode_len();
        if n != b.unicode_len() {
            return true;
        }
        proof {
            assert(a@.subrange(0, n as int) =~= a@);
        }
        !crate::text::spells_chars(a, 0, n, b)
    }

    /// How the file ends its lines.
    pub fn line_ending(&self) -> (res: LineEnding)
        ensures
            res == self@.line_ending,
    {
        self.line_ending
    }

    /// The bytes that saving writes (see [`encoded`]).
    pub fn encoded(&self) -> (res: Vec<u8>)
        ensures
            res@ == encoded(utf8(self@.text), self@.line_ending, self@.utf8_bom),
    {
        encode(self.text.as_str(), self.line_ending, self.utf8_bom)
    }

    /// The document once saved to `path` with bytes that hash to
    /// `written_hash`: its text is now the saved text.
    pub fn saved(self, path: String, written_hash: u64) -> (res: Document)
        ensures
            res@.path == Some(path@),
            res@.disk_hash == Some(written_hash),
            res@.text == self@.text,
            res@.saved_text == self@.text,
            res@.line_ending == self@.line_ending,
            res@.utf8_bom == self@.utf8_bom,
    {
        let saved_text = self.text.clone();
        Document { path: Some(path), saved_text, disk_hash: Some(written_hash), ..self }
    }

    /// Whether a save to `target` writes over the document's own file.
    pub fn saves_over(&self, target: &str) -> (res: bool)
        ensures
            res == (self@.path matches Some(p) && utf8(p) == utf8(target@)),
    {
        match &self.path {
            Some(p) => crate::text::is_text(p.as_str().as_bytes(), target),
            None => false,
        }
    }

    /// Whether a save to `target` must be refused: it would write over the
    /// document's own file, which changed on disk since it was read or
    /// written (`on_disk` being the hash of what is there now, if anything).
    pub fn save_conflict(&self, target: &str, on_disk: Option<u64>) -> (res: bool)
        ensures
            res == ((self@.path matches Some(p) && utf8(p) == utf8(target@)) && match (self@.path, self@.disk_hash) {
                (Some(_), Some(expected)) => match on_disk {
                    Some(h) => h != expected,
                    None => true,
                },
                _ => false,
            }),
    {
        self.saves_over(target) && self.differs_from_disk(on_disk)
    }

    /// Whether the file on disk differs from what was last read or
    /// written: `on_disk` is the hash of its bytes now, or none when it is
    /// gone. A document without a path or hash never differs.
    pub fn differs_from_disk(&self, on_disk: Option<u64>) -> (res: bool)
        ensures
            res == match (self@.path, self@.disk_hash) {
                (Some(_), Some(expected)) => match on_disk {
                    Some(h) => h != expected,
                    None => true,
                },
                _ => false,
            },
    {
        match (&self.path, self.disk_hash) {
            (Some(_), Some(expected)) => match on_disk {
                Some(h) => h != expected,
                None => true,
            },
            _ => false,
        }
    }

    /// Takes the path, saved text and hash of a save made from a copy of
    /// this document; the text being edited stays.
    pub fn accept_saved(&mut self, saved: Document)
        ensures
            final(self)@.path == saved@.path,
            final(self)@.saved_text == saved@.saved_text,
            final(self)@.disk_hash == saved@.disk_hash,
            final(self)@.text == old(self)@.text,
            final(self)@.line_ending == old(self)@.line_ending,
            final(self)@.utf8_bom == old(self)@.utf8_bom,
    {
        self.path = saved.path;
        self.saved_text = saved.saved_text;
        self.disk_hash = saved.disk_hash;
    }
}

/// Whether a document holds edits that are not saved: what
/// [`Document::is_dirty`] answers.
pub open spec fn unsaved(d: DocumentView) -> bool {
    d.text != d.saved_text
}

/// Dirty tracking follows the text as last decoded, saved or taken over.
/// A document just decoded or saved (`fresh`) is clean; once its text is
/// set to another (`edited`, which keeps the saved text, as
/// [`Document::set_text`] does) it is dirty exactly when that text differs
/// from the saved one; and setting the text back (`restored`) clears it.
pub proof fn lemma_dirty_follows_saved_text(
    fresh: DocumentView,
    edited: DocumentView,
    restored: DocumentView,
)
    requires
        fresh.saved_text == fresh.text,
        edited.saved_text == fresh.saved_text,
        restored.saved_text == edited.saved_text,
        restored.text == fresh.text,
    ensures
        !unsaved(fresh),
        unsaved(edited) <==> edited.text != fresh.text,
        !unsaved(restored),
{
}

/// What the editor does with a buffer whose file changed on disk.
#[derive(Clone, Copy, Debug, PartialEq, Eq, Structural)]
pub enum DiskChange {
    /// The buffer has unsaved edits: they stay, and the change is flagged.
    KeepEdits,
    /// The buffer has none: the file is read again.
    Reload,
    /// The file could not be read again: the buffer stays, flagged.
    Orphaned,
}

/// What becomes of a buffer whose file changed on disk: edits are kept,
/// else the file is read again (`reopened` says whether that worked).
pub open spec fn disk_change_of(dirty: bool, reopened: bool) -> DiskChange {
    if dirty {
        DiskChange::KeepEdits
    } else if reopened {
        DiskChange::Reload
    } else {
        DiskChange::Orphaned
    }
}

/// What becomes of a buffer whose file changed on disk (see
/// [`disk_change_of`]).
pub fn disk_change(dirty: bool, reopened: bool) -> (res: DiskChange)
    ensures
        res == disk_change_of(dirty, reopened),
{
    if dirty {
        DiskChange::KeepEdits
    } else if reopened {
        DiskChange::Reload
    } else {
        DiskChange::Orphaned
    }
}

/// The status shown for a file that changed on disk.
pub open spec fn disk_change_text(change: DiskChange, path: Seq<char>) -> Seq<char> {
    match change {
        DiskChange::KeepEdits => path + " changed on disk — Save As or reload"@,
        DiskChange::Reload => "Reloaded "@ + path,
        DiskChange::Orphaned => path + " changed or was deleted — Save As to keep this buffer"@,
    }
}

/// The status shown for a file at `path` that changed on disk.
pub fn disk_change_status(change: DiskChange, path: &str) -> (res: String)
    ensures
        res@ == disk_change_text(change, path@),
{
    let mut out: Vec<char> = Vec::new();
    match change {
        DiskChange::KeepEdits => {
            crate::shell::push_text(&mut out, path);
            crate::shell::push_text(&mut out, " changed on disk — Save As or reload");
        },
        DiskChange::Reload => {
            crate::shell::push_text(&mut out, "Reloaded ");
            crate::shell::push_text(&mut out, path);
        },
        DiskChange::Orphaned => {
            crate::shell::push_text(&mut out, path);
            crate::shell::push_text(&mut out, " changed or was deleted — Save As to keep this buffer");
        },
    }
    crate::vim::engine::string_of(&out)
}

} // verus!
