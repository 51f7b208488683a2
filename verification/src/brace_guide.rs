//! The guide drawn between the braces of the block around the cursor.

use std::ops::Range;
use vstd::prelude::*;
use vstd::utf8::*;

use crate::folding::{active_pair, brace_pair_list, is_brace_pair, line_begin, pick_pair};
use crate::text::{boundary, lemma_after_ascii, lemma_ascii_is_boundary, lemma_valid_between, push_range, string_from_utf8, utf8};

verus! {

broadcast use {vstd::utf8::encode_utf8_valid_utf8, vstd::utf8::decode_utf8_encode_utf8};

/// Where a brace sits: its line and the text before it on that line.
#[derive(Clone, Debug, PartialEq, Eq)]
pub struct Brace {
    pub line: usize,
    pub prefix: String,
}

/// The braces of the block around the cursor and the column of the guide
/// between them.
#[derive(Clone, Debug, PartialEq, Eq)]
pub struct BraceGuide {
    pub open: Brace,
    pub close: Brace,
    pub indent: String,
}

/// Number of line breaks in `s`.
pub open spec fn newlines(s: Seq<u8>) -> int
    decreases s.len(),
{
    if s.len() == 0 {
        0
    } else {
        newlines(s.drop_last()) + if s.last() == 10 {
            1int
        } else {
            0int
        }
    }
}

/// Whether a `Brace` describes the brace at `offset` of `src`: its line is
/// the number of line breaks before it and its prefix is the text from the
/// start of that line up to it.
pub open spec fn brace_at(brace: Brace, src: Seq<u8>, offset: int) -> bool {
    &&& brace.line == newlines(src.subrange(0, offset))
    &&& utf8(brace.prefix@) == src.subrange(line_begin(src, offset), offset)
}

/// Number of spaces and tabs at the start of `s`, counting from `k`.
pub open spec fn blanks_from(s: Seq<u8>, k: int) -> int
    decreases s.len() - k,
{
    if 0 <= k < s.len() && (s[k] == 32 || s[k] == 9) {
        blanks_from(s, k + 1)
    } else {
        k
    }
}

/// The leading spaces and tabs of `s`.
pub open spec fn indent_of(s: Seq<u8>) -> Seq<u8> {
    s.subrange(0, blanks_from(s, 0))
}

proof fn lemma_blanks(s: Seq<u8>, k: int)
    requires
        0 <= k <= s.len(),
        forall|j: int| 0 <= j < k ==> s[j] == 32 || s[j] == 9,
    ensures
        k <= blanks_from(s, k) <= s.len(),
        forall|j: int| 0 <= j < blanks_from(s, k) ==> s[j] == 32 || s[j] == 9,
    decreases s.len() - k,
{
    if k < s.len() && (s[k] == 32 || s[k] == 9) {
        lemma_blanks(s, k + 1);
    }
}

proof fn lemma_newlines_push(s: Seq<u8>, b: u8)
    ensures
        newlines(s.push(b)) == newlines(s) + if b == 10 {
            1int
        } else {
            0int
        },
{
    assert(s.push(b).drop_last() =~= s);
}

proof fn lemma_line_begin_bounds(src: Seq<u8>, o: int)
    requires
        0 <= o <= src.len(),
    ensures
        0 <= line_begin(src, o) <= o,
        line_begin(src, o) == 0 || src[line_begin(src, o) - 1] == 10,
    decreases o,
{
    if o > 0 && src[o - 1] != 10 {
        lemma_line_begin_bounds(src, o - 1);
    }
}

impl Brace {
    fn at(text: &[u8], offset: usize) -> (res: Self)
        requires
            valid_utf8(text@),
            offset <= text@.len(),
            boundary(text@, offset as int),
        ensures
            brace_at(res, text@, offset as int),
    {
        let mut line: usize = 0;
        let mut i: usize = 0;
        while i < offset
            invariant
                i <= offset <= text@.len(),
                line == newlines(text@.subrange(0, i as int)),
                line <= i,
            decreases offset - i,
        {
            proof {
                lemma_newlines_push(text@.subrange(0, i as int), text@[i as int]);
                assert(text@.subrange(0, i as int).push(text@[i as int]) =~= text@.subrange(0, i + 1));
            }
            if text[i] == 10 {
                line = line + 1;
            }
            i = i + 1;
        }
        let mut start = offset;
        while start > 0 && text[start - 1] != 10
            invariant
                start <= offset,
                offset <= text@.len(),
                line_begin(text@, start as int) == line_begin(text@, offset as int),
            decreases start,
        {
            start = start - 1;
        }
        proof {
            lemma_line_begin_bounds(text@, offset as int);
            vstd::utf8::is_char_boundary_start_end_of_seq(text@);
            if start > 0 {
                lemma_after_ascii(text@, start as int);
            }
            lemma_valid_between(text@, start as int, offset as int);
        }
        let mut bytes: Vec<u8> = Vec::new();
        push_range(&mut bytes, text, start, offset);
        assert(bytes@ =~= text@.subrange(start as int, offset as int));
        Brace { line, prefix: string_from_utf8(bytes) }
    }

    fn indent(&self) -> (res: String)
        ensures
            utf8(res@) == indent_of(utf8(self.prefix@)),
    {
        let p = self.prefix.as_str().as_bytes();
        proof {
            lemma_blanks(p@, 0);
        }
        let mut n: usize = 0;
        while n < p.len() && (p[n] == 32 || p[n] == 9)
            invariant
                n <= p@.len(),
                blanks_from(p@, n as int) == blanks_from(p@, 0),
            decreases p.len() - n,
        {
            n = n + 1;
        }
        proof {
            vstd::utf8::is_char_boundary_start_end_of_seq(p@);
            if n > 0 {
                lemma_after_ascii(p@, n as int);
            }
            lemma_valid_between(p@, 0, n as int);
        }
        let mut bytes: Vec<u8> = Vec::new();
        push_range(&mut bytes, p, 0, n);
        assert(bytes@ =~= indent_of(p@));
        string_from_utf8(bytes)
    }
}

impl BraceGuide {
    /// The guide for the innermost brace pair around the cursor (see
    /// [`active_pair`]), or `None` outside any braces. The guide sits at the
    /// smaller of the two braces' line indents, the opening one on a tie.
    pub fn find(text: &str, cursor: usize) -> (res: Option<Self>)
        ensures
            match pick_pair(
                brace_pair_list(utf8(text@)),
                cursor as int,
                brace_pair_list(utf8(text@)).len() as int,
            ) {
                None => res is None,
                Some(pair) => res matches Some(guide) && {
                    let src = utf8(text@);
                    let open_indent = indent_of(utf8(guide.open.prefix@));
                    let close_indent = indent_of(utf8(guide.close.prefix@));
                    &&& brace_at(guide.open, src, pair.0 as int)
                    &&& brace_at(guide.close, src, pair.1 as int)
                    &&& utf8(guide.indent@) == if close_indent.len() < open_indent.len() {
                        close_indent
                    } else {
                        open_indent
                    }
                },
            },
    {
        let (open, close) = match active_pair(text, cursor) {
            Some(pair) => pair,
            None => return None,
        };
        let src = text.as_bytes();
        proof {
            assert(is_brace_pair(src@, (open, close)));
            lemma_ascii_is_boundary(src@, open as int);
            lemma_ascii_is_boundary(src@, close as int);
        }
        let open = Brace::at(src, open);
        let close = Brace::at(src, close);
        let open_indent = open.indent();
        let close_indent = close.indent();
        let close_len = close_indent.as_str().as_bytes().len();
        let open_len = open_indent.as_str().as_bytes().len();
        assert(close_len == utf8(close_indent@).len());
        assert(open_len == utf8(open_indent@).len());
        let indent = if close_len < open_len {
            close_indent
        } else {
            open_indent
        };
        Some(BraceGuide { open, close, indent })
    }

    /// The lines strictly between the two braces, where the guide is drawn.
    pub fn guide_lines(&self) -> (res: Range<usize>)
        requires
            self.open.line < usize::MAX,
        ensures
            res.start == self.open.line + 1,
            res.end == self.close.line,
    {
        self.open.line + 1..self.close.line
    }
}

} // verus!
