//! Code folding: hiding the inside of a brace block behind a placeholder.
//!
//! Offsets are byte offsets into the UTF-8 text. The source text keeps the
//! hidden code; the displayed text (its *projection*) shows `...` in place of
//! every fold.

use std::ops::Range;
use vstd::prelude::*;
use vstd::utf8::*;

use crate::text::{boundary, is_boundary, lemma_after_ascii, lemma_ascii_is_boundary, lemma_boundary_in_bounds, lemma_valid_between, push_range, same_bytes, string_from_utf8, string_between, utf8};

verus! {

broadcast use {vstd::utf8::encode_utf8_valid_utf8, vstd::utf8::decode_utf8_encode_utf8};

/// What a folded range shows instead of its text.
pub const PLACEHOLDER: &'static str = "...";

/// The bytes of [`PLACEHOLDER`].
pub open spec fn placeholder() -> Seq<u8> {
    seq![46u8, 46u8, 46u8]
}

/// A hidden byte range of the source text.
#[derive(Debug, PartialEq, Eq)]
pub struct Fold {
    pub range: Range<usize>,
}

impl Clone for Fold {
    fn clone(&self) -> (res: Self)
        ensures
            res == *self,
    {
        Fold { range: self.range.start..self.range.end }
    }
}

/// The edit that turns the displayed text before a fold toggle into the
/// displayed text after it, and where the cursor goes.
#[derive(Debug, PartialEq, Eq)]
pub struct Toggle {
    pub edit: Range<usize>,
    pub text: String,
    pub cursor: usize,
    pub folded: bool,
}

/// A change to the set of folds: fold a source range, or unfold the fold at an index.
pub enum Change {
    Fold(usize, usize),
    Unfold(usize),
}

// ---------------------------------------------------------------------------
// The projection
// ---------------------------------------------------------------------------

/// Whether a fold can be shown in the projection that has reached `from`.
pub open spec fn shows(src: Seq<u8>, fold: Fold, from: int) -> bool {
    &&& from <= fold.range.start
    &&& fold.range.end <= src.len()
    &&& boundary(src, fold.range.start as int)
    &&& boundary(src, fold.range.end as int)
}

/// The displayed text from byte `from` on, given the folds still to place.
pub open spec fn project_from(src: Seq<u8>, folds: Seq<Fold>, from: int) -> Seq<u8>
    decreases folds.len(),
{
    if folds.len() == 0 {
        src.subrange(from, src.len() as int)
    } else if shows(src, folds[0], from) {
        src.subrange(from, folds[0].range.start as int) + placeholder() + project_from(
            src,
            folds.drop_first(),
            folds[0].range.end as int,
        )
    } else {
        project_from(src, folds.drop_first(), from)
    }
}

/// The displayed text: each fold that starts at or after the end of the
/// previous shown fold, lies inside the text and starts and ends on character
/// boundaries is replaced by the placeholder; the other folds are ignored.
pub open spec fn projection(src: Seq<u8>, folds: Seq<Fold>) -> Seq<u8> {
    project_from(src, folds, 0)
}

proof fn lemma_project_from_valid(src: Seq<u8>, folds: Seq<Fold>, from: int)
    requires
        valid_utf8(src),
        boundary(src, from),
    ensures
        valid_utf8(project_from(src, folds, from)),
    decreases folds.len(),
{
    is_char_boundary_start_end_of_seq(src);
    if folds.len() == 0 {
        lemma_valid_between(src, from, src.len() as int);
    } else if shows(src, folds[0], from) {
        lemma_valid_between(src, from, folds[0].range.start as int);
        lemma_project_from_valid(src, folds.drop_first(), folds[0].range.end as int);
        assert(valid_utf8(placeholder())) by {
            reveal_with_fuel(valid_utf8, 4);
        }
        let a = src.subrange(from, folds[0].range.start as int);
        valid_utf8_concat(a, placeholder());
        valid_utf8_concat(a + placeholder(), project_from(src, folds.drop_first(), folds[0].range.end as int));
    } else {
        lemma_project_from_valid(src, folds.drop_first(), from);
    }
}

/// The projection of valid UTF-8 is valid UTF-8.
pub proof fn lemma_projection_valid(src: Seq<u8>, folds: Seq<Fold>)
    requires
        valid_utf8(src),
    ensures
        valid_utf8(projection(src, folds)),
{
    is_char_boundary_start_end_of_seq(src);
    lemma_project_from_valid(src, folds, 0);
}

fn project_bytes(src: &[u8], folds: &[Fold]) -> (res: Vec<u8>)
    requires
        valid_utf8(src@),
    ensures
        res@ == projection(src@, folds@),
        valid_utf8(res@),
{
    let ghost s = src@;
    let mut result: Vec<u8> = Vec::new();
    let mut from: usize = 0;
    let mut i: usize = 0;
    proof {
        is_char_boundary_start_end_of_seq(s);
        lemma_projection_valid(s, folds@);
    }
    assert(folds@.subrange(0, folds@.len() as int) =~= folds@);
    while i < folds.len()
        invariant
            s == src@,
            valid_utf8(s),
            i <= folds@.len(),
            from <= s.len(),
            boundary(s, from as int),
            result@ + project_from(s, folds@.subrange(i as int, folds@.len() as int), from as int)
                == projection(s, folds@),
        decreases folds.len() - i,
    {
        let ghost rest = folds@.subrange(i as int, folds@.len() as int);
        assert(rest.drop_first() =~= folds@.subrange(i + 1, folds@.len() as int));
        let start = folds[i].range.start;
        let end = folds[i].range.end;
        if start < from || end > src.len() || !is_boundary(src, start) || !is_boundary(src, end) {
        } else {
            let ghost before = result@;
            push_range(&mut result, src, from, start);
            result.push(46u8);
            result.push(46u8);
            result.push(46u8);
            assert(result@ =~= before + s.subrange(from as int, start as int) + placeholder());
            from = end;
        }
        i = i + 1;
    }
    assert(folds@.subrange(i as int, folds@.len() as int) =~= Seq::<Fold>::empty());
    push_range(&mut result, src, from, src.len());
    assert(result@ =~= projection(s, folds@));
    result
}

/// The text as displayed with `folds` collapsed.
pub fn projected(source: &str, folds: &[Fold]) -> (res: String)
    ensures
        utf8(res@) == projection(utf8(source@), folds@),
{
    let src = source.as_bytes();
    let bytes = project_bytes(src, folds);
    string_from_utf8(bytes)
}

// ---------------------------------------------------------------------------
// Mapping offsets between the source and the displayed text
// ---------------------------------------------------------------------------

/// A value clamped into the range of `usize`.
pub open spec fn sat(x: int) -> int {
    if x < 0 {
        0
    } else if x > usize::MAX {
        usize::MAX as int
    } else {
        x
    }
}

/// The byte length of a fold's range (zero for a reversed range).
pub open spec fn fold_len(fold: Fold) -> int {
    if fold.range.start < fold.range.end {
        fold.range.end - fold.range.start
    } else {
        0
    }
}

/// Bytes that the folds before index `i` remove from the display: the
/// length of each one's range minus the placeholder that replaces it.
pub open spec fn removed(folds: Seq<Fold>, i: int) -> int
    decreases i,
{
    if i <= 0 || i > folds.len() {
        0
    } else {
        removed(folds, i - 1) + fold_len(folds[i - 1]) - 3
    }
}

/// Where the placeholder of fold `i` starts in the displayed text.
pub open spec fn display_start(folds: Seq<Fold>, i: int) -> int {
    sat(folds[i].range.start - removed(folds, i))
}

/// A display offset mapped back into the source, looking at folds from `i` on:
/// offsets inside a placeholder map to the start of its fold (or the end,
/// with `end_bias`); other offsets shift by what the earlier folds removed.
pub open spec fn to_source_from(folds: Seq<Fold>, offset: int, end_bias: bool, i: int) -> int
    decreases folds.len() - i,
{
    if i < 0 || i >= folds.len() || offset <= display_start(folds, i) {
        sat(offset + removed(folds, i))
    } else if offset < display_start(folds, i) + 3 {
        if end_bias {
            folds[i].range.end as int
        } else {
            folds[i].range.start as int
        }
    } else {
        to_source_from(folds, offset, end_bias, i + 1)
    }
}

pub open spec fn to_source(folds: Seq<Fold>, offset: int, end_bias: bool) -> int {
    to_source_from(folds, offset, end_bias, 0)
}

/// A source offset mapped into the display, looking at folds from `i` on:
/// offsets inside a fold map to the start of its placeholder.
pub open spec fn to_display_from(folds: Seq<Fold>, offset: int, i: int) -> int
    decreases folds.len() - i,
{
    if i < 0 || i >= folds.len() || offset <= folds[i].range.start {
        sat(offset - removed(folds, i))
    } else if offset < folds[i].range.end {
        sat(folds[i].range.start - removed(folds, i))
    } else {
        to_display_from(folds, offset, i + 1)
    }
}

pub open spec fn to_display(folds: Seq<Fold>, offset: int) -> int {
    to_display_from(folds, offset, 0)
}

/// Whether every fold is shown: the folds are in order, and each lies
/// inside the text and starts and ends on character boundaries.
pub open spec fn placed(src: Seq<u8>, folds: Seq<Fold>) -> bool {
    &&& in_order(folds)
    &&& forall|i: int|
        0 <= i < folds.len() ==> (#[trigger] folds[i]).range.end <= src.len() && boundary(
            src,
            folds[i].range.start as int,
        ) && boundary(src, folds[i].range.end as int)
}

proof fn lemma_removed_tail(src: Seq<u8>, folds: Seq<Fold>, i: int)
    requires
        placed(src, folds),
        0 <= i < folds.len(),
    ensures
        removed(folds, folds.len() as int) - removed(folds, i) <= src.len() - folds[i].range.start,
    decreases folds.len() - i,
{
    let n = folds.len() as int;
    assert(folds[i].range.start <= folds[i].range.end);
    assert(removed(folds, i + 1) == removed(folds, i) + fold_len(folds[i]) - 3);
    if i + 1 < n {
        lemma_removed_tail(src, folds, i + 1);
        assert(folds[i].range.end <= folds[i + 1].range.start);
    }
}

proof fn lemma_project_len(src: Seq<u8>, folds: Seq<Fold>, i: int, from: int)
    requires
        placed(src, folds),
        0 <= i <= folds.len(),
        0 <= from <= src.len(),
        i < folds.len() ==> from <= folds[i].range.start,
    ensures
        project_from(src, folds.subrange(i, folds.len() as int), from).len() == src.len() - from - (
        removed(folds, folds.len() as int) - removed(folds, i)),
    decreases folds.len() - i,
{
    let n = folds.len() as int;
    let rest = folds.subrange(i, n);
    if i < n {
        let f = folds[i];
        assert(rest[0] == f);
        assert(f.range.start <= f.range.end);
        assert(shows(src, f, from));
        assert(rest.drop_first() =~= folds.subrange(i + 1, n));
        if i + 1 < n {
            assert(f.range.end <= folds[i + 1].range.start);
        }
        lemma_project_len(src, folds, i + 1, f.range.end as int);
        assert(removed(folds, i + 1) == removed(folds, i) + fold_len(f) - 3);
    }
}

proof fn lemma_display_from_within(src: Seq<u8>, folds: Seq<Fold>, x: int, i: int)
    requires
        placed(src, folds),
        0 <= i <= folds.len(),
        0 <= x <= src.len(),
        0 <= src.len() - removed(folds, folds.len() as int),
    ensures
        0 <= to_display_from(folds, x, i) <= src.len() - removed(folds, folds.len() as int),
    decreases folds.len() - i,
{
    let n = folds.len() as int;
    if i < n {
        lemma_removed_tail(src, folds, i);
        if x > folds[i].range.start && x >= folds[i].range.end {
            lemma_display_from_within(src, folds, x, i + 1);
        }
    }
}

proof fn lemma_removed_before(src: Seq<u8>, folds: Seq<Fold>, i: int)
    requires
        placed(src, folds),
        0 <= i < folds.len(),
    ensures
        removed(folds, i) <= folds[i].range.start,
    decreases i,
{
    if i > 0 {
        lemma_removed_before(src, folds, i - 1);
        assert(folds[i - 1].range.start <= folds[i - 1].range.end);
        assert(folds[i - 1].range.end <= folds[i].range.start);
    }
}

proof fn lemma_source_from_within(src: Seq<u8>, folds: Seq<Fold>, c: int, end_bias: bool, i: int)
    requires
        placed(src, folds),
        src.len() <= usize::MAX,
        0 <= i <= folds.len(),
        c <= src.len() - removed(folds, folds.len() as int),
    ensures
        0 <= to_source_from(folds, c, end_bias, i) <= src.len(),
    decreases folds.len() - i,
{
    if i < folds.len() {
        lemma_removed_before(src, folds, i);
        lemma_removed_tail(src, folds, i);
        if !(c <= display_start(folds, i)) && !(c < display_start(folds, i) + 3) {
            lemma_source_from_within(src, folds, c, end_bias, i + 1);
        }
    }
}

/// Every offset of the text maps into the displayed text: when each fold
/// is shown (see [`placed`]), the display offset of a source offset lies
/// within the projection.
pub proof fn lemma_display_offsets_fit(src: Seq<u8>, folds: Seq<Fold>, x: int)
    requires
        placed(src, folds),
        0 <= x <= src.len(),
    ensures
        0 <= to_display(folds, x) <= projection(src, folds).len(),
{
    lemma_project_len(src, folds, 0, 0);
    assert(folds.subrange(0, folds.len() as int) =~= folds);
    if folds.len() > 0 {
        lemma_removed_tail(src, folds, 0);
    }
    lemma_display_from_within(src, folds, x, 0);
}

/// Fewer folds than a vector can hold: a `Fold` takes 16 bytes and no
/// allocation exceeds `isize::MAX` bytes.
pub open spec fn fits(folds: Seq<Fold>) -> bool {
    folds.len() < 0x0800_0000_0000_0000
}

/// At most one more fold than [`fits`] allows.
pub open spec fn bounded(folds: Seq<Fold>) -> bool {
    folds.len() <= 0x0800_0000_0000_0000
}

proof fn lemma_removed_bound(folds: Seq<Fold>, i: int)
    requires
        0 <= i <= folds.len(),
    ensures
        -3 * i <= removed(folds, i) <= i * 0x1_0000_0000_0000_0000,
    decreases i,
{
    if i > 0 {
        lemma_removed_bound(folds, i - 1);
    }
}

fn clamp(x: i128) -> (res: usize)
    ensures
        res == sat(x as int),
{
    if x < 0 {
        0
    } else if x > usize::MAX as i128 {
        usize::MAX
    } else {
        x as usize
    }
}

fn span_len(fold: &Fold) -> (res: i128)
    ensures
        res == fold_len(*fold),
{
    if fold.range.start < fold.range.end {
        (fold.range.end - fold.range.start) as i128
    } else {
        0
    }
}

/// Where each fold's placeholder starts in the displayed text.
fn display_starts(folds: &[Fold]) -> (res: Vec<usize>)
    requires
        bounded(folds@),
    ensures
        res@.len() == folds@.len(),
        forall|i: int| 0 <= i < folds@.len() ==> res@[i] == display_start(folds@, i),
{
    let mut res: Vec<usize> = Vec::new();
    let mut removed_so_far: i128 = 0;
    let mut i: usize = 0;
    while i < folds.len()
        invariant
            bounded(folds@),
            i <= folds@.len(),
            removed_so_far == removed(folds@, i as int),
            res@.len() == i,
            forall|k: int| 0 <= k < i ==> res@[k] == display_start(folds@, k),
        decreases folds.len() - i,
    {
        proof {
            lemma_removed_bound(folds@, i as int);
            lemma_removed_bound(folds@, i + 1);
        }
        let start = clamp(folds[i].range.start as i128 - removed_so_far);
        res.push(start);
        removed_so_far = removed_so_far + span_len(&folds[i]) - 3;
        i = i + 1;
    }
    res
}

/// A display offset mapped back into the source.
fn display_to_source(folds: &[Fold], offset: usize, end_bias: bool) -> (res: usize)
    requires
        bounded(folds@),
    ensures
        res == to_source(folds@, offset as int, end_bias),
{
    let mut adjustment: i128 = 0;
    let mut i: usize = 0;
    while i < folds.len()
        invariant
            bounded(folds@),
            i <= folds@.len(),
            adjustment == removed(folds@, i as int),
            to_source_from(folds@, offset as int, end_bias, i as int) == to_source(
                folds@,
                offset as int,
                end_bias,
            ),
        decreases folds.len() - i,
    {
        proof {
            lemma_removed_bound(folds@, i as int);
            lemma_removed_bound(folds@, i + 1);
        }
        let start = clamp(folds[i].range.start as i128 - adjustment);
        if offset as i128 <= start as i128 {
            return clamp(offset as i128 + adjustment);
        }
        if (offset as i128) < start as i128 + 3 {
            return if end_bias {
                folds[i].range.end
            } else {
                folds[i].range.start
            };
        }
        adjustment = adjustment + span_len(&folds[i]) - 3;
        i = i + 1;
    }
    proof {
        lemma_removed_bound(folds@, i as int);
    }
    clamp(offset as i128 + adjustment)
}

/// A source offset mapped into the displayed text.
fn source_to_display(folds: &[Fold], offset: usize) -> (res: usize)
    requires
        bounded(folds@),
    ensures
        res == to_display(folds@, offset as int),
{
    let mut adjustment: i128 = 0;
    let mut i: usize = 0;
    while i < folds.len()
        invariant
            bounded(folds@),
            i <= folds@.len(),
            adjustment == removed(folds@, i as int),
            to_display_from(folds@, offset as int, i as int) == to_display(folds@, offset as int),
        decreases folds.len() - i,
    {
        proof {
            lemma_removed_bound(folds@, i as int);
            lemma_removed_bound(folds@, i + 1);
        }
        if offset <= folds[i].range.start {
            return clamp(offset as i128 - adjustment);
        }
        if offset < folds[i].range.end {
            return clamp(folds[i].range.start as i128 - adjustment);
        }
        adjustment = adjustment + span_len(&folds[i]) - 3;
        i = i + 1;
    }
    proof {
        lemma_removed_bound(folds@, i as int);
    }
    clamp(offset as i128 - adjustment)
}


// ---------------------------------------------------------------------------
// Brace blocks
// ---------------------------------------------------------------------------

/// What the brace scanner is inside of.
#[derive(Clone, Copy)]
pub enum Lex {
    Code,
    Str { quote: u8, escaped: bool },
    LineComment,
    BlockComment,
}

/// The byte at `i`, or -1 past either end.
pub open spec fn byte_at(src: Seq<u8>, i: int) -> int {
    if 0 <= i < src.len() {
        src[i] as int
    } else {
        -1
    }
}

/// Whether, from `k` on, a `'` comes before any line break.
pub open spec fn quote_closes(src: Seq<u8>, k: int) -> bool
    decreases src.len() - k,
{
    if k < 0 || k >= src.len() {
        false
    } else if src[k] == 39 {
        true
    } else if src[k] == 10 {
        false
    } else {
        quote_closes(src, k + 1)
    }
}

/// The brace pairs found by scanning from byte `ix` in state `lex`, with the
/// open braces `stack` still unmatched and `pairs` already found. Braces in
/// string and character literals and in comments are skipped; a `'` opens a
/// literal only when another `'` follows on the same line.
pub open spec fn scan(
    src: Seq<u8>,
    ix: int,
    lex: Lex,
    stack: Seq<usize>,
    pairs: Seq<(usize, usize)>,
) -> Seq<(usize, usize)>
    decreases src.len() - ix,
{
    if ix < 0 || ix >= src.len() {
        pairs
    } else {
        let b = src[ix];
        match lex {
            Lex::Code => {
                if b == 47 && byte_at(src, ix + 1) == 47 {
                    scan(src, ix + 2, Lex::LineComment, stack, pairs)
                } else if b == 47 && byte_at(src, ix + 1) == 42 {
                    scan(src, ix + 2, Lex::BlockComment, stack, pairs)
                } else if b == 34 {
                    scan(src, ix + 1, Lex::Str { quote: 34, escaped: false }, stack, pairs)
                } else if b == 39 && quote_closes(src, ix + 1) {
                    scan(src, ix + 1, Lex::Str { quote: 39, escaped: false }, stack, pairs)
                } else if b == 123 {
                    scan(src, ix + 1, Lex::Code, stack.push(ix as usize), pairs)
                } else if b == 125 && stack.len() > 0 {
                    scan(
                        src,
                        ix + 1,
                        Lex::Code,
                        stack.drop_last(),
                        pairs.push((stack.last(), ix as usize)),
                    )
                } else {
                    scan(src, ix + 1, Lex::Code, stack, pairs)
                }
            },
            Lex::Str { quote, escaped } => {
                if escaped {
                    scan(src, ix + 1, Lex::Str { quote, escaped: false }, stack, pairs)
                } else if b == 92 {
                    scan(src, ix + 1, Lex::Str { quote, escaped: true }, stack, pairs)
                } else if b == quote {
                    scan(src, ix + 1, Lex::Code, stack, pairs)
                } else {
                    scan(src, ix + 1, lex, stack, pairs)
                }
            },
            Lex::LineComment => {
                if b == 10 {
                    scan(src, ix + 1, Lex::Code, stack, pairs)
                } else {
                    scan(src, ix + 1, lex, stack, pairs)
                }
            },
            Lex::BlockComment => {
                if b == 42 && byte_at(src, ix + 1) == 47 {
                    scan(src, ix + 2, Lex::Code, stack, pairs)
                } else {
                    scan(src, ix + 1, lex, stack, pairs)
                }
            },
        }
    }
}

/// The matched `{`/`}` pairs of the text, in the order their `}` appear.
pub open spec fn brace_pair_list(src: Seq<u8>) -> Seq<(usize, usize)> {
    scan(src, 0, Lex::Code, Seq::empty(), Seq::empty())
}

/// A pair of offsets of a `{` and a later matching `}`.
pub open spec fn is_brace_pair(src: Seq<u8>, pair: (usize, usize)) -> bool {
    &&& pair.0 < pair.1 < src.len()
    &&& src[pair.0 as int] == 123
    &&& src[pair.1 as int] == 125
}

fn closes_on_line(src: &[u8], k: usize) -> (res: bool)
    ensures
        res == quote_closes(src@, k as int),
{
    if k >= src.len() {
        return false;
    }
    let mut j = k;
    while j < src.len()
        invariant
            k <= j <= src@.len(),
            quote_closes(src@, j as int) == quote_closes(src@, k as int),
        decreases src.len() - j,
    {
        if src[j] == 39 {
            return true;
        }
        if src[j] == 10 {
            return false;
        }
        j = j + 1;
    }
    false
}

proof fn lemma_scan_pairs(
    src: Seq<u8>,
    ix: int,
    lex: Lex,
    stack: Seq<usize>,
    pairs: Seq<(usize, usize)>,
)
    requires
        0 <= ix,
        src.len() <= usize::MAX,
        forall|k: int| #![trigger stack[k]] 0 <= k < stack.len() ==> stack[k] < ix && stack[k] < src.len() && src[stack[k] as int] == 123,
        forall|k: int| 0 <= k < pairs.len() ==> is_brace_pair(src, #[trigger] pairs[k]),
    ensures
        forall|k: int|
            0 <= k < scan(src, ix, lex, stack, pairs).len() ==> is_brace_pair(
                src,
                #[trigger] scan(src, ix, lex, stack, pairs)[k],
            ),
    decreases src.len() - ix,
{
    if ix < src.len() {
        let b = src[ix];
        match lex {
            Lex::Code => {
                if b == 47 && byte_at(src, ix + 1) == 47 {
                    lemma_scan_pairs(src, ix + 2, Lex::LineComment, stack, pairs);
                assert(scan(src, ix, lex, stack, pairs) == scan(src, ix + 2, Lex::LineComment, stack, pairs));} else if b == 47 && byte_at(src, ix + 1) == 42 {
                    lemma_scan_pairs(src, ix + 2, Lex::BlockComment, stack, pairs);
                assert(scan(src, ix, lex, stack, pairs) == scan(src, ix + 2, Lex::BlockComment, stack, pairs));} else if b == 34 {
                    lemma_scan_pairs(src, ix + 1, Lex::Str { quote: 34, escaped: false }, stack, pairs);
                assert(scan(src, ix, lex, stack, pairs) == scan(src, ix + 1, Lex::Str { quote: 34, escaped: false }, stack, pairs));} else if b == 39 && quote_closes(src, ix + 1) {
                    lemma_scan_pairs(src, ix + 1, Lex::Str { quote: 39, escaped: false }, stack, pairs);
                assert(scan(src, ix, lex, stack, pairs) == scan(src, ix + 1, Lex::Str { quote: 39, escaped: false }, stack, pairs));} else if b == 123 {
                    let st = stack.push(ix as usize);
                    assert forall|k: int| 0 <= k < st.len() implies st[k] < ix + 1 && st[k] < src.len() && src[st[k] as int] == 123 by {
                        if k < stack.len() {
                            assert(st[k] == stack[k]);
                        }
                    }
                    lemma_scan_pairs(src, ix + 1, Lex::Code, st, pairs);
                assert(scan(src, ix, lex, stack, pairs) == scan(src, ix + 1, Lex::Code, st, pairs));} else if b == 125 && stack.len() > 0 {
                    let st = stack.drop_last();
                    let ps = pairs.push((stack.last(), ix as usize));
                    assert(src[stack[stack.len() - 1] as int] == 123);
                    assert forall|k: int| 0 <= k < st.len() implies st[k] < ix + 1 && st[k] < src.len() && src[st[k] as int] == 123 by {
                        assert(st[k] == stack[k]);
                    }
                    assert forall|k: int| 0 <= k < ps.len() implies is_brace_pair(src, #[trigger] ps[k]) by {
                        if k < pairs.len() {
                            assert(ps[k] == pairs[k]);
                        }
                    }
                    lemma_scan_pairs(src, ix + 1, Lex::Code, st, ps);
                assert(scan(src, ix, lex, stack, pairs) == scan(src, ix + 1, Lex::Code, st, ps));} else {
                    lemma_scan_pairs(src, ix + 1, Lex::Code, stack, pairs);
                assert(scan(src, ix, lex, stack, pairs) == scan(src, ix + 1, Lex::Code, stack, pairs));}
            },
            Lex::Str { quote, escaped } => {
                if escaped {
                    lemma_scan_pairs(src, ix + 1, Lex::Str { quote, escaped: false }, stack, pairs);
                assert(scan(src, ix, lex, stack, pairs) == scan(src, ix + 1, Lex::Str { quote, escaped: false }, stack, pairs));} else if b == 92 {
                    lemma_scan_pairs(src, ix + 1, Lex::Str { quote, escaped: true }, stack, pairs);
                assert(scan(src, ix, lex, stack, pairs) == scan(src, ix + 1, Lex::Str { quote, escaped: true }, stack, pairs));} else if b == quote {
                    lemma_scan_pairs(src, ix + 1, Lex::Code, stack, pairs);
                assert(scan(src, ix, lex, stack, pairs) == scan(src, ix + 1, Lex::Code, stack, pairs));} else {
                    lemma_scan_pairs(src, ix + 1, lex, stack, pairs);
                assert(scan(src, ix, lex, stack, pairs) == scan(src, ix + 1, lex, stack, pairs));}
            },
            Lex::LineComment => {
                if b == 10 {
                    lemma_scan_pairs(src, ix + 1, Lex::Code, stack, pairs);
                assert(scan(src, ix, lex, stack, pairs) == scan(src, ix + 1, Lex::Code, stack, pairs));} else {
                    lemma_scan_pairs(src, ix + 1, lex, stack, pairs);
                assert(scan(src, ix, lex, stack, pairs) == scan(src, ix + 1, lex, stack, pairs));}
            },
            Lex::BlockComment => {
                if b == 42 && byte_at(src, ix + 1) == 47 {
                    lemma_scan_pairs(src, ix + 2, Lex::Code, stack, pairs);
                assert(scan(src, ix, lex, stack, pairs) == scan(src, ix + 2, Lex::Code, stack, pairs));} else {
                    lemma_scan_pairs(src, ix + 1, lex, stack, pairs);
                assert(scan(src, ix, lex, stack, pairs) == scan(src, ix + 1, lex, stack, pairs));}
            },
        }
    }
}

/// Every pair of the scan is a `{` with a later `}`.
pub proof fn lemma_brace_pairs_are_braces(src: Seq<u8>)
    requires
        src.len() <= usize::MAX,
    ensures
        forall|k: int|
            0 <= k < brace_pair_list(src).len() ==> is_brace_pair(src, #[trigger] brace_pair_list(src)[k]),
{
    lemma_scan_pairs(src, 0, Lex::Code, Seq::empty(), Seq::empty());
}

fn next_byte(src: &[u8], i: usize) -> (res: i32)
    ensures
        res == byte_at(src@, i as int),
{
    if i < src.len() {
        src[i] as i32
    } else {
        -1
    }
}

fn brace_pairs(src: &[u8]) -> (res: Vec<(usize, usize)>)
    ensures
        res@ == brace_pair_list(src@),
        forall|k: int| 0 <= k < res@.len() ==> is_brace_pair(src@, #[trigger] res@[k]),
{
    let n = src.len();
    proof {
        assert(n == src@.len());
        lemma_brace_pairs_are_braces(src@);
    }
    let mut lex = Lex::Code;
    let mut stack: Vec<usize> = Vec::new();
    let mut pairs: Vec<(usize, usize)> = Vec::new();
    let mut ix: usize = 0;
    while ix < src.len()
        invariant
            ix <= src@.len(),
            scan(src@, ix as int, lex, stack@, pairs@) == brace_pair_list(src@),
        decreases src.len() - ix,
    {
        let b = src[ix];
        match lex {
            Lex::Code => {
                let after = next_byte(src, ix + 1);
                if b == 47 && after == 47 {
                    lex = Lex::LineComment;
                    ix = ix + 1;
                } else if b == 47 && after == 42 {
                    lex = Lex::BlockComment;
                    ix = ix + 1;
                } else if b == 34 {
                    lex = Lex::Str { quote: 34, escaped: false };
                } else if b == 39 && closes_on_line(src, ix + 1) {
                    lex = Lex::Str { quote: 39, escaped: false };
                } else if b == 123 {
                    stack.push(ix);
                } else if b == 125 && stack.len() > 0 {
                    let ghost old_stack = stack@;
                    let open = stack.pop().unwrap();
                    assert(stack@ == old_stack.drop_last());
                    pairs.push((open, ix));
                }
            },
            Lex::Str { quote, escaped } => {
                if escaped {
                    lex = Lex::Str { quote, escaped: false };
                } else if b == 92 {
                    lex = Lex::Str { quote, escaped: true };
                } else if b == quote {
                    lex = Lex::Code;
                }
            },
            Lex::LineComment => {
                if b == 10 {
                    lex = Lex::Code;
                }
            },
            Lex::BlockComment => {
                let after = next_byte(src, ix + 1);
                if b == 42 && after == 47 {
                    lex = Lex::Code;
                    ix = ix + 1;
                }
            },
        }
        ix = ix + 1;
    }
    pairs
}

/// Whether a line break lies in `src[a..b]`.
pub open spec fn has_newline(src: Seq<u8>, a: int, b: int) -> bool {
    exists|k: int| a <= k < b && src[k] == 10
}

/// The insides `open + 1 .. close` of the given pairs that span more than one line.
pub open spec fn foldable_of(src: Seq<u8>, pairs: Seq<(usize, usize)>) -> Seq<(int, int)>
    decreases pairs.len(),
{
    if pairs.len() == 0 {
        Seq::empty()
    } else {
        let rest = foldable_of(src, pairs.drop_last());
        let pair = pairs.last();
        if has_newline(src, pair.0 + 1, pair.1 as int) {
            rest.push((pair.0 + 1, pair.1 as int))
        } else {
            rest
        }
    }
}

/// The ranges that can be folded: the insides of multi-line brace blocks.
pub open spec fn foldable(src: Seq<u8>) -> Seq<(int, int)> {
    foldable_of(src, brace_pair_list(src))
}

fn contains_newline(src: &[u8], a: usize, b: usize) -> (res: bool)
    requires
        b <= src@.len(),
    ensures
        res == has_newline(src@, a as int, b as int),
{
    let mut k = a;
    while k < b
        invariant
            a <= k,
            b <= src@.len(),
            forall|j: int| a <= j < k ==> src@[j] != 10,
        decreases b - k,
    {
        if src[k] == 10 {
            return true;
        }
        k = k + 1;
    }
    false
}

fn foldable_ranges(src: &[u8]) -> (res: Vec<(usize, usize)>)
    ensures
        res@.len() == foldable(src@).len(),
        forall|k: int|
            0 <= k < res@.len() ==> res@[k].0 as int == (#[trigger] foldable(src@)[k]).0 && res@[k].1 as int
                == foldable(src@)[k].1,
        forall|k: int| 0 <= k < res@.len() ==> 1 <= (#[trigger] res@[k]).0 <= res@[k].1 <= src@.len(),
{
    let pairs = brace_pairs(src);
    let mut res: Vec<(usize, usize)> = Vec::new();
    let mut i: usize = 0;
    while i < pairs.len()
        invariant
            i <= pairs@.len(),
            pairs@ == brace_pair_list(src@),
            forall|k: int| 0 <= k < pairs@.len() ==> is_brace_pair(src@, #[trigger] pairs@[k]),
            res@.len() == foldable_of(src@, pairs@.subrange(0, i as int)).len(),
            forall|k: int|
                0 <= k < res@.len() ==> res@[k].0 as int == (#[trigger] foldable_of(
                    src@,
                    pairs@.subrange(0, i as int),
                )[k]).0 && res@[k].1 as int == foldable_of(src@, pairs@.subrange(0, i as int))[k].1,
            forall|k: int| 0 <= k < res@.len() ==> 1 <= (#[trigger] res@[k]).0 <= res@[k].1 <= src@.len(),
        decreases pairs.len() - i,
    {
        let (open, close) = pairs[i];
        assert(is_brace_pair(src@, pairs@[i as int]));
        let ghost prefix = pairs@.subrange(0, i + 1);
        assert(prefix.drop_last() =~= pairs@.subrange(0, i as int));
        if contains_newline(src, open + 1, close) {
            res.push((open + 1, close));
        }
        i = i + 1;
    }
    assert(pairs@.subrange(0, i as int) =~= pairs@);
    res
}


// ---------------------------------------------------------------------------
// Choosing what to fold or unfold
// ---------------------------------------------------------------------------

/// Start of the line holding byte `o`: just after the last line break before it.
pub open spec fn line_begin(text: Seq<u8>, o: int) -> int
    decreases o,
{
    if o <= 0 {
        0
    } else if text[o - 1] == 10 {
        o
    } else {
        line_begin(text, o - 1)
    }
}

/// End of the line holding byte `o`: the next line break at or after it, or the end.
pub open spec fn line_finish(text: Seq<u8>, o: int) -> int
    decreases text.len() - o,
{
    if o < 0 || o >= text.len() {
        text.len() as int
    } else if text[o] == 10 {
        o
    } else {
        line_finish(text, o + 1)
    }
}

pub open spec fn min(a: int, b: int) -> int {
    if a <= b {
        a
    } else {
        b
    }
}

fn line_span(text: &[u8], offset: usize) -> (res: (usize, usize))
    ensures
        res.0 == line_begin(text@, min(offset as int, text@.len() as int)),
        res.1 == line_finish(text@, min(offset as int, text@.len() as int)),
        res.0 <= min(offset as int, text@.len() as int) <= res.1 <= text@.len(),
{
    let o = if offset < text.len() {
        offset
    } else {
        text.len()
    };
    let mut start = o;
    while start > 0 && text[start - 1] != 10
        invariant
            start <= o <= text@.len(),
            line_begin(text@, start as int) == line_begin(text@, o as int),
        decreases start,
    {
        start = start - 1;
    }
    let mut end = o;
    while end < text.len() && text[end] != 10
        invariant
            o <= end <= text@.len(),
            line_finish(text@, end as int) == line_finish(text@, o as int),
        decreases text.len() - end,
    {
        end = end + 1;
    }
    (start, end)
}

/// The first fold at or after `i` whose placeholder holds display offset `c`
/// (either end included).
pub open spec fn span_at(folds: Seq<Fold>, c: int, i: int) -> Option<int>
    decreases folds.len() - i,
{
    if i < 0 || i >= folds.len() {
        None
    } else if display_start(folds, i) <= c <= display_start(folds, i) + 3 {
        Some(i)
    } else {
        span_at(folds, c, i + 1)
    }
}

/// The first fold at or after `i` whose placeholder starts in `lo .. hi`.
pub open spec fn span_within(folds: Seq<Fold>, lo: int, hi: int, i: int) -> Option<int>
    decreases folds.len() - i,
{
    if i < 0 || i >= folds.len() {
        None
    } else if lo <= display_start(folds, i) < hi {
        Some(i)
    } else {
        span_within(folds, lo, hi, i + 1)
    }
}

/// Among the first `n` ranges, the earliest-starting one whose `{` (the byte
/// before the range) lies in `lo .. hi`; the first such on ties.
pub open spec fn pick_line(ranges: Seq<(int, int)>, lo: int, hi: int, n: int) -> Option<(int, int)>
    decreases n,
{
    if n <= 0 || n > ranges.len() {
        None
    } else {
        let best = pick_line(ranges, lo, hi, n - 1);
        let r = ranges[n - 1];
        if lo <= r.0 - 1 < hi && (best is None || r.0 < best.unwrap().0) {
            Some(r)
        } else {
            best
        }
    }
}

/// Among the first `n` ranges, the shortest one that holds `c` (either end
/// included); the first such on ties.
pub open spec fn pick_enclosing(ranges: Seq<(int, int)>, c: int, n: int) -> Option<(int, int)>
    decreases n,
{
    if n <= 0 || n > ranges.len() {
        None
    } else {
        let best = pick_enclosing(ranges, c, n - 1);
        let r = ranges[n - 1];
        if r.0 <= c <= r.1 && (best is None || r.1 - r.0 < best.unwrap().1 - best.unwrap().0) {
            Some(r)
        } else {
            best
        }
    }
}

/// Unfold the fold whose placeholder is under the cursor.
pub open spec fn unfold_choice(folds: Seq<Fold>, c: int) -> Option<Change> {
    match span_at(folds, c, 0) {
        Some(i) => Some(Change::Unfold(i as usize)),
        None => None,
    }
}

/// On the line of display offset `c`: unfold the first placeholder on that
/// line, or else fold the earliest multi-line block whose `{` is on it.
pub open spec fn line_choice(src: Seq<u8>, folds: Seq<Fold>, c: int) -> Option<Change> {
    let text = projection(src, folds);
    let o = min(c, text.len() as int);
    let lo = line_begin(text, o);
    let hi = line_finish(text, o);
    match span_within(folds, lo, hi, 0) {
        Some(i) => Some(Change::Unfold(i as usize)),
        None => {
            let ranges = foldable(src);
            match pick_line(
                ranges,
                to_source(folds, lo, false),
                to_source(folds, hi, false),
                ranges.len() as int,
            ) {
                Some(r) => Some(Change::Fold(r.0 as usize, r.1 as usize)),
                None => None,
            }
        },
    }
}

/// Fold the innermost multi-line block around the cursor.
pub open spec fn enclosing_choice(src: Seq<u8>, folds: Seq<Fold>, c: int) -> Option<Change> {
    let ranges = foldable(src);
    match pick_enclosing(ranges, to_source(folds, c, false), ranges.len() as int) {
        Some(r) => Some(Change::Fold(r.0 as usize, r.1 as usize)),
        None => None,
    }
}

/// What a fold toggle at display offset `c` does: unfold a placeholder under
/// the cursor, else act on the cursor's line, else fold the enclosing block.
pub open spec fn toggle_choice(src: Seq<u8>, folds: Seq<Fold>, c: int) -> Option<Change> {
    match unfold_choice(folds, c) {
        Some(change) => Some(change),
        None => match line_choice(src, folds, c) {
            Some(change) => Some(change),
            None => enclosing_choice(src, folds, c),
        },
    }
}

fn unfold_at(folds: &[Fold], display_cursor: usize) -> (res: Option<Change>)
    requires
        bounded(folds@),
    ensures
        res == unfold_choice(folds@, display_cursor as int),
{
    let starts = display_starts(folds);
    let mut i: usize = 0;
    while i < starts.len()
        invariant
            bounded(folds@),
            starts@.len() == folds@.len(),
            forall|k: int| 0 <= k < folds@.len() ==> starts@[k] == display_start(folds@, k),
            i <= starts@.len(),
            span_at(folds@, display_cursor as int, i as int) == span_at(folds@, display_cursor as int, 0),
        decreases starts.len() - i,
    {
        let start = starts[i];
        if start <= display_cursor && display_cursor as u128 <= start as u128 + 3 {
            return Some(Change::Unfold(i));
        }
        i = i + 1;
    }
    None
}

fn line_change(src: &[u8], folds: &[Fold], display_offset: usize) -> (res: Option<Change>)
    requires
        bounded(folds@),
        valid_utf8(src@),
    ensures
        res == line_choice(src@, folds@, display_offset as int),
{
    let text = project_bytes(src, folds);
    let (lo, hi) = line_span(&text, display_offset);
    let ghost text_spec = projection(src@, folds@);
    let ghost o = min(display_offset as int, text_spec.len() as int);
    assert(lo == line_begin(text_spec, o));
    assert(hi == line_finish(text_spec, o));
    let starts = display_starts(folds);
    let mut i: usize = 0;
    while i < starts.len()
        invariant
            bounded(folds@),
            starts@.len() == folds@.len(),
            forall|k: int| 0 <= k < folds@.len() ==> starts@[k] == display_start(folds@, k),
            i <= starts@.len(),
            span_within(folds@, lo as int, hi as int, i as int) == span_within(folds@, lo as int, hi as int, 0),
            text_spec == projection(src@, folds@),
            o == min(display_offset as int, text_spec.len() as int),
            lo == line_begin(text_spec, o),
            hi == line_finish(text_spec, o),
        decreases starts.len() - i,
    {
        if lo <= starts[i] && starts[i] < hi {
            assert(span_within(folds@, lo as int, hi as int, i as int) == Some(i as int));
            let res = Some(Change::Unfold(i));
            assert(res == line_choice(src@, folds@, display_offset as int));
            return res;
        }
        i = i + 1;
    }
    assert(span_within(folds@, lo as int, hi as int, i as int) == None::<int>);
    let a = display_to_source(folds, lo, false);
    let b = display_to_source(folds, hi, false);
    let ranges = foldable_ranges(src);
    let ghost spec_ranges = foldable(src@);
    let mut best: Option<(usize, usize)> = None;
    let mut k: usize = 0;
    while k < ranges.len()
        invariant
            k <= ranges@.len(),
            ranges@.len() == spec_ranges.len(),
            forall|j: int|
                0 <= j < ranges@.len() ==> ranges@[j].0 as int == (#[trigger] spec_ranges[j]).0 && ranges@[j].1 as int
                    == spec_ranges[j].1,
            forall|j: int| 0 <= j < ranges@.len() ==> 1 <= (#[trigger] ranges@[j]).0 <= ranges@[j].1,
            match pick_line(spec_ranges, a as int, b as int, k as int) {
                None => best is None,
                Some(r) => best matches Some(x) && x.0 as int == r.0 && x.1 as int == r.1,
            },
        decreases ranges.len() - k,
    {
        let (start, end) = ranges[k];
        assert(spec_ranges[k as int].0 == start as int);
        let better = match best {
            None => true,
            Some(x) => start < x.0,
        };
        if a <= start - 1 && start - 1 < b && better {
            best = Some((start, end));
        }
        k = k + 1;
    }
    proof {
        let text_spec = projection(src@, folds@);
        let o = min(display_offset as int, text_spec.len() as int);
        assert(lo == line_begin(text_spec, o));
        assert(hi == line_finish(text_spec, o));
        assert(a == to_source(folds@, lo as int, false));
        assert(b == to_source(folds@, hi as int, false));
        assert(k == spec_ranges.len());
    }
    match best {
        Some(r) => {
            let res = Some(Change::Fold(r.0, r.1));
            assert(res == line_choice(src@, folds@, display_offset as int));
            res
        },
        None => {
            assert(None::<Change> == line_choice(src@, folds@, display_offset as int));
            None
        },
    }
}

fn enclosing_fold(src: &[u8], folds: &[Fold], display_cursor: usize) -> (res: Option<Change>)
    requires
        bounded(folds@),
    ensures
        res == enclosing_choice(src@, folds@, display_cursor as int),
{
    let cursor = display_to_source(folds, display_cursor, false);
    let ranges = foldable_ranges(src);
    let ghost spec_ranges = foldable(src@);
    let mut best: Option<(usize, usize)> = None;
    let mut k: usize = 0;
    while k < ranges.len()
        invariant
            k <= ranges@.len(),
            ranges@.len() == spec_ranges.len(),
            forall|j: int|
                0 <= j < ranges@.len() ==> ranges@[j].0 as int == (#[trigger] spec_ranges[j]).0 && ranges@[j].1 as int
                    == spec_ranges[j].1,
            forall|j: int| 0 <= j < ranges@.len() ==> (#[trigger] ranges@[j]).0 <= ranges@[j].1,
            match pick_enclosing(spec_ranges, cursor as int, k as int) {
                None => best is None,
                Some(r) => best matches Some(x) && x.0 as int == r.0 && x.1 as int == r.1 && x.0 <= x.1,
            },
        decreases ranges.len() - k,
    {
        let (start, end) = ranges[k];
        assert(spec_ranges[k as int].0 == start as int);
        let better = match best {
            None => true,
            Some(x) => end - start < x.1 - x.0,
        };
        if start <= cursor && cursor <= end && better {
            best = Some((start, end));
        }
        k = k + 1;
    }
    match best {
        Some(r) => Some(Change::Fold(r.0, r.1)),
        None => None,
    }
}


// ---------------------------------------------------------------------------
// The edit between two displayed texts
// ---------------------------------------------------------------------------

/// Length of the common byte prefix of `a` and `b`, counting from `k`.
pub open spec fn same_prefix(a: Seq<u8>, b: Seq<u8>, k: int) -> int
    decreases a.len() - k,
{
    if 0 <= k < a.len() && k < b.len() && a[k] == b[k] {
        same_prefix(a, b, k + 1)
    } else {
        k
    }
}

/// The largest offset up to `k` that is a character boundary of both texts.
pub open spec fn boundary_floor(a: Seq<u8>, b: Seq<u8>, k: int) -> int
    decreases k,
{
    if k <= 0 {
        0
    } else if boundary(a, k) && boundary(b, k) {
        k
    } else {
        boundary_floor(a, b, k - 1)
    }
}

/// Bytes of the common prefix of `a` and `b` that ends on a character
/// boundary: the byte length of their common character prefix.
pub open spec fn diff_prefix(a: Seq<u8>, b: Seq<u8>) -> int {
    boundary_floor(a, b, same_prefix(a, b, 0))
}

/// Length of the common byte suffix of `a[p..]` and `b[p..]`, counting from `k`.
pub open spec fn same_suffix(a: Seq<u8>, b: Seq<u8>, p: int, k: int) -> int
    decreases a.len() - p - k,
{
    if 0 <= k && k < a.len() - p && k < b.len() - p && a[a.len() - 1 - k] == b[b.len() - 1 - k] {
        same_suffix(a, b, p, k + 1)
    } else {
        k
    }
}

/// The largest suffix length up to `k` that starts on a character boundary of both texts.
pub open spec fn suffix_floor(a: Seq<u8>, b: Seq<u8>, k: int) -> int
    decreases k,
{
    if k <= 0 {
        0
    } else if boundary(a, a.len() - k) && boundary(b, b.len() - k) {
        k
    } else {
        suffix_floor(a, b, k - 1)
    }
}

/// Bytes of the common character suffix of `a` and `b` after their common prefix.
pub open spec fn diff_suffix(a: Seq<u8>, b: Seq<u8>) -> int {
    suffix_floor(a, b, same_suffix(a, b, diff_prefix(a, b), 0))
}

proof fn lemma_same_prefix(a: Seq<u8>, b: Seq<u8>, k: int)
    requires
        0 <= k <= a.len(),
        k <= b.len(),
        forall|j: int| 0 <= j < k ==> a[j] == b[j],
    ensures
        k <= same_prefix(a, b, k) <= a.len(),
        same_prefix(a, b, k) <= b.len(),
        forall|j: int| 0 <= j < same_prefix(a, b, k) ==> a[j] == b[j],
    decreases a.len() - k,
{
    if k < a.len() && k < b.len() && a[k] == b[k] {
        lemma_same_prefix(a, b, k + 1);
    }
}

proof fn lemma_boundary_floor(a: Seq<u8>, b: Seq<u8>, k: int)
    requires
        valid_utf8(a),
        valid_utf8(b),
    ensures
        0 <= boundary_floor(a, b, k),
        k >= 0 ==> boundary_floor(a, b, k) <= k,
        boundary(a, boundary_floor(a, b, k)),
        boundary(b, boundary_floor(a, b, k)),
    decreases k,
{
    is_char_boundary_start_end_of_seq(a);
    is_char_boundary_start_end_of_seq(b);
    if k > 0 && !(boundary(a, k) && boundary(b, k)) {
        lemma_boundary_floor(a, b, k - 1);
    }
}

proof fn lemma_same_suffix(a: Seq<u8>, b: Seq<u8>, p: int, k: int)
    requires
        0 <= p <= a.len(),
        p <= b.len(),
        0 <= k,
        k <= a.len() - p,
        k <= b.len() - p,
        forall|j: int| 0 <= j < k ==> #[trigger] a[a.len() - 1 - j] == b[b.len() - 1 - j],
    ensures
        k <= same_suffix(a, b, p, k) <= a.len() - p,
        same_suffix(a, b, p, k) <= b.len() - p,
        forall|j: int| 0 <= j < same_suffix(a, b, p, k) ==> #[trigger] a[a.len() - 1 - j] == b[b.len() - 1 - j],
    decreases a.len() - p - k,
{
    if k < a.len() - p && k < b.len() - p && a[a.len() - 1 - k] == b[b.len() - 1 - k] {
        lemma_same_suffix(a, b, p, k + 1);
    }
}

proof fn lemma_suffix_floor(a: Seq<u8>, b: Seq<u8>, k: int)
    requires
        valid_utf8(a),
        valid_utf8(b),
    ensures
        0 <= suffix_floor(a, b, k),
        k >= 0 ==> suffix_floor(a, b, k) <= k,
        boundary(a, a.len() - suffix_floor(a, b, k)),
        boundary(b, b.len() - suffix_floor(a, b, k)),
    decreases k,
{
    is_char_boundary_start_end_of_seq(a);
    is_char_boundary_start_end_of_seq(b);
    if k > 0 && !(boundary(a, a.len() - k) && boundary(b, b.len() - k)) {
        lemma_suffix_floor(a, b, k - 1);
    }
}

/// The prefix and suffix that [`diff_prefix`] and [`diff_suffix`] describe
/// are shared by both texts, do not overlap, and end on character boundaries.
pub proof fn lemma_diff_parts(a: Seq<u8>, b: Seq<u8>)
    requires
        valid_utf8(a),
        valid_utf8(b),
    ensures
        ({
            let p = diff_prefix(a, b);
            let s = diff_suffix(a, b);
            &&& 0 <= p
            &&& 0 <= s
            &&& p + s <= a.len()
            &&& p + s <= b.len()
            &&& a.subrange(0, p) == b.subrange(0, p)
            &&& a.subrange(a.len() - s, a.len() as int) == b.subrange(b.len() - s, b.len() as int)
            &&& boundary(a, p)
            &&& boundary(b, p)
            &&& boundary(a, a.len() - s)
            &&& boundary(b, b.len() - s)
        }),
{
    lemma_same_prefix(a, b, 0);
    let k = same_prefix(a, b, 0);
    lemma_boundary_floor(a, b, k);
    let p = diff_prefix(a, b);
    lemma_same_suffix(a, b, p, 0);
    let t = same_suffix(a, b, p, 0);
    lemma_suffix_floor(a, b, t);
    let s = diff_suffix(a, b);
    assert(a.subrange(0, p) =~= b.subrange(0, p));
    assert forall|j: int| 0 <= j < s implies #[trigger] a.subrange(a.len() - s, a.len() as int)[j] == b.subrange(
        b.len() - s,
        b.len() as int,
    )[j] by {
        let m = s - 1 - j;
        assert(a[a.len() - 1 - m] == b[b.len() - 1 - m]);
    }
    assert(a.subrange(a.len() - s, a.len() as int) =~= b.subrange(b.len() - s, b.len() as int));
}

/// Replacing `a[start..end]` with `text`.
pub open spec fn splice(a: Seq<u8>, start: int, end: int, text: Seq<u8>) -> Seq<u8> {
    a.subrange(0, start) + text + a.subrange(end, a.len() as int)
}

/// The edit from `a` to `b`: `a[p .. a.len() - s]` becomes `b[p .. b.len() - s]`.
pub open spec fn diff_edit(a: Seq<u8>, b: Seq<u8>) -> (int, int, Seq<u8>) {
    let p = diff_prefix(a, b);
    let s = diff_suffix(a, b);
    (p, a.len() - s, b.subrange(p, b.len() - s))
}

/// Replacing the range of the edit from `a` to `b` with its text turns `a` into `b`.
pub proof fn lemma_diff_edit_applies(a: Seq<u8>, b: Seq<u8>)
    requires
        valid_utf8(a),
        valid_utf8(b),
    ensures
        splice(a, diff_edit(a, b).0, diff_edit(a, b).1, diff_edit(a, b).2) == b,
{
    lemma_diff_parts(a, b);
    let p = diff_prefix(a, b);
    let s = diff_suffix(a, b);
    assert(splice(a, p, a.len() - s, b.subrange(p, b.len() - s)) =~= b) by {
        assert(b =~= b.subrange(0, p) + b.subrange(p, b.len() - s) + b.subrange(b.len() - s, b.len() as int));
    }
}

/// The common character prefix and suffix, in bytes.
fn difference(old: &[u8], new: &[u8]) -> (res: (usize, usize))
    requires
        valid_utf8(old@),
        valid_utf8(new@),
    ensures
        res.0 == diff_prefix(old@, new@),
        res.1 == diff_suffix(old@, new@),
        res.0 + res.1 <= old@.len(),
        res.0 + res.1 <= new@.len(),
{
    proof {
        lemma_diff_parts(old@, new@);
        lemma_same_prefix(old@, new@, 0);
    }
    let mut k: usize = 0;
    while k < old.len() && k < new.len() && old[k] == new[k]
        invariant
            k <= old@.len(),
            k <= new@.len(),
            same_prefix(old@, new@, k as int) == same_prefix(old@, new@, 0),
        decreases old.len() - k,
    {
        k = k + 1;
    }
    let mut p = k;
    while p > 0 && !(is_boundary(old, p) && is_boundary(new, p))
        invariant
            p <= k,
            valid_utf8(old@),
            valid_utf8(new@),
            boundary_floor(old@, new@, p as int) == boundary_floor(old@, new@, k as int),
        decreases p,
    {
        p = p - 1;
    }
    proof {
        lemma_same_suffix(old@, new@, p as int, 0);
    }
    let mut t: usize = 0;
    while t < old.len() - p && t < new.len() - p && old[old.len() - 1 - t] == new[new.len() - 1 - t]
        invariant
            p <= old@.len(),
            p <= new@.len(),
            t <= old@.len() - p,
            t <= new@.len() - p,
            same_suffix(old@, new@, p as int, t as int) == same_suffix(old@, new@, p as int, 0),
        decreases old.len() - t,
    {
        t = t + 1;
    }
    let mut s = t;
    while s > 0 && !(is_boundary(old, old.len() - s) && is_boundary(new, new.len() - s))
        invariant
            s <= t,
            t <= old@.len() - p,
            t <= new@.len() - p,
            valid_utf8(old@),
            valid_utf8(new@),
            suffix_floor(old@, new@, s as int) == suffix_floor(old@, new@, t as int),
        decreases s,
    {
        s = s - 1;
    }
    (p, s)
}

/// The bytes `src[a..b]` as a `String`.
// ---------------------------------------------------------------------------
// Changing the folds
// ---------------------------------------------------------------------------

/// A fold of `start .. end`.
pub open spec fn fold_of(start: usize, end: usize) -> Fold {
    Fold { range: Range { start, end } }
}

/// The folds that do not overlap `a .. b`, in order.
pub open spec fn clear_of(folds: Seq<Fold>, a: int, b: int) -> Seq<Fold>
    decreases folds.len(),
{
    if folds.len() == 0 {
        Seq::empty()
    } else {
        let rest = clear_of(folds.drop_last(), a, b);
        let f = folds.last();
        if f.range.end <= a || f.range.start >= b {
            rest.push(f)
        } else {
            rest
        }
    }
}

/// `f` inserted after every fold of `s` that starts no later than it,
/// counting from the end.
pub open spec fn insert_sorted(s: Seq<Fold>, f: Fold) -> Seq<Fold>
    decreases s.len(),
{
    if s.len() == 0 || s.last().range.start <= f.range.start {
        s.push(f)
    } else {
        insert_sorted(s.drop_last(), f).push(s.last())
    }
}

/// The folds in order of their start, equal starts keeping their order.
pub open spec fn sort_by_start(s: Seq<Fold>) -> Seq<Fold>
    decreases s.len(),
{
    if s.len() == 0 {
        Seq::empty()
    } else {
        insert_sorted(sort_by_start(s.drop_last()), s.last())
    }
}

/// The folds after folding `a .. b`: folds overlapping it are dropped and
/// the new fold takes its place in order of start.
pub open spec fn with_fold(folds: Seq<Fold>, a: usize, b: usize) -> Seq<Fold> {
    sort_by_start(clear_of(folds, a as int, b as int).push(fold_of(a, b)))
}

/// The folds after a change.
pub open spec fn after_change(folds: Seq<Fold>, change: Change) -> Seq<Fold> {
    match change {
        Change::Fold(a, b) => with_fold(folds, a, b),
        Change::Unfold(i) => if i < folds.len() {
            folds.remove(i as int)
        } else {
            folds
        },
    }
}

proof fn lemma_insert_at(s: Seq<Fold>, f: Fold, pos: int)
    requires
        0 <= pos <= s.len(),
        forall|j: int| pos <= j < s.len() ==> (#[trigger] s[j]).range.start > f.range.start,
        pos == 0 || s[pos - 1].range.start <= f.range.start,
    ensures
        insert_sorted(s, f) == s.insert(pos, f),
    decreases s.len(),
{
    if s.len() == 0 {
        assert(s.insert(pos, f) =~= s.push(f));
    } else if s.last().range.start <= f.range.start {
        assert(pos == s.len());
        assert(s.insert(pos, f) =~= s.push(f));
    } else {
        let t = s.drop_last();
        assert(pos < s.len());
        lemma_insert_at(t, f, pos);
        assert(s.insert(pos, f) =~= t.insert(pos, f).push(s.last()));
    }
}

proof fn lemma_clear_len(folds: Seq<Fold>, a: int, b: int)
    ensures
        clear_of(folds, a, b).len() <= folds.len(),
    decreases folds.len(),
{
    if folds.len() > 0 {
        lemma_clear_len(folds.drop_last(), a, b);
    }
}

proof fn lemma_insert_sorted_len(s: Seq<Fold>, f: Fold)
    ensures
        insert_sorted(s, f).len() == s.len() + 1,
    decreases s.len(),
{
    if s.len() > 0 && s.last().range.start > f.range.start {
        lemma_insert_sorted_len(s.drop_last(), f);
    }
}

proof fn lemma_sort_len(s: Seq<Fold>)
    ensures
        sort_by_start(s).len() == s.len(),
    decreases s.len(),
{
    if s.len() > 0 {
        lemma_sort_len(s.drop_last());
        lemma_insert_sorted_len(sort_by_start(s.drop_last()), s.last());
    }
}

/// Folding never adds more than one fold.
pub proof fn lemma_with_fold_len(folds: Seq<Fold>, a: usize, b: usize)
    ensures
        with_fold(folds, a, b).len() <= folds.len() + 1,
{
    lemma_clear_len(folds, a as int, b as int);
    lemma_sort_len(clear_of(folds, a as int, b as int).push(fold_of(a, b)));
}

fn insert_fold(folds: &mut Vec<Fold>, a: usize, b: usize)
    ensures
        final(folds)@ == with_fold(old(folds)@, a, b),
{
    let mut kept: Vec<Fold> = Vec::new();
    let mut i: usize = 0;
    while i < folds.len()
        invariant
            i <= folds@.len(),
            kept@ == clear_of(folds@.subrange(0, i as int), a as int, b as int),
        decreases folds.len() - i,
    {
        let ghost prefix = folds@.subrange(0, i + 1);
        assert(prefix.drop_last() =~= folds@.subrange(0, i as int));
        if folds[i].range.end <= a || folds[i].range.start >= b {
            kept.push(folds[i].clone());
        }
        i = i + 1;
    }
    assert(folds@.subrange(0, i as int) =~= folds@);
    kept.push(Fold { range: a..b });
    assert(kept@.last() == fold_of(a, b));
    let ghost all = kept@;
    let mut sorted: Vec<Fold> = Vec::new();
    let mut j: usize = 0;
    while j < kept.len()
        invariant
            kept@ == all,
            j <= kept@.len(),
            sorted@ == sort_by_start(all.subrange(0, j as int)),
        decreases kept.len() - j,
    {
        let f = kept[j].clone();
        let ghost prefix = all.subrange(0, j + 1);
        assert(prefix.drop_last() =~= all.subrange(0, j as int));
        let mut pos = sorted.len();
        while pos > 0 && sorted[pos - 1].range.start > f.range.start
            invariant
                pos <= sorted@.len(),
                forall|k: int| pos <= k < sorted@.len() ==> (#[trigger] sorted@[k]).range.start > f.range.start,
            decreases pos,
        {
            pos = pos - 1;
        }
        proof {
            lemma_insert_at(sorted@, f, pos as int);
        }
        sorted.insert(pos, f);
        j = j + 1;
    }
    assert(all.subrange(0, j as int) =~= all);
    *folds = sorted;
}

// ---------------------------------------------------------------------------
// Folds stay in order
// ---------------------------------------------------------------------------

/// Whether the folds are in order and apart: each ends no later than the
/// next one starts, and none ends before it starts.
pub open spec fn in_order(folds: Seq<Fold>) -> bool {
    &&& forall|i: int| 0 <= i < folds.len() ==> (#[trigger] folds[i]).range.start <= folds[i].range.end
    &&& forall|i: int, j: int| 0 <= i < j < folds.len() ==> (#[trigger] folds[i]).range.end <= (#[trigger] folds[j]).range.start
}

/// Whether every fold of `folds` lies outside `a .. b`.
pub open spec fn clear_of_range(folds: Seq<Fold>, a: int, b: int) -> bool {
    forall|k: int| 0 <= k < folds.len() ==> (#[trigger] folds[k]).range.end <= a || folds[k].range.start >= b
}

proof fn lemma_clear_of_keeps_order(folds: Seq<Fold>, a: int, b: int)
    requires
        in_order(folds),
    ensures
        in_order(clear_of(folds, a, b)),
        clear_of_range(clear_of(folds, a, b), a, b),
        forall|k: int| 0 <= k < clear_of(folds, a, b).len() ==> exists|m: int| 0 <= m < folds.len() && #[trigger] clear_of(folds, a, b)[k] == folds[m],
    decreases folds.len(),
{
    if folds.len() > 0 {
        let rest = folds.drop_last();
        assert(in_order(rest)) by {
            assert forall|i: int, j: int| 0 <= i < j < rest.len() implies (#[trigger] rest[i]).range.end <= (#[trigger] rest[j]).range.start by {
                assert(rest[i] == folds[i] && rest[j] == folds[j]);
            }
        }
        lemma_clear_of_keeps_order(rest, a, b);
        let c = clear_of(rest, a, b);
        let f = folds.last();
        if f.range.end <= a || f.range.start >= b {
            let d = c.push(f);
            assert forall|k: int| 0 <= k < d.len() implies exists|m: int| 0 <= m < folds.len() && #[trigger] d[k] == folds[m] by {
                if k == c.len() {
                    assert(d[k] == folds[folds.len() - 1]);
                } else {
                    let m = choose|m: int| 0 <= m < rest.len() && c[k] == rest[m];
                    assert(d[k] == folds[m]);
                }
            }
            assert forall|i: int, j: int| 0 <= i < j < d.len() implies (#[trigger] d[i]).range.end <= (#[trigger] d[j]).range.start by {
                if j == c.len() {
                    let m = choose|m: int| 0 <= m < rest.len() && c[i] == rest[m];
                    assert(d[i] == folds[m]);
                    assert(folds[m].range.end <= folds[folds.len() - 1].range.start);
                } else {
                    assert(d[i] == c[i] && d[j] == c[j]);
                }
            }
            assert forall|i: int| 0 <= i < d.len() implies (#[trigger] d[i]).range.start <= d[i].range.end by {
                if i < c.len() {
                    assert(d[i] == c[i]);
                } else {
                    assert(d[i] == folds[folds.len() - 1]);
                }
            }
            assert forall|k: int| 0 <= k < d.len() implies (#[trigger] d[k]).range.end <= a || d[k].range.start >= b by {
                if k < c.len() {
                    assert(d[k] == c[k]);
                }
            }
        } else {
            assert forall|k: int| 0 <= k < c.len() implies exists|m: int| 0 <= m < folds.len() && #[trigger] c[k] == folds[m] by {
                let m = choose|m: int| 0 <= m < rest.len() && c[k] == rest[m];
                assert(c[k] == folds[m]);
            }
        }
    }
}

proof fn lemma_sort_in_order(s: Seq<Fold>)
    requires
        in_order(s),
    ensures
        sort_by_start(s) == s,
    decreases s.len(),
{
    if s.len() > 0 {
        let rest = s.drop_last();
        assert(in_order(rest)) by {
            assert forall|i: int, j: int| 0 <= i < j < rest.len() implies (#[trigger] rest[i]).range.end <= (#[trigger] rest[j]).range.start by {
                assert(rest[i] == s[i] && rest[j] == s[j]);
            }
        }
        lemma_sort_in_order(rest);
        if rest.len() > 0 {
            assert(s[rest.len() - 1].range.start <= s[rest.len() - 1].range.end);
            assert(s[rest.len() - 1].range.end <= s[s.len() - 1].range.start);
        }
        assert(rest.push(s.last()) =~= s);
    }
}

proof fn lemma_insert_in_order(s: Seq<Fold>, a: usize, b: usize)
    requires
        in_order(s),
        clear_of_range(s, a as int, b as int),
        a < b,
    ensures
        in_order(insert_sorted(s, fold_of(a, b))),
        forall|k: int| 0 <= k < insert_sorted(s, fold_of(a, b)).len() ==> (#[trigger] insert_sorted(s, fold_of(a, b))[k] == fold_of(a, b)
            || exists|m: int| 0 <= m < s.len() && insert_sorted(s, fold_of(a, b))[k] == s[m]),
    decreases s.len(),
{
    let f = fold_of(a, b);
    if s.len() == 0 || s.last().range.start <= f.range.start {
        let d = s.push(f);
        assert forall|i: int, j: int| 0 <= i < j < d.len() implies (#[trigger] d[i]).range.end <= (#[trigger] d[j]).range.start by {
            if j == s.len() {
                assert(d[i] == s[i]);
                assert(s[i].range.start <= s[i].range.end);
                if i < s.len() - 1 {
                    assert(s[i].range.end <= s[s.len() - 1].range.start);
                }
            } else {
                assert(d[i] == s[i] && d[j] == s[j]);
            }
        }
        assert forall|i: int| 0 <= i < d.len() implies (#[trigger] d[i]).range.start <= d[i].range.end by {
            if i < s.len() {
                assert(d[i] == s[i]);
            }
        }
        assert forall|k: int| 0 <= k < d.len() implies (#[trigger] d[k] == f || exists|m: int| 0 <= m < s.len() && d[k] == s[m]) by {
            if k < s.len() {
                assert(d[k] == s[k]);
            }
        }
    } else {
        let rest = s.drop_last();
        let last = s.last();
        assert(in_order(rest)) by {
            assert forall|i: int, j: int| 0 <= i < j < rest.len() implies (#[trigger] rest[i]).range.end <= (#[trigger] rest[j]).range.start by {
                assert(rest[i] == s[i] && rest[j] == s[j]);
            }
        }
        assert(clear_of_range(rest, a as int, b as int)) by {
            assert forall|k: int| 0 <= k < rest.len() implies (#[trigger] rest[k]).range.end <= a || rest[k].range.start >= b by {
                assert(rest[k] == s[k]);
            }
        }
        assert(s[s.len() - 1].range.start <= s[s.len() - 1].range.end);
        lemma_insert_in_order(rest, a, b);
        let mid = insert_sorted(rest, f);
        let d = mid.push(last);
        assert forall|i: int, j: int| 0 <= i < j < d.len() implies (#[trigger] d[i]).range.end <= (#[trigger] d[j]).range.start by {
            if j == mid.len() {
                assert(d[i] == mid[i]);
                if mid[i] != f {
                    let m = choose|m: int| 0 <= m < rest.len() && mid[i] == rest[m];
                    assert(rest[m] == s[m]);
                }
            } else {
                assert(d[i] == mid[i] && d[j] == mid[j]);
            }
        }
        assert forall|i: int| 0 <= i < d.len() implies (#[trigger] d[i]).range.start <= d[i].range.end by {
            if i < mid.len() {
                assert(d[i] == mid[i]);
            }
        }
        assert forall|k: int| 0 <= k < d.len() implies (#[trigger] d[k] == f || exists|m: int| 0 <= m < s.len() && d[k] == s[m]) by {
            if k < mid.len() {
                assert(d[k] == mid[k]);
                if mid[k] != f {
                    let m = choose|m: int| 0 <= m < rest.len() && mid[k] == rest[m];
                    assert(rest[m] == s[m]);
                }
            } else {
                assert(d[k] == s[s.len() - 1]);
            }
        }
    }
}

/// Folding a non-empty range, or unfolding a fold, keeps the folds in
/// order and apart.
pub proof fn lemma_change_keeps_order(folds: Seq<Fold>, change: Change)
    requires
        in_order(folds),
        change matches Change::Fold(a, b) ==> a < b,
    ensures
        in_order(after_change(folds, change)),
{
    match change {
        Change::Fold(a, b) => {
            lemma_clear_of_keeps_order(folds, a as int, b as int);
            let c = clear_of(folds, a as int, b as int);
            lemma_sort_in_order(c);
            lemma_insert_in_order(c, a, b);
            assert(c.push(fold_of(a, b)).drop_last() =~= c);
            assert(sort_by_start(c.push(fold_of(a, b))) == insert_sorted(sort_by_start(c), fold_of(a, b)));
        },
        Change::Unfold(i) => {
            if i < folds.len() {
                let d = folds.remove(i as int);
                assert forall|x: int, y: int| 0 <= x < y < d.len() implies (#[trigger] d[x]).range.end <= (#[trigger] d[y]).range.start by {
                    let x0 = if x < i { x } else { x + 1 };
                    let y0 = if y < i { y } else { y + 1 };
                    assert(d[x] == folds[x0] && d[y] == folds[y0]);
                }
                assert forall|x: int| 0 <= x < d.len() implies (#[trigger] d[x]).range.start <= d[x].range.end by {
                    let x0 = if x < i { x } else { x + 1 };
                    assert(d[x] == folds[x0]);
                }
            }
        },
    }
}

proof fn lemma_foldable_apart(src: Seq<u8>, pairs: Seq<(usize, usize)>)
    requires
        forall|k: int| 0 <= k < pairs.len() ==> is_brace_pair(src, #[trigger] pairs[k]),
    ensures
        forall|k: int| 0 <= k < foldable_of(src, pairs).len() ==> 0 <= (#[trigger] foldable_of(src, pairs)[k]).0
            < foldable_of(src, pairs)[k].1 <= usize::MAX,
    decreases pairs.len(),
{
    if pairs.len() > 0 {
        let rest = pairs.drop_last();
        assert forall|k: int| 0 <= k < rest.len() implies is_brace_pair(src, #[trigger] rest[k]) by {
            assert(rest[k] == pairs[k]);
        }
        lemma_foldable_apart(src, rest);
        let pair = pairs.last();
        assert(is_brace_pair(src, pairs[pairs.len() - 1]));
        if has_newline(src, pair.0 + 1, pair.1 as int) {
            let r = foldable_of(src, rest);
            let d = r.push((pair.0 + 1, pair.1 as int));
            let k0 = choose|k: int| pair.0 + 1 <= k < pair.1 && src[k] == 10;
            assert(foldable_of(src, pairs) == d);
            assert forall|k: int| 0 <= k < d.len() implies 0 <= (#[trigger] d[k]).0 < d[k].1 <= usize::MAX by {
                if k < r.len() {
                    assert(d[k] == r[k]);
                }
            }
        } else {
            assert(foldable_of(src, pairs) == foldable_of(src, rest));
        }
    }
}

proof fn lemma_pick_line_member(ranges: Seq<(int, int)>, lo: int, hi: int, n: int)
    ensures
        pick_line(ranges, lo, hi, n) matches Some(r) ==> exists|k: int| 0 <= k < ranges.len() && #[trigger] ranges[k] == r,
    decreases n,
{
    if 0 < n <= ranges.len() {
        lemma_pick_line_member(ranges, lo, hi, n - 1);
        let r = ranges[n - 1];
    }
}

proof fn lemma_pick_enclosing_member(ranges: Seq<(int, int)>, c: int, n: int)
    ensures
        pick_enclosing(ranges, c, n) matches Some(r) ==> exists|k: int| 0 <= k < ranges.len() && #[trigger] ranges[k] == r,
    decreases n,
{
    if 0 < n <= ranges.len() {
        lemma_pick_enclosing_member(ranges, c, n - 1);
        let r = ranges[n - 1];
    }
}

proof fn lemma_foldable_braced(src: Seq<u8>, pairs: Seq<(usize, usize)>)
    requires
        forall|k: int| 0 <= k < pairs.len() ==> is_brace_pair(src, #[trigger] pairs[k]),
    ensures
        forall|k: int|
            0 <= k < foldable_of(src, pairs).len() ==> 1 <= (#[trigger] foldable_of(src, pairs)[k]).0
                && foldable_of(src, pairs)[k].1 < src.len() && src[foldable_of(src, pairs)[k].0 - 1] == 123
                && src[foldable_of(src, pairs)[k].1] == 125,
    decreases pairs.len(),
{
    if pairs.len() > 0 {
        let rest = pairs.drop_last();
        assert forall|k: int| 0 <= k < rest.len() implies is_brace_pair(src, #[trigger] rest[k]) by {
            assert(rest[k] == pairs[k]);
        }
        lemma_foldable_braced(src, rest);
        let pair = pairs.last();
        assert(is_brace_pair(src, pairs[pairs.len() - 1]));
        let r = foldable_of(src, rest);
        if has_newline(src, pair.0 + 1, pair.1 as int) {
            let d = r.push((pair.0 + 1, pair.1 as int));
            assert(foldable_of(src, pairs) == d);
            assert forall|k: int| 0 <= k < d.len() implies 1 <= (#[trigger] d[k]).0 && d[k].1 < src.len()
                && src[d[k].0 - 1] == 123 && src[d[k].1] == 125 by {
                if k < r.len() {
                    assert(d[k] == r[k]);
                }
            }
        } else {
            assert(foldable_of(src, pairs) == r);
        }
    }
}

/// A fold toggle keeps every fold shown: when the folds before it are
/// placed (see [`placed`]), so are the folds after it.
pub proof fn lemma_toggle_keeps_placed(src: Seq<u8>, folds: Seq<Fold>, c: int)
    requires
        valid_utf8(src),
        src.len() <= usize::MAX,
        placed(src, folds),
    ensures
        toggle_choice(src, folds, c) matches Some(change) ==> placed(src, after_change(folds, change)),
{
    lemma_choices_apart(src, folds, c);
    lemma_brace_pairs_are_braces(src);
    lemma_foldable_apart(src, brace_pair_list(src));
    lemma_foldable_braced(src, brace_pair_list(src));
    let ranges = foldable(src);
    let text = projection(src, folds);
    let o = min(c, text.len() as int);
    let lo = line_begin(text, o);
    let hi = line_finish(text, o);
    lemma_pick_line_member(ranges, to_source(folds, lo, false), to_source(folds, hi, false), ranges.len() as int);
    lemma_pick_enclosing_member(ranges, to_source(folds, c, false), ranges.len() as int);
    match toggle_choice(src, folds, c) {
        Some(Change::Unfold(i)) => {
            lemma_change_keeps_order(folds, Change::Unfold(i));
            if i < folds.len() {
                let d = folds.remove(i as int);
                assert forall|x: int| 0 <= x < d.len() implies (#[trigger] d[x]).range.end <= src.len()
                    && boundary(src, d[x].range.start as int) && boundary(src, d[x].range.end as int) by {
                    let x0 = if x < i { x } else { x + 1 };
                    assert(d[x] == folds[x0]);
                }
            }
        },
        Some(Change::Fold(a, b)) => {
            assert(exists|k: int| 0 <= k < ranges.len() && ranges[k] == (a as int, b as int));
            let k = choose|k: int| 0 <= k < ranges.len() && ranges[k] == (a as int, b as int);
            assert(ranges[k].0 == a && ranges[k].1 == b);
            lemma_after_ascii(src, a as int);
            lemma_ascii_is_boundary(src, b as int);
            lemma_change_keeps_order(folds, Change::Fold(a, b));
            let f = fold_of(a, b);
            lemma_clear_of_keeps_order(folds, a as int, b as int);
            let cl = clear_of(folds, a as int, b as int);
            lemma_sort_in_order(cl);
            lemma_insert_in_order(cl, a, b);
            assert(cl.push(f).drop_last() =~= cl);
            let d = with_fold(folds, a, b);
            assert(d == insert_sorted(cl, f));
            assert forall|x: int| 0 <= x < d.len() implies (#[trigger] d[x]).range.end <= src.len()
                && boundary(src, d[x].range.start as int) && boundary(src, d[x].range.end as int) by {
                if d[x] != f {
                    let m = choose|m: int| 0 <= m < cl.len() && d[x] == cl[m];
                    let m0 = choose|m0: int| 0 <= m0 < folds.len() && #[trigger] cl[m] == folds[m0];
                    assert(folds[m0].range.end <= src.len());
                }
            }
        },
        None => {},
    }
}

/// The blocks that toggling folds are never empty.
proof fn lemma_choices_apart(src: Seq<u8>, folds: Seq<Fold>, c: int)
    requires
        src.len() <= usize::MAX,
    ensures
        line_choice(src, folds, c) matches Some(Change::Fold(a, b)) ==> a < b,
        toggle_choice(src, folds, c) matches Some(Change::Fold(a, b)) ==> a < b,
{
    lemma_brace_pairs_are_braces(src);
    lemma_foldable_apart(src, brace_pair_list(src));
    let ranges = foldable(src);
    let text = projection(src, folds);
    let o = min(c, text.len() as int);
    let lo = line_begin(text, o);
    let hi = line_finish(text, o);
    lemma_pick_line_member(ranges, to_source(folds, lo, false), to_source(folds, hi, false), ranges.len() as int);
    lemma_pick_enclosing_member(ranges, to_source(folds, c, false), ranges.len() as int);
}

// ---------------------------------------------------------------------------
// Toggling folds
// ---------------------------------------------------------------------------

/// Whether a toggle describes the change from `before` to `after` as an edit
/// of the displayed text.
pub open spec fn describes(t: Toggle, before: Seq<u8>, after: Seq<u8>) -> bool {
    let (start, end, text) = diff_edit(before, after);
    &&& t.edit.start == start
    &&& t.edit.end == end
    &&& utf8(t.text@) == text
}

/// The ranges of a change are those the choice functions produce.
pub open spec fn change_ok(src: Seq<u8>, folds: Seq<Fold>, change: Change) -> bool {
    match change {
        Change::Fold(a, b) => a <= b <= src.len(),
        Change::Unfold(i) => i < folds.len(),
    }
}

/// Applying a toggle's edit to the display before it gives the display
/// after it: replacing `t.edit` of the old projection with `t.text` gives
/// the new projection.
pub proof fn lemma_toggle_edit_applies(src: Seq<u8>, before: Seq<Fold>, after: Seq<Fold>, t: Toggle)
    requires
        valid_utf8(src),
        describes(t, projection(src, before), projection(src, after)),
    ensures
        splice(projection(src, before), t.edit.start as int, t.edit.end as int, utf8(t.text@))
            == projection(src, after),
{
    lemma_projection_valid(src, before);
    lemma_projection_valid(src, after);
    lemma_diff_edit_applies(projection(src, before), projection(src, after));
}

fn apply(src: &[u8], folds: &mut Vec<Fold>, display_cursor: usize, change: Change) -> (res: Toggle)
    requires
        valid_utf8(src@),
        fits(old(folds)@),
    ensures
        final(folds)@ == after_change(old(folds)@, change),
        describes(res, projection(src@, old(folds)@), projection(src@, final(folds)@)),
        res.cursor == to_display(final(folds)@, to_source(old(folds)@, display_cursor as int, false)),
        res.folded == (change is Fold),
{
    let before = project_bytes(src, folds);
    let cursor = display_to_source(folds, display_cursor, false);
    let folded = match change {
        Change::Fold(a, b) => {
            proof {
                lemma_with_fold_len(folds@, a, b);
            }
            insert_fold(folds, a, b);
            true
        },
        Change::Unfold(ix) => {
            if ix < folds.len() {
                folds.remove(ix);
            }
            false
        },
    };
    let after = project_bytes(src, folds);
    let (p, s) = difference(&before, &after);
    proof {
        lemma_diff_parts(before@, after@);
    }
    let text = string_between(&after, p, after.len() - s);
    let display = source_to_display(folds, cursor);
    Toggle { edit: p..before.len() - s, text, cursor: display, folded }
}

/// Folds or unfolds at the cursor: a placeholder under the cursor unfolds;
/// otherwise the cursor's line is toggled (see [`toggle_line`]); otherwise the
/// innermost multi-line block around the cursor folds. Returns the edit of
/// the displayed text, or `None` when there is nothing to toggle.
pub fn toggle(source: &str, folds: &mut Vec<Fold>, display_cursor: usize) -> (res: Option<Toggle>)
    requires
        fits(old(folds)@),
    ensures
        match toggle_choice(utf8(source@), old(folds)@, display_cursor as int) {
            None => res is None && final(folds)@ == old(folds)@,
            Some(change) => res matches Some(t) && {
                &&& final(folds)@ == after_change(old(folds)@, change)
                &&& describes(t, projection(utf8(source@), old(folds)@), projection(utf8(source@), final(folds)@))
                &&& splice(projection(utf8(source@), old(folds)@), t.edit.start as int, t.edit.end as int, utf8(t.text@))
                    == projection(utf8(source@), final(folds)@)
                &&& t.cursor == to_display(
                    final(folds)@,
                    to_source(old(folds)@, display_cursor as int, false),
                )
                &&& t.folded == (change is Fold)
                &&& placed(utf8(source@), old(folds)@) && display_cursor <= projection(
                    utf8(source@),
                    old(folds)@,
                ).len() ==> t.cursor <= projection(utf8(source@), final(folds)@).len()
            },
        },
        in_order(old(folds)@) ==> in_order(final(folds)@),
        placed(utf8(source@), old(folds)@) ==> placed(utf8(source@), final(folds)@),
{
    let src = source.as_bytes();
    let n = src.len();
    proof {
        assert(src@.len() == n);
        if placed(src@, folds@) {
            lemma_toggle_keeps_placed(src@, folds@, display_cursor as int);
        }
        lemma_choices_apart(src@, folds@, display_cursor as int);
        if let Some(change) = toggle_choice(src@, folds@, display_cursor as int) {
            if in_order(folds@) {
                lemma_change_keeps_order(folds@, change);
            }
        }
    }
    let change = match unfold_at(folds, display_cursor) {
        Some(change) => change,
        None => match line_change(src, folds, display_cursor) {
            Some(change) => change,
            None => match enclosing_fold(src, folds, display_cursor) {
                Some(change) => change,
                None => return None,
            },
        },
    };
    let ghost before = folds@;
    let t = apply(src, folds, display_cursor, change);
    proof {
        lemma_toggle_edit_applies(src@, before, folds@, t);
        if placed(src@, before) && display_cursor <= projection(src@, before).len() {
            lemma_project_len(src@, before, 0, 0);
            assert(before.subrange(0, before.len() as int) =~= before);
            lemma_source_from_within(src@, before, display_cursor as int, false, 0);
            lemma_display_offsets_fit(src@, folds@, to_source(before, display_cursor as int, false));
        }
    }
    Some(t)
}

/// Toggles the fold on the line of `display_offset`: unfolds the first
/// placeholder on that line, or else folds the earliest multi-line block
/// whose `{` is on that line. `None` when the line has neither.
pub fn toggle_line(source: &str, folds: &mut Vec<Fold>, display_offset: usize) -> (res: Option<Toggle>)
    requires
        fits(old(folds)@),
    ensures
        match line_choice(utf8(source@), old(folds)@, display_offset as int) {
            None => res is None && final(folds)@ == old(folds)@,
            Some(change) => res matches Some(t) && {
                &&& final(folds)@ == after_change(old(folds)@, change)
                &&& describes(t, projection(utf8(source@), old(folds)@), projection(utf8(source@), final(folds)@))
                &&& splice(projection(utf8(source@), old(folds)@), t.edit.start as int, t.edit.end as int, utf8(t.text@))
                    == projection(utf8(source@), final(folds)@)
                &&& t.cursor == to_display(
                    final(folds)@,
                    to_source(old(folds)@, display_offset as int, false),
                )
                &&& t.folded == (change is Fold)
            },
        },
        in_order(old(folds)@) ==> in_order(final(folds)@),
{
    let src = source.as_bytes();
    let n = src.len();
    proof {
        assert(src@.len() == n);
        lemma_choices_apart(src@, folds@, display_offset as int);
        if let Some(change) = line_choice(src@, folds@, display_offset as int) {
            if in_order(folds@) {
                lemma_change_keeps_order(folds@, change);
            }
        }
    }
    match line_change(src, folds, display_offset) {
        Some(change) => {
            let ghost before = folds@;
            let t = apply(src, folds, display_offset, change);
            proof {
                lemma_toggle_edit_applies(src@, before, folds@, t);
            }
            Some(t)
        },
        None => None,
    }
}

/// Among the first `n` pairs, the narrowest one around the cursor (from its
/// `{` to just past its `}`); the first such on ties.
pub open spec fn pick_pair(pairs: Seq<(usize, usize)>, c: int, n: int) -> Option<(usize, usize)>
    decreases n,
{
    if n <= 0 || n > pairs.len() {
        None
    } else {
        let best = pick_pair(pairs, c, n - 1);
        let p = pairs[n - 1];
        if p.0 <= c <= p.1 + 1 && (best is None || p.1 - p.0 < best.unwrap().1 - best.unwrap().0) {
            Some(p)
        } else {
            best
        }
    }
}

proof fn lemma_pick_pair_from(pairs: Seq<(usize, usize)>, c: int, n: int, src: Seq<u8>)
    requires
        forall|k: int| 0 <= k < pairs.len() ==> is_brace_pair(src, #[trigger] pairs[k]),
    ensures
        pick_pair(pairs, c, n) matches Some(p) ==> is_brace_pair(src, p) && p.0 <= c <= p.1 + 1,
    decreases n,
{
    if 0 < n <= pairs.len() {
        lemma_pick_pair_from(pairs, c, n - 1, src);
        assert(is_brace_pair(src, pairs[n - 1]));
    }
}

/// The innermost brace pair around the cursor, as the offsets of its `{` and
/// `}`. A cursor touching either brace (just before `{` or just after `}`)
/// counts as inside. Braces in strings and comments do not count.
pub fn active_pair(source: &str, cursor: usize) -> (res: Option<(usize, usize)>)
    ensures
        res == pick_pair(
            brace_pair_list(utf8(source@)),
            cursor as int,
            brace_pair_list(utf8(source@)).len() as int,
        ),
        res matches Some(p) ==> is_brace_pair(utf8(source@), p) && p.0 <= cursor <= p.1 + 1,
{
    let src = source.as_bytes();
    let pairs = brace_pairs(src);
    let n = src.len();
    assert(n == src@.len());
    let mut best: Option<(usize, usize)> = None;
    let mut k: usize = 0;
    while k < pairs.len()
        invariant
            k <= pairs@.len(),
            pairs@ == brace_pair_list(src@),
            forall|j: int| 0 <= j < pairs@.len() ==> is_brace_pair(src@, #[trigger] pairs@[j]),
            best == pick_pair(pairs@, cursor as int, k as int),
            best matches Some(x) ==> x.0 < x.1,
            src@.len() <= usize::MAX,
        decreases pairs.len() - k,
    {
        let (open, close) = pairs[k];
        assert(is_brace_pair(src@, pairs@[k as int]));
        let better = match best {
            None => true,
            Some(x) => close - open < x.1 - x.0,
        };
        if open <= cursor && cursor <= close + 1 && better {
            best = Some((open, close));
        }
        k = k + 1;
    }
    proof {
        lemma_pick_pair_from(pairs@, cursor as int, pairs@.len() as int, src@);
    }
    best
}


// ---------------------------------------------------------------------------
// Editing through the projection
// ---------------------------------------------------------------------------

/// The source range that an edit of the displayed text replaces, and the
/// replacement: the edit from the current projection to `displayed`, with
/// its start mapped to the source and its end mapped with end bias (so an
/// end inside a placeholder covers the whole fold).
pub open spec fn edit_parts(src: Seq<u8>, folds: Seq<Fold>, displayed: Seq<u8>) -> (int, int, Seq<u8>) {
    let (p, q, text) = diff_edit(projection(src, folds), displayed);
    (to_source(folds, p, false), to_source(folds, q, true), text)
}

/// Whether the edit types a placeholder over exactly a foldable range, which
/// folds that range instead of changing the source.
pub open spec fn refolds(src: Seq<u8>, folds: Seq<Fold>, displayed: Seq<u8>) -> bool {
    let (a, b, text) = edit_parts(src, folds, displayed);
    &&& text == placeholder()
    &&& exists|k: int| 0 <= k < foldable(src).len() && #[trigger] foldable(src)[k] == (a, b)
}

/// The edit replaces a well-formed range of the source: what replacing a
/// range of a `String` needs.
pub open spec fn edit_fits(src: Seq<u8>, folds: Seq<Fold>, displayed: Seq<u8>) -> bool {
    let (a, b, text) = edit_parts(src, folds, displayed);
    projection(src, folds) != displayed && !refolds(src, folds, displayed) ==> {
        &&& a <= b <= src.len()
        &&& boundary(src, a)
        &&& boundary(src, b)
    }
}

/// The folds after replacing `a .. b` with text `delta` bytes longer: folds
/// that start at or after `b` move by `delta`, folds that end at or before
/// `a` stay, and folds the edit touches are dropped.
pub open spec fn shifted(folds: Seq<Fold>, a: int, b: int, delta: int) -> Seq<Fold>
    decreases folds.len(),
{
    if folds.len() == 0 {
        Seq::empty()
    } else {
        let rest = shifted(folds.drop_last(), a, b, delta);
        let f = folds.last();
        if b <= f.range.start {
            rest.push(
                fold_of(sat(f.range.start + delta) as usize, sat(f.range.end + delta) as usize),
            )
        } else if a >= f.range.end {
            rest.push(f)
        } else {
            rest
        }
    }
}


fn shift_by(x: usize, delta: i128) -> (res: usize)
    requires
        -0x1_0000_0000_0000_0000 <= delta <= 0x1_0000_0000_0000_0000,
    ensures
        res == sat(x + delta),
{
    clamp(x as i128 + delta)
}

/// Whether [`apply_edit`] can apply the displayed text `displayed`: the
/// display is unchanged, or the edit refolds, or it replaces a range of the
/// source that starts and ends on character boundaries (see
/// [`edit_fits`]).
pub fn edit_fits_exec(source: &str, folds: &Vec<Fold>, displayed: &str) -> (res: bool)
    requires
        fits(folds@),
    ensures
        res == edit_fits(utf8(source@), folds@, utf8(displayed@)),
{
    let src = source.as_bytes();
    let shown = displayed.as_bytes();
    let previous = project_bytes(src, folds);
    if same_bytes(&previous, shown) {
        return true;
    }
    let (p, s) = difference(&previous, shown);
    proof {
        lemma_diff_parts(previous@, shown@);
    }
    let old_end = previous.len() - s;
    let new_end = shown.len() - s;
    let a = display_to_source(folds, p, false);
    let b = display_to_source(folds, old_end, true);
    let mut replacement: Vec<u8> = Vec::new();
    push_range(&mut replacement, shown, p, new_end);
    assert(replacement@ =~= shown@.subrange(p as int, new_end as int));
    let is_placeholder = replacement.len() == 3 && replacement[0] == 46 && replacement[1] == 46
        && replacement[2] == 46;
    let ghost parts = edit_parts(src@, folds@, shown@);
    assert(parts.0 == a as int && parts.1 == b as int && parts.2 == replacement@);
    assert(is_placeholder == (replacement@ == placeholder())) by {
        if replacement@ == placeholder() {
            assert(replacement@[0] == 46);
        }
        if is_placeholder {
            assert(replacement@ =~= placeholder());
        }
    }
    if is_placeholder {
        let ranges = foldable_ranges(src);
        let ghost spec_ranges = foldable(src@);
        let mut k: usize = 0;
        while k < ranges.len()
            invariant
                k <= ranges@.len(),
                ranges@.len() == spec_ranges.len(),
                forall|j: int|
                    0 <= j < ranges@.len() ==> ranges@[j].0 as int == (#[trigger] spec_ranges[j]).0 && ranges@[j].1 as int
                        == spec_ranges[j].1,
                forall|j: int| 0 <= j < k ==> spec_ranges[j] != (a as int, b as int),
                spec_ranges == foldable(src@),
                parts == edit_parts(src@, folds@, shown@),
                parts.0 == a as int,
                parts.1 == b as int,
                parts.2 == placeholder(),
                projection(src@, folds@) != shown@,
                src@ == utf8(source@),
                shown@ == utf8(displayed@),
            decreases ranges.len() - k,
        {
            if ranges[k].0 == a && ranges[k].1 == b {
                assert(spec_ranges[k as int] == (a as int, b as int));
                assert(refolds(src@, folds@, shown@));
                return true;
            }
            assert(spec_ranges[k as int] != (a as int, b as int));
            k = k + 1;
        }
        assert(!refolds(src@, folds@, shown@));
    }
    assert(!refolds(src@, folds@, shown@));
    a <= b && b <= src.len() && is_boundary(src, a) && is_boundary(src, b)
}

/// Applies an edit of the displayed text to the source. Returns the new
/// source, or `None` when there is nothing to change there: when the display
/// did not change, or when the edit typed a placeholder over exactly a
/// foldable range, which folds it. Folds after the edit move with it; folds
/// the edit touches are dropped.
pub fn apply_edit(source: &str, folds: &mut Vec<Fold>, displayed: &str) -> (res: Option<String>)
    requires
        fits(old(folds)@),
        edit_fits(utf8(source@), old(folds)@, utf8(displayed@)),
    ensures
        ({
            let src = utf8(source@);
            let shown = utf8(displayed@);
            let (a, b, text) = edit_parts(src, old(folds)@, shown);
            if projection(src, old(folds)@) == shown {
                res is None && final(folds)@ == old(folds)@
            } else if refolds(src, old(folds)@, shown) {
                res is None && final(folds)@ == with_fold(old(folds)@, a as usize, b as usize)
            } else {
                res matches Some(updated) && utf8(updated@) == splice(src, a, b, text)
                    && final(folds)@ == shifted(old(folds)@, a, b, text.len() - (b - a))
            }
        }),
{
    let src = source.as_bytes();
    let shown = displayed.as_bytes();
    let previous = project_bytes(src, folds);
    if same_bytes(&previous, shown) {
        return None;
    }
    let (p, s) = difference(&previous, shown);
    proof {
        lemma_diff_parts(previous@, shown@);
    }
    let old_end = previous.len() - s;
    let new_end = shown.len() - s;
    let a = display_to_source(folds, p, false);
    let b = display_to_source(folds, old_end, true);
    let mut replacement: Vec<u8> = Vec::new();
    push_range(&mut replacement, shown, p, new_end);
    assert(replacement@ =~= shown@.subrange(p as int, new_end as int));
    let is_placeholder = replacement.len() == 3 && replacement[0] == 46 && replacement[1] == 46
        && replacement[2] == 46;
    let ghost parts = edit_parts(src@, folds@, shown@);
    assert(parts.0 == a as int && parts.1 == b as int && parts.2 == replacement@);
    assert(is_placeholder == (replacement@ == placeholder())) by {
        if replacement@ == placeholder() {
            assert(replacement@[0] == 46);
        }
        if is_placeholder {
            assert(replacement@ =~= placeholder());
        }
    }
    if is_placeholder {
        let ranges = foldable_ranges(src);
        let ghost spec_ranges = foldable(src@);
        let mut k: usize = 0;
        while k < ranges.len()
            invariant
                k <= ranges@.len(),
                ranges@.len() == spec_ranges.len(),
                forall|j: int|
                    0 <= j < ranges@.len() ==> ranges@[j].0 as int == (#[trigger] spec_ranges[j]).0 && ranges@[j].1 as int
                        == spec_ranges[j].1,
                forall|j: int| 0 <= j < k ==> spec_ranges[j] != (a as int, b as int),
                spec_ranges == foldable(src@),
                parts == edit_parts(src@, folds@, shown@),
                parts.0 == a as int,
                parts.1 == b as int,
                parts.2 == placeholder(),
                folds@ == old(folds)@,
                fits(folds@),
                projection(src@, folds@) != shown@,
                src@ == utf8(source@),
                shown@ == utf8(displayed@),
            decreases ranges.len() - k,
        {
            if ranges[k].0 == a && ranges[k].1 == b {
                assert(spec_ranges[k as int] == (a as int, b as int));
                assert(refolds(src@, folds@, shown@));
                proof {
                    lemma_with_fold_len(folds@, a, b);
                }
                insert_fold(folds, a, b);
                return None;
            }
            assert(spec_ranges[k as int] != (a as int, b as int));
            k = k + 1;
        }
        assert(!refolds(src@, folds@, shown@));
    }
    assert(!refolds(src@, folds@, shown@));
    assert(a <= b <= src@.len() && boundary(src@, a as int) && boundary(src@, b as int));
    let mut updated: Vec<u8> = Vec::new();
    push_range(&mut updated, src, 0, a);
    let ghost head = updated@;
    updated.extend_from_slice(replacement.as_slice());
    push_range(&mut updated, src, b, src.len());
    assert(updated@ =~= splice(src@, a as int, b as int, replacement@));
    proof {
        let text = replacement@;
        is_char_boundary_start_end_of_seq(src@);
        lemma_valid_between(src@, 0, a as int);
        lemma_valid_between(src@, b as int, src@.len() as int);
        lemma_valid_between(shown@, p as int, new_end as int);
        valid_utf8_concat(src@.subrange(0, a as int), text);
        valid_utf8_concat(src@.subrange(0, a as int) + text, src@.subrange(b as int, src@.len() as int));
        is_char_boundary_start_end_of_seq(src@);
    }
    let delta: i128 = replacement.len() as i128 - (b - a) as i128;
    let mut kept: Vec<Fold> = Vec::new();
    let mut i: usize = 0;
    while i < folds.len()
        invariant
            i <= folds@.len(),
            -0x1_0000_0000_0000_0000 <= delta <= 0x1_0000_0000_0000_0000,
            kept@ == shifted(folds@.subrange(0, i as int), a as int, b as int, delta as int),
        decreases folds.len() - i,
    {
        let ghost prefix = folds@.subrange(0, i + 1);
        assert(prefix.drop_last() =~= folds@.subrange(0, i as int));
        let start = folds[i].range.start;
        let end = folds[i].range.end;
        if b <= start {
            kept.push(Fold { range: shift_by(start, delta)..shift_by(end, delta) });
        } else if a >= end {
            kept.push(Fold { range: start..end });
        }
        i = i + 1;
    }
    assert(folds@.subrange(0, i as int) =~= folds@);
    *folds = kept;
    Some(string_from_utf8(updated))
}

} // verus!
