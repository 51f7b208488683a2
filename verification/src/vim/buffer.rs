//! Positions in a text held as its characters: lines and columns, the
//! words, brackets and paragraphs that Vim's motions move over, and its
//! text objects.
//!
//! A position counts characters from the start of the text; the text's
//! length is the position after its last character. Lines end at `'\n'`.

use vstd::prelude::*;
use crate::text::{is_space, space_char};

verus! {

/// How many line breaks come before position `p` (clamped to the text):
/// the line that `p` lies on.
pub open spec fn breaks_before(t: Seq<char>, p: int) -> nat
    decreases p,
{
    if p <= 0 {
        0
    } else if p > t.len() {
        breaks_before(t, t.len() as int)
    } else {
        breaks_before(t, p - 1) + if t[p - 1] == '\n' {
            1nat
        } else {
            0nat
        }
    }
}

/// The first position from `i` on that holds a line break, or the end.
pub open spec fn break_after(t: Seq<char>, i: int) -> int
    decreases t.len() - i,
{
    if i >= t.len() {
        t.len() as int
    } else if t[i] == '\n' {
        i
    } else {
        break_after(t, i + 1)
    }
}

/// Where line `l` starts; past the last line, where the last line starts.
pub open spec fn start_of_line(t: Seq<char>, l: nat) -> int
    decreases l,
{
    if l == 0 {
        0
    } else {
        let p = start_of_line(t, (l - 1) as nat);
        let e = break_after(t, p);
        if e < t.len() {
            e + 1
        } else {
            p
        }
    }
}

/// Where line `l` ends: at its line break, or at the end of the text.
pub open spec fn end_of_line(t: Seq<char>, l: nat) -> int {
    break_after(t, start_of_line(t, l))
}

/// The number of the last line.
pub open spec fn last_line_of(t: Seq<char>) -> nat {
    breaks_before(t, t.len() as int)
}

/// Whether a line starts at `p`.
pub open spec fn starts_line(t: Seq<char>, p: int) -> bool {
    p == 0 || (0 < p <= t.len() && t[p - 1] == '\n')
}

pub proof fn lemma_break_after_bounds(t: Seq<char>, i: int)
    requires
        0 <= i <= t.len(),
    ensures
        i <= break_after(t, i) <= t.len(),
        break_after(t, i) < t.len() ==> t[break_after(t, i)] == '\n',
        forall|k: int| i <= k < break_after(t, i) ==> t[k] != '\n',
    decreases t.len() - i,
{
    if i < t.len() && t[i] != '\n' {
        lemma_break_after_bounds(t, i + 1);
    }
}

/// Line starts lie within the text.
pub proof fn lemma_start_bounds(t: Seq<char>, l: nat)
    ensures
        0 <= start_of_line(t, l) <= t.len(),
        starts_line(t, start_of_line(t, l)),
    decreases l,
{
    if l > 0 {
        lemma_start_bounds(t, (l - 1) as nat);
        lemma_break_after_bounds(t, start_of_line(t, (l - 1) as nat));
    }
}

/// A line starts no later than it ends, and the text between holds no
/// line break.
pub proof fn lemma_line_bounds(t: Seq<char>, l: nat)
    ensures
        0 <= start_of_line(t, l) <= end_of_line(t, l) <= t.len(),
        starts_line(t, start_of_line(t, l)),
        end_of_line(t, l) < t.len() ==> t[end_of_line(t, l)] == '\n',
        forall|k: int| start_of_line(t, l) <= k < end_of_line(t, l) ==> t[k] != '\n',
{
    lemma_start_bounds(t, l);
    lemma_break_after_bounds(t, start_of_line(t, l));
}

proof fn lemma_break_after_skip(t: Seq<char>, i: int, j: int)
    requires
        0 <= i <= j <= t.len(),
        forall|k: int| i <= k < j ==> t[k] != '\n',
    ensures
        break_after(t, i) == break_after(t, j),
    decreases j - i,
{
    if i < j {
        lemma_break_after_skip(t, i + 1, j);
    }
}

/// Once the text has no more line breaks, every later line starts where
/// the last one does.
proof fn lemma_start_stays(t: Seq<char>, l: nat, m: nat)
    requires
        l <= m,
        break_after(t, start_of_line(t, l)) >= t.len(),
    ensures
        start_of_line(t, m) == start_of_line(t, l),
    decreases m - l,
{
    if l < m {
        lemma_start_stays(t, l, (m - 1) as nat);
    }
}

/// Position `p` lies on the line `breaks_before(t, p)`, between its start
/// and its end.
pub proof fn lemma_position_on_line(t: Seq<char>, p: int)
    requires
        0 <= p <= t.len(),
    ensures
        start_of_line(t, breaks_before(t, p)) <= p <= end_of_line(t, breaks_before(t, p)),
        forall|k: int| start_of_line(t, breaks_before(t, p)) <= k < p ==> t[k] != '\n',
    decreases p,
{
    if p > 0 {
        lemma_position_on_line(t, p - 1);
        let b = breaks_before(t, p - 1);
        let s = start_of_line(t, b);
        lemma_start_bounds(t, b);
        lemma_break_after_skip(t, s, p - 1);
        lemma_break_after_bounds(t, p - 1);
        if t[p - 1] == '\n' {
            assert(break_after(t, p - 1) == p - 1);
            assert(start_of_line(t, b + 1) == p);
            lemma_break_after_bounds(t, p);
        } else {
            lemma_break_after_skip(t, s, p);
            lemma_break_after_bounds(t, p);
        }
    } else {
        lemma_break_after_bounds(t, 0);
    }
}

/// A position's line number is at most the position, and at most the
/// last line's.
pub proof fn lemma_breaks_at_most(t: Seq<char>, p: int)
    requires
        0 <= p <= t.len(),
    ensures
        breaks_before(t, p) <= p,
        breaks_before(t, p) <= last_line_of(t),
    decreases t.len() - p,
{
    lemma_breaks_grow(t, p, t.len() as int);
    lemma_breaks_count(t, p);
}

proof fn lemma_breaks_count(t: Seq<char>, p: int)
    requires
        0 <= p <= t.len(),
    ensures
        breaks_before(t, p) <= p,
    decreases p,
{
    if p > 0 {
        lemma_breaks_count(t, p - 1);
    }
}

pub proof fn lemma_breaks_grow(t: Seq<char>, p: int, q: int)
    requires
        0 <= p <= q <= t.len(),
    ensures
        breaks_before(t, p) <= breaks_before(t, q),
    decreases q - p,
{
    if p < q {
        lemma_breaks_grow(t, p, q - 1);
    }
}

/// The first position from `i` on that holds a line break, or the end.
pub fn next_break(t: &Vec<char>, i: usize) -> (res: usize)
    requires
        i <= t@.len(),
    ensures
        res == break_after(t@, i as int),
        i <= res <= t@.len(),
{
    let mut k = i;
    while k < t.len() && t[k] != '\n'
        invariant
            i <= k <= t@.len(),
            break_after(t@, k as int) == break_after(t@, i as int),
        decreases t@.len() - k,
    {
        k = k + 1;
    }
    k
}

/// The line that `pos` lies on (positions past the end lie on the last).
pub fn line_of(t: &Vec<char>, pos: usize) -> (res: usize)
    ensures
        res == breaks_before(t@, pos as int),
        res <= last_line_of(t@),
{
    let end = if pos < t.len() {
        pos
    } else {
        t.len()
    };
    let mut i: usize = 0;
    let mut n: usize = 0;
    while i < end
        invariant
            i <= end <= t@.len(),
            n == breaks_before(t@, i as int),
            n <= i,
        decreases end - i,
    {
        if t[i] == '\n' {
            n = n + 1;
        }
        i = i + 1;
    }
    proof {
        lemma_breaks_at_most(t@, end as int);
    }
    n
}

/// The number of the last line.
pub fn last_line(t: &Vec<char>) -> (res: usize)
    ensures
        res == last_line_of(t@),
{
    line_of(t, t.len())
}

/// Where line `line` starts (the last line's start past the last line).
pub fn line_start(t: &Vec<char>, line: usize) -> (res: usize)
    ensures
        res == start_of_line(t@, line as nat),
        res <= t@.len(),
{
    let mut p: usize = 0;
    let mut l: usize = 0;
    while l < line
        invariant
            l <= line,
            p == start_of_line(t@, l as nat),
        decreases line - l,
    {
        proof {
            lemma_start_bounds(t@, l as nat);
        }
        let e = next_break(t, p);
        if e >= t.len() {
            proof {
                lemma_start_stays(t@, l as nat, line as nat);
            }
            return p;
        }
        p = e + 1;
        l = l + 1;
    }
    proof {
        lemma_start_bounds(t@, line as nat);
    }
    p
}

/// Where line `line` ends: at its line break, or at the end of the text.
pub fn line_end(t: &Vec<char>, line: usize) -> (res: usize)
    ensures
        res == end_of_line(t@, line as nat),
        start_of_line(t@, line as nat) <= res <= t@.len(),
{
    let s = line_start(t, line);
    next_break(t, s)
}


/// The character at `pos`, if the text has one there.
pub fn char_at(t: &Vec<char>, pos: usize) -> (res: Option<char>)
    ensures
        res == if pos < t@.len() {
            Some(t@[pos as int])
        } else {
            None::<char>
        },
{
    if pos < t.len() {
        Some(t[pos])
    } else {
        None
    }
}

/// The position after the character at `pos` (the end stays the end).
pub fn next(t: &Vec<char>, pos: usize) -> (res: usize)
    ensures
        res == if pos < t@.len() {
            pos + 1
        } else {
            t@.len() as int
        },
{
    if pos < t.len() {
        pos + 1
    } else {
        t.len()
    }
}

/// The position of the character before `pos` (the start stays the start).
pub fn prev(pos: usize) -> (res: usize)
    ensures
        res == if pos > 0 {
            pos - 1
        } else {
            0
        },
{
    if pos > 0 {
        pos - 1
    } else {
        0
    }
}

/// Whether a line starts at `pos`.
pub fn is_line_start(t: &Vec<char>, pos: usize) -> (res: bool)
    requires
        pos <= t@.len(),
    ensures
        res == starts_line(t@, pos as int),
{
    pos == 0 || t[pos - 1] == '\n'
}

/// Whether line `line` holds no characters.
pub fn is_empty_line(t: &Vec<char>, line: usize) -> (res: bool)
    ensures
        res == (start_of_line(t@, line as nat) == end_of_line(t@, line as nat)),
{
    line_start(t, line) == line_end(t, line)
}

/// The text of lines `first` to `last` with the line break after them,
/// as a range (the last line of the text has none).
pub fn lines_range(t: &Vec<char>, first: usize, last: usize) -> (res: (usize, usize))
    ensures
        res.0 == start_of_line(t@, first as nat),
        res.1 == if last < last_line_of(t@) {
            start_of_line(t@, last as nat + 1)
        } else {
            t@.len() as int
        },
        res.1 <= t@.len(),
{
    let end = if last < last_line(t) {
        line_start(t, last + 1)
    } else {
        t.len()
    };
    (line_start(t, first), end)
}

/// How many characters come before `pos` on its line.
pub fn column(t: &Vec<char>, pos: usize) -> (res: usize)
    requires
        pos <= t@.len(),
    ensures
        res == pos - start_of_line(t@, breaks_before(t@, pos as int)),
{
    proof {
        lemma_position_on_line(t@, pos as int);
    }
    let start = line_start(t, line_of(t, pos));
    pos - start
}

/// The position `column` characters into line `line`, or the line's end.
pub fn at_column(t: &Vec<char>, line: usize, column: usize) -> (res: usize)
    ensures
        res == if start_of_line(t@, line as nat) + column < end_of_line(t@, line as nat) {
            start_of_line(t@, line as nat) + column
        } else {
            end_of_line(t@, line as nat)
        },
{
    let start = line_start(t, line);
    let end = line_end(t, line);
    if column < end - start {
        start + column
    } else {
        end
    }
}

/// Whether `c` is a blank that indentation is made of.
pub open spec fn blank(c: char) -> bool {
    c == ' ' || c == '\t'
}

/// The first position from `i` (up to `e`) that holds no blank.
pub open spec fn skip_blanks(t: Seq<char>, i: int, e: int) -> int
    decreases e - i,
{
    if i < e && blank(t[i]) {
        skip_blanks(t, i + 1, e)
    } else {
        i
    }
}

proof fn lemma_skip_blanks(t: Seq<char>, i: int, e: int)
    requires
        i <= e,
    ensures
        i <= skip_blanks(t, i, e) <= e,
        forall|k: int| i <= k < skip_blanks(t, i, e) ==> blank(t[k]),
    decreases e - i,
{
    if i < e && blank(t[i]) {
        lemma_skip_blanks(t, i + 1, e);
    }
}

/// Where the text of line `l` starts after its indentation.
pub open spec fn first_non_blank_of(t: Seq<char>, l: nat) -> int {
    skip_blanks(t, start_of_line(t, l), end_of_line(t, l))
}

/// The first character of line `line` that is no blank (or its end).
pub fn first_non_blank(t: &Vec<char>, line: usize) -> (res: usize)
    ensures
        res == first_non_blank_of(t@, line as nat),
        start_of_line(t@, line as nat) <= res <= end_of_line(t@, line as nat) <= t@.len(),
{
    let start = line_start(t, line);
    let end = line_end(t, line);
    proof {
        lemma_skip_blanks(t@, start as int, end as int);
    }
    let mut pos = start;
    while pos < end && (t[pos] == ' ' || t[pos] == '\t')
        invariant
            start <= pos <= end <= t@.len(),
            skip_blanks(t@, pos as int, end as int) == skip_blanks(t@, start as int, end as int),
        decreases end - pos,
    {
        pos = pos + 1;
    }
    pos
}

/// The indentation of line `line`.
pub fn indentation(t: &Vec<char>, line: usize) -> (res: Vec<char>)
    ensures
        res@ == t@.subrange(start_of_line(t@, line as nat), first_non_blank_of(t@, line as nat)),
{
    let start = line_start(t, line);
    let end = first_non_blank(t, line);
    slice(t, start, end)
}

/// The characters `t[a..b]`.
pub fn slice(t: &Vec<char>, a: usize, b: usize) -> (res: Vec<char>)
    requires
        a <= b <= t@.len(),
    ensures
        res@ == t@.subrange(a as int, b as int),
{
    let mut out: Vec<char> = Vec::new();
    let mut k = a;
    while k < b
        invariant
            a <= k <= b <= t@.len(),
            out@ == t@.subrange(a as int, k as int),
        decreases b - k,
    {
        out.push(t[k]);
        k = k + 1;
    }
    out
}

/// Where the cursor of normal mode may stand for `pos`: on a character of
/// its line, the last one when `pos` is at or past the line's end (an
/// empty line has only its start).
pub open spec fn normal_position(t: Seq<char>, pos: int) -> int {
    let l = breaks_before(t, pos);
    let (start, end) = (start_of_line(t, l), end_of_line(t, l));
    if pos >= end && end > start {
        end - 1
    } else if pos < end {
        pos
    } else {
        end
    }
}

/// Moves `pos` onto a character of its line (see [`normal_position`]).
pub fn clamp_normal(t: &Vec<char>, pos: usize) -> (res: usize)
    ensures
        res == normal_position(t@, pos as int),
        res <= t@.len(),
{
    let line = line_of(t, pos);
    let start = line_start(t, line);
    let end = line_end(t, line);
    if pos >= end && end > start {
        end - 1
    } else if pos < end {
        pos
    } else {
        end
    }
}


/// What `char::is_alphanumeric` says of `c` (Unicode's Alphabetic or
/// Numeric property).
pub uninterp spec fn alphanumeric(c: char) -> bool;

/// Calls `char::is_alphanumeric`.
/// Trusted: the result is named by [`alphanumeric`]; it depends on the
/// character alone (the Unicode tables built into the standard library).
#[verifier::external_body]
fn is_alphanumeric(c: char) -> (res: bool)
    ensures
        res == alphanumeric(c),
{
    c.is_alphanumeric()
}

/// A character that words are made of: a letter, a digit or `_`.
pub open spec fn word_char(c: char) -> bool {
    alphanumeric(c) || c == '_'
}

/// Whether `c` is a character that words are made of.
pub fn is_word_char(c: char) -> (res: bool)
    ensures
        res == word_char(c),
{
    c == '_' || is_alphanumeric(c)
}

/// The class of a character for word motions: 0 for whitespace, 1 for
/// word characters (and, for WORDs, everything else), 2 for punctuation.
pub open spec fn kind(c: char, big: bool) -> u8 {
    if is_space(c) {
        0
    } else if big || word_char(c) {
        1
    } else {
        2
    }
}

/// The class of the character at `p`, whitespace past the end.
pub open spec fn kind_at(t: Seq<char>, p: int, big: bool) -> u8 {
    if 0 <= p < t.len() {
        kind(t[p], big)
    } else {
        0
    }
}

/// The class of `c` (see [`kind`]).
pub fn class(c: char, big: bool) -> (res: u8)
    ensures
        res == kind(c, big),
{
    if space_char(c) {
        0
    } else if big || is_word_char(c) {
        1
    } else {
        2
    }
}

/// The class of the character at `pos` (see [`kind_at`]).
pub fn class_at(t: &Vec<char>, pos: usize, big: bool) -> (res: u8)
    ensures
        res == kind_at(t@, pos as int, big),
{
    if pos < t.len() {
        class(t[pos], big)
    } else {
        0
    }
}

/// The end of the run of characters of class `c` from `i` on.
pub open spec fn run_end(t: Seq<char>, i: int, c: u8, big: bool) -> int
    decreases t.len() - i,
{
    if 0 <= i < t.len() && kind(t[i], big) == c {
        run_end(t, i + 1, c, big)
    } else {
        i
    }
}

/// The start of the run of characters of class `c` that ends at `p`.
pub open spec fn run_start(t: Seq<char>, p: int, c: u8, big: bool) -> int
    decreases p,
{
    if p > 0 && kind_at(t, p - 1, big) == c {
        run_start(t, p - 1, c, big)
    } else {
        p
    }
}

/// Whether `p` holds the line break of an empty line, where word motions
/// stop as if on a word.
pub open spec fn empty_line_break(t: Seq<char>, p: int) -> bool {
    0 <= p < t.len() && t[p] == '\n' && starts_line(t, p)
}

/// From `i` on, past whitespace, stopping at an empty line.
pub open spec fn gap_end(t: Seq<char>, i: int, big: bool) -> int
    decreases t.len() - i,
{
    if 0 <= i < t.len() && kind(t[i], big) == 0 && !empty_line_break(t, i) {
        gap_end(t, i + 1, big)
    } else {
        i
    }
}

/// From `p` back, over whitespace, stopping at an empty line or the start.
pub open spec fn gap_start(t: Seq<char>, p: int, big: bool) -> int
    decreases p,
{
    if p > 0 && kind_at(t, p, big) == 0 && !empty_line_break(t, p) {
        gap_start(t, p - 1, big)
    } else {
        p
    }
}

/// From `i` on, past whitespace (line breaks included).
pub open spec fn space_end(t: Seq<char>, i: int, big: bool) -> int
    decreases t.len() - i,
{
    if 0 <= i < t.len() && kind(t[i], big) == 0 {
        space_end(t, i + 1, big)
    } else {
        i
    }
}

/// `w`/`W`: the start of the next word, or of the next empty line.
pub open spec fn next_word_start_of(t: Seq<char>, pos: int, big: bool) -> int {
    if pos >= t.len() {
        pos
    } else {
        let c = kind(t[pos], big);
        let p = if c != 0 {
            run_end(t, pos + 1, c, big)
        } else {
            pos + 1
        };
        gap_end(t, p, big)
    }
}

/// `b`/`B`: the start of this word or the one before.
pub open spec fn prev_word_start_of(t: Seq<char>, pos: int, big: bool) -> int {
    if pos <= 0 {
        0
    } else {
        let q = gap_start(t, pos - 1, big);
        let c = kind_at(t, q, big);
        if c == 0 {
            q
        } else {
            run_start(t, q, c, big)
        }
    }
}

/// `e`/`E`: the end of this word or the next; `pos` itself at the end of
/// the text.
pub open spec fn word_end_of(t: Seq<char>, pos: int, big: bool) -> int {
    let e = space_end(
        t,
        if pos < t.len() {
            pos + 1
        } else {
            t.len() as int
        },
        big,
    );
    if e >= t.len() {
        pos
    } else {
        run_end(t, e + 1, kind(t[e], big), big) - 1
    }
}

/// `ge`/`gE`: the end of the word before.
pub open spec fn prev_word_end_of(t: Seq<char>, pos: int, big: bool) -> int {
    let c = kind_at(t, pos, big);
    let p = if c != 0 {
        run_start(t, pos, c, big)
    } else {
        pos
    };
    if p <= 0 {
        0
    } else {
        gap_start(t, p - 1, big)
    }
}

proof fn lemma_run_end(t: Seq<char>, i: int, c: u8, big: bool)
    requires
        0 <= i <= t.len(),
    ensures
        i <= run_end(t, i, c, big) <= t.len(),
    decreases t.len() - i,
{
    if i < t.len() && kind(t[i], big) == c {
        lemma_run_end(t, i + 1, c, big);
    }
}

proof fn lemma_run_start(t: Seq<char>, p: int, c: u8, big: bool)
    requires
        0 <= p,
    ensures
        0 <= run_start(t, p, c, big) <= p,
    decreases p,
{
    if p > 0 && kind_at(t, p - 1, big) == c {
        lemma_run_start(t, p - 1, c, big);
    }
}

proof fn lemma_gap_end(t: Seq<char>, i: int, big: bool)
    requires
        0 <= i <= t.len(),
    ensures
        i <= gap_end(t, i, big) <= t.len(),
    decreases t.len() - i,
{
    if i < t.len() && kind(t[i], big) == 0 && !empty_line_break(t, i) {
        lemma_gap_end(t, i + 1, big);
    }
}

proof fn lemma_gap_start(t: Seq<char>, p: int, big: bool)
    requires
        0 <= p,
    ensures
        0 <= gap_start(t, p, big) <= p,
    decreases p,
{
    if p > 0 && kind_at(t, p, big) == 0 && !empty_line_break(t, p) {
        lemma_gap_start(t, p - 1, big);
    }
}

proof fn lemma_space_end(t: Seq<char>, i: int, big: bool)
    requires
        0 <= i <= t.len(),
    ensures
        i <= space_end(t, i, big) <= t.len(),
    decreases t.len() - i,
{
    if i < t.len() && kind(t[i], big) == 0 {
        lemma_space_end(t, i + 1, big);
    }
}

fn skip_run(t: &Vec<char>, i: usize, c: u8, big: bool) -> (res: usize)
    requires
        i <= t@.len(),
    ensures
        res == run_end(t@, i as int, c, big),
        i <= res <= t@.len(),
{
    proof {
        lemma_run_end(t@, i as int, c, big);
    }
    let mut k = i;
    while k < t.len() && class(t[k], big) == c
        invariant
            i <= k <= t@.len(),
            run_end(t@, k as int, c, big) == run_end(t@, i as int, c, big),
        decreases t@.len() - k,
    {
        k = k + 1;
    }
    k
}

fn skip_run_back(t: &Vec<char>, p: usize, c: u8, big: bool) -> (res: usize)
    ensures
        res == run_start(t@, p as int, c, big),
        res <= p,
{
    proof {
        lemma_run_start(t@, p as int, c, big);
    }
    let mut k = p;
    while k > 0 && class_at(t, k - 1, big) == c
        invariant
            k <= p,
            run_start(t@, k as int, c, big) == run_start(t@, p as int, c, big),
        decreases k,
    {
        k = k - 1;
    }
    k
}

fn skip_gap(t: &Vec<char>, i: usize, big: bool) -> (res: usize)
    requires
        i <= t@.len(),
    ensures
        res == gap_end(t@, i as int, big),
        i <= res <= t@.len(),
{
    proof {
        lemma_gap_end(t@, i as int, big);
    }
    let mut k = i;
    while k < t.len() && class(t[k], big) == 0 && !(t[k] == '\n' && is_line_start(t, k))
        invariant
            i <= k <= t@.len(),
            gap_end(t@, k as int, big) == gap_end(t@, i as int, big),
        decreases t@.len() - k,
    {
        k = k + 1;
    }
    k
}

fn skip_gap_back(t: &Vec<char>, p: usize, big: bool) -> (res: usize)
    ensures
        res == gap_start(t@, p as int, big),
        res <= p,
{
    proof {
        lemma_gap_start(t@, p as int, big);
    }
    let mut k = p;
    while k > 0 && class_at(t, k, big) == 0 && !(k < t.len() && t[k] == '\n' && is_line_start(
        t,
        k,
    ))
        invariant
            k <= p,
            gap_start(t@, k as int, big) == gap_start(t@, p as int, big),
        decreases k,
    {
        k = k - 1;
    }
    k
}

fn skip_space(t: &Vec<char>, i: usize, big: bool) -> (res: usize)
    requires
        i <= t@.len(),
    ensures
        res == space_end(t@, i as int, big),
        i <= res <= t@.len(),
{
    proof {
        lemma_space_end(t@, i as int, big);
    }
    let mut k = i;
    while k < t.len() && class(t[k], big) == 0
        invariant
            i <= k <= t@.len(),
            space_end(t@, k as int, big) == space_end(t@, i as int, big),
        decreases t@.len() - k,
    {
        k = k + 1;
    }
    k
}

/// `w`/`W` (see [`next_word_start_of`]).
pub fn next_word_start(t: &Vec<char>, pos: usize, big: bool) -> (res: usize)
    ensures
        res == next_word_start_of(t@, pos as int, big),
        pos < t@.len() ==> pos < res <= t@.len(),
        pos >= t@.len() ==> res == pos,
{
    if pos >= t.len() {
        return pos;
    }
    let c = class(t[pos], big);
    let p = if c != 0 {
        skip_run(t, pos + 1, c, big)
    } else {
        pos + 1
    };
    skip_gap(t, p, big)
}

/// `b`/`B` (see [`prev_word_start_of`]).
pub fn prev_word_start(t: &Vec<char>, pos: usize, big: bool) -> (res: usize)
    ensures
        res == prev_word_start_of(t@, pos as int, big),
        res <= pos,
        pos > 0 ==> res < pos,
{
    if pos == 0 {
        return 0;
    }
    let q = skip_gap_back(t, pos - 1, big);
    let c = class_at(t, q, big);
    if c == 0 {
        q
    } else {
        skip_run_back(t, q, c, big)
    }
}

/// `e`/`E` (see [`word_end_of`]).
pub fn word_end(t: &Vec<char>, pos: usize, big: bool) -> (res: usize)
    requires
        pos <= t@.len(),
    ensures
        res == word_end_of(t@, pos as int, big),
        res <= t@.len(),
{
    let start = next(t, pos);
    let e = skip_space(t, start, big);
    if e >= t.len() {
        return pos;
    }
    proof {
        lemma_run_end(t@, e + 1, kind(t@[e as int], big), big);
    }
    skip_run(t, e + 1, class(t[e], big), big) - 1
}

/// `ge`/`gE` (see [`prev_word_end_of`]).
pub fn prev_word_end(t: &Vec<char>, pos: usize, big: bool) -> (res: usize)
    ensures
        res == prev_word_end_of(t@, pos as int, big),
        res <= pos,
{
    let c = class_at(t, pos, big);
    let p = if c != 0 {
        skip_run_back(t, pos, c, big)
    } else {
        pos
    };
    if p == 0 {
        return 0;
    }
    skip_gap_back(t, p - 1, big)
}


/// Searching forward from `k` (below `end`) for the `n`th `target`.
pub open spec fn nth_after(t: Seq<char>, k: int, end: int, target: char, n: nat) -> Option<int>
    decreases end - k,
{
    if n == 0 || k >= end || k < 0 || k >= t.len() {
        None
    } else if t[k] == target {
        if n == 1 {
            Some(k)
        } else {
            nth_after(t, k + 1, end, target, (n - 1) as nat)
        }
    } else {
        nth_after(t, k + 1, end, target, n)
    }
}

/// Searching back from before `k` (down to `start`) for the `n`th `target`.
pub open spec fn nth_before(t: Seq<char>, k: int, start: int, target: char, n: nat) -> Option<
    int,
>
    decreases k - start,
{
    if n == 0 || k <= start || k <= 0 || k > t.len() {
        None
    } else if t[k - 1] == target {
        if n == 1 {
            Some(k - 1)
        } else {
            nth_before(t, k - 1, start, target, (n - 1) as nat)
        }
    } else {
        nth_before(t, k - 1, start, target, n)
    }
}

/// `f`, `F`, `t`, `T` within the line: the `count`th `target` after `pos`
/// (or before it).
pub open spec fn find_in_line_of(t: Seq<char>, pos: int, target: char, forward: bool, count: nat) -> Option<int> {
    let l = breaks_before(t, pos);
    if forward {
        nth_after(t, pos + 1, end_of_line(t, l), target, count)
    } else {
        nth_before(t, pos, start_of_line(t, l), target, count)
    }
}

proof fn lemma_nth_after(t: Seq<char>, k: int, end: int, target: char, n: nat)
    ensures
        nth_after(t, k, end, target, n) matches Some(r) ==> k <= r < end && r < t.len() && 0
            <= r && t[r] == target,
    decreases end - k,
{
    if !(n == 0 || k >= end || k < 0 || k >= t.len()) {
        if t[k] == target {
            if n != 1 {
                lemma_nth_after(t, k + 1, end, target, (n - 1) as nat);
            }
        } else {
            lemma_nth_after(t, k + 1, end, target, n);
        }
    }
}

proof fn lemma_nth_before(t: Seq<char>, k: int, start: int, target: char, n: nat)
    ensures
        nth_before(t, k, start, target, n) matches Some(r) ==> start <= r < k && 0 <= r < t.len()
            && t[r] == target,
    decreases k - start,
{
    if !(n == 0 || k <= start || k <= 0 || k > t.len()) {
        if t[k - 1] == target {
            if n != 1 {
                lemma_nth_before(t, k - 1, start, target, (n - 1) as nat);
            }
        } else {
            lemma_nth_before(t, k - 1, start, target, n);
        }
    }
}

/// Finds `target` within the line of `pos` (see [`find_in_line_of`]).
pub fn find_in_line(t: &Vec<char>, pos: usize, target: char, forward: bool, count: usize) -> (res:
    Option<usize>)
    requires
        pos <= t@.len(),
    ensures
        res == index_of(find_in_line_of(t@, pos as int, target, forward, count as nat)),
        res matches Some(r) ==> r < t@.len() && t@[r as int] == target,
        find_in_line_of(t@, pos as int, target, forward, count as nat) matches Some(f) ==> 0 <= f
            < t@.len(),
{
    proof {
        let l = breaks_before(t@, pos as int);
        lemma_nth_after(t@, pos + 1, end_of_line(t@, l), target, count as nat);
        lemma_nth_before(t@, pos as int, start_of_line(t@, l), target, count as nat);
    }
    let line = line_of(t, pos);
    let start = line_start(t, line);
    let end = line_end(t, line);
    proof {
        lemma_position_on_line(t@, pos as int);
    }
    let mut n = count;
    if forward {
        if pos >= end {
            return None;
        }
        let mut k = pos + 1;
        while k < end && n > 0
            invariant
                pos < k,
                end <= t@.len(),
                forward,
                end == end_of_line(t@, breaks_before(t@, pos as int)),
                nth_after(t@, k as int, end as int, target, n as nat) == nth_after(
                    t@,
                    pos + 1,
                    end as int,
                    target,
                    count as nat,
                ),
            decreases end - k,
        {
            if t[k] == target {
                if n == 1 {
                    assert(nth_after(t@, k as int, end as int, target, 1) == Some(k as int));
                    return Some(k);
                }
                n = n - 1;
            }
            k = k + 1;
        }
        proof {
            lemma_nth_after(t@, pos + 1, end as int, target, count as nat);
        }
        None
    } else {
        let mut k = pos;
        while k > start && n > 0
            invariant
                k <= pos <= t@.len(),
                !forward,
                start == start_of_line(t@, breaks_before(t@, pos as int)),
                nth_before(t@, k as int, start as int, target, n as nat) == nth_before(
                    t@,
                    pos as int,
                    start as int,
                    target,
                    count as nat,
                ),
            decreases k,
        {
            if t[k - 1] == target {
                if n == 1 {
                    assert(nth_before(t@, k as int, start as int, target, 1) == Some(k - 1));
                    return Some(k - 1);
                }
                n = n - 1;
            }
            k = k - 1;
        }
        None
    }
}

/// The closing bracket that matches, searching forward from `i` at
/// nesting `depth`.
pub open spec fn close_from(t: Seq<char>, i: int, open: char, close: char, depth: nat) -> Option<
    int,
>
    decreases t.len() - i,
{
    if i < 0 || i >= t.len() {
        None
    } else if t[i] == close {
        if depth == 0 {
            Some(i)
        } else {
            close_from(t, i + 1, open, close, (depth - 1) as nat)
        }
    } else if t[i] == open {
        close_from(t, i + 1, open, close, depth + 1)
    } else {
        close_from(t, i + 1, open, close, depth)
    }
}

/// The opening bracket that matches, searching back from before `k` at
/// nesting `depth`.
pub open spec fn open_before(t: Seq<char>, k: int, open: char, close: char, depth: nat) -> Option<
    int,
>
    decreases k,
{
    if k <= 0 || k > t.len() {
        None
    } else if t[k - 1] == open {
        if depth == 0 {
            Some(k - 1)
        } else {
            open_before(t, k - 1, open, close, (depth - 1) as nat)
        }
    } else if t[k - 1] == close {
        open_before(t, k - 1, open, close, depth + 1)
    } else {
        open_before(t, k - 1, open, close, depth)
    }
}

proof fn lemma_close_from(t: Seq<char>, i: int, open: char, close: char, depth: nat)
    ensures
        close_from(t, i, open, close, depth) matches Some(r) ==> i <= r < t.len() && 0 <= r
            && t[r] == close,
    decreases t.len() - i,
{
    if !(i < 0 || i >= t.len()) {
        if t[i] == close {
            if depth != 0 {
                lemma_close_from(t, i + 1, open, close, (depth - 1) as nat);
            }
        } else if t[i] == open {
            lemma_close_from(t, i + 1, open, close, depth + 1);
        } else {
            lemma_close_from(t, i + 1, open, close, depth);
        }
    }
}

proof fn lemma_open_before(t: Seq<char>, k: int, open: char, close: char, depth: nat)
    ensures
        open_before(t, k, open, close, depth) matches Some(r) ==> 0 <= r < k && r < t.len()
            && t[r] == open,
    decreases k,
{
    if !(k <= 0 || k > t.len()) {
        if t[k - 1] == open {
            if depth != 0 {
                lemma_open_before(t, k - 1, open, close, (depth - 1) as nat);
            }
        } else if t[k - 1] == close {
            lemma_open_before(t, k - 1, open, close, depth + 1);
        } else {
            lemma_open_before(t, k - 1, open, close, depth);
        }
    }
}

/// A found position as an index.
pub open spec fn index_of(found: Option<int>) -> Option<usize> {
    match found {
        Some(r) => Some(r as usize),
        None => None,
    }
}

/// The bracket that closes the one opened before `from`.
pub fn scan_to_close(t: &Vec<char>, from: usize, open: char, close: char) -> (res: Option<usize>)
    ensures
        res == index_of(close_from(t@, from as int, open, close, 0)),
        res matches Some(r) ==> from <= r < t@.len() && t@[r as int] == close,
{
    proof {
        lemma_close_from(t@, from as int, open, close, 0);
    }
    let mut depth: usize = 0;
    let mut i = from;
    while i < t.len()
        invariant
            from <= i,
            depth <= i - from,
            close_from(t@, i as int, open, close, depth as nat) == close_from(
                t@,
                from as int,
                open,
                close,
                0,
            ),
        decreases t@.len() - i,
    {
        let c = t[i];
        if c == close {
            if depth == 0 {
                return Some(i);
            }
            depth = depth - 1;
        } else if c == open {
            depth = depth + 1;
        }
        i = i + 1;
    }
    None
}

/// The bracket that opens the one closed at or after `before`.
pub fn scan_to_open(t: &Vec<char>, before: usize, open: char, close: char) -> (res: Option<usize>)
    requires
        before <= t@.len(),
    ensures
        res == index_of(open_before(t@, before as int, open, close, 0)),
        res matches Some(r) ==> r < before && t@[r as int] == open,
{
    proof {
        lemma_open_before(t@, before as int, open, close, 0);
    }
    let mut depth: usize = 0;
    let mut k = before;
    while k > 0
        invariant
            k <= before <= t@.len(),
            depth <= before - k,
            open_before(t@, k as int, open, close, depth as nat) == open_before(
                t@,
                before as int,
                open,
                close,
                0,
            ),
        decreases k,
    {
        let c = t[k - 1];
        if c == open {
            if depth == 0 {
                return Some(k - 1);
            }
            depth = depth - 1;
        } else if c == close {
            depth = depth + 1;
        }
        k = k - 1;
    }
    None
}

/// The bracket pair that `c` belongs to, and whether `c` opens it.
pub open spec fn pair_of(c: char) -> Option<(char, char, bool)> {
    if c == '(' {
        Some(('(', ')', true))
    } else if c == ')' {
        Some(('(', ')', false))
    } else if c == '[' {
        Some(('[', ']', true))
    } else if c == ']' {
        Some(('[', ']', false))
    } else if c == '{' {
        Some(('{', '}', true))
    } else if c == '}' {
        Some(('{', '}', false))
    } else {
        None
    }
}

/// `%`: from the first bracket at or after `p` on the line (below `end`),
/// the bracket that matches it.
pub open spec fn bracket_match(t: Seq<char>, p: int, end: int) -> Option<int>
    decreases end - p,
{
    if p < 0 || p >= end || p >= t.len() {
        None
    } else {
        match pair_of(t[p]) {
            Some((o, c, true)) => close_from(t, p + 1, o, c, 0),
            Some((o, c, false)) => open_before(t, p, o, c, 0),
            None => bracket_match(t, p + 1, end),
        }
    }
}

fn bracket_pair(c: char) -> (res: Option<(char, char, bool)>)
    ensures
        res == pair_of(c),
{
    if c == '(' {
        Some(('(', ')', true))
    } else if c == ')' {
        Some(('(', ')', false))
    } else if c == '[' {
        Some(('[', ']', true))
    } else if c == ']' {
        Some(('[', ']', false))
    } else if c == '{' {
        Some(('{', '}', true))
    } else if c == '}' {
        Some(('{', '}', false))
    } else {
        None
    }
}

/// `%` (see [`bracket_match`]) from `pos` to the end of its line.
pub fn matching_bracket(t: &Vec<char>, pos: usize) -> (res: Option<usize>)
    requires
        pos <= t@.len(),
    ensures
        res == index_of(bracket_match(t@, pos as int, end_of_line(t@, breaks_before(t@, pos as int)))),
        res matches Some(r) ==> r < t@.len(),
{
    let end = line_end(t, line_of(t, pos));
    let mut p = pos;
    while p < end
        invariant
            pos <= p,
            end <= t@.len(),
            end == end_of_line(t@, breaks_before(t@, pos as int)),
            bracket_match(t@, p as int, end as int) == bracket_match(t@, pos as int, end as int),
        decreases end - p,
    {
        match bracket_pair(t[p]) {
            Some((o, c, true)) => {
                return scan_to_close(t, p + 1, o, c);
            },
            Some((o, c, false)) => {
                return scan_to_open(t, p, o, c);
            },
            None => {},
        }
        p = p + 1;
    }
    None
}

/// Whether line `l` is empty.
pub open spec fn line_empty(t: Seq<char>, l: nat) -> bool {
    start_of_line(t, l) == end_of_line(t, l)
}

/// From line `l` on (up to `last`), past the lines that are (or are not)
/// empty.
pub open spec fn lines_while(t: Seq<char>, l: nat, last: nat, empty: bool) -> nat
    decreases last - l,
{
    if l < last && line_empty(t, l) == empty {
        lines_while(t, l + 1, last, empty)
    } else {
        l
    }
}

/// From line `l` back, past the lines that are (or are not) empty.
pub open spec fn lines_back(t: Seq<char>, l: nat, empty: bool) -> nat
    decreases l,
{
    if l > 0 && line_empty(t, l) == empty {
        lines_back(t, (l - 1) as nat, empty)
    } else {
        l
    }
}

/// `}`: the empty line after the paragraph at `pos`, or the end.
pub open spec fn next_paragraph_of(t: Seq<char>, pos: int) -> int {
    let last = last_line_of(t);
    let l1 = lines_while(t, breaks_before(t, pos), last, true);
    let l2 = lines_while(t, l1, last, false);
    if line_empty(t, l2) {
        start_of_line(t, l2)
    } else {
        t.len() as int
    }
}

/// `{`: the empty line before the paragraph at `pos`, or the start.
pub open spec fn prev_paragraph_of(t: Seq<char>, pos: int) -> int {
    let l1 = lines_back(t, breaks_before(t, pos), true);
    start_of_line(t, lines_back(t, l1, false))
}

/// `}` (see [`next_paragraph_of`]).
pub fn next_paragraph(t: &Vec<char>, pos: usize) -> (res: usize)
    ensures
        res == next_paragraph_of(t@, pos as int),
        res <= t@.len(),
{
    let last = last_line(t);
    let mut line = line_of(t, pos);
    let ghost l0 = line as nat;
    while line < last && is_empty_line(t, line)
        invariant
            lines_while(t@, line as nat, last as nat, true) == lines_while(t@, l0, last as nat, true),
            last == last_line_of(t@),
        decreases last - line,
    {
        line = line + 1;
    }
    let ghost l1 = line as nat;
    while line < last && !is_empty_line(t, line)
        invariant
            lines_while(t@, line as nat, last as nat, false) == lines_while(t@, l1, last as nat, false),
            l1 == lines_while(t@, l0, last as nat, true),
            l0 == breaks_before(t@, pos as int),
            last == last_line_of(t@),
        decreases last - line,
    {
        line = line + 1;
    }
    if is_empty_line(t, line) {
        line_start(t, line)
    } else {
        t.len()
    }
}

/// `{` (see [`prev_paragraph_of`]).
pub fn prev_paragraph(t: &Vec<char>, pos: usize) -> (res: usize)
    ensures
        res == prev_paragraph_of(t@, pos as int),
        res <= t@.len(),
{
    let mut line = line_of(t, pos);
    let ghost l0 = line as nat;
    while line > 0 && is_empty_line(t, line)
        invariant
            lines_back(t@, line as nat, true) == lines_back(t@, l0, true),
        decreases line,
    {
        line = line - 1;
    }
    let ghost l1 = line as nat;
    while line > 0 && !is_empty_line(t, line)
        invariant
            lines_back(t@, line as nat, false) == lines_back(t@, l1, false),
            l1 == lines_back(t@, l0, true),
            l0 == breaks_before(t@, pos as int),
        decreases line,
    {
        line = line - 1;
    }
    line_start(t, line)
}


/// A span of the text `(start, end)` that lies within line `l`.
pub open spec fn within_line(t: Seq<char>, l: nat, span: (usize, usize)) -> bool {
    start_of_line(t, l) <= span.0 <= span.1 <= end_of_line(t, l) <= t.len()
}

/// Whether the character at `p` is on the line (no line break) and of
/// class `target`.
fn same_class(t: &Vec<char>, p: usize, target: u8, big: bool) -> (res: bool)
    ensures
        res == (p < t@.len() && t@[p as int] != '\n' && kind(t@[p as int], big) == target),
{
    p < t.len() && t[p] != '\n' && class(t[p], big) == target
}

fn is_blank_at(t: &Vec<char>, p: usize) -> (res: bool)
    ensures
        res == (p < t@.len() && blank(t@[p as int])),
{
    p < t.len() && (t[p] == ' ' || t[p] == '\t')
}

/// Where a run of class `c` that goes on at `i` ends, before `e` and
/// before a line break.
pub open spec fn class_end(t: Seq<char>, i: int, e: int, c: u8, big: bool) -> int
    decreases e - i,
{
    if 0 <= i < e && i < t.len() && t[i] != '\n' && kind(t[i], big) == c {
        class_end(t, i + 1, e, c, big)
    } else {
        i
    }
}

/// Where a run of class `c` that reaches back to `i` starts, not before
/// `s`.
pub open spec fn class_start(t: Seq<char>, i: int, s: int, c: u8, big: bool) -> int
    decreases i - s,
{
    if s < i <= t.len() && t[i - 1] != '\n' && kind(t[i - 1], big) == c {
        class_start(t, i - 1, s, c, big)
    } else {
        i
    }
}

/// Where the blanks from `i` end, before `e`.
pub open spec fn blank_end(t: Seq<char>, i: int, e: int) -> int
    decreases e - i,
{
    if 0 <= i < e && i < t.len() && blank(t[i]) {
        blank_end(t, i + 1, e)
    } else {
        i
    }
}

/// Where the blanks that reach back to `i` start, not before `s`.
pub open spec fn blank_start(t: Seq<char>, i: int, s: int) -> int
    decreases i - s,
{
    if s < i <= t.len() && blank(t[i - 1]) {
        blank_start(t, i - 1, s)
    } else {
        i
    }
}

/// The span of `iw` (or, `around`, `aw`) at `pos`: the run of characters
/// of its class on its line; around it, the blanks after it (or, where
/// there are none, those before it), or for a run of blanks the run after
/// it. None off the text or on a line break.
pub open spec fn word_span(t: Seq<char>, pos: int, big: bool, around: bool) -> Option<(int, int)> {
    if pos < 0 || pos >= t.len() || t[pos] == '\n' {
        None
    } else {
        let l = breaks_before(t, pos);
        let ls = start_of_line(t, l);
        let le = end_of_line(t, l);
        let c = kind(t[pos], big);
        let start = class_start(t, pos, ls, c, big);
        let end = class_end(t, pos + 1, le, c, big);
        if !around {
            Some((start, end))
        } else if c == 0 {
            if end < le {
                Some((start, class_end(t, end, le, kind(t[end], big), big)))
            } else {
                Some((start, end))
            }
        } else if end < t.len() && blank(t[end]) {
            Some((start, blank_end(t, end, le)))
        } else {
            Some((blank_start(t, start, ls), end))
        }
    }
}

/// `iw`, `aw`, `iW`, `aW`: the word (or run of blanks or punctuation) at
/// `pos`; with `around`, the blanks after it too (or, where there are
/// none, those before it), or for blanks the word after them (see
/// [`word_span`]).
pub fn word_object(t: &Vec<char>, pos: usize, big: bool, around: bool) -> (res: Option<(usize, usize)>)
    ensures
        res is Some <==> pos < t@.len() && t@[pos as int] != '\n',
        res matches Some(r) ==> within_line(t@, breaks_before(t@, pos as int), r) && r.0 <= pos
            < r.1,
        match word_span(t@, pos as int, big, around) {
            Some((a, b)) => res matches Some(r) && r.0 == a && r.1 == b,
            None => res is None,
        },
{
    if pos >= t.len() || t[pos] == '\n' {
        return None;
    }
    let line = line_of(t, pos);
    let ls = line_start(t, line);
    let le = line_end(t, line);
    proof {
        lemma_position_on_line(t@, pos as int);
        lemma_line_bounds(t@, line as nat);
    }
    assert(pos < le) by {
        if pos == le {
            assert(t@[pos as int] == '\n');
        }
    }
    let target = class(t[pos], big);
    let mut start = pos;
    while start > ls && same_class(t, start - 1, target, big)
        invariant
            ls <= start <= pos < t@.len(),
            class_start(t@, start as int, ls as int, target, big) == class_start(
                t@,
                pos as int,
                ls as int,
                target,
                big,
            ),
        decreases start,
    {
        start = start - 1;
    }
    let mut end = pos + 1;
    while end < le && same_class(t, end, target, big)
        invariant
            pos < end <= le <= t@.len(),
            class_end(t@, end as int, le as int, target, big) == class_end(
                t@,
                pos + 1,
                le as int,
                target,
                big,
            ),
        decreases le - end,
    {
        end = end + 1;
    }
    if !around {
        return Some((start, end));
    }
    let ghost inner_start = start as int;
    let ghost inner_end = end as int;
    if target == 0 {
        if end < le {
            let word = class(t[end], big);
            while end < le && class(t[end], big) == word
                invariant
                    pos < end <= le <= t@.len(),
                    le == end_of_line(t@, line as nat),
                    start_of_line(t@, line as nat) <= inner_end <= end,
                    forall|k: int| start_of_line(t@, line as nat) <= k < le ==> t@[k] != '\n',
                    class_end(t@, end as int, le as int, word, big) == class_end(
                        t@,
                        inner_end,
                        le as int,
                        word,
                        big,
                    ),
                decreases le - end,
            {
                end = end + 1;
            }
        }
    } else if is_blank_at(t, end) {
        while end < le && is_blank_at(t, end)
            invariant
                pos < end <= le <= t@.len(),
                blank_end(t@, end as int, le as int) == blank_end(t@, inner_end, le as int),
            decreases le - end,
        {
            end = end + 1;
        }
    } else {
        while start > ls && is_blank_at(t, start - 1)
            invariant
                ls <= start <= pos,
                pos < t@.len(),
                blank_start(t@, start as int, ls as int) == blank_start(t@, inner_start, ls as int),
            decreases start,
        {
            start = start - 1;
        }
    }
    Some((start, end))
}

/// Indices as integers.
pub open spec fn ints_of(v: Seq<usize>) -> Seq<int> {
    Seq::new(v.len(), |k: int| v[k] as int)
}

/// The positions of the quotes in `t[i..e]` that no backslash escapes
/// (`escaped` tells whether the character at `i` is escaped).
pub open spec fn quotes_from(t: Seq<char>, i: int, e: int, quote: char, escaped: bool) -> Seq<int>
    decreases e - i,
{
    if i >= e {
        Seq::empty()
    } else {
        let rest = quotes_from(t, i + 1, e, quote, t[i] == '\\' && !escaped);
        if t[i] == quote && !escaped {
            seq![i] + rest
        } else {
            rest
        }
    }
}

/// The first pair of quotes, pairing from the `j`-th, whose closing quote
/// is at or after `pos`.
pub open spec fn quote_pair(q: Seq<int>, j: int, pos: int) -> Option<(int, int)>
    decreases q.len() - j,
{
    if j < 0 || j + 2 > q.len() {
        None
    } else if q[j + 1] >= pos {
        Some((q[j], q[j + 1]))
    } else {
        quote_pair(q, j + 2, pos)
    }
}

/// The span of `i"` (or, `around`, of `a"`) at `pos`: the quotes of its
/// line pair up from the line's start, and the first pair that closes at
/// or after `pos` is taken.
pub open spec fn quote_span(t: Seq<char>, pos: int, quote: char, around: bool) -> Option<(int, int)> {
    let l = breaks_before(t, pos);
    match quote_pair(quotes_from(t, start_of_line(t, l), end_of_line(t, l), quote, false), 0, pos) {
        Some((o, c)) => Some(
            if around {
                (o, c + 1)
            } else {
                (o + 1, c)
            },
        ),
        None => None,
    }
}

/// `i"`, `a"` and the other quotes: the quoted text on the line of `pos`
/// that ends at or after `pos` (see [`quote_span`]); with `around`, the
/// quotes too.
pub fn quote_object(t: &Vec<char>, pos: usize, quote: char, around: bool) -> (res: Option<
    (usize, usize),
>)
    requires
        pos <= t@.len(),
    ensures
        res matches Some(r) ==> within_line(t@, breaks_before(t@, pos as int), r),
        match quote_span(t@, pos as int, quote, around) {
            Some((a, b)) => res matches Some(r) && r.0 == a && r.1 == b,
            None => res is None,
        },
{
    let line = line_of(t, pos);
    let ls = line_start(t, line);
    let le = line_end(t, line);
    proof {
        lemma_line_bounds(t@, line as nat);
    }
    let mut quotes: Vec<usize> = Vec::new();
    let mut escaped = false;
    let mut at = ls;
    while at < le
        invariant
            ls <= at <= le <= t@.len(),
            forall|j: int| 0 <= j < quotes@.len() ==> ls <= #[trigger] quotes@[j] < at,
            forall|j: int, k: int| 0 <= j < k < quotes@.len() ==> quotes@[j] < quotes@[k],
            ints_of(quotes@) + quotes_from(t@, at as int, le as int, quote, escaped) == quotes_from(
                t@,
                ls as int,
                le as int,
                quote,
                false,
            ),
        decreases le - at,
    {
        let c = t[at];
        let ghost before = ints_of(quotes@);
        if c == quote && !escaped {
            quotes.push(at);
            assert(ints_of(quotes@) =~= before.push(at as int));
        }
        proof {
            let rest = quotes_from(t@, at + 1, le as int, quote, c == '\\' && !escaped);
            if c == quote && !escaped {
                assert(before.push(at as int) + rest =~= before + (seq![at as int] + rest));
            }
        }
        escaped = c == '\\' && !escaped;
        at = at + 1;
    }
    let mut j: usize = 0;
    while j < quotes.len() && quotes.len() - j >= 2
        invariant
            j <= quotes@.len(),
            ls == start_of_line(t@, breaks_before(t@, pos as int)),
            le == end_of_line(t@, breaks_before(t@, pos as int)),
            le <= t@.len(),
            forall|i: int| 0 <= i < quotes@.len() ==> ls <= #[trigger] quotes@[i] < le,
            forall|a: int, b: int| 0 <= a < b < quotes@.len() ==> quotes@[a] < quotes@[b],
            j % 2 == 0,
            quote_pair(ints_of(quotes@), j as int, pos as int) == quote_pair(
                ints_of(quotes@),
                0,
                pos as int,
            ),
            ints_of(quotes@) == quotes_from(t@, ls as int, le as int, quote, false),
        decreases quotes@.len() - j,
    {
        let open = quotes[j];
        let close = quotes[j + 1];
        if close >= pos {
            return Some(
                if around {
                    (open, close + 1)
                } else {
                    (open + 1, close)
                },
            );
        }
        j = j + 2;
    }
    None
}

/// The span of `i(`, `a(` and the other brackets at `pos`: the brackets
/// are the one at `pos` (or else the nearest unclosed one before it) and
/// the one that closes it. Inside them, a block that starts with a line
/// break leaves out that break and, when its closing bracket is the first
/// character of its line, the indentation before it.
pub open spec fn bracket_span(t: Seq<char>, pos: int, open: char, close: char, around: bool) -> Option<
    (int, int),
> {
    let o = if pos < t.len() && t[pos] == open {
        Some(pos)
    } else {
        open_before(t, pos, open, close, 0)
    };
    match o {
        None => None,
        Some(oa) => match close_from(t, oa + 1, open, close, 0) {
            None => None,
            Some(ca) => if around {
                Some((oa, ca + 1))
            } else {
                let cl = breaks_before(t, ca);
                if oa + 1 < t.len() && t[oa + 1] == '\n' && cl > breaks_before(t, oa) {
                    let start = oa + 2;
                    let s = start_of_line(t, cl);
                    Some(
                        (
                            start,
                            if first_non_blank_of(t, cl) == ca {
                                if s > start {
                                    s
                                } else {
                                    start
                                }
                            } else {
                                ca
                            },
                        ),
                    )
                } else {
                    Some((oa + 1, ca))
                }
            },
        },
    }
}

/// `i(`, `a(` and the other brackets: the text inside the brackets around
/// `pos` (or opened at it), as [`bracket_span`] says; with `around`, the
/// brackets too.
pub fn bracket_object(t: &Vec<char>, pos: usize, open: char, close: char, around: bool) -> (res:
    Option<(usize, usize)>)
    requires
        pos <= t@.len(),
        open != '\n',
        close != '\n',
    ensures
        res matches Some(r) ==> r.0 <= r.1 <= t@.len(),
        match bracket_span(t@, pos as int, open, close, around) {
            Some((a, b)) => res matches Some(r) && r.0 == a && r.1 == b,
            None => res is None,
        },
{
    proof {
        lemma_open_before(t@, pos as int, open, close, 0);
    }
    let open_at = if pos < t.len() && t[pos] == open {
        pos
    } else {
        match scan_to_open(t, pos, open, close) {
            Some(p) => p,
            None => {
                return None;
            },
        }
    };
    proof {
        lemma_close_from(t@, open_at + 1, open, close, 0);
    }
    let close_at = match scan_to_close(t, open_at + 1, open, close) {
        Some(p) => p,
        None => {
            return None;
        },
    };
    if around {
        return Some((open_at, close_at + 1));
    }
    let mut start = open_at + 1;
    let mut end = close_at;
    let close_line = line_of(t, close_at);
    if start < t.len() && t[start] == '\n' && close_line > line_of(t, open_at) {
        assert(start < close_at);
        start = start + 1;
        proof {
            lemma_position_on_line(t@, close_at as int);
        }
        if first_non_blank(t, close_line) == close_at {
            let s = line_start(t, close_line);
            end = if s > start {
                s
            } else {
                start
            };
        }
    }
    Some((start, end))
}

/// The first word character at or after `p`, before `e`.
pub open spec fn first_word_char(t: Seq<char>, p: int, e: int) -> int
    decreases e - p,
{
    if 0 <= p < e && p < t.len() && !word_char(t[p]) {
        first_word_char(t, p + 1, e)
    } else {
        p
    }
}

/// The keyword under or after `pos` on its line: the word (in the small
/// sense) at the first word character from `pos` on.
pub open spec fn keyword_span(t: Seq<char>, pos: int) -> Option<(int, int)> {
    let e = end_of_line(t, breaks_before(t, pos));
    let p = first_word_char(t, pos, e);
    if p < e {
        word_span(t, p, false, false)
    } else {
        None
    }
}

/// The keyword under or after `pos` on its line, for `*` and `#`.
pub fn keyword_at(t: &Vec<char>, pos: usize) -> (res: Option<(usize, usize)>)
    ensures
        res matches Some(r) ==> r.0 < r.1 <= t@.len(),
        match keyword_span(t@, pos as int) {
            Some((a, b)) => res matches Some(r) && r.0 == a && r.1 == b,
            None => res is None,
        },
{
    let end = line_end(t, line_of(t, pos));
    let mut p = pos;
    while p < end && !is_word_char(t[p])
        invariant
            end <= t@.len(),
            end == end_of_line(t@, breaks_before(t@, pos as int)),
            pos <= p,
            first_word_char(t@, p as int, end as int) == first_word_char(t@, pos as int, end as int),
        decreases end - p,
    {
        p = p + 1;
    }
    if p < end {
        word_object(t, p, false, false)
    } else {
        None
    }
}

/// The last character of the word at `pos` (or `pos`, off a word).
pub fn end_of_word_at(t: &Vec<char>, pos: usize, big: bool) -> (res: usize)
    ensures
        res == pos || pos < res < t@.len(),
        res == match word_span(t@, pos as int, big, false) {
            Some((_, e)) => if e > pos {
                e - 1
            } else {
                pos as int
            },
            None => pos as int,
        },
{
    match word_object(t, pos, big, false) {
        Some((_, end)) if end > pos => end - 1,
        _ => pos,
    }
}


/// Later lines start no earlier.
pub proof fn lemma_start_grows(t: Seq<char>, a: nat, b: nat)
    requires
        a <= b,
    ensures
        start_of_line(t, a) <= start_of_line(t, b),
    decreases b - a,
{
    if a < b {
        lemma_start_grows(t, a, (b - 1) as nat);
        lemma_start_bounds(t, (b - 1) as nat);
        lemma_break_after_bounds(t, start_of_line(t, (b - 1) as nat));
    }
}

/// Later lines end no earlier.
pub proof fn lemma_end_grows(t: Seq<char>, a: nat, b: nat)
    requires
        a <= b,
    ensures
        end_of_line(t, a) <= end_of_line(t, b),
    decreases b - a,
{
    if a < b {
        lemma_end_grows(t, a, (b - 1) as nat);
        let l = (b - 1) as nat;
        lemma_start_bounds(t, l);
        lemma_break_after_bounds(t, start_of_line(t, l));
        let e = break_after(t, start_of_line(t, l));
        if e < t.len() {
            lemma_break_after_bounds(t, e + 1);
        }
    }
}


proof fn lemma_breaks_flat(t: Seq<char>, p: int, q: int)
    requires
        0 <= p <= q <= t.len(),
        forall|k: int| p <= k < q ==> t[k] != '\n',
    ensures
        breaks_before(t, q) == breaks_before(t, p),
    decreases q - p,
{
    if p < q {
        lemma_breaks_flat(t, p, q - 1);
    }
}

/// Line `l` of the text starts after exactly `l` line breaks.
pub proof fn lemma_line_of_start(t: Seq<char>, l: nat)
    requires
        l <= last_line_of(t),
    ensures
        breaks_before(t, start_of_line(t, l)) == l,
    decreases l,
{
    if l > 0 {
        let m = (l - 1) as nat;
        lemma_line_of_start(t, m);
        let p = start_of_line(t, m);
        lemma_start_bounds(t, m);
        lemma_break_after_bounds(t, p);
        let e = break_after(t, p);
        lemma_breaks_flat(t, p, e);
        if e >= t.len() {
            assert(breaks_before(t, t.len() as int) == m);
        }
    }
}

/// A line before the last ends with a line break.
pub proof fn lemma_break_after_end(t: Seq<char>, l: nat)
    requires
        l < last_line_of(t),
    ensures
        end_of_line(t, l) < t.len(),
{
    lemma_line_of_start(t, l);
    let s = start_of_line(t, l);
    lemma_start_bounds(t, l);
    lemma_break_after_bounds(t, s);
    if break_after(t, s) >= t.len() {
        lemma_breaks_flat(t, s, t.len() as int);
    }
}

} // verus!
