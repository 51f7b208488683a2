//! The Vim state machine: it reads keys, moves the cursor and the
//! selection, and answers with the edits and commands they make.
//!
//! Positions count characters (see [`super::buffer`]).

use vstd::prelude::*;
use crate::text::{push_char, space_char, trimmed, spells_chars, parse_usize, skip_space, trim_end, is_space, usize_of};
use super::buffer::{break_after, keyword_span, lemma_break_after_bounds, find_in_line_of, word_span, quote_span, bracket_span, starts_line, next_word_start_of, prev_word_start_of, word_end_of, prev_word_end_of, next_paragraph_of, prev_paragraph_of, first_non_blank_of, bracket_match, index_of, slice, lemma_break_after_end, lemma_breaks_at_most, lemma_breaks_grow, end_of_word_at, indentation, is_line_start, lemma_end_grows, lemma_start_grows, lines_range, last_line_of, word_object, quote_object, bracket_object, lemma_position_on_line, last_line, column, at_column, first_non_blank, next_word_start, prev_word_start, word_end, prev_word_end, matching_bracket, next_paragraph, prev_paragraph, keyword_at, prev, word_char, is_word_char, find_in_line, next, line_of, line_start, line_end, clamp_normal, lemma_line_bounds, breaks_before, start_of_line, end_of_line, normal_position};
use super::command::{Action, Cmd, Find, InsertAt, Motion, Object, Operator, PromptKind, Stop, Target, parse, parsed};
use super::{Clipboard, Command, Edit, Key, Mode, Outcome};

verus! {

/// How far half a page moves.
pub const HALF_PAGE: usize = 15;

/// A change applied to a text: the characters before its range, its new
/// text and the characters after the range.
pub open spec fn applied(t: Seq<char>, e: Edit) -> Seq<char> {
    t.take(e.range.start as int) + e.text@ + t.skip(e.range.end as int)
}

/// The text that applying `edits` in order to `t` gives, if each edit's
/// range lies within the text that the edits before it left.
pub open spec fn apply_all(t: Seq<char>, edits: Seq<Edit>) -> Option<Seq<char>>
    decreases edits.len(),
{
    if edits.len() == 0 {
        Some(t)
    } else {
        match apply_all(t, edits.drop_last()) {
            Some(u) => {
                let e = edits.last();
                if e.range.start <= e.range.end <= u.len() {
                    Some(applied(u, e))
                } else {
                    None
                }
            },
            None => None,
        }
    }
}

/// The text of a register and whether it holds whole lines.
pub struct Register {
    pub text: Vec<char>,
    pub linewise: bool,
}

impl Register {
    fn copy(&self) -> (res: Register)
        ensures
            res.text@ == self.text@,
            res.linewise == self.linewise,
    {
        Register { text: slice(&self.text, 0, self.text.len()), linewise: self.linewise }
    }
}

/// A register as plain values: its text and whether it holds lines.
pub open spec fn reg_view(r: Register) -> (Seq<char>, bool) {
    (r.text@, r.linewise)
}

/// What the first `n` registers keep under `name`: the first so named.
pub open spec fn reg_lookup(regs: Seq<(char, Register)>, name: char, n: int) -> Option<(Seq<char>, bool)>
    decreases n,
{
    if n <= 0 {
        None
    } else {
        match reg_lookup(regs, name, n - 1) {
            Some(x) => Some(x),
            None => if regs[n - 1].0 == name {
                Some(reg_view(regs[n - 1].1))
            } else {
                None
            },
        }
    }
}

/// What the registers keep under `name`.
pub open spec fn reg_of(regs: Seq<(char, Register)>, name: char) -> Option<(Seq<char>, bool)> {
    reg_lookup(regs, name, regs.len() as int)
}

/// What a paste from `register` can take: nothing from `_`; the named
/// register for a letter (either case); for `+` and `*` the clipboard, and
/// for the unnamed register the clipboard where it holds other text, else
/// the unnamed register (text from the clipboard counts as lines when it
/// ends with a line break).
pub open spec fn loaded(regs: Seq<(char, Register)>, register: Option<char>, res: Option<Register>) -> bool {
    let name = match register {
        Some(c) => c,
        None => '"',
    };
    let from_clipboard = res matches Some(r) && r.linewise == (r.text@.len() > 0 && r.text@.last()
        == '\n');
    if name == '_' {
        res is None
    } else if name == '+' || name == '*' {
        res is None || from_clipboard
    } else if ('a' <= name && name <= 'z') || ('A' <= name && name <= 'Z') {
        match reg_of(regs, ascii_lower(name)) {
            Some(v) => res matches Some(r) && reg_view(r) == v,
            None => res is None,
        }
    } else {
        &&& reg_of(regs, '"') is Some ==> res is Some
        &&& res matches Some(r) ==> (Some(reg_view(r)) == reg_of(regs, '"') || from_clipboard)
    }
}

/// What the clipboard has been written once `text` (whole lines when
/// `linewise`) is kept for `register`: nothing for `_`, else what the
/// unnamed register then holds, once.
pub open spec fn clip_kept(before: Seq<Seq<char>>, after: Seq<Seq<char>>, regs: Seq<(char, Register)>, register: Option<char>, text: Seq<char>, linewise: bool) -> bool {
    if register == Some('_') {
        after == before
    } else {
        stored_in(regs, register, text, linewise, '"') matches Some(kept) && after == before.push(kept.0)
    }
}

/// What register `m` holds after `text` (whole lines when `linewise`) is
/// kept for register `register`: `_` keeps nothing; an upper-case name
/// appends to its lower-case register; a lower-case one takes the text;
/// the unnamed register `"` takes what was kept, whatever the name.
pub open spec fn stored_in(regs: Seq<(char, Register)>, register: Option<char>, text: Seq<char>, linewise: bool, m: char) -> Option<(Seq<char>, bool)> {
    let name = match register {
        Some(c) => c,
        None => '"',
    };
    if name == '_' {
        reg_of(regs, m)
    } else if 'A' <= name && name <= 'Z' {
        let lower = ascii_lower(name);
        let entry = match reg_of(regs, lower) {
            Some((t0, l0)) => (t0 + text, l0 || linewise),
            None => (text, linewise),
        };
        if m == lower || m == '"' {
            Some(entry)
        } else {
            reg_of(regs, m)
        }
    } else if 'a' <= name && name <= 'z' {
        if m == name || m == '"' {
            Some((text, linewise))
        } else {
            reg_of(regs, m)
        }
    } else if m == '"' {
        Some((text, linewise))
    } else {
        reg_of(regs, m)
    }
}

proof fn lemma_lookup_prefix(a: Seq<(char, Register)>, b: Seq<(char, Register)>, name: char, n: int)
    requires
        0 <= n <= a.len(),
        n <= b.len(),
        forall|j: int| 0 <= j < n ==> a[j] == b[j],
    ensures
        reg_lookup(a, name, n) == reg_lookup(b, name, n),
    decreases n,
{
    if n > 0 {
        lemma_lookup_prefix(a, b, name, n - 1);
    }
}

proof fn lemma_lookup_absent(regs: Seq<(char, Register)>, name: char, n: int)
    requires
        0 <= n <= regs.len(),
        forall|j: int| 0 <= j < n ==> regs[j].0 != name,
    ensures
        reg_lookup(regs, name, n) is None,
    decreases n,
{
    if n > 0 {
        lemma_lookup_absent(regs, name, n - 1);
    }
}

proof fn lemma_lookup_first(regs: Seq<(char, Register)>, name: char, i: int, n: int)
    requires
        0 <= i < n <= regs.len(),
        regs[i].0 == name,
        forall|j: int| 0 <= j < i ==> regs[j].0 != name,
    ensures
        reg_lookup(regs, name, n) == Some(reg_view(regs[i].1)),
    decreases n,
{
    if n > i + 1 {
        lemma_lookup_first(regs, name, i, n - 1);
    } else {
        lemma_lookup_absent(regs, name, i);
    }
}

proof fn lemma_lookup_other(regs: Seq<(char, Register)>, i: int, x: (char, Register), m: char, n: int)
    requires
        0 <= i < regs.len(),
        0 <= n <= regs.len(),
        regs[i].0 == x.0,
        m != x.0,
    ensures
        reg_lookup(regs.update(i, x), m, n) == reg_lookup(regs, m, n),
    decreases n,
{
    if n > 0 {
        lemma_lookup_other(regs, i, x, m, n - 1);
    }
}

proof fn lemma_lookup_push(regs: Seq<(char, Register)>, x: (char, Register), m: char)
    ensures
        reg_of(regs.push(x), m) == match reg_of(regs, m) {
            Some(v) => Some(v),
            None => if x.0 == m {
                Some(reg_view(x.1))
            } else {
                None
            },
        },
{
    lemma_lookup_prefix(regs.push(x), regs, m, regs.len() as int);
}

/// The last change, for `.`: its command and, when it ended in insert
/// mode, the text typed there.
pub struct Change {
    pub cmd: Cmd,
    pub inserted: Option<Vec<char>>,
}

/// Insert mode as it started: the command that entered it, where and at
/// what length of the text, and how many times the typed text is to be
/// inserted.
pub struct Insertion {
    pub cmd: Option<Cmd>,
    pub start: usize,
    pub len: usize,
    pub count: usize,
}

/// An open prompt and the text typed into it.
pub struct Prompt {
    pub kind: PromptKind,
    pub text: Vec<char>,
}

/// The last search.
pub struct Search {
    pub pattern: Vec<char>,
    pub forward: bool,
    pub whole_word: bool,
}

/// How a motion covers text for an operator.
#[derive(Clone, Copy, PartialEq, Eq, Structural)]
pub enum Kind {
    Exclusive,
    Inclusive,
    Linewise,
}

/// What an operator covers: characters `start..end`, or lines.
#[derive(Clone, Copy, PartialEq, Eq, Structural)]
pub enum Span {
    Chars(usize, usize),
    Lines(usize, usize),
}

/// A key being handled: the text as the edits so far left it and the
/// outcome being built.
pub struct Ctx {
    pub text: Vec<char>,
    pub out: Outcome,
    pub orig: Ghost<Seq<char>>,
}

impl Ctx {
    /// The edits so far take the original text to the current one.
    pub open spec fn wf(&self) -> bool {
        apply_all(self.orig@, self.out.edits@) == Some(self.text@)
    }

    /// Replaces `start..end` with `s`, recording the edit (a change that
    /// changes nothing is not recorded).
    pub fn replace(&mut self, start: usize, end: usize, s: &Vec<char>)
        requires
            old(self).wf(),
            start <= end <= old(self).text@.len(),
        ensures
            final(self).wf(),
            final(self).orig == old(self).orig,
            final(self).text@ == old(self).text@.take(start as int) + s@ + old(self).text@.skip(
                end as int,
            ),
            final(self).out.commands@ == old(self).out.commands@,
            final(self).out.message == old(self).out.message,
            edits_made(old(self).out.edits@, final(self).out.edits@, Some((start as int, end as int, s@))),
    {
        if start == end && s.len() == 0 {
            assert(self.text@.take(start as int) + s@ + self.text@.skip(end as int) =~= self.text@);
            return;
        }
        let mut text = slice(&self.text, 0, start);
        let mut k: usize = 0;
        while k < s.len()
            invariant
                k <= s@.len(),
                text@ == old(self).text@.take(start as int) + s@.take(k as int),
            decreases s@.len() - k,
        {
            text.push(s[k]);
            k = k + 1;
            assert(text@ =~= old(self).text@.take(start as int) + s@.take(k as int));
        }
        let mut j = end;
        let n = self.text.len();
        while j < n
            invariant
                end <= j <= n == old(self).text@.len(),
                self.text@ == old(self).text@,
                text@ == old(self).text@.take(start as int) + s@ + old(self).text@.subrange(
                    end as int,
                    j as int,
                ),
            decreases n - j,
        {
            text.push(self.text[j]);
            j = j + 1;
            assert(text@ =~= old(self).text@.take(start as int) + s@ + old(self).text@.subrange(
                end as int,
                j as int,
            ));
        }
        assert(s@.take(s@.len() as int) =~= s@);
        assert(old(self).text@.subrange(end as int, n as int) =~= old(self).text@.skip(end as int));
        let edit = Edit { range: start..end, text: string_of(s) };
        let ghost before = self.out.edits@;
        self.out.edits.push(edit);
        proof {
            assert(self.out.edits@.drop_last() =~= before);
        }
        self.text = text;
    }
}

/// Whether `after` is `before` with the edit `e` (a range replaced by a
/// text) added, as [`Ctx::replace`] records it: an edit that replaces
/// nothing by nothing is not added, and no edit adds nothing.
pub open spec fn edits_made(before: Seq<Edit>, after: Seq<Edit>, e: Option<(int, int, Seq<char>)>) -> bool {
    match e {
        Some((a, b, s)) => if a == b && s.len() == 0 {
            after == before
        } else {
            &&& after.len() == before.len() + 1
            &&& after.drop_last() == before
            &&& after.last().range.start == a
            &&& after.last().range.end == b
            &&& after.last().text@ == s
        },
        None => after == before,
    }
}

/// A `String` holding the characters `s`.
pub fn string_of(s: &Vec<char>) -> (res: String)
    ensures
        res@ == s@,
{
    let mut out = String::new();
    let mut k: usize = 0;
    while k < s.len()
        invariant
            k <= s@.len(),
            out@ == s@.take(k as int),
        decreases s@.len() - k,
    {
        push_char(&mut out, s[k]);
        k = k + 1;
        assert(out@ =~= s@.take(k as int));
    }
    assert(s@.take(s@.len() as int) =~= s@);
    out
}

/// The characters of `s`.
pub fn chars_of(s: &str) -> (res: Vec<char>)
    ensures
        res@ == s@,
{
    broadcast use vstd::string::group_string_axioms;

    let mut out: Vec<char> = Vec::new();
    for c in it: s.chars()
        invariant
            out@ == it.seq().take(it.index() as int),
    {
        out.push(c);
    }
    out
}

/// `s` repeated `count` times.
pub fn repeated(s: &Vec<char>, count: usize) -> (res: Vec<char>)
    ensures
        res@.len() == s@.len() * count,
        forall|i: int| 0 <= i < res@.len() ==> res@[i] == s@[i % (s@.len() as int)],
{
    let mut out: Vec<char> = Vec::new();
    let mut r: usize = 0;
    while r < count
        invariant
            r <= count,
            out@.len() == s@.len() * r,
            forall|i: int| 0 <= i < out@.len() ==> out@[i] == s@[i % (s@.len() as int)],
        decreases count - r,
    {
        let mut k: usize = 0;
        let ghost base = out@.len();
        while k < s.len()
            invariant
                k <= s@.len(),
                base == s@.len() * r,
                out@.len() == base + k,
                forall|i: int| 0 <= i < out@.len() ==> out@[i] == s@[i % (s@.len() as int)],
            decreases s@.len() - k,
        {
            proof {
                assert((base + k) % (s@.len() as int) == k) by (nonlinear_arith)
                    requires
                        base == s@.len() * r,
                        0 <= k < s@.len(),
                ;
            }
            out.push(s[k]);
            k = k + 1;
        }
        proof {
            assert(s@.len() * (r + 1) == s@.len() * r + s@.len()) by (nonlinear_arith);
        }
        r = r + 1;
    }
    out
}


/// Text with each `\r\n` turned into `\n` (pairs read from the start).
pub open spec fn without_cr(s: Seq<char>) -> Seq<char>
    decreases s.len(),
{
    if s.len() == 0 {
        s
    } else if s.len() >= 2 && s[0] == '\r' && s[1] == '\n' {
        seq!['\n'] + without_cr(s.skip(2))
    } else {
        seq![s[0]] + without_cr(s.skip(1))
    }
}

/// Turns each `\r\n` of `s` into `\n` (see [`without_cr`]).
pub fn crlf_to_lf(s: &Vec<char>) -> (res: Vec<char>)
    ensures
        res@ == without_cr(s@),
{
    let mut out: Vec<char> = Vec::new();
    let mut i: usize = 0;
    assert(s@.skip(0) =~= s@);
    assert(out@ + without_cr(s@) =~= without_cr(s@));
    while i < s.len()
        invariant
            i <= s@.len(),
            out@ + without_cr(s@.skip(i as int)) == without_cr(s@),
        decreases s@.len() - i,
    {
        let ghost rest = s@.skip(i as int);
        if s.len() - i >= 2 && s[i] == '\r' && s[i + 1] == '\n' {
            assert(rest.skip(2) =~= s@.skip(i + 2));
            out.push('\n');
            i = i + 2;
        } else {
            assert(rest.skip(1) =~= s@.skip(i + 1));
            out.push(s[i]);
            i = i + 1;
        }
        assert(out@ + without_cr(s@.skip(i as int)) =~= without_cr(s@));
    }
    assert(s@.skip(i as int) =~= Seq::<char>::empty());
    assert(out@ + without_cr(s@.skip(i as int)) =~= out@);
    out
}

/// The upper-case form of an ASCII letter (other characters as they are).
pub open spec fn ascii_upper(c: char) -> char {
    if 'a' <= c <= 'z' {
        ((c as u32) - 32) as char
    } else {
        c
    }
}

/// The lower-case form of an ASCII letter (other characters as they are).
pub open spec fn ascii_lower(c: char) -> char {
    if 'A' <= c <= 'Z' {
        ((c as u32) + 32) as char
    } else {
        c
    }
}

fn to_ascii_upper(c: char) -> (res: char)
    ensures
        res == ascii_upper(c),
{
    if 'a' <= c && c <= 'z' {
        ((c as u8) - 32) as char
    } else {
        c
    }
}

fn to_ascii_lower(c: char) -> (res: char)
    ensures
        res == ascii_lower(c),
{
    if 'A' <= c && c <= 'Z' {
        ((c as u8) + 32) as char
    } else {
        c
    }
}

/// Whether two texts are the same.
pub fn same_text(a: &Vec<char>, b: &Vec<char>) -> (res: bool)
    ensures
        res == (a@ == b@),
{
    if a.len() != b.len() {
        return false;
    }
    let mut k: usize = 0;
    while k < a.len()
        invariant
            k <= a@.len() == b@.len(),
            forall|j: int| 0 <= j < k ==> a@[j] == b@[j],
        decreases a@.len() - k,
    {
        if a[k] != b[k] {
            return false;
        }
        k = k + 1;
    }
    assert(a@ =~= b@);
    true
}

/// The Vim state of one editor.
pub struct Vim {
    mode: Mode,
    cursor: usize,
    anchor: usize,
    column: Option<usize>,
    keys: Vec<Key>,
    prompt: Option<Prompt>,
    registers: Vec<(char, Register)>,
    last_find: Option<Find>,
    search: Option<Search>,
    last_change: Option<Change>,
    insertion: Option<Insertion>,
    shift_width: usize,
    written: Ghost<Seq<Seq<char>>>,
}

/// What the selection is in `mode`: from `anchor` to `cursor` with the
/// character under the later one, or the whole lines they are on; in
/// normal and insert mode, the cursor alone. Reported as `(anchor side,
/// cursor side)`.
pub open spec fn selection_of(t: Seq<char>, mode: Mode, anchor: int, cursor: int) -> (int, int) {
    let a = if anchor < t.len() {
        anchor
    } else {
        t.len() as int
    };
    let c = if cursor < t.len() {
        cursor
    } else {
        t.len() as int
    };
    let after = |p: int|
        if p < t.len() {
            p + 1
        } else {
            t.len() as int
        };
    match mode {
        Mode::Visual => if c >= a {
            (a, after(c))
        } else {
            (after(a), c)
        },
        Mode::VisualLine => {
            let (from, to) = (breaks_before(t, a), breaks_before(t, c));
            if to >= from {
                (start_of_line(t, from), end_of_line(t, to))
            } else {
                (end_of_line(t, from), start_of_line(t, to))
            }
        },
        _ => (c, c),
    }
}

impl Vim {
    /// The mode.
    pub closed spec fn mode_of(&self) -> Mode {
        self.mode
    }

    /// Where the cursor is.
    pub closed spec fn cursor_at(&self) -> usize {
        self.cursor
    }

    /// Where the selection started.
    pub closed spec fn anchor_at(&self) -> usize {
        self.anchor
    }

    /// The keys of a command not yet complete.
    pub closed spec fn pending_keys(&self) -> Seq<Key> {
        self.keys@
    }

    /// How many spaces `>` indents by.
    pub closed spec fn shift_width_of(&self) -> usize {
        self.shift_width
    }

    /// The column vertical moves keep to, once one has set it.
    pub closed spec fn goal_column(&self) -> Option<usize> {
        self.column
    }

    /// The last search: its pattern, direction and whether it matches
    /// whole words only.
    pub closed spec fn search_of(&self) -> Option<(Seq<char>, bool, bool)> {
        search_view(self.search)
    }

    /// The last change, which `.` repeats: its command and whether text
    /// typed in insert mode was kept with it.
    pub closed spec fn last_change_of(&self) -> Option<(Cmd, bool)> {
        match self.last_change {
            Some(ch) => Some((ch.cmd, ch.inserted is Some)),
            None => None,
        }
    }

    /// The last `f`, `F`, `t` or `T`, which `;` and `,` repeat.
    pub closed spec fn last_find_of(&self) -> Option<Find> {
        self.last_find
    }

    /// The texts this state has written to the clipboard, in order.
    pub closed spec fn clipboard_log(&self) -> Seq<Seq<char>> {
        self.written@
    }

    /// The registers, each name with what it holds, the latest first.
    pub closed spec fn registers_view(&self) -> Seq<(char, Register)> {
        self.registers@
    }

    /// The prompt being typed: its kind and text.
    pub closed spec fn prompt_of(&self) -> Option<(PromptKind, Seq<char>)> {
        match self.prompt {
            Some(p) => Some((p.kind, p.text@)),
            None => None,
        }
    }

    /// A new editor state in normal mode, indenting by `shift_width`
    /// spaces.
    pub fn new(shift_width: usize) -> (res: Self)
        ensures
            res.mode_of() == Mode::Normal,
            res.cursor_at() == 0,
            res.anchor_at() == 0,
            res.goal_column() is None,
            res.pending_keys().len() == 0,
            res.prompt_of() is None,
            res.shift_width_of() == shift_width,
            res.clipboard_log().len() == 0,
    {
        Vim {
            mode: Mode::Normal,
            cursor: 0,
            anchor: 0,
            column: None,
            keys: Vec::new(),
            prompt: None,
            registers: Vec::new(),
            last_find: None,
            search: None,
            last_change: None,
            insertion: None,
            shift_width,
            written: Ghost(Seq::empty()),
        }
    }

    /// The mode.
    pub fn mode(&self) -> (res: Mode)
        ensures
            res == self.mode_of(),
    {
        self.mode
    }

    fn is_visual(&self) -> (res: bool)
        ensures
            res == (self.mode == Mode::Visual || self.mode == Mode::VisualLine),
    {
        self.mode == Mode::Visual || self.mode == Mode::VisualLine
    }

    /// The keys of the command being typed, for the status bar: typed
    /// characters as they are, control keys as `^` and the letter.
    pub fn pending(&self) -> (res: String)
        ensures
            res@ == pending_text(self.pending_keys()),
    {
        let mut out = String::new();
        let mut k: usize = 0;
        while k < self.keys.len()
            invariant
                k <= self.keys@.len(),
                out@ == pending_text(self.keys@.take(k as int)),
            decreases self.keys@.len() - k,
        {
            assert(self.keys@.take(k + 1).drop_last() =~= self.keys@.take(k as int));
            match self.keys[k] {
                Key::Char(c) => push_char(&mut out, c),
                Key::Ctrl(c) => {
                    push_char(&mut out, '^');
                    push_char(&mut out, to_ascii_upper(c));
                },
                _ => {},
            }
            k = k + 1;
        }
        assert(self.keys@.take(self.keys@.len() as int) =~= self.keys@);
        out
    }

    /// The open prompt as shown: `:`, `/` or `?` and the text typed.
    pub fn prompt(&self) -> (res: Option<String>)
        ensures
            res is Some <==> self.prompt_of() is Some,
            res matches Some(s) ==> self.prompt_of() matches Some((kind, typed)) && s@ == seq![
                prompt_prefix(kind),
            ] + typed,
    {
        match &self.prompt {
            None => None,
            Some(p) => {
                let mut out = String::new();
                push_char(
                    &mut out,
                    match p.kind {
                        PromptKind::Command => ':',
                        PromptKind::Search { forward: true } => '/',
                        PromptKind::Search { forward: false } => '?',
                    },
                );
                let mut k: usize = 0;
                while k < p.text.len()
                    invariant
                        k <= p.text@.len(),
                        out@ == seq![prompt_prefix(p.kind)] + p.text@.take(k as int),
                    decreases p.text@.len() - k,
                {
                    push_char(&mut out, p.text[k]);
                    k = k + 1;
                    assert(out@ =~= seq![prompt_prefix(p.kind)] + p.text@.take(k as int));
                }
                assert(p.text@.take(p.text@.len() as int) =~= p.text@);
                Some(out)
            },
        }
    }

    /// The selection on `text`, as `(anchor side, cursor side)` (see
    /// [`selection_of`]).
    pub fn selection(&self, text: &str) -> (res: (usize, usize))
        ensures
            res.0 == selection_of(text@, self.mode_of(), self.anchor_at() as int, self.cursor_at() as int).0,
            res.1 == selection_of(text@, self.mode_of(), self.anchor_at() as int, self.cursor_at() as int).1,
    {
        let t = chars_of(text);
        self.selection_in(&t)
    }

    fn selection_in(&self, t: &Vec<char>) -> (res: (usize, usize))
        ensures
            res.0 == selection_of(t@, self.mode, self.anchor as int, self.cursor as int).0,
            res.1 == selection_of(t@, self.mode, self.anchor as int, self.cursor as int).1,
            res.0 <= t@.len(),
            res.1 <= t@.len(),
    {
        let anchor = if self.anchor < t.len() {
            self.anchor
        } else {
            t.len()
        };
        let cursor = if self.cursor < t.len() {
            self.cursor
        } else {
            t.len()
        };
        match self.mode {
            Mode::Visual => if cursor >= anchor {
                (anchor, next(t, cursor))
            } else {
                (next(t, anchor), cursor)
            },
            Mode::VisualLine => {
                let from = line_of(t, anchor);
                let to = line_of(t, cursor);
                proof {
                    lemma_line_bounds(t@, from as nat);
                    lemma_line_bounds(t@, to as nat);
                }
                if to >= from {
                    (line_start(t, from), line_end(t, to))
                } else {
                    (line_end(t, from), line_start(t, to))
                }
            },
            _ => (cursor, cursor),
        }
    }

    /// Adopts a cursor or selection that changed outside Vim: a selection
    /// enters visual mode (the cursor on its last character), a bare
    /// cursor normal mode; insert mode takes the new cursor as it is.
    pub fn sync(&mut self, text: &str, anchor: usize, head: usize)
        ensures
            final(self).clipboard_log() == old(self).clipboard_log(),
            sync_result(
                text@,
                old(self).mode_of(),
                anchor as int,
                head as int,
                final(self).mode_of(),
                final(self).anchor_at() as int,
                final(self).cursor_at() as int,
                old(self).anchor_at() as int,
            ),
            final(self).pending_keys().len() == 0,
            final(self).prompt_of() == old(self).prompt_of(),
            final(self).goal_column() is None,
            final(self).shift_width_of() == old(self).shift_width_of(),
            final(self).registers_view() == old(self).registers_view(),
    {
        let t = chars_of(text);
        let anchor = if anchor < t.len() {
            anchor
        } else {
            t.len()
        };
        let head = if head < t.len() {
            head
        } else {
            t.len()
        };
        self.keys = Vec::new();
        self.column = None;
        if self.mode == Mode::Insert {
            self.cursor = head;
        } else if anchor != head {
            if !self.is_visual() {
                self.mode = Mode::Visual;
            }
            if head > anchor {
                self.anchor = anchor;
                self.cursor = head - 1;
            } else {
                self.anchor = anchor - 1;
                self.cursor = head;
            }
        } else {
            self.mode = Mode::Normal;
            self.cursor = clamp_normal(&t, head);
        }
    }

    /// Back to normal mode with the cursor at `cursor` (moved onto a
    /// character of its line), dropping pending keys, prompt and insert.
    pub fn reset(&mut self, text: &str, cursor: usize)
        ensures
            final(self).clipboard_log() == old(self).clipboard_log(),
            final(self).mode_of() == Mode::Normal,
            final(self).cursor_at() == normal_position(
                text@,
                if cursor < text@.len() {
                    cursor as int
                } else {
                    text@.len() as int
                },
            ),
            final(self).pending_keys().len() == 0,
            final(self).prompt_of() is None,
    {
        let t = chars_of(text);
        self.mode = Mode::Normal;
        self.keys = Vec::new();
        self.prompt = None;
        self.insertion = None;
        self.column = None;
        let c = if cursor < t.len() {
            cursor
        } else {
            t.len()
        };
        self.cursor = clamp_normal(&t, c);
    }

    fn register_index(&self, name: char) -> (res: Option<usize>)
        ensures
            res matches Some(i) ==> i < self.registers@.len() && self.registers@[i as int].0
                == name,
            match res {
                Some(i) => forall|j: int| 0 <= j < i ==> self.registers@[j].0 != name,
                None => forall|j: int| 0 <= j < self.registers@.len() ==> self.registers@[j].0 != name,
            },
    {
        let mut k: usize = 0;
        while k < self.registers.len()
            invariant
                k <= self.registers@.len(),
                forall|j: int| 0 <= j < k ==> self.registers@[j].0 != name,
            decreases self.registers@.len() - k,
        {
            if self.registers[k].0 == name {
                return Some(k);
            }
            k = k + 1;
        }
        None
    }

    fn get_register(&self, name: char) -> (res: Option<Register>)
        ensures
            match reg_of(self.registers@, name) {
                Some(v) => res matches Some(r) && reg_view(r) == v,
                None => res is None,
            },
    {
        match self.register_index(name) {
            Some(i) => {
                proof {
                    lemma_lookup_first(self.registers@, name, i as int, self.registers@.len() as int);
                }
                Some(self.registers[i].1.copy())
            },
            None => {
                proof {
                    lemma_lookup_absent(self.registers@, name, self.registers@.len() as int);
                }
                None
            },
        }
    }

    fn set_register(&mut self, name: char, r: Register)
        ensures
            final(self).written == old(self).written,
            final(self).mode == old(self).mode,
            final(self).cursor == old(self).cursor,
            final(self).anchor == old(self).anchor,
            final(self).prompt == old(self).prompt,
            final(self).keys == old(self).keys,
            final(self).insertion == old(self).insertion,
            reg_of(final(self).registers@, name) == Some(reg_view(r)),
            forall|m: char| m != name ==> #[trigger] reg_of(final(self).registers@, m) == reg_of(
                old(self).registers@,
                m,
            ),
    {
        let ghost rv = reg_view(r);
        match self.register_index(name) {
            Some(i) => {
                let ghost before = self.registers@;
                self.registers.set(i, (name, r));
                proof {
                    let after = self.registers@;
                    assert(after == before.update(i as int, (name, r)));
                    assert forall|j: int| 0 <= j < i implies after[j].0 != name by {
                        assert(after[j] == before[j]);
                    }
                    lemma_lookup_first(after, name, i as int, after.len() as int);
                    assert forall|m: char| m != name implies #[trigger] reg_of(after, m) == reg_of(before, m) by {
                        lemma_lookup_other(before, i as int, (name, r), m, before.len() as int);
                    }
                }
            },
            None => {
                let ghost before = self.registers@;
                self.registers.push((name, r));
                proof {
                    lemma_lookup_absent(before, name, before.len() as int);
                    lemma_lookup_push(before, (name, r), name);
                    assert forall|m: char| m != name implies #[trigger] reg_of(self.registers@, m) == reg_of(before, m) by {
                        lemma_lookup_push(before, (name, r), m);
                    }
                }
            },
        }
    }

    /// Keeps yanked or deleted text in the register named (the unnamed
    /// one by default; an upper-case name appends; `_` keeps nothing) and
    /// in the unnamed register and the clipboard.
    fn store<C: Clipboard>(&mut self, register: Option<char>, text: Vec<char>, linewise: bool, clip: &mut C)
        ensures
            final(self).mode == old(self).mode,
            final(self).cursor == old(self).cursor,
            final(self).anchor == old(self).anchor,
            final(self).prompt == old(self).prompt,
            final(self).keys == old(self).keys,
            final(self).insertion == old(self).insertion,
            forall|m: char| #[trigger] reg_of(final(self).registers@, m) == stored_in(
                old(self).registers@,
                register,
                text@,
                linewise,
                m,
            ),
            clip_kept(old(self).written@, final(self).written@, old(self).registers@, register, text@, linewise),
    {
        let ghost regs = self.registers@;
        let ghost given = text@;
        let name = match register {
            Some(c) => c,
            None => '"',
        };
        if name == '_' {
            return;
        }
        let ghost mut key: char = name;
        let stored = if 'A' <= name && name <= 'Z' {
            let lower = to_ascii_lower(name);
            proof {
                key = lower;
            }
            let mut entry = match self.get_register(lower) {
                Some(r) => r,
                None => Register { text: Vec::new(), linewise },
            };
            let ghost start = entry.text@;
            let ghost l0 = entry.linewise;
            assert((start, l0) == match reg_of(regs, lower) {
                Some(v) => v,
                None => (Seq::<char>::empty(), linewise),
            });
            let mut k: usize = 0;
            while k < text.len()
                invariant
                    k <= text@.len(),
                    entry.text@ == start + text@.take(k as int),
                    entry.linewise == l0,
                decreases text@.len() - k,
            {
                entry.text.push(text[k]);
                k = k + 1;
                assert(entry.text@ =~= start + text@.take(k as int));
            }
            assert(text@.take(k as int) =~= text@);
            entry.linewise = entry.linewise || linewise;
            assert(reg_view(entry) == match reg_of(regs, lower) {
                Some((t0, l0)) => (t0 + given, l0 || linewise),
                None => (given, linewise),
            });
            self.set_register(lower, entry.copy());
            entry
        } else {
            let stored = Register { text, linewise };
            if 'a' <= name && name <= 'z' {
                self.set_register(name, stored.copy());
            }
            stored
        };
        let ghost mid = self.registers@;
        let ghost kept = reg_view(stored);
        proof {
            let entry = match reg_of(regs, ascii_lower(name)) {
                Some((t0, l0)) => (t0 + given, l0 || linewise),
                None => (given, linewise),
            };
            if 'A' <= name && name <= 'Z' {
                assert(kept == entry);
                assert(reg_of(mid, key) == Some(kept));
            } else {
                assert(kept == (given, linewise));
                if 'a' <= name && name <= 'z' {
                    assert(reg_of(mid, name) == Some(kept));
                } else {
                    assert(mid == regs);
                }
            }
        }
        clip.write(string_of(&stored.text));
        self.written = Ghost(self.written@.push(stored.text@));
        self.set_register('"', stored);
        proof {
            assert forall|m: char| #[trigger] reg_of(self.registers@, m) == stored_in(regs, register, given, linewise, m) by {
                if m != '"' {
                    assert(reg_of(self.registers@, m) == reg_of(mid, m));
                    if 'A' <= name && name <= 'Z' {
                        if m != key {
                            assert(reg_of(mid, m) == reg_of(regs, m));
                        }
                    } else if 'a' <= name && name <= 'z' {
                        if m != name {
                            assert(reg_of(mid, m) == reg_of(regs, m));
                        }
                    }
                }
            }
        }
    }

    /// The register to paste: `_` holds nothing, `+` and `*` are the
    /// clipboard, letters their registers; the unnamed register gives way
    /// to the clipboard when that holds other text.
    fn load<C: Clipboard>(&mut self, register: Option<char>, clip: &mut C) -> (res: Option<Register>)
        ensures
            final(self).mode == old(self).mode,
            final(self).cursor == old(self).cursor,
            final(self).anchor == old(self).anchor,
            final(self).prompt == old(self).prompt,
            final(self).keys == old(self).keys,
            final(self).insertion == old(self).insertion,
            final(self).registers@ == old(self).registers@,
            loaded(old(self).registers@, register, res),
            final(self).written@ == old(self).written@,
    {
        let name = match register {
            Some(c) => c,
            None => '"',
        };
        if name == '_' {
            None
        } else if name == '+' || name == '*' {
            read_clipboard(clip)
        } else if ('a' <= name && name <= 'z') || ('A' <= name && name <= 'Z') {
            self.get_register(to_ascii_lower(name))
        } else {
            let unnamed = self.get_register('"');
            match read_clipboard(clip) {
                Some(copied) => {
                    let differs = match &unnamed {
                        None => true,
                        Some(u) => !same_text(&u.text, &copied.text),
                    };
                    if differs {
                        Some(copied)
                    } else {
                        unnamed
                    }
                },
                None => unnamed,
            }
        }
    }
}

/// The clipboard's text as a register (line breaks as `\n`; whole lines
/// when it ends with one).
fn read_clipboard<C: Clipboard>(clip: &mut C) -> (res: Option<Register>)
    ensures
        res matches Some(r) ==> r.linewise == (r.text@.len() > 0 && r.text@.last() == '\n'),
{
    match clip.read() {
        Some(s) => {
            let raw = chars_of(s.as_str());
            let text = crlf_to_lf(&raw);
            let linewise = text.len() > 0 && text[text.len() - 1] == '\n';
            Some(Register { text, linewise })
        },
        None => None,
    }
}

/// The text the status bar shows for pending keys.
pub open spec fn pending_text(keys: Seq<Key>) -> Seq<char>
    decreases keys.len(),
{
    if keys.len() == 0 {
        Seq::empty()
    } else {
        pending_text(keys.drop_last()) + match keys.last() {
            Key::Char(c) => seq![c],
            Key::Ctrl(c) => seq!['^', ascii_upper(c)],
            _ => Seq::empty(),
        }
    }
}

/// The character a prompt is shown with.
pub open spec fn prompt_prefix(kind: PromptKind) -> char {
    match kind {
        PromptKind::Command => ':',
        PromptKind::Search { forward: true } => '/',
        PromptKind::Search { forward: false } => '?',
    }
}

/// What [`Vim::sync`] does: positions are clamped to the text; insert mode
/// takes the head as the cursor; a selection keeps (or enters) visual
/// mode with the cursor on its last character; a bare cursor enters
/// normal mode on a character of its line.
pub open spec fn sync_result(
    t: Seq<char>,
    mode: Mode,
    anchor: int,
    head: int,
    new_mode: Mode,
    new_anchor: int,
    new_cursor: int,
    old_anchor: int,
) -> bool {
    let a = if anchor < t.len() {
        anchor
    } else {
        t.len() as int
    };
    let h = if head < t.len() {
        head
    } else {
        t.len() as int
    };
    if mode == Mode::Insert {
        new_mode == Mode::Insert && new_cursor == h && new_anchor == old_anchor
    } else if a != h {
        &&& new_mode == (if mode == Mode::VisualLine {
            Mode::VisualLine
        } else {
            Mode::Visual
        })
        &&& if h > a {
            new_anchor == a && new_cursor == h - 1
        } else {
            new_anchor == a - 1 && new_cursor == h
        }
    } else {
        new_mode == Mode::Normal && new_cursor == normal_position(t, h) && new_anchor == old_anchor
    }
}


/// Whether `pat` occurs in `t` at `p`.
pub open spec fn occurs(t: Seq<char>, p: int, pat: Seq<char>) -> bool {
    0 <= p && p + pat.len() <= t.len() && t.subrange(p, p + pat.len()) == pat
}

/// Whether a match of length `m` at `p` stands as a whole word (when
/// that is asked for): no word character right before or after it.
pub open spec fn whole_at(t: Seq<char>, p: int, m: int, whole: bool) -> bool {
    !whole || (!(p > 0 && p - 1 < t.len() && word_char(t[p - 1])) && !(0 <= p + m < t.len()
        && word_char(t[p + m])))
}

/// A match that a search accepts at `p`.
pub open spec fn found_at(t: Seq<char>, p: int, pat: Seq<char>, whole: bool) -> bool {
    occurs(t, p, pat) && whole_at(t, p, pat.len() as int, whole)
}

fn matches_at(t: &Vec<char>, p: usize, pat: &Vec<char>) -> (res: bool)
    ensures
        res == occurs(t@, p as int, pat@),
{
    let m = pat.len();
    if p > t.len() || m > t.len() - p {
        return false;
    }
    let end = p + m;
    let mut k: usize = 0;
    while k < m
        invariant
            k <= m == pat@.len(),
            end == p + m,
            p + m <= t@.len(),
            forall|j: int| 0 <= j < k ==> t@[p + j] == pat@[j],
        decreases m - k,
    {
        if t[p + k] != pat[k] {
            assert(t@.subrange(p as int, p + m)[k as int] != pat@[k as int]);
            return false;
        }
        k = k + 1;
    }
    assert(t@.subrange(p as int, p + m) =~= pat@);
    true
}

fn is_whole(t: &Vec<char>, p: usize, m: usize, whole: bool) -> (res: bool)
    ensures
        res == whole_at(t@, p as int, m as int, whole),
{
    if !whole {
        return true;
    }
    let before = p > 0 && p - 1 < t.len() && is_word_char(t[p - 1]);
    let after = p < t.len() && m < t.len() - p && is_word_char(t[p + m]);
    !before && !after
}

/// The first accepted match at or after `lo` (and at most `last`).
fn scan_forward(t: &Vec<char>, pat: &Vec<char>, lo: usize, last: usize, whole: bool) -> (res: Option<usize>)
    ensures
        res matches Some(ix) ==> lo <= ix <= last && found_at(t@, ix as int, pat@, whole)
            && forall|j: int| lo <= j < ix ==> !found_at(t@, j, pat@, whole),
        res is None ==> forall|j: int| lo <= j <= last ==> !found_at(t@, j, pat@, whole),
{
    let mut ix = lo;
    while ix <= last && ix <= t.len() && pat.len() <= t.len() - ix
        invariant
            lo <= ix,
            forall|j: int| lo <= j < ix ==> !found_at(t@, j, pat@, whole),
        decreases t@.len() + 1 - ix,
    {
        if matches_at(t, ix, pat) && is_whole(t, ix, pat.len(), whole) {
            return Some(ix);
        }
        if ix == usize::MAX {
            return None;
        }
        ix = ix + 1;
    }
    None
}

/// The last accepted match at or before `hi` (and at least `first`).
fn scan_backward(t: &Vec<char>, pat: &Vec<char>, first: usize, hi: usize, whole: bool) -> (res: Option<usize>)
    ensures
        res matches Some(ix) ==> first <= ix <= hi && found_at(t@, ix as int, pat@, whole)
            && forall|j: int| ix < j <= hi ==> !found_at(t@, j, pat@, whole),
        res is None ==> forall|j: int| first <= j <= hi ==> !found_at(t@, j, pat@, whole),
{
    if pat.len() > t.len() {
        return None;
    }
    let top = t.len() - pat.len();
    let start = if hi < top {
        hi
    } else {
        top
    };
    if start < first {
        return None;
    }
    let mut ix = start;
    loop
        invariant
            first <= ix <= start <= hi,
            start <= top,
            top + pat@.len() == t@.len(),
            forall|j: int| ix < j <= hi ==> !found_at(t@, j, pat@, whole),
        decreases ix,
    {
        if matches_at(t, ix, pat) && is_whole(t, ix, pat.len(), whole) {
            return Some(ix);
        }
        if ix == first {
            return None;
        }
        ix = ix - 1;
    }
}

/// A fixed message as a `String`.
fn message_of(text: &str) -> (res: String)
    ensures
        res@ == text@,
{
    text.to_owned()
}

/// Where the first word of `u[a..e]` ends: at its first whitespace.
pub open spec fn word_stop(u: Seq<char>, w: int, e: int) -> int
    decreases e - w,
{
    if w < e && 0 <= w < u.len() && !is_space(u[w]) {
        word_stop(u, w + 1, e)
    } else {
        w
    }
}

/// An ex command line cut up: where its name starts and ends, and where
/// its argument (after the first whitespace, trimmed) starts and ends.
pub open spec fn ex_parts(u: Seq<char>) -> (int, int, int, int) {
    let n = u.len() as int;
    let a = skip_space(u, 0, n);
    let e = trim_end(u, a, n, |c: char| is_space(c));
    let w = word_stop(u, a, e);
    let b = if w < e {
        skip_space(u, w + 1, e)
    } else {
        e
    };
    let f = if w < e {
        trim_end(u, b, e, |c: char| is_space(c))
    } else {
        e
    };
    (a, w, b, f)
}

/// The commands an ex command line `u` asks the editor for, by its name
/// (with the argument `arg` for `:w` and `:e`), in order.
pub open spec fn ex_commands(word: Seq<char>, arg: Seq<char>, pushed: Seq<Command>) -> bool {
    let has_arg = arg.len() > 0;
    if word.len() == 0 || (word == "noh"@ || word == "nohlsearch"@) {
        pushed.len() == 0
    } else if (word == "w"@ || word == "write"@) {
        if has_arg {
            pushed.len() == 1 && (pushed[0] matches Command::WriteAs(p) && p@ == arg)
        } else {
            pushed =~= seq![Command::Write]
        }
    } else if (word == "wa"@ || word == "wall"@) {
        pushed =~= seq![Command::WriteAll]
    } else if (word == "q"@ || word == "quit"@ || word == "close"@ || word == "bd"@ || word == "bdelete"@) {
        pushed =~= seq![Command::Close { force: false }]
    } else if (word == "q!"@ || word == "quit!"@ || word == "bd!"@ || word == "bdelete!"@) {
        pushed =~= seq![Command::Close { force: true }]
    } else if (word == "wq"@ || word == "x"@ || word == "xit"@ || word == "exit"@) {
        pushed =~= seq![Command::Write, Command::Close { force: false }]
    } else if (word == "qa"@ || word == "qall"@ || word == "quitall"@) {
        pushed =~= seq![Command::CloseAll { force: false }]
    } else if (word == "qa!"@ || word == "qall!"@ || word == "quitall!"@) {
        pushed =~= seq![Command::CloseAll { force: true }]
    } else if (word == "wqa"@ || word == "wqall"@ || word == "xa"@ || word == "xall"@) {
        pushed =~= seq![Command::WriteAll, Command::CloseAll { force: false }]
    } else if (word == "bn"@ || word == "bnext"@ || word == "tabn"@ || word == "tabnext"@) {
        pushed =~= seq![Command::NextBuffer]
    } else if (word == "bp"@ || word == "bprevious"@ || word == "bprev"@ || word == "bN"@ || word == "bNext"@ || word == "tabp"@ || word == "tabprevious"@ || word == "tabN"@ || word == "tabNext"@) {
        pushed =~= seq![Command::PreviousBuffer]
    } else if has_arg && (word == "e"@ || word == "edit"@ || word == "tabe"@ || word == "tabedit"@ || word == "tabnew"@ || word == "enew"@ || word == "new"@) {
        pushed.len() == 1 && (pushed[0] matches Command::Open(p) && p@ == arg)
    } else if (word == "enew"@ || word == "tabnew"@ || word == "new"@) {
        pushed =~= seq![Command::NewBuffer]
    } else {
        pushed.len() == 0
    }
}

/// Whether an ex command name asks for a command of the editor (or does
/// nothing), rather than a line to go to.
pub open spec fn ex_named(word: Seq<char>, arg: Seq<char>) -> bool {
    word.len() == 0 || (word == "noh"@ || word == "nohlsearch"@ || word == "w"@ || word == "write"@ || word == "wa"@ || word == "wall"@ || word == "q"@ || word == "quit"@ || word == "close"@ || word == "bd"@ || word == "bdelete"@ || word == "q!"@ || word == "quit!"@ || word == "bd!"@ || word == "bdelete!"@ || word == "wq"@ || word == "x"@ || word == "xit"@ || word == "exit"@ || word == "qa"@ || word == "qall"@ || word == "quitall"@ || word == "qa!"@ || word == "qall!"@ || word == "quitall!"@ || word == "wqa"@ || word == "wqall"@ || word == "xa"@ || word == "xall"@ || word == "bn"@ || word == "bnext"@ || word == "tabn"@ || word == "tabnext"@ || word == "bp"@ || word == "bprevious"@ || word == "bprev"@ || word == "bN"@ || word == "bNext"@ || word == "tabp"@ || word == "tabprevious"@ || word == "tabN"@ || word == "tabNext"@ || word == "enew"@ || word == "tabnew"@ || word == "new"@)
        || (arg.len() > 0 && (word == "e"@ || word == "edit"@ || word == "tabe"@ || word == "tabedit"@ || word == "tabnew"@ || word == "enew"@ || word == "new"@))
}

/// The message an ex command line `u` shows: for a name that is no
/// command, no line number and not `$`, that it is not a command, with the
/// trimmed line; else none.
pub open spec fn ex_message(u: Seq<char>) -> Option<Seq<char>> {
    let (a, w, b, f) = ex_parts(u);
    let e = trim_end(u, a, u.len() as int, |c: char| is_space(c));
    let word = u.subrange(a, w);
    if !ex_named(word, u.subrange(b, f)) && word != "$"@ && usize_of(u, a, w) is None {
        Some("Not an editor command: "@ + u.subrange(a, e))
    } else {
        None
    }
}

/// What running the ex command line `u` adds to an outcome: the commands
/// it asks for after those there were, and its message if it has one.
pub open spec fn ex_ran(u: Seq<char>, before: Outcome, after: Outcome) -> bool {
    let (a, w, b, f) = ex_parts(u);
    let n = before.commands@.len() as int;
    &&& after.commands@.len() >= n
    &&& after.commands@.take(n) == before.commands@
    &&& ex_commands(u.subrange(a, w), u.subrange(b, f), after.commands@.skip(n))
    &&& match ex_message(u) {
        Some(m) => message_view(after.message) == Some(m),
        None => after.message == before.message,
    }
}

/// A message as plain text.
pub open spec fn message_view(m: Option<String>) -> Option<Seq<char>> {
    match m {
        Some(s) => Some(s@),
        None => None,
    }
}

/// Where an ex command line leaves the cursor in `t`: `:$` on the last
/// line, `:N` on line N (the last when past it), both at the first
/// non-blank; else where it was.
pub open spec fn ex_cursor(u: Seq<char>, t: Seq<char>, cursor: int) -> int {
    let (a, w, b, f) = ex_parts(u);
    let word = u.subrange(a, w);
    let arg = u.subrange(b, f);
    if ex_named(word, arg) {
        cursor
    } else if word == "$"@ {
        first_non_blank_of(t, last_line_of(t))
    } else {
        match usize_of(u, a, w) {
            Some(number) => {
                let wanted = if number > 0 {
                    number - 1
                } else {
                    0
                };
                first_non_blank_of(t, if wanted < last_line_of(t) { wanted as nat } else { last_line_of(t) })
            },
            None => cursor,
        }
    }
}

/// The search to repeat, as plain values: its pattern, direction and
/// whether it matches whole words.
pub open spec fn search_view(s: Option<Search>) -> Option<(Seq<char>, bool, bool)> {
    match s {
        Some(x) => Some((x.pattern@, x.forward, x.whole_word)),
        None => None,
    }
}

/// Where a search for `pat` from `from` lands: forward, the first match
/// after `from`, else (wrapping) the first from the start; backward, the
/// last match that ends by `from`, else (wrapping) the last from `from`
/// on; none when there is no match at all.
pub open spec fn search_hit(t: Seq<char>, from: int, pat: Seq<char>, whole: bool, forward: bool, res: Option<usize>) -> bool {
    let m = pat.len() as int;
    if forward {
        let after = if from < t.len() {
            from + 1
        } else {
            t.len() as int
        };
        let none_after = forall|j: int| after <= j <= usize::MAX ==> !#[trigger] found_at(t, j, pat, whole);
        match res {
            Some(ix) => found_at(t, ix as int, pat, whole) && ((after <= ix && forall|j: int|
                after <= j < ix ==> !#[trigger] found_at(t, j, pat, whole)) || (none_after && ix <= from
                && forall|j: int| 0 <= j < ix ==> !#[trigger] found_at(t, j, pat, whole))),
            None => none_after && forall|j: int| 0 <= j <= from ==> !#[trigger] found_at(t, j, pat, whole),
        }
    } else {
        let none_before = m > from || forall|j: int| 0 <= j <= from - m ==> !#[trigger] found_at(t, j, pat, whole);
        match res {
            Some(ix) => found_at(t, ix as int, pat, whole) && ((m <= from && ix <= from - m && forall|j: int|
                ix < j <= from - m ==> !#[trigger] found_at(t, j, pat, whole)) || (none_before && from <= ix
                && forall|j: int| ix < j <= usize::MAX ==> !#[trigger] found_at(t, j, pat, whole))),
            None => none_before && forall|j: int| from <= j <= usize::MAX ==> !#[trigger] found_at(t, j, pat, whole),
        }
    }
}

/// A search from `from` finds one place at most: see [`search_hit`].
pub proof fn lemma_search_hit_unique(t: Seq<char>, from: int, pat: Seq<char>, whole: bool, forward: bool, r1: Option<usize>, r2: Option<usize>)
    requires
        search_hit(t, from, pat, whole, forward, r1),
        search_hit(t, from, pat, whole, forward, r2),
    ensures
        r1 == r2,
{
    match (r1, r2) {
        (Some(a), Some(b)) => {
            if a < b {
                assert(found_at(t, a as int, pat, whole));
            } else if b < a {
                assert(found_at(t, b as int, pat, whole));
            }
        },
        (Some(a), None) => {
            assert(found_at(t, a as int, pat, whole));
        },
        (None, Some(b)) => {
            assert(found_at(t, b as int, pat, whole));
        },
        (None, None) => {},
    }
}

/// Once a search finds nothing, the searches after it find nothing.
proof fn lemma_hits_stop(t: Seq<char>, from: int, pat: Seq<char>, whole: bool, forward: bool, k: nat, n: nat)
    requires
        k <= n,
        hits_from(t, from, pat, whole, forward, k) is None,
    ensures
        hits_from(t, from, pat, whole, forward, n) is None,
    decreases n - k,
{
    if k < n {
        assert(hits_from(t, from, pat, whole, forward, (k + 1) as nat) is None);
        lemma_hits_stop(t, from, pat, whole, forward, (k + 1) as nat, n);
    }
}

/// The place a search from `from` finds (see [`search_hit`]).
pub open spec fn next_hit(t: Seq<char>, from: int, pat: Seq<char>, whole: bool, forward: bool) -> Option<usize> {
    choose|r: Option<usize>| search_hit(t, from, pat, whole, forward, r)
}

/// Where `k` searches in a row from `from` lead, each from the place the
/// one before found; none once one finds nothing.
pub open spec fn hits_from(t: Seq<char>, from: int, pat: Seq<char>, whole: bool, forward: bool, k: nat) -> Option<int>
    decreases k,
{
    if k == 0 {
        Some(from)
    } else {
        match hits_from(t, from, pat, whole, forward, (k - 1) as nat) {
            None => None,
            Some(p) => match next_hit(t, p, pat, whole, forward) {
                Some(q) => Some(q as int),
                None => None,
            },
        }
    }
}

impl Vim {
    /// Finds the search pattern from `from`: forward from the character
    /// after it, wrapping to the start; or back from before it, wrapping
    /// to the end. Sets the message for a miss or a wrap.
    fn find_match(&self, t: &Vec<char>, from: usize, forward: bool, message: &mut Option<String>) -> (res: Option<usize>)
        requires
            from <= t@.len(),
        ensures
            res matches Some(ix) ==> ix <= t@.len(),
            match self.search {
                None => res is None,
                Some(sr) => search_hit(t@, from as int, sr.pattern@, sr.whole_word, forward, res),
            },
    {
        let search = match &self.search {
            Some(s) => s,
            None => {
                return None;
            },
        };
        let pat = &search.pattern;
        let whole = search.whole_word;
        let (found, wrapped) = if forward {
            let after = next(t, from);
            match scan_forward(t, pat, after, usize::MAX, whole) {
                Some(ix) => (Some(ix), false),
                None => (scan_forward(t, pat, 0, from, whole), true),
            }
        } else {
            let behind = if pat.len() <= from {
                scan_backward(t, pat, 0, from - pat.len(), whole)
            } else {
                None
            };
            match behind {
                Some(ix) => (Some(ix), false),
                None => (scan_backward(t, pat, from, usize::MAX, whole), true),
            }
        };
        *message = match found {
            None => {
                let mut m = message_of("Pattern not found: ");
                let mut k: usize = 0;
                while k < pat.len()
                    decreases pat@.len() - k,
                {
                    push_char(&mut m, pat[k]);
                    k = k + 1;
                }
                Some(m)
            },
            Some(_) => if !wrapped {
                None
            } else if forward {
                Some(message_of("Search hit BOTTOM, continuing at TOP"))
            } else {
                Some(message_of("Search hit TOP, continuing at BOTTOM"))
            },
        };
        found
    }
}

/// Where `f`, `F`, `t` or `T` puts the cursor from `from`: on the
/// `count`-th `find.target` in that direction on the line (a repeated `t`
/// or `T` starts one character further, so as not to stay put), or next to
/// it for `t` and `T`; inclusive forward, exclusive backward.
pub open spec fn find_char_of(t: Seq<char>, from: int, find: Find, count: nat, repeat: bool) -> Option<(int, Kind)> {
    let start = if repeat && find.till {
        if find.forward {
            if from < t.len() {
                from + 1
            } else {
                t.len() as int
            }
        } else if from > 0 {
            from - 1
        } else {
            0
        }
    } else {
        from
    };
    match find_in_line_of(t, start, find.target, find.forward, count) {
        None => None,
        Some(f) => Some(
            (
                if find.till {
                    if find.forward {
                        if f > 0 {
                            f - 1
                        } else {
                            0
                        }
                    } else if f < t.len() {
                        f + 1
                    } else {
                        t.len() as int
                    }
                } else {
                    f
                },
                if find.forward {
                    Kind::Inclusive
                } else {
                    Kind::Exclusive
                },
            ),
        ),
    }
}

/// Where `f`, `F`, `t`, `T` (`Find`) and `;`, `,` (`RepeatFind`, which
/// repeat the last find `last`) take the cursor from `from`, and how they
/// cover text: see [`find_char_of`].
pub open spec fn find_target(t: Seq<char>, from: int, last: Option<Find>, m: Motion, count: Option<usize>) -> Option<(int, Kind)> {
    match m {
        Motion::Find(f) => find_char_of(t, from, f, times(count) as nat, false),
        Motion::RepeatFind { reverse } => match last {
            None => None,
            Some(f) => find_char_of(t, from, repeated_find(f, reverse), times(count) as nat, true),
        },
        _ => None,
    }
}

/// Where a find moves the cursor: onto a character of its line, or
/// nowhere when the character is not found.
pub open spec fn find_moved_to(t: Seq<char>, from: int, last: Option<Find>, m: Motion, count: Option<usize>) -> int {
    match find_target(t, from, last, m, count) {
        Some((p, _)) => normal_position(t, p),
        None => from,
    }
}

/// Where `n`, `N` (`SearchNext`, which repeat the last search `search`,
/// `N` the other way) and `*`, `#` (`SearchWord`, which search for the
/// word under the cursor) take the cursor from `from`: as many searches in
/// a row as the count asks (see [`hits_from`]); none when one finds
/// nothing.
pub open spec fn searched_to(t: Seq<char>, from: int, search: Option<(Seq<char>, bool, bool)>, m: Motion, count: Option<usize>) -> Option<int> {
    match m {
        Motion::SearchNext { reverse } => match search {
            None => None,
            Some((p, fwd, whole)) => hits_from(t, from, p, whole, fwd != reverse, times(count) as nat),
        },
        Motion::SearchWord { forward } => match keyword_span(t, from) {
            None => None,
            Some((a, b)) => hits_from(t, a, t.subrange(a, b), true, forward, times(count) as nat),
        },
        _ => None,
    }
}

/// Where a search motion moves the cursor: onto a character of its line,
/// or nowhere when a search finds nothing.
pub open spec fn search_moved_to(t: Seq<char>, from: int, search: Option<(Seq<char>, bool, bool)>, m: Motion, count: Option<usize>) -> int {
    match searched_to(t, from, search, m, count) {
        Some(p) => normal_position(t, p),
        None => from,
    }
}

/// The last find after a motion: a find becomes it.
pub open spec fn last_find_after(last: Option<Find>, m: Motion) -> Option<Find> {
    match m {
        Motion::Find(f) => Some(f),
        _ => last,
    }
}

/// A found place as the motion gives it.
pub open spec fn found_as(found: Option<(int, Kind)>, res: Option<(usize, Kind)>) -> bool {
    match found {
        Some((p, k)) => res matches Some((q, j)) && q == p && j == k,
        None => res is None,
    }
}

/// The find that `;` (or `,` when `reverse`) repeats after `f`: the same
/// character and kind, the direction turned for `,`.
pub open spec fn repeated_find(f: Find, reverse: bool) -> Find {
    Find { forward: f.forward != reverse, till: f.till, target: f.target }
}

/// `f`, `F`, `t`, `T` (and their repeats): where the search for
/// `find.target` within the line puts the cursor (see [`find_char_of`]).
fn find_char(t: &Vec<char>, from: usize, find: Find, count: usize, repeat: bool) -> (res: Option<(usize, Kind)>)
    requires
        from <= t@.len(),
    ensures
        res matches Some((p, _)) ==> p <= t@.len(),
        match find_char_of(t@, from as int, find, count as nat, repeat) {
            Some((p, k)) => res matches Some((q, j)) && q == p && j == k,
            None => res is None,
        },
{
    let start = if repeat && find.till {
        if find.forward {
            next(t, from)
        } else {
            prev(from)
        }
    } else {
        from
    };
    let found = match find_in_line(t, start, find.target, find.forward, count) {
        Some(p) => p,
        None => {
            return None;
        },
    };
    let n = t.len();
    proof {
        let x = find_in_line_of(t@, start as int, find.target, find.forward, count as nat);
        assert(n == t@.len());
        assert(x is Some);
        let f = x->0;
        assert(0 <= f < t@.len());
        assert(found == f as usize);
        assert(found as int == f);
    }
    let pos = if find.till {
        if find.forward {
            prev(found)
        } else {
            next(t, found)
        }
    } else {
        found
    };
    Some(
        (
            pos,
            if find.forward {
                Kind::Inclusive
            } else {
                Kind::Exclusive
            },
        ),
    )
}

/// `line + n - 1`, at most `last`.
fn lines_down(line: usize, n: usize, last: usize) -> (res: usize)
    requires
        line <= last,
        n >= 1,
    ensures
        res == if line + n - 1 <= last {
            line + n - 1
        } else {
            last as int
        },
{
    if n - 1 >= last - line {
        last
    } else {
        line + n - 1
    }
}


/// How many times a motion moves for a count: at least once.
pub open spec fn times(count: Option<usize>) -> int {
    match count {
        Some(c) => if c > 1 {
            c as int
        } else {
            1
        },
        None => 1,
    }
}

/// One step of a motion that repeats a single move.
pub open spec fn step_of(t: Seq<char>, motion: Motion, p: int) -> int {
    match motion {
        Motion::PrevWordStart { big } => prev_word_start_of(t, p, big),
        Motion::WordEnd { big } => word_end_of(t, p, big),
        Motion::PrevWordEnd { big } => prev_word_end_of(t, p, big),
        Motion::NextParagraph => next_paragraph_of(t, p),
        Motion::PrevParagraph => prev_paragraph_of(t, p),
        _ => p,
    }
}

/// `k` steps of a repeating motion from `p`.
pub open spec fn steps(t: Seq<char>, motion: Motion, p: int, k: nat) -> int
    decreases k,
{
    if k == 0 {
        p
    } else {
        steps(t, motion, step_of(t, motion, p), (k - 1) as nat)
    }
}

/// `k` moves to the next word start from `p`; for an operator the last
/// one stops at the end of its line rather than cross into the next.
pub open spec fn word_starts(t: Seq<char>, p: int, k: nat, big: bool, operator: bool) -> int
    decreases k,
{
    if k == 0 {
        p
    } else {
        let n = next_word_start_of(t, p, big);
        let e = end_of_line(t, breaks_before(t, p));
        let q = if operator && k == 1 && breaks_before(t, n) > breaks_before(t, p) {
            if e > p {
                e
            } else {
                p
            }
        } else {
            n
        };
        word_starts(t, q, (k - 1) as nat, big, operator)
    }
}

/// The motions whose target depends on the text, the cursor and the goal
/// column alone (not on an earlier search or find).
pub open spec fn plain_motion(m: Motion) -> bool {
    !(m is Find || m is RepeatFind || m is SearchNext || m is SearchWord)
}

/// Where a plain motion takes the cursor from `from`, with the goal column
/// `goal` for vertical moves, and how it covers text; none when it cannot
/// move. With `operator`, `l` may reach the end of the line, `$` covers it
/// exclusively and `w` stops at the end of its line.
pub open spec fn motion_result(
    t: Seq<char>,
    from: int,
    goal: Option<usize>,
    motion: Motion,
    count: Option<usize>,
    operator: bool,
) -> Option<(int, Kind)> {
    let n = times(count);
    let line = breaks_before(t, from);
    let last = last_line_of(t);
    let down_to = if line + n - 1 <= last {
        line + n - 1
    } else {
        last as int
    };
    match motion {
        Motion::Left => {
            let start = start_of_line(t, line);
            if from <= start {
                None
            } else {
                Some((if n >= from - start { start } else { from - n }, Kind::Exclusive))
            }
        },
        Motion::Right => {
            let end = end_of_line(t, line);
            let limit = if operator {
                end
            } else {
                normal_position(t, end)
            };
            if from >= limit {
                None
            } else {
                Some((if n >= limit - from { limit } else { from + n }, Kind::Exclusive))
            }
        },
        Motion::Up | Motion::Down | Motion::HalfPageUp | Motion::HalfPageDown => {
            let lines: int = match motion {
                Motion::HalfPageUp | Motion::HalfPageDown => if n > usize::MAX / HALF_PAGE {
                    usize::MAX as int
                } else {
                    n * HALF_PAGE
                },
                _ => n,
            };
            let up = motion is Up || motion is HalfPageUp;
            if (up && line == 0) || (!up && line >= last) {
                None
            } else {
                let target: nat = if up {
                    if lines >= line {
                        0
                    } else {
                        (line - lines) as nat
                    }
                } else {
                    if lines >= last - line {
                        last
                    } else {
                        (line + lines) as nat
                    }
                };
                let col: int = match goal {
                    Some(c) => c as int,
                    None => from - start_of_line(t, line),
                };
                let s = start_of_line(t, target);
                let e = end_of_line(t, target);
                Some((if s + col < e { s + col } else { e }, Kind::Linewise))
            }
        },
        Motion::LineStart => Some((start_of_line(t, line), Kind::Exclusive)),
        Motion::FirstNonBlank => Some((first_non_blank_of(t, line), Kind::Exclusive)),
        Motion::LineEnd => Some(
            (
                end_of_line(t, down_to as nat),
                if operator {
                    Kind::Exclusive
                } else {
                    Kind::Inclusive
                },
            ),
        ),
        Motion::NextWordStart { big } => {
            let p = word_starts(t, from, n as nat, big, operator);
            if p == from {
                None
            } else {
                Some((p, Kind::Exclusive))
            }
        },
        Motion::PrevWordStart { .. } | Motion::NextParagraph | Motion::PrevParagraph => Some(
            (steps(t, motion, from, n as nat), Kind::Exclusive),
        ),
        Motion::WordEnd { .. } | Motion::PrevWordEnd { .. } => Some(
            (steps(t, motion, from, n as nat), Kind::Inclusive),
        ),
        Motion::FirstLine | Motion::LastLine => {
            let wanted: int = match count {
                Some(c) => if c > 0 {
                    c - 1
                } else {
                    0
                },
                None => if motion is FirstLine {
                    0
                } else {
                    last as int
                },
            };
            Some(
                (
                    first_non_blank_of(t, if wanted < last { wanted as nat } else { last }),
                    Kind::Linewise,
                ),
            )
        },
        Motion::MatchingBracket => match index_of(bracket_match(t, from, end_of_line(t, line))) {
            Some(p) => Some((p as int, Kind::Inclusive)),
            None => None,
        },
        Motion::NextLine => if line >= last {
            None
        } else {
            Some(
                (
                    first_non_blank_of(t, if n >= last - line { last } else { (line + n) as nat }),
                    Kind::Linewise,
                ),
            )
        },
        Motion::PrevLine => if line == 0 {
            None
        } else {
            Some(
                (
                    first_non_blank_of(t, if n >= line { 0 } else { (line - n) as nat }),
                    Kind::Linewise,
                ),
            )
        },
        Motion::CurrentLine => Some((first_non_blank_of(t, down_to as nat), Kind::Linewise)),
        _ => None,
    }
}

/// Where a plain motion leaves the cursor: on a character of its line,
/// but at the end of the line for `$` in visual mode; where it was when the
/// motion cannot move.
pub open spec fn moved_to(t: Seq<char>, from: int, goal: Option<usize>, motion: Motion, count: Option<usize>, visual: bool) -> int {
    match motion_result(t, from, goal, motion, count, false) {
        Some((p, _)) => if motion == Motion::LineEnd && visual {
            p
        } else {
            normal_position(t, p)
        },
        None => from,
    }
}

/// What a key that completes a move leaves: no edit and no command, the
/// mode as it was, and for a plain motion the cursor where the motion
/// takes it (from the cursor kept within the text), on a character of its
/// line in normal mode; a find (or its repeat) moves as
/// [`find_moved_to`] says and becomes the last find; a search motion moves
/// as [`search_moved_to`] says.
#[verifier::opaque]
pub open spec fn key_moved(t: Seq<char>, before: Vim, after: Vim, out: Outcome, m: Motion, count: Option<usize>) -> bool {
    let from = if before.cursor_at() <= t.len() {
        before.cursor_at() as int
    } else {
        t.len() as int
    };
    let visual = before.mode_of() == Mode::Visual || before.mode_of() == Mode::VisualLine;
    let to = moved_to(
        t,
        from,
        if vertical(m) {
            before.goal_column()
        } else {
            None
        },
        m,
        count,
        visual,
    );
    &&& out.edits@.len() == 0
    &&& out.commands@.len() == 0
    &&& after.mode_of() == before.mode_of()
    &&& plain_motion(m) ==> after.cursor_at() == (if before.mode_of() == Mode::Normal {
        normal_position(t, to)
    } else if to > t.len() {
        t.len() as int
    } else {
        to
    })
    &&& (m is Find || m is RepeatFind) ==> after.cursor_at() == (if before.mode_of() == Mode::Normal {
        normal_position(t, find_moved_to(t, from, before.last_find_of(), m, count))
    } else {
        find_moved_to(t, from, before.last_find_of(), m, count)
    })
    &&& after.last_find_of() == last_find_after(before.last_find_of(), m)
    &&& (m is SearchNext || m is SearchWord) ==> after.cursor_at() == (if before.mode_of() == Mode::Normal {
        normal_position(t, search_moved_to(t, from, before.search_of(), m, count))
    } else {
        search_moved_to(t, from, before.search_of(), m, count)
    })
}

/// What an exclusive motion from `start` to `end` covers: the characters
/// between them, but whole lines when it ends at the start of a later line
/// and begins at or before the first non-blank of its own, or up to the end
/// of the line before when it begins after that.
pub open spec fn exclusive_span_of(t: Seq<char>, start: int, end: int) -> Span {
    let first = breaks_before(t, start);
    let last = breaks_before(t, end);
    if end > start && last > first && starts_line(t, end) {
        if start <= first_non_blank_of(t, first) {
            Span::Lines(first as usize, (last - 1) as usize)
        } else {
            Span::Chars(start as usize, end_of_line(t, (last - 1) as nat) as usize)
        }
    } else {
        Span::Chars(start as usize, end as usize)
    }
}

/// `cw` and `cW`, which change to the end of the word rather than to the
/// next one.
pub open spec fn changes_word(operator: Operator, target: Target) -> bool {
    operator == Operator::Change && match target {
        Target::Motion(m) => m is NextWordStart,
        _ => false,
    }
}

/// Whether an operator's target covers what the text and the cursor alone
/// decide: a plain motion, or whole lines.
pub open spec fn plain_target(tg: Target) -> bool {
    match tg {
        Target::Motion(m) => plain_motion(m),
        Target::Lines => true,
        _ => false,
    }
}

/// What an operator covers for a plain target from `from`: see
/// [`motion_span`] for a motion; for `dd` and the like, the cursor's line
/// and the lines after it, as many as the count asks, within the text.
pub open spec fn target_span_of(t: Seq<char>, from: int, goal: Option<usize>, tg: Target, count: Option<usize>) -> Option<Span> {
    match tg {
        Target::Motion(m) => motion_span(t, from, goal, m, count),
        _ => {
            let first = breaks_before(t, from);
            let last = last_line_of(t);
            let n = times(count);
            Some(
                Span::Lines(
                    first as usize,
                    (if first + n - 1 <= last {
                        first + n - 1
                    } else {
                        last as int
                    }) as usize,
                ),
            )
        },
    }
}

/// What an operator covers for a plain motion from `from`: from the nearer
/// to the farther of the cursor and the target, the target too for an
/// inclusive motion, whole lines for a linewise one.
pub open spec fn motion_span(t: Seq<char>, from: int, goal: Option<usize>, motion: Motion, count: Option<usize>) -> Option<Span> {
    match motion_result(t, from, goal, motion, count, true) {
        None => None,
        Some((p, kind)) => {
            let s = if from < p {
                from
            } else {
                p
            };
            let e = if from < p {
                p
            } else {
                from
            };
            match kind {
                Kind::Linewise => Some(Span::Lines(breaks_before(t, s) as usize, breaks_before(t, e) as usize)),
                Kind::Inclusive => Some(Span::Chars(s as usize, (if e < t.len() { e + 1 } else { t.len() as int }) as usize)),
                Kind::Exclusive => Some(exclusive_span_of(t, s, e)),
            }
        },
    }
}

/// The text left and the cursor after deleting a span: the characters go,
/// the cursor staying at their start; whole lines go with their line
/// breaks (the one before, for lines that end the text), the cursor going
/// to the first non-blank of the line that takes their place.
pub open spec fn deleted(t: Seq<char>, span: Span) -> (Seq<char>, int) {
    match span {
        Span::Chars(a, b) => (t.take(a as int) + t.skip(b as int), a as int),
        Span::Lines(first, last) => {
            let start = if last == last_line_of(t) && first > 0 {
                end_of_line(t, (first - 1) as nat)
            } else {
                start_of_line(t, first as nat)
            };
            let end = if last < last_line_of(t) {
                start_of_line(t, last as nat + 1)
            } else {
                t.len() as int
            };
            let u = t.take(start) + t.skip(end);
            let ll = last_line_of(u);
            (u, first_non_blank_of(u, if first < ll { first as nat } else { ll }))
        },
    }
}

/// The operators whose effect on the text and the cursor is stated.
pub open spec fn stated_operator(op: Operator) -> bool {
    op == Operator::Delete || op == Operator::Yank || op == Operator::Change
}

/// The text, the cursor and the mode that an operator leaves when it works
/// on a span from the cursor at `from` in normal mode: a delete as
/// [`deleted`] says; a yank leaves the text, and the cursor at the start
/// of the span (for lines, at its column on the first line when that is
/// above the cursor's); a change deletes the characters, or replaces the
/// lines by the first one's indentation, and enters insert mode after what
/// is left.
pub open spec fn operated(t: Seq<char>, op: Operator, span: Span, from: int) -> (Seq<char>, int, Mode) {
    if op == Operator::Yank {
        (
            t,
            match span {
                Span::Chars(a, _) => a as int,
                Span::Lines(first, _) => {
                    let line = breaks_before(t, from);
                    if first < line {
                        let s = start_of_line(t, first as nat);
                        let e = end_of_line(t, first as nat);
                        let col = from - start_of_line(t, line);
                        if s + col < e {
                            s + col
                        } else {
                            e
                        }
                    } else {
                        from
                    }
                },
            },
            Mode::Normal,
        )
    } else if op == Operator::Change {
        match span {
            Span::Chars(a, b) => (t.take(a as int) + t.skip(b as int), a as int, Mode::Insert),
            Span::Lines(first, last) => {
                let start = start_of_line(t, first as nat);
                let indent = t.subrange(start, first_non_blank_of(t, first as nat));
                (
                    t.take(start) + indent + t.skip(end_of_line(t, last as nat)),
                    start + indent.len(),
                    Mode::Insert,
                )
            },
        }
    } else {
        (deleted(t, span).0, deleted(t, span).1, Mode::Normal)
    }
}

/// The edit an operator makes on a span: none for a yank; the characters,
/// or the lines with their line breaks as [`deleted`] takes them, replaced
/// by nothing for a delete; for a change the characters replaced by
/// nothing, or the lines (without the last line break) by the first one's
/// indentation.
pub open spec fn operated_edit(t: Seq<char>, op: Operator, span: Span) -> Option<(int, int, Seq<char>)> {
    if op == Operator::Yank {
        None
    } else {
        match span {
            Span::Chars(a, b) => Some((a as int, b as int, Seq::<char>::empty())),
            Span::Lines(first, last) => if op == Operator::Change {
                let start = start_of_line(t, first as nat);
                Some((start, end_of_line(t, last as nat), t.subrange(start, first_non_blank_of(t, first as nat))))
            } else {
                let start = if last == last_line_of(t) && first > 0 {
                    end_of_line(t, (first - 1) as nat)
                } else {
                    start_of_line(t, first as nat)
                };
                let end = if last < last_line_of(t) {
                    start_of_line(t, last as nat + 1)
                } else {
                    t.len() as int
                };
                Some((start, end, Seq::<char>::empty()))
            },
        }
    }
}

/// The goal column a command moves with when run from a key: vertical
/// moves keep the column, everything else starts without one.
pub open spec fn goal_for(action: Action, column: Option<usize>) -> Option<usize> {
    match action {
        Action::Move(m) => if vertical(m) {
            column
        } else {
            None
        },
        _ => None,
    }
}

/// The command `.` runs for the last change `c`: the same, with the count
/// typed before `.` when there is one.
pub open spec fn repeated_cmd(c: Cmd, count: Option<usize>) -> Cmd {
    Cmd { register: c.register, count: if count is Some { count } else { c.count }, action: c.action }
}

/// The last changes that `.` is stated for: those that did not end in
/// insert mode (nothing typed kept with them) and are not `.` itself.
pub open spec fn plain_change(c: Cmd, inserted: bool) -> bool {
    &&& !inserted
    &&& !(c.action is Repeat)
    &&& !(c.action is Move)
    &&& !(c.action is Insert)
    &&& !(c.action matches Action::Operate(op, _) && op == Operator::Change)
}

/// What running `cmd` did, from `v0` and `cx0` to `v` and `cx`, the goal
/// column being `goal`: see the clauses for each kind of action.
spec fn executed_core(v0: &Vim, cx0: &Ctx, v: &Vim, cx: &Ctx, cmd: Cmd, goal: Option<usize>) -> bool {
    &&& cmd.action matches Action::Move(m) ==> moves_only(v0, cx0, v, cx, m, cmd.count, goal)
    &&& cmd.action matches Action::Prompt(kind) ==> v.prompt_of() == Some((kind, Seq::<char>::empty()))
        && v.mode == v0.mode && cx.out == cx0.out && cx.text == cx0.text
    &&& action_commands(cmd.action, cmd.count) matches Some(cs) ==> cx.out.commands@ =~= cx0.out.commands@ + cs
        && cx.out.edits@ == cx0.out.edits@ && cx.text == cx0.text && v.mode == v0.mode
    &&& quiet_action(cmd.action) ==> cx.out == cx0.out && cx.text == cx0.text
    &&& selects(cmd.action) ==> ({
        let r = selection_change(cx0.text@, v0.mode, v0.cursor as int, v0.anchor as int, cmd.action);
        v.mode == r.0 && v.cursor == r.1 && v.anchor == r.2
    })
    &&& cmd.action matches Action::Insert(at) ==> v.mode == Mode::Insert && (cx.text@, v.cursor as int)
        == inserted_at(cx0.text@, v0.mode, v0.anchor as int, v0.cursor as int, at)
    &&& cmd.action matches Action::Paste { before } ==> paste_ran(v0, cx0, v, cx, before, cmd.register, cmd.count)
    &&& cmd.action matches Action::Operate(op, tg) ==> (v0.mode != Mode::Insert ==> operates_fully(
        v0,
        cx0,
        v,
        cx,
        op,
        tg,
        cmd.register,
        cmd.count,
        goal,
    ))
    &&& !(cmd.action is Operate || cmd.action is Repeat) ==> v.written@ == v0.written@
    &&& cmd.action is Escape ==> v.mode == Mode::Normal
    &&& cmd.action is Join ==> ({
        let plan = join_plan(cx0.text@, v0.mode, v0.anchor as int, v0.cursor as int, count_of(cmd.count));
        let r = joined_lines(cx0.text@, plan.0, plan.1, v0.cursor as int);
        cx.text@ == r.0 && v.cursor == r.1 && v.mode == Mode::Normal
    })
    &&& cmd.action matches Action::Replace(ch) ==> match replaced_chars(cx0.text@, v0.mode, v0.anchor as int, v0.cursor as int, ch, count_of(cmd.count)) {
        None => cx.text@ == cx0.text@ && v.cursor == v0.cursor && v.mode == v0.mode,
        Some((u, c, m)) => cx.text@ == u && v.cursor == c && v.mode == m,
    }
    &&& cmd.action is ToggleCaseUnderCursor ==> v.mode == v0.mode && match case_toggled(cx0.text@, v0.cursor as int, count_of(cmd.count)) {
        None => cx.text@ == cx0.text@ && v.cursor == v0.cursor,
        Some((u, c)) => cx.text@ == u && v.cursor == c,
    }
}

/// [`executed_core`], and for `.` what running the last change again did,
/// when that is a plain change run outside insert mode.
spec fn executed(v0: &Vim, cx0: &Ctx, v: &Vim, cx: &Ctx, cmd: Cmd, goal: Option<usize>) -> bool {
    &&& executed_core(v0, cx0, v, cx, cmd, goal)
    &&& cmd.action is Repeat ==> match v0.last_change {
        None => cx == cx0 && v.mode == v0.mode && v.cursor == v0.cursor && v.anchor == v0.anchor
            && v.registers == v0.registers && v.written == v0.written,
        Some(ch) => plain_change(ch.cmd, ch.inserted is Some) && v0.mode != Mode::Insert ==> executed_core(
            v0,
            cx0,
            v,
            cx,
            repeated_cmd(ch.cmd, cmd.count),
            goal,
        ),
    }
}

/// Where `k` more word ends past `p` lead.
pub open spec fn word_ends(t: Seq<char>, p: int, k: nat, big: bool) -> int
    decreases k,
{
    if k == 0 {
        p
    } else {
        word_end_of(t, word_ends(t, p, (k - 1) as nat, big), big)
    }
}

/// The last character `cw` changes from `from` on a word: the end of that
/// word, then as many more word ends as the count asks.
pub open spec fn change_word_end(t: Seq<char>, from: int, big: bool, count: Option<usize>) -> int {
    let e0 = match word_span(t, from, big, false) {
        Some((_, e)) => if e > from {
            e - 1
        } else {
            from
        },
        None => from,
    };
    word_ends(t, e0, (times(count) - 1) as nat, big)
}

/// The span a motion result covers from `from`: see [`motion_span`].
pub open spec fn span_from(t: Seq<char>, from: int, r: Option<(int, Kind)>) -> Option<Span> {
    match r {
        None => None,
        Some((p, kind)) => {
            let s = if from < p {
                from
            } else {
                p
            };
            let e = if from < p {
                p
            } else {
                from
            };
            match kind {
                Kind::Linewise => Some(Span::Lines(breaks_before(t, s) as usize, breaks_before(t, e) as usize)),
                Kind::Inclusive => Some(Span::Chars(s as usize, (if e < t.len() { e + 1 } else { t.len() as int }) as usize)),
                Kind::Exclusive => Some(exclusive_span_of(t, s, e)),
            }
        },
    }
}

/// What operator `op` covers for a target, in `mode` with the selection
/// from `anchor` to the cursor at `from`: see [`target_span_of`] for plain
/// targets; for `cw` on a word, up to [`change_word_end`]; for a find or a
/// search, what it finds as [`span_from`] says (`last` is the find that
/// `;` and `,` repeat, `search` the last search); a text object's characters (see
/// [`object_span_of`]); the selection (see [`selection_span_of`]); or the
/// lines the selection is on (none when a character selection ends before
/// a line it starts on).
pub open spec fn covered_span(t: Seq<char>, mode: Mode, anchor: int, from: int, goal: Option<usize>, last: Option<Find>, search: Option<(Seq<char>, bool, bool)>, op: Operator, tg: Target, count: Option<usize>) -> Option<Span> {
    match tg {
        Target::Motion(m) => if changes_word(op, tg) && from < t.len() && !is_space(t[from]) {
            let big = m == Motion::NextWordStart { big: true };
            span_from(t, from, Some((change_word_end(t, from, big, count), Kind::Inclusive)))
        } else if m is Find || m is RepeatFind {
            span_from(t, from, find_target(t, from, last, m, count))
        } else if m is SearchNext || m is SearchWord {
            match searched_to(t, from, search, m, count) {
                Some(p) => span_from(t, from, Some((p, Kind::Exclusive))),
                None => None,
            }
        } else {
            target_span_of(t, from, goal, tg, count)
        },
        Target::Object { object, around } => match object_span_of(t, from, object, around) {
            Some((a, b)) => Some(Span::Chars(a as usize, b as usize)),
            None => None,
        },
        Target::Selection => Some(selection_span_of(t, mode, anchor, from)),
        Target::SelectionLines => match selection_span_of(t, mode, anchor, from) {
            Span::Chars(a, b) => {
                let first = breaks_before(t, a as int);
                let last = breaks_before(t, if b > 0 { b - 1 } else { 0 });
                if first <= last {
                    Some(Span::Lines(first as usize, last as usize))
                } else {
                    None
                }
            },
            lines => Some(lines),
        },
        _ => target_span_of(t, from, goal, tg, count),
    }
}

/// The lines an indent or outdent works on: those of the span (for
/// characters, from the line of the first to that of the last).
pub open spec fn shifted_lines(t: Seq<char>, span: Span) -> (nat, nat) {
    match span {
        Span::Lines(f, l) => (f as nat, l as nat),
        Span::Chars(a, b) => {
            let e = if b > 0 && b - 1 > a {
                b - 1
            } else {
                a as int
            };
            (breaks_before(t, a as int) as nat, breaks_before(t, e) as nat)
        },
    }
}

/// The characters a case operator changes: those of the span, or its
/// whole lines with the line break after them.
pub open spec fn cased_range(t: Seq<char>, span: Span) -> (int, int) {
    match span {
        Span::Chars(a, b) => (a as int, b as int),
        Span::Lines(f, l) => (
            start_of_line(t, f as nat),
            if l < last_line_of(t) {
                start_of_line(t, l as nat + 1)
            } else {
                t.len() as int
            },
        ),
    }
}

/// The case mapping of a case operator.
pub open spec fn recased(op: Operator, s: Seq<char>) -> Seq<char> {
    if op == Operator::Lowercase {
        crate::search::lowercased(s)
    } else if op == Operator::Uppercase {
        crate::search::uppercased(s)
    } else {
        toggled(s)
    }
}

/// The edit any operator makes on a span: as [`operated_edit`] for a
/// delete, yank or change; its lines replaced by them shifted by `w`
/// columns (see [`shifted_from`]) for an indent or outdent; its characters
/// replaced by them with the case mapped (see [`recased`]) for a case
/// operator.
pub open spec fn operator_edit(t: Seq<char>, op: Operator, span: Span, w: nat) -> Option<(int, int, Seq<char>)> {
    if stated_operator(op) {
        operated_edit(t, op, span)
    } else if op == Operator::Indent || op == Operator::Outdent {
        let (first, last) = shifted_lines(t, span);
        let start = start_of_line(t, first);
        let end = end_of_line(t, last);
        Some((start, end, shifted_from(t.subrange(start, end), 0, op == Operator::Indent, w)))
    } else {
        let (a, b) = cased_range(t, span);
        Some((a, b, recased(op, t.subrange(a, b))))
    }
}

/// The text, cursor and mode any operator leaves on a span from the
/// cursor at `from` (`visual` when it ran on the selection): a delete or
/// change as [`operated`] says; a yank leaves the cursor at the start of
/// the span (for lines, at its column on the first line when that is above
/// the cursor's, or always in visual mode); an indent, outdent or case
/// operator makes its edit and leaves the cursor on the first non-blank of
/// the first line, or at the start of the changed characters. All but a
/// change end in normal mode.
pub open spec fn operated_all(t: Seq<char>, op: Operator, span: Span, from: int, visual: bool, w: nat) -> (Seq<char>, int, Mode) {
    if op == Operator::Yank {
        (
            t,
            match span {
                Span::Chars(a, _) => a as int,
                Span::Lines(first, _) => {
                    let line = breaks_before(t, from);
                    if first < line || visual {
                        let s = start_of_line(t, first as nat);
                        let e = end_of_line(t, first as nat);
                        let col = from - start_of_line(t, line);
                        if s + col < e {
                            s + col
                        } else {
                            e
                        }
                    } else {
                        from
                    }
                },
            },
            Mode::Normal,
        )
    } else if stated_operator(op) {
        operated(t, op, span, from)
    } else {
        let (a, b, new) = operator_edit(t, op, span, w).unwrap();
        let u = t.take(a) + new + t.skip(b);
        (
            u,
            if op == Operator::Indent || op == Operator::Outdent {
                first_non_blank_of(u, shifted_lines(t, span).0)
            } else {
                a
            },
            Mode::Normal,
        )
    }
}

/// Any operator over its target: nothing when it covers nothing,
/// else what [`operated_all`] says, with the edit of [`operator_edit`];
/// a delete, yank or change keeps the covered text for `register` and
/// writes the clipboard, the others keep the registers and the clipboard.
spec fn operates_fully(v0: &Vim, cx0: &Ctx, v: &Vim, cx: &Ctx, op: Operator, tg: Target, register: Option<char>, count: Option<usize>, goal: Option<usize>) -> bool {
    let visual = v0.mode == Mode::Visual || v0.mode == Mode::VisualLine;
    match covered_span(cx0.text@, v0.mode, v0.anchor as int, v0.cursor as int, goal, v0.last_find, search_view(v0.search), op, tg, count) {
        None => cx.text@ == cx0.text@ && v.cursor == v0.cursor && v.mode == v0.mode
            && cx.out.edits@ == cx0.out.edits@ && v.registers == v0.registers && v.written == v0.written,
        Some(span) => {
            let (u, c, mode) = operated_all(cx0.text@, op, span, v0.cursor as int, visual, v0.shift_width as nat);
            &&& edits_made(cx0.out.edits@, cx.out.edits@, operator_edit(cx0.text@, op, span, v0.shift_width as nat))
            &&& cx.text@ == u
            &&& v.cursor == c
            &&& v.mode == mode
            &&& if stated_operator(op) {
                &&& clip_kept(v0.written@, v.written@, v0.registers@, register, span_text_of(cx0.text@, span).0, span_text_of(cx0.text@, span).1)
                &&& forall|m: char| #[trigger] reg_of(v.registers@, m) == stored_in(
                    v0.registers@,
                    register,
                    span_text_of(cx0.text@, span).0,
                    span_text_of(cx0.text@, span).1,
                    m,
                )
            } else {
                v.registers == v0.registers && v.written == v0.written
            }
        },
    }
}

/// A delete, yank or change over a plain target from normal mode: nothing
/// when it covers nothing, else what [`operated`] says, with the edit of
/// [`operated_edit`] and the covered text kept for `register` as
/// [`stored_in`] says.
spec fn operates_target(v0: &Vim, cx0: &Ctx, v: &Vim, cx: &Ctx, op: Operator, tg: Target, register: Option<char>, count: Option<usize>, goal: Option<usize>, log0: Seq<Seq<char>>, log1: Seq<Seq<char>>) -> bool {
    match target_span_of(cx0.text@, v0.cursor as int, goal, tg, count) {
        None => cx.text@ == cx0.text@ && v.cursor == v0.cursor && v.mode == v0.mode
            && cx.out.edits@ == cx0.out.edits@ && v.registers == v0.registers && log1 == log0,
        Some(span) => clip_kept(log0, log1, v0.registers@, register, span_text_of(cx0.text@, span).0, span_text_of(cx0.text@, span).1)
            && edits_made(cx0.out.edits@, cx.out.edits@, operated_edit(cx0.text@, op, span))
            && (forall|m: char| #[trigger] reg_of(v.registers@, m) == stored_in(
            v0.registers@,
            register,
            span_text_of(cx0.text@, span).0,
            span_text_of(cx0.text@, span).1,
            m,
        )) && cx.text@ == operated(cx0.text@, op, span, v0.cursor as int).0 && v.cursor
            == operated(cx0.text@, op, span, v0.cursor as int).1 && v.mode == operated(
            cx0.text@,
            op,
            span,
            v0.cursor as int,
        ).2,
    }
}

/// What a key that completes an operator over its target leaves
/// (the selection's, in visual mode): with nothing covered, the text, the
/// mode, the registers and the clipboard as they were; else the text, the
/// cursor and the mode that [`operated_all`] gives (the cursor on a
/// character of its line in normal mode), made by the edit of
/// [`operator_edit`]; a delete, yank or change keeps the covered text for
/// `register` as [`stored_in`] says and writes it to the clipboard as
/// [`clip_kept`] says, the other operators keep the registers and do not
/// write the clipboard.
#[verifier::opaque]
pub open spec fn key_operated(t: Seq<char>, before: Vim, after: Vim, out: Outcome, op: Operator, tg: Target, register: Option<char>, count: Option<usize>) -> bool {
    let log0 = before.clipboard_log();
    let log1 = after.clipboard_log();
    let from = if before.cursor_at() <= t.len() {
        before.cursor_at() as int
    } else {
        t.len() as int
    };
    let anchor = if before.anchor_at() <= t.len() {
        before.anchor_at() as int
    } else {
        t.len() as int
    };
    let visual = before.mode_of() == Mode::Visual || before.mode_of() == Mode::VisualLine;
    let w = before.shift_width_of() as nat;
    match covered_span(t, before.mode_of(), anchor, from, None, before.last_find_of(), before.search_of(), op, tg, count) {
        None => lands(t, out, after, t, from, before.mode_of()) && out.edits@.len() == 0
            && after.registers_view() == before.registers_view() && log1 == log0,
        Some(span) => {
            let (u, c, mode) = operated_all(t, op, span, from, visual, w);
            &&& lands(t, out, after, u, c, mode)
            &&& edits_made(Seq::empty(), out.edits@, operator_edit(t, op, span, w))
            &&& if stated_operator(op) {
                &&& clip_kept(log0, log1, before.registers_view(), register, span_text_of(t, span).0, span_text_of(t, span).1)
                &&& forall|m: char| #[trigger] reg_of(after.registers_view(), m) == stored_in(
                    before.registers_view(),
                    register,
                    span_text_of(t, span).0,
                    span_text_of(t, span).1,
                    m,
                )
            } else {
                after.registers_view() == before.registers_view() && log1 == log0
            }
        },
    }
}

/// The fields that moving the cursor leaves alone.
spec fn same_state(a: &Vim, b: &Vim) -> bool {
    &&& a.mode == b.mode
    &&& a.cursor == b.cursor
    &&& a.anchor == b.anchor
    &&& a.keys == b.keys
    &&& a.prompt == b.prompt
    &&& a.insertion == b.insertion
    &&& a.registers == b.registers
    &&& a.written == b.written
    &&& a.shift_width == b.shift_width
}

impl Vim {
    /// Where `motion` (with `count`) takes the cursor, and how it covers
    /// text for an operator (`operator` is set when one waits for it).
    #[verifier::rlimit(50)]
    fn motion_target(
        &mut self,
        motion: Motion,
        count: Option<usize>,
        t: &Vec<char>,
        operator: bool,
        message: &mut Option<String>,
    ) -> (res: Option<(usize, Kind)>)
        requires
            old(self).cursor <= t@.len(),
        ensures
            same_state(&*old(self), &*final(self)),
            res matches Some((p, _)) ==> p <= t@.len(),
            plain_motion(motion) ==> match motion_result(
                t@,
                old(self).cursor as int,
                old(self).column,
                motion,
                count,
                operator,
            ) {
                Some((p, k)) => res matches Some((q, j)) && q == p && j == k,
                None => res is None,
            },
            motion matches Motion::Find(f) ==> final(self).last_find == Some(f) && found_as(
                find_char_of(t@, old(self).cursor as int, f, times(count) as nat, false),
                res,
            ),
            motion matches Motion::RepeatFind { reverse } ==> final(self).last_find == old(self).last_find
                && match old(self).last_find {
                None => res is None,
                Some(f) => found_as(
                    find_char_of(t@, old(self).cursor as int, repeated_find(f, reverse), times(count) as nat, true),
                    res,
                ),
            },
            !(motion is Find) ==> final(self).last_find == old(self).last_find,
            motion matches Motion::SearchNext { reverse } ==> match old(self).search {
                None => res is None,
                Some(sr) => match hits_from(
                    t@,
                    old(self).cursor as int,
                    sr.pattern@,
                    sr.whole_word,
                    sr.forward != reverse,
                    times(count) as nat,
                ) {
                    Some(p) => res matches Some((q, k)) && q == p && k == Kind::Exclusive,
                    None => res is None,
                },
            },
            motion matches Motion::SearchWord { forward } ==> match keyword_span(t@, old(self).cursor as int) {
                None => res is None,
                Some((a, b)) => match hits_from(t@, a, t@.subrange(a, b), true, forward, times(count) as nat) {
                    Some(p) => res matches Some((q, k)) && q == p && k == Kind::Exclusive,
                    None => res is None,
                },
            },
    {
        let from = self.cursor;
        let n = match count {
            Some(c) => if c > 1 {
                c
            } else {
                1
            },
            None => 1,
        };
        let line = line_of(t, from);
        let last = last_line(t);
        proof {
            lemma_position_on_line(t@, from as int);
            lemma_line_bounds(t@, line as nat);
        }
        match motion {
            Motion::Left => {
                let start = line_start(t, line);
                if from <= start {
                    return None;
                }
                Some(
                    (
                        if n >= from - start {
                            start
                        } else {
                            from - n
                        },
                        Kind::Exclusive,
                    ),
                )
            },
            Motion::Right => {
                let end = line_end(t, line);
                let limit = if operator {
                    end
                } else {
                    clamp_normal(t, end)
                };
                if from >= limit {
                    return None;
                }
                Some(
                    (
                        if n >= limit - from {
                            limit
                        } else {
                            from + n
                        },
                        Kind::Exclusive,
                    ),
                )
            },
            Motion::Up | Motion::Down | Motion::HalfPageUp | Motion::HalfPageDown => {
                let lines = match motion {
                    Motion::HalfPageUp | Motion::HalfPageDown => if n > usize::MAX / HALF_PAGE {
                        usize::MAX
                    } else {
                        n * HALF_PAGE
                    },
                    _ => n,
                };
                let up = match motion {
                    Motion::Up | Motion::HalfPageUp => true,
                    _ => false,
                };
                let target = if up {
                    if line == 0 {
                        return None;
                    }
                    if lines >= line {
                        0
                    } else {
                        line - lines
                    }
                } else {
                    if line >= last {
                        return None;
                    }
                    if lines >= last - line {
                        last
                    } else {
                        line + lines
                    }
                };
                let col = match self.column {
                    Some(c) => c,
                    None => {
                        let c = column(t, from);
                        self.column = Some(c);
                        c
                    },
                };
                proof {
                    lemma_line_bounds(t@, target as nat);
                }
                Some((at_column(t, target, col), Kind::Linewise))
            },
            Motion::LineStart => Some((line_start(t, line), Kind::Exclusive)),
            Motion::FirstNonBlank => Some((first_non_blank(t, line), Kind::Exclusive)),
            Motion::LineEnd => {
                let end = line_end(t, lines_down(line, n, last));
                if operator {
                    Some((end, Kind::Exclusive))
                } else {
                    Some((end, Kind::Inclusive))
                }
            },
            Motion::NextWordStart { big } => {
                let mut pos = from;
                let mut step: usize = 0;
                while step < n
                    invariant
                        pos <= t@.len(),
                        step <= n,
                        n == times(count),
                        word_starts(t@, pos as int, (n - step) as nat, big, operator) == word_starts(
                            t@,
                            from as int,
                            n as nat,
                            big,
                            operator,
                        ),
                    decreases n - step,
                {
                    let mut next_pos = next_word_start(t, pos, big);
                    if operator && step == n - 1 && line_of(t, next_pos) > line_of(t, pos) {
                        let here = line_of(t, pos);
                        let end = line_end(t, here);
                        next_pos = if end > pos {
                            end
                        } else {
                            pos
                        };
                    }
                    pos = next_pos;
                    step = step + 1;
                }
                if pos == from {
                    return None;
                }
                Some((pos, Kind::Exclusive))
            },
            Motion::PrevWordStart { big } => {
                let mut pos = from;
                let mut step: usize = 0;
                while step < n
                    invariant
                        pos <= t@.len(),
                        step <= n,
                        n == times(count),
                        steps(t@, motion, pos as int, (n - step) as nat) == steps(
                            t@,
                            motion,
                            from as int,
                            n as nat,
                        ),
                        motion == (Motion::PrevWordStart { big }),
                    decreases n - step,
                {
                    pos = prev_word_start(t, pos, big);
                    step = step + 1;
                }
                Some((pos, Kind::Exclusive))
            },
            Motion::WordEnd { big } => {
                let mut pos = from;
                let mut step: usize = 0;
                while step < n
                    invariant
                        pos <= t@.len(),
                        step <= n,
                        n == times(count),
                        steps(t@, motion, pos as int, (n - step) as nat) == steps(
                            t@,
                            motion,
                            from as int,
                            n as nat,
                        ),
                        motion == (Motion::WordEnd { big }),
                    decreases n - step,
                {
                    pos = word_end(t, pos, big);
                    step = step + 1;
                }
                Some((pos, Kind::Inclusive))
            },
            Motion::PrevWordEnd { big } => {
                let mut pos = from;
                let mut step: usize = 0;
                while step < n
                    invariant
                        pos <= t@.len(),
                        step <= n,
                        n == times(count),
                        steps(t@, motion, pos as int, (n - step) as nat) == steps(
                            t@,
                            motion,
                            from as int,
                            n as nat,
                        ),
                        motion == (Motion::PrevWordEnd { big }),
                    decreases n - step,
                {
                    pos = prev_word_end(t, pos, big);
                    step = step + 1;
                }
                Some((pos, Kind::Inclusive))
            },
            Motion::FirstLine | Motion::LastLine => {
                let default = match motion {
                    Motion::FirstLine => 0,
                    _ => last,
                };
                let wanted = match count {
                    Some(c) => if c > 0 {
                        c - 1
                    } else {
                        0
                    },
                    None => default,
                };
                let target = if wanted < last {
                    wanted
                } else {
                    last
                };
                Some((first_non_blank(t, target), Kind::Linewise))
            },
            Motion::Find(find) => {
                self.last_find = Some(find);
                find_char(t, from, find, n, false)
            },
            Motion::RepeatFind { reverse } => {
                let mut find = match self.last_find {
                    Some(f) => f,
                    None => {
                        return None;
                    },
                };
                find.forward = find.forward != reverse;
                find_char(t, from, find, n, true)
            },
            Motion::MatchingBracket => match matching_bracket(t, from) {
                Some(p) => Some((p, Kind::Inclusive)),
                None => None,
            },
            Motion::NextParagraph => {
                let mut pos = from;
                let mut step: usize = 0;
                while step < n
                    invariant
                        pos <= t@.len(),
                        step <= n,
                        n == times(count),
                        steps(t@, motion, pos as int, (n - step) as nat) == steps(
                            t@,
                            motion,
                            from as int,
                            n as nat,
                        ),
                        motion == Motion::NextParagraph,
                    decreases n - step,
                {
                    pos = next_paragraph(t, pos);
                    step = step + 1;
                }
                Some((pos, Kind::Exclusive))
            },
            Motion::PrevParagraph => {
                let mut pos = from;
                let mut step: usize = 0;
                while step < n
                    invariant
                        pos <= t@.len(),
                        step <= n,
                        n == times(count),
                        steps(t@, motion, pos as int, (n - step) as nat) == steps(
                            t@,
                            motion,
                            from as int,
                            n as nat,
                        ),
                        motion == Motion::PrevParagraph,
                    decreases n - step,
                {
                    pos = prev_paragraph(t, pos);
                    step = step + 1;
                }
                Some((pos, Kind::Exclusive))
            },
            Motion::NextLine => {
                if line >= last {
                    return None;
                }
                let target = if n >= last - line {
                    last
                } else {
                    line + n
                };
                Some((first_non_blank(t, target), Kind::Linewise))
            },
            Motion::PrevLine => {
                if line == 0 {
                    return None;
                }
                let target = if n >= line {
                    0
                } else {
                    line - n
                };
                Some((first_non_blank(t, target), Kind::Linewise))
            },
            Motion::CurrentLine => Some(
                (first_non_blank(t, lines_down(line, n, last)), Kind::Linewise),
            ),
            Motion::SearchNext { reverse } => {
                let forward = match &self.search {
                    Some(s) => s.forward != reverse,
                    None => {
                        return None;
                    },
                };
                let ghost sr = self.search.unwrap();
                let mut pos = from;
                let mut step: usize = 0;
                while step < n
                    invariant
                        pos <= t@.len(),
                        step <= n,
                        n == times(count),
                        !plain_motion(motion),
                        !(motion is Find || motion is RepeatFind),
                        motion == (Motion::SearchNext { reverse }),
                        self.last_find == old(self).last_find,
                        self.search == old(self).search,
                        self.search == Some(sr),
                        forward == (sr.forward != reverse),
                        from == old(self).cursor,
                        hits_from(t@, from as int, sr.pattern@, sr.whole_word, forward, step as nat) == Some(pos as int),
                    decreases n - step,
                {
                    let found = self.find_match(t, pos, forward, message);
                    proof {
                        let h = next_hit(t@, pos as int, sr.pattern@, sr.whole_word, forward);
                        assert(search_hit(t@, pos as int, sr.pattern@, sr.whole_word, forward, found));
                        lemma_search_hit_unique(t@, pos as int, sr.pattern@, sr.whole_word, forward, found, h);
                    }
                    pos = match found {
                        Some(p) => p,
                        None => {
                            proof {
                                lemma_hits_stop(t@, from as int, sr.pattern@, sr.whole_word, forward, (step + 1) as nat, n as nat);
                            }
                            return None;
                        },
                    };
                    step = step + 1;
                }
                Some((pos, Kind::Exclusive))
            },
            Motion::SearchWord { forward } => {
                let (ws, we) = match keyword_at(t, from) {
                    Some(w) => w,
                    None => {
                        return None;
                    },
                };
                self.search = Some(
                    Search { pattern: slice(t, ws, we), forward, whole_word: true },
                );
                let ghost pat = t@.subrange(ws as int, we as int);
                let mut pos = ws;
                let mut step: usize = 0;
                while step < n
                    invariant
                        pos <= t@.len(),
                        step <= n,
                        n == times(count),
                        same_state(&*old(self), &*self),
                        !plain_motion(motion),
                        !(motion is Find || motion is RepeatFind || motion is SearchNext),
                        motion == (Motion::SearchWord { forward }),
                        keyword_span(t@, old(self).cursor as int) == Some((ws as int, we as int)),
                        pat == t@.subrange(ws as int, we as int),
                        self.last_find == old(self).last_find,
                        self.search matches Some(sr) && sr.pattern@ == pat && sr.forward == forward && sr.whole_word,
                        hits_from(t@, ws as int, pat, true, forward, step as nat) == Some(pos as int),
                    decreases n - step,
                {
                    let found = self.find_match(t, pos, forward, message);
                    proof {
                        let h = next_hit(t@, pos as int, pat, true, forward);
                        assert(search_hit(t@, pos as int, pat, true, forward, found));
                        lemma_search_hit_unique(t@, pos as int, pat, true, forward, found, h);
                    }
                    pos = match found {
                        Some(p) => p,
                        None => {
                            proof {
                                lemma_hits_stop(t@, ws as int, pat, true, forward, (step + 1) as nat, n as nat);
                            }
                            return None;
                        },
                    };
                    step = step + 1;
                }
                Some((pos, Kind::Exclusive))
            },
        }
    }
}


/// What `char::is_lowercase` says of `c`.
pub uninterp spec fn lower_case(c: char) -> bool;

/// What `char::is_uppercase` says of `c`.
pub uninterp spec fn upper_case(c: char) -> bool;

/// The characters that `char::to_uppercase` gives for `c`.
pub uninterp spec fn upper_of(c: char) -> Seq<char>;

/// The characters that `char::to_lowercase` gives for `c`.
pub uninterp spec fn lower_of(c: char) -> Seq<char>;

/// Calls `char::is_lowercase`.
/// Trusted: the result is named by [`lower_case`]; it depends on the
/// character alone.
#[verifier::external_body]
fn is_lower(c: char) -> (res: bool)
    ensures
        res == lower_case(c),
{
    c.is_lowercase()
}

/// Calls `char::is_uppercase`.
/// Trusted: the result is named by [`upper_case`]; it depends on the
/// character alone.
#[verifier::external_body]
fn is_upper(c: char) -> (res: bool)
    ensures
        res == upper_case(c),
{
    c.is_uppercase()
}

/// Collects `char::to_uppercase`.
/// Trusted: the result is named by [`upper_of`]; it depends on the
/// character alone.
#[verifier::external_body]
fn char_upper(c: char) -> (res: Vec<char>)
    ensures
        res@ == upper_of(c),
{
    c.to_uppercase().collect()
}

/// Collects `char::to_lowercase`.
/// Trusted: the result is named by [`lower_of`]; it depends on the
/// character alone.
#[verifier::external_body]
fn char_lower(c: char) -> (res: Vec<char>)
    ensures
        res@ == lower_of(c),
{
    c.to_lowercase().collect()
}

/// `~`: a lower-case character in upper case, an upper-case one in lower
/// case, any other as it is.
pub open spec fn toggled_char(c: char) -> Seq<char> {
    if lower_case(c) {
        upper_of(c)
    } else if upper_case(c) {
        lower_of(c)
    } else {
        seq![c]
    }
}

/// Every character of `s` with its case toggled.
pub open spec fn toggled(s: Seq<char>) -> Seq<char>
    decreases s.len(),
{
    if s.len() == 0 {
        s
    } else {
        toggled(s.drop_last()) + toggled_char(s.last())
    }
}

/// Toggles the case of every character (see [`toggled`]).
pub fn toggle_case(s: &Vec<char>) -> (res: Vec<char>)
    ensures
        res@ == toggled(s@),
{
    let mut out: Vec<char> = Vec::new();
    let mut k: usize = 0;
    while k < s.len()
        invariant
            k <= s@.len(),
            out@ == toggled(s@.take(k as int)),
        decreases s@.len() - k,
    {
        let c = s[k];
        let part = if is_lower(c) {
            char_upper(c)
        } else if is_upper(c) {
            char_lower(c)
        } else {
            vec![c]
        };
        let mut j: usize = 0;
        let ghost before = out@;
        while j < part.len()
            invariant
                j <= part@.len(),
                out@ == before + part@.take(j as int),
            decreases part@.len() - j,
        {
            out.push(part[j]);
            j = j + 1;
            assert(out@ =~= before + part@.take(j as int));
        }
        assert(part@.take(part@.len() as int) =~= part@);
        assert(s@.take(k + 1).drop_last() =~= s@.take(k as int));
        k = k + 1;
    }
    assert(s@.take(s@.len() as int) =~= s@);
    out
}

fn lowered_text(s: &Vec<char>) -> (res: Vec<char>)
    ensures
        res@ == crate::search::lowercased(s@),
{
    let text = string_of(s);
    let low = crate::search::to_lowercase(text.as_str());
    chars_of(low.as_str())
}

fn raised_text(s: &Vec<char>) -> (res: Vec<char>)
    ensures
        res@ == crate::search::uppercased(s@),
{
    let text = string_of(s);
    let up = crate::search::to_uppercase(text.as_str());
    chars_of(up.as_str())
}

/// A span that an operator can work on: characters within the text, or
/// lines from the first to the last.
pub open spec fn span_ok(t: Seq<char>, span: Span) -> bool {
    match span {
        Span::Chars(a, b) => a <= b <= t.len(),
        Span::Lines(f, l) => f <= l <= last_line_of(t),
    }
}

/// An exclusive motion from `start` to `end`: when it ends at the start
/// of a later line, it stops at the end of the line before (and covers
/// whole lines when it started at or before the first non-blank).
fn exclusive_span(t: &Vec<char>, start: usize, end: usize) -> (res: Span)
    requires
        start <= end <= t@.len(),
    ensures
        span_ok(t@, res),
        res == exclusive_span_of(t@, start as int, end as int),
{
    let first = line_of(t, start);
    let last = line_of(t, end);
    if end > start && last > first && is_line_start(t, end) {
        if start <= first_non_blank(t, first) {
            return Span::Lines(first, last - 1);
        }
        proof {
            lemma_position_on_line(t@, start as int);
            lemma_end_grows(t@, first as nat, (last - 1) as nat);
            lemma_line_bounds(t@, (last - 1) as nat);
        }
        return Span::Chars(start, line_end(t, last - 1));
    }
    Span::Chars(start, end)
}

/// The characters of `start..end`.
fn chars_range(t: &Vec<char>, range: (usize, usize)) -> (res: Vec<char>)
    requires
        range.0 <= range.1 <= t@.len(),
    ensures
        res@ == t@.subrange(range.0 as int, range.1 as int),
{
    slice(t, range.0, range.1)
}

/// The range of lines `first..=last`: from the first's start to the
/// start of the line after the last (or the end of the text).
fn lines_span(t: &Vec<char>, first: usize, last: usize) -> (res: (usize, usize))
    requires
        first <= last <= last_line_of(t@),
    ensures
        res.0 <= res.1 <= t@.len(),
        res.0 == start_of_line(t@, first as nat),
        last == last_line_of(t@) ==> res.1 == t@.len(),
        res.1 == if last < last_line_of(t@) {
            start_of_line(t@, last as nat + 1)
        } else {
            t@.len() as int
        },
{
    proof {
        lemma_start_grows(t@, first as nat, last as nat + 1);
        lemma_line_bounds(t@, first as nat);
    }
    lines_range(t, first, last)
}

/// The text a span covers, and whether it is whole lines: the characters,
/// or the lines with their line breaks (one added after a last line that
/// has none).
pub open spec fn span_text_of(t: Seq<char>, span: Span) -> (Seq<char>, bool) {
    match span {
        Span::Chars(a, b) => (t.subrange(a as int, b as int), false),
        Span::Lines(first, last) => {
            let x = t.subrange(
                start_of_line(t, first as nat),
                if last < last_line_of(t) {
                    start_of_line(t, last as nat + 1)
                } else {
                    t.len() as int
                },
            );
            (if x.len() == 0 || x.last() != '\n' {
                x.push('\n')
            } else {
                x
            }, true)
        },
    }
}

/// The text a span covers, and whether it is whole lines (then it ends
/// with a line break).
fn span_text(t: &Vec<char>, span: Span) -> (res: (Vec<char>, bool))
    requires
        span_ok(t@, span),
    ensures
        (res.0@, res.1) == span_text_of(t@, span),
{
    match span {
        Span::Chars(a, b) => (slice(t, a, b), false),
        Span::Lines(first, last) => {
            let r = lines_span(t, first, last);
            let mut lines = chars_range(t, r);
            if lines.len() == 0 || lines[lines.len() - 1] != '\n' {
                lines.push('\n');
            }
            (lines, true)
        },
    }
}

/// The range a text object covers at `pos`: a word, a quoted text or a
/// bracketed block (none for a line break as a bracket).
pub open spec fn object_span_of(t: Seq<char>, pos: int, object: Object, around: bool) -> Option<(int, int)> {
    match object {
        Object::Word { big } => word_span(t, pos, big, around),
        Object::Quote(quote) => quote_span(t, pos, quote, around),
        Object::Bracket(open, close) => if open != '\n' && close != '\n' {
            bracket_span(t, pos, open, close, around)
        } else {
            None
        },
    }
}

/// The range a text object covers at `pos`.
fn object_range(t: &Vec<char>, pos: usize, object: Object, around: bool) -> (res: Option<(usize, usize)>)
    requires
        pos <= t@.len(),
    ensures
        res matches Some(r) ==> r.0 <= r.1 <= t@.len(),
        match object_span_of(t@, pos as int, object, around) {
            Some((a, b)) => res matches Some(r) && r.0 == a && r.1 == b,
            None => res is None,
        },
{
    match object {
        Object::Word { big } => word_object(t, pos, big, around),
        Object::Quote(quote) => quote_object(t, pos, quote, around),
        Object::Bracket(open, close) => if open != '\n' && close != '\n' {
            bracket_object(t, pos, open, close, around)
        } else {
            None
        },
    }
}


/// The state a command starts from: the cursor and anchor within the
/// text, and the edits so far in order.
spec fn ready(v: &Vim, cx: &Ctx) -> bool {
    &&& cx.wf()
    &&& v.cursor <= cx.text@.len()
    &&& v.anchor <= cx.text@.len()
}

/// The state a command leaves: the edits still in order from the same
/// text, the cursor within the text, and the pending keys as they were.
spec fn done(v0: &Vim, cx0: &Ctx, v: &Vim, cx: &Ctx) -> bool {
    &&& finished(v0, cx0, v, cx)
    &&& v.written == v0.written
}

/// [`done`], but for commands that may write the clipboard.
spec fn finished(v0: &Vim, cx0: &Ctx, v: &Vim, cx: &Ctx) -> bool {
    &&& cx.wf()
    &&& cx.orig == cx0.orig
    &&& v.cursor <= cx.text@.len()
    &&& v.keys == v0.keys
}

/// How far the spaces at the start of a line reach from `k`, at most to
/// column `w`.
pub open spec fn lead_spaces(line: Seq<char>, k: int, w: int) -> int
    decreases line.len() - k,
{
    if 0 <= k < line.len() && k < w && line[k] == ' ' {
        lead_spaces(line, k + 1, w)
    } else {
        k
    }
}

/// A line shifted by `w` columns: indented by `w` spaces, or outdented by a
/// tab or up to `w` spaces; an empty line stays empty.
pub open spec fn shifted_line(line: Seq<char>, indent: bool, w: nat) -> Seq<char> {
    if line.len() == 0 {
        Seq::empty()
    } else if indent {
        Seq::new(w, |i: int| ' ') + line
    } else if line[0] == '\t' {
        line.skip(1)
    } else {
        line.skip(lead_spaces(line, 0, w as int))
    }
}

proof fn lemma_lead_spaces_reach(line: Seq<char>, k: int, w: int, n: int)
    requires
        0 <= k <= n <= line.len(),
        forall|i: int| 0 <= i < n ==> line[i] == ' ',
        n == w || (n < w && (n == line.len() || line[n] != ' ')),
    ensures
        lead_spaces(line, k, w) == n,
    decreases n - k,
{
    if k < n {
        lemma_lead_spaces_reach(line, k + 1, w, n);
    }
}

/// Shifting a line moves it by the shift width `w`: indenting puts `w`
/// spaces before it; outdenting a line that starts with `n` spaces (and no
/// tab) removes `w` of them when there are at least `w`, else all `n`.
pub proof fn lemma_shift_moves_by_width(line: Seq<char>, w: nat, n: int)
    requires
        line.len() > 0,
        line[0] != '\t',
        0 <= n <= line.len(),
        forall|i: int| 0 <= i < n ==> line[i] == ' ',
        n == w || (n < w && (n == line.len() || line[n] != ' ')),
    ensures
        shifted_line(line, false, w) == line.skip(n),
        shifted_line(line, true, w).len() == line.len() + w,
        shifted_line(line, true, w).skip(w as int) == line,
        forall|i: int| 0 <= i < w ==> shifted_line(line, true, w)[i] == ' ',
{
    lemma_lead_spaces_reach(line, 0, w as int, n);
    let ind = shifted_line(line, true, w);
    assert(ind.skip(w as int) =~= line);
}

/// Outdenting a line that starts with a tab removes that tab, and an empty
/// line stays empty either way.
pub proof fn lemma_shift_tab_and_empty(line: Seq<char>, indent: bool, w: nat)
    ensures
        line.len() > 0 && line[0] == '\t' ==> shifted_line(line, false, w) == line.skip(1),
        line.len() == 0 ==> shifted_line(line, indent, w).len() == 0,
{
}

/// The lines of `region` from `s` on, each shifted, still separated by
/// line breaks.
pub open spec fn shifted_from(region: Seq<char>, s: int, indent: bool, w: nat) -> Seq<char>
    decreases region.len() - s,
{
    if s < 0 || s > region.len() {
        Seq::empty()
    } else {
        let e = break_after(region, s);
        proof {
            lemma_break_after_bounds(region, s);
        }
        if e >= region.len() {
            shifted_line(region.subrange(s, e), indent, w)
        } else {
            shifted_line(region.subrange(s, e), indent, w) + seq!['\n'] + shifted_from(
                region,
                e + 1,
                indent,
                w,
            )
        }
    }
}

/// The visual selection from `anchor` to `cursor` as a span: in visual
/// line mode the lines of both ends, else the characters from the earlier
/// end up to and with the later one.
pub open spec fn selection_span_of(t: Seq<char>, mode: Mode, anchor: int, cursor: int) -> Span {
    let start = if anchor < cursor {
        anchor
    } else {
        cursor
    };
    let end = if anchor < cursor {
        cursor
    } else {
        anchor
    };
    if mode == Mode::VisualLine {
        Span::Lines(breaks_before(t, start) as usize, breaks_before(t, end) as usize)
    } else {
        Span::Chars(start as usize, (if end < t.len() { end + 1 } else { t.len() as int }) as usize)
    }
}

impl Vim {
    /// The visual selection as a span: characters up to and with the
    /// later end, or the lines of both ends.
    fn selection_span(&self, t: &Vec<char>) -> (res: Span)
        requires
            self.cursor <= t@.len(),
            self.anchor <= t@.len(),
        ensures
            span_ok(t@, res),
            res == selection_span_of(t@, self.mode, self.anchor as int, self.cursor as int),
    {
        let start = if self.anchor < self.cursor {
            self.anchor
        } else {
            self.cursor
        };
        let end = if self.anchor < self.cursor {
            self.cursor
        } else {
            self.anchor
        };
        if self.mode == Mode::VisualLine {
            proof {
                lemma_breaks_grow(t@, start as int, end as int);
            }
            Span::Lines(line_of(t, start), line_of(t, end))
        } else {
            Span::Chars(start, next(t, end))
        }
    }

    /// One line shifted: indented by the shift width, or outdented by a
    /// tab or up to that many spaces (empty lines stay empty).
    fn shift_line(&self, line: &Vec<char>, indent: bool) -> (res: Vec<char>)
        ensures
            res@ == shifted_line(line@, indent, self.shift_width as nat),
    {
        if line.len() == 0 {
            return Vec::new();
        }
        if indent {
            let mut out: Vec<char> = Vec::new();
            let mut k: usize = 0;
            while k < self.shift_width
                invariant
                    k <= self.shift_width,
                    out@ == Seq::new(k as nat, |i: int| ' '),
                decreases self.shift_width - k,
            {
                out.push(' ');
                k = k + 1;
                assert(out@ =~= Seq::new(k as nat, |i: int| ' '));
            }
            let ghost pad = out@;
            let mut j: usize = 0;
            while j < line.len()
                invariant
                    j <= line@.len(),
                    out@ == pad + line@.take(j as int),
                decreases line@.len() - j,
            {
                out.push(line[j]);
                j = j + 1;
                assert(out@ =~= pad + line@.take(j as int));
            }
            assert(line@.take(j as int) =~= line@);
            return out;
        }
        if line[0] == '\t' {
            assert(line@.subrange(1, line@.len() as int) =~= line@.skip(1));
            return slice(line, 1, line.len());
        }
        let mut spaces: usize = 0;
        while spaces < line.len() && spaces < self.shift_width && line[spaces] == ' '
            invariant
                spaces <= line@.len(),
                lead_spaces(line@, spaces as int, self.shift_width as int) == lead_spaces(
                    line@,
                    0,
                    self.shift_width as int,
                ),
            decreases line@.len() - spaces,
        {
            spaces = spaces + 1;
        }
        assert(line@.subrange(spaces as int, line@.len() as int) =~= line@.skip(spaces as int));
        slice(line, spaces, line.len())
    }

    /// Lines (separated by `\n`) each shifted (see [`Vim::shift_line`]).
    fn shift_lines(&self, region: &Vec<char>, indent: bool) -> (res: Vec<char>)
        ensures
            res@ == shifted_from(region@, 0, indent, self.shift_width as nat),
    {
        let ghost w = self.shift_width as nat;
        let mut out: Vec<char> = Vec::new();
        let mut s: usize = 0;
        loop
            invariant_except_break
                s <= region@.len(),
                w == self.shift_width as nat,
                out@ + shifted_from(region@, s as int, indent, w) == shifted_from(region@, 0, indent, w),
            ensures
                out@ == shifted_from(region@, 0, indent, w),
            decreases region@.len() - s,
        {
            let mut e = s;
            while e < region.len() && region[e] != '\n'
                invariant
                    s <= e <= region@.len(),
                    break_after(region@, e as int) == break_after(region@, s as int),
                decreases region@.len() - e,
            {
                e = e + 1;
            }
            let line = slice(region, s, e);
            let shifted = self.shift_line(&line, indent);
            let ghost before = out@;
            let mut j: usize = 0;
            while j < shifted.len()
                invariant
                    j <= shifted@.len(),
                    out@ == before + shifted@.take(j as int),
                decreases shifted@.len() - j,
            {
                out.push(shifted[j]);
                j = j + 1;
                assert(out@ =~= before + shifted@.take(j as int));
            }
            assert(shifted@.take(j as int) =~= shifted@);
            if e >= region.len() {
                break;
            }
            out.push('\n');
            assert(out@ + shifted_from(region@, e + 1, indent, w) =~= before + (shifted@ + seq!['\n']
                + shifted_from(region@, e + 1, indent, w)));
            s = e + 1;
        }
        out
    }

    /// Enters insert mode, remembering where and how it started.
    fn enter_insert(&mut self, cmd: Option<Cmd>, count: usize, cx: &Ctx)
        ensures
            final(self).written == old(self).written,
            final(self).mode == Mode::Insert,
            final(self).cursor == old(self).cursor,
            final(self).anchor == old(self).anchor,
            final(self).prompt == old(self).prompt,
            final(self).keys == old(self).keys,
            final(self).registers == old(self).registers,
    {
        self.mode = Mode::Insert;
        self.insertion = Some(Insertion { cmd, start: self.cursor, len: cx.text.len(), count });
    }

    /// The span an operator covers for a target, or none when the target
    /// finds nothing.
    #[verifier::rlimit(60)]
    fn target_span(&mut self, operator: Operator, target: Target, cmd: Cmd, cx: &mut Ctx) -> (res: Option<Span>)
        requires
            ready(&*old(self), &*old(cx)),
        ensures
            same_state(&*old(self), &*final(self)),
            final(cx).text == old(cx).text,
            final(cx).out.edits == old(cx).out.edits,
            final(cx).out.commands == old(cx).out.commands,
            final(cx).orig == old(cx).orig,
            res matches Some(span) ==> span_ok(final(cx).text@, span),
            plain_target(target) && !changes_word(operator, target) ==> res == target_span_of(
                old(cx).text@,
                old(self).cursor as int,
                old(self).column,
                target,
                cmd.count,
            ),
            res == covered_span(
                old(cx).text@,
                old(self).mode,
                old(self).anchor as int,
                old(self).cursor as int,
                old(self).column,
                old(self).last_find,
                search_view(old(self).search),
                operator,
                target,
                cmd.count,
            ),
    {
        let t = slice(&cx.text, 0, cx.text.len());
        assert(t@ =~= cx.text@);
        let from = self.cursor;
        let count = cmd.count_or_one();
        match target {
            Target::Motion(motion) => {
                let change_word = match motion {
                    Motion::NextWordStart { .. } => operator == Operator::Change && from < t.len()
                        && !space_char(t[from]),
                    _ => false,
                };
                let found = if change_word {
                    let big = motion == Motion::NextWordStart { big: true };
                    let mut end = end_of_word_at(&t, from, big);
                    let ghost e0 = end as int;
                    let mut k: usize = 1;
                    while k < count
                        invariant
                            end <= t@.len(),
                            1 <= k,
                            k <= count || k == 1,
                            end == word_ends(t@, e0, (k - 1) as nat, big),
                        decreases count - k,
                    {
                        end = word_end(&t, end, big);
                        k = k + 1;
                    }
                    assert(k == times(cmd.count));
                    assert(end == change_word_end(t@, from as int, big, cmd.count));
                    Some((end, Kind::Inclusive))
                } else {
                    self.motion_target(motion, cmd.count, &t, true, &mut cx.out.message)
                };
                let (pos, kind) = match found {
                    Some(x) => x,
                    None => {
                        return None;
                    },
                };
                assert(found matches Some((p, k)) && p == pos && k == kind);
                let start = if from < pos {
                    from
                } else {
                    pos
                };
                let end = if from < pos {
                    pos
                } else {
                    from
                };
                match kind {
                    Kind::Linewise => {
                        proof {
                            lemma_breaks_grow(t@, start as int, end as int);
                        }
                        Some(Span::Lines(line_of(&t, start), line_of(&t, end)))
                    },
                    Kind::Inclusive => Some(Span::Chars(start, next(&t, end))),
                    Kind::Exclusive => Some(exclusive_span(&t, start, end)),
                }
            },
            Target::Object { object, around } => match object_range(&t, from, object, around) {
                Some((a, b)) => Some(Span::Chars(a, b)),
                None => None,
            },
            Target::Lines => {
                let first = line_of(&t, from);
                let n = if count > 1 {
                    count
                } else {
                    1
                };
                Some(Span::Lines(first, lines_down(first, n, last_line(&t))))
            },
            Target::Selection => Some(self.selection_span(&t)),
            Target::SelectionLines => match self.selection_span(&t) {
                Span::Chars(a, b) => {
                    let first = line_of(&t, a);
                    let last = line_of(&t, prev(b));
                    if first <= last {
                        Some(Span::Lines(first, last))
                    } else {
                        None
                    }
                },
                lines => Some(lines),
            },
        }
    }

    /// Applies an operator to what a target covers.
    #[verifier::rlimit(100)]
    #[verifier::spinoff_prover]
    fn operate<C: Clipboard>(&mut self, operator: Operator, target: Target, cmd: Cmd, cx: &mut Ctx, clip: &mut C) -> (res: bool)
        requires
            ready(&*old(self), &*old(cx)),
        ensures
            old(self).mode != Mode::Insert
                ==> operates_fully(
                &*old(self),
                &*old(cx),
                &*final(self),
                &*final(cx),
                operator,
                target,
                cmd.register,
                cmd.count,
                old(self).column,
            ),
            finished(&*old(self), &*old(cx), &*final(self), &*final(cx)),
            stated_operator(operator) && old(self).mode == Mode::Normal && plain_target(target)
                && !changes_word(operator, target) ==> operates_target(
                &*old(self),
                &*old(cx),
                &*final(self),
                &*final(cx),
                operator,
                target,
                cmd.register,
                cmd.count,
                old(self).column,
                old(self).written@,
                final(self).written@,
            ),
    {
        let from = self.cursor;
        let span = match self.target_span(operator, target, cmd, cx) {
            Some(span) => span,
            None => {
                return false;
            },
        };
        let t = slice(&cx.text, 0, cx.text.len());
        assert(t@ =~= cx.text@);
        let ghost e0 = cx.out.edits@;
        assert(e0 == old(cx).out.edits@);
        let visual = self.is_visual();
        if visual {
            self.mode = Mode::Normal;
        }
        let register = cmd.register;
        match operator {
            Operator::Yank => {
                let (yanked, linewise) = span_text(&t, span);
                self.store(register, yanked, linewise, clip);
                self.cursor = match span {
                    Span::Chars(a, _) => a,
                    Span::Lines(first, _) => if first < line_of(&t, from) || visual {
                        at_column(&t, first, column(&t, from))
                    } else {
                        from
                    },
                };
                proof {
                    lemma_line_bounds(t@, match span { Span::Lines(f, _) => f as nat, _ => 0 });
                }
            },
            Operator::Delete => {
                let (deleted, linewise) = span_text(&t, span);
                self.store(register, deleted, linewise, clip);
                match span {
                    Span::Chars(a, b) => {
                        cx.replace(a, b, &Vec::new());
                        assert(cx.text@ =~= t@.take(a as int) + t@.skip(b as int));
                        self.cursor = a;
                    },
                    Span::Lines(first, last) => {
                        let r = lines_span(&t, first, last);
                        let start = if last == last_line(&t) && first > 0 {
                            proof {
                                lemma_line_bounds(t@, (first - 1) as nat);
                            }
                            line_end(&t, first - 1)
                        } else {
                            r.0
                        };
                        let end = r.1;
                        assert(start <= end);
                        cx.replace(start, end, &Vec::new());
                        assert(cx.text@ =~= t@.take(start as int) + t@.skip(end as int));
                        let ll = last_line(&cx.text);
                        self.cursor = first_non_blank(&cx.text, if first < ll { first } else { ll });
                    },
                }
            },
            Operator::Change => {
                let (changed, linewise) = span_text(&t, span);
                self.store(register, changed, linewise, clip);
                match span {
                    Span::Chars(a, b) => {
                        cx.replace(a, b, &Vec::new());
                        self.cursor = a;
                    },
                    Span::Lines(first, last) => {
                        let indent = indentation(&t, first);
                        let start = line_start(&t, first);
                        proof {
                            lemma_start_grows(t@, first as nat, last as nat);
                            lemma_line_bounds(t@, last as nat);
                        }
                        let end = line_end(&t, last);
                        cx.replace(start, end, &indent);
                        let n = cx.text.len();
                        assert(n == start + indent@.len() + (t@.len() - end));
                        self.cursor = start + indent.len();
                    },
                }
                self.enter_insert(
                    if visual {
                        None
                    } else {
                        Some(cmd)
                    },
                    1,
                    cx,
                );
            },
            Operator::Indent | Operator::Outdent => {
                self.shift_span(operator, span, &t, cx);
            },
            Operator::Lowercase | Operator::Uppercase | Operator::ToggleCase => {
                self.recase_span(operator, span, &t, cx);
            },
        }
        assert(edits_made(e0, cx.out.edits@, operator_edit(t@, operator, span, self.shift_width as nat)));
        true
    }
}

impl Vim {
    /// `>` and `<` on a span: its lines shifted, the cursor on the first
    /// non-blank of the first one.
    fn shift_span(&mut self, operator: Operator, span: Span, t: &Vec<char>, cx: &mut Ctx)
        requires
            old(cx).wf(),
            t@ == old(cx).text@,
            span_ok(t@, span),
            operator == Operator::Indent || operator == Operator::Outdent,
        ensures
            final(cx).wf(),
            final(cx).orig == old(cx).orig,
            final(cx).out.commands@ == old(cx).out.commands@,
            edits_made(old(cx).out.edits@, final(cx).out.edits@, operator_edit(t@, operator, span, old(self).shift_width as nat)),
            final(cx).text@ == operated_all(t@, operator, span, 0, false, old(self).shift_width as nat).0,
            final(self).cursor == operated_all(t@, operator, span, 0, false, old(self).shift_width as nat).1,
            final(self).cursor <= final(cx).text@.len(),
            final(self).mode == old(self).mode,
            final(self).registers == old(self).registers,
            final(self).written == old(self).written,
            final(self).keys == old(self).keys,
            final(self).shift_width == old(self).shift_width,
    {
        let (first, last) = match span {
            Span::Lines(f, l) => (f, l),
            Span::Chars(a, b) => {
                let e = if b > 0 && b - 1 > a {
                    b - 1
                } else {
                    a
                };
                proof {
                    lemma_breaks_grow(t@, a as int, e as int);
                }
                (line_of(t, a), line_of(t, e))
            },
        };
        assert((first as nat, last as nat) == shifted_lines(t@, span));
        proof {
            lemma_start_grows(t@, first as nat, last as nat);
            lemma_line_bounds(t@, last as nat);
        }
        let start = line_start(t, first);
        let end = line_end(t, last);
        let region = slice(t, start, end);
        let shifted = self.shift_lines(&region, operator == Operator::Indent);
        cx.replace(start, end, &shifted);
        self.cursor = first_non_blank(&cx.text, first);
    }

    /// `gu`, `gU` and `g~` on a span: its characters (for lines, with the
    /// line break after them) with the case mapped, the cursor at their
    /// start.
    fn recase_span(&mut self, operator: Operator, span: Span, t: &Vec<char>, cx: &mut Ctx)
        requires
            old(cx).wf(),
            t@ == old(cx).text@,
            span_ok(t@, span),
            operator == Operator::Lowercase || operator == Operator::Uppercase || operator
                == Operator::ToggleCase,
        ensures
            final(cx).wf(),
            final(cx).orig == old(cx).orig,
            final(cx).out.commands@ == old(cx).out.commands@,
            edits_made(old(cx).out.edits@, final(cx).out.edits@, operator_edit(t@, operator, span, old(self).shift_width as nat)),
            final(cx).text@ == operated_all(t@, operator, span, 0, false, old(self).shift_width as nat).0,
            final(self).cursor == operated_all(t@, operator, span, 0, false, old(self).shift_width as nat).1,
            final(self).cursor <= final(cx).text@.len(),
            final(self).mode == old(self).mode,
            final(self).registers == old(self).registers,
            final(self).written == old(self).written,
            final(self).keys == old(self).keys,
            final(self).shift_width == old(self).shift_width,
    {
        let (a, b) = match span {
            Span::Chars(a, b) => (a, b),
            Span::Lines(first, last) => lines_span(t, first, last),
        };
        assert((a as int, b as int) == cased_range(t@, span));
        let original = slice(t, a, b);
        let converted = match operator {
            Operator::Lowercase => lowered_text(&original),
            Operator::Uppercase => raised_text(&original),
            _ => toggle_case(&original),
        };
        assert(converted@ == recased(operator, t@.subrange(a as int, b as int)));
        cx.replace(a, b, &converted);
        self.cursor = a;
    }
}


/// `a` followed by `b`.
fn joined(a: &Vec<char>, b: &Vec<char>) -> (res: Vec<char>)
    ensures
        res@ == a@ + b@,
{
    let mut out = slice(a, 0, a.len());
    let mut k: usize = 0;
    while k < b.len()
        invariant
            k <= b@.len(),
            out@ == a@ + b@.take(k as int),
        decreases b@.len() - k,
    {
        out.push(b[k]);
        k = k + 1;
        assert(out@ =~= a@ + b@.take(k as int));
    }
    assert(b@.take(b@.len() as int) =~= b@);
    out
}

fn contains_break(s: &Vec<char>) -> (res: bool)
    ensures
        res == s@.contains('\n'),
{
    let mut k: usize = 0;
    while k < s.len()
        invariant
            k <= s@.len(),
            forall|j: int| 0 <= j < k ==> s@[j] != '\n',
        decreases s@.len() - k,
    {
        if s[k] == '\n' {
            assert(s@[k as int] == '\n');
            return true;
        }
        k = k + 1;
    }
    false
}

impl Vim {
    /// `i`, `a`, `I`, `A`, `o`, `O` (and in visual mode `I`, `A`): moves
    /// the cursor (opening a line for `o` and `O`) and enters insert mode.
    fn insert(&mut self, at: InsertAt, cmd: Cmd, cx: &mut Ctx)
        requires
            ready(&*old(self), &*old(cx)),
        ensures
            done(&*old(self), &*old(cx), &*final(self), &*final(cx)),
            final(self).mode == Mode::Insert,
            (final(cx).text@, final(self).cursor as int) == inserted_at(
                old(cx).text@,
                old(self).mode,
                old(self).anchor as int,
                old(self).cursor as int,
                at,
            ),
    {
        let t = slice(&cx.text, 0, cx.text.len());
        assert(t@ =~= cx.text@);
        let cursor = self.cursor;
        let line = line_of(&t, cursor);
        let visual = self.is_visual();
        let selection = self.selection_span(&t);
        proof {
            lemma_line_bounds(t@, line as nat);
        }
        let new_cursor = match at {
            InsertAt::Cursor => cursor,
            InsertAt::AfterCursor => if cursor < t.len() && t[cursor] != '\n' {
                cursor + 1
            } else {
                cursor
            },
            InsertAt::LineStart => first_non_blank(&t, line),
            InsertAt::LineEnd => line_end(&t, line),
            InsertAt::LineBelow => {
                let indent = indentation(&t, line);
                let end = line_end(&t, line);
                let body = joined(&vec!['\n'], &indent);
                cx.replace(end, end, &body);
                assert(body@ =~= seq!['\n'] + indent@);
                let n = cx.text.len();
                assert(n == t@.len() + 1 + indent@.len());
                end + 1 + indent.len()
            },
            InsertAt::LineAbove => {
                let indent = indentation(&t, line);
                let start = line_start(&t, line);
                let body = joined(&indent, &vec!['\n']);
                cx.replace(start, start, &body);
                assert(body@ =~= indent@ + seq!['\n']);
                let n = cx.text.len();
                assert(n == t@.len() + 1 + indent@.len());
                start + indent.len()
            },
            InsertAt::SelectionStart => match selection {
                Span::Chars(a, _) => a,
                Span::Lines(first, _) => line_start(&t, first),
            },
            InsertAt::SelectionEnd => match selection {
                Span::Chars(_, b) => b,
                Span::Lines(_, last) => line_end(&t, last),
            },
        };
        self.cursor = new_cursor;
        let count = match at {
            InsertAt::Cursor | InsertAt::AfterCursor | InsertAt::LineStart | InsertAt::LineEnd => {
                cmd.count_or_one()
            },
            _ => 1,
        };
        self.enter_insert(
            if visual {
                None
            } else {
                Some(cmd)
            },
            count,
            cx,
        );
    }

    /// Leaves insert mode: the text typed there is inserted again as many
    /// times as the count asked, kept for `.`, and the cursor steps back
    /// onto the last character typed.
    fn finish_insert(&mut self, cx: &mut Ctx)
        requires
            old(cx).wf(),
            old(self).cursor <= old(cx).text@.len(),
        ensures
            final(self).written == old(self).written,
            done(&*old(self), &*old(cx), &*final(self), &*final(cx)),
            final(self).mode == Mode::Normal,
            final(self).insertion is None,
    {
        let insertion = self.insertion.take();
        if let Some(ins) = insertion {
            let t = slice(&cx.text, 0, cx.text.len());
            assert(t@ =~= cx.text@);
            let cursor = self.cursor;
            let inserted = if cursor >= ins.start && t.len() >= ins.len && t.len() - ins.len == cursor
                - ins.start {
                Some(slice(&t, ins.start, cursor))
            } else {
                None
            };
            if let Some(typed) = &inserted {
                if ins.count > 1 && typed.len() > 0 {
                    let more = repeated(typed, ins.count - 1);
                    cx.replace(cursor, cursor, &more);
                    let n = cx.text.len();
                    assert(n == t@.len() + more@.len());
                    self.cursor = cursor + more.len();
                }
            }
            if let (Some(cmd), Some(typed)) = (ins.cmd, inserted) {
                self.last_change = Some(Change { cmd, inserted: Some(typed) });
            }
        }
        self.mode = Mode::Normal;
        if !is_line_start(&cx.text, self.cursor) {
            self.cursor = self.cursor - 1;
        }
    }

    /// `.`: runs the last change again (with a new count, if one was
    /// typed), typing the same text when it entered insert mode.
    fn repeat<C: Clipboard>(&mut self, count: Option<usize>, cx: &mut Ctx, clip: &mut C)
        requires
            ready(&*old(self), &*old(cx)),
        ensures
            finished(&*old(self), &*old(cx), &*final(self), &*final(cx)),
            old(self).last_change is None ==> *final(self) == *old(self) && *final(cx) == *old(cx),
            old(self).last_change matches Some(ch) ==> (plain_change(ch.cmd, ch.inserted is Some) && old(self).mode
                != Mode::Insert ==> executed_core(
                &*old(self),
                &*old(cx),
                &*final(self),
                &*final(cx),
                repeated_cmd(ch.cmd, count),
                old(self).column,
            )),
        decreases 1nat,
    {
        let (mut cmd, inserted) = match &self.last_change {
            Some(change) => (
                change.cmd,
                match &change.inserted {
                    Some(text) => Some(slice(text, 0, text.len())),
                    None => None,
                },
            ),
            None => {
                return;
            },
        };
        if count.is_some() {
            cmd.count = count;
        }
        if let Action::Repeat = cmd.action {
            return;
        }
        self.execute(cmd, cx, clip);
        if self.mode == Mode::Insert {
            if let Some(text) = &inserted {
                let at = self.cursor;
                cx.replace(at, at, text);
                let n = cx.text.len();
                self.cursor = at + text.len();
            }
            self.finish_insert(cx);
        }
    }

    /// `p`, `P` (and in visual mode `p`): puts a register's text after or
    /// before the cursor, or over the selection.
    #[verifier::rlimit(80)]
    fn paste<C: Clipboard>(&mut self, before: bool, cmd: Cmd, cx: &mut Ctx, clip: &mut C) -> (res: bool)
        requires
            ready(&*old(self), &*old(cx)),
        ensures
            done(&*old(self), &*old(cx), &*final(self), &*final(cx)),
            final(self).written@ == old(self).written@,
            final(self).registers@ == old(self).registers@,
            !res ==> final(cx).text@ == old(cx).text@ && final(self).cursor == old(self).cursor
                && final(self).mode == old(self).mode,
            res ==> exists|r: (Seq<char>, bool)|
                #![trigger may_paste(old(self).registers@, cmd.register, r)]
                r.0.len() > 0 && may_paste(old(self).registers@, cmd.register, r) && (
                final(cx).text@,
                final(self).cursor as int,
                final(self).mode,
            ) == pasted(
                old(cx).text@,
                old(self).mode,
                old(self).anchor as int,
                old(self).cursor as int,
                before,
                match cmd.count {
                    Some(c) => c as int,
                    None => 1,
                },
                r.0,
                r.1,
            ),
            ({
                let name = match cmd.register {
                    Some(c) => c,
                    None => '"',
                };
                ('a' <= name && name <= 'z') || ('A' <= name && name <= 'Z') ==> (res <==> (reg_of(
                    old(self).registers@,
                    ascii_lower(name),
                ) matches Some(v) && v.0.len() > 0))
            }),
    {
        let ghost regs = self.registers@;
        let register = match self.load(cmd.register, clip) {
            Some(r) => if r.text.len() > 0 {
                r
            } else {
                return false;
            },
            None => {
                return false;
            },
        };
        let ghost rv = reg_view(register);
        assert(may_paste(regs, cmd.register, rv));
        let t = slice(&cx.text, 0, cx.text.len());
        assert(t@ =~= cx.text@);
        let count = cmd.count_or_one();
        let ghost goal = pasted(
            t@,
            self.mode,
            self.anchor as int,
            self.cursor as int,
            before,
            count as int,
            rv.0,
            rv.1,
        );
        if self.is_visual() {
            let span = self.selection_span(&t);
            self.mode = Mode::Normal;
            match span {
                Span::Chars(a, b) => {
                    let body = if register.linewise {
                        joined(&vec!['\n'], &register.text)
                    } else {
                        repeated(&register.text, count)
                    };
                    proof {
                        if !register.linewise {
                            assert(body@ =~= repeat_text(rv.0, count as int));
                        }
                    }
                    cx.replace(a, b, &body);
                    self.cursor = a;
                    assert((cx.text@, self.cursor as int, self.mode) == goal);
                },
                Span::Lines(first, last) => {
                    let (a, b) = lines_span(&t, first, last);
                    let mut body = slice(&register.text, 0, register.text.len());
                    assert(body@ =~= rv.0);
                    if !register.linewise {
                        body.push('\n');
                    }
                    let ghost body0 = body@;
                    assert(body0 == if rv.1 {
                        rv.0
                    } else {
                        rv.0.push('\n')
                    });
                    if b > a && t[b - 1] != '\n' {
                        body.pop();
                        assert(body@ =~= body0.drop_last());
                    }
                    cx.replace(a, b, &body);
                    self.cursor = first_non_blank(&cx.text, first);
                    assert((cx.text@, self.cursor as int, self.mode) == goal);
                },
            }
            return true;
        }
        let cursor = self.cursor;
        let line = line_of(&t, cursor);
        let last = last_line(&t);
        let body = repeated(&register.text, count);
        assert(body@ =~= repeat_text(rv.0, count as int));
        if register.linewise {
            if before {
                proof {
                    lemma_line_bounds(t@, line as nat);
                }
                let at = line_start(&t, line);
                cx.replace(at, at, &body);
                self.cursor = first_non_blank(&cx.text, line);
                assert(cx.text@ == goal.0);
                assert(self.cursor as int == goal.1);
            } else if line < last {
                proof {
                    lemma_line_bounds(t@, line as nat + 1);
                }
                let at = line_start(&t, line + 1);
                cx.replace(at, at, &body);
                self.cursor = first_non_blank(&cx.text, line + 1);
                assert(cx.text@ == goal.0);
                assert(self.cursor as int == goal.1);
            } else {
                let at = t.len();
                let trimmed = if body.len() > 0 && body[body.len() - 1] == '\n' {
                    slice(&body, 0, body.len() - 1)
                } else {
                    slice(&body, 0, body.len())
                };
                let added = joined(&vec!['\n'], &trimmed);
                assert(trimmed@ == if body@.len() > 0 && body@.last() == '\n' {
                    body@.drop_last()
                } else {
                    body@
                });
                cx.replace(at, at, &added);
                assert(cx.text@ =~= t@ + added@);
                let n = cx.text.len();
                proof {
                    lemma_breaks_at_most(t@, at as int);
                }
                assert(line < n);
                self.cursor = first_non_blank(&cx.text, line + 1);
                assert(cx.text@ == goal.0);
                assert(self.cursor as int == goal.1);
            }
        } else {
            let at = if cursor < t.len() && !before && t[cursor] != '\n' {
                cursor + 1
            } else {
                cursor
            };
            cx.replace(at, at, &body);
            let n = cx.text.len();
            assert(n == t@.len() + body@.len());
            self.cursor = if contains_break(&body) {
                at
            } else {
                prev(at + body.len())
            };
            assert(cx.text@ == goal.0);
            assert(self.cursor as int == goal.1);
        }
        assert((cx.text@, self.cursor as int, self.mode) == goal);
        true
    }

    /// `J` (and in visual mode `J`): joins lines, with one space between
    /// unless the first ends in a blank or the next starts with `)`.
    fn join(&mut self, count: usize, cx: &mut Ctx) -> (res: bool)
        requires
            ready(&*old(self), &*old(cx)),
        ensures
            done(&*old(self), &*old(cx), &*final(self), &*final(cx)),
            final(self).mode == Mode::Normal,
            ({
                let plan = join_plan(old(cx).text@, old(self).mode, old(self).anchor as int, old(self).cursor as int, count as int);
                let r = joined_lines(old(cx).text@, plan.0, plan.1, old(self).cursor as int);
                final(cx).text@ == r.0 && final(self).cursor == r.1 && res == r.2
            }),
    {
        let ghost t0 = cx.text@;
        let ghost c0 = self.cursor as int;
        let visual = self.is_visual();
        let span = self.selection_span(&cx.text);
        let (first, joins) = if visual {
            match span {
                Span::Lines(f, l) => (f, if l - f > 1 {
                    l - f
                } else {
                    1
                }),
                Span::Chars(a, b) => {
                    let f = line_of(&cx.text, a);
                    let l = line_of(&cx.text, prev(b));
                    (f, if l > f && l - f > 1 {
                        l - f
                    } else {
                        1
                    })
                },
            }
        } else {
            (line_of(&cx.text, self.cursor), if count > 2 {
                count - 1
            } else {
                1
            })
        };
        assert((first as nat, joins as nat) == join_plan(t0, old(self).mode, old(self).anchor as int, c0, count as int));
        self.mode = Mode::Normal;
        let ghost goal = joined_lines(t0, first as nat, joins as nat, c0);
        let mut done_any = false;
        let mut k: usize = 0;
        while k < joins
            invariant
                cx.wf(),
                cx.orig == old(cx).orig,
                self.cursor <= cx.text@.len(),
                self.prompt == old(self).prompt,
                self.keys == old(self).keys,
                self.written == old(self).written,
                self.mode == Mode::Normal,
                k <= joins,
                joined_lines(cx.text@, first as nat, (joins - k) as nat, self.cursor as int).0 == goal.0,
                joined_lines(cx.text@, first as nat, (joins - k) as nat, self.cursor as int).1 == goal.1,
                goal.2 == (done_any || joined_lines(cx.text@, first as nat, (joins - k) as nat, self.cursor as int).2),
            ensures
                cx.wf(),
                cx.orig == old(cx).orig,
                self.cursor <= cx.text@.len(),
                self.prompt == old(self).prompt,
                self.keys == old(self).keys,
                self.written == old(self).written,
                self.mode == Mode::Normal,
                goal.0 == cx.text@,
                goal.1 == self.cursor,
                goal.2 == done_any,
            decreases joins - k,
        {
            let t = slice(&cx.text, 0, cx.text.len());
            assert(t@ =~= cx.text@);
            if first >= last_line(&t) {
                break;
            }
            proof {
                lemma_line_bounds(t@, first as nat);
                lemma_line_bounds(t@, first as nat + 1);
                lemma_end_grows(t@, first as nat, first as nat + 1);
            }
            let end = line_end(&t, first);
            let next_end = line_end(&t, first + 1);
            assert(end < t@.len()) by {
                if end == t@.len() {
                    lemma_break_after_end(t@, first as nat);
                }
            }
            let mut rest = end + 1;
            while rest < next_end && (t[rest] == ' ' || t[rest] == '\t')
                invariant
                    end < rest <= next_end || rest == end + 1,
                    next_end <= t@.len(),
                    end < t@.len(),
                    blanks_to(t@, rest as int, next_end as int) == blanks_to(t@, end + 1, next_end as int),
                decreases next_end - rest,
            {
                rest = rest + 1;
            }
            let rest = if rest <= t.len() { rest } else { t.len() };
            let bare = end == line_start(&t, first) || (end > 0 && (t[end - 1] == ' ' || t[end - 1] == '\t'));
            let separator: Vec<char> = if bare || rest >= t.len() || t[rest] == '\n' || t[rest] == ')' {
                Vec::new()
            } else {
                vec![' ']
            };
            let ghost before = cx.text@;
            cx.replace(end, rest, &separator);
            self.cursor = end;
            proof {
                assert(join_once(before, first as nat) == Some((cx.text@, end as int)));
            }
            done_any = true;
            k = k + 1;
        }
        done_any
    }

    /// `r` (and in visual mode `r`): replaces characters with `ch` (a line
    /// break replaces them all with one).
    #[verifier::rlimit(40)]
    #[verifier::rlimit(50)]
    fn replace_chars(&mut self, ch: char, count: usize, cx: &mut Ctx) -> (res: bool)
        requires
            ready(&*old(self), &*old(cx)),
        ensures
            done(&*old(self), &*old(cx), &*final(self), &*final(cx)),
            match replaced_chars(old(cx).text@, old(self).mode, old(self).anchor as int, old(self).cursor as int, ch, count as int) {
                None => !res && final(cx).text@ == old(cx).text@ && final(self).cursor == old(self).cursor
                    && final(self).mode == old(self).mode,
                Some((u, c, m)) => res && final(cx).text@ == u && final(self).cursor == c
                    && final(self).mode == m,
            },
    {
        let t = slice(&cx.text, 0, cx.text.len());
        assert(t@ =~= cx.text@);
        if self.is_visual() {
            let (a, b) = match self.selection_span(&t) {
                Span::Chars(a, b) => (a, b),
                Span::Lines(first, last) => lines_span(&t, first, last),
            };
            let mut replaced: Vec<char> = Vec::new();
            let mut k = a;
            while k < b
                invariant
                    a <= k <= b <= t@.len(),
                    replaced@ == Seq::new((k - a) as nat, |i: int| if t@[a + i] == '\n' { '\n' } else { ch }),
                decreases b - k,
            {
                replaced.push(if t[k] == '\n' {
                    '\n'
                } else {
                    ch
                });
                k = k + 1;
                assert(replaced@ =~= Seq::new((k - a) as nat, |i: int| if t@[a + i] == '\n' { '\n' } else { ch }));
            }
            cx.replace(a, b, &replaced);
            self.cursor = a;
            self.mode = Mode::Normal;
            return true;
        }
        let eol = line_end(&t, line_of(&t, self.cursor));
        let start = self.cursor;
        proof {
            lemma_position_on_line(t@, start as int);
        }
        let mut end = start;
        let mut k: usize = 0;
        let mut fits = true;
        while k < count && fits
            invariant
                start <= end <= t@.len(),
                end - start == k,
                k <= count,
                eol <= t@.len(),
                fits ==> end <= eol,
                !fits ==> end == eol && k < count,
            decreases count - k, (if fits {
                1int
            } else {
                0int
            }),
        {
            if end >= eol {
                fits = false;
            } else {
                end = end + 1;
                k = k + 1;
            }
        }
        if !fits {
            return false;
        }
        if ch == '\n' {
            cx.replace(start, end, &vec!['\n']);
            let n = cx.text.len();
            self.cursor = start + 1;
        } else {
            let one = vec![ch];
            let body = repeated(&one, count);
            assert(one@.len() == 1);
            assert(body@.len() == count) by (nonlinear_arith)
                requires
                    body@.len() == one@.len() * count,
                    one@.len() == 1,
            ;
            cx.replace(start, end, &body);
            assert(body@ =~= Seq::new(count as nat, |i: int| ch));
            let n = cx.text.len();
            self.cursor = if count > 0 {
                start + (count - 1)
            } else {
                start
            };
        }
        true
    }

    /// `~`: toggles the case of `count` characters from the cursor (within
    /// its line) and moves past them.
    fn toggle_case_under_cursor(&mut self, count: usize, cx: &mut Ctx) -> (res: bool)
        requires
            ready(&*old(self), &*old(cx)),
        ensures
            done(&*old(self), &*old(cx), &*final(self), &*final(cx)),
            final(self).mode == old(self).mode,
            match case_toggled(old(cx).text@, old(self).cursor as int, count as int) {
                None => !res && final(cx).text@ == old(cx).text@ && final(self).cursor == old(self).cursor,
                Some((u, c)) => res && final(cx).text@ == u && final(self).cursor == c,
            },
    {
        let t = slice(&cx.text, 0, cx.text.len());
        assert(t@ =~= cx.text@);
        let eol = line_end(&t, line_of(&t, self.cursor));
        let start = self.cursor;
        let mut end = start;
        let mut k: usize = 0;
        while k < count && end < eol
            invariant
                start <= end <= t@.len(),
                eol <= t@.len(),
                end == start + k,
                k <= count,
                start < eol ==> end <= eol,
                start >= eol ==> k == 0,
            decreases count - k,
        {
            end = end + 1;
            k = k + 1;
        }
        if end == start {
            return false;
        }
        let toggled = toggle_case(&slice(&t, start, end));
        cx.replace(start, end, &toggled);
        let n = cx.text.len();
        self.cursor = start + toggled.len();
        true
    }
}


/// `r` with `ch`: in visual mode every character of the selection (line
/// breaks stay) and back to normal mode at its start; else the `count`
/// characters from the cursor, when its line has that many, by one line
/// break (the cursor after it) or by `count` copies of `ch` (the cursor on
/// the last); none when the line is too short.
pub open spec fn replaced_chars(t: Seq<char>, mode: Mode, anchor: int, cursor: int, ch: char, count: int) -> Option<(Seq<char>, int, Mode)> {
    if mode == Mode::Visual || mode == Mode::VisualLine {
        let (a, b) = match selection_span_of(t, mode, anchor, cursor) {
            Span::Chars(a, b) => (a as int, b as int),
            Span::Lines(f, l) => (
                start_of_line(t, f as nat),
                if l < last_line_of(t) {
                    start_of_line(t, l as nat + 1)
                } else {
                    t.len() as int
                },
            ),
        };
        Some(
            (
                t.take(a) + Seq::new((b - a) as nat, |i: int| if t[a + i] == '\n' { '\n' } else { ch })
                    + t.skip(b),
                a,
                Mode::Normal,
            ),
        )
    } else {
        let eol = end_of_line(t, breaks_before(t, cursor));
        if cursor + count > eol {
            None
        } else if ch == '\n' {
            Some((t.take(cursor) + seq!['\n'] + t.skip(cursor + count), cursor + 1, mode))
        } else {
            Some(
                (
                    t.take(cursor) + Seq::new(count as nat, |i: int| ch) + t.skip(cursor + count),
                    if count > 0 {
                        cursor + count - 1
                    } else {
                        cursor
                    },
                    mode,
                ),
            )
        }
    }
}

/// `count` copies of a text, one after the other.
pub open spec fn repeat_text(r: Seq<char>, count: int) -> Seq<char> {
    Seq::new((r.len() * count) as nat, |i: int| r[i % (r.len() as int)])
}

/// What a paste of the text `r` (whole lines when `linewise`) leaves: the
/// text, the cursor and the mode. Over a visual selection of characters,
/// the text (`count` times; lines go on a line of their own) replaces them;
/// over selected lines, the lines (ending as the last one did) replace
/// them; both end in normal mode. Else lines go above the cursor's line
/// (`before`) or below it, the cursor on their first non-blank; and
/// characters go after the cursor (at it for `before` or on an empty
/// line), the cursor on the last of them, or on the first when they hold a
/// line break.
pub open spec fn pasted(t: Seq<char>, mode: Mode, anchor: int, cursor: int, before: bool, count: int, r: Seq<char>, linewise: bool) -> (Seq<char>, int, Mode) {
    if mode == Mode::Visual || mode == Mode::VisualLine {
        match selection_span_of(t, mode, anchor, cursor) {
            Span::Chars(a, b) => {
                let body = if linewise {
                    seq!['\n'] + r
                } else {
                    repeat_text(r, count)
                };
                (t.take(a as int) + body + t.skip(b as int), a as int, Mode::Normal)
            },
            Span::Lines(f, l) => {
                let a = start_of_line(t, f as nat);
                let b = if l < last_line_of(t) {
                    start_of_line(t, l as nat + 1)
                } else {
                    t.len() as int
                };
                let body0 = if linewise {
                    r
                } else {
                    r.push('\n')
                };
                let body = if b > a && t[b - 1] != '\n' {
                    body0.drop_last()
                } else {
                    body0
                };
                let u = t.take(a) + body + t.skip(b);
                (u, first_non_blank_of(u, f as nat), Mode::Normal)
            },
        }
    } else {
        let line = breaks_before(t, cursor);
        let body = repeat_text(r, count);
        if linewise {
            if before {
                let at = start_of_line(t, line);
                let u = t.take(at) + body + t.skip(at);
                (u, first_non_blank_of(u, line), mode)
            } else if line < last_line_of(t) {
                let at = start_of_line(t, line + 1);
                let u = t.take(at) + body + t.skip(at);
                (u, first_non_blank_of(u, line + 1), mode)
            } else {
                let trimmed = if body.len() > 0 && body.last() == '\n' {
                    body.drop_last()
                } else {
                    body
                };
                let u = t + (seq!['\n'] + trimmed);
                (u, first_non_blank_of(u, line + 1), mode)
            }
        } else {
            let at = if cursor < t.len() && !before && t[cursor] != '\n' {
                cursor + 1
            } else {
                cursor
            };
            let u = t.take(at) + body + t.skip(at);
            (
                u,
                if body.contains('\n') {
                    at
                } else if at + body.len() > 0 {
                    at + body.len() - 1
                } else {
                    0
                },
                mode,
            )
        }
    }
}

/// Whether a paste from `register` may take the text `r` (see [`loaded`]).
pub open spec fn may_paste(regs: Seq<(char, Register)>, register: Option<char>, r: (Seq<char>, bool)) -> bool {
    let name = match register {
        Some(c) => c,
        None => '"',
    };
    let from_clipboard = r.1 == (r.0.len() > 0 && r.0.last() == '\n');
    if name == '_' {
        false
    } else if name == '+' || name == '*' {
        from_clipboard
    } else if ('a' <= name && name <= 'z') || ('A' <= name && name <= 'Z') {
        reg_of(regs, ascii_lower(name)) == Some(r)
    } else {
        Some(r) == reg_of(regs, '"') || from_clipboard
    }
}

/// Where the blanks (spaces and tabs) from `i` end, before `e`.
pub open spec fn blanks_to(t: Seq<char>, i: int, e: int) -> int
    decreases e - i,
{
    if i < e && 0 <= i < t.len() && (t[i] == ' ' || t[i] == '\t') {
        blanks_to(t, i + 1, e)
    } else {
        i
    }
}

/// `J` once at line `first`: its line break and the next line's leading
/// blanks give way to one space (to none after a blank or an empty line,
/// or before a `)` or an empty next line), the cursor where they were;
/// none on the last line.
pub open spec fn join_once(t: Seq<char>, first: nat) -> Option<(Seq<char>, int)> {
    if first >= last_line_of(t) {
        None
    } else {
        let end = end_of_line(t, first);
        let rest = blanks_to(t, end + 1, end_of_line(t, first + 1));
        let bare = end == start_of_line(t, first) || (end > 0 && (t[end - 1] == ' ' || t[end - 1]
            == '\t'));
        let sep = if bare || rest >= t.len() || t[rest] == '\n' || t[rest] == ')' {
            Seq::<char>::empty()
        } else {
            seq![' ']
        };
        Some((t.take(end) + sep + t.skip(rest), end))
    }
}

/// `k` joins at line `first`, stopping at the last line: the text, the
/// cursor and whether any join was made.
pub open spec fn joined_lines(t: Seq<char>, first: nat, k: nat, cursor: int) -> (Seq<char>, int, bool)
    decreases k,
{
    if k == 0 {
        (t, cursor, false)
    } else {
        match join_once(t, first) {
            None => (t, cursor, false),
            Some((u, c)) => {
                let r = joined_lines(u, first, (k - 1) as nat, c);
                (r.0, r.1, true)
            },
        }
    }
}

/// The line `J` starts at and how many joins it makes: in visual mode from
/// the selection's first line, one join fewer than its lines (at least
/// one); else from the cursor's line, one fewer than the count (at least
/// one).
pub open spec fn join_plan(t: Seq<char>, mode: Mode, anchor: int, cursor: int, count: int) -> (nat, nat) {
    if mode == Mode::Visual || mode == Mode::VisualLine {
        match selection_span_of(t, mode, anchor, cursor) {
            Span::Lines(f, l) => (f as nat, if l - f > 1 { (l - f) as nat } else { 1 }),
            Span::Chars(a, b) => {
                let f = breaks_before(t, a as int);
                let l = breaks_before(t, if b > 0 { b - 1 } else { 0 });
                (f, if l > f && l - f > 1 { (l - f) as nat } else { 1 })
            },
        }
    } else {
        (breaks_before(t, cursor), if count > 2 { (count - 1) as nat } else { 1 })
    }
}

/// `~` on `count` characters from the cursor, within its line: their case
/// toggled and the cursor after them; none when there is none to toggle.
pub open spec fn case_toggled(t: Seq<char>, cursor: int, count: int) -> Option<(Seq<char>, int)> {
    let eol = end_of_line(t, breaks_before(t, cursor));
    let end = if cursor >= eol {
        cursor
    } else if cursor + count <= eol {
        cursor + count
    } else {
        eol
    };
    if end == cursor {
        None
    } else {
        let toggled_part = toggled(t.subrange(cursor, end));
        Some((t.take(cursor) + toggled_part + t.skip(end), cursor + toggled_part.len()))
    }
}

/// The motions that keep the goal column.
pub open spec fn vertical(m: Motion) -> bool {
    m is Up || m is Down || m is HalfPageDown || m is HalfPageUp
}

/// A count as the commands that take one read it: one when none was typed.
pub open spec fn count_of(count: Option<usize>) -> int {
    match count {
        Some(c) => c as int,
        None => 1,
    }
}

/// What an edit of the text into `u` with the cursor at `c` and `mode`
/// leaves once a key is handled: the edits turn `t` into `u`, and the
/// cursor is on a character of its line in normal mode, else within the
/// text.
#[verifier::opaque]
pub open spec fn lands(t: Seq<char>, out: Outcome, after: Vim, u: Seq<char>, c: int, mode: Mode) -> bool {
    &&& apply_all(t, out.edits@) == Some(u)
    &&& after.mode_of() == mode
    &&& after.cursor_at() == if mode == Mode::Normal {
        normal_position(u, c)
    } else if c > u.len() {
        u.len() as int
    } else {
        c
    }
}

/// The text and the cursor that entering insert mode `at` a place leaves,
/// from the cursor at `c` (in `mode`, the selection from `anchor`): at or
/// after the cursor (not past a line break), at the first non-blank or the
/// end of the line, on a new line below or above with the line's
/// indentation, or at the start or end of the selection.
pub open spec fn inserted_at(t: Seq<char>, mode: Mode, anchor: int, c: int, at: InsertAt) -> (Seq<char>, int) {
    let line = breaks_before(t, c) as nat;
    let indent = t.subrange(start_of_line(t, line), first_non_blank_of(t, line));
    match at {
        InsertAt::Cursor => (t, c),
        InsertAt::AfterCursor => (t, if c < t.len() && t[c] != '\n' {
            c + 1
        } else {
            c
        }),
        InsertAt::LineStart => (t, first_non_blank_of(t, line)),
        InsertAt::LineEnd => (t, end_of_line(t, line)),
        InsertAt::LineBelow => {
            let end = end_of_line(t, line);
            (t.take(end) + (seq!['\n'] + indent) + t.skip(end), end + 1 + indent.len())
        },
        InsertAt::LineAbove => {
            let start = start_of_line(t, line);
            (t.take(start) + (indent + seq!['\n']) + t.skip(start), start + indent.len())
        },
        InsertAt::SelectionStart => (t, match selection_span_of(t, mode, anchor, c) {
            Span::Chars(a, _) => a as int,
            Span::Lines(first, _) => start_of_line(t, first as nat),
        }),
        InsertAt::SelectionEnd => (t, match selection_span_of(t, mode, anchor, c) {
            Span::Chars(_, b) => b as int,
            Span::Lines(_, last) => end_of_line(t, last as nat),
        }),
    }
}

/// What `v`, `V` (`Visual`), `o` in visual mode (`SwapSelectionEnds`)
/// and a text object selected in visual mode (`SelectObject`) do to the
/// mode, the cursor and the anchor, from `mode`, `cursor` and `anchor` in
/// `t`: `v` (`V`) starts a character (line) selection at the cursor, or
/// switches to it from the other kind, and leaves visual mode when it is
/// the kind already on; `o` swaps the cursor and the anchor; a text object
/// found around the cursor becomes a character selection from its start to
/// its last character, and nothing happens when none is found.
pub open spec fn selection_change(t: Seq<char>, mode: Mode, cursor: int, anchor: int, action: Action) -> (Mode, int, int) {
    let visual = mode == Mode::Visual || mode == Mode::VisualLine;
    match action {
        Action::Visual { linewise } => {
            let m = if linewise {
                Mode::VisualLine
            } else {
                Mode::Visual
            };
            if mode == m {
                (Mode::Normal, cursor, anchor)
            } else {
                (m, cursor, if visual {
                    anchor
                } else {
                    cursor
                })
            }
        },
        Action::SwapSelectionEnds => (mode, anchor, cursor),
        Action::SelectObject { object, around } => match object_span_of(t, cursor, object, around) {
            Some((a, b)) => if a < b {
                (Mode::Visual, b - 1, a)
            } else {
                (mode, cursor, anchor)
            },
            None => (mode, cursor, anchor),
        },
        _ => (mode, cursor, anchor),
    }
}

/// Whether an action only changes the selection (see [`selection_change`]).
pub open spec fn selects(action: Action) -> bool {
    action is Visual || action is SwapSelectionEnds || action is SelectObject
}

/// What a key that completes `v`, `V`, `o` or a text object selection
/// leaves: the mode, cursor and anchor of [`selection_change`], the cursor
/// on a character of its line in normal mode, and the text as it was.
#[verifier::opaque]
pub open spec fn key_selected(t: Seq<char>, before: Vim, after: Vim, action: Action) -> bool {
    let from = if before.cursor_at() <= t.len() {
        before.cursor_at() as int
    } else {
        t.len() as int
    };
    let anchor = if before.anchor_at() <= t.len() {
        before.anchor_at() as int
    } else {
        t.len() as int
    };
    let (m, c, a) = selection_change(t, before.mode_of(), from, anchor, action);
    &&& after.mode_of() == m
    &&& after.anchor_at() == a
    &&& after.cursor_at() == if m == Mode::Normal {
        normal_position(t, c)
    } else {
        c
    }
}

/// The actions that change only the mode, the cursor or the selection:
/// escape, entering or leaving visual mode, swapping the selection's ends
/// and selecting a text object.
pub open spec fn quiet_action(action: Action) -> bool {
    action is Escape || action is Visual || action is SwapSelectionEnds || action is SelectObject
}

/// The commands an action asks the editor for, for the actions that only
/// do that: undo and redo as many times as counted, the buffer moves, and
/// `ZZ` and `ZQ`.
pub open spec fn action_commands(action: Action, count: Option<usize>) -> Option<Seq<Command>> {
    let n: nat = match count {
        Some(c) => c as nat,
        None => 1,
    };
    match action {
        Action::Undo => Some(Seq::new(n, |_i: int| Command::Undo)),
        Action::Redo => Some(Seq::new(n, |_i: int| Command::Redo)),
        Action::NextBuffer => Some(seq![Command::NextBuffer]),
        Action::PreviousBuffer => Some(seq![Command::PreviousBuffer]),
        Action::WriteClose => Some(seq![Command::Write, Command::Close { force: false }]),
        Action::ForceClose => Some(seq![Command::Close { force: true }]),
        _ => None,
    }
}

/// A move by a motion: no edit or command, the mode and the text as they
/// were, and for a plain motion the cursor where it takes it.
spec fn moves_only(v0: &Vim, cx0: &Ctx, v: &Vim, cx: &Ctx, m: Motion, count: Option<usize>, goal: Option<usize>) -> bool {
    &&& v.mode == v0.mode
    &&& cx.text == cx0.text
    &&& cx.out.edits@ == cx0.out.edits@
    &&& cx.out.commands@ == cx0.out.commands@
    &&& plain_motion(m) ==> v.cursor == moved_to(
        cx0.text@,
        v0.cursor as int,
        goal,
        m,
        count,
        v0.mode == Mode::Visual || v0.mode == Mode::VisualLine,
    )
    &&& (m is Find || m is RepeatFind) ==> v.cursor == find_moved_to(cx0.text@, v0.cursor as int, v0.last_find, m, count)
    &&& (m is SearchNext || m is SearchWord) ==> v.cursor == search_moved_to(cx0.text@, v0.cursor as int, search_view(v0.search), m, count)
    &&& v.last_find == last_find_after(v0.last_find, m)
}

spec fn settled(v0: &Vim, cx0: &Ctx, v: &Vim, cx: &Ctx) -> bool {
    &&& ran_on(v0, cx0, v, cx)
    &&& v.written == v0.written
}

/// [`settled`], but for commands that may write the clipboard.
spec fn ran_on(v0: &Vim, cx0: &Ctx, v: &Vim, cx: &Ctx) -> bool {
    &&& cx.wf()
    &&& cx.orig == cx0.orig
    &&& v.cursor <= cx.text@.len()
    &&& v.keys == v0.keys
}

impl Vim {
    /// Moves the cursor by a motion (onto a character of its line, but
    /// for `$` in visual mode).
    fn move_cursor(&mut self, motion: Motion, count: Option<usize>, cx: &mut Ctx) -> (res: bool)
        requires
            ready(&*old(self), &*old(cx)),
        ensures
            done(&*old(self), &*old(cx), &*final(self), &*final(cx)),
            final(self).mode == old(self).mode,
            final(cx).text == old(cx).text,
            final(cx).out.edits@ == old(cx).out.edits@,
            final(cx).out.commands@ == old(cx).out.commands@,
            plain_motion(motion) ==> final(self).cursor == moved_to(
                old(cx).text@,
                old(self).cursor as int,
                old(self).column,
                motion,
                count,
                old(self).mode == Mode::Visual || old(self).mode == Mode::VisualLine,
            ),
            (motion is Find || motion is RepeatFind) ==> final(self).cursor == find_moved_to(
                old(cx).text@,
                old(self).cursor as int,
                old(self).last_find,
                motion,
                count,
            ),
            final(self).last_find == last_find_after(old(self).last_find, motion),
            (motion is SearchNext || motion is SearchWord) ==> final(self).cursor == search_moved_to(
                old(cx).text@,
                old(self).cursor as int,
                search_view(old(self).search),
                motion,
                count,
            ),
    {
        let t = slice(&cx.text, 0, cx.text.len());
        assert(t@ =~= cx.text@);
        let found = self.motion_target(motion, count, &t, false, &mut cx.out.message);
        let pos = match found {
            Some((p, _)) => p,
            None => {
                return false;
            },
        };
        let line_end_motion = motion == Motion::LineEnd;
        self.cursor = if line_end_motion && self.is_visual() {
            pos
        } else {
            clamp_normal(&t, pos)
        };
        if line_end_motion {
            self.column = Some(usize::MAX);
        }
        true
    }

    /// Carries out a command; whether it did something.
    #[verifier::rlimit(100)]
    #[verifier::spinoff_prover]
    fn execute<C: Clipboard>(&mut self, cmd: Cmd, cx: &mut Ctx, clip: &mut C) -> (res: bool)
        requires
            ready(&*old(self), &*old(cx)),
        ensures
            ran_on(&*old(self), &*old(cx), &*final(self), &*final(cx)),
            executed(&*old(self), &*old(cx), &*final(self), &*final(cx), cmd, old(self).column),
        decreases
            match cmd.action {
                Action::Repeat => 2nat,
                _ => 0nat,
            },
    {
        let count = cmd.count_or_one();
        match cmd.action {
            Action::Move(motion) => self.move_cursor(motion, cmd.count, cx),
            Action::Operate(operator, target) => self.operate(operator, target, cmd, cx, clip),
            Action::Insert(at) => {
                self.insert(at, cmd, cx);
                true
            },
            Action::Paste { before } => self.paste(before, cmd, cx, clip),
            Action::Join => self.join(count, cx),
            Action::Replace(ch) => self.replace_chars(ch, count, cx),
            Action::ToggleCaseUnderCursor => self.toggle_case_under_cursor(count, cx),
            Action::Undo | Action::Redo => {
                let undo = match cmd.action {
                    Action::Undo => true,
                    _ => false,
                };
                let mut k: usize = 0;
                while k < count
                    invariant
                        cx.wf(),
                        cx.orig == old(cx).orig,
                        cx.text == old(cx).text,
                        self.cursor <= cx.text@.len(),
                        self.mode == old(self).mode,
                        k <= count,
                        cx.out.edits@ == old(cx).out.edits@,
                        cx.out.commands@ == old(cx).out.commands@ + Seq::new(
                            k as nat,
                            |_i: int|
                                if undo {
                                    Command::Undo
                                } else {
                                    Command::Redo
                                },
                        ),
                    decreases count - k,
                {
                    cx.out.commands.push(
                        if undo {
                            Command::Undo
                        } else {
                            Command::Redo
                        },
                    );
                    k = k + 1;
                    assert(cx.out.commands@ =~= old(cx).out.commands@ + Seq::new(
                        k as nat,
                        |_i: int|
                            if undo {
                                Command::Undo
                            } else {
                                Command::Redo
                            },
                    ));
                }
                assert(Seq::new(
                    k as nat,
                    |_i: int|
                        if undo {
                            Command::Undo
                        } else {
                            Command::Redo
                        },
                ) =~= if undo {
                    Seq::new(k as nat, |_i: int| Command::Undo)
                } else {
                    Seq::new(k as nat, |_i: int| Command::Redo)
                });
                assert(action_commands(cmd.action, cmd.count) matches Some(cs) && cx.out.commands@
                    == old(cx).out.commands@ + cs);
                true
            },
            Action::Repeat => {
                self.repeat(cmd.count, cx, clip);
                true
            },
            Action::Visual { linewise } => {
                let mode = if linewise {
                    Mode::VisualLine
                } else {
                    Mode::Visual
                };
                if self.mode == mode {
                    self.mode = Mode::Normal;
                } else {
                    if !self.is_visual() {
                        self.anchor = self.cursor;
                    }
                    self.mode = mode;
                }
                true
            },
            Action::SwapSelectionEnds => {
                let a = self.anchor;
                self.anchor = self.cursor;
                self.cursor = a;
                true
            },
            Action::SelectObject { object, around } => {
                match object_range(&cx.text, self.cursor, object, around) {
                    Some((a, b)) => if a < b {
                        self.anchor = a;
                        self.cursor = b - 1;
                        self.mode = Mode::Visual;
                        true
                    } else {
                        false
                    },
                    None => false,
                }
            },
            Action::Prompt(kind) => {
                self.prompt = Some(Prompt { kind, text: Vec::new() });
                true
            },
            Action::NextBuffer => {
                cx.out.commands.push(Command::NextBuffer);
                true
            },
            Action::PreviousBuffer => {
                cx.out.commands.push(Command::PreviousBuffer);
                true
            },
            Action::WriteClose => {
                cx.out.commands.push(Command::Write);
                cx.out.commands.push(Command::Close { force: false });
                true
            },
            Action::ForceClose => {
                cx.out.commands.push(Command::Close { force: true });
                true
            },
            Action::Escape => {
                self.mode = Mode::Normal;
                true
            },
        }
    }

    /// Runs a command: vertical motions keep the column they started in,
    /// and a change made outside visual mode that did not enter insert
    /// mode is kept for `.`.
    #[verifier::rlimit(60)]
    #[verifier::spinoff_prover]
    fn run<C: Clipboard>(&mut self, cmd: Cmd, cx: &mut Ctx, clip: &mut C)
        requires
            ready(&*old(self), &*old(cx)),
        ensures
            ran_on(&*old(self), &*old(cx), &*final(self), &*final(cx)),
            executed(&*old(self), &*old(cx), &*final(self), &*final(cx), cmd, goal_for(cmd.action, old(self).column)),
    {
        let vertical = match cmd.action {
            Action::Move(Motion::Up) | Action::Move(Motion::Down) | Action::Move(
                Motion::HalfPageDown,
            ) | Action::Move(Motion::HalfPageUp) => true,
            _ => false,
        };
        if !vertical {
            self.column = None;
        }
        let visual = self.is_visual();
        let did = self.execute(cmd, cx, clip);
        if did && !visual && cmd.is_change() && self.mode != Mode::Insert {
            self.last_change = Some(Change { cmd, inserted: None });
        }
    }

    /// A search typed at the prompt: an empty pattern searches again for
    /// the last one, in the direction now asked.
    fn search_for(&mut self, pattern: Vec<char>, forward: bool, cx: &mut Ctx)
        requires
            old(cx).wf(),
            old(self).cursor <= old(cx).text@.len(),
        ensures
            settled(&*old(self), &*old(cx), &*final(self), &*final(cx)),
            final(cx).text == old(cx).text,
            final(cx).out.edits == old(cx).out.edits,
            final(cx).out.commands == old(cx).out.commands,
            final(self).mode == old(self).mode,
            final(self).prompt == old(self).prompt,
            search_view(final(self).search) == (if pattern@.len() > 0 {
                Some((pattern@, forward, false))
            } else {
                match search_view(old(self).search) {
                    Some((p, _, w)) => Some((p, forward, w)),
                    None => None,
                }
            }),
            match search_view(final(self).search) {
                None => final(self).cursor == old(self).cursor,
                Some((p, _, w)) => exists|r: Option<usize>|
                    #![trigger search_hit(old(cx).text@, old(self).cursor as int, p, w, forward, r)]
                    search_hit(old(cx).text@, old(self).cursor as int, p, w, forward, r)
                        && final(self).cursor == match r {
                        Some(ix) => ix,
                        None => old(self).cursor,
                    },
            },
    {
        if pattern.len() > 0 {
            self.search = Some(Search { pattern, forward, whole_word: false });
        } else {
            match self.search.take() {
                Some(mut found) => {
                    found.forward = forward;
                    self.search = Some(found);
                },
                None => {
                    return;
                },
            }
        }
        let t = slice(&cx.text, 0, cx.text.len());
        assert(t@ =~= cx.text@);
        let ghost from = self.cursor as int;
        let found = self.find_match(&t, self.cursor, forward, &mut cx.out.message);
        proof {
            let sv = search_view(self.search);
            assert(sv is Some);
            let (p, _, w) = sv.unwrap();
            assert(search_hit(t@, from, p, w, forward, found));
        }
        if let Some(pos) = found {
            self.cursor = pos;
        }
    }

    /// A key typed while the prompt is open: characters are typed into it,
    /// backspace deletes (and closes an empty prompt), escape closes it,
    /// enter runs the command line or the search.
    fn prompt_key(&mut self, key: Key, cx: &mut Ctx)
        requires
            old(cx).wf(),
            old(self).cursor <= old(cx).text@.len(),
        ensures
            settled(&*old(self), &*old(cx), &*final(self), &*final(cx)),
            final(self).mode == old(self).mode,
            prompt_typed(old(self).prompt_of(), key, final(self).prompt_of()),
            !(key is Enter) ==> final(cx).out == old(cx).out && final(cx).text == old(cx).text,
            final(cx).text == old(cx).text,
            final(cx).out.edits == old(cx).out.edits,
            key is Enter ==> match old(self).prompt_of() {
                Some((PromptKind::Command, typed)) => ex_ran(typed, old(cx).out, final(cx).out),
                Some(_) => final(cx).out.commands == old(cx).out.commands,
                None => true,
            },
            key is Enter ==> match old(self).prompt_of() {
                Some((kind, typed)) => prompt_entered(
                    old(cx).text@,
                    *old(self),
                    *final(self),
                    kind,
                    typed,
                    old(self).cursor as int,
                    false,
                ),
                None => true,
            },
            !(key is Enter) ==> final(self).cursor == old(self).cursor,
    {
        let mut prompt = match self.prompt.take() {
            Some(p) => p,
            None => {
                return;
            },
        };
        match key {
            Key::Char(ch) => {
                prompt.text.push(ch);
                self.prompt = Some(prompt);
            },
            Key::Backspace => {
                if prompt.text.len() > 0 {
                    prompt.text.pop();
                    self.prompt = Some(prompt);
                }
            },
            Key::Escape | Key::Ctrl('[') => {},
            Key::Enter => match prompt.kind {
                PromptKind::Command => self.ex(&prompt.text, cx),
                PromptKind::Search { forward } => self.search_for(prompt.text, forward, cx),
            },
            _ => {
                self.prompt = Some(prompt);
            },
        }
    }
}

/// The search that enter at a search prompt sets: the typed pattern, or
/// for an empty one the last search, in the direction now asked.
pub open spec fn entered_search(
    last: Option<(Seq<char>, bool, bool)>,
    typed: Seq<char>,
    forward: bool,
) -> Option<(Seq<char>, bool, bool)> {
    if typed.len() > 0 {
        Some((typed, forward, false))
    } else {
        match last {
            Some((p, _, w)) => Some((p, forward, w)),
            None => None,
        }
    }
}

/// Where a cursor at `c` comes to rest in `t` after a key: onto a
/// character of its line in normal mode, else within the text.
pub open spec fn resting(t: Seq<char>, mode: Mode, c: int) -> int {
    if mode == Mode::Normal {
        normal_position(t, c)
    } else if c > t.len() {
        t.len() as int
    } else {
        c
    }
}

/// Where a cursor at `c` ends: where it comes to rest (see [`resting`])
/// when `settle` holds, else at `c`.
pub open spec fn landed(t: Seq<char>, mode: Mode, c: int, settle: bool) -> int {
    if settle {
        resting(t, mode, c)
    } else {
        c
    }
}

/// What enter does at a prompt of `kind` holding `typed`, the cursor
/// being at `from` in `t`: a command line moves the cursor as
/// [`ex_cursor`] says and keeps the search; a search sets
/// [`entered_search`] and moves to the match that [`search_hit`] finds
/// (staying put when there is none). With `settle`, the cursor then comes
/// to rest as [`resting`] says.
pub open spec fn prompt_entered(
    t: Seq<char>,
    before: Vim,
    after: Vim,
    kind: PromptKind,
    typed: Seq<char>,
    from: int,
    settle: bool,
) -> bool {
    let mode = before.mode_of();
    match kind {
        PromptKind::Command => {
            &&& after.cursor_at() == landed(t, mode, ex_cursor(typed, t, from), settle)
            &&& after.search_of() == before.search_of()
        },
        PromptKind::Search { forward } => {
            let s = entered_search(before.search_of(), typed, forward);
            &&& after.search_of() == s
            &&& match s {
                None => after.cursor_at() == landed(t, mode, from, settle),
                Some((p, _, w)) => exists|r: Option<usize>|
                    #![trigger search_hit(t, from, p, w, forward, r)]
                    search_hit(t, from, p, w, forward, r) && after.cursor_at() == landed(
                        t,
                        mode,
                        match r {
                            Some(ix) => ix as int,
                            None => from,
                        },
                        settle,
                    ),
            }
        },
    }
}

proof fn lemma_prompt_settles(
    t: Seq<char>,
    before: Vim,
    entered: Vim,
    mid: Vim,
    after: Vim,
    kind: PromptKind,
    typed: Seq<char>,
    from: int,
)
    requires
        prompt_entered(t, entered, mid, kind, typed, from, false),
        entered.mode_of() == before.mode_of(),
        entered.search_of() == before.search_of(),
        after.cursor_at() == resting(t, before.mode_of(), mid.cursor_at() as int),
        after.search_of() == mid.search_of(),
    ensures
        prompt_entered(t, before, after, kind, typed, from, true),
{
    match kind {
        PromptKind::Command => {},
        PromptKind::Search { forward } => {
            match entered_search(before.search_of(), typed, forward) {
                None => {},
                Some((p, _, w)) => {
                    let r = choose|r: Option<usize>|
                        #![trigger search_hit(t, from, p, w, forward, r)]
                        search_hit(t, from, p, w, forward, r) && mid.cursor_at() == landed(
                            t,
                            before.mode_of(),
                            match r {
                                Some(ix) => ix as int,
                                None => from,
                            },
                            false,
                        );
                    assert(search_hit(t, from, p, w, forward, r));
                },
            }
        },
    }
}

/// What a key does to the prompt: a character is typed into it,
/// backspace deletes the last one (closing an empty prompt), escape and
/// enter close it, other keys leave it.
pub open spec fn prompt_typed(before: Option<(PromptKind, Seq<char>)>, key: Key, after: Option<(PromptKind, Seq<char>)>) -> bool {
    match before {
        None => after is None,
        Some((kind, text)) => match key {
            Key::Char(c) => after == Some((kind, text.push(c))),
            Key::Backspace => if text.len() > 0 {
                after == Some((kind, text.drop_last()))
            } else {
                after is None
            },
            Key::Escape | Key::Ctrl('[') | Key::Enter => after is None,
            _ => after == before,
        },
    }
}


/// What a key that completes `cmd` (outside insert mode and the prompt)
/// does in `t`, from `before` to `after` with the outcome `out`:
/// a motion moves as [`key_moved`] says; `J`, `r` and `~` change the text
/// as [`joined_lines`], [`replaced_chars`] and [`case_toggled`] say; a
/// paste as [`paste_landed`] says; `i`, `a`, `I`, `A`, `o`, `O` enter
/// insert mode as [`inserted_at`] says; `v`, `V`, `o` in visual mode and
/// text objects change the selection as [`key_selected`] says; escape
/// and the selection commands change no text and ask for nothing (escape
/// returns to normal mode); undo, redo, the buffer moves, `ZZ` and `ZQ`
/// ask for the commands of [`action_commands`]; `:`, `/` and `?` open their
/// empty prompt; any operator works as [`key_operated`] says.
#[verifier::opaque]
pub open spec fn command_done(t: Seq<char>, before: Vim, after: Vim, out: Outcome, cmd: Cmd) -> bool {
    let from = if before.cursor_at() <= t.len() {
        before.cursor_at() as int
    } else {
        t.len() as int
    };
    let anchor = if before.anchor_at() <= t.len() {
        before.anchor_at() as int
    } else {
        t.len() as int
    };
    &&& cmd.action matches Action::Move(m) ==> key_moved(t, before, after, out, m, cmd.count)
    &&& cmd.action is Join ==> ({
        let plan = join_plan(t, before.mode_of(), anchor, from, count_of(cmd.count));
        let r = joined_lines(t, plan.0, plan.1, from);
        lands(t, out, after, r.0, r.1, Mode::Normal)
    })
    &&& cmd.action matches Action::Replace(ch) ==> match replaced_chars(t, before.mode_of(), anchor, from, ch, count_of(cmd.count)) {
        None => lands(t, out, after, t, from, before.mode_of()),
        Some((u, c, m)) => lands(t, out, after, u, c, m),
    }
    &&& cmd.action is ToggleCaseUnderCursor ==> match case_toggled(t, from, count_of(cmd.count)) {
        None => lands(t, out, after, t, from, before.mode_of()),
        Some((u, c)) => lands(t, out, after, u, c, before.mode_of()),
    }
    &&& cmd.action matches Action::Paste { before: above } ==> after.registers_view() == before.registers_view()
        && paste_landed(t, before, after, out, cmd.register, above, count_of(cmd.count))
    &&& cmd.action matches Action::Insert(at) ==> lands(
        t,
        out,
        after,
        inserted_at(t, before.mode_of(), anchor, from, at).0,
        inserted_at(t, before.mode_of(), anchor, from, at).1,
        Mode::Insert,
    )
    &&& selects(cmd.action) ==> key_selected(t, before, after, cmd.action)
    &&& quiet_action(cmd.action) ==> out.edits@.len() == 0 && out.commands@.len() == 0
        && out.message is None
    &&& cmd.action is Escape ==> after.mode_of() == Mode::Normal
    &&& action_commands(cmd.action, cmd.count) matches Some(cs) ==> out.commands@ == cs
        && out.edits@.len() == 0 && after.mode_of() == before.mode_of()
    &&& cmd.action matches Action::Prompt(kind) ==> after.prompt_of() == Some((kind, Seq::<char>::empty()))
        && after.mode_of() == before.mode_of() && out.edits@.len() == 0
        && out.commands@.len() == 0
    &&& cmd.action matches Action::Operate(op, tg) ==> key_operated(t, before, after, out, op, tg, cmd.register, cmd.count)
}

/// What the ex command line `u` answers when it is run on its own: the
/// commands it asks for, and its message.
pub open spec fn ex_answered(u: Seq<char>, out: Outcome) -> bool {
    let (a, w, b, f) = ex_parts(u);
    &&& ex_commands(u.subrange(a, w), u.subrange(b, f), out.commands@)
    &&& message_view(out.message) == ex_message(u)
}

/// How a key's state `after` comes from the state `mid` that running its
/// command left, the text being `u`: the cursor goes onto a character of
/// its line in normal mode, else within the text.
spec fn clamped(mid: &Vim, after: &Vim, u: Seq<char>) -> bool {
    &&& after.mode == mid.mode
    &&& after.registers == mid.registers
    &&& after.written == mid.written
    &&& after.last_find == mid.last_find
    &&& after.prompt == mid.prompt
    &&& after.cursor == if mid.mode == Mode::Normal {
        normal_position(u, mid.cursor as int)
    } else if mid.cursor > u.len() {
        u.len() as int
    } else {
        mid.cursor as int
    }
    &&& after.anchor == if mid.mode == Mode::Normal {
        mid.anchor as int
    } else if mid.anchor > u.len() {
        u.len() as int
    } else {
        mid.anchor as int
    }
}

/// How the state `v0` a command runs from comes from the state `before`
/// the key, in text `t`: the cursor and the anchor kept within the text.
spec fn entered(before: &Vim, v0: &Vim, t: Seq<char>) -> bool {
    &&& v0.mode == before.mode
    &&& v0.registers == before.registers
    &&& v0.written == before.written
    &&& v0.last_find == before.last_find
    &&& v0.search == before.search
    &&& v0.last_change == before.last_change
    &&& v0.column == before.column
    &&& v0.shift_width == before.shift_width
    &&& v0.cursor == if before.cursor <= t.len() {
        before.cursor as int
    } else {
        t.len() as int
    }
    &&& v0.anchor == if before.anchor <= t.len() {
        before.anchor as int
    } else {
        t.len() as int
    }
}

/// What a paste (`p`, or `P` when `above`) from `register` does from the
/// state `before` in `t`: nothing, or it pastes text that the register may
/// give (see [`may_paste`]) as [`pasted`] says, the cursor on a character
/// of its line in normal mode.
#[verifier::opaque]
pub open spec fn paste_landed(t: Seq<char>, before: Vim, after: Vim, out: Outcome, register: Option<char>, above: bool, n: int) -> bool {
    let from = if before.cursor_at() <= t.len() {
        before.cursor_at() as int
    } else {
        t.len() as int
    };
    let anchor = if before.anchor_at() <= t.len() {
        before.anchor_at() as int
    } else {
        t.len() as int
    };
    ||| lands(t, out, after, t, from, before.mode_of())
    ||| exists|r: (Seq<char>, bool)|
        #![trigger may_paste(before.registers_view(), register, r)]
        r.0.len() > 0 && may_paste(before.registers_view(), register, r) && lands(
            t,
            out,
            after,
            pasted(t, before.mode_of(), anchor, from, above, n, r.0, r.1).0,
            pasted(t, before.mode_of(), anchor, from, above, n, r.0, r.1).1,
            pasted(t, before.mode_of(), anchor, from, above, n, r.0, r.1).2,
        )
}

/// What running a paste did, from `v0` and `cx0` to `v` and `cx`.
spec fn paste_ran(v0: &Vim, cx0: &Ctx, v: &Vim, cx: &Ctx, above: bool, register: Option<char>, count: Option<usize>) -> bool {
    &&& v.registers@ == v0.registers@
    &&& v.written == v0.written
    &&& (cx.text@ == cx0.text@ && v.cursor == v0.cursor && v.mode == v0.mode) || exists|r: (Seq<char>, bool)|
        #![trigger may_paste(v0.registers@, register, r)]
        r.0.len() > 0 && may_paste(v0.registers@, register, r) && (cx.text@, v.cursor as int, v.mode)
            == pasted(cx0.text@, v0.mode, v0.anchor as int, v0.cursor as int, above, count_of(count), r.0, r.1)
}

proof fn lemma_key_pasted(t: Seq<char>, before: Vim, v0: Vim, mid: Vim, after: Vim, cx0: Ctx, cx: Ctx, above: bool, register: Option<char>, count: Option<usize>)
    requires
        cx0.text@ == t,
        cx.wf(),
        cx.orig@ == t,
        entered(&before, &v0, t),
        paste_ran(&v0, &cx0, &mid, &cx, above, register, count),
        mid.cursor <= cx.text@.len(),
        clamped(&mid, &after, cx.text@),
    ensures
        paste_landed(t, before, after, cx.out, register, above, count_of(count)),
{
    reveal(paste_landed);
    reveal(lands);
    if !(cx.text@ == cx0.text@ && mid.cursor == v0.cursor && mid.mode == v0.mode) {
        let r = choose|r: (Seq<char>, bool)|
            #![trigger may_paste(v0.registers@, register, r)]
            r.0.len() > 0 && may_paste(v0.registers@, register, r) && (cx.text@, mid.cursor as int, mid.mode)
                == pasted(cx0.text@, v0.mode, v0.anchor as int, v0.cursor as int, above, count_of(count), r.0, r.1);
        assert(may_paste(before.registers_view(), register, r));
    }
}

/// The per-action lemmas together: what running `cmd` from `v0` (the
/// state `before` the key, kept within the text) to `mid`, then keeping
/// the cursor on the text, does is what [`command_done`] says.
proof fn lemma_command_done(t: Seq<char>, before: Vim, v0: Vim, mid: Vim, after: Vim, cx0: Ctx, cx: Ctx, cmd: Cmd, goal: Option<usize>)
    requires
        cx0.text@ == t,
        cx0.orig@ == t,
        cx0.out.edits@.len() == 0,
        cx0.out.commands@.len() == 0,
        cx0.out.message is None,
        cx0.wf(),
        cx.wf(),
        cx.orig == cx0.orig,
        entered(&before, &v0, t),
        v0.mode != Mode::Insert,
        v0.anchor <= t.len(),
        executed_core(&v0, &cx0, &mid, &cx, cmd, goal),
        !(cmd.action is Move) ==> goal is None,
        cmd.action matches Action::Move(m) ==> goal == (if vertical(m) {
            v0.column
        } else {
            None
        }),
        mid.cursor <= cx.text@.len(),
        clamped(&mid, &after, cx.text@),
    ensures
        command_done(t, before, after, cx.out, cmd),
{
    reveal(command_done);
    let from = v0.cursor as int;
    let anchor = v0.anchor as int;
    assert(apply_all(t, cx.out.edits@) == Some(cx.text@));
    if let Action::Insert(at) = cmd.action {
        let ins = inserted_at(t, v0.mode, anchor, from, at);
        assert(lands(t, cx.out, after, ins.0, ins.1, Mode::Insert)) by {
            reveal(lands);
        }
    }
    if let Action::Paste { before: above } = cmd.action {
        lemma_key_pasted(t, before, v0, mid, after, cx0, cx, above, cmd.register, cmd.count);
    }
    if selects(cmd.action) {
        lemma_key_selected(t, before, v0, mid, after, cx0, cx, cmd.action);
    }
    if let Action::Move(m) = cmd.action {
        lemma_key_moved(t, before, v0, mid, after, cx0, cx, m, cmd.count);
    }
    if let Action::Operate(op, tg) = cmd.action {
        lemma_key_operated(t, before, v0, mid, after, cx0, cx, op, tg, cmd.register, cmd.count);
    }
    if cmd.action is Join {
        let plan = join_plan(t, v0.mode, anchor, from, count_of(cmd.count));
        let r = joined_lines(t, plan.0, plan.1, from);
        assert(lands(t, cx.out, after, r.0, r.1, Mode::Normal)) by {
            reveal(lands);
        }
    }
    if cmd.action is ToggleCaseUnderCursor {
        match case_toggled(t, from, count_of(cmd.count)) {
            None => {
                assert(lands(t, cx.out, after, t, from, v0.mode)) by {
                    reveal(lands);
                }
            },
            Some((u, c)) => {
                assert(lands(t, cx.out, after, u, c, v0.mode)) by {
                    reveal(lands);
                }
            },
        }
    }
    if let Action::Replace(ch) = cmd.action {
        match replaced_chars(t, v0.mode, anchor, from, ch, count_of(cmd.count)) {
            None => {
                assert(lands(t, cx.out, after, t, from, v0.mode)) by {
                    reveal(lands);
                }
            },
            Some((u, c, m)) => {
                assert(lands(t, cx.out, after, u, c, m)) by {
                    reveal(lands);
                }
            },
        }
    }
}

proof fn lemma_key_selected(t: Seq<char>, before: Vim, v0: Vim, mid: Vim, after: Vim, cx0: Ctx, cx: Ctx, action: Action)
    requires
        cx0.text@ == t,
        cx.text == cx0.text,
        entered(&before, &v0, t),
        ({
            let r = selection_change(t, v0.mode, v0.cursor as int, v0.anchor as int, action);
            mid.mode == r.0 && mid.cursor == r.1 && mid.anchor == r.2
        }),
        mid.cursor <= t.len(),
        clamped(&mid, &after, cx.text@),
    ensures
        key_selected(t, before, after, action),
{
    reveal(key_selected);
    let r = selection_change(t, v0.mode, v0.cursor as int, v0.anchor as int, action);
    if action is SelectObject {
        assert(r.2 <= t.len());
    }
}

proof fn lemma_key_moved(t: Seq<char>, before: Vim, v0: Vim, mid: Vim, after: Vim, cx0: Ctx, cx: Ctx, m: Motion, count: Option<usize>)
    requires
        cx0.text@ == t,
        entered(&before, &v0, t),
        moves_only(&v0, &cx0, &mid, &cx, m, count, if vertical(m) {
            v0.column
        } else {
            None
        }),
        cx0.out.edits@.len() == 0,
        cx0.out.commands@.len() == 0,
        mid.cursor <= t.len(),
        clamped(&mid, &after, cx.text@),
    ensures
        key_moved(t, before, after, cx.out, m, count),
{
    reveal(key_moved);
}

proof fn lemma_key_operated(t: Seq<char>, before: Vim, v0: Vim, mid: Vim, after: Vim, cx0: Ctx, cx: Ctx, op: Operator, tg: Target, register: Option<char>, count: Option<usize>)
    requires
        cx0.text@ == t,
        cx0.orig@ == t,
        cx0.out.edits@.len() == 0,
        cx.wf(),
        cx.orig == cx0.orig,
        entered(&before, &v0, t),
        v0.mode != Mode::Insert,
        operates_fully(&v0, &cx0, &mid, &cx, op, tg, register, count, None),
        mid.cursor <= cx.text@.len(),
        clamped(&mid, &after, cx.text@),
    ensures
        key_operated(t, before, after, cx.out, op, tg, register, count),
{
    reveal(key_operated);
    reveal(lands);
    assert(cx0.out.edits@ =~= Seq::<Edit>::empty());
}

/// What handling `key` in the text `t` does, from the state `before` to
/// `after` with the outcome `out`:
/// - the edits apply to `t`, and leave the cursor within the text;
/// - the clipboard is written (see [`Vim::clipboard_log`]) only by an
///   operator or by `.`;
/// - with a prompt open, the key is typed into it (see [`prompt_typed`]);
///   it makes no edit, and only enter answers: a command line with its
///   commands and message, a search with no command, and the cursor moves
///   as [`prompt_entered`] says;
/// - in insert mode, escape returns to normal mode and other keys do
///   nothing;
/// - else the key is added to the pending keys: an incomplete command
///   keeps them, an invalid one drops them, and neither changes the mode,
///   opens a prompt, edits or asks for anything; a complete one is run as
///   [`command_done`] says, and `.` runs the last change again as
///   [`command_done`] says of it (with the count typed before `.`, if
///   any), for a last change that did not end in insert mode (see
///   [`plain_change`]); `.` with no last change does nothing.
///
/// [`command_done`], [`key_moved`], [`key_operated`], [`key_selected`],
/// [`paste_landed`] and [`lands`] are opaque: `reveal` them to read them.
pub open spec fn key_done(t: Seq<char>, before: Vim, key: Key, after: Vim, out: Outcome) -> bool {
    let log0 = before.clipboard_log();
    let log1 = after.clipboard_log();
    let keys = before.pending_keys().push(key);
    let visual = before.mode_of() == Mode::Visual || before.mode_of() == Mode::VisualLine;
    let from = if before.cursor_at() <= t.len() {
        before.cursor_at() as int
    } else {
        t.len() as int
    };
    let anchor = if before.anchor_at() <= t.len() {
        before.anchor_at() as int
    } else {
        t.len() as int
    };
    &&& apply_all(t, out.edits@) matches Some(u) && after.cursor_at() <= u.len()
    &&& (before.prompt_of() is Some || before.mode_of() == Mode::Insert || !(parsed(keys, visual) matches Ok(
        cmd) && (cmd.action is Operate || cmd.action is Repeat))) ==> log1 == log0
    &&& match before.prompt_of() {
        Some((kind, typed)) => {
            &&& prompt_typed(before.prompt_of(), key, after.prompt_of())
            &&& key is Enter ==> prompt_entered(t, before, after, kind, typed, from, true)
            &&& after.mode_of() == before.mode_of()
            &&& out.edits@.len() == 0
            &&& if !(key is Enter) {
                out.commands@.len() == 0 && out.message is None
            } else if kind is Command {
                ex_answered(typed, out)
            } else {
                out.commands@.len() == 0
            }
        },
        None => if before.mode_of() == Mode::Insert {
            if key == Key::Escape || key == Key::Ctrl('[') {
                after.mode_of() == Mode::Normal
            } else {
                after.mode_of() == Mode::Insert && out.edits@.len() == 0 && out.commands@.len() == 0
            }
        } else {
            match parsed(keys, visual) {
                Err(stop) => {
                    &&& after.mode_of() == before.mode_of()
                    &&& after.prompt_of() is None
                    &&& out.edits@.len() == 0
                    &&& out.commands@.len() == 0
                    &&& after.pending_keys() == if stop is Incomplete {
                        keys
                    } else {
                        Seq::empty()
                    }
                },
                Ok(cmd) => {
                    &&& after.pending_keys().len() == 0
                    &&& command_done(t, before, after, out, cmd)
                    &&& cmd.action is Repeat ==> match before.last_change_of() {
                        None => out.edits@.len() == 0 && out.commands@.len() == 0 && after.mode_of() == before.mode_of(),
                        Some((c, inserted)) => plain_change(c, inserted) ==> command_done(
                            t,
                            before,
                            after,
                            out,
                            repeated_cmd(c, cmd.count),
                        ),
                    }
                },
            }
        },
    }
}

impl Vim {
    /// A command line: the file and buffer commands, a line number, `$`
    /// for the last line; anything else is reported as not a command.
    fn ex(&mut self, typed: &Vec<char>, cx: &mut Ctx)
        requires
            old(cx).wf(),
            old(self).cursor <= old(cx).text@.len(),
        ensures
            settled(&*old(self), &*old(cx), &*final(self), &*final(cx)),
            final(cx).text == old(cx).text,
            final(cx).out.edits == old(cx).out.edits,
            final(self).mode == old(self).mode,
            final(self).prompt == old(self).prompt,
            ({
                let (a, w, b, f) = ex_parts(typed@);
                let word = typed@.subrange(a, w);
                let arg = typed@.subrange(b, f);
                &&& final(cx).out.commands@.len() >= old(cx).out.commands@.len()
                &&& final(cx).out.commands@.take(old(cx).out.commands@.len() as int) == old(cx).out.commands@
                &&& ex_commands(word, arg, final(cx).out.commands@.skip(old(cx).out.commands@.len() as int))
                &&& final(self).cursor == ex_cursor(typed@, old(cx).text@, old(self).cursor as int)
            }),
            ex_message(typed@) matches Some(m) ==> message_view(final(cx).out.message) == Some(m),
            ex_message(typed@) is None ==> final(cx).out.message == old(cx).out.message,
            final(self).search == old(self).search,
    {
        let line = string_of(typed);
        let s = line.as_str();
        let n = typed.len();
        let (a, e) = trimmed(s, 0, n);
        let mut w = a;
        while w < e && !space_char(typed[w])
            invariant
                a <= w <= e <= n == typed@.len() == s@.len(),
                word_stop(typed@, w as int, e as int) == word_stop(typed@, a as int, e as int),
            decreases e - w,
        {
            w = w + 1;
        }
        let (b, f) = if w < e {
            trimmed(s, w + 1, e)
        } else {
            (e, e)
        };
        let has_arg = b < f;
        let ghost c0 = cx.out.commands@;
        let ghost t0 = cx.text@;
        let ghost cur0 = self.cursor as int;
        let ghost word = typed@.subrange(a as int, w as int);
        let ghost arg = typed@.subrange(b as int, f as int);
        proof {
            assert(s@ == typed@);
            assert((a as int, w as int, b as int, f as int) == ex_parts(typed@));
            assert(has_arg == (arg.len() > 0));
        }
        let commands = &mut cx.out.commands;
        if w == a || (spells_chars(s, a, w, "noh") || spells_chars(s, a, w, "nohlsearch")) {
        } else if (spells_chars(s, a, w, "w") || spells_chars(s, a, w, "write")) {
            if has_arg {
                commands.push(Command::WriteAs(string_of(&slice(typed, b, f))));
            } else {
                commands.push(Command::Write);
            }
        } else if (spells_chars(s, a, w, "wa") || spells_chars(s, a, w, "wall")) {
            commands.push(Command::WriteAll);
        } else if (spells_chars(s, a, w, "q") || spells_chars(s, a, w, "quit") || spells_chars(s, a, w, "close") || spells_chars(s, a, w, "bd") || spells_chars(s, a, w, "bdelete")) {
            commands.push(Command::Close { force: false });
        } else if (spells_chars(s, a, w, "q!") || spells_chars(s, a, w, "quit!") || spells_chars(s, a, w, "bd!") || spells_chars(s, a, w, "bdelete!")) {
            commands.push(Command::Close { force: true });
        } else if (spells_chars(s, a, w, "wq") || spells_chars(s, a, w, "x") || spells_chars(s, a, w, "xit") || spells_chars(s, a, w, "exit")) {
            commands.push(Command::Write);
            commands.push(Command::Close { force: false });
        } else if (spells_chars(s, a, w, "qa") || spells_chars(s, a, w, "qall") || spells_chars(s, a, w, "quitall")) {
            commands.push(Command::CloseAll { force: false });
        } else if (spells_chars(s, a, w, "qa!") || spells_chars(s, a, w, "qall!") || spells_chars(s, a, w, "quitall!")) {
            commands.push(Command::CloseAll { force: true });
        } else if (spells_chars(s, a, w, "wqa") || spells_chars(s, a, w, "wqall") || spells_chars(s, a, w, "xa") || spells_chars(s, a, w, "xall")) {
            commands.push(Command::WriteAll);
            commands.push(Command::CloseAll { force: false });
        } else if (spells_chars(s, a, w, "bn") || spells_chars(s, a, w, "bnext") || spells_chars(s, a, w, "tabn") || spells_chars(s, a, w, "tabnext")) {
            commands.push(Command::NextBuffer);
        } else if (spells_chars(s, a, w, "bp") || spells_chars(s, a, w, "bprevious") || spells_chars(s, a, w, "bprev") || spells_chars(s, a, w, "bN") || spells_chars(s, a, w, "bNext") || spells_chars(s, a, w, "tabp") || spells_chars(s, a, w, "tabprevious") || spells_chars(s, a, w, "tabN") || spells_chars(s, a, w, "tabNext")) {
            commands.push(Command::PreviousBuffer);
        } else if has_arg && (spells_chars(s, a, w, "e") || spells_chars(s, a, w, "edit") || spells_chars(s, a, w, "tabe") || spells_chars(s, a, w, "tabedit") || spells_chars(s, a, w, "tabnew") || spells_chars(s, a, w, "enew") || spells_chars(s, a, w, "new")) {
            commands.push(Command::Open(string_of(&slice(typed, b, f))));
        } else if (spells_chars(s, a, w, "enew") || spells_chars(s, a, w, "tabnew") || spells_chars(s, a, w, "new")) {
            commands.push(Command::NewBuffer);
        } else if (spells_chars(s, a, w, "$")) {
            let last = last_line(&cx.text);
            self.cursor = first_non_blank(&cx.text, last);
        } else {
            match parse_usize(s, a, w) {
                Some(number) => {
                    let wanted = if number > 0 {
                        number - 1
                    } else {
                        0
                    };
                    let last = last_line(&cx.text);
                    self.cursor = first_non_blank(
                        &cx.text,
                        if wanted < last {
                            wanted
                        } else {
                            last
                        },
                    );
                },
                None => {
                    let mut m = message_of("Not an editor command: ");
                    let mut k = a;
                    while k < e
                        invariant
                            a <= k <= e <= typed@.len(),
                            m@ == "Not an editor command: "@ + typed@.subrange(a as int, k as int),
                        decreases e - k,
                    {
                        push_char(&mut m, typed[k]);
                        k = k + 1;
                        assert(m@ =~= "Not an editor command: "@ + typed@.subrange(a as int, k as int));
                    }
                    cx.out.message = Some(m);
                },
            }
        }
        proof {
            assert(cx.out.commands@.take(c0.len() as int) =~= c0);
            assert(ex_commands(word, arg, cx.out.commands@.skip(c0.len() as int)));
            assert(self.cursor == ex_cursor(typed@, t0, cur0));
        }
    }

    /// Handles one key typed in `text`, answering with the edits (to apply
    /// in order), the commands and the message it makes.
    #[verifier::rlimit(100)]
    #[verifier::spinoff_prover]
    pub fn key<C: Clipboard>(&mut self, key: Key, text: &str, clipboard: &mut C) -> (res: Outcome)
        ensures
            key_done(text@, *old(self), key, *final(self), res),
    {
        let t = chars_of(text);
        let mut cx = Ctx { text: t, out: Outcome::default(), orig: Ghost(text@) };
        assert(cx.out.edits@ =~= Seq::<Edit>::empty());
        let len = cx.text.len();
        if self.cursor > len {
            self.cursor = len;
        }
        if self.anchor > len {
            self.anchor = len;
        }
        let ghost v0 = *self;
        let ghost mut ran: Option<Cmd> = None;
        let ghost mut vr = *self;
        let ghost mut cr = cx;
        let ghost mut mid = *self;
        if self.prompt.is_some() {
            self.prompt_key(key, &mut cx);
            proof {
                mid = *self;
            }
        } else if self.mode == Mode::Insert {
            if key == Key::Escape || key == Key::Ctrl('[') {
                self.finish_insert(&mut cx);
            }
        } else {
            self.keys.push(key);
            match parse(&self.keys, self.is_visual()) {
                Ok(cmd) => {
                    self.keys = Vec::new();
                    let ghost t0 = cx.text@;
                    proof {
                        vr = *self;
                        cr = cx;
                    }
                    self.run(cmd, &mut cx, clipboard);
                    proof {
                        assert(t0 == text@);
                        ran = Some(cmd);
                        mid = *self;
                    }
                },
                Err(Stop::Incomplete) => {},
                Err(Stop::Invalid) => {
                    self.keys = Vec::new();
                },
            }
        }
        let n = cx.text.len();
        if self.mode == Mode::Normal {
            self.cursor = clamp_normal(&cx.text, self.cursor);
        } else {
            if self.cursor > n {
                self.cursor = n;
            }
            if self.anchor > n {
                self.anchor = n;
            }
        }
        proof {
            if key is Enter {
                if let Some((kind, typed)) = v0.prompt_of() {
                    assert(clamped(&mid, &*self, cx.text@));
                    lemma_prompt_settles(text@, *old(self), v0, mid, *self, kind, typed, v0.cursor as int);
                }
            }
            if let Some(cmd) = ran {
                let t = text@;
                assert(entered(&*old(self), &vr, t));
                assert(clamped(&mid, &*self, cx.text@));
                lemma_command_done(t, *old(self), vr, mid, *self, cr, cx, cmd, goal_for(cmd.action, vr.column));
                if cmd.action is Repeat {
                    if let Some(ch) = vr.last_change {
                        if plain_change(ch.cmd, ch.inserted is Some) {
                            lemma_command_done(t, *old(self), vr, mid, *self, cr, cx, repeated_cmd(ch.cmd, cmd.count), None);
                        }
                    }
                }
            }
        }
        cx.out
    }
}

} // verus!

