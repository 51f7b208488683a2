//! Reading what `git` prints: porcelain status, unified diffs, branch
//! headers, and the folder a clone goes to.
//!
//! Running `git` itself is left to the caller; everything here works on the
//! text that a command printed.

use vstd::prelude::*;
use vstd::utf8::*;
use vstd::string::*;

use crate::text::{
    all_ascii, decimal, is_space, lemma_decimal_ascii, push_decimal, skip_space, space_char, trim_end, boundary, lemma_after_ascii, lemma_ascii_is_boundary, lemma_ascii_valid,
    lemma_boundary_in_bounds, lemma_valid_between, push_range, push_str, string_between,
    string_from_utf8, utf8,
};

verus! {

broadcast use {
    vstd::utf8::encode_utf8_valid_utf8,
    vstd::utf8::decode_utf8_encode_utf8,
    vstd::utf8::valid_utf8_concat,
};

/// The largest diff shown in full, in bytes.
pub const MAX_DIFF_BYTES: usize = 4194304;

/// Columns between tab stops when a diff line is shown.
pub const TAB_WIDTH: usize = 4;

/// How a file differs from the index or from `HEAD`.
#[derive(Clone, Copy, Debug, PartialEq, Eq, Structural, Hash)]
pub enum Change {
    Added,
    Modified,
    Deleted,
    Renamed,
    Copied,
    TypeChanged,
    Untracked,
    Conflicted,
}

/// The change named by a porcelain status letter, if it names one.
pub open spec fn change_of_code(code: u8) -> Option<Change> {
    if code == 65 {
        Some(Change::Added)
    } else if code == 77 {
        Some(Change::Modified)
    } else if code == 68 {
        Some(Change::Deleted)
    } else if code == 82 {
        Some(Change::Renamed)
    } else if code == 67 {
        Some(Change::Copied)
    } else if code == 84 {
        Some(Change::TypeChanged)
    } else {
        None
    }
}

/// The one-letter badge of a change.
pub open spec fn letter_of(c: Change) -> Seq<char> {
    match c {
        Change::Added => "A"@,
        Change::Modified => "M"@,
        Change::Deleted => "D"@,
        Change::Renamed => "R"@,
        Change::Copied => "C"@,
        Change::TypeChanged => "T"@,
        Change::Untracked => "U"@,
        Change::Conflicted => "!"@,
    }
}

/// How much a change matters when a folder shows the changes inside it.
pub open spec fn rank_of(c: Change) -> u8 {
    match c {
        Change::Conflicted => 3,
        Change::Added | Change::Untracked => 1,
        _ => 2,
    }
}

impl Change {
    /// The change named by a porcelain status letter (`A`, `M`, `D`, `R`,
    /// `C`, `T`).
    pub fn from_code(code: u8) -> (res: Option<Self>)
        ensures
            res == change_of_code(code),
    {
        if code == 65 {
            Some(Change::Added)
        } else if code == 77 {
            Some(Change::Modified)
        } else if code == 68 {
            Some(Change::Deleted)
        } else if code == 82 {
            Some(Change::Renamed)
        } else if code == 67 {
            Some(Change::Copied)
        } else if code == 84 {
            Some(Change::TypeChanged)
        } else {
            None
        }
    }

    /// The one-letter badge shown beside a changed file.
    pub fn letter(self) -> (res: &'static str)
        ensures
            res@ == letter_of(self),
    {
        match self {
            Change::Added => "A",
            Change::Modified => "M",
            Change::Deleted => "D",
            Change::Renamed => "R",
            Change::Copied => "C",
            Change::TypeChanged => "T",
            Change::Untracked => "U",
            Change::Conflicted => "!",
        }
    }

    /// Conflicts outrank edits, which outrank additions.
    pub fn rank(self) -> (res: u8)
        ensures
            res == rank_of(self),
    {
        match self {
            Change::Conflicted => 3,
            Change::Added | Change::Untracked => 1,
            _ => 2,
        }
    }
}

/// The bytes of an optional string.
pub open spec fn opt_bytes(s: Option<String>) -> Option<Seq<u8>> {
    match s {
        Some(t) => Some(utf8(t@)),
        None => None,
    }
}

/// A file as `git status` reports it, paths as bytes.
pub ghost struct FileEntry {
    pub relative: Seq<u8>,
    pub original: Option<Seq<u8>>,
    pub staged: Option<Change>,
    pub unstaged: Option<Change>,
}

/// One changed file: its path from the repository root, the path it was
/// renamed or copied from, and its change in the index and in the worktree.
#[derive(Clone, Debug, PartialEq, Eq)]
pub struct FileStatus {
    pub relative: String,
    pub original: Option<String>,
    pub staged: Option<Change>,
    pub unstaged: Option<Change>,
}

/// The change of a file on one side of the index: staged, or in the
/// working tree.
pub fn side(file: &FileStatus, staged: bool) -> (res: Option<Change>)
    ensures
        res == if staged {
            file.staged
        } else {
            file.unstaged
        },
{
    if staged {
        file.staged
    } else {
        file.unstaged
    }
}

impl View for FileStatus {
    type V = FileEntry;

    open spec fn view(&self) -> FileEntry {
        FileEntry {
            relative: utf8(self.relative@),
            original: opt_bytes(self.original),
            staged: self.staged,
            unstaged: self.unstaged,
        }
    }
}

/// The change a file shows: the worktree's, else the index's, else an edit.
pub open spec fn shown_change(staged: Option<Change>, unstaged: Option<Change>) -> Change {
    match unstaged {
        Some(c) => c,
        None => match staged {
            Some(c) => c,
            None => Change::Modified,
        },
    }
}

impl FileStatus {
    /// The change shown for the file (see [`shown_change`]).
    pub fn change(&self) -> (res: Change)
        ensures
            res == shown_change(self.staged, self.unstaged),
    {
        match self.unstaged {
            Some(c) => c,
            None => match self.staged {
                Some(c) => c,
                None => Change::Modified,
            },
        }
    }
}

/// The branch as `git status` reports it, names as bytes.
pub ghost struct BranchEntry {
    pub name: Option<Seq<u8>>,
    pub commit: Option<Seq<u8>>,
    pub upstream: Option<Seq<u8>>,
    pub ahead: u32,
    pub behind: u32,
}

/// The checked-out branch (`None` when detached), its commit (`None`
/// before the first one), its upstream, and how far it is ahead of and
/// behind that upstream.
#[derive(Clone, Debug, PartialEq, Eq)]
pub struct Branch {
    pub name: Option<String>,
    pub commit: Option<String>,
    pub upstream: Option<String>,
    pub ahead: u32,
    pub behind: u32,
}

impl View for Branch {
    type V = BranchEntry;

    open spec fn view(&self) -> BranchEntry {
        BranchEntry {
            name: opt_bytes(self.name),
            commit: opt_bytes(self.commit),
            upstream: opt_bytes(self.upstream),
            ahead: self.ahead,
            behind: self.behind,
        }
    }
}

/// The branch before any header was read.
pub open spec fn no_branch() -> BranchEntry {
    BranchEntry { name: None, commit: None, upstream: None, ahead: 0, behind: 0 }
}

impl Default for Branch {
    fn default() -> (res: Self)
        ensures
            res@ == no_branch(),
    {
        Branch { name: None, commit: None, upstream: None, ahead: 0, behind: 0 }
    }
}

/// The first seven bytes of a commit id, or all of it when shorter.
pub open spec fn short_len(commit: Seq<u8>) -> int {
    if commit.len() < 7 {
        commit.len() as int
    } else {
        7
    }
}

/// The label shown for a branch: its name, or `detached at` and the short
/// commit id, or `detached`; then ` ↑` and the commits ahead and ` ↓` and
/// the commits behind, each where there are some.
pub open spec fn branch_label(b: BranchEntry) -> Seq<u8> {
    let base = match b.name {
        Some(n) => n,
        None => match b.commit {
            Some(c) => utf8("detached at "@) + c.subrange(0, short_len(c)),
            None => utf8("detached"@),
        },
    };
    let up = if b.ahead > 0 {
        utf8(" ↑"@) + decimal(b.ahead as nat)
    } else {
        Seq::empty()
    };
    let down = if b.behind > 0 {
        utf8(" ↓"@) + decimal(b.behind as nat)
    } else {
        Seq::empty()
    };
    base + up + down
}

/// Whether the short commit id of a detached branch ends on a character
/// boundary (slicing it would fail otherwise).
pub open spec fn label_cuttable(b: BranchEntry) -> bool {
    b.name is None && b.commit is Some ==> boundary(
        b.commit.unwrap(),
        short_len(b.commit.unwrap()),
    )
}

impl Branch {
    /// Whether [`Branch::label`] can cut the short commit id of a detached
    /// branch on a character boundary (see [`label_cuttable`]).
    pub fn label_fits(&self) -> (res: bool)
        ensures
            res == label_cuttable(self@),
    {
        match &self.name {
            Some(_) => true,
            None => match &self.commit {
                Some(commit) => {
                    let c = commit.as_str().as_bytes();
                    let n = c.len();
                    let k = if n < 7 {
                        n
                    } else {
                        7
                    };
                    proof {
                        assert(valid_utf8(c@));
                    }
                    crate::text::is_boundary(c, k)
                },
                None => true,
            },
        }
    }

    /// The label shown for the branch (see [`branch_label`]).
    pub fn label(&self) -> (res: String)
        requires
            label_cuttable(self@),
        ensures
            utf8(res@) == branch_label(self@),
    {
        let mut out: Vec<u8> = Vec::new();
        match &self.name {
            Some(name) => {
                push_str(&mut out, name.as_str());
                assert(out@ =~= utf8(name@));
            },
            None => match &self.commit {
                Some(commit) => {
                    push_str(&mut out, "detached at ");
                    assert(out@ =~= utf8("detached at "@));
                    let c = commit.as_str().as_bytes();
                    let n = c.len();
                    let k = if n < 7 {
                        n
                    } else {
                        7
                    };
                    proof {
                        assert(valid_utf8(c@));
                        lemma_boundary_in_bounds(c@, k as int);
                        assert(boundary(c@, 0)) by {
                            is_char_boundary_start_end_of_seq(c@);
                        }
                        lemma_valid_between(c@, 0, k as int);
                    }
                    push_range(&mut out, c, 0, k);
                    proof {
                        let head = utf8("detached at "@);
                        let tail = c@.subrange(0, k as int);
                        assert(valid_utf8(head));
                        assert(valid_utf8(tail));
                        valid_utf8_concat(head, tail);
                        assert(out@ == head + tail);
                    }
                },
                None => {
                    push_str(&mut out, "detached");
                    assert(out@ =~= utf8("detached"@));
                },
            },
        }
        assert(valid_utf8(out@));
        if self.ahead > 0 {
            let ghost before = out@;
            push_str(&mut out, " ↑");
            let ghost mid = out@;
            push_decimal(&mut out, self.ahead as u64);
            proof {
                lemma_decimal_ascii(self.ahead as nat);
                lemma_ascii_valid(decimal(self.ahead as nat));
                assert(valid_utf8(utf8(" ↑"@)));
                valid_utf8_concat(before, utf8(" ↑"@));
                assert(mid == before + utf8(" ↑"@));
                valid_utf8_concat(mid, decimal(self.ahead as nat));
                assert(out@ == mid + decimal(self.ahead as nat));
            }
        }
        assert(valid_utf8(out@));
        if self.behind > 0 {
            let ghost mid = out@;
            push_str(&mut out, " ↓");
            let ghost mid2 = out@;
            push_decimal(&mut out, self.behind as u64);
            proof {
                lemma_decimal_ascii(self.behind as nat);
                lemma_ascii_valid(decimal(self.behind as nat));
                assert(valid_utf8(utf8(" ↓"@)));
                valid_utf8_concat(mid, utf8(" ↓"@));
                assert(mid2 == mid + utf8(" ↓"@));
                valid_utf8_concat(mid2, decimal(self.behind as nat));
                assert(out@ == mid2 + decimal(self.behind as nat));
            }
        }
        assert(out@ =~= branch_label(self@));
        string_from_utf8(out)
    }
}

// ---------------------------------------------------------------------------
// Scanning bytes
// ---------------------------------------------------------------------------

/// The first index in `i .. e` whose byte is `b`, or `e`.
pub open spec fn find_at(s: Seq<u8>, b: u8, i: int, e: int) -> int
    decreases e - i,
{
    if i >= e {
        e
    } else if s[i] == b {
        i
    } else {
        find_at(s, b, i + 1, e)
    }
}

pub proof fn lemma_find_at(s: Seq<u8>, b: u8, i: int, e: int)
    requires
        i <= e,
    ensures
        i <= find_at(s, b, i, e) <= e,
        find_at(s, b, i, e) < e ==> s[find_at(s, b, i, e)] == b,
        forall|k: int| i <= k < find_at(s, b, i, e) ==> s[k] != b,
    decreases e - i,
{
    if i < e && s[i] != b {
        lemma_find_at(s, b, i + 1, e);
    }
}

/// Finds the first `b` in `s[i..e]`.
pub fn find_byte(s: &[u8], b: u8, i: usize, e: usize) -> (res: usize)
    requires
        i <= e <= s@.len(),
    ensures
        res == find_at(s@, b, i as int, e as int),
        i <= res <= e,
{
    proof {
        lemma_find_at(s@, b, i as int, e as int);
    }
    let mut k = i;
    while k < e && s[k] != b
        invariant
            i <= k <= e <= s@.len(),
            find_at(s@, b, k as int, e as int) == find_at(s@, b, i as int, e as int),
        decreases e - k,
    {
        k = k + 1;
    }
    k
}

/// Whether `s[a..e]` spells `t`.
pub open spec fn spells(s: Seq<u8>, a: int, e: int, t: Seq<char>) -> bool {
    s.subrange(a, e) == utf8(t)
}

/// Checks whether `s[a..e]` spells `t`.
pub fn spells_at(s: &[u8], a: usize, e: usize, t: &str) -> (res: bool)
    requires
        a <= e <= s@.len(),
    ensures
        res == spells(s@, a as int, e as int, t@),
{
    let w = t.as_bytes();
    if e - a != w.len() {
        proof {
            assert(s@.subrange(a as int, e as int).len() != utf8(t@).len());
        }
        return false;
    }
    let mut k: usize = 0;
    while k < w.len()
        invariant
            e - a == w@.len(),
            a <= e <= s@.len(),
            w@ == utf8(t@),
            k <= w@.len(),
            forall|j: int| 0 <= j < k ==> s@[a + j] == w@[j],
        decreases w.len() - k,
    {
        if s[a + k] != w[k] {
            proof {
                assert(s@.subrange(a as int, e as int)[k as int] != utf8(t@)[k as int]);
            }
            return false;
        }
        k = k + 1;
    }
    assert(s@.subrange(a as int, e as int) =~= utf8(t@));
    true
}

// ---------------------------------------------------------------------------
// Numbers
// ---------------------------------------------------------------------------

/// Whether `s[a..e]` holds only ASCII digits.
pub open spec fn all_digits(s: Seq<u8>, a: int, e: int) -> bool {
    forall|k: int| a <= k < e ==> 48 <= #[trigger] s[k] <= 57
}

/// The number that the digits `s[a..e]` spell.
pub open spec fn digits_value(s: Seq<u8>, a: int, e: int) -> nat
    decreases e - a,
{
    if e <= a {
        0
    } else {
        digits_value(s, a, e - 1) * 10 + (s[e - 1] - 48) as nat
    }
}

/// `u32::from_str` on `s[a..e]`: an optional `+` and at least one digit,
/// the value fitting in 32 bits.
pub open spec fn u32_of(s: Seq<u8>, a: int, e: int) -> Option<u32> {
    let d = if a < e && s[a] == 43 {
        a + 1
    } else {
        a
    };
    if d >= e || !all_digits(s, d, e) || digits_value(s, d, e) > u32::MAX {
        None
    } else {
        Some(digits_value(s, d, e) as u32)
    }
}

proof fn lemma_digits_grow(s: Seq<u8>, a: int, m: int, e: int)
    requires
        a <= m <= e,
        all_digits(s, a, e),
    ensures
        digits_value(s, a, m) <= digits_value(s, a, e),
    decreases e - m,
{
    if m < e {
        lemma_digits_grow(s, a, m, e - 1);
    }
}

/// Reads a `u32` the way `str::parse` does.
pub fn parse_u32(s: &[u8], a: usize, e: usize) -> (res: Option<u32>)
    requires
        a <= e <= s@.len(),
    ensures
        res == u32_of(s@, a as int, e as int),
{
    let d = if a < e && s[a] == 43 {
        a + 1
    } else {
        a
    };
    if d >= e {
        return None;
    }
    let mut value: u64 = 0;
    let mut k = d;
    while k < e
        invariant
            d <= k <= e <= s@.len(),
            d < e,
            d == if a < e && s@[a as int] == 43 {
                a + 1
            } else {
                a as int
            },
            all_digits(s@, d as int, k as int),
            value == digits_value(s@, d as int, k as int),
            value <= u32::MAX,
        decreases e - k,
    {
        let c = s[k];
        if c < 48 || c > 57 {
            proof {
                assert(!(48 <= s@[k as int] <= 57));
                assert(!all_digits(s@, d as int, e as int));
            }
            return None;
        }
        value = value * 10 + (c - 48) as u64;
        k = k + 1;
        proof {
            assert(digits_value(s@, d as int, k as int) == digits_value(s@, d as int, k - 1) * 10
                + (s@[k - 1] - 48) as nat);
            assert(all_digits(s@, d as int, k as int));
        }
        if value > 4294967295 {
            proof {
                if all_digits(s@, d as int, e as int) {
                    lemma_digits_grow(s@, d as int, k as int, e as int);
                }
            }
            return None;
        }
    }
    Some(value as u32)
}

// ---------------------------------------------------------------------------
// Branch headers
// ---------------------------------------------------------------------------

/// A `+N` or `-N` count of `branch.ab` applied to the branch; a count that
/// does not parse reads as 0, any other piece changes nothing.
pub open spec fn apply_count(b: BranchEntry, s: Seq<u8>, i: int, j: int) -> BranchEntry {
    if i < j && s[i] == 43 {
        BranchEntry {
            ahead: match u32_of(s, i + 1, j) {
                Some(n) => n,
                None => 0,
            },
            ..b
        }
    } else if i < j && s[i] == 45 {
        BranchEntry {
            behind: match u32_of(s, i + 1, j) {
                Some(n) => n,
                None => 0,
            },
            ..b
        }
    } else {
        b
    }
}

/// The space-separated counts of `s[i..e]` applied in turn.
pub open spec fn apply_counts(b: BranchEntry, s: Seq<u8>, i: int, e: int) -> BranchEntry
    decreases e + 1 - i,
{
    if i > e {
        b
    } else {
        let j = find_at(s, 32, i, e);
        let next = apply_count(b, s, i, j);
        if j >= e {
            next
        } else {
            proof {
                lemma_find_at(s, 32, i, e);
            }
            apply_counts(next, s, j + 1, e)
        }
    }
}

/// The branch after a `# branch.…` header of `git status --porcelain=v2`,
/// given without its `# ` as `s[a..e]`: `branch.oid` sets the commit (none
/// for `(initial)`), `branch.head` the name (none for `(detached)`),
/// `branch.upstream` the upstream, and `branch.ab` the counts; a header
/// without a space, or with another key, changes nothing.
pub open spec fn apply_header_at(b: BranchEntry, s: Seq<u8>, a: int, e: int) -> BranchEntry {
    let sp = find_at(s, 32, a, e);
    let value = s.subrange(sp + 1, e);
    if sp >= e {
        b
    } else if spells(s, a, sp, "branch.oid"@) {
        BranchEntry {
            commit: if value == utf8("(initial)"@) {
                None
            } else {
                Some(value)
            },
            ..b
        }
    } else if spells(s, a, sp, "branch.head"@) {
        BranchEntry {
            name: if value == utf8("(detached)"@) {
                None
            } else {
                Some(value)
            },
            ..b
        }
    } else if spells(s, a, sp, "branch.upstream"@) {
        BranchEntry { upstream: Some(value), ..b }
    } else if spells(s, a, sp, "branch.ab"@) {
        apply_counts(b, s, sp + 1, e)
    } else {
        b
    }
}

/// The branch after a whole header line (see [`apply_header_at`]).
pub open spec fn apply_header(b: BranchEntry, h: Seq<u8>) -> BranchEntry {
    apply_header_at(b, h, 0, h.len() as int)
}

/// Where a field starts and ends on character boundaries: at the ends of
/// the text or next to an ASCII byte.
pub open spec fn ascii_edges(s: Seq<u8>, a: int, e: int) -> bool {
    &&& 0 <= a <= e <= s.len()
    &&& (a == 0 || s[a - 1] < 0x80)
    &&& (e == s.len() || s[e] < 0x80)
}

pub proof fn lemma_ascii_edges(s: Seq<u8>, a: int, e: int)
    requires
        valid_utf8(s),
        ascii_edges(s, a, e),
    ensures
        boundary(s, a),
        boundary(s, e),
{
    is_char_boundary_start_end_of_seq(s);
    if a > 0 {
        lemma_after_ascii(s, a);
    }
    if e < s.len() {
        lemma_ascii_is_boundary(s, e);
    }
}

impl Branch {
    fn apply_count(&mut self, s: &[u8], i: usize, j: usize)
        requires
            i <= j <= s@.len(),
        ensures
            final(self)@ == apply_count(old(self)@, s@, i as int, j as int),
    {
        if i < j && s[i] == 43 {
            self.ahead = match parse_u32(s, i + 1, j) {
                Some(n) => n,
                None => 0,
            };
        } else if i < j && s[i] == 45 {
            self.behind = match parse_u32(s, i + 1, j) {
                Some(n) => n,
                None => 0,
            };
        }
    }

    fn header_at(&mut self, s: &[u8], a: usize, e: usize)
        requires
            valid_utf8(s@),
            ascii_edges(s@, a as int, e as int),
        ensures
            final(self)@ == apply_header_at(old(self)@, s@, a as int, e as int),
    {
        let sp = find_byte(s, 32, a, e);
        if sp >= e {
            return;
        }
        proof {
            lemma_find_at(s@, 32, a as int, e as int);
            lemma_ascii_edges(s@, sp + 1, e as int);
        }
        if spells_at(s, a, sp, "branch.oid") {
            let initial = spells_at(s, sp + 1, e, "(initial)");
            self.commit = if initial {
                None
            } else {
                Some(string_between(s, sp + 1, e))
            };
        } else if spells_at(s, a, sp, "branch.head") {
            let detached = spells_at(s, sp + 1, e, "(detached)");
            self.name = if detached {
                None
            } else {
                Some(string_between(s, sp + 1, e))
            };
        } else if spells_at(s, a, sp, "branch.upstream") {
            self.upstream = Some(string_between(s, sp + 1, e));
        } else if spells_at(s, a, sp, "branch.ab") {
            let mut i = sp + 1;
            loop
                invariant
                    sp + 1 <= i <= e <= s@.len(),
                    apply_counts(self@, s@, i as int, e as int) == apply_header_at(
                        old(self)@,
                        s@,
                        a as int,
                        e as int,
                    ),
                decreases e - i,
            {
                let j = find_byte(s, 32, i, e);
                let ghost before = self@;
                assert(apply_counts(before, s@, i as int, e as int) == if j >= e {
                    apply_count(before, s@, i as int, j as int)
                } else {
                    apply_counts(apply_count(before, s@, i as int, j as int), s@, j + 1, e as int)
                });
                self.apply_count(s, i, j);
                if j >= e {
                    return;
                }
                i = j + 1;
            }
        }
    }

    /// Applies one `# branch.…` header line, given without its `# ` (see
    /// [`apply_header_at`]).
    pub fn parse_header(&mut self, header: &str)
        ensures
            final(self)@ == apply_header(old(self)@, utf8(header@)),
    {
        let h = header.as_bytes();
        let e = h.len();
        assert(e == h@.len());
        self.header_at(h, 0, e);
    }
}

// ---------------------------------------------------------------------------
// Porcelain status
// ---------------------------------------------------------------------------

/// Whether `a` sorts before or equal to `b`, byte by byte, a prefix first.
pub open spec fn lex_le(a: Seq<u8>, b: Seq<u8>) -> bool {
    let k = common_len(a, b, 0);
    k == a.len() || (k < b.len() && a[k] < b[k])
}

/// The length of the common prefix of `a` and `b`, counted from `k`.
pub open spec fn common_len(a: Seq<u8>, b: Seq<u8>, k: int) -> int
    decreases a.len() - k,
{
    if 0 <= k < a.len() && k < b.len() && a[k] == b[k] {
        common_len(a, b, k + 1)
    } else {
        k
    }
}

proof fn lemma_common_len(a: Seq<u8>, b: Seq<u8>, k: int)
    requires
        0 <= k <= a.len(),
        k <= b.len(),
    ensures
        k <= common_len(a, b, k) <= a.len(),
        common_len(a, b, k) <= b.len(),
        common_len(a, b, k) < a.len() && common_len(a, b, k) < b.len() ==> a[common_len(
            a,
            b,
            k,
        )] != b[common_len(a, b, k)],
    decreases a.len() - k,
{
    if k < a.len() && k < b.len() && a[k] == b[k] {
        lemma_common_len(a, b, k + 1);
    }
}

/// Compares two byte strings (see [`lex_le`]).
pub fn bytes_le(a: &[u8], b: &[u8]) -> (res: bool)
    ensures
        res == lex_le(a@, b@),
{
    proof {
        lemma_common_len(a@, b@, 0);
    }
    let mut k: usize = 0;
    while k < a.len() && k < b.len() && a[k] == b[k]
        invariant
            k <= a@.len(),
            k <= b@.len(),
            common_len(a@, b@, k as int) == common_len(a@, b@, 0),
        decreases a.len() - k,
    {
        k = k + 1;
    }
    k == a.len() || (k < b.len() && a[k] < b[k])
}

/// Files inserted in order of path, after every file whose path sorts
/// before or equal to it.
pub open spec fn insert_by_path(s: Seq<FileEntry>, f: FileEntry) -> Seq<FileEntry>
    decreases s.len(),
{
    if s.len() == 0 || lex_le(s.last().relative, f.relative) {
        s.push(f)
    } else {
        insert_by_path(s.drop_last(), f).push(s.last())
    }
}

/// The files sorted by path, files with equal paths keeping their order.
pub open spec fn sort_by_path(s: Seq<FileEntry>) -> Seq<FileEntry>
    decreases s.len(),
{
    if s.len() == 0 {
        Seq::empty()
    } else {
        insert_by_path(sort_by_path(s.drop_last()), s.last())
    }
}

proof fn lemma_insert_by_path(s: Seq<FileEntry>, f: FileEntry, pos: int)
    requires
        0 <= pos <= s.len(),
        forall|j: int| pos <= j < s.len() ==> !lex_le(#[trigger] s[j].relative, f.relative),
        pos == 0 || lex_le(s[pos - 1].relative, f.relative),
    ensures
        insert_by_path(s, f) == s.insert(pos, f),
    decreases s.len(),
{
    if s.len() == 0 {
        assert(s.insert(pos, f) =~= s.push(f));
    } else if lex_le(s.last().relative, f.relative) {
        assert(pos == s.len());
        assert(s.insert(pos, f) =~= s.push(f));
    } else {
        let t = s.drop_last();
        assert(pos < s.len());
        lemma_insert_by_path(t, f, pos);
        assert(s.insert(pos, f) =~= t.insert(pos, f).push(s.last()));
    }
}

/// The views of a list of files.
pub open spec fn files_view(v: Seq<FileStatus>) -> Seq<FileEntry> {
    Seq::new(v.len(), |i: int| v[i]@)
}

/// Inserts `f` into files sorted by path (see [`insert_by_path`]).
fn insert_file(files: &mut Vec<FileStatus>, f: FileStatus)
    ensures
        files_view(final(files)@) == insert_by_path(files_view(old(files)@), f@),
{
    let key = f.relative.as_str().as_bytes();
    let mut pos = files.len();
    while pos > 0 && !bytes_le(files[pos - 1].relative.as_str().as_bytes(), key)
        invariant
            pos <= files@.len(),
            key@ == utf8(f.relative@),
            forall|k: int|
                pos <= k < files@.len() ==> !lex_le(
                    #[trigger] files_view(files@)[k].relative,
                    f@.relative,
                ),
        decreases pos,
    {
        pos = pos - 1;
    }
    proof {
        lemma_insert_by_path(files_view(files@), f@, pos as int);
    }
    let ghost before = files@;
    files.insert(pos, f);
    assert(files_view(files@) =~= files_view(before).insert(pos as int, f@));
}

/// The index just past the `n`-th space of `s[i..e]`, if there are that
/// many.
pub open spec fn after_spaces(s: Seq<u8>, i: int, e: int, n: nat) -> Option<int>
    decreases n,
{
    if n == 0 {
        Some(i)
    } else {
        let j = find_at(s, 32, i, e);
        if j >= e {
            None
        } else {
            after_spaces(s, j + 1, e, (n - 1) as nat)
        }
    }
}

proof fn lemma_after_spaces(s: Seq<u8>, i: int, e: int, n: nat)
    requires
        i <= e,
    ensures
        after_spaces(s, i, e, n) matches Some(p) ==> i <= p <= e && (n > 0 ==> s[p - 1] == 32),
    decreases n,
{
    if n > 0 {
        lemma_find_at(s, 32, i, e);
        let j = find_at(s, 32, i, e);
        if j < e {
            lemma_after_spaces(s, j + 1, e, (n - 1) as nat);
        }
    }
}

fn skip_spaces(s: &[u8], i: usize, e: usize, n: usize) -> (res: Option<usize>)
    requires
        i <= e <= s@.len(),
    ensures
        res matches Some(p) ==> after_spaces(s@, i as int, e as int, n as nat) == Some(p as int),
        res is None ==> after_spaces(s@, i as int, e as int, n as nat) is None,
{
    let mut k = i;
    let mut left = n;
    while left > 0
        invariant
            i <= k <= e <= s@.len(),
            after_spaces(s@, k as int, e as int, left as nat) == after_spaces(
                s@,
                i as int,
                e as int,
                n as nat,
            ),
        decreases left,
    {
        let j = find_byte(s, 32, k, e);
        if j >= e {
            return None;
        }
        k = j + 1;
        left = left - 1;
    }
    Some(k)
}

/// The next field that is not empty, at or after `i`, as `(start, end)`.
pub open spec fn next_field(s: Seq<u8>, i: int) -> Option<(int, int)>
    decreases s.len() - i,
{
    if i < 0 || i >= s.len() {
        None
    } else {
        let j = find_at(s, 0, i, s.len() as int);
        if j == i {
            next_field(s, i + 1)
        } else {
            Some((i, j))
        }
    }
}

proof fn lemma_next_field(s: Seq<u8>, i: int)
    requires
        0 <= i,
        i == 0 || i > s.len() || s[i - 1] == 0,
    ensures
        next_field(s, i) matches Some(r) ==> i <= r.0 < r.1 <= s.len() && (r.0 == 0 || s[r.0
            - 1] == 0) && (r.1 == s.len() || s[r.1] == 0),
    decreases s.len() - i,
{
    if i < s.len() {
        lemma_find_at(s, 0, i, s.len() as int);
        if find_at(s, 0, i, s.len() as int) == i {
            lemma_next_field(s, i + 1);
        }
    }
}

fn next_field_at(s: &[u8], i: usize) -> (res: Option<(usize, usize)>)
    ensures
        match next_field(s@, i as int) {
            Some(r) => res == Some((r.0 as usize, r.1 as usize)),
            None => res is None,
        },
{
    let n = s.len();
    let mut k = i;
    while k < n
        invariant
            i <= k,
            n == s@.len(),
            next_field(s@, k as int) == next_field(s@, i as int),
        decreases n - k,
    {
        let j = find_byte(s, 0, k, n);
        if j > k {
            return Some((k, j));
        }
        k = k + 1;
    }
    None
}

/// The file a `1` or `2` entry adds, from its two status letters `s[x]`,
/// `s[x + 1]` (the letters must be exactly two bytes, `s[x..xe]`): none
/// when neither letter names a change.
pub open spec fn tracked_entry(
    s: Seq<u8>,
    x: int,
    xe: int,
    path: Seq<u8>,
    original: Option<Seq<u8>>,
) -> Option<Option<FileEntry>> {
    if xe - x != 2 {
        None
    } else {
        let staged = change_of_code(s[x]);
        let unstaged = change_of_code(s[x + 1]);
        if staged is None && unstaged is None {
            Some(None)
        } else {
            Some(
                Some(
                    FileEntry { relative: path, original: original, staged: staged, unstaged: unstaged },
                ),
            )
        }
    }
}

/// The list with an optional file added.
pub open spec fn push_some(files: Seq<FileEntry>, f: Option<FileEntry>) -> Seq<FileEntry> {
    match f {
        Some(x) => files.push(x),
        None => files,
    }
}

/// One record `s[a..e]` of `git status --porcelain=v2 -z` read into the
/// branch and file list: the new state and where the next record starts,
/// or `None` when it is malformed.
///
/// Its kind is the text before its first space: `#` a branch header, `1` a
/// changed file (path after the 7th space of the rest), `2` a renamed or
/// copied file (path after the 8th space, original path in the next
/// field), `u` an unmerged file (path after the 9th space), `?` an
/// untracked file, `!` an ignored one (skipped).
pub open spec fn parse_record(
    s: Seq<u8>,
    a: int,
    e: int,
    st: (BranchEntry, Seq<FileEntry>),
) -> Option<((BranchEntry, Seq<FileEntry>), int)> {
    let sp = find_at(s, 32, a, e);
    let r = sp + 1;
    let xe = find_at(s, 32, r, e);
    if sp >= e {
        None
    } else if spells(s, a, sp, "#"@) {
        Some(((apply_header_at(st.0, s, r, e), st.1), e))
    } else if spells(s, a, sp, "1"@) {
        match after_spaces(s, r, e, 7) {
            None => None,
            Some(p) => match tracked_entry(s, r, xe, s.subrange(p, e), None) {
                None => None,
                Some(f) => Some(((st.0, push_some(st.1, f)), e)),
            },
        }
    } else if spells(s, a, sp, "2"@) {
        match after_spaces(s, r, e, 8) {
            None => None,
            Some(p) => match next_field(s, e) {
                None => None,
                Some(o) => match tracked_entry(
                    s,
                    r,
                    xe,
                    s.subrange(p, e),
                    Some(s.subrange(o.0, o.1)),
                ) {
                    None => None,
                    Some(f) => Some(((st.0, push_some(st.1, f)), o.1)),
                },
            },
        }
    } else if spells(s, a, sp, "u"@) {
        match after_spaces(s, r, e, 9) {
            None => None,
            Some(p) => Some(
                (
                    (
                        st.0,
                        st.1.push(
                            FileEntry {
                                relative: s.subrange(p, e),
                                original: None,
                                staged: None,
                                unstaged: Some(Change::Conflicted),
                            },
                        ),
                    ),
                    e,
                ),
            ),
        }
    } else if spells(s, a, sp, "?"@) {
        Some(
            (
                (
                    st.0,
                    st.1.push(
                        FileEntry {
                            relative: s.subrange(r, e),
                            original: None,
                            staged: None,
                            unstaged: Some(Change::Untracked),
                        },
                    ),
                ),
                e,
            ),
        )
    } else if spells(s, a, sp, "!"@) {
        Some((st, e))
    } else {
        None
    }
}

pub proof fn lemma_record_advances(
    s: Seq<u8>,
    a: int,
    e: int,
    st: (BranchEntry, Seq<FileEntry>),
)
    requires
        0 <= a < e <= s.len(),
    ensures
        parse_record(s, a, e, st) matches Some(x) ==> e <= x.1 <= s.len(),
{
    let sp = find_at(s, 32, a, e);
    if sp < e && spells(s, a, sp, "2"@) {
        match after_spaces(s, sp + 1, e, 8) {
            Some(p) => {
                lemma_find_at(s, 32, a, e);
                match next_field(s, e + 1) {
                    Some(o) => {
                        lemma_next_field_after(s, e + 1);
                    },
                    None => {},
                }
            },
            None => {},
        }
    }
}

pub proof fn lemma_next_field_after(s: Seq<u8>, i: int)
    ensures
        next_field(s, i) matches Some(r) ==> i <= r.0 < r.1 <= s.len(),
    decreases s.len() - i,
{
    if 0 <= i < s.len() {
        lemma_find_at(s, 0, i, s.len() as int);
        if find_at(s, 0, i, s.len() as int) == i {
            lemma_next_field_after(s, i + 1);
        }
    }
}

/// The branch and files read from `s[i..]`, or the first malformed record
/// as `(start, end)`.
pub open spec fn status_from(s: Seq<u8>, i: int, st: (BranchEntry, Seq<FileEntry>)) -> Result<
    (BranchEntry, Seq<FileEntry>),
    (int, int),
>
    decreases s.len() - i,
{
    if i < 0 || i >= s.len() {
        Ok(st)
    } else {
        let j = find_at(s, 0, i, s.len() as int);
        if j == i {
            status_from(s, i + 1, st)
        } else {
            match parse_record(s, i, j, st) {
                None => Err((i, j)),
                Some(x) => {
                    proof {
                        lemma_find_at(s, 0, i, s.len() as int);
                        lemma_record_advances(s, i, j, st);
                    }
                    status_from(s, x.1, x.0)
                },
            }
        }
    }
}

/// What `Status::parse` gives for the output `s`: the branch and the files
/// sorted by path, or the malformed record.
pub open spec fn parsed_status(s: Seq<u8>) -> Result<(BranchEntry, Seq<FileEntry>), Seq<u8>> {
    match status_from(s, 0, (no_branch(), Seq::empty())) {
        Ok(st) => Ok((st.0, sort_by_path(st.1))),
        Err(r) => Err(s.subrange(r.0, r.1)),
    }
}

/// A record of `git status` output that could not be read.
#[derive(Clone, Debug, PartialEq, Eq)]
pub struct StatusError {
    pub field: String,
}

impl StatusError {
    /// The message shown for the error.
    pub fn message(&self) -> (res: String)
        ensures
            res@ == "Unexpected git status line: "@ + self.field@,
    {
        let mut m = String::from_str("Unexpected git status line: ");
        m.append(self.field.as_str());
        m
    }
}

/// The branch and the changed files of a repository.
#[derive(Clone, Debug, PartialEq, Eq)]
pub struct Status {
    pub branch: Branch,
    pub files: Vec<FileStatus>,
}

impl Default for Status {
    fn default() -> (res: Self)
        ensures
            res.branch@ == no_branch(),
            res.files@.len() == 0,
    {
        Status { branch: Branch::default(), files: Vec::new() }
    }
}

/// The view of an optional file.
pub open spec fn opt_view(f: Option<FileStatus>) -> Option<FileEntry> {
    match f {
        Some(x) => Some(x@),
        None => None,
    }
}

/// Whether `s[a..e]` is a whole NUL-separated field.
pub open spec fn nul_field(s: Seq<u8>, a: int, e: int) -> bool {
    &&& 0 <= a < e <= s.len()
    &&& (a == 0 || s[a - 1] == 0)
    &&& (e == s.len() || s[e] == 0)
}

/// The file of a `1` or `2` entry (see [`tracked_entry`]).
fn tracked_file(
    s: &[u8],
    x: usize,
    xe: usize,
    p: usize,
    e: usize,
    original: Option<String>,
) -> (res: Option<Option<FileStatus>>)
    requires
        valid_utf8(s@),
        x <= xe <= e,
        ascii_edges(s@, p as int, e as int),
    ensures
        match tracked_entry(s@, x as int, xe as int, s@.subrange(p as int, e as int), opt_bytes(original)) {
            None => res is None,
            Some(o) => res matches Some(r) && opt_view(r) == o,
        },
{
    if xe - x != 2 {
        return None;
    }
    let staged = Change::from_code(s[x]);
    let unstaged = Change::from_code(s[x + 1]);
    if staged.is_none() && unstaged.is_none() {
        return Some(None);
    }
    proof {
        lemma_ascii_edges(s@, p as int, e as int);
    }
    let relative = string_between(s, p, e);
    Some(Some(FileStatus { relative, original, staged, unstaged }))
}

/// Reads the record `s[a..e]` (see [`parse_record`]): where the next
/// record starts and the file it adds, or `None` when it is malformed.
fn read_record(
    s: &[u8],
    a: usize,
    e: usize,
    branch: &mut Branch,
    Ghost(fs): Ghost<Seq<FileEntry>>,
) -> (res: Option<(usize, Option<FileStatus>)>)
    requires
        valid_utf8(s@),
        nul_field(s@, a as int, e as int),
    ensures
        match parse_record(s@, a as int, e as int, (old(branch)@, fs)) {
            None => res is None,
            Some(x) => res matches Some(r) && r.0 == x.1 && final(branch)@ == x.0.0 && push_some(
                fs,
                opt_view(r.1),
            ) == x.0.1,
        },
{
    let sp = find_byte(s, 32, a, e);
    if sp >= e {
        return None;
    }
    proof {
        lemma_find_at(s@, 32, a as int, e as int);
    }
    let r = sp + 1;
    let xe = find_byte(s, 32, r, e);
    if spells_at(s, a, sp, "#") {
        branch.header_at(s, r, e);
        return Some((e, None));
    }
    if spells_at(s, a, sp, "1") {
        let p = match skip_spaces(s, r, e, 7) {
            None => return None,
            Some(p) => p,
        };
        proof {
            lemma_after_spaces(s@, r as int, e as int, 7);
        }
        return match tracked_file(s, r, xe, p, e, None) {
            None => None,
            Some(f) => Some((e, f)),
        };
    }
    if spells_at(s, a, sp, "2") {
        let p = match skip_spaces(s, r, e, 8) {
            None => return None,
            Some(p) => p,
        };
        proof {
            lemma_after_spaces(s@, r as int, e as int, 8);
            lemma_next_field(s@, e + 1);
        }
        let next = if e < s.len() {
            next_field_at(s, e + 1)
        } else {
            None
        };
        let (oa, oe) = match next {
            None => return None,
            Some(o) => o,
        };
        proof {
            lemma_ascii_edges(s@, oa as int, oe as int);
        }
        let original = string_between(s, oa, oe);
        return match tracked_file(s, r, xe, p, e, Some(original)) {
            None => None,
            Some(f) => Some((oe, f)),
        };
    }
    if spells_at(s, a, sp, "u") {
        let p = match skip_spaces(s, r, e, 9) {
            None => return None,
            Some(p) => p,
        };
        proof {
            lemma_after_spaces(s@, r as int, e as int, 9);
            lemma_ascii_edges(s@, p as int, e as int);
        }
        let relative = string_between(s, p, e);
        let f = FileStatus {
            relative,
            original: None,
            staged: None,
            unstaged: Some(Change::Conflicted),
        };
        return Some((e, Some(f)));
    }
    if spells_at(s, a, sp, "?") {
        proof {
            lemma_ascii_edges(s@, r as int, e as int);
        }
        let relative = string_between(s, r, e);
        let f = FileStatus {
            relative,
            original: None,
            staged: None,
            unstaged: Some(Change::Untracked),
        };
        return Some((e, Some(f)));
    }
    if spells_at(s, a, sp, "!") {
        return Some((e, None));
    }
    None
}

impl Status {
    /// Reads the output of `git status --porcelain=v2 --branch -z`: the
    /// branch headers and the changed files, sorted by path (see
    /// [`parsed_status`]); a malformed record is an error naming it.
    pub fn parse(output: &str) -> (res: Result<Status, StatusError>)
        ensures
            match parsed_status(utf8(output@)) {
                Ok(st) => res matches Ok(status) && status.branch@ == st.0 && files_view(
                    status.files@,
                ) == st.1,
                Err(field) => res matches Err(err) && utf8(err.field@) == field,
            },
    {
        let s = output.as_bytes();
        let n = s.len();
        assert(n == s@.len());
        let mut branch = Branch::default();
        let mut files: Vec<FileStatus> = Vec::new();
        let ghost mut collected: Seq<FileEntry> = Seq::empty();
        assert(files_view(files@) =~= sort_by_path(collected));
        let mut i: usize = 0;
        while i < n
            invariant
                n == s@.len(),
                s@ == utf8(output@),
                valid_utf8(s@),
                i <= n,
                i == 0 || i >= n || s@[i - 1] == 0 || s@[i as int] == 0,
                status_from(s@, i as int, (branch@, collected)) == status_from(
                    s@,
                    0,
                    (no_branch(), Seq::empty()),
                ),
                files_view(files@) == sort_by_path(collected),
            decreases n - i,
        {
            let j = find_byte(s, 0, i, n);
            proof {
                lemma_find_at(s@, 0, i as int, n as int);
            }
            if j == i {
                i = i + 1;
            } else {
                let ghost before = branch@;
                match read_record(s, i, j, &mut branch, Ghost(collected)) {
                    None => {
                        proof {
                            lemma_ascii_edges(s@, i as int, j as int);
                        }
                        let field = string_between(s, i, j);
                        return Err(StatusError { field });
                    },
                    Some((next, f)) => {
                        proof {
                            lemma_record_advances(s@, i as int, j as int, (before, collected));
                            lemma_next_field(s@, j + 1);
                        }
                        match f {
                            Some(file) => {
                                proof {
                                    let grown = collected.push(file@);
                                    assert(grown.drop_last() =~= collected);
                                    collected = grown;
                                }
                                insert_file(&mut files, file);
                            },
                            None => {},
                        }
                        i = next;
                    },
                }
            }
        }
        Ok(Status { branch, files })
    }
}

// ---------------------------------------------------------------------------
// Unified diffs
// ---------------------------------------------------------------------------

/// What a line of a diff shows.
#[derive(Clone, Copy, Debug, PartialEq, Eq, Structural)]
pub enum LineKind {
    Meta,
    Hunk,
    Context,
    Added,
    Removed,
    Note,
}

/// A diff line as bytes.
pub ghost struct DiffEntry {
    pub kind: LineKind,
    pub text: Seq<u8>,
    pub old_line: Option<u32>,
    pub new_line: Option<u32>,
}

/// A line of a diff with its text (tabs expanded) and its numbers in the
/// old and the new file, where it has them.
#[derive(Clone, Debug, PartialEq, Eq)]
pub struct DiffLine {
    pub kind: LineKind,
    pub text: String,
    pub old_line: Option<u32>,
    pub new_line: Option<u32>,
}

impl View for DiffLine {
    type V = DiffEntry;

    open spec fn view(&self) -> DiffEntry {
        DiffEntry {
            kind: self.kind,
            text: utf8(self.text@),
            old_line: self.old_line,
            new_line: self.new_line,
        }
    }
}

/// The lines of a diff.
#[derive(Clone, Debug, PartialEq, Eq)]
pub struct Diff {
    pub lines: Vec<DiffLine>,
}

/// The views of a list of diff lines.
pub open spec fn lines_view(v: Seq<DiffLine>) -> Seq<DiffEntry> {
    Seq::new(v.len(), |i: int| v[i]@)
}

/// `n` spaces.
pub open spec fn spaces(n: int) -> Seq<u8> {
    Seq::new(n as nat, |i: int| 32u8)
}

/// Tab expansion of `t[..k]`: the text so far and the column it ends at,
/// modulo the tab width. A tab moves to the next multiple of the tab width;
/// every other character takes one column (bytes that continue a character
/// take none).
pub open spec fn expand_upto(t: Seq<u8>, k: int) -> (Seq<u8>, int)
    decreases k,
{
    if k <= 0 {
        (Seq::empty(), 0)
    } else {
        let (o, c) = expand_upto(t, k - 1);
        let b = t[k - 1];
        if b == 9 {
            (o + spaces(TAB_WIDTH - c), 0)
        } else if is_continuation_byte(b) {
            (o.push(b), c)
        } else {
            (o.push(b), (c + 1) % TAB_WIDTH as int)
        }
    }
}

/// `t` with its tabs expanded.
pub open spec fn expand_tabs(t: Seq<u8>) -> Seq<u8> {
    expand_upto(t, t.len() as int).0
}

proof fn lemma_spaces_ascii(n: int)
    requires
        n >= 0,
    ensures
        all_ascii(spaces(n)),
        valid_utf8(spaces(n)),
{
    lemma_ascii_valid(spaces(n));
}

/// The diff line for `s[a..e]` with its tabs expanded.
fn diff_line(
    kind: LineKind,
    s: &[u8],
    a: usize,
    e: usize,
    old_line: Option<u32>,
    new_line: Option<u32>,
) -> (res: DiffLine)
    requires
        valid_utf8(s@),
        a <= e <= s@.len(),
        boundary(s@, a as int),
        boundary(s@, e as int),
    ensures
        res@ == (DiffEntry {
            kind,
            text: expand_tabs(s@.subrange(a as int, e as int)),
            old_line,
            new_line,
        }),
{
    let ghost t = s@.subrange(a as int, e as int);
    let mut out: Vec<u8> = Vec::new();
    let mut col: usize = 0;
    let mut start = a;
    let mut k = a;
    proof {
        lemma_boundary_in_bounds(s@, a as int);
        assert(valid_utf8(out@));
        assert(out@ + s@.subrange(start as int, k as int) =~= expand_upto(t, 0).0);
    }
    while k < e
        invariant
            valid_utf8(s@),
            a <= start <= k <= e <= s@.len(),
            boundary(s@, start as int),
            boundary(s@, e as int),
            t == s@.subrange(a as int, e as int),
            valid_utf8(out@),
            out@ + s@.subrange(start as int, k as int) == expand_upto(t, k - a).0,
            col == expand_upto(t, k - a).1,
            0 <= col < TAB_WIDTH,
        decreases e - k,
    {
        let b = s[k];
        let ghost prev = expand_upto(t, k - a);
        assert(t[k - a] == b);
        if b == 9 {
            proof {
                lemma_ascii_is_boundary(s@, k as int);
                lemma_valid_between(s@, start as int, k as int);
                lemma_after_ascii(s@, k + 1);
            }
            let ghost o1 = out@;
            push_range(&mut out, s, start, k);
            let ghost o2 = out@;
            let mut m = TAB_WIDTH - col;
            while m > 0
                invariant
                    m <= TAB_WIDTH - col,
                    out@ == o2 + spaces((TAB_WIDTH - col - m) as int),
                decreases m,
            {
                out.push(32);
                m = m - 1;
                assert(out@ =~= o2 + spaces((TAB_WIDTH - col - m) as int));
            }
            proof {
                lemma_spaces_ascii((TAB_WIDTH - col) as int);
                valid_utf8_concat(o1, s@.subrange(start as int, k as int));
                valid_utf8_concat(o2, spaces((TAB_WIDTH - col) as int));
                assert(out@ =~= prev.0 + spaces(TAB_WIDTH - col));
            }
            col = 0;
            start = k + 1;
            k = k + 1;
            assert(out@ + s@.subrange(start as int, k as int) =~= expand_upto(t, k - a).0);
        } else {
            if !(0x80 <= b && b <= 0xbf) {
                col = (col + 1) % TAB_WIDTH;
            }
            k = k + 1;
            assert(s@.subrange(start as int, k as int) =~= s@.subrange(start as int, k - 1).push(
                b,
            ));
            assert(out@ + s@.subrange(start as int, k as int) =~= expand_upto(t, k - a).0);
        }
    }
    proof {
        lemma_valid_between(s@, start as int, e as int);
        valid_utf8_concat(out@, s@.subrange(start as int, e as int));
    }
    let ghost o1 = out@;
    push_range(&mut out, s, start, e);
    assert(out@ =~= expand_tabs(t));
    DiffLine { kind, text: string_from_utf8(out), old_line, new_line }
}


/// Whether `s[a..e]` starts with `t`.
pub open spec fn starts(s: Seq<u8>, a: int, e: int, t: Seq<char>) -> bool {
    a + utf8(t).len() <= e && s.subrange(a, a + utf8(t).len()) == utf8(t)
}

/// Checks whether `s[a..e]` starts with `t`.
fn starts_at(s: &[u8], a: usize, e: usize, t: &str) -> (res: bool)
    requires
        a <= e <= s@.len(),
    ensures
        res == starts(s@, a as int, e as int, t@),
{
    let w = t.as_bytes();
    let m = w.len();
    if e - a < m {
        return false;
    }
    spells_at(s, a, a + m, t)
}

/// Where the line starting at `i` ends: the end of its text (without its
/// `\n` or `\r\n`, and without one more `\r`) and the start of the next line.
pub open spec fn line_end(s: Seq<u8>, i: int) -> (int, int) {
    let n = s.len() as int;
    let j = find_at(s, 10, i, n);
    let t1 = if j < n && j > i && s[j - 1] == 13 {
        j - 1
    } else {
        j
    };
    let t2 = if t1 > i && s[t1 - 1] == 13 {
        t1 - 1
    } else {
        t1
    };
    (t2, j + 1)
}

/// The number at the start of a hunk range `s[a..e]` that begins with
/// `sign`: the digits up to the first comma.
pub open spec fn range_start(s: Seq<u8>, a: int, e: int, sign: u8) -> Option<u32> {
    if a < e && s[a] == sign {
        u32_of(s, a + 1, find_at(s, 44, a + 1, e))
    } else {
        None
    }
}

/// The first old and new line numbers of a hunk header `s[a..e]` such as
/// `@@ -9,3 +9,3 @@`: the second and third space-separated pieces, read
/// after their `-` and `+`.
pub open spec fn hunk_starts(s: Seq<u8>, a: int, e: int) -> Option<(u32, u32)> {
    let sp1 = find_at(s, 32, a, e);
    let sp2 = find_at(s, 32, sp1 + 1, e);
    let sp3 = find_at(s, 32, sp2 + 1, e);
    if sp1 >= e {
        None
    } else {
        match range_start(s, sp1 + 1, sp2, 45) {
            None => None,
            Some(old) => if sp2 >= e {
                None
            } else {
                match range_start(s, sp2 + 1, sp3, 43) {
                    None => None,
                    Some(new) => Some((old, new)),
                }
            },
        }
    }
}

/// A hunk's first old line is read after the `-` sign and its first new
/// line after the `+` sign that follows it: whenever a header `s[a..e]`
/// gives `(old, new)`, some `-` just after a space is followed by the
/// digits of `old`, up to a comma or a space, and a later `+` just after a
/// space by the digits of `new`, up to a comma, a space or the end.
pub proof fn lemma_hunk_starts_follow_signs(s: Seq<u8>, a: int, e: int)
    requires
        0 <= a <= e <= s.len(),
    ensures
        hunk_starts(s, a, e) matches Some((old, new)) ==> exists|i: int, k: int, j: int, m: int|
            #![trigger u32_of(s, i + 1, k), u32_of(s, j + 1, m)]
            a < i < k < j < m <= e && s[i] == 45 && s[j] == 43 && s[i - 1] == 32 && s[j - 1] == 32
                && (s[k] == 44 || s[k] == 32) && (m == e || s[m] == 44 || s[m] == 32) && u32_of(
                s,
                i + 1,
                k,
            ) == Some(old) && u32_of(s, j + 1, m) == Some(new),
{
    let sp1 = find_at(s, 32, a, e);
    lemma_find_at(s, 32, a, e);
    if sp1 < e {
        let sp2 = find_at(s, 32, sp1 + 1, e);
        lemma_find_at(s, 32, sp1 + 1, e);
        if sp1 + 1 < sp2 && s[sp1 + 1] == 45 && sp2 < e {
            let k = find_at(s, 44, sp1 + 2, sp2);
            lemma_find_at(s, 44, sp1 + 2, sp2);
            let sp3 = find_at(s, 32, sp2 + 1, e);
            lemma_find_at(s, 32, sp2 + 1, e);
            if sp2 + 1 < sp3 && s[sp2 + 1] == 43 {
                let m = find_at(s, 44, sp2 + 2, sp3);
                lemma_find_at(s, 44, sp2 + 2, sp3);
                if let Some((old, new)) = hunk_starts(s, a, e) {
                    assert(u32_of(s, sp1 + 2, k) == Some(old));
                    assert(u32_of(s, sp2 + 2, m) == Some(new));
                    assert(u32_of(s, (sp1 + 1) + 1, k) == Some(old));
                    assert(u32_of(s, (sp2 + 1) + 1, m) == Some(new));
                }
            }
        }
    }
}

fn range_start_at(s: &[u8], a: usize, e: usize, sign: u8) -> (res: Option<u32>)
    requires
        a <= e <= s@.len(),
    ensures
        res == range_start(s@, a as int, e as int, sign),
{
    if a < e && s[a] == sign {
        let c = find_byte(s, 44, a + 1, e);
        parse_u32(s, a + 1, c)
    } else {
        None
    }
}

fn hunk_starts_at(s: &[u8], a: usize, e: usize) -> (res: Option<(u32, u32)>)
    requires
        a <= e <= s@.len(),
    ensures
        res == hunk_starts(s@, a as int, e as int),
{
    let sp1 = find_byte(s, 32, a, e);
    if sp1 >= e {
        return None;
    }
    let sp2 = find_byte(s, 32, sp1 + 1, e);
    let old = match range_start_at(s, sp1 + 1, sp2, 45) {
        None => return None,
        Some(old) => old,
    };
    if sp2 >= e {
        return None;
    }
    let sp3 = find_byte(s, 32, sp2 + 1, e);
    match range_start_at(s, sp2 + 1, sp3, 43) {
        None => None,
        Some(new) => Some((old, new)),
    }
}

/// Whether `s[a..e]` starts with `@@`, as a hunk header does.
pub open spec fn hunk_header(s: Seq<u8>, a: int, e: int) -> bool {
    e - a >= 2 && s[a] == 64 && s[a + 1] == 64
}

/// The number of `@` at the start of `s[a..e]`.
pub open spec fn at_signs(s: Seq<u8>, a: int, e: int) -> int
    decreases e - a,
{
    if a < e && s[a] == 64 {
        1 + at_signs(s, a + 1, e)
    } else {
        0
    }
}

proof fn lemma_at_signs(s: Seq<u8>, a: int, e: int)
    requires
        a <= e,
    ensures
        0 <= at_signs(s, a, e) <= e - a,
    decreases e - a,
{
    if a < e && s[a] == 64 {
        lemma_at_signs(s, a + 1, e);
    }
}

fn count_at_signs(s: &[u8], a: usize, e: usize) -> (res: usize)
    requires
        a <= e <= s@.len(),
    ensures
        res == at_signs(s@, a as int, e as int),
{
    proof {
        lemma_at_signs(s@, a as int, e as int);
    }
    let mut k = a;
    while k < e && s[k] == 64
        invariant
            a <= k <= e <= s@.len(),
            at_signs(s@, a as int, e as int) == (k - a) + at_signs(s@, k as int, e as int),
        decreases e - k,
    {
        k = k + 1;
    }
    k - a
}

/// Whether `s[a..e]` holds the byte `b`.
pub open spec fn holds(s: Seq<u8>, a: int, e: int, b: u8) -> bool {
    exists|k: int| a <= k < e && s[k] == b
}

fn holds_at(s: &[u8], a: usize, e: usize, b: u8) -> (res: bool)
    requires
        a <= e <= s@.len(),
    ensures
        res == holds(s@, a as int, e as int, b),
{
    let k = find_byte(s, b, a, e);
    proof {
        lemma_find_at(s@, b, a as int, e as int);
        if k < e {
            assert(s@[k as int] == b);
        }
    }
    k < e
}

/// How far a diff has been read: the number of marker columns of the
/// current hunk (0 outside hunks) and the next old and new line numbers.
pub type DiffState = (int, int, int);

/// A diff line with its text expanded.
pub open spec fn entry(kind: LineKind, text: Seq<u8>, old_line: Option<u32>, new_line: Option<u32>) -> DiffEntry {
    DiffEntry { kind, text: expand_tabs(text), old_line, new_line }
}

/// One line `s[a..e]` of `git diff` output: the diff line it shows, if
/// any, and the state after it.
///
/// `diff ` starts a file and leaves any hunk. A line of `@`s starts a hunk
/// with one marker column per `@` after the first; with one column it sets
/// the line numbers from its header. Outside hunks the file headers
/// (`diff `, `index `, `--- `, `+++ `) are dropped and other lines kept as
/// they are. Inside, `\` starts a note; any other line is split after the
/// marker columns (when that falls on a character boundary; else all of it
/// is markers): markers with a `+` add, with a `-` remove, else the line is
/// context. Line numbers are shown in plain (one-column) hunks only, and
/// each side counts the lines it holds.
#[verifier::opaque]
pub open spec fn diff_step(s: Seq<u8>, a: int, e: int, st: DiffState) -> (Option<DiffEntry>, DiffState) {
    let line = s.subrange(a, e);
    let columns = if starts(s, a, e, "diff "@) {
        0
    } else {
        st.0
    };
    if hunk_header(s, a, e) {
        let c = at_signs(s, a, e) - 1;
        let numbers = if c == 1 {
            match hunk_starts(s, a, e) {
                Some(p) => (p.0 as int, p.1 as int),
                None => (0, 0),
            }
        } else {
            (st.1, st.2)
        };
        (Some(entry(LineKind::Hunk, line, None, None)), (c, numbers.0, numbers.1))
    } else if columns == 0 {
        if starts(s, a, e, "diff "@) || starts(s, a, e, "index "@) || starts(s, a, e, "--- "@)
            || starts(s, a, e, "+++ "@) {
            (None, (0, st.1, st.2))
        } else {
            (Some(entry(LineKind::Meta, line, None, None)), (0, st.1, st.2))
        }
    } else if a < e && s[a] == 92 {
        (Some(entry(LineKind::Note, line, None, None)), (columns, st.1, st.2))
    } else {
        let cut = columns <= e - a && boundary(line, columns);
        let split = if cut {
            a + columns
        } else {
            e
        };
        let kind = if holds(s, a, split, 43) {
            LineKind::Added
        } else if holds(s, a, split, 45) {
            LineKind::Removed
        } else {
            LineKind::Context
        };
        let numbered = columns == 1;
        let old_line = if kind != LineKind::Added && numbered {
            Some(st.1 as u32)
        } else {
            None
        };
        let new_line = if kind != LineKind::Removed && numbered {
            Some(st.2 as u32)
        } else {
            None
        };
        let text = if cut {
            s.subrange(a + columns, e)
        } else {
            Seq::empty()
        };
        (
            Some(entry(kind, text, old_line, new_line)),
            (
                columns,
                if kind != LineKind::Added {
                    st.1 + 1
                } else {
                    st.1
                },
                if kind != LineKind::Removed {
                    st.2 + 1
                } else {
                    st.2
                },
            ),
        )
    }
}

/// The diff lines read from `s[i..]`, after `acc`.
pub open spec fn diff_from(s: Seq<u8>, i: int, st: DiffState, acc: Seq<DiffEntry>) -> Seq<DiffEntry>
    decreases s.len() + 1 - i,
{
    if i < 0 || i >= s.len() {
        acc
    } else {
        let (t, next) = line_end(s, i);
        let (line, st2) = diff_step(s, i, t, st);
        let acc2 = match line {
            Some(l) => acc.push(l),
            None => acc,
        };
        proof {
            lemma_find_at(s, 10, i, s.len() as int);
        }
        diff_from(s, next, st2, acc2)
    }
}

/// Whether no line number read from `s[i..]` passes `u32::MAX` (counting
/// past it would overflow).
pub open spec fn diff_fits(s: Seq<u8>, i: int, st: DiffState) -> bool
    decreases s.len() + 1 - i,
{
    if i < 0 || i >= s.len() {
        true
    } else {
        let (t, next) = line_end(s, i);
        let st2 = diff_step(s, i, t, st).1;
        if st2.1 <= u32::MAX && st2.2 <= u32::MAX {
            proof {
                lemma_find_at(s, 10, i, s.len() as int);
            }
            diff_fits(s, next, st2)
        } else {
            false
        }
    }
}

/// The lines of a diff, from the output of `git diff`.
pub open spec fn parsed_diff(s: Seq<u8>) -> Seq<DiffEntry> {
    diff_from(s, 0, (0, 0, 0), Seq::empty())
}

pub proof fn lemma_sub_boundary(s: Seq<u8>, a: int, e: int, k: int)
    requires
        valid_utf8(s),
        0 <= a <= e <= s.len(),
        boundary(s, a),
        boundary(s, e),
        0 <= k <= e - a,
    ensures
        valid_utf8(s.subrange(a, e)),
        boundary(s.subrange(a, e), k) == boundary(s, a + k),
{
    lemma_valid_between(s, a, e);
    let line = s.subrange(a, e);
    is_char_boundary_start_end_of_seq(line);
    if 0 < k < e - a {
        is_char_boundary_iff_not_is_continuation_byte(line, k);
        is_char_boundary_iff_not_is_continuation_byte(s, a + k);
        assert(line[k] == s[a + k]);
    }
}

/// One line of diff output `s[a..e]` read into `lines` (see [`diff_step`]).
fn read_diff_line(
    s: &[u8],
    a: usize,
    e: usize,
    columns: &mut usize,
    old_no: &mut u32,
    new_no: &mut u32,
    lines: &mut Vec<DiffLine>,
)
    requires
        valid_utf8(s@),
        ascii_edges(s@, a as int, e as int),
        ({
            let st2 = diff_step(
                s@,
                a as int,
                e as int,
                (*old(columns) as int, *old(old_no) as int, *old(new_no) as int),
            ).1;
            st2.1 <= u32::MAX && st2.2 <= u32::MAX
        }),
    ensures
        ({
            let (line, st2) = diff_step(
                s@,
                a as int,
                e as int,
                (*old(columns) as int, *old(old_no) as int, *old(new_no) as int),
            );
            &&& st2 == (*final(columns) as int, *final(old_no) as int, *final(new_no) as int)
            &&& lines_view(final(lines)@) == match line {
                Some(l) => lines_view(old(lines)@).push(l),
                None => lines_view(old(lines)@),
            }
        }),
{
    proof {
        lemma_ascii_edges(s@, a as int, e as int);
        reveal(diff_step);
    }
    let ghost before = lines@;
    if starts_at(s, a, e, "diff ") {
        *columns = 0;
    }
    if e - a >= 2 && s[a] == 64 && s[a + 1] == 64 {
        proof {
            lemma_at_signs(s@, a + 2, e as int);
            assert(at_signs(s@, a + 1, e as int) == 1 + at_signs(s@, a + 2, e as int));
            assert(at_signs(s@, a as int, e as int) == 1 + at_signs(s@, a + 1, e as int));
        }
        let c = count_at_signs(s, a, e) - 1;
        *columns = c;
        if c == 1 {
            match hunk_starts_at(s, a, e) {
                Some((o, n)) => {
                    *old_no = o;
                    *new_no = n;
                },
                None => {
                    *old_no = 0;
                    *new_no = 0;
                },
            }
        }
        lines.push(diff_line(LineKind::Hunk, s, a, e, None, None));
        assert(lines_view(lines@) =~= lines_view(before).push(lines@.last()@));
        return;
    }
    if *columns == 0 {
        if !(starts_at(s, a, e, "diff ") || starts_at(s, a, e, "index ") || starts_at(
            s,
            a,
            e,
            "--- ",
        ) || starts_at(s, a, e, "+++ ")) {
            lines.push(diff_line(LineKind::Meta, s, a, e, None, None));
            assert(lines_view(lines@) =~= lines_view(before).push(lines@.last()@));
        }
        return;
    }
    if a < e && s[a] == 92 {
        lines.push(diff_line(LineKind::Note, s, a, e, None, None));
        assert(lines_view(lines@) =~= lines_view(before).push(lines@.last()@));
        return;
    }
    let cols = *columns;
    let cut = cols <= e - a && {
        proof {
            lemma_sub_boundary(s@, a as int, e as int, cols as int);
        }
        crate::text::is_boundary(s, a + cols)
    };
    let split = if cut {
        a + cols
    } else {
        e
    };
    let kind = if holds_at(s, a, split, 43) {
        LineKind::Added
    } else if holds_at(s, a, split, 45) {
        LineKind::Removed
    } else {
        LineKind::Context
    };
    let numbered = cols == 1;
    let old_line = if kind != LineKind::Added && numbered {
        Some(*old_no)
    } else {
        None
    };
    let new_line = if kind != LineKind::Removed && numbered {
        Some(*new_no)
    } else {
        None
    };
    let start = if cut {
        a + cols
    } else {
        e
    };
    proof {
        if cut {
            lemma_sub_boundary(s@, a as int, e as int, cols as int);
        }
    }
    let line = diff_line(kind, s, start, e, old_line, new_line);
    assert(s@.subrange(start as int, e as int) =~= if cut {
        s@.subrange(a + cols, e as int)
    } else {
        Seq::<u8>::empty()
    });
    lines.push(line);
    assert(lines_view(lines@) =~= lines_view(before).push(lines@.last()@));
    if kind != LineKind::Added {
        *old_no = *old_no + 1;
    }
    if kind != LineKind::Removed {
        *new_no = *new_no + 1;
    }
}

/// The state after one line `s[a..e]` of `git diff` output, as
/// [`diff_step`] gives it, with the line numbers counted in 64 bits.
fn diff_state_step(s: &[u8], a: usize, e: usize, columns: usize, old_no: u32, new_no: u32) -> (res: (usize, u64, u64))
    requires
        valid_utf8(s@),
        ascii_edges(s@, a as int, e as int),
    ensures
        (res.0 as int, res.1 as int, res.2 as int) == diff_step(
            s@,
            a as int,
            e as int,
            (columns as int, old_no as int, new_no as int),
        ).1,
{
    proof {
        lemma_ascii_edges(s@, a as int, e as int);
        reveal(diff_step);
    }
    let mut cols = columns;
    if starts_at(s, a, e, "diff ") {
        cols = 0;
    }
    if e - a >= 2 && s[a] == 64 && s[a + 1] == 64 {
        proof {
            lemma_at_signs(s@, a + 2, e as int);
            assert(at_signs(s@, a + 1, e as int) == 1 + at_signs(s@, a + 2, e as int));
            assert(at_signs(s@, a as int, e as int) == 1 + at_signs(s@, a + 1, e as int));
        }
        let c = count_at_signs(s, a, e) - 1;
        if c == 1 {
            return match hunk_starts_at(s, a, e) {
                Some((o, n)) => (c, o as u64, n as u64),
                None => (c, 0, 0),
            };
        }
        return (c, old_no as u64, new_no as u64);
    }
    if cols == 0 {
        return (0, old_no as u64, new_no as u64);
    }
    if a < e && s[a] == 92 {
        return (cols, old_no as u64, new_no as u64);
    }
    let cut = cols <= e - a && {
        proof {
            lemma_sub_boundary(s@, a as int, e as int, cols as int);
        }
        crate::text::is_boundary(s, a + cols)
    };
    let split = if cut {
        a + cols
    } else {
        e
    };
    let added = holds_at(s, a, split, 43);
    let removed = !added && holds_at(s, a, split, 45);
    (
        cols,
        if !added {
            old_no as u64 + 1
        } else {
            old_no as u64
        },
        if !removed {
            new_no as u64 + 1
        } else {
            new_no as u64
        },
    )
}

/// Whether [`Diff::parse`] can read `output`: no line number in it passes
/// `u32::MAX` (see [`diff_fits`]).
pub fn diff_fits_exec(output: &str) -> (res: bool)
    ensures
        res == diff_fits(utf8(output@), 0, (0, 0, 0)),
{
    let s = output.as_bytes();
    let n = s.len();
    assert(n == s@.len());
    let mut columns: usize = 0;
    let mut old: u32 = 0;
    let mut new: u32 = 0;
    let mut i: usize = 0;
    while i < n
        invariant
            n == s@.len(),
            s@ == utf8(output@),
            valid_utf8(s@),
            i <= n,
            i == 0 || i == n || s@[i - 1] == 10,
            diff_fits(s@, i as int, (columns as int, old as int, new as int)) == diff_fits(
                s@,
                0,
                (0, 0, 0),
            ),
        decreases n - i,
    {
        let j = find_byte(s, 10, i, n);
        proof {
            lemma_find_at(s@, 10, i as int, n as int);
        }
        let t1 = if j < n && j > i && s[j - 1] == 13 {
            j - 1
        } else {
            j
        };
        let t = if t1 > i && s[t1 - 1] == 13 {
            t1 - 1
        } else {
            t1
        };
        assert((t as int, j + 1) == line_end(s@, i as int));
        let ghost st = (columns as int, old as int, new as int);
        let (c2, o2, n2) = diff_state_step(s, i, t, columns, old, new);
        assert(diff_fits(s@, i as int, st) == ((o2 as int) <= u32::MAX && (n2 as int) <= u32::MAX
            && diff_fits(s@, j + 1, (c2 as int, o2 as int, n2 as int))));
        if o2 > 0xffff_ffffu64 || n2 > 0xffff_ffffu64 {
            return false;
        }
        columns = c2;
        old = o2 as u32;
        new = n2 as u32;
        if j >= n {
            i = n;
        } else {
            i = j + 1;
        }
    }
    true
}

impl Diff {
    /// Reads the output of `git diff` (see [`diff_step`]).
    pub fn parse(output: &str) -> (res: Diff)
        requires
            diff_fits(utf8(output@), 0, (0, 0, 0)),
        ensures
            lines_view(res.lines@) == parsed_diff(utf8(output@)),
    {
        let s = output.as_bytes();
        let n = s.len();
        assert(n == s@.len());
        let mut lines: Vec<DiffLine> = Vec::new();
        let mut columns: usize = 0;
        let mut old: u32 = 0;
        let mut new: u32 = 0;
        let mut i: usize = 0;
        assert(lines_view(lines@) =~= Seq::<DiffEntry>::empty());
        while i < n
            invariant
                n == s@.len(),
                s@ == utf8(output@),
                valid_utf8(s@),
                i <= n,
                i == 0 || i == n || s@[i - 1] == 10,
                diff_from(s@, i as int, (columns as int, old as int, new as int), lines_view(lines@))
                    == parsed_diff(s@),
                diff_fits(s@, i as int, (columns as int, old as int, new as int)),
            decreases n - i,
        {
            let j = find_byte(s, 10, i, n);
            proof {
                lemma_find_at(s@, 10, i as int, n as int);
            }
            let t1 = if j < n && j > i && s[j - 1] == 13 {
                j - 1
            } else {
                j
            };
            let t = if t1 > i && s[t1 - 1] == 13 {
                t1 - 1
            } else {
                t1
            };
            assert((t as int, j + 1) == line_end(s@, i as int));
            let ghost st = (columns as int, old as int, new as int);
            let ghost acc = lines_view(lines@);
            let ghost step = diff_step(s@, i as int, t as int, st);
            assert(diff_from(s@, i as int, st, acc) == diff_from(
                s@,
                j + 1,
                step.1,
                match step.0 {
                    Some(l) => acc.push(l),
                    None => acc,
                },
            ));
            assert(diff_fits(s@, i as int, st) == (step.1.1 <= u32::MAX && step.1.2 <= u32::MAX
                && diff_fits(s@, j + 1, step.1)));
            read_diff_line(s, i, t, &mut columns, &mut old, &mut new, &mut lines);
            if j >= n {
                i = n;
            } else {
                i = j + 1;
            }
        }
        Diff { lines }
    }
}


// ---------------------------------------------------------------------------
// Paths
// ---------------------------------------------------------------------------

/// A path separator in a clone URL.
pub open spec fn is_slash(c: char) -> bool {
    c == '/' || c == '\\'
}

/// Where the last piece of `u[a..e]` starts, pieces being separated by
/// `/`, `\` and `:`.
pub open spec fn last_piece(u: Seq<char>, a: int, e: int) -> int
    decreases e - a,
{
    if e <= a {
        a
    } else if is_slash(u[e - 1]) || u[e - 1] == ':' {
        e
    } else {
        last_piece(u, a, e - 1)
    }
}

/// The folder a clone of `url` goes to: the last piece of the URL once
/// whitespace around it, trailing separators, a `.git` suffix and the
/// separators before that are taken off; none when that piece is empty,
/// `.` or `..`.
pub open spec fn clone_folder(u: Seq<char>) -> Option<Seq<char>> {
    let n = u.len() as int;
    let a = skip_space(u, 0, n);
    let e0 = trim_end(u, a, n, |c: char| is_space(c));
    let e1 = trim_end(u, a, e0, |c: char| is_slash(c));
    let e2 = if e1 - a >= 4 && u.subrange(e1 - 4, e1) == ".git"@ {
        e1 - 4
    } else {
        e1
    };
    let e3 = trim_end(u, a, e2, |c: char| is_slash(c));
    let k = last_piece(u, a, e3);
    let name = u.subrange(k, e3);
    if name.len() == 0 || name == "."@ || name == ".."@ {
        None
    } else {
        Some(name)
    }
}

proof fn lemma_last_piece(u: Seq<char>, a: int, e: int)
    requires
        a <= e,
    ensures
        a <= last_piece(u, a, e) <= e,
    decreases e - a,
{
    if e > a && !(is_slash(u[e - 1]) || u[e - 1] == ':') {
        lemma_last_piece(u, a, e - 1);
    }
}

fn slash_at(url: &str, k: usize) -> (res: bool)
    requires
        k < url@.len(),
    ensures
        res == is_slash(url@[k as int]),
{
    let c = url.get_char(k);
    c == '/' || c == '\\'
}

fn separator_at(url: &str, k: usize) -> (res: bool)
    requires
        k < url@.len(),
    ensures
        res == (is_slash(url@[k as int]) || url@[k as int] == ':'),
{
    let c = url.get_char(k);
    c == '/' || c == '\\' || c == ':'
}

fn trim_slashes(url: &str, a: usize, e: usize) -> (res: usize)
    requires
        a <= e <= url@.len(),
    ensures
        res == trim_end(url@, a as int, e as int, |c: char| is_slash(c)),
        a <= res <= e,
{
    let mut k = e;
    while k > a && slash_at(url, k - 1)
        invariant
            a <= k <= e <= url@.len(),
            trim_end(url@, a as int, k as int, |c: char| is_slash(c)) == trim_end(
                url@,
                a as int,
                e as int,
                |c: char| is_slash(c),
            ),
        decreases k,
    {
        k = k - 1;
    }
    k
}

/// The folder that cloning `url` creates (see [`clone_folder`]).
pub fn clone_folder_name(url: &str) -> (res: Option<String>)
    ensures
        match clone_folder(url@) {
            Some(name) => res matches Some(s) && s@ == name,
            None => res is None,
        },
{
    let n = url.unicode_len();
    let mut a: usize = 0;
    while a < n && space_char(url.get_char(a))
        invariant
            a <= n == url@.len(),
            skip_space(url@, a as int, n as int) == skip_space(url@, 0, n as int),
        decreases n - a,
    {
        a = a + 1;
    }
    let mut e0 = n;
    while e0 > a && space_char(url.get_char(e0 - 1))
        invariant
            a <= e0 <= n == url@.len(),
            trim_end(url@, a as int, e0 as int, |c: char| is_space(c)) == trim_end(
                url@,
                a as int,
                n as int,
                |c: char| is_space(c),
            ),
        decreases e0,
    {
        e0 = e0 - 1;
    }
    let e1 = trim_slashes(url, a, e0);
    let e2 = if e1 - a >= 4 && url.get_char(e1 - 4) == '.' && url.get_char(e1 - 3) == 'g'
        && url.get_char(e1 - 2) == 'i' && url.get_char(e1 - 1) == 't' {
        proof {
            reveal_strlit(".git");
            assert(url@.subrange(e1 - 4, e1 as int) =~= ".git"@);
        }
        e1 - 4
    } else {
        proof {
            reveal_strlit(".git");
            if e1 - a >= 4 && url@.subrange(e1 - 4, e1 as int) == ".git"@ {
                assert(url@.subrange(e1 - 4, e1 as int)[0] == url@[e1 - 4]);
                assert(url@.subrange(e1 - 4, e1 as int)[1] == url@[e1 - 3]);
                assert(url@.subrange(e1 - 4, e1 as int)[2] == url@[e1 - 2]);
                assert(url@.subrange(e1 - 4, e1 as int)[3] == url@[e1 - 1]);
            }
        }
        e1
    };
    let e3 = trim_slashes(url, a, e2);
    let mut k = e3;
    while k > a && !separator_at(url, k - 1)
        invariant
            a <= k <= e3 <= url@.len(),
            last_piece(url@, a as int, k as int) == last_piece(url@, a as int, e3 as int),
        decreases k,
    {
        k = k - 1;
    }
    let name = url.substring_char(k, e3);
    let m = e3 - k;
    proof {
        reveal_strlit(".");
        reveal_strlit("..");
    }
    if m == 0 {
        return None;
    }
    if m == 1 && name.get_char(0) == '.' {
        proof {
            assert(name@ =~= "."@);
        }
        return None;
    }
    if m == 2 && name.get_char(0) == '.' && name.get_char(1) == '.' {
        proof {
            assert(name@ =~= ".."@);
        }
        return None;
    }
    proof {
        if name@ == "."@ {
            assert(name@[0] == '.');
        }
        if name@ == ".."@ {
            assert(name@[0] == '.' && name@[1] == '.');
        }
    }
    Some(name.to_owned())
}

/// `root` joined with each non-empty `/`-separated piece of `rel[i..]`, as
/// `PathBuf::join` does on Unix: a `/` goes between them unless the path
/// so far is empty or already ends with one.
pub open spec fn join_pieces(root: Seq<u8>, rel: Seq<u8>, i: int) -> Seq<u8>
    decreases rel.len() + 1 - i,
{
    if i < 0 || i > rel.len() {
        root
    } else {
        let j = find_at(rel, 47, i, rel.len() as int);
        let piece = rel.subrange(i, j);
        let joined = if piece.len() == 0 {
            root
        } else if root.len() > 0 && root.last() != 47 {
            root.push(47) + piece
        } else {
            root + piece
        };
        proof {
            lemma_find_at(rel, 47, i, rel.len() as int);
        }
        join_pieces(joined, rel, j + 1)
    }
}

/// The path of `relative` (a path from the repository root, `/`-separated)
/// under `root` (see [`join_pieces`]).
pub fn absolute(root: &str, relative: &str) -> (res: String)
    ensures
        utf8(res@) == join_pieces(utf8(root@), utf8(relative@), 0),
{
    let r = relative.as_bytes();
    let n = r.len();
    assert(n == r@.len());
    let mut out: Vec<u8> = Vec::new();
    push_str(&mut out, root);
    assert(out@ =~= utf8(root@));
    let mut i: usize = 0;
    loop
        invariant
            i <= n == r@.len(),
            r@ == utf8(relative@),
            valid_utf8(r@),
            valid_utf8(out@),
            i == 0 || r@[i - 1] == 47,
            join_pieces(out@, r@, i as int) == join_pieces(utf8(root@), r@, 0),
        decreases n - i,
    {
        let j = find_byte(r, 47, i, n);
        proof {
            lemma_find_at(r@, 47, i as int, n as int);
            lemma_ascii_edges(r@, i as int, j as int);
            lemma_valid_between(r@, i as int, j as int);
        }
        let ghost before = out@;
        if j > i {
            let m = out.len();
            if m > 0 && out[m - 1] != 47 {
                out.push(47);
                proof {
                    lemma_ascii_valid(seq![47u8]);
                    assert(out@ == before + seq![47u8]);
                }
            }
            let ghost mid = out@;
            push_range(&mut out, r, i, j);
            proof {
                valid_utf8_concat(mid, r@.subrange(i as int, j as int));
            }
        }
        assert(out@ =~= {
            let piece = r@.subrange(i as int, j as int);
            if piece.len() == 0 {
                before
            } else if before.len() > 0 && before.last() != 47 {
                before.push(47) + piece
            } else {
                before + piece
            }
        });
        if j >= n {
            proof {
                assert(join_pieces(out@, r@, j + 1) == out@);
            }
            return string_from_utf8(out);
        }
        i = j + 1;
    }
}

// ---------------------------------------------------------------------------
// Repositories
// ---------------------------------------------------------------------------

/// A Git repository, known by the folder at its top.
#[derive(Clone, Debug, PartialEq, Eq)]
pub struct Repository {
    root: String,
}

impl View for Repository {
    type V = Seq<char>;

    /// The path of the folder at the top of the repository.
    closed spec fn view(&self) -> Seq<char> {
        self.root@
    }
}

impl Repository {
    /// The repository whose top folder is `root`.
    pub fn at(root: String) -> (res: Repository)
        ensures
            res@ == root@,
    {
        Repository { root }
    }

    /// The folder at the top of the repository.
    pub fn root(&self) -> (res: &str)
        ensures
            res@ == self@,
    {
        self.root.as_str()
    }
}

/// `1 commit`, or the number and `commits`.
pub open spec fn commits_text(count: u32) -> Seq<u8> {
    if count == 1 {
        utf8("1 commit"@)
    } else {
        decimal(count as nat) + utf8(" commits"@)
    }
}

/// How many commits, in words (see [`commits_text`]).
pub fn commits(count: u32) -> (res: String)
    ensures
        utf8(res@) == commits_text(count),
{
    if count == 1 {
        let mut out: Vec<u8> = Vec::new();
        push_str(&mut out, "1 commit");
        assert(out@ =~= utf8("1 commit"@));
        return string_from_utf8(out);
    }
    let mut out: Vec<u8> = Vec::new();
    push_decimal(&mut out, count as u64);
    let ghost a = out@;
    push_str(&mut out, " commits");
    proof {
        lemma_decimal_ascii(count as nat);
        lemma_ascii_valid(decimal(count as nat));
        assert(a =~= decimal(count as nat));
        valid_utf8_concat(a, utf8(" commits"@));
    }
    string_from_utf8(out)
}

/// The note that ends a diff cut short at [`MAX_DIFF_BYTES`].
pub open spec fn too_large_note() -> DiffEntry {
    entry(LineKind::Note, utf8("Diff too large to show in full"@), None, None)
}

impl Diff {
    /// A diff cut short: its last line, which may be cut, gives way to a
    /// note saying so.
    pub fn truncated(self) -> (res: Diff)
        ensures
            lines_view(res.lines@) == (if self.lines@.len() > 0 {
                lines_view(self.lines@).drop_last()
            } else {
                lines_view(self.lines@)
            }).push(too_large_note()),
    {
        let mut lines = self.lines;
        let ghost before = lines_view(lines@);
        if lines.len() > 0 {
            lines.pop();
        }
        let ghost kept = lines_view(lines@);
        assert(kept =~= if before.len() > 0 {
            before.drop_last()
        } else {
            before
        });
        let note = "Diff too large to show in full".as_bytes();
        let n = note.len();
        assert(n == note@.len());
        proof {
            is_char_boundary_start_end_of_seq(note@);
            assert(note@.subrange(0, n as int) =~= note@);
        }
        lines.push(diff_line(LineKind::Note, note, 0, n, None, None));
        assert(lines_view(lines@) =~= kept.push(too_large_note()));
        Diff { lines }
    }
}

// ---------------------------------------------------------------------------
// Changes in the project tree
// ---------------------------------------------------------------------------

/// A folder (or file) path under the repository root, as its pieces.
pub type TreeKey = Seq<Seq<u8>>;

/// A folder takes the change when it has none yet or the change outranks
/// its own.
pub open spec fn merge_folder(m: Map<TreeKey, Change>, k: TreeKey, c: Change) -> Map<TreeKey, Change> {
    if m.contains_key(k) && rank_of(c) <= rank_of(m[k]) {
        m
    } else {
        m.insert(k, c)
    }
}

/// The folders `ps[..k]`, `ps[..k - 1]`, …, `ps[..1]` merged with a change.
pub open spec fn merge_folders(m: Map<TreeKey, Change>, ps: TreeKey, k: int, c: Change) -> Map<
    TreeKey,
    Change,
>
    decreases k,
{
    if k < 1 {
        m
    } else {
        merge_folders(merge_folder(m, ps.subrange(0, k), c), ps, k - 1, c)
    }
}

/// The tree after one more changed file: the file gets its change, and
/// each folder above it (below the root) the more important of its change
/// and the file's.
pub open spec fn add_file(m: Map<TreeKey, Change>, ps: TreeKey, c: Change) -> Map<TreeKey, Change> {
    merge_folders(m.insert(ps, c), ps, ps.len() - 1, c)
}

/// The changes shown in the project tree for the first `n` files: each
/// file's path (its `/`-separated pieces, as `Path` reads them) and each
/// folder above it.
pub open spec fn tree_of(files: Seq<FileEntry>, n: int) -> Map<TreeKey, Change>
    decreases n,
{
    if n <= 0 {
        Map::empty()
    } else {
        let f = files[n - 1];
        add_file(
            tree_of(files, n - 1),
            crate::paths::pieces_from(f.relative, 0),
            shown_change(f.staged, f.unstaged),
        )
    }
}

/// The key of a stored entry.
pub open spec fn tree_key(k: Seq<String>) -> TreeKey {
    crate::paths::string_bytes(k)
}

/// The map that a list of entries stands for.
pub open spec fn tree_map(es: Seq<(Vec<String>, Change)>) -> Map<TreeKey, Change>
    decreases es.len(),
{
    if es.len() == 0 {
        Map::empty()
    } else {
        tree_map(es.drop_last()).insert(tree_key(es.last().0@), es.last().1)
    }
}

/// Whether no key repeats in a list of entries.
pub open spec fn distinct_keys(es: Seq<(Vec<String>, Change)>) -> bool {
    forall|i: int, j: int|
        0 <= i < j < es.len() ==> tree_key(#[trigger] es[i].0@) != tree_key(#[trigger] es[j].0@)
}

proof fn lemma_tree_has(es: Seq<(Vec<String>, Change)>, k: TreeKey)
    ensures
        tree_map(es).contains_key(k) <==> exists|i: int| 0 <= i < es.len() && tree_key(es[i].0@) == k,
    decreases es.len(),
{
    if es.len() > 0 {
        lemma_tree_has(es.drop_last(), k);
        if tree_map(es).contains_key(k) && tree_key(es.last().0@) != k {
            let i = choose|i: int| 0 <= i < es.drop_last().len() && tree_key(es.drop_last()[i].0@) == k;
            assert(tree_key(es[i].0@) == k);
        }
        if exists|i: int| 0 <= i < es.len() && tree_key(es[i].0@) == k {
            let i = choose|i: int| 0 <= i < es.len() && tree_key(es[i].0@) == k;
            if i < es.len() - 1 {
                assert(tree_key(es.drop_last()[i].0@) == k);
            } else {
                assert(tree_key(es.last().0@) == k);
            }
        }
    }
}

proof fn lemma_tree_at(es: Seq<(Vec<String>, Change)>, i: int)
    requires
        distinct_keys(es),
        0 <= i < es.len(),
    ensures
        tree_map(es).contains_key(tree_key(es[i].0@)),
        tree_map(es)[tree_key(es[i].0@)] == es[i].1,
    decreases es.len(),
{
    if i < es.len() - 1 {
        let t = es.drop_last();
        assert forall|a: int, b: int| 0 <= a < b < t.len() implies tree_key(#[trigger] t[a].0@) != tree_key(#[trigger] t[b].0@) by {
            assert(t[a] == es[a] && t[b] == es[b]);
        }
        lemma_tree_at(t, i);
        assert(t[i] == es[i]);
        assert(tree_key(es[i].0@) != tree_key(es[es.len() - 1].0@));
    }
}

proof fn lemma_tree_update(es: Seq<(Vec<String>, Change)>, i: int, e: (Vec<String>, Change))
    requires
        distinct_keys(es),
        0 <= i < es.len(),
        tree_key(e.0@) == tree_key(es[i].0@),
    ensures
        tree_map(es.update(i, e)) == tree_map(es).insert(tree_key(e.0@), e.1),
        distinct_keys(es.update(i, e)),
    decreases es.len(),
{
    let u = es.update(i, e);
    assert forall|a: int, b: int| 0 <= a < b < u.len() implies tree_key(#[trigger] u[a].0@) != tree_key(#[trigger] u[b].0@) by {
        assert(tree_key(u[a].0@) == tree_key(es[a].0@));
        assert(tree_key(u[b].0@) == tree_key(es[b].0@));
    }
    if i == es.len() - 1 {
        assert(u.drop_last() =~= es.drop_last());
        assert(tree_map(u) =~= tree_map(es).insert(tree_key(e.0@), e.1));
    } else {
        let t = es.drop_last();
        assert forall|a: int, b: int| 0 <= a < b < t.len() implies tree_key(#[trigger] t[a].0@) != tree_key(#[trigger] t[b].0@) by {
            assert(t[a] == es[a] && t[b] == es[b]);
        }
        lemma_tree_update(t, i, e);
        assert(u.drop_last() =~= t.update(i, e));
        assert(tree_key(es[i].0@) != tree_key(es[es.len() - 1].0@));
        assert(tree_map(u) =~= tree_map(es).insert(tree_key(e.0@), e.1));
    }
}

proof fn lemma_tree_push(es: Seq<(Vec<String>, Change)>, e: (Vec<String>, Change))
    requires
        distinct_keys(es),
        !tree_map(es).contains_key(tree_key(e.0@)),
    ensures
        tree_map(es.push(e)) == tree_map(es).insert(tree_key(e.0@), e.1),
        distinct_keys(es.push(e)),
{
    lemma_tree_has(es, tree_key(e.0@));
    let g = es.push(e);
    assert(g.drop_last() =~= es);
    assert forall|a: int, b: int| 0 <= a < b < g.len() implies tree_key(#[trigger] g[a].0@) != tree_key(#[trigger] g[b].0@) by {
        if b == g.len() - 1 {
            assert(g[a] == es[a]);
        } else {
            assert(g[a] == es[a] && g[b] == es[b]);
        }
    }
}

fn same_pieces(a: &Vec<String>, b: &Vec<String>) -> (res: bool)
    ensures
        res == (tree_key(a@) == tree_key(b@)),
{
    if a.len() != b.len() {
        proof {
            assert(tree_key(a@).len() != tree_key(b@).len());
        }
        return false;
    }
    let mut i: usize = 0;
    while i < a.len()
        invariant
            a@.len() == b@.len(),
            i <= a@.len(),
            forall|k: int| 0 <= k < i ==> utf8(a@[k]@) == utf8(b@[k]@),
        decreases a.len() - i,
    {
        if !crate::text::same_bytes(a[i].as_str().as_bytes(), b[i].as_str().as_bytes()) {
            proof {
                assert(tree_key(a@)[i as int] != tree_key(b@)[i as int]);
            }
            return false;
        }
        i = i + 1;
    }
    assert(tree_key(a@) =~= tree_key(b@));
    true
}

fn find_key(es: &Vec<(Vec<String>, Change)>, key: &Vec<String>) -> (res: Option<usize>)
    ensures
        match res {
            Some(i) => i < es@.len() && tree_key(es@[i as int].0@) == tree_key(key@),
            None => forall|i: int| 0 <= i < es@.len() ==> tree_key(#[trigger] es@[i].0@) != tree_key(key@),
        },
{
    let mut i: usize = 0;
    while i < es.len()
        invariant
            i <= es@.len(),
            forall|j: int| 0 <= j < i ==> tree_key(#[trigger] es@[j].0@) != tree_key(key@),
        decreases es.len() - i,
    {
        if same_pieces(&es[i].0, key) {
            return Some(i);
        }
        i = i + 1;
    }
    None
}

fn copy_key(key: &Vec<String>, n: usize) -> (res: Vec<String>)
    requires
        n <= key@.len(),
    ensures
        tree_key(res@) == tree_key(key@).subrange(0, n as int),
{
    let mut out: Vec<String> = Vec::new();
    let mut i: usize = 0;
    while i < n
        invariant
            i <= n <= key@.len(),
            tree_key(out@) == tree_key(key@).subrange(0, i as int),
        decreases n - i,
    {
        let ghost before = out@;
        let piece = key[i].clone();
        assert(piece == key@[i as int]);
        out.push(piece);
        assert(out@ == before.push(key@[i as int]));
        i = i + 1;
        assert(tree_key(out@) =~= tree_key(before).push(utf8(key@[i - 1]@)));
        assert(tree_key(key@).subrange(0, i as int) =~= tree_key(key@).subrange(0, i - 1).push(
            utf8(key@[i - 1]@),
        ));
        assert(tree_key(out@) =~= tree_key(key@).subrange(0, i as int));
    }
    out
}

/// Sets the change of a key.
fn set_change(es: &mut Vec<(Vec<String>, Change)>, key: Vec<String>, c: Change)
    requires
        distinct_keys(old(es)@),
    ensures
        distinct_keys(final(es)@),
        tree_map(final(es)@) == tree_map(old(es)@).insert(tree_key(key@), c),
{
    proof {
        lemma_tree_has(es@, tree_key(key@));
    }
    match find_key(es, &key) {
        Some(i) => {
            proof {
                lemma_tree_update(es@, i as int, (key, c));
            }
            es.set(i, (key, c));
        },
        None => {
            proof {
                lemma_tree_push(es@, (key, c));
            }
            es.push((key, c));
        },
    }
}

/// Merges a folder's change (see [`merge_folder`]).
fn merge_change(es: &mut Vec<(Vec<String>, Change)>, key: Vec<String>, c: Change)
    requires
        distinct_keys(old(es)@),
    ensures
        distinct_keys(final(es)@),
        tree_map(final(es)@) == merge_folder(tree_map(old(es)@), tree_key(key@), c),
{
    proof {
        lemma_tree_has(es@, tree_key(key@));
    }
    match find_key(es, &key) {
        Some(i) => {
            proof {
                lemma_tree_at(es@, i as int);
            }
            if c.rank() > es[i].1.rank() {
                proof {
                    lemma_tree_update(es@, i as int, (key, c));
                }
                es.set(i, (key, c));
            }
        },
        None => {
            proof {
                lemma_tree_push(es@, (key, c));
            }
            es.push((key, c));
        },
    }
}

impl Status {
    /// The change shown for each file and folder of the project tree (see
    /// [`tree_of`]): every key once, as the pieces of its path under the
    /// repository root.
    pub fn tree_changes(&self) -> (res: Vec<(Vec<String>, Change)>)
        ensures
            distinct_keys(res@),
            tree_map(res@) == tree_of(files_view(self.files@), self.files@.len() as int),
    {
        let mut es: Vec<(Vec<String>, Change)> = Vec::new();
        let mut n: usize = 0;
        while n < self.files.len()
            invariant
                n <= self.files@.len(),
                distinct_keys(es@),
                tree_map(es@) == tree_of(files_view(self.files@), n as int),
            decreases self.files.len() - n,
        {
            let file = &self.files[n];
            let change = file.change();
            let key = crate::paths::pieces_of(file.relative.as_str());
            let ghost ps = tree_key(key@);
            assert(files_view(self.files@)[n as int] == file@);
            let m = key.len();
            let whole = copy_key(&key, m);
            assert(tree_key(key@).subrange(0, m as int) =~= tree_key(key@));
            set_change(&mut es, whole, change);
            let ghost after_file = tree_map(es@);
            let mut k: usize = m;
            while k > 1
                invariant
                    k <= m == key@.len(),
                    ps == tree_key(key@),
                    distinct_keys(es@),
                    k == m ==> tree_map(es@) == after_file,
                    merge_folders(tree_map(es@), ps, k - 1, change) == merge_folders(
                        after_file,
                        ps,
                        m - 1,
                        change,
                    ),
                decreases k,
            {
                let prefix = copy_key(&key, k - 1);
                let ghost before = tree_map(es@);
                merge_change(&mut es, prefix, change);
                proof {
                    if k - 1 >= 1 {
                        assert(merge_folders(before, ps, k - 1, change) == merge_folders(
                            merge_folder(before, ps.subrange(0, k - 1), change),
                            ps,
                            k - 2,
                            change,
                        ));
                    }
                }
                k = k - 1;
            }
            n = n + 1;
        }
        es
    }
}

} // verus!
