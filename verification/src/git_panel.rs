//! The list of changes in the Git panel: the staged and unstaged files
//! under their headers, the file selected for its diff, and the files
//! checked for a commit, kept in step with each new status.

use vstd::prelude::*;
use crate::git::{side, Change, FileStatus};

verus! {

/// A file on one side of the index: its path and whether the staged side
/// is meant.
pub struct Selection {
    pub relative: String,
    pub staged: bool,
}

impl Clone for Selection {
    fn clone(&self) -> (res: Self)
        ensures
            res.relative@ == self.relative@,
            res.staged == self.staged,
    {
        Selection { relative: self.relative.clone(), staged: self.staged }
    }
}

/// A selection as plain values.
pub open spec fn selection_view(s: Selection) -> (Seq<char>, bool) {
    (s.relative@, s.staged)
}

/// The views of a list of selections.
pub open spec fn selections_view(v: Seq<Selection>) -> Seq<(Seq<char>, bool)> {
    Seq::new(v.len(), |k: int| selection_view(v[k]))
}

/// A row of the list: the header of a side, or a file on a side.
#[derive(Clone, Copy, Debug, PartialEq, Eq, Structural)]
pub enum Row {
    Header { staged: bool },
    File { ix: usize, staged: bool },
}

/// Whether file `f` has a change on the side meant.
pub open spec fn on_side(f: FileStatus, staged: bool) -> bool {
    if staged {
        f.staged is Some
    } else {
        f.unstaged is Some
    }
}

/// The indices below `k` of the files with a change on one side.
pub open spec fn side_files(files: Seq<FileStatus>, k: int, staged: bool) -> Seq<usize>
    decreases k,
{
    if k <= 0 {
        Seq::empty()
    } else if on_side(files[k - 1], staged) {
        side_files(files, k - 1, staged).push((k - 1) as usize)
    } else {
        side_files(files, k - 1, staged)
    }
}

/// The rows of one side: its header and its files, or nothing when it
/// has none.
pub open spec fn side_rows(files: Seq<FileStatus>, staged: bool) -> Seq<Row> {
    let ix = side_files(files, files.len() as int, staged);
    if ix.len() == 0 {
        Seq::empty()
    } else {
        seq![Row::Header { staged }] + ix.map_values(|i: usize| Row::File { ix: i, staged })
    }
}

/// The rows of the list: the staged side, then the unstaged one.
pub open spec fn rows_of(files: Seq<FileStatus>) -> Seq<Row> {
    side_rows(files, true) + side_rows(files, false)
}

/// Whether a selection names a file on the side it means.
pub open spec fn present(files: Seq<FileStatus>, s: (Seq<char>, bool)) -> bool {
    exists|i: int| 0 <= i < files.len() && (#[trigger] files[i]).relative@ == s.0 && on_side(files[i], s.1)
}

/// The selections of `checked` that name a file on their side.
pub open spec fn kept(files: Seq<FileStatus>, checked: Seq<(Seq<char>, bool)>) -> Seq<(Seq<char>, bool)>
    decreases checked.len(),
{
    if checked.len() == 0 {
        checked
    } else if present(files, checked.last()) {
        kept(files, checked.drop_last()).push(checked.last())
    } else {
        kept(files, checked.drop_last())
    }
}

/// A selection moved to the other side when its file was moved there.
pub open spec fn moved_selection(s: (Seq<char>, bool), moved: Seq<Seq<char>>, staged: bool) -> (Seq<char>, bool) {
    if s.1 == staged && moved.contains(s.0) {
        (s.0, !staged)
    } else {
        s
    }
}

/// The selections other than `target`, in their order.
pub open spec fn without(checked: Seq<(Seq<char>, bool)>, target: (Seq<char>, bool)) -> Seq<(Seq<char>, bool)>
    decreases checked.len(),
{
    if checked.len() == 0 {
        checked
    } else if checked.last() == target {
        without(checked.drop_last(), target)
    } else {
        without(checked.drop_last(), target).push(checked.last())
    }
}

proof fn lemma_without_contains(checked: Seq<(Seq<char>, bool)>, target: (Seq<char>, bool))
    ensures
        forall|s: (Seq<char>, bool)| #[trigger] without(checked, target).contains(s) <==> (s != target
            && checked.contains(s)),
    decreases checked.len(),
{
    if checked.len() > 0 {
        let rest = checked.drop_last();
        lemma_without_contains(rest, target);
        lemma_push_contains(rest, checked.last());
        assert(checked =~= rest.push(checked.last()));
        if checked.last() != target {
            lemma_push_contains(without(rest, target), checked.last());
        }
    }
}

proof fn lemma_push_contains(v: Seq<(Seq<char>, bool)>, x: (Seq<char>, bool))
    ensures
        forall|s: (Seq<char>, bool)| #[trigger] v.push(x).contains(s) <==> (s == x || v.contains(s)),
{
    assert forall|s: (Seq<char>, bool)| #[trigger] v.push(x).contains(s) <==> (s == x || v.contains(s)) by {
        if v.push(x).contains(s) {
            let i = choose|i: int| 0 <= i < v.push(x).len() && v.push(x)[i] == s;
            if i < v.len() {
                assert(v[i] == s);
            }
        }
        if v.contains(s) {
            let i = choose|i: int| 0 <= i < v.len() && v[i] == s;
            assert(v.push(x)[i] == s);
        }
        if s == x {
            assert(v.push(x)[v.len() as int] == s);
        }
    }
}

/// The list of changes.
pub struct Changes {
    files: Vec<FileStatus>,
    rows: Vec<Row>,
    staged_count: usize,
    unstaged_count: usize,
    selected: Option<Selection>,
    checked: Vec<Selection>,
}

/// What the list holds.
pub struct ChangesView {
    pub files: Seq<FileStatus>,
    pub rows: Seq<Row>,
    pub staged_count: usize,
    pub unstaged_count: usize,
    pub selected: Option<(Seq<char>, bool)>,
    pub checked: Seq<(Seq<char>, bool)>,
}

impl View for Changes {
    type V = ChangesView;

    closed spec fn view(&self) -> ChangesView {
        ChangesView {
            files: self.files@,
            rows: self.rows@,
            staged_count: self.staged_count,
            unstaged_count: self.unstaged_count,
            selected: match self.selected {
                Some(s) => Some(selection_view(s)),
                None => None,
            },
            checked: selections_view(self.checked@),
        }
    }
}

fn copy_status(f: &FileStatus) -> (res: FileStatus)
    ensures
        res == *f,
{
    FileStatus {
        relative: f.relative.clone(),
        original: match &f.original {
            Some(o) => Some(o.clone()),
            None => None,
        },
        staged: f.staged,
        unstaged: f.unstaged,
    }
}

fn same_text(a: &String, b: &String) -> (res: bool)
    ensures
        res == (a@ == b@),
{
    let x = a.as_str();
    let y = b.as_str();
    let n = x.unicode_len();
    if n != y.unicode_len() {
        return false;
    }
    proof {
        assert(x@.subrange(0, n as int) =~= x@);
    }
    crate::text::spells_chars(x, 0, n, y)
}

proof fn lemma_side_files_bounds(files: Seq<FileStatus>, k: int, staged: bool)
    requires
        0 <= k <= files.len(),
    ensures
        side_files(files, k, staged).len() <= k,
        forall|j: int| 0 <= j < side_files(files, k, staged).len() ==> (#[trigger] side_files(files, k, staged)[j]) < k,
    decreases k,
{
    if k > 0 {
        lemma_side_files_bounds(files, k - 1, staged);
    }
}

impl Changes {
    /// An empty list.
    pub fn new() -> (res: Changes)
        ensures
            res@.files.len() == 0,
            res@.rows.len() == 0,
            res@.selected is None,
            res@.checked.len() == 0,
            res@.staged_count == 0,
            res@.unstaged_count == 0,
    {
        Changes {
            files: Vec::new(),
            rows: Vec::new(),
            staged_count: 0,
            unstaged_count: 0,
            selected: None,
            checked: Vec::new(),
        }
    }

    /// The rows shown.
    pub fn rows(&self) -> (res: &Vec<Row>)
        ensures
            res@ == self@.rows,
    {
        &self.rows
    }

    /// How many files have a staged change.
    pub fn staged_count(&self) -> (res: usize)
        ensures
            res == self@.staged_count,
    {
        self.staged_count
    }

    /// How many files have an unstaged change.
    pub fn unstaged_count(&self) -> (res: usize)
        ensures
            res == self@.unstaged_count,
    {
        self.unstaged_count
    }

    /// The file at a row.
    pub fn file_at(&self, ix: usize) -> (res: Option<&FileStatus>)
        ensures
            match res {
                Some(f) => ix < self@.files.len() && *f == self@.files[ix as int],
                None => ix >= self@.files.len(),
            },
    {
        if ix < self.files.len() {
            Some(&self.files[ix])
        } else {
            None
        }
    }

    /// The selected file and side, if any.
    pub fn selected(&self) -> (res: Option<&Selection>)
        ensures
            match res {
                Some(s) => self@.selected == Some(selection_view(*s)),
                None => self@.selected is None,
            },
    {
        match &self.selected {
            Some(s) => Some(s),
            None => None,
        }
    }

    fn side_indices(files: &Vec<FileStatus>, staged: bool) -> (res: Vec<usize>)
        ensures
            res@ == side_files(files@, files@.len() as int, staged),
    {
        let mut out: Vec<usize> = Vec::new();
        let mut k: usize = 0;
        while k < files.len()
            invariant
                k <= files@.len(),
                out@ == side_files(files@, k as int, staged),
            decreases files@.len() - k,
        {
            if side(&files[k], staged).is_some() {
                out.push(k);
            }
            k = k + 1;
        }
        out
    }

    fn push_side(rows: &mut Vec<Row>, ix: &Vec<usize>, staged: bool)
        ensures
            final(rows)@ == old(rows)@ + if ix@.len() == 0 {
                Seq::<Row>::empty()
            } else {
                seq![Row::Header { staged }] + ix@.map_values(|i: usize| Row::File { ix: i, staged })
            },
    {
        if ix.len() == 0 {
            assert(old(rows)@ + Seq::<Row>::empty() =~= old(rows)@);
            return;
        }
        let ghost start = rows@;
        rows.push(Row::Header { staged });
        let mut k: usize = 0;
        while k < ix.len()
            invariant
                k <= ix@.len(),
                rows@ == start + seq![Row::Header { staged }] + ix@.take(k as int).map_values(
                    |i: usize| Row::File { ix: i, staged },
                ),
            decreases ix@.len() - k,
        {
            rows.push(Row::File { ix: ix[k], staged });
            k = k + 1;
            assert(rows@ =~= start + seq![Row::Header { staged }] + ix@.take(k as int).map_values(
                |i: usize| Row::File { ix: i, staged },
            ));
        }
        assert(ix@.take(ix@.len() as int) =~= ix@);
    }

    /// The index of the file a selection names, on its side.
    pub fn file(&self, selection: &Selection) -> (res: Option<usize>)
        ensures
            match res {
                Some(i) => i < self@.files.len() && self@.files[i as int].relative@
                    == selection.relative@ && on_side(self@.files[i as int], selection.staged)
                    && forall|j: int| 0 <= j < i ==> !(self@.files[j].relative@ == selection.relative@
                    && on_side(self@.files[j], selection.staged)),
                None => !present(self@.files, selection_view(*selection)),
            },
    {
        let mut k: usize = 0;
        while k < self.files.len()
            invariant
                k <= self.files@.len(),
                forall|j: int| 0 <= j < k ==> !(self.files@[j].relative@ == selection.relative@
                    && on_side(self.files@[j], selection.staged)),
            decreases self.files@.len() - k,
        {
            if same_text(&self.files[k].relative, &selection.relative) && side(
                &self.files[k],
                selection.staged,
            ).is_some() {
                return Some(k);
            }
            k = k + 1;
        }
        proof {
            if present(self.files@, selection_view(*selection)) {
                let i = choose|i: int| 0 <= i < self.files@.len() && (#[trigger] self.files@[i]).relative@
                    == selection.relative@ && on_side(self.files@[i], selection.staged);
                assert(!(self.files@[i].relative@ == selection.relative@ && on_side(self.files@[i], selection.staged)));
            }
        }
        None
    }

    /// Takes a new status: the rows are rebuilt, a selection of a file no
    /// longer on its side is dropped, and so are such checked files.
    pub fn apply_status(&mut self, files: Vec<FileStatus>)
        ensures
            final(self)@.files == files@,
            final(self)@.rows == rows_of(files@),
            final(self)@.staged_count == side_files(files@, files@.len() as int, true).len(),
            final(self)@.unstaged_count == side_files(files@, files@.len() as int, false).len(),
            final(self)@.selected == match old(self)@.selected {
                Some(s) => if present(files@, s) {
                    Some(s)
                } else {
                    None
                },
                None => None,
            },
            final(self)@.checked == kept(files@, old(self)@.checked),
    {
        let staged = Self::side_indices(&files, true);
        let unstaged = Self::side_indices(&files, false);
        let mut rows: Vec<Row> = Vec::new();
        Self::push_side(&mut rows, &staged, true);
        Self::push_side(&mut rows, &unstaged, false);
        assert(rows@ =~= rows_of(files@));
        let ghost old_checked = selections_view(self.checked@);
        self.files = files;
        self.rows = rows;
        self.staged_count = staged.len();
        self.unstaged_count = unstaged.len();
        let keep_selected = match &self.selected {
            Some(s) => self.file(s).is_some(),
            None => false,
        };
        if !keep_selected {
            self.selected = None;
        }
        let mut checked: Vec<Selection> = Vec::new();
        let mut k: usize = 0;
        while k < self.checked.len()
            invariant
                k <= self.checked@.len(),
                old_checked == selections_view(self.checked@),
                selections_view(checked@) == kept(self.files@, old_checked.take(k as int)),
            decreases self.checked@.len() - k,
        {
            let c = self.checked[k].clone();
            let found = self.file(&c).is_some();
            proof {
                assert(old_checked.take(k + 1).drop_last() =~= old_checked.take(k as int));
                assert(old_checked.take(k + 1).last() == selection_view(c));
            }
            if found {
                let ghost before = checked@;
                checked.push(c);
                assert(selections_view(checked@) =~= selections_view(before).push(selection_view(c)));
            }
            k = k + 1;
        }
        assert(old_checked.take(old_checked.len() as int) =~= old_checked);
        self.checked = checked;
    }

    /// The files with a change on one side.
    pub fn files(&self, staged: bool) -> (res: Vec<FileStatus>)
        ensures
            res@ == side_files(self@.files, self@.files.len() as int, staged).map_values(
                |i: usize| self@.files[i as int],
            ),
    {
        let ix = Self::side_indices(&self.files, staged);
        proof {
            lemma_side_files_bounds(self.files@, self.files@.len() as int, staged);
        }
        let mut out: Vec<FileStatus> = Vec::new();
        let mut k: usize = 0;
        while k < ix.len()
            invariant
                k <= ix@.len(),
                ix@ == side_files(self.files@, self.files@.len() as int, staged),
                forall|j: int| 0 <= j < ix@.len() ==> (#[trigger] ix@[j]) < self.files@.len(),
                out@ == ix@.take(k as int).map_values(|i: usize| self.files@[i as int]),
            decreases ix@.len() - k,
        {
            out.push(copy_status(&self.files[ix[k]]));
            k = k + 1;
            assert(out@ =~= ix@.take(k as int).map_values(|i: usize| self.files@[i as int]));
        }
        assert(ix@.take(ix@.len() as int) =~= ix@);
        out
    }

    fn is_checked(&self, f: &FileStatus, staged: Option<bool>) -> (res: bool)
        ensures
            res == exists|j: int| 0 <= j < self@.checked.len() && (#[trigger] self@.checked[j]).0
                == f.relative@ && match staged {
                Some(s) => self@.checked[j].1 == s,
                None => true,
            },
    {
        let mut k: usize = 0;
        while k < self.checked.len()
            invariant
                k <= self.checked@.len(),
                forall|j: int| 0 <= j < k ==> !((#[trigger] selections_view(self.checked@)[j]).0
                    == f.relative@ && match staged {
                    Some(s) => selections_view(self.checked@)[j].1 == s,
                    None => true,
                }),
            decreases self.checked@.len() - k,
        {
            let c = &self.checked[k];
            let side_ok = match staged {
                Some(s) => c.staged == s,
                None => true,
            };
            if side_ok && same_text(&c.relative, &f.relative) {
                assert(selections_view(self.checked@)[k as int] == selection_view(*c));
                assert(self@.checked == selections_view(self.checked@));
                return true;
            }
            assert(selections_view(self.checked@)[k as int] == selection_view(*c));
            k = k + 1;
        }
        assert(self@.checked == selections_view(self.checked@));
        false
    }

    /// Whether a file is checked on a side (on either side for `None`).
    pub open spec fn checked_on(v: ChangesView, f: FileStatus, staged: Option<bool>) -> bool {
        exists|j: int| 0 <= j < v.checked.len() && (#[trigger] v.checked[j]).0 == f.relative@
            && match staged {
            Some(s) => v.checked[j].1 == s,
            None => true,
        }
    }

    /// The files checked, on a side or on either.
    pub fn checked_files(&self, staged: Option<bool>) -> (res: Vec<FileStatus>)
        ensures
            res@ == self@.files.filter(|f: FileStatus| Self::checked_on(self@, f, staged)),
    {
        let mut out: Vec<FileStatus> = Vec::new();
        let mut k: usize = 0;
        while k < self.files.len()
            invariant
                k <= self.files@.len(),
                out@ == self.files@.take(k as int).filter(|f: FileStatus| Self::checked_on(self@, f, staged)),
            decreases self.files@.len() - k,
        {
            let keep = self.is_checked(&self.files[k], staged);
            proof {
                assert(self.files@.take(k + 1) =~= self.files@.take(k as int).push(self.files@[k as int]));
                reveal(Seq::filter);
                assert(self.files@.take(k + 1).drop_last() =~= self.files@.take(k as int));
            }
            if keep {
                out.push(copy_status(&self.files[k]));
            }
            k = k + 1;
        }
        assert(self.files@.take(self.files@.len() as int) =~= self.files@);
        out
    }

    /// Checks or unchecks a file on a side (a file is checked once).
    pub fn set_checked(&mut self, selection: Selection, checked: bool)
        ensures
            final(self)@.files == old(self)@.files,
            final(self)@.rows == old(self)@.rows,
            final(self)@.selected == old(self)@.selected,
            final(self)@.checked == if checked {
                without(old(self)@.checked, selection_view(selection)).push(selection_view(selection))
            } else {
                without(old(self)@.checked, selection_view(selection))
            },
            checked ==> final(self)@.checked.contains(selection_view(selection)),
            !checked ==> !final(self)@.checked.contains(selection_view(selection)),
            forall|s: (Seq<char>, bool)| s != selection_view(selection) ==> (final(self)@.checked.contains(s)
                <==> old(self)@.checked.contains(s)),
    {
        let ghost target = selection_view(selection);
        let ghost before = selections_view(self.checked@);
        let mut kept: Vec<Selection> = Vec::new();
        let mut k: usize = 0;
        while k < self.checked.len()
            invariant
                k <= self.checked@.len(),
                before == selections_view(self.checked@),
                target == selection_view(selection),
                selections_view(kept@) == without(before.take(k as int), target),
            decreases self.checked@.len() - k,
        {
            let c = self.checked[k].clone();
            let same = c.staged == selection.staged && same_text(&c.relative, &selection.relative);
            proof {
                assert(before.take(k + 1).drop_last() =~= before.take(k as int));
                assert(before.take(k + 1).last() == selection_view(c));
            }
            let ghost old_kept = selections_view(kept@);
            if !same {
                kept.push(c);
                assert(selections_view(kept@) =~= old_kept.push(selection_view(c)));
            }
            k = k + 1;
        }
        assert(before.take(before.len() as int) =~= before);
        proof {
            lemma_without_contains(before, target);
        }
        if checked {
            let ghost old_kept = selections_view(kept@);
            kept.push(selection);
            assert(selections_view(kept@) =~= old_kept.push(target));
            proof {
                lemma_push_contains(old_kept, target);
            }
        }
        self.checked = kept;
    }

    /// Selects a file on a side, for its diff.
    pub fn select(&mut self, selection: Selection)
        ensures
            final(self)@.selected == Some(selection_view(selection)),
            final(self)@.files == old(self)@.files,
            final(self)@.checked == old(self)@.checked,
    {
        self.selected = Some(selection);
    }

    /// Clears the selection.
    pub fn clear_selection(&mut self)
        ensures
            final(self)@.selected is None,
            final(self)@.files == old(self)@.files,
            final(self)@.checked == old(self)@.checked,
    {
        self.selected = None;
    }

    /// After files were staged (or unstaged), the selection and the checked
    /// files that named them follow them to the other side.
    pub fn files_moved(&mut self, moved: &Vec<String>, staged: bool)
        ensures
            final(self)@.files == old(self)@.files,
            final(self)@.rows == old(self)@.rows,
            final(self)@.selected == match old(self)@.selected {
                Some(s) => Some(moved_selection(s, strings_of(moved@), staged)),
                None => None,
            },
            final(self)@.checked == old(self)@.checked.map_values(
                |s: (Seq<char>, bool)| moved_selection(s, strings_of(moved@), staged),
            ),
    {
        let sel = self.selected.take();
        self.selected = match sel {
            Some(mut s) => {
                if s.staged == staged && contains_name(moved, &s.relative) {
                    s.staged = !staged;
                }
                Some(s)
            },
            None => None,
        };
        let ghost before = selections_view(self.checked@);
        let mut out: Vec<Selection> = Vec::new();
        let mut k: usize = 0;
        while k < self.checked.len()
            invariant
                k <= self.checked@.len(),
                before == selections_view(self.checked@),
                selections_view(out@) == before.take(k as int).map_values(
                    |s: (Seq<char>, bool)| moved_selection(s, strings_of(moved@), staged),
                ),
            decreases self.checked@.len() - k,
        {
            let mut c = self.checked[k].clone();
            if c.staged == staged && contains_name(moved, &c.relative) {
                c.staged = !staged;
            }
            let ghost old_out = selections_view(out@);
            out.push(c);
            assert(selections_view(out@) =~= old_out.push(selection_view(c)));
            assert(before.take(k + 1) =~= before.take(k as int).push(before[k as int]));
            assert(selections_view(out@) =~= before.take(k + 1).map_values(
                |s: (Seq<char>, bool)| moved_selection(s, strings_of(moved@), staged),
            ));
            k = k + 1;
        }
        assert(before.take(before.len() as int) =~= before);
        self.checked = out;
    }
}

/// The views of a list of strings.
pub open spec fn strings_of(v: Seq<String>) -> Seq<Seq<char>> {
    Seq::new(v.len(), |k: int| v[k]@)
}

fn contains_name(names: &Vec<String>, name: &String) -> (res: bool)
    ensures
        res == strings_of(names@).contains(name@),
{
    let mut k: usize = 0;
    while k < names.len()
        invariant
            k <= names@.len(),
            forall|j: int| 0 <= j < k ==> names@[j]@ != name@,
        decreases names@.len() - k,
    {
        if same_text(&names[k], name) {
            assert(strings_of(names@)[k as int] == name@);
            return true;
        }
        k = k + 1;
    }
    proof {
        if strings_of(names@).contains(name@) {
            let i = choose|i: int| 0 <= i < strings_of(names@).len() && #[trigger] strings_of(names@)[i] == name@;
            assert(names@[i]@ == name@);
        }
    }
    false
}

/// Why a commit cannot be made yet.
pub open spec fn commit_refusal(files_checked: nat, message: Seq<char>) -> Option<Seq<char>> {
    if files_checked == 0 {
        Some("Select changes to commit them"@)
    } else if crate::git_commands::trim_chars(message).len() == 0 {
        Some("Write a commit message first"@)
    } else {
        None
    }
}

/// What stops a commit: no file checked, or no message.
pub fn commit_check(files_checked: usize, message: &str) -> (res: Option<&'static str>)
    ensures
        match commit_refusal(files_checked as nat, message@) {
            Some(m) => res matches Some(r) && r@ == m,
            None => res is None,
        },
{
    if files_checked == 0 {
        return Some("Select changes to commit them");
    }
    let t = crate::git_commands::trim(&crate::vim::engine::chars_of(message));
    if t.len() == 0 {
        Some("Write a commit message first")
    } else {
        None
    }
}

} // verus!
