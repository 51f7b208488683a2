//! What the Git commands are asked, and what their answers mean: the
//! remote to use, the messages after a pull or a push, the arguments of
//! a diff, and the message that a failed command leaves.

use vstd::prelude::*;
use vstd::utf8::decode_utf8;
use crate::text::{is_space, space_char, skip_space, trim_end, lemma_skip_space, lemma_trim_end, spells_chars};
use crate::git::{commits, commits_text, Branch, Change, FileStatus};
use crate::vim::buffer::{break_after, next_break};
use crate::vim::engine::{chars_of, string_of};
use crate::shell::{push_text, append_chars};

verus! {

broadcast use {
    vstd::utf8::encode_utf8_decode_utf8,
};

/// A line without the `\r` that ends it, if one does.
pub open spec fn without_final_cr(l: Seq<char>) -> Seq<char> {
    if l.len() > 0 && l.last() == '\r' {
        l.drop_last()
    } else {
        l
    }
}

/// The lines of `t[i..]` as `str::lines` gives them: split at `\n`, each
/// without a final `\r`, and no empty line after a final `\n`.
pub open spec fn lines_from(t: Seq<char>, i: int) -> Seq<Seq<char>>
    decreases t.len() - i,
{
    if i < 0 || i >= t.len() {
        Seq::empty()
    } else {
        let k = break_after(t, i);
        let line = without_final_cr(t.subrange(i, k));
        proof {
            lemma_break_after_at_least(t, i);
        }
        if k >= t.len() {
            seq![line]
        } else {
            seq![line] + lines_from(t, k + 1)
        }
    }
}

/// The lines of a text.
pub open spec fn lines_of(t: Seq<char>) -> Seq<Seq<char>> {
    lines_from(t, 0)
}

/// A text without whitespace at either end.
pub open spec fn trim_chars(u: Seq<char>) -> Seq<char> {
    let a = skip_space(u, 0, u.len() as int);
    u.subrange(a, trim_end(u, a, u.len() as int, |c: char| is_space(c)))
}

/// The views of a list of texts.
pub open spec fn texts(v: Seq<Vec<char>>) -> Seq<Seq<char>> {
    Seq::new(v.len(), |k: int| v[k]@)
}

pub proof fn lemma_break_after_at_least(t: Seq<char>, i: int)
    requires
        0 <= i <= t.len(),
    ensures
        i <= break_after(t, i) <= t.len(),
    decreases t.len() - i,
{
    if i < t.len() && t[i] != '\n' {
        lemma_break_after_at_least(t, i + 1);
    }
}

/// The lines of `t` (see [`lines_of`]).
pub fn lines(t: &Vec<char>) -> (res: Vec<Vec<char>>)
    ensures
        texts(res@) == lines_of(t@),
{
    let mut out: Vec<Vec<char>> = Vec::new();
    let mut i: usize = 0;
    let n = t.len();
    assert(texts(out@) + lines_from(t@, 0) =~= lines_of(t@));
    while i < n
        invariant
            i <= n == t@.len(),
            texts(out@) + lines_from(t@, i as int) == lines_of(t@),
        decreases n - i,
    {
        proof {
            lemma_break_after_at_least(t@, i as int);
        }
        let k = next_break(t, i);
        let mut end = k;
        if end > i && t[end - 1] == '\r' {
            end = end - 1;
        }
        let line = crate::vim::buffer::slice(t, i, end);
        assert(line@ =~= without_final_cr(t@.subrange(i as int, k as int)));
        let ghost before = out@;
        out.push(line);
        assert(texts(out@) =~= texts(before).push(line@));
        if k >= n {
            assert(lines_from(t@, i as int) == seq![line@]);
            assert(texts(out@) + lines_from(t@, k as int) =~= lines_of(t@));
            i = k;
        } else {
            assert(lines_from(t@, i as int) == seq![line@] + lines_from(t@, k + 1));
            assert(texts(out@) + lines_from(t@, k + 1) =~= lines_of(t@));
            i = k + 1;
        }
    }
    assert(lines_from(t@, i as int) =~= Seq::<Seq<char>>::empty());
    assert(texts(out@) =~= texts(out@) + lines_from(t@, i as int));
    out
}

/// `u` without whitespace at either end (see [`trim_chars`]).
pub fn trim(u: &Vec<char>) -> (res: Vec<char>)
    ensures
        res@ == trim_chars(u@),
{
    let n = u.len();
    proof {
        lemma_skip_space(u@, 0, n as int);
    }
    let mut a: usize = 0;
    while a < n && space_char(u[a])
        invariant
            a <= n == u@.len(),
            skip_space(u@, a as int, n as int) == skip_space(u@, 0, n as int),
        decreases n - a,
    {
        a = a + 1;
    }
    proof {
        lemma_trim_end(u@, a as int, n as int, |c: char| is_space(c));
    }
    let mut e = n;
    while e > a && space_char(u[e - 1])
        invariant
            a <= e <= n == u@.len(),
            trim_end(u@, a as int, e as int, |c: char| is_space(c)) == trim_end(
                u@,
                a as int,
                n as int,
                |c: char| is_space(c),
            ),
        decreases e,
    {
        e = e - 1;
    }
    crate::vim::buffer::slice(u, a, e)
}

/// The lines of `ls`, trimmed, without the empty ones.
pub open spec fn trimmed_lines(ls: Seq<Seq<char>>) -> Seq<Seq<char>>
    decreases ls.len(),
{
    if ls.len() == 0 {
        ls
    } else {
        let rest = trimmed_lines(ls.drop_last());
        let t = trim_chars(ls.last());
        if t.len() > 0 {
            rest.push(t)
        } else {
            rest
        }
    }
}

/// The remotes that `git remote` lists: its lines, trimmed, without the
/// empty ones.
pub open spec fn remote_names(output: Seq<char>) -> Seq<Seq<char>> {
    trimmed_lines(lines_of(output))
}

/// The remote to fetch from and push to: `origin` when there is one, else
/// the first remote listed.
pub open spec fn default_remote_of(output: Seq<char>) -> Option<Seq<char>> {
    let names = remote_names(output);
    if names.contains("origin"@) {
        Some("origin"@)
    } else if names.len() > 0 {
        Some(names[0])
    } else {
        None
    }
}

fn is_named(s: &Vec<char>, name: &str) -> (res: bool)
    ensures
        res == (s@ == name@),
{
    let text = string_of(s);
    let t = text.as_str();
    let n = t.unicode_len();
    proof {
        assert(t@.subrange(0, n as int) =~= t@);
    }
    spells_chars(t, 0, n, name)
}

/// The remote to use, from what `git remote` printed (see
/// [`default_remote_of`]); none when the repository has no remotes.
pub fn default_remote(output: &str) -> (res: Option<String>)
    ensures
        match default_remote_of(output@) {
            Some(r) => res matches Some(s) && s@ == r,
            None => res is None,
        },
{
    let t = chars_of(output);
    let ls = lines(&t);
    let mut names: Vec<Vec<char>> = Vec::new();
    let mut k: usize = 0;
    while k < ls.len()
        invariant
            k <= ls@.len(),
            texts(ls@) == lines_of(t@),
            texts(names@) == trimmed_lines(texts(ls@).take(k as int)),
        decreases ls@.len() - k,
    {
        let name = trim(&ls[k]);
        proof {
            assert(texts(ls@).take(k + 1).drop_last() =~= texts(ls@).take(k as int));
            assert(texts(ls@).take(k + 1).last() == ls@[k as int]@);
        }
        if name.len() > 0 {
            let ghost before = names@;
            names.push(name);
            assert(texts(names@) =~= texts(before).push(name@));
        }
        k = k + 1;
    }
    assert(texts(ls@).take(k as int) =~= texts(ls@));
    let ghost all = texts(names@);
    assert(all == remote_names(output@));
    let mut j: usize = 0;
    while j < names.len()
        invariant
            j <= names@.len(),
            all == texts(names@),
            all == remote_names(output@),
            forall|i: int| 0 <= i < j ==> all[i] != "origin"@,
        decreases names@.len() - j,
    {
        if is_named(&names[j], "origin") {
            proof {
                assert(all[j as int] == "origin"@);
                assert(all.contains("origin"@));
            }
            return Some(string_of(&names[j]));
        }
        j = j + 1;
    }
    assert(!all.contains("origin"@));
    if names.len() > 0 {
        assert(all[0] == names@[0]@);
        Some(string_of(&names[0]))
    } else {
        None
    }
}


/// The views of a list of strings.
pub open spec fn strings(v: Seq<String>) -> Seq<Seq<char>> {
    Seq::new(v.len(), |k: int| v[k]@)
}

/// `1 commit`, or the number and `commits`, as characters.
pub open spec fn commit_words(count: u32) -> Seq<char> {
    decode_utf8(commits_text(count))
}

fn commit_chars(count: u32) -> (res: Vec<char>)
    ensures
        res@ == commit_words(count),
{
    let words = commits(count);
    chars_of(words.as_str())
}

fn text_of(parts: &Vec<char>) -> (res: String)
    ensures
        res@ == parts@,
{
    string_of(parts)
}

/// Whether `needle` occurs in `hay`.
pub open spec fn contains_text(hay: Seq<char>, needle: Seq<char>) -> bool {
    exists|i: int| 0 <= i && i + needle.len() <= hay.len() && #[trigger] hay.subrange(i, i + needle.len()) == needle
}

/// Whether `needle` occurs in `hay` (see [`contains_text`]).
pub fn has_text(hay: &str, needle: &str) -> (res: bool)
    ensures
        res == contains_text(hay@, needle@),
{
    let h = chars_of(hay);
    let n = chars_of(needle);
    let m = n.len();
    if m > h.len() {
        proof {
            assert forall|i: int| 0 <= i && i + m <= h@.len() implies #[trigger] h@.subrange(i, i + m) != n@ by {}
        }
        return false;
    }
    let hl = h.len();
    let last = hl - m;
    let mut i: usize = 0;
    while i <= last
        invariant
            hl == h@.len(),
            last + m == h@.len(),
            m == n@.len(),
            h@ == hay@,
            n@ == needle@,
            forall|j: int| 0 <= j < i && j + m <= h@.len() ==> #[trigger] h@.subrange(j, j + m) != n@,
        decreases last + 1 - i,
    {
        let mut k: usize = 0;
        while k < m && h[i + k] == n[k]
            invariant
                k <= m,
                i <= last,
                hl == h@.len(),
                last + m == h@.len(),
                m == n@.len(),
                forall|q: int| 0 <= q < k ==> h@[i + q] == n@[q],
            decreases m - k,
        {
            k = k + 1;
        }
        if k == m {
            assert(h@.subrange(i as int, i + m) =~= n@);
            return true;
        }
        assert(h@.subrange(i as int, i + m)[k as int] != n@[k as int]);
        if i == last {
            return false;
        }
        i = i + 1;
    }
    false
}

/// The message after a pull: nothing new when the head stayed, else how
/// many commits came (the head may be unknown before or after).
pub open spec fn pull_message(before: Option<Seq<char>>, after: Option<Seq<char>>, count: u32) -> Seq<char> {
    match (before, after) {
        (Some(b), Some(a)) => if b == a {
            "Already up to date"@
        } else {
            "Pulled "@ + commit_words(count)
        },
        _ => "Pulled"@,
    }
}

/// The message after a pull (see [`pull_message`]); `count` is how many
/// commits `git rev-list --count` found between the heads.
pub fn pull_summary(before: Option<&str>, after: Option<&str>, count: u32) -> (res: String)
    ensures
        res@ == pull_message(
            match before {
                Some(b) => Some(b@),
                None => None,
            },
            match after {
                Some(a) => Some(a@),
                None => None,
            },
            count,
        ),
{
    match (before, after) {
        (Some(b), Some(a)) => {
            if crate::vim::engine::same_text(&chars_of(b), &chars_of(a)) {
                "Already up to date".to_owned()
            } else {
                let mut out: Vec<char> = Vec::new();
                push_text(&mut out, "Pulled ");
                let words = commit_chars(count);
                append_chars(&mut out, &words);
                text_of(&out)
            }
        },
        _ => "Pulled".to_owned(),
    }
}

/// The number `git rev-list --count` printed, or 0 when it printed none.
pub open spec fn revision_count_of(output: Seq<char>) -> u32 {
    let t = trim_chars(output);
    match crate::text::usize_of(t, 0, t.len() as int) {
        Some(v) => if v <= u32::MAX {
            v as u32
        } else {
            0
        },
        None => 0,
    }
}

/// The count in what `git rev-list --count` printed (see
/// [`revision_count_of`]).
pub fn revision_count(output: &str) -> (res: u32)
    ensures
        res == revision_count_of(output@),
{
    let t = trim(&chars_of(output));
    let s = string_of(&t);
    let n = t.len();
    match crate::text::parse_usize(s.as_str(), 0, n) {
        Some(v) => if v <= 4294967295usize {
            v as u32
        } else {
            0
        },
        None => 0,
    }
}

/// Why a push cannot start.
#[derive(Clone, Copy, Debug, PartialEq, Eq, Structural)]
pub enum PushError {
    NoBranch,
    Rejected,
}

impl PushError {
    /// The message shown for the error.
    pub fn message(self) -> (res: &'static str)
        ensures
            res@ == match self {
                PushError::NoBranch => "Check out a branch before pushing"@,
                PushError::Rejected => "The remote has commits you don't have yet — pull first"@,
            },
    {
        match self {
            PushError::NoBranch => "Check out a branch before pushing",
            PushError::Rejected => "The remote has commits you don't have yet — pull first",
        }
    }
}

/// How to push a branch: the arguments of `git push` and the message
/// when it succeeds; a branch without an upstream needs the default
/// remote first.
pub enum PushPlan {
    Run { args: Vec<String>, summary: String },
    NeedsRemote { branch: String },
}

/// The push of a branch that tracks an upstream: nothing to push when it
/// is not ahead.
pub open spec fn upstream_summary(upstream: Seq<char>, ahead: u32) -> Seq<char> {
    if ahead == 0 {
        upstream + " is already up to date"@
    } else {
        "Pushed "@ + commit_words(ahead) + " to "@ + upstream
    }
}

/// What pushing the branch takes (see [`upstream_summary`]): a checked
/// out branch is needed; one that tracks an upstream is pushed there,
/// one that does not needs a remote.
pub fn push_plan(branch: &Branch) -> (res: Result<PushPlan, PushError>)
    ensures
        match (branch.name, branch.upstream) {
            (None, _) => res == Err::<PushPlan, PushError>(PushError::NoBranch),
            (Some(name), Some(upstream)) => res matches Ok(PushPlan::Run { args, summary }) && strings(
                args@,
            ) == seq!["push"@] && summary@ == upstream_summary(upstream@, branch.ahead),
            (Some(name), None) => res matches Ok(PushPlan::NeedsRemote { branch: b }) && b@
                == name@,
        },
{
    let name = match &branch.name {
        Some(n) => n,
        None => {
            return Err(PushError::NoBranch);
        },
    };
    match &branch.upstream {
        Some(upstream) => {
            let mut out: Vec<char> = Vec::new();
            if branch.ahead == 0 {
                push_text(&mut out, upstream.as_str());
                push_text(&mut out, " is already up to date");
            } else {
                push_text(&mut out, "Pushed ");
                let words = commit_chars(branch.ahead);
                append_chars(&mut out, &words);
                push_text(&mut out, " to ");
                push_text(&mut out, upstream.as_str());
            }
            let args = vec!["push".to_owned()];
            assert(strings(args@) =~= seq!["push"@]);
            Ok(PushPlan::Run { args, summary: text_of(&out) })
        },
        None => Ok(PushPlan::NeedsRemote { branch: name.clone() }),
    }
}

/// The push of a branch that has no upstream yet: it is pushed to
/// `remote` and set to track it.
pub fn push_new_branch(branch: &str, remote: &str) -> (res: (Vec<String>, String))
    ensures
        strings(res.0@) == seq!["push"@, "--set-upstream"@, remote@, branch@],
        res.1@ == "Pushed "@ + branch@ + " to "@ + remote@,
{
    let args = vec!["push".to_owned(), "--set-upstream".to_owned(), remote.to_owned(), branch.to_owned()];
    assert(strings(args@) =~= seq!["push"@, "--set-upstream"@, remote@, branch@]);
    let mut out: Vec<char> = Vec::new();
    push_text(&mut out, "Pushed ");
    push_text(&mut out, branch);
    push_text(&mut out, " to ");
    push_text(&mut out, remote);
    (args, text_of(&out))
}

/// Whether a failed push was refused because the remote moved on.
pub fn push_rejected(stderr: &str) -> (res: bool)
    ensures
        res == contains_text(stderr@, "[rejected]"@),
{
    has_text(stderr, "[rejected]")
}

/// Whether `git rev-parse` failed because the folder is in no
/// repository.
pub fn outside_repository(stderr: &str) -> (res: bool)
    ensures
        res == contains_text(stderr@, "not a git repository"@),
{
    has_text(stderr, "not a git repository")
}

/// A text without the line breaks (`\r`, `\n`) that end it.
pub open spec fn without_breaks(t: Seq<char>) -> Seq<char>
    decreases t.len(),
{
    if t.len() > 0 && (t.last() == '\r' || t.last() == '\n') {
        without_breaks(t.drop_last())
    } else {
        t
    }
}

/// The repository root that `git rev-parse --show-toplevel` printed.
pub fn toplevel(stdout: &str) -> (res: String)
    ensures
        res@ == without_breaks(stdout@),
{
    let t = chars_of(stdout);
    let mut e = t.len();
    assert(t@.take(e as int) =~= t@);
    while e > 0 && (t[e - 1] == '\r' || t[e - 1] == '\n')
        invariant
            e <= t@.len(),
            without_breaks(t@.take(e as int)) == without_breaks(t@),
        decreases e,
    {
        assert(t@.take(e as int).drop_last() =~= t@.take(e - 1));
        e = e - 1;
    }
    assert(t@.take(t@.len() as int) =~= t@);
    let out = crate::vim::buffer::slice(&t, 0, e);
    assert(out@ =~= t@.take(e as int));
    string_of(&out)
}

/// What `git rev-parse --show-toplevel` told of a folder.
#[derive(Clone, Debug, PartialEq, Eq)]
pub enum Discovery {
    /// The folder is in the repository with this root.
    Root(String),
    /// The folder is in no repository.
    Outside,
    /// Git failed for another reason, with this message.
    Failed(String),
}

/// Reads the answer of `git rev-parse --show-toplevel`: on success the
/// root it printed; on failure, no repository when Git says the folder is
/// in none, else the message of the failure (see [`failure_text`]).
pub fn discovery(success: bool, stdout: &str, stderr: &str) -> (res: Discovery)
    ensures
        success ==> (res matches Discovery::Root(r) && r@ == without_breaks(stdout@)),
        !success && contains_text(stderr@, "not a git repository"@) ==> res is Outside,
        !success && !contains_text(stderr@, "not a git repository"@) ==> (res matches Discovery::Failed(
            m,
        ) && m@ == failure_text(stderr@, stdout@)),
{
    if success {
        Discovery::Root(toplevel(stdout))
    } else if outside_repository(stderr) {
        Discovery::Outside
    } else {
        Discovery::Failed(failure_message(stderr, stdout))
    }
}

/// What cloning `url` asks of the user when no folder name can be taken
/// from it.
pub open spec fn clone_refusal() -> Seq<char> {
    "Enter a repository URL or path"@
}

/// The folder that cloning `url` creates (see [`crate::git::clone_folder`]),
/// or the message asking for a usable URL when it names none.
pub fn clone_destination(url: &str) -> (res: Result<String, String>)
    ensures
        match crate::git::clone_folder(url@) {
            Some(name) => res matches Ok(s) && s@ == name,
            None => res matches Err(m) && m@ == clone_refusal(),
        },
{
    match crate::git::clone_folder_name(url) {
        Some(name) => Ok(name),
        None => {
            let mut out: Vec<char> = Vec::new();
            push_text(&mut out, "Enter a repository URL or path");
            assert(out@ =~= clone_refusal());
            Err(text_of(&out))
        },
    }
}

/// The paths a command about some files names: for each file its
/// original path (when it was renamed) and its path.
pub open spec fn file_paths(files: Seq<FileStatus>) -> Seq<Seq<char>>
    decreases files.len(),
{
    if files.len() == 0 {
        Seq::empty()
    } else {
        let f = files.last();
        file_paths(files.drop_last()) + match f.original {
            Some(o) => seq![o@, f.relative@],
            None => seq![f.relative@],
        }
    }
}

/// The paths of `files` with their original paths (see [`file_paths`]),
/// for `git reset` and `git commit`.
pub fn paths_of(files: &[FileStatus]) -> (res: Vec<String>)
    ensures
        strings(res@) == file_paths(files@),
{
    let mut out: Vec<String> = Vec::new();
    let mut k: usize = 0;
    while k < files.len()
        invariant
            k <= files@.len(),
            strings(out@) == file_paths(files@.take(k as int)),
        decreases files@.len() - k,
    {
        let f = &files[k];
        let ghost before = out@;
        match &f.original {
            Some(o) => {
                out.push(o.clone());
            },
            None => {},
        }
        out.push(f.relative.clone());
        proof {
            assert(files@.take(k + 1).drop_last() =~= files@.take(k as int));
            assert(strings(out@) =~= file_paths(files@.take(k + 1)));
        }
        k = k + 1;
    }
    assert(files@.take(files@.len() as int) =~= files@);
    out
}

/// The arguments of `git diff` for a file, staged or not, and whether the
/// file is untracked (then it is compared with nothing, and exit code 1
/// is no failure).
pub open spec fn diff_arguments(file: FileStatus, staged: bool) -> (Seq<Seq<char>>, bool) {
    let untracked = !staged && file.unstaged == Some(Change::Untracked);
    if untracked {
        (
            seq![
                "diff"@,
                "--no-index"@,
                "--no-color"@,
                "--no-ext-diff"@,
                "--"@,
                "/dev/null"@,
                file.relative@,
            ],
            true,
        )
    } else {
        let head = seq!["diff"@, "--no-color"@, "--no-ext-diff"@, "-M"@] + (if staged {
            seq!["--cached"@]
        } else {
            Seq::empty()
        }) + seq!["--"@];
        let original = match file.original {
            Some(o) if staged => seq![o@],
            _ => Seq::empty(),
        };
        (head + original + seq![file.relative@], false)
    }
}

/// The arguments of `git diff` for a file (see [`diff_arguments`]).
pub fn diff_args(file: &FileStatus, staged: bool) -> (res: (Vec<String>, bool))
    ensures
        strings(res.0@) == diff_arguments(*file, staged).0,
        res.1 == diff_arguments(*file, staged).1,
{
    let untracked = !staged && file.unstaged == Some(Change::Untracked);
    let mut args: Vec<String> = Vec::new();
    if untracked {
        args.push("diff".to_owned());
        args.push("--no-index".to_owned());
        args.push("--no-color".to_owned());
        args.push("--no-ext-diff".to_owned());
        args.push("--".to_owned());
        args.push("/dev/null".to_owned());
        args.push(file.relative.clone());
        assert(strings(args@) =~= diff_arguments(*file, staged).0);
        return (args, true);
    }
    args.push("diff".to_owned());
    args.push("--no-color".to_owned());
    args.push("--no-ext-diff".to_owned());
    args.push("-M".to_owned());
    if staged {
        args.push("--cached".to_owned());
    }
    args.push("--".to_owned());
    if staged {
        match &file.original {
            Some(o) => args.push(o.clone()),
            None => {},
        }
    }
    args.push(file.relative.clone());
    assert(strings(args@) =~= diff_arguments(*file, staged).0);
    (args, false)
}


/// Whether `l` starts with `prefix`.
pub open spec fn starts_with_text(l: Seq<char>, prefix: Seq<char>) -> bool {
    prefix.len() <= l.len() && l.take(prefix.len() as int) == prefix
}

/// The first of `ls[i..]` that Git marks as the error (`fatal: ` or
/// `error: `), without that mark.
pub open spec fn marked_error(ls: Seq<Seq<char>>, i: int) -> Option<Seq<char>>
    decreases ls.len() - i,
{
    if i < 0 || i >= ls.len() {
        None
    } else if starts_with_text(ls[i], "fatal: "@) || starts_with_text(ls[i], "error: "@) {
        Some(ls[i].skip(7))
    } else {
        marked_error(ls, i + 1)
    }
}

/// The first of `ls[i..]` that says something: not empty, and no hint.
pub open spec fn first_said(ls: Seq<Seq<char>>, i: int) -> Option<Seq<char>>
    decreases ls.len() - i,
{
    if i < 0 || i >= ls.len() {
        None
    } else if ls[i].len() > 0 && !starts_with_text(ls[i], "hint:"@) {
        Some(ls[i])
    } else {
        first_said(ls, i + 1)
    }
}

/// The message a failed Git command leaves: from the lines of its error
/// output and then its output (each trimmed), the first marked error, or
/// else the first line that says something, or else `git failed`.
pub open spec fn failure_text(stderr: Seq<char>, stdout: Seq<char>) -> Seq<char> {
    let ls = lines_of(trim_chars(stderr)) + lines_of(trim_chars(stdout));
    match marked_error(ls, 0) {
        Some(m) => m,
        None => match first_said(ls, 0) {
            Some(l) => l,
            None => "git failed"@,
        },
    }
}

fn starts_with(l: &Vec<char>, prefix: &str) -> (res: bool)
    ensures
        res == starts_with_text(l@, prefix@),
{
    let p = chars_of(prefix);
    if p.len() > l.len() {
        return false;
    }
    let head = crate::vim::buffer::slice(l, 0, p.len());
    crate::vim::engine::same_text(&head, &p)
}

/// The message of a failed Git command (see [`failure_text`]).
pub fn failure_message(stderr: &str, stdout: &str) -> (res: String)
    ensures
        res@ == failure_text(stderr@, stdout@),
{
    let err = lines(&trim(&chars_of(stderr)));
    let out = lines(&trim(&chars_of(stdout)));
    let mut ls = err;
    let mut k: usize = 0;
    let ghost first = texts(ls@);
    while k < out.len()
        invariant
            k <= out@.len(),
            texts(ls@) == first + texts(out@).take(k as int),
        decreases out@.len() - k,
    {
        let l = crate::vim::buffer::slice(&out[k], 0, out[k].len());
        assert(l@ =~= out@[k as int]@);
        let ghost before = ls@;
        ls.push(l);
        assert(texts(ls@) =~= texts(before).push(l@));
        assert(texts(out@).take(k + 1) =~= texts(out@).take(k as int).push(out@[k as int]@));
        assert(texts(ls@) =~= first + texts(out@).take(k + 1));
        k = k + 1;
    }
    assert(texts(out@).take(out@.len() as int) =~= texts(out@));
    let ghost all = texts(ls@);
    assert(all == lines_of(trim_chars(stderr@)) + lines_of(trim_chars(stdout@)));
    proof {
        reveal_strlit("fatal: ");
        reveal_strlit("error: ");
    }
    let mut i: usize = 0;
    while i < ls.len()
        invariant
            i <= ls@.len(),
            all == texts(ls@),
            all == lines_of(trim_chars(stderr@)) + lines_of(trim_chars(stdout@)),
            "fatal: "@.len() == 7,
            "error: "@.len() == 7,
            marked_error(all, i as int) == marked_error(all, 0),
        decreases ls@.len() - i,
    {
        if starts_with(&ls[i], "fatal: ") || starts_with(&ls[i], "error: ") {
            let rest = crate::vim::buffer::slice(&ls[i], 7, ls[i].len());
            assert(rest@ =~= all[i as int].skip(7));
            return string_of(&rest);
        }
        i = i + 1;
    }
    let mut j: usize = 0;
    while j < ls.len()
        invariant
            j <= ls@.len(),
            all == texts(ls@),
            all == lines_of(trim_chars(stderr@)) + lines_of(trim_chars(stdout@)),
            marked_error(all, 0) is None,
            first_said(all, j as int) == first_said(all, 0),
        decreases ls@.len() - j,
    {
        if ls[j].len() > 0 && !starts_with(&ls[j], "hint:") {
            return string_of(&ls[j]);
        }
        j = j + 1;
    }
    "git failed".to_owned()
}

/// The first line of what `git commit` printed, trimmed (the summary of
/// the commit made).
pub open spec fn commit_line(stdout: Seq<char>) -> Seq<char> {
    if lines_of(stdout).len() > 0 {
        trim_chars(lines_of(stdout)[0])
    } else {
        Seq::empty()
    }
}

/// The summary that `git commit` printed (see [`commit_line`]).
pub fn commit_summary(stdout: &str) -> (res: String)
    ensures
        res@ == commit_line(stdout@),
{
    let ls = lines(&chars_of(stdout));
    if ls.len() > 0 {
        let first = trim(&ls[0]);
        string_of(&first)
    } else {
        String::new()
    }
}

/// A path without the slashes that end it.
pub open spec fn without_slashes(t: Seq<char>) -> Seq<char>
    decreases t.len(),
{
    if t.len() > 0 && t.last() == '/' {
        without_slashes(t.drop_last())
    } else {
        t
    }
}

/// A path that `git ls-files` listed (relative, maybe ending in `/`) as
/// a path under `root`.
pub fn listed_path(root: &str, listed: &str) -> (res: String)
    ensures
        crate::text::utf8(res@) == crate::git::join_pieces(
            crate::text::utf8(root@),
            crate::text::utf8(without_slashes(listed@)),
            0,
        ),
{
    let t = chars_of(listed);
    let mut e = t.len();
    assert(t@.take(e as int) =~= t@);
    while e > 0 && t[e - 1] == '/'
        invariant
            e <= t@.len(),
            without_slashes(t@.take(e as int)) == without_slashes(t@),
        decreases e,
    {
        assert(t@.take(e as int).drop_last() =~= t@.take(e - 1));
        e = e - 1;
    }
    let kept = crate::vim::buffer::slice(&t, 0, e);
    assert(kept@ =~= t@.take(e as int));
    let relative = string_of(&kept);
    crate::git::absolute(root, relative.as_str())
}

} // verus!
