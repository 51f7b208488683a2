//! Which icon the project tree shows for a file.

use vstd::prelude::*;

use crate::assets::AppIcon;
use crate::text::{ascii_lower, is_text, lowered, utf8};

verus! {

/// The kinds of file that have an icon of their own.
#[derive(Clone, Copy, Debug, PartialEq, Eq)]
pub enum FileKind {
    GitIgnore,
    JavaScript,
    Json,
    Lock,
    Markdown,
    Rust,
    Toml,
    TypeScript,
    Plain,
}

/// Offset just past the last `/` in `p[..end]`, or 0.
pub open spec fn after_last_slash(p: Seq<u8>, end: int) -> int
    decreases end,
{
    if end <= 0 {
        0
    } else if p[end - 1] == 47 {
        end
    } else {
        after_last_slash(p, end - 1)
    }
}

pub proof fn lemma_slash_at_most(p: Seq<u8>, end: int)
    ensures
        0 <= after_last_slash(p, end),
        end >= 0 ==> after_last_slash(p, end) <= end,
    decreases end,
{
    if end > 0 && p[end - 1] != 47 {
        lemma_slash_at_most(p, end - 1);
    }
}

/// The last component of `p[..end]` as a path: components are separated by
/// `/`; empty and `.` components are skipped; `None` when no component is
/// left or the last one is `..`.
pub open spec fn name_before(p: Seq<u8>, end: int) -> Option<(int, int)>
    decreases end,
{
    if end <= 0 {
        None
    } else {
        let k = after_last_slash(p, end);
        let seg = p.subrange(k, end);
        if seg.len() == 0 || seg == utf8("."@) {
            if k == 0 {
                None
            } else {
                proof {
                    lemma_slash_at_most(p, end);
                }
                name_before(p, k - 1)
            }
        } else if seg == utf8(".."@) {
            None
        } else {
            Some((k, end))
        }
    }
}

/// The byte range of a path's file name.
pub open spec fn file_name(p: Seq<u8>) -> Option<(int, int)> {
    name_before(p, p.len() as int)
}

/// Offset of the last `.` in `name[..end]`, if any.
pub open spec fn last_dot(name: Seq<u8>, end: int) -> Option<int>
    decreases end,
{
    if end <= 0 {
        None
    } else if name[end - 1] == 46 {
        Some(end - 1)
    } else {
        last_dot(name, end - 1)
    }
}

/// The extension of a file name: what follows its last `.`, unless that dot
/// starts the name; empty when there is none.
pub open spec fn extension(name: Seq<u8>) -> Seq<u8> {
    match last_dot(name, name.len() as int) {
        Some(d) if d > 0 => name.subrange(d + 1, name.len() as int),
        _ => Seq::empty(),
    }
}

/// The kind of a file with the given (lowered) extension.
pub open spec fn kind_of_extension(ext: Seq<u8>) -> FileKind {
    if ext == utf8("cjs"@) || ext == utf8("js"@) || ext == utf8("jsx"@) || ext == utf8("mjs"@) {
        FileKind::JavaScript
    } else if ext == utf8("json"@) || ext == utf8("jsonc"@) {
        FileKind::Json
    } else if ext == utf8("lock"@) {
        FileKind::Lock
    } else if ext == utf8("markdown"@) || ext == utf8("md"@) {
        FileKind::Markdown
    } else if ext == utf8("rs"@) {
        FileKind::Rust
    } else if ext == utf8("toml"@) {
        FileKind::Toml
    } else if ext == utf8("cts"@) || ext == utf8("mts"@) || ext == utf8("ts"@) || ext == utf8("tsx"@) {
        FileKind::TypeScript
    } else {
        FileKind::Plain
    }
}

/// The kind of the file at a path: `.gitignore` (in any letter case) by
/// name, the others by extension, ignoring ASCII letter case.
pub open spec fn kind_of(path: Seq<u8>) -> FileKind {
    let name = match file_name(path) {
        Some(r) => path.subrange(r.0, r.1),
        None => Seq::empty(),
    };
    if ascii_lower(name) == utf8(".gitignore"@) {
        FileKind::GitIgnore
    } else {
        kind_of_extension(ascii_lower(extension(name)))
    }
}

fn slash_before(p: &[u8], end: usize) -> (res: usize)
    requires
        end <= p@.len(),
    ensures
        res == after_last_slash(p@, end as int),
        res <= end,
{
    let mut k = end;
    while k > 0 && p[k - 1] != 47
        invariant
            k <= end <= p@.len(),
            after_last_slash(p@, k as int) == after_last_slash(p@, end as int),
        decreases k,
    {
        k = k - 1;
    }
    k
}

proof fn lemma_slash_bounds(p: Seq<u8>, end: int)
    requires
        0 <= end <= p.len(),
    ensures
        0 <= after_last_slash(p, end) <= end,
        after_last_slash(p, end) > 0 ==> p[after_last_slash(p, end) - 1] == 47,
    decreases end,
{
    if end > 0 && p[end - 1] != 47 {
        lemma_slash_bounds(p, end - 1);
    }
}

/// A file name ends at the end of the path or before a `/`, and starts at
/// its start or after one.
pub proof fn lemma_name_edges_at(p: Seq<u8>, end: int)
    requires
        0 <= end <= p.len(),
        end == p.len() || p[end] == 47,
    ensures
        name_before(p, end) matches Some(r) ==> 0 <= r.0 <= r.1 <= end && (r.0 == 0 || p[r.0 - 1]
            == 47) && (r.1 == p.len() || p[r.1] == 47),
    decreases end,
{
    if end > 0 {
        lemma_slash_bounds(p, end);
        let k = after_last_slash(p, end);
        let seg = p.subrange(k, end);
        if (seg.len() == 0 || seg == utf8("."@)) && k > 0 {
            lemma_name_edges_at(p, k - 1);
        }
    }
}

/// See [`lemma_name_edges_at`].
pub proof fn lemma_name_edges(p: Seq<u8>)
    ensures
        file_name(p) matches Some(r) ==> 0 <= r.0 <= r.1 <= p.len() && (r.0 == 0 || p[r.0 - 1] == 47)
            && (r.1 == p.len() || p[r.1] == 47),
{
    lemma_name_edges_at(p, p.len() as int);
}

proof fn lemma_name_bounds(p: Seq<u8>, end: int)
    requires
        0 <= end <= p.len(),
    ensures
        name_before(p, end) matches Some(r) ==> 0 <= r.0 <= r.1 <= end,
    decreases end,
{
    if end > 0 {
        lemma_slash_bounds(p, end);
        let k = after_last_slash(p, end);
        let seg = p.subrange(k, end);
        if (seg.len() == 0 || seg == utf8("."@)) && k > 0 {
            lemma_name_bounds(p, k - 1);
        }
    }
}

pub(crate) fn name_range(p: &[u8]) -> (res: Option<(usize, usize)>)
    ensures
        match file_name(p@) {
            None => res is None,
            Some(r) => res matches Some(x) && x.0 == r.0 && x.1 == r.1,
        },
        res matches Some(x) ==> x.0 <= x.1 <= p@.len(),
{
    let mut end = p.len();
    loop
        invariant
            end <= p@.len(),
            name_before(p@, end as int) == file_name(p@),
        decreases end,
    {
        if end == 0 {
            return None;
        }
        let k = slash_before(p, end);
        let seg = &p[k..end];
        assert(seg@ == p@.subrange(k as int, end as int));
        if seg.len() == 0 || is_text(seg, ".") {
            if k == 0 {
                return None;
            }
            end = k - 1;
        } else if is_text(seg, "..") {
            return None;
        } else {
            return Some((k, end));
        }
    }
}

pub(crate) fn dot_before(name: &[u8], end: usize) -> (res: Option<usize>)
    requires
        end <= name@.len(),
    ensures
        match last_dot(name@, end as int) {
            None => res is None,
            Some(d) => res == Some(d as usize) && 0 <= d < end,
        },
{
    let mut k = end;
    while k > 0
        invariant
            k <= end <= name@.len(),
            last_dot(name@, k as int) == last_dot(name@, end as int),
        decreases k,
    {
        if name[k - 1] == 46 {
            return Some(k - 1);
        }
        k = k - 1;
    }
    None
}

impl FileKind {
    /// The kind of the file at `path` (see [`kind_of`]).
    pub fn of(path: &str) -> (res: Self)
        ensures
            res == kind_of(utf8(path@)),
    {
        let p = path.as_bytes();
        let (start, end) = match name_range(p) {
            Some(r) => r,
            None => (0, 0),
        };
        let name = &p[start..end];
        assert(name@ == match file_name(p@) {
            Some(r) => p@.subrange(r.0, r.1),
            None => Seq::<u8>::empty(),
        });
        let low = lowered(name, 0, name.len());
        assert(name@.subrange(0, name@.len() as int) =~= name@);
        if is_text(&low, ".gitignore") {
            return FileKind::GitIgnore;
        }
        let ext = match dot_before(name, name.len()) {
            Some(d) if d > 0 => lowered(name, d + 1, name.len()),
            _ => Vec::new(),
        };
        assert(ext@ =~= ascii_lower(extension(name@)));
        let e = ext.as_slice();
        if is_text(e, "cjs") || is_text(e, "js") || is_text(e, "jsx") || is_text(e, "mjs") {
            FileKind::JavaScript
        } else if is_text(e, "json") || is_text(e, "jsonc") {
            FileKind::Json
        } else if is_text(e, "lock") {
            FileKind::Lock
        } else if is_text(e, "markdown") || is_text(e, "md") {
            FileKind::Markdown
        } else if is_text(e, "rs") {
            FileKind::Rust
        } else if is_text(e, "toml") {
            FileKind::Toml
        } else if is_text(e, "cts") || is_text(e, "mts") || is_text(e, "ts") || is_text(e, "tsx") {
            FileKind::TypeScript
        } else {
            FileKind::Plain
        }
    }

    /// The icon the project tree shows for this kind of file.
    pub fn icon(self) -> (res: AppIcon)
        ensures
            res == match self {
                FileKind::GitIgnore => AppIcon::FileIgnored,
                FileKind::JavaScript => AppIcon::FileJavaScript,
                FileKind::Json => AppIcon::FileJson,
                FileKind::Lock => AppIcon::FileLock,
                FileKind::Markdown => AppIcon::FileMarkdown,
                FileKind::Rust => AppIcon::FileRust,
                FileKind::Toml => AppIcon::FileToml,
                FileKind::TypeScript => AppIcon::FileTypeScript,
                FileKind::Plain => AppIcon::File,
            },
    {
        match self {
            FileKind::GitIgnore => AppIcon::FileIgnored,
            FileKind::JavaScript => AppIcon::FileJavaScript,
            FileKind::Json => AppIcon::FileJson,
            FileKind::Lock => AppIcon::FileLock,
            FileKind::Markdown => AppIcon::FileMarkdown,
            FileKind::Rust => AppIcon::FileRust,
            FileKind::Toml => AppIcon::FileToml,
            FileKind::TypeScript => AppIcon::FileTypeScript,
            FileKind::Plain => AppIcon::File,
        }
    }
}

} // verus!
