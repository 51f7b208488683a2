//! Locations in the output of compilers and build tools.

use vstd::prelude::*;
use vstd::string::*;

use crate::search::Match;
use crate::text::{is_space, parse_usize, skip_space, trim_end, trimmed, usize_of};

verus! {

/// Where a line's text starts once `-->` markers at its start are skipped.
pub open spec fn skip_arrows(u: Seq<char>, a: int, e: int) -> int
    decreases e - a,
{
    if e - a >= 3 && u.subrange(a, a + 3) == "-->"@ {
        skip_arrows(u, a + 3, e)
    } else {
        a
    }
}

/// The first `: ` in `u[a..e]`, or `e`.
pub open spec fn colon_space(u: Seq<char>, a: int, e: int) -> int
    decreases e - a,
{
    if a + 1 >= e {
        e
    } else if u[a] == ':' && u[a + 1] == ' ' {
        a
    } else {
        colon_space(u, a + 1, e)
    }
}

/// The last `:` in `u[a..e]`, if any.
pub open spec fn last_colon(u: Seq<char>, a: int, e: int) -> Option<int>
    decreases e - a,
{
    if e <= a {
        None
    } else if u[e - 1] == ':' {
        Some(e - 1)
    } else {
        last_colon(u, a, e - 1)
    }
}

/// `path` under `directory`, as `PathBuf::join` does: an absolute path
/// stands as it is, else a `/` goes between them unless the directory is
/// empty or ends with one.
pub open spec fn joined(directory: Seq<char>, path: Seq<char>) -> Seq<char> {
    if path.len() > 0 && path[0] == '/' {
        path
    } else if directory.len() > 0 && directory.last() != '/' {
        directory + "/"@ + path
    } else {
        directory + path
    }
}

/// The trimmed text of a line: whitespace, then `-->` markers, then
/// whitespace again taken off.
pub open spec fn trimmed_line(u: Seq<char>) -> (int, int) {
    let n = u.len() as int;
    let a0 = skip_space(u, 0, n);
    let e0 = trim_end(u, a0, n, |c: char| is_space(c));
    let a1 = skip_arrows(u, a0, e0);
    let a2 = skip_space(u, a1, e0);
    let e2 = trim_end(u, a2, e0, |c: char| is_space(c));
    (a2, e2)
}

/// The location a line of tool output names, as `(path, line, column)`:
/// the trimmed line up to its first `: ` must read `path:line:column`,
/// with a non-empty path and a line and column from 1.
pub open spec fn location_of(u: Seq<char>) -> Option<(Seq<char>, usize, usize)> {
    let (a, e) = trimmed_line(u);
    let k = colon_space(u, a, e);
    match last_colon(u, a, k) {
        None => None,
        Some(c) => match usize_of(u, c + 1, k) {
            None => None,
            Some(column) => match last_colon(u, a, c) {
                None => None,
                Some(r) => match usize_of(u, r + 1, c) {
                    None => None,
                    Some(row) => if r == a || row == 0 || column == 0 {
                        None
                    } else {
                        Some((u.subrange(a, r), row, column))
                    },
                },
            },
        },
    }
}

/// The match for a line of tool output under `directory`: the location it
/// names (see [`location_of`]), its path joined to the directory, and the
/// trimmed line as preview.
pub open spec fn match_of(u: Seq<char>, directory: Seq<char>) -> Option<(Seq<char>, usize, usize, Seq<char>)> {
    match location_of(u) {
        None => None,
        Some(l) => Some(
            (joined(directory, l.0), l.1, l.2, u.subrange(trimmed_line(u).0, trimmed_line(u).1)),
        ),
    }
}

proof fn lemma_skip_arrows(u: Seq<char>, a: int, e: int)
    requires
        a <= e,
    ensures
        a <= skip_arrows(u, a, e) <= e,
    decreases e - a,
{
    if e - a >= 3 && u.subrange(a, a + 3) == "-->"@ {
        lemma_skip_arrows(u, a + 3, e);
    }
}

proof fn lemma_colon_space(u: Seq<char>, a: int, e: int)
    requires
        a <= e,
    ensures
        a <= colon_space(u, a, e) <= e,
    decreases e - a,
{
    if a + 1 < e && !(u[a] == ':' && u[a + 1] == ' ') {
        lemma_colon_space(u, a + 1, e);
    }
}

proof fn lemma_last_colon(u: Seq<char>, a: int, e: int)
    ensures
        last_colon(u, a, e) matches Some(c) ==> a <= c < e,
    decreases e - a,
{
    if e > a && u[e - 1] != ':' {
        lemma_last_colon(u, a, e - 1);
    }
}

fn arrows_at(s: &str, a: usize, e: usize) -> (res: bool)
    requires
        a <= e <= s@.len(),
    ensures
        res == (e - a >= 3 && s@.subrange(a as int, a + 3) == "-->"@),
{
    proof {
        reveal_strlit("-->");
    }
    if e - a >= 3 && s.get_char(a) == '-' && s.get_char(a + 1) == '-' && s.get_char(a + 2) == '>' {
        assert(s@.subrange(a as int, a + 3) =~= "-->"@);
        true
    } else {
        proof {
            if e - a >= 3 && s@.subrange(a as int, a + 3) == "-->"@ {
                assert(s@.subrange(a as int, a + 3)[0] == s@[a as int]);
                assert(s@.subrange(a as int, a + 3)[1] == s@[a + 1]);
                assert(s@.subrange(a as int, a + 3)[2] == s@[a + 2]);
            }
        }
        false
    }
}

fn find_colon_space(s: &str, a: usize, e: usize) -> (res: usize)
    requires
        a <= e <= s@.len(),
    ensures
        res == colon_space(s@, a as int, e as int),
{
    let mut k = a;
    while e - k > 1 && !(s.get_char(k) == ':' && s.get_char(k + 1) == ' ')
        invariant
            a <= k <= e <= s@.len(),
            colon_space(s@, k as int, e as int) == colon_space(s@, a as int, e as int),
        decreases e - k,
    {
        k = k + 1;
    }
    if e - k <= 1 {
        e
    } else {
        k
    }
}

fn find_last_colon(s: &str, a: usize, e: usize) -> (res: Option<usize>)
    requires
        a <= e <= s@.len(),
    ensures
        match last_colon(s@, a as int, e as int) {
            Some(c) => res == Some(c as usize),
            None => res is None,
        },
{
    proof {
        lemma_last_colon(s@, a as int, e as int);
    }
    let mut k = e;
    while k > a
        invariant
            a <= k <= e <= s@.len(),
            last_colon(s@, a as int, k as int) == last_colon(s@, a as int, e as int),
        decreases k,
    {
        if s.get_char(k - 1) == ':' {
            return Some(k - 1);
        }
        k = k - 1;
    }
    None
}

/// The match for one line of tool output (see [`match_of`]).
pub fn parse_line(line: &str, directory: &str) -> (res: Option<Match>)
    ensures
        match match_of(line@, directory@) {
            None => res is None,
            Some(m) => res matches Some(x) && x.path@ == m.0 && x.line == m.1 && x.column == m.2
                && x.preview@ == m.3,
        },
{
    let n = line.unicode_len();
    let (a0, e0) = trimmed(line, 0, n);
    proof {
        lemma_skip_arrows(line@, a0 as int, e0 as int);
    }
    let mut a1 = a0;
    while arrows_at(line, a1, e0)
        invariant
            a0 <= a1 <= e0 <= line@.len(),
            skip_arrows(line@, a1 as int, e0 as int) == skip_arrows(line@, a0 as int, e0 as int),
        decreases e0 - a1,
    {
        a1 = a1 + 3;
    }
    let (a, e) = trimmed(line, a1, e0);
    assert((a as int, e as int) == trimmed_line(line@));
    let k = find_colon_space(line, a, e);
    proof {
        lemma_colon_space(line@, a as int, e as int);
    }
    let c = match find_last_colon(line, a, k) {
        None => return None,
        Some(c) => c,
    };
    proof {
        lemma_last_colon(line@, a as int, k as int);
    }
    let column = match parse_usize(line, c + 1, k) {
        None => return None,
        Some(column) => column,
    };
    let r = match find_last_colon(line, a, c) {
        None => return None,
        Some(r) => r,
    };
    proof {
        lemma_last_colon(line@, a as int, c as int);
    }
    let row = match parse_usize(line, r + 1, c) {
        None => return None,
        Some(row) => row,
    };
    if r == a || row == 0 || column == 0 {
        return None;
    }
    let path = line.substring_char(a, r);
    let path_start = path.get_char(0);
    let full = if path_start == '/' {
        path.to_owned()
    } else {
        let m = directory.unicode_len();
        let mut joined = String::from_str(directory);
        if m > 0 && directory.get_char(m - 1) != '/' {
            joined.append("/");
        }
        joined.append(path);
        proof {
            reveal_strlit("/");
        }
        joined
    };
    let preview = line.substring_char(a, e).to_owned();
    Some(Match { path: full, line: row, column, preview })
}

/// A match as plain values.
pub open spec fn match_view(m: Match) -> (Seq<char>, usize, usize, Seq<char>) {
    (m.path@, m.line, m.column, m.preview@)
}

/// The matches of the first `n` lines that name a location, in order.
pub open spec fn all_matches(lines: Seq<String>, directory: Seq<char>, n: int) -> Seq<
    (Seq<char>, usize, usize, Seq<char>),
>
    decreases n,
{
    if n <= 0 {
        Seq::empty()
    } else {
        let before = all_matches(lines, directory, n - 1);
        match match_of(lines[n - 1]@, directory) {
            Some(m) => before.push(m),
            None => before,
        }
    }
}

/// The locations named by lines of tool output, in order (see
/// [`parse_line`]).
pub fn locations(lines: &[String], directory: &str) -> (res: Vec<Match>)
    ensures
        Seq::new(res@.len(), |i: int| match_view(res@[i])) == all_matches(
            lines@,
            directory@,
            lines@.len() as int,
        ),
{
    let mut out: Vec<Match> = Vec::new();
    let mut i: usize = 0;
    while i < lines.len()
        invariant
            i <= lines@.len(),
            Seq::new(out@.len(), |k: int| match_view(out@[k])) == all_matches(
                lines@,
                directory@,
                i as int,
            ),
        decreases lines.len() - i,
    {
        match parse_line(lines[i].as_str(), directory) {
            Some(m) => {
                out.push(m);
            },
            None => {},
        }
        i = i + 1;
        assert(Seq::new(out@.len(), |k: int| match_view(out@[k])) =~= all_matches(
            lines@,
            directory@,
            i as int,
        ));
    }
    out
}

} // verus!
