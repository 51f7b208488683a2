//! Small computations of the editor shell: where an offset lies for the
//! language server, and the debugger's breakpoint commands.

use vstd::prelude::*;
use vstd::utf8::valid_utf8;
use crate::text::{utf8, boundary, lemma_after_ascii, lemma_valid_between, push_char};
use crate::search::{utf16_len, utf16_count};

verus! {

/// How many `\n` bytes `b` holds.
pub open spec fn newline_count(b: Seq<u8>) -> nat
    decreases b.len(),
{
    if b.len() == 0 {
        0
    } else {
        newline_count(b.drop_last()) + if b.last() == 10 {
            1nat
        } else {
            0nat
        }
    }
}

/// Where the last line of `b` starts: after its last `\n`, or at 0.
pub open spec fn last_line_start(b: Seq<u8>) -> int
    decreases b.len(),
{
    if b.len() == 0 {
        0
    } else if b.last() == 10 {
        b.len() as int
    } else {
        last_line_start(b.drop_last())
    }
}

proof fn lemma_last_line_start(b: Seq<u8>)
    ensures
        0 <= last_line_start(b) <= b.len(),
        last_line_start(b) > 0 ==> b[last_line_start(b) - 1] == 10,
    decreases b.len(),
{
    if b.len() > 0 && b.last() != 10 {
        lemma_last_line_start(b.drop_last());
    }
}

/// The line and UTF-16 column of byte `offset` of a text (offsets past the
/// end stand for the end), as a language server counts them.
pub open spec fn position_of(b: Seq<u8>, offset: int) -> (u32, u32) {
    let o = if offset < b.len() {
        offset
    } else {
        b.len() as int
    };
    let before = b.subrange(0, o);
    (newline_count(before) as u32, utf16_len(before.subrange(last_line_start(before), o)) as u32)
}

/// Where byte `offset` of `text` lies: its line and its UTF-16 column
/// (see [`position_of`]).
pub fn position_at(text: &str, offset: usize) -> (res: (u32, u32))
    requires
        offset >= utf8(text@).len() || boundary(utf8(text@), offset as int),
    ensures
        res == position_of(utf8(text@), offset as int),
{
    let b = text.as_bytes();
    let o = if offset < b.len() {
        offset
    } else {
        b.len()
    };
    let ghost before = b@.subrange(0, o as int);
    let mut lines: usize = 0;
    let mut start: usize = 0;
    let mut i: usize = 0;
    while i < o
        invariant
            i <= o <= b@.len(),
            lines == newline_count(b@.subrange(0, i as int)),
            start == last_line_start(b@.subrange(0, i as int)),
            lines <= i,
        decreases o - i,
    {
        assert(b@.subrange(0, i + 1).drop_last() =~= b@.subrange(0, i as int));
        if b[i] == 10 {
            lines = lines + 1;
            start = i + 1;
        }
        i = i + 1;
    }
    proof {
        lemma_last_line_start(before);
        vstd::utf8::encode_utf8_valid_utf8(text@);
        vstd::utf8::is_char_boundary_start_end_of_seq(b@);
        if start > 0 {
            assert(b@[start - 1] == before[start - 1]);
            lemma_after_ascii(b@, start as int);
        }
        lemma_valid_between(b@, start as int, o as int);
        assert(before.subrange(start as int, o as int) =~= b@.subrange(start as int, o as int));
    }
    let column = utf16_count(b, start, o);
    (lines as u32, column as u32)
}

/// The decimal digits of `n`.
pub open spec fn digits(n: nat) -> Seq<char>
    decreases n,
{
    if n < 10 {
        seq![(48 + n) as char]
    } else {
        digits(n / 10).push((48 + n % 10) as char)
    }
}

pub(crate) fn push_digits(out: &mut Vec<char>, n: usize)
    ensures
        final(out)@ == old(out)@ + digits(n as nat),
    decreases n,
{
    if n >= 10 {
        push_digits(out, n / 10);
    }
    let d = (n % 10) as u8;
    out.push((48 + d) as char);
    assert(final(out)@ =~= old(out)@ + digits(n as nat));
}

/// A path as the debugger reads it: backslashes as slashes, without a
/// leading `//?/`, quotes escaped and line breaks left out.
pub open spec fn breakpoint_name(path: Seq<char>) -> Seq<char> {
    escaped(strip_verbatim(slashed(path)))
}

/// Every backslash as a slash.
pub open spec fn slashed(s: Seq<char>) -> Seq<char> {
    s.map_values(|c: char|
        if c == '\\' {
            '/'
        } else {
            c
        })
}

/// Without a leading `//?/`.
pub open spec fn strip_verbatim(s: Seq<char>) -> Seq<char> {
    if s.len() >= 4 && s.take(4) == seq!['/', '/', '?', '/'] {
        s.skip(4)
    } else {
        s
    }
}

/// Quotes escaped with a backslash, carriage returns and line feeds left
/// out.
pub open spec fn escaped(s: Seq<char>) -> Seq<char>
    decreases s.len(),
{
    if s.len() == 0 {
        s
    } else {
        escaped(s.drop_last()) + if s.last() == '"' {
            seq!['\\', '"']
        } else if s.last() == '\r' || s.last() == '\n' {
            Seq::empty()
        } else {
            seq![s.last()]
        }
    }
}

/// The command that sets (or clears) a breakpoint at `line` of `path`: in
/// LLDB's syntax, or else in GDB's.
pub open spec fn breakpoint_text(path: Seq<char>, line: nat, enabled: bool, lldb: bool) -> Seq<char> {
    let name = breakpoint_name(path);
    if lldb {
        "breakpoint "@ + (if enabled {
            "set"@
        } else {
            "clear"@
        }) + " --file \""@ + name + "\" --line "@ + digits(line)
    } else {
        (if enabled {
            "break"@
        } else {
            "clear"@
        }) + " \""@ + name + "\":"@ + digits(line)
    }
}

pub(crate) fn push_text(out: &mut Vec<char>, s: &str)
    ensures
        final(out)@ == old(out)@ + s@,
{
    let n = s.unicode_len();
    let mut k: usize = 0;
    while k < n
        invariant
            k <= n == s@.len(),
            out@ == old(out)@ + s@.take(k as int),
        decreases n - k,
    {
        out.push(s.get_char(k));
        k = k + 1;
        assert(out@ =~= old(out)@ + s@.take(k as int));
    }
    assert(s@.take(n as int) =~= s@);
}

/// The path of a breakpoint as the debugger reads it (see
/// [`breakpoint_name`]).
fn debugger_path(path: &str) -> (res: Vec<char>)
    ensures
        res@ == breakpoint_name(path@),
{
    let n = path.unicode_len();
    let mut slashes: Vec<char> = Vec::new();
    let mut k: usize = 0;
    while k < n
        invariant
            k <= n == path@.len(),
            slashes@ == slashed(path@.take(k as int)),
        decreases n - k,
    {
        let c = path.get_char(k);
        slashes.push(if c == '\\' {
            '/'
        } else {
            c
        });
        k = k + 1;
        assert(slashes@ =~= slashed(path@.take(k as int)));
    }
    assert(path@.take(n as int) =~= path@);
    let m = slashes.len();
    let skip = if m >= 4 && slashes[0] == '/' && slashes[1] == '/' && slashes[2] == '?'
        && slashes[3] == '/' {
        assert(slashes@.take(4) =~= seq!['/', '/', '?', '/']);
        4
    } else {
        assert(m >= 4 ==> slashes@.take(4) != seq!['/', '/', '?', '/']) by {
            if m >= 4 && slashes@.take(4) == seq!['/', '/', '?', '/'] {
                assert(slashes@.take(4)[0] == slashes@[0]);
                assert(slashes@.take(4)[1] == slashes@[1]);
                assert(slashes@.take(4)[2] == slashes@[2]);
                assert(slashes@.take(4)[3] == slashes@[3]);
            }
        }
        0
    };
    let ghost stripped = strip_verbatim(slashes@);
    assert(stripped =~= slashes@.skip(skip as int));
    let mut out: Vec<char> = Vec::new();
    let mut j = skip;
    while j < m
        invariant
            skip <= j <= m == slashes@.len(),
            stripped == slashes@.skip(skip as int),
            out@ == escaped(slashes@.subrange(skip as int, j as int)),
        decreases m - j,
    {
        let c = slashes[j];
        assert(slashes@.subrange(skip as int, j + 1).drop_last() =~= slashes@.subrange(
            skip as int,
            j as int,
        ));
        if c == '"' {
            out.push('\\');
            out.push('"');
        } else if c != '\r' && c != '\n' {
            out.push(c);
        }
        j = j + 1;
        assert(out@ =~= escaped(slashes@.subrange(skip as int, j as int)));
    }
    assert(slashes@.subrange(skip as int, m as int) =~= stripped);
    out
}

/// The debugger command that sets (or clears) a breakpoint at `line` of
/// `path` (see [`breakpoint_text`]).
pub fn breakpoint_command(path: &str, line: usize, enabled: bool, lldb: bool) -> (res: String)
    ensures
        res@ == breakpoint_text(path@, line as nat, enabled, lldb),
{
    let name = debugger_path(path);
    let mut out: Vec<char> = Vec::new();
    if lldb {
        push_text(&mut out, "breakpoint ");
        push_text(
            &mut out,
            if enabled {
                "set"
            } else {
                "clear"
            },
        );
        push_text(&mut out, " --file \"");
        append_chars(&mut out, &name);
        push_text(&mut out, "\" --line ");
    } else {
        push_text(
            &mut out,
            if enabled {
                "break"
            } else {
                "clear"
            },
        );
        push_text(&mut out, " \"");
        append_chars(&mut out, &name);
        push_text(&mut out, "\":");
    }
    push_digits(&mut out, line);
    let mut s = String::new();
    let mut k: usize = 0;
    while k < out.len()
        invariant
            k <= out@.len(),
            s@ == out@.take(k as int),
        decreases out@.len() - k,
    {
        push_char(&mut s, out[k]);
        k = k + 1;
        assert(s@ =~= out@.take(k as int));
    }
    assert(out@.take(out@.len() as int) =~= out@);
    s
}

pub(crate) fn append_chars(out: &mut Vec<char>, s: &Vec<char>)
    ensures
        final(out)@ == old(out)@ + s@,
{
    let mut k: usize = 0;
    while k < s.len()
        invariant
            k <= s@.len(),
            out@ == old(out)@ + s@.take(k as int),
        decreases s@.len() - k,
    {
        out.push(s[k]);
        k = k + 1;
        assert(out@ =~= old(out)@ + s@.take(k as int));
    }
    assert(s@.take(s@.len() as int) =~= s@);
}

} // verus!
