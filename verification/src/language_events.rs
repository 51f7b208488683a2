//! How the editor answers what its language server sends: which kind of
//! message it is, the reply to a request of the server, which diagnostics
//! are still current and what they show, where a definition lies, what a
//! hover shows and which completions are offered.

use vstd::prelude::*;

use crate::git_commands::{lines, lines_of};
use crate::language_server::{path_from_uri, uri_path};
use crate::shell::{append_chars, digits, push_digits, push_text};
use crate::text::utf8;
use vstd::utf8::decode_utf8;
use crate::vim::engine::{chars_of, string_of};

verus! {

broadcast use {
    vstd::utf8::encode_utf8_valid_utf8,
    vstd::utf8::encode_utf8_decode_utf8,
};

/// What the editor reads of a message from the server: its `id` as an
/// integer (if it has one), whether it has an `id` at all, its `method` (if
/// it is a string) and whether it carries a `result`.
pub struct Incoming {
    pub has_id: bool,
    pub id: Option<i64>,
    pub method: Option<String>,
    pub has_result: bool,
}

/// The ids of the requests that the editor is waiting on.
#[derive(Clone, Copy, Debug, PartialEq, Eq, Structural)]
pub struct Pending {
    pub definition: Option<i64>,
    pub hover: Option<i64>,
    pub completion: Option<i64>,
}

/// What a message from the server is to the editor.
#[derive(Clone, Copy, Debug, PartialEq, Eq, Structural)]
pub enum Dispatch {
    /// A request of the server, to be answered.
    Request,
    /// The answer to `initialize`.
    Initialized,
    /// Diagnostics for a file.
    Diagnostics,
    /// The answer to the pending definition request.
    Definition,
    /// The answer to the pending hover request.
    Hover,
    /// The answer to the pending completion request.
    Completion,
    /// Nothing the editor waits for.
    Ignore,
}

/// The method that carries diagnostics.
pub open spec fn diagnostics_method() -> Seq<char> {
    "textDocument/publishDiagnostics"@
}

/// What a message is: a request when it has an id and a method, the
/// answer to `initialize` when its id is 1 and it has a result,
/// diagnostics by their method, else the answer to whichever pending
/// request has its id (definition before hover before completion).
pub open spec fn dispatch_of(m: Incoming, p: Pending) -> Dispatch {
    if m.has_id && m.method is Some {
        Dispatch::Request
    } else if m.id == Some(1i64) && m.has_result {
        Dispatch::Initialized
    } else if m.method matches Some(s) && s@ == diagnostics_method() {
        Dispatch::Diagnostics
    } else if p.definition is Some && m.id == p.definition {
        Dispatch::Definition
    } else if p.hover is Some && m.id == p.hover {
        Dispatch::Hover
    } else if p.completion is Some && m.id == p.completion {
        Dispatch::Completion
    } else {
        Dispatch::Ignore
    }
}

fn same_str(s: &str, t: &str) -> (res: bool)
    ensures
        res == (s@ == t@),
{
    let n = s.unicode_len();
    let r = crate::text::spells_chars(s, 0, n, t);
    proof {
        assert(s@.subrange(0, n as int) =~= s@);
    }
    r
}

/// What a message from the server is to the editor.
pub fn dispatch(m: &Incoming, p: &Pending) -> (res: Dispatch)
    ensures
        res == dispatch_of(*m, *p),
{
    if m.has_id && m.method.is_some() {
        return Dispatch::Request;
    }
    if m.id == Some(1i64) && m.has_result {
        return Dispatch::Initialized;
    }
    if let Some(s) = &m.method {
        if same_str(s.as_str(), "textDocument/publishDiagnostics") {
            return Dispatch::Diagnostics;
        }
    }
    if p.definition.is_some() && m.id == p.definition {
        Dispatch::Definition
    } else if p.hover.is_some() && m.id == p.hover {
        Dispatch::Hover
    } else if p.completion.is_some() && m.id == p.completion {
        Dispatch::Completion
    } else {
        Dispatch::Ignore
    }
}

/// The editor's answer to a request of the server.
#[derive(Clone, Copy, Debug, PartialEq, Eq, Structural)]
pub enum Reply {
    /// An array of this many nulls: no setting is offered.
    Nulls(usize),
    /// `{"applied": false}`: edits are not applied.
    NotApplied,
    /// `null`.
    Null,
}

/// The answer to a request: for `workspace/configuration`, one null per
/// item asked for (none if the items are not an array); for
/// `workspace/applyEdit`, that nothing was applied; else null.
pub open spec fn reply_of(method: Seq<char>, items: Option<usize>) -> Reply {
    if method == "workspace/configuration"@ {
        Reply::Nulls(
            match items {
                Some(n) => n,
                None => 0,
            },
        )
    } else if method == "workspace/applyEdit"@ {
        Reply::NotApplied
    } else {
        Reply::Null
    }
}

/// The answer to a request of the server with `method`, which asks for
/// `items` items when it carries an array of them.
pub fn reply(method: &str, items: Option<usize>) -> (res: Reply)
    ensures
        res == reply_of(method@, items),
{
    if same_str(method, "workspace/configuration") {
        Reply::Nulls(
            match items {
                Some(n) => n,
                None => 0,
            },
        )
    } else if same_str(method, "workspace/applyEdit") {
        Reply::NotApplied
    } else {
        Reply::Null
    }
}

/// Whether diagnostics of a document version are taken: the file must be
/// open with the server (`current` is the version it was sent), and a
/// version older than that one is stale.
pub open spec fn diagnostics_current(current: Option<i64>, version: Option<i64>) -> bool {
    match current {
        None => false,
        Some(c) => match version {
            Some(v) => v >= c,
            None => true,
        },
    }
}

/// Whether diagnostics for a file are taken (see [`diagnostics_current`]).
pub fn takes_diagnostics(current: Option<i64>, version: Option<i64>) -> (res: bool)
    ensures
        res == diagnostics_current(current, version),
{
    match current {
        None => false,
        Some(c) => match version {
            Some(v) => v >= c,
            None => true,
        },
    }
}

/// The first `limit` characters of the first line of a text, if it has a
/// line.
pub open spec fn first_line_prefix(t: Seq<char>, limit: nat) -> Option<Seq<char>> {
    if lines_of(t).len() == 0 {
        None
    } else {
        let l = lines_of(t)[0];
        Some(
            if l.len() <= limit {
                l
            } else {
                l.take(limit as int)
            },
        )
    }
}

fn first_line(text: &str, limit: usize) -> (res: Option<Vec<char>>)
    ensures
        match first_line_prefix(text@, limit as nat) {
            Some(l) => res matches Some(r) && r@ == l,
            None => res is None,
        },
{
    let t = chars_of(text);
    let ls = lines(&t);
    if ls.len() == 0 {
        return None;
    }
    assert(ls@[0]@ == crate::git_commands::texts(ls@)[0]);
    assert(lines_of(text@)[0] == ls@[0]@);
    let l = &ls[0];
    let mut out: Vec<char> = Vec::new();
    let mut k: usize = 0;
    while k < l.len() && k < limit
        invariant
            k <= l@.len(),
            k <= limit,
            out@ == l@.take(k as int),
        decreases l@.len() - k,
    {
        out.push(l[k]);
        k = k + 1;
        assert(out@ =~= l@.take(k as int));
    }
    if l.len() <= limit {
        assert(l@.take(k as int) =~= l@);
    }
    Some(out)
}

/// A diagnostic as the editor lists it: line and column from 1, and the
/// first line of its message, cut to 160 characters.
pub open spec fn diagnostic_hit_of(line: Option<usize>, character: Option<usize>, message: Option<
    Seq<char>,
>) -> Option<(usize, usize, Seq<char>)> {
    match (line, character, message) {
        (Some(l), Some(c), Some(m)) => match first_line_prefix(m, 160) {
            Some(p) => Some(((l + 1) as usize, (c + 1) as usize, p)),
            None => None,
        },
        _ => None,
    }
}

/// A diagnostic as the editor lists it: its start's line and character
/// (counted from 0) and its message; none when one of them is missing or
/// the message has no line.
pub fn diagnostic_hit(line: Option<usize>, character: Option<usize>, message: Option<&str>) -> (res:
    Option<(usize, usize, String)>)
    requires
        line matches Some(l) ==> l < usize::MAX,
        character matches Some(c) ==> c < usize::MAX,
    ensures
        match diagnostic_hit_of(
            line,
            character,
            match message {
                Some(m) => Some(m@),
                None => None,
            },
        ) {
            Some((l, c, p)) => res matches Some(r) && r.0 == l && r.1 == c && r.2@ == p,
            None => res is None,
        },
{
    match (line, character, message) {
        (Some(l), Some(c), Some(m)) => match first_line(m, 160) {
            Some(p) => Some((l + 1, c + 1, string_of(&p))),
            None => None,
        },
        _ => None,
    }
}

/// The status shown after diagnostics for a file arrive.
pub open spec fn diagnostics_status_text(path: Seq<char>, count: nat) -> Seq<char> {
    path + ": "@ + digits(count) + " diagnostic(s)"@
}

/// The status shown after `count` diagnostics for `path` arrive.
pub fn diagnostics_status(path: &str, count: usize) -> (res: String)
    ensures
        res@ == diagnostics_status_text(path@, count as nat),
{
    let mut out: Vec<char> = Vec::new();
    push_text(&mut out, path);
    push_text(&mut out, ": ");
    push_digits(&mut out, count);
    push_text(&mut out, " diagnostic(s)");
    string_of(&out)
}

/// What the editor reads of the location a definition request answers:
/// the `uri` or `targetUri`, whether there is a `range`, and the line and
/// character of the start of the `range` and of the `targetSelectionRange`.
pub struct LocationReply {
    pub uri: Option<String>,
    pub target_uri: Option<String>,
    pub has_range: bool,
    pub range_start: (Option<usize>, Option<usize>),
    pub target_start: (Option<usize>, Option<usize>),
}

/// The UTF-8 bytes of an optional text.
pub open spec fn option_text(s: Option<String>) -> Option<Seq<u8>> {
    match s {
        Some(t) => Some(utf8(t@)),
        None => None,
    }
}

/// Where a definition lies: the path of the `uri` (or else of the
/// `targetUri`), and the start of the `range` (or else of the
/// `targetSelectionRange`) with line and column counted from 1.
pub open spec fn definition_place(r: LocationReply) -> Option<(Seq<u8>, usize, usize)> {
    let uri = if r.uri is Some {
        option_text(r.uri)
    } else {
        option_text(r.target_uri)
    };
    let start = if r.has_range {
        r.range_start
    } else {
        r.target_start
    };
    match (uri, start.0, start.1) {
        (Some(u), Some(l), Some(c)) => match uri_path(u) {
            Some(p) => Some((p, (l + 1) as usize, (c + 1) as usize)),
            None => None,
        },
        _ => None,
    }
}

/// Where a definition lies, as a path and a line and column from 1; none
/// when the answer names no file place (the editor then searches itself).
pub fn definition_target(r: &LocationReply) -> (res: Option<(String, usize, usize)>)
    requires
        r.range_start.0 matches Some(l) ==> l < usize::MAX,
        r.range_start.1 matches Some(c) ==> c < usize::MAX,
        r.target_start.0 matches Some(l) ==> l < usize::MAX,
        r.target_start.1 matches Some(c) ==> c < usize::MAX,
    ensures
        match definition_place(*r) {
            Some((p, l, c)) => res matches Some(x) && utf8(x.0@) == p && x.1 == l && x.2 == c,
            None => res is None,
        },
{
    let uri = if r.uri.is_some() {
        &r.uri
    } else {
        &r.target_uri
    };
    let start = if r.has_range {
        r.range_start
    } else {
        r.target_start
    };
    match (uri, start.0, start.1) {
        (Some(u), Some(l), Some(c)) => match path_from_uri(u.as_str()) {
            Some(p) => Some((p, l + 1, c + 1)),
            None => None,
        },
        _ => None,
    }
}

/// The status a hover answer leaves: the first 240 characters of the first
/// line of its text (nothing when the text has no line), or a note when
/// the answer has no text.
pub open spec fn hover_text(text: Option<Seq<char>>) -> Seq<char> {
    match text {
        Some(t) => match first_line_prefix(t, 240) {
            Some(l) => l,
            None => Seq::empty(),
        },
        None => "No hover information"@,
    }
}

/// The status a hover answer leaves (see [`hover_text`]).
pub fn hover_status(text: Option<&str>) -> (res: String)
    ensures
        res@ == hover_text(
            match text {
                Some(t) => Some(t@),
                None => None,
            },
        ),
{
    match text {
        Some(t) => match first_line(t, 240) {
            Some(l) => string_of(&l),
            None => String::new(),
        },
        None => String::from_str("No hover information"),
    }
}

/// What the editor reads of a completion item: its `label`, the new text
/// of its `textEdit` and its `insertText`, each where it is a string.
pub struct CompletionItem {
    pub label: Option<String>,
    pub edit_text: Option<String>,
    pub insert_text: Option<String>,
}

/// A completion item as a label and the text it inserts: the edit's text,
/// else the insert text, else the label; none without a label, or when the
/// text holds a `$` (a snippet).
pub open spec fn choice_of(item: CompletionItem) -> Option<(Seq<char>, Seq<char>)> {
    match item.label {
        None => None,
        Some(label) => {
            let insert = match item.edit_text {
                Some(e) => e@,
                None => match item.insert_text {
                    Some(i) => i@,
                    None => label@,
                },
            };
            if insert.contains('$') {
                None
            } else {
                Some((label@, insert))
            }
        },
    }
}

/// The choices of the first `n` items, in order.
pub open spec fn choices_of(items: Seq<CompletionItem>, n: int) -> Seq<(Seq<char>, Seq<char>)>
    decreases n,
{
    if n <= 0 {
        Seq::empty()
    } else {
        match choice_of(items[n - 1]) {
            Some(c) => choices_of(items, n - 1).push(c),
            None => choices_of(items, n - 1),
        }
    }
}

/// The completions offered: the choices of the items, at most 100.
pub open spec fn completions_of(items: Seq<CompletionItem>) -> Seq<(Seq<char>, Seq<char>)> {
    let all = choices_of(items, items.len() as int);
    if all.len() <= 100 {
        all
    } else {
        all.take(100)
    }
}

/// Pairs of strings as pairs of texts.
pub open spec fn pair_views(v: Seq<(String, String)>) -> Seq<(Seq<char>, Seq<char>)> {
    Seq::new(v.len(), |k: int| (v[k].0@, v[k].1@))
}

fn has_dollar(s: &Vec<char>) -> (res: bool)
    ensures
        res == s@.contains('$'),
{
    let mut k: usize = 0;
    while k < s.len()
        invariant
            k <= s@.len(),
            forall|j: int| 0 <= j < k ==> s@[j] != '$',
        decreases s@.len() - k,
    {
        if s[k] == '$' {
            assert(s@[k as int] == '$');
            return true;
        }
        k = k + 1;
    }
    false
}

fn choice(item: &CompletionItem) -> (res: Option<(String, String)>)
    ensures
        match choice_of(*item) {
            Some((l, i)) => res matches Some(r) && r.0@ == l && r.1@ == i,
            None => res is None,
        },
{
    let label = match &item.label {
        None => {
            return None;
        },
        Some(l) => l,
    };
    let insert = match &item.edit_text {
        Some(e) => chars_of(e.as_str()),
        None => match &item.insert_text {
            Some(i) => chars_of(i.as_str()),
            None => chars_of(label.as_str()),
        },
    };
    if has_dollar(&insert) {
        None
    } else {
        let mut l: Vec<char> = Vec::new();
        append_chars(&mut l, &chars_of(label.as_str()));
        Some((string_of(&l), string_of(&insert)))
    }
}

/// The completions offered for the items of an answer (see
/// [`completions_of`]).
pub fn completions(items: &Vec<CompletionItem>) -> (res: Vec<(String, String)>)
    ensures
        pair_views(res@) == completions_of(items@),
{
    let mut out: Vec<(String, String)> = Vec::new();
    let mut k: usize = 0;
    while k < items.len() && out.len() < 100
        invariant
            k <= items@.len(),
            out@.len() <= 100,
            pair_views(out@) == choices_of(items@, k as int),
        decreases items@.len() - k,
    {
        let ghost before = pair_views(out@);
        match choice(&items[k]) {
            Some(c) => {
                out.push(c);
                assert(pair_views(out@) =~= before.push((c.0@, c.1@)));
            },
            None => {},
        }
        k = k + 1;
    }
    proof {
        lemma_choices_grow(items@, k as int, items@.len() as int);
        let all = choices_of(items@, items@.len() as int);
        if out@.len() >= 100 {
            assert(all.take(100) =~= pair_views(out@));
            if all.len() <= 100 {
                assert(all.take(100) =~= all);
            }
        }
    }
    out
}

/// The choices of more items begin with those of fewer.
pub proof fn lemma_choices_grow(items: Seq<CompletionItem>, m: int, n: int)
    requires
        0 <= m <= n,
    ensures
        choices_of(items, m).len() <= choices_of(items, n).len(),
        choices_of(items, n).take(choices_of(items, m).len() as int) == choices_of(items, m),
    decreases n - m,
{
    if m < n {
        lemma_choices_grow(items, m, n - 1);
        let a = choices_of(items, m);
        let b = choices_of(items, n - 1);
        match choice_of(items[n - 1]) {
            Some(c) => {
                assert(b.push(c).take(a.len() as int) =~= b.take(a.len() as int));
            },
            None => {},
        }
    } else {
        assert(choices_of(items, n).take(choices_of(items, n).len() as int) =~= choices_of(items, n));
    }
}

/// Whether a completion's label matches what was typed (see
/// [`crate::search::rank`]).
pub open spec fn label_ranks(label: Seq<char>, query: Seq<char>) -> bool {
    crate::search::rank_spec(utf8(crate::search::lowercased(label)), utf8(crate::search::lowercased(query))) is Some
}

/// The indices of the first `n` completions whose label matches the query,
/// in order.
pub open spec fn matching_completions(c: Seq<(String, String)>, query: Seq<char>, n: int) -> Seq<usize>
    decreases n,
{
    if n <= 0 {
        Seq::empty()
    } else if label_ranks(c[n - 1].0@, query) {
        matching_completions(c, query, n - 1).push((n - 1) as usize)
    } else {
        matching_completions(c, query, n - 1)
    }
}

/// The completions listed for what was typed: the first 30 whose label
/// matches it, in the server's order.
pub fn ranked_completions(completions: &Vec<(String, String)>, query: &str) -> (res: Vec<usize>)
    ensures
        res@ == crate::search::first(
            matching_completions(completions@, query@, completions@.len() as int),
            30,
        ),
{
    let mut out: Vec<usize> = Vec::new();
    let mut k: usize = 0;
    while k < completions.len() && out.len() < 30
        invariant
            k <= completions@.len(),
            out@.len() <= 30,
            out@ == matching_completions(completions@, query@, k as int),
        decreases completions@.len() - k,
    {
        if crate::search::rank(completions[k].0.as_str(), query).is_some() {
            out.push(k);
        }
        k = k + 1;
    }
    proof {
        lemma_matching_grow(completions@, query@, k as int, completions@.len() as int);
        let all = matching_completions(completions@, query@, completions@.len() as int);
        if out@.len() >= 30 {
            assert(all.subrange(0, 30) =~= out@);
        }
    }
    out
}

/// The matches among more completions begin with those among fewer.
pub proof fn lemma_matching_grow(c: Seq<(String, String)>, query: Seq<char>, m: int, n: int)
    requires
        0 <= m <= n,
    ensures
        matching_completions(c, query, m).len() <= matching_completions(c, query, n).len(),
        matching_completions(c, query, n).take(matching_completions(c, query, m).len() as int)
            == matching_completions(c, query, m),
    decreases n - m,
{
    if m < n {
        lemma_matching_grow(c, query, m, n - 1);
        let a = matching_completions(c, query, m);
        let b = matching_completions(c, query, n - 1);
        if label_ranks(c[n - 1].0@, query) {
            assert(b.push((n - 1) as usize).take(a.len() as int) =~= b.take(a.len() as int));
        }
    } else {
        assert(matching_completions(c, query, n).take(matching_completions(c, query, n).len() as int)
            =~= matching_completions(c, query, n));
    }
}

/// Where the word characters that end at `k` start.
pub open spec fn word_start(p: Seq<char>, k: int) -> int
    decreases k,
{
    if k > 0 && k <= p.len() && crate::vim::buffer::word_char(p[k - 1]) {
        word_start(p, k - 1)
    } else {
        k
    }
}

/// The UTF-16 range that a chosen completion replaces in a text whose
/// bytes are `b`, with the cursor at byte `cursor`: the word characters
/// (alphanumeric or `_`) right before the cursor. None when the cursor is
/// inside a character.
pub open spec fn completion_span(b: Seq<u8>, cursor: int) -> Option<(int, int)> {
    let end = if cursor < b.len() {
        cursor
    } else {
        b.len() as int
    };
    if !crate::text::boundary(b, end) {
        None
    } else {
        let p = decode_utf8(b.subrange(0, end));
        Some(
            (
                crate::search::utf16_len(utf8(p.take(word_start(p, p.len() as int)))),
                crate::search::utf16_len(b.subrange(0, end)),
            ),
        )
    }
}

/// The UTF-16 range that a chosen completion replaces (see
/// [`completion_span`]).
pub fn completion_range(source: &str, cursor: usize) -> (res: Option<(usize, usize)>)
    ensures
        match completion_span(utf8(source@), cursor as int) {
            Some((a, e)) => res matches Some(r) && r.0 == a && r.1 == e,
            None => res is None,
        },
{
    let b = source.as_bytes();
    proof {
        assert(b@ == utf8(source@));
    }
    let end = if cursor < b.len() {
        cursor
    } else {
        b.len()
    };
    if !crate::text::is_boundary(b, end) {
        return None;
    }
    let (head, _) = source.split_at(end);
    proof {
        assert(utf8(head@) =~= b@.subrange(0, end as int));
    }
    let p = chars_of(head);
    let mut k = p.len();
    while k > 0 && crate::vim::buffer::is_word_char(p[k - 1])
        invariant
            k <= p@.len(),
            word_start(p@, k as int) == word_start(p@, p@.len() as int),
        decreases k,
    {
        k = k - 1;
    }
    let mut word_free: Vec<char> = Vec::new();
    let mut j: usize = 0;
    while j < k
        invariant
            j <= k <= p@.len(),
            word_free@ == p@.take(j as int),
        decreases k - j,
    {
        word_free.push(p[j]);
        j = j + 1;
        assert(word_free@ =~= p@.take(j as int));
    }
    let before = string_of(&word_free);
    let pb = before.as_str().as_bytes();
    proof {
        assert(pb@.subrange(0, pb@.len() as int) =~= pb@);
        assert(b@.subrange(0, end as int).subrange(0, end as int) =~= b@.subrange(0, end as int));
        vstd::utf8::is_char_boundary_start_end_of_seq(b@);
        crate::text::lemma_valid_between(b@, 0, end as int);
        assert(b@.subrange(0, end as int) =~= b@.subrange(0, end as int));
    }
    let a = crate::search::utf16_count(pb, 0, pb.len());
    let e = crate::search::utf16_count(b, 0, end);
    Some((a, e))
}

} // verus!
