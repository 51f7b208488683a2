//! Ranking the places that may define a name: the languages that share
//! definitions, and how near a file lies to the one being read.

use vstd::prelude::*;
use crate::text::{utf8, same_bytes, spells_chars, boundary, string_between};
use crate::paths::{components, components_of, parent, byte_views};

verus! {

/// The languages of the script family, which share their definitions.
pub open spec fn script_language(l: Seq<char>) -> bool {
    l == "javascript"@ || l == "jsx"@ || l == "typescript"@ || l == "tsx"@
}

fn is_script(l: &str) -> (res: bool)
    ensures
        res == script_language(l@),
{
    let n = l.unicode_len();
    proof {
        assert(l@.subrange(0, n as int) =~= l@);
    }
    spells_chars(l, 0, n, "javascript") || spells_chars(l, 0, n, "jsx") || spells_chars(
        l,
        0,
        n,
        "typescript",
    ) || spells_chars(l, 0, n, "tsx")
}

/// Whether a definition in language `b` can answer a name in language
/// `a`: the same language, or both of the script family.
pub fn same_family(a: &str, b: &str) -> (res: bool)
    ensures
        res == (a@ == b@ || (script_language(a@) && script_language(b@))),
{
    let n = a.unicode_len();
    proof {
        assert(a@.subrange(0, n as int) =~= a@);
    }
    spells_chars(a, 0, n, b) || (is_script(a) && is_script(b))
}

/// How many components `a` and `b` share from their start.
pub open spec fn common_prefix(a: Seq<Seq<u8>>, b: Seq<Seq<u8>>) -> nat
    decreases a.len(),
{
    if a.len() == 0 || b.len() == 0 || a[0] != b[0] {
        0
    } else {
        1 + common_prefix(a.drop_first(), b.drop_first())
    }
}

/// How many leading components the directory of `origin` shares with
/// `path` (none without an origin or a directory).
pub open spec fn shared_with(origin: Option<Seq<char>>, path: Seq<char>) -> nat {
    match origin {
        None => 0,
        Some(o) => match parent(components(utf8(o))) {
            None => 0,
            Some(d) => common_prefix(d, components(utf8(path))),
        },
    }
}

proof fn lemma_common_prefix_step(a: Seq<Seq<u8>>, b: Seq<Seq<u8>>, k: int)
    requires
        0 <= k < a.len(),
        k < b.len(),
        forall|j: int| 0 <= j <= k ==> a[j] == b[j],
    ensures
        common_prefix(a, b) == k + 1 + common_prefix(a.skip(k + 1), b.skip(k + 1)),
    decreases k,
{
    assert(a[0] == b[0]);
    if k > 0 {
        lemma_common_prefix_step(a.drop_first(), b.drop_first(), k - 1);
        assert(a.drop_first().skip(k) =~= a.skip(k + 1));
        assert(b.drop_first().skip(k) =~= b.skip(k + 1));
    } else {
        assert(a.drop_first() =~= a.skip(1));
        assert(b.drop_first() =~= b.skip(1));
    }
}

/// How near `path` lies to `origin` (see [`shared_with`]).
pub fn shared_components(origin: Option<&str>, path: &str) -> (res: usize)
    ensures
        res == shared_with(
            match origin {
                Some(o) => Some(o@),
                None => None,
            },
            path@,
        ),
{
    let o = match origin {
        Some(o) => o,
        None => {
            return 0;
        },
    };
    let from = components_of(o);
    let ghost fc = byte_views(from@);
    let n = from.len();
    if n == 0 || same_bytes(from[n - 1].as_slice(), &[47u8]) {
        proof {
            if n > 0 {
                assert(fc.last() == from@[n - 1]@);
                assert(seq![47u8] =~= [47u8]@);
            }
        }
        return 0;
    }
    proof {
        assert(fc.last() == from@[n - 1]@);
        assert([47u8]@ =~= seq![47u8]);
    }
    let dir = n - 1;
    let to = components_of(path);
    let ghost d = fc.drop_last();
    let ghost pc = byte_views(to@);
    let mut k: usize = 0;
    assert(d.skip(0) =~= d);
    assert(pc.skip(0) =~= pc);
    while k < dir && k < to.len() && same_bytes(from[k].as_slice(), to[k].as_slice())
        invariant
            k <= dir,
            dir + 1 == from@.len(),
            d == byte_views(from@).drop_last(),
            pc == byte_views(to@),
            k <= pc.len(),
            forall|j: int| 0 <= j < k ==> d[j] == pc[j],
            common_prefix(d, pc) == k + common_prefix(d.skip(k as int), pc.skip(k as int)),
        decreases dir - k,
    {
        proof {
            assert(d[k as int] == from@[k as int]@);
            assert(pc[k as int] == to@[k as int]@);
            lemma_common_prefix_step(d, pc, k as int);
        }
        k = k + 1;
    }
    proof {
        if k < dir && k < to.len() {
            assert(d.skip(k as int)[0] == from@[k as int]@);
            assert(pc.skip(k as int)[0] == to@[k as int]@);
        } else if k == dir {
            assert(d.skip(k as int).len() == 0);
        } else {
            assert(pc.skip(k as int).len() == 0);
        }
        assert(common_prefix(d.skip(k as int), pc.skip(k as int)) == 0);
        assert(parent(byte_views(from@)) == Some(d));
    }
    k
}


/// How a name is defined: a local binding, an import, or an item.
#[derive(Clone, Copy, Debug, PartialEq, Eq, Structural)]
pub enum DefinitionKind {
    Local,
    Import,
    Item,
}

/// A name defined in a source file: its byte range, how it is defined,
/// whether it is a member (a field or method), the scope it is defined in
/// and how deeply that scope is nested, and where it becomes visible.
#[derive(Clone, Copy, Debug, PartialEq, Eq, Structural)]
pub struct Definition {
    pub start: usize,
    pub end: usize,
    pub kind: DefinitionKind,
    pub member: bool,
    pub scope: usize,
    pub depth: usize,
    pub visible_from: usize,
}

/// Whether a definition can answer a reference: a member reference
/// takes anything but a local, a plain reference anything but a member.
pub open spec fn accepts_spec(d: Definition, member: bool) -> bool {
    if member {
        d.kind != DefinitionKind::Local
    } else {
        !d.member
    }
}

impl Definition {
    /// Whether this definition can answer a reference (see
    /// [`accepts_spec`]).
    pub fn accepts(&self, member: bool) -> (res: bool)
        ensures
            res == accepts_spec(*self, member),
    {
        if member {
            self.kind != DefinitionKind::Local
        } else {
            !self.member
        }
    }
}

/// Where going to a definition leads: a place in the same file, or a
/// search of the workspace for a name (with a place to fall back on).
#[derive(Clone, Debug, PartialEq, Eq)]
pub enum Lookup {
    Found(usize, usize),
    Search { name: String, member: bool, fallback: Option<(usize, usize)> },
}

/// The bytes a definition names.
pub open spec fn named_text(src: Seq<u8>, d: Definition) -> Seq<u8> {
    src.subrange(d.start as int, d.end as int)
}

/// Whether a definition could be what a reference to `name` means.
pub open spec fn candidate(src: Seq<u8>, d: Definition, name: Seq<u8>, member: bool) -> bool {
    d.start <= d.end <= src.len() && named_text(src, d) == name && accepts_spec(d, member)
}

/// Whether a candidate is in sight of a reference at `start`: no import,
/// defined in a scope around the reference, and visible by then.
pub open spec fn in_sight(d: Definition, enclosing: Seq<usize>, start: int) -> bool {
    d.kind != DefinitionKind::Import && enclosing.contains(d.scope) && d.visible_from <= start
}

/// Whether `a` is nearer than `b` or as near: the deeper scope, then the
/// later visibility, then the later name.
pub open spec fn at_least_as_near(a: Definition, b: Definition) -> bool {
    a.depth > b.depth || (a.depth == b.depth && (a.visible_from > b.visible_from || (
    a.visible_from == b.visible_from && a.start >= b.start)))
}

/// Among `defs[..k]`, the nearest candidate in sight (the last of the
/// nearest ones).
pub open spec fn nearest(
    src: Seq<u8>,
    defs: Seq<Definition>,
    k: int,
    name: Seq<u8>,
    member: bool,
    enclosing: Seq<usize>,
    start: int,
) -> Option<int>
    decreases k,
{
    if k <= 0 {
        None
    } else {
        let before = nearest(src, defs, k - 1, name, member, enclosing, start);
        let d = defs[k - 1];
        if candidate(src, d, name, member) && in_sight(d, enclosing, start) && match before {
            None => true,
            Some(b) => at_least_as_near(d, defs[b]),
        } {
            Some(k - 1)
        } else {
            before
        }
    }
}

/// The first of `defs` from `i` on that is a candidate of kind `kind`.
pub open spec fn first_of_kind(
    src: Seq<u8>,
    defs: Seq<Definition>,
    i: int,
    name: Seq<u8>,
    member: bool,
    kind: DefinitionKind,
) -> Option<int>
    decreases defs.len() - i,
{
    if i < 0 || i >= defs.len() {
        None
    } else if candidate(src, defs[i], name, member) && defs[i].kind == kind {
        Some(i)
    } else {
        first_of_kind(src, defs, i + 1, name, member, kind)
    }
}

/// The first definition from `i` on that names exactly `start..end`.
pub open spec fn defining(defs: Seq<Definition>, i: int, start: int, end: int) -> Option<int>
    decreases defs.len() - i,
{
    if i < 0 || i >= defs.len() {
        None
    } else if defs[i].start == start && defs[i].end == end {
        Some(i)
    } else {
        defining(defs, i + 1, start, end)
    }
}

/// A search of the workspace: the name, whether it is a member, and a
/// place to fall back on.
pub open spec fn search_of(name: Seq<u8>, member: bool, fallback: Option<(usize, usize)>) -> (Seq<u8>, bool, Option<(usize, usize)>) {
    (name, member, fallback)
}

/// What a lookup gives, as plain values: a place, or a search.
pub enum LookupView {
    Found(usize, usize),
    Search(Seq<u8>, bool, Option<(usize, usize)>),
}

/// Where the reference at `start..end` of `src` leads, given the file's
/// definitions, whether the reference is to a member and the scopes
/// around it: a definition itself leads nowhere (an import to a search
/// for its name); otherwise the nearest definition in sight, else an
/// import's search (falling back on the import), else an item of that
/// name, else a search.
pub open spec fn lookup_of(
    src: Seq<u8>,
    defs: Seq<Definition>,
    start: int,
    end: int,
    member: bool,
    enclosing: Seq<usize>,
) -> Option<LookupView> {
    let name = src.subrange(start, end);
    match defining(defs, 0, start, end) {
        Some(i) => if defs[i].kind == DefinitionKind::Import {
            Some(LookupView::Search(name, false, None))
        } else {
            None
        },
        None => match nearest(src, defs, defs.len() as int, name, member, enclosing, start) {
            Some(i) => Some(LookupView::Found(defs[i].start, defs[i].end)),
            None => match first_of_kind(src, defs, 0, name, member, DefinitionKind::Import) {
                Some(i) => Some(LookupView::Search(name, member, Some((defs[i].start, defs[i].end)))),
                None => match first_of_kind(src, defs, 0, name, member, DefinitionKind::Item) {
                    Some(i) => Some(LookupView::Found(defs[i].start, defs[i].end)),
                    None => Some(LookupView::Search(name, member, None)),
                },
            },
        },
    }
}

/// A lookup as plain values.
pub open spec fn lookup_view(l: Lookup) -> LookupView {
    match l {
        Lookup::Found(a, b) => LookupView::Found(a, b),
        Lookup::Search { name, member, fallback } => LookupView::Search(utf8(name@), member, fallback),
    }
}

proof fn lemma_nearest_bounds(
    src: Seq<u8>,
    defs: Seq<Definition>,
    k: int,
    name: Seq<u8>,
    member: bool,
    enclosing: Seq<usize>,
    start: int,
)
    ensures
        nearest(src, defs, k, name, member, enclosing, start) matches Some(b) ==> 0 <= b < k,
    decreases k,
{
    if k > 0 {
        lemma_nearest_bounds(src, defs, k - 1, name, member, enclosing, start);
    }
}

proof fn lemma_first_of_kind_bounds(
    src: Seq<u8>,
    defs: Seq<Definition>,
    i: int,
    name: Seq<u8>,
    member: bool,
    kind: DefinitionKind,
)
    ensures
        first_of_kind(src, defs, i, name, member, kind) matches Some(j) ==> i <= j < defs.len(),
    decreases defs.len() - i,
{
    if 0 <= i < defs.len() && !(candidate(src, defs[i], name, member) && defs[i].kind == kind) {
        lemma_first_of_kind_bounds(src, defs, i + 1, name, member, kind);
    }
}

fn is_candidate(src: &[u8], d: &Definition, name: &[u8], member: bool) -> (res: bool)
    ensures
        res == candidate(src@, *d, name@, member),
{
    if !(d.start <= d.end && d.end <= src.len()) {
        return false;
    }
    let slice = &src[d.start..d.end];
    same_bytes(slice, name) && d.accepts(member)
}

fn contains_scope(enclosing: &[usize], scope: usize) -> (res: bool)
    ensures
        res == enclosing@.contains(scope),
{
    let mut k: usize = 0;
    while k < enclosing.len()
        invariant
            k <= enclosing@.len(),
            forall|j: int| 0 <= j < k ==> enclosing@[j] != scope,
        decreases enclosing@.len() - k,
    {
        if enclosing[k] == scope {
            assert(enclosing@[k as int] == scope);
            return true;
        }
        k = k + 1;
    }
    false
}

fn nearer(a: &Definition, b: &Definition) -> (res: bool)
    ensures
        res == at_least_as_near(*a, *b),
{
    a.depth > b.depth || (a.depth == b.depth && (a.visible_from > b.visible_from || (
    a.visible_from == b.visible_from && a.start >= b.start)))
}

fn first_kind(src: &[u8], defs: &[Definition], name: &[u8], member: bool, kind: DefinitionKind) -> (res: Option<usize>)
    ensures
        res == match first_of_kind(src@, defs@, 0, name@, member, kind) {
            Some(i) => Some(i as usize),
            None => None::<usize>,
        },
        res matches Some(i) ==> i < defs@.len(),
        first_of_kind(src@, defs@, 0, name@, member, kind) matches Some(i) ==> 0 <= i < defs@.len(),
{
    proof {
        lemma_first_of_kind_bounds(src@, defs@, 0, name@, member, kind);
    }
    let mut i: usize = 0;
    while i < defs.len()
        invariant
            i <= defs@.len(),
            first_of_kind(src@, defs@, i as int, name@, member, kind) == first_of_kind(
                src@,
                defs@,
                0,
                name@,
                member,
                kind,
            ),
        decreases defs@.len() - i,
    {
        if is_candidate(src, &defs[i], name, member) && defs[i].kind == kind {
            return Some(i);
        }
        i = i + 1;
    }
    None
}

/// Where the reference at `start..end` of `source` leads (see
/// [`lookup_of`]); the definitions, the member flag and the enclosing
/// scopes come from the file's syntax tree.
pub fn lookup(
    source: &str,
    definitions: &[Definition],
    start: usize,
    end: usize,
    member: bool,
    enclosing: &[usize],
) -> (res: Option<Lookup>)
    requires
        start <= end <= utf8(source@).len(),
        boundary(utf8(source@), start as int),
        boundary(utf8(source@), end as int),
    ensures
        match lookup_of(utf8(source@), definitions@, start as int, end as int, member, enclosing@) {
            Some(v) => res matches Some(l) && lookup_view(l) == v,
            None => res is None,
        },
{
    let src = source.as_bytes();
    proof {
        vstd::utf8::encode_utf8_valid_utf8(source@);
    }
    let name_text = string_between(src, start, end);
    let name = &src[start..end];
    assert(src@ == utf8(source@));
    let mut i: usize = 0;
    while i < definitions.len()
        invariant
            i <= definitions@.len(),
            src@ == utf8(source@),
            utf8(name_text@) == src@.subrange(start as int, end as int),
            defining(definitions@, i as int, start as int, end as int) == defining(
                definitions@,
                0,
                start as int,
                end as int,
            ),
        decreases definitions@.len() - i,
    {
        if definitions[i].start == start && definitions[i].end == end {
            if definitions[i].kind == DefinitionKind::Import {
                return Some(Lookup::Search { name: name_text, member: false, fallback: None });
            }
            return None;
        }
        i = i + 1;
    }
    let mut best: Option<usize> = None;
    let mut k: usize = 0;
    while k < definitions.len()
        invariant
            k <= definitions@.len(),
            src@ == utf8(source@),
            utf8(name_text@) == src@.subrange(start as int, end as int),
            defining(definitions@, 0, start as int, end as int) is None,
            nearest(src@, definitions@, k as int, name@, member, enclosing@, start as int) matches Some(b) ==> 0 <= b < k,
            name@ == src@.subrange(start as int, end as int),
            best == match nearest(src@, definitions@, k as int, name@, member, enclosing@, start as int) {
                Some(b) => Some(b as usize),
                None => None::<usize>,
            },
            best matches Some(b) ==> b < k,
        decreases definitions@.len() - k,
    {
        proof {
            lemma_nearest_bounds(src@, definitions@, k + 1, name@, member, enclosing@, start as int);
        }
        let d = &definitions[k];
        if is_candidate(src, d, name, member) && d.kind != DefinitionKind::Import && contains_scope(
            enclosing,
            d.scope,
        ) && d.visible_from <= start {
            let take = match best {
                None => true,
                Some(b) => nearer(d, &definitions[b]),
            };
            if take {
                best = Some(k);
            }
        }
        k = k + 1;
    }
    if let Some(b) = best {
        return Some(Lookup::Found(definitions[b].start, definitions[b].end));
    }
    match first_kind(src, definitions, name, member, DefinitionKind::Import) {
        Some(j) => {
            return Some(
                Lookup::Search {
                    name: name_text,
                    member,
                    fallback: Some((definitions[j].start, definitions[j].end)),
                },
            );
        },
        None => {},
    }
    match first_kind(src, definitions, name, member, DefinitionKind::Item) {
        Some(j) => Some(Lookup::Found(definitions[j].start, definitions[j].end)),
        None => Some(Lookup::Search { name: name_text, member, fallback: None }),
    }
}

} // verus!
