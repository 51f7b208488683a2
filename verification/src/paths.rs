//! Paths as Unix `std::path::Path` reads them: as a list of components.
//!
//! Two paths are equal when their components are, one path starts with
//! another when the other's components begin its own, and the parent and
//! the file name are read from the last component.

use vstd::prelude::*;

use crate::git::{find_at, lemma_find_at};
use crate::text::utf8;

verus! {

broadcast use {vstd::utf8::encode_utf8_valid_utf8, vstd::utf8::decode_utf8_encode_utf8};

/// The components of `p[i..]` after the first: pieces between `/`, empty
/// and `.` pieces left out.
pub open spec fn pieces_from(p: Seq<u8>, i: int) -> Seq<Seq<u8>>
    decreases p.len() + 1 - i,
{
    if i < 0 || i > p.len() {
        Seq::empty()
    } else {
        let j = find_at(p, 47, i, p.len() as int);
        let piece = p.subrange(i, j);
        let rest = if j >= p.len() {
            Seq::empty()
        } else {
            proof {
                lemma_find_at(p, 47, i, p.len() as int);
            }
            pieces_from(p, j + 1)
        };
        if piece.len() == 0 || piece == seq![46u8] {
            rest
        } else {
            seq![piece] + rest
        }
    }
}

/// The components of a path: `/` for the root when it starts with one, `.`
/// when it starts with a `.` piece, then its other pieces (see
/// [`pieces_from`]).
pub open spec fn components(p: Seq<u8>) -> Seq<Seq<u8>> {
    if p.len() > 0 && p[0] == 47 {
        seq![seq![47u8]] + pieces_from(p, 1)
    } else if p.len() > 0 && p[0] == 46 && (p.len() == 1 || p[1] == 47) {
        seq![seq![46u8]] + pieces_from(p, 1)
    } else {
        pieces_from(p, 0)
    }
}

/// Whether a component is an ordinary name (not the root, `.` or `..`).
pub open spec fn normal(c: Seq<u8>) -> bool {
    c != seq![47u8] && c != seq![46u8] && c != seq![46u8, 46u8]
}

/// Whether `a` begins with the components of `b`.
pub open spec fn starts_with(a: Seq<Seq<u8>>, b: Seq<Seq<u8>>) -> bool {
    b.len() <= a.len() && a.subrange(0, b.len() as int) == b
}

/// The components of the parent of a path: all but the last, unless the
/// last is the root (or there is none).
pub open spec fn parent(c: Seq<Seq<u8>>) -> Option<Seq<Seq<u8>>> {
    if c.len() == 0 || c.last() == seq![47u8] {
        None
    } else {
        Some(c.drop_last())
    }
}

/// The views of a list of byte strings.
pub open spec fn byte_views(v: Seq<Vec<u8>>) -> Seq<Seq<u8>> {
    Seq::new(v.len(), |k: int| v[k]@)
}

/// The pieces of `p[i..]` (see [`pieces_from`]), after `out`.
pub fn push_pieces(p: &[u8], i: usize, out: &mut Vec<Vec<u8>>)
    requires
        i <= p@.len(),
    ensures
        byte_views(final(out)@) == byte_views(old(out)@) + pieces_from(p@, i as int),
{
    let n = p.len();
    let ghost start = byte_views(out@);
    let mut k = i;
    assert(byte_views(out@) + pieces_from(p@, k as int) =~= start + pieces_from(p@, i as int));
    loop
        invariant
            k <= n == p@.len(),
            start == byte_views(old(out)@),
            byte_views(out@) + pieces_from(p@, k as int) == start + pieces_from(p@, i as int),
        decreases n - k,
    {
        let j = crate::git::find_byte(p, 47, k, n);
        let ghost before = byte_views(out@);
        let len = j - k;
        let is_dot = len == 1 && p[k] == 46;
        if len > 0 && !is_dot {
            let mut piece: Vec<u8> = Vec::new();
            crate::text::push_range(&mut piece, p, k, j);
            assert(piece@ =~= p@.subrange(k as int, j as int));
            out.push(piece);
        }
        proof {
            let piece = p@.subrange(k as int, j as int);
            assert(is_dot == (piece == seq![46u8])) by {
                if piece == seq![46u8] {
                    assert(piece[0] == p@[k as int]);
                }
                if is_dot {
                    assert(piece =~= seq![46u8]);
                }
            }
            let now = byte_views(out@);
            if len > 0 && !is_dot {
                assert(now =~= before + seq![piece]);
            } else {
                assert(now =~= before);
            }
        }
        if j >= n {
            proof {
                let now = byte_views(out@);
                assert(now + Seq::<Seq<u8>>::empty() =~= now);
            }
            return;
        }
        k = j + 1;
        proof {
            let now = byte_views(out@);
            assert(now + pieces_from(p@, k as int) =~= before + pieces_from(p@, (j - len) as int));
        }
    }
}

/// The components of a path.
pub fn components_of(path: &str) -> (res: Vec<Vec<u8>>)
    ensures
        byte_views(res@) == components(utf8(path@)),
{
    let p = path.as_bytes();
    let n = p.len();
    assert(n == p@.len());
    let mut out: Vec<Vec<u8>> = Vec::new();
    let mut i: usize = 0;
    if n > 0 && p[0] == 47 {
        let root: Vec<u8> = vec![47u8];
        assert(root@ =~= seq![47u8]);
        out.push(root);
        i = 1;
    } else if n > 0 && p[0] == 46 && (n == 1 || p[1] == 47) {
        let dot: Vec<u8> = vec![46u8];
        assert(dot@ =~= seq![46u8]);
        out.push(dot);
        i = 1;
    }
    assert(components(p@) =~= byte_views(out@) + pieces_from(p@, i as int));
    push_pieces(p, i, &mut out);
    out
}

/// Every piece of a valid text is valid text.
pub proof fn lemma_pieces_valid(p: Seq<u8>, i: int)
    requires
        vstd::utf8::valid_utf8(p),
        0 <= i <= p.len(),
        i == 0 || p[i - 1] == 47,
    ensures
        forall|k: int| 0 <= k < pieces_from(p, i).len() ==> vstd::utf8::valid_utf8(#[trigger] pieces_from(p, i)[k]),
    decreases p.len() + 1 - i,
{
    let j = find_at(p, 47, i, p.len() as int);
    lemma_find_at(p, 47, i, p.len() as int);
    crate::git::lemma_ascii_edges(p, i, j);
    crate::text::lemma_valid_between(p, i, j);
    let piece = p.subrange(i, j);
    let rest = if j >= p.len() {
        Seq::<Seq<u8>>::empty()
    } else {
        pieces_from(p, j + 1)
    };
    if j < p.len() {
        lemma_pieces_valid(p, j + 1);
    }
    assert(pieces_from(p, i) == if piece.len() == 0 || piece == seq![46u8] {
        rest
    } else {
        seq![piece] + rest
    });
    assert forall|k: int| 0 <= k < pieces_from(p, i).len() implies vstd::utf8::valid_utf8(#[trigger] pieces_from(p, i)[k]) by {
        if !(piece.len() == 0 || piece == seq![46u8]) {
            if k > 0 {
                assert(pieces_from(p, i)[k] == rest[k - 1]);
            }
        }
    }
}

/// The texts of a list of strings, as bytes.
pub open spec fn string_bytes(v: Seq<String>) -> Seq<Seq<u8>> {
    Seq::new(v.len(), |k: int| utf8(v[k]@))
}

/// The pieces of a `/`-separated path (see [`pieces_from`]).
pub fn pieces_of(path: &str) -> (res: Vec<String>)
    ensures
        string_bytes(res@) == pieces_from(utf8(path@), 0),
{
    let p = path.as_bytes();
    let mut raw: Vec<Vec<u8>> = Vec::new();
    push_pieces(p, 0, &mut raw);
    assert(byte_views(raw@) =~= pieces_from(p@, 0));
    proof {
        lemma_pieces_valid(p@, 0);
    }
    let mut out: Vec<String> = Vec::new();
    let mut raw = raw;
    let ghost all = byte_views(raw@);
    let ghost mut taken: int = 0;
    while raw.len() > 0
        invariant
            0 <= taken <= all.len(),
            raw@.len() == all.len() - taken,
            byte_views(raw@) == all.subrange(taken, all.len() as int),
            string_bytes(out@) == all.subrange(0, taken),
            all == pieces_from(p@, 0),
            forall|k: int| 0 <= k < all.len() ==> vstd::utf8::valid_utf8(#[trigger] all[k]),
        decreases raw.len(),
    {
        assert(byte_views(raw@)[0] == raw@[0]@);
        let ghost before_raw = raw@;
        let piece = raw.remove(0);
        assert(raw@ =~= before_raw.subrange(1, before_raw.len() as int));
        assert forall|k: int| 0 <= k < raw@.len() implies (#[trigger] raw@[k])@ == all[taken + 1 + k] by {
            assert(raw@[k] == before_raw[k + 1]);
            assert(byte_views(before_raw)[k + 1] == before_raw[k + 1]@);
        }
        assert(piece@ == all[taken]);
        let ghost prev = string_bytes(out@);
        out.push(crate::text::string_from_utf8(piece));
        proof {
            assert(string_bytes(out@) =~= prev.push(all[taken]));
            assert(all.subrange(0, taken + 1) =~= all.subrange(0, taken).push(all[taken]));
            assert(byte_views(raw@) =~= all.subrange(taken + 1, all.len() as int));
            taken = taken + 1;
        }
    }
    assert(all.subrange(0, taken) =~= all);
    out
}

} // verus!
