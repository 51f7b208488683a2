//! The project tree: the open folder and the folders expanded in it.

use vstd::prelude::*;

use crate::file_icons::{file_name, name_range};
use crate::paths::{components, components_of, parent, starts_with};
use crate::text::{boundary, utf8};

verus! {

broadcast use {vstd::utf8::encode_utf8_valid_utf8, vstd::utf8::decode_utf8_encode_utf8};

/// A file or folder listed in the project tree.
#[derive(Debug, PartialEq, Eq)]
pub struct DirEntry {
    pub path: String,
    pub name: String,
    pub is_dir: bool,
}

impl Clone for DirEntry {
    fn clone(&self) -> (res: Self)
        ensures
            res.path@ == self.path@,
            res.name@ == self.name@,
            res.is_dir == self.is_dir,
    {
        DirEntry { path: self.path.clone(), name: self.name.clone(), is_dir: self.is_dir }
    }
}

/// A row of the project tree: an entry, how deep it is, and whether it is
/// an expanded folder.
#[derive(Debug, PartialEq, Eq)]
pub struct TreeRow {
    pub entry: DirEntry,
    pub depth: usize,
    pub expanded: bool,
}

/// An entry as plain values: its path, name, and whether it is a folder.
pub type EntryView = (Seq<char>, Seq<char>, bool);

/// The plain values of an entry.
pub open spec fn entry_view(e: DirEntry) -> EntryView {
    (e.path@, e.name@, e.is_dir)
}

/// The plain values of a list of entries.
pub open spec fn entries_view(v: Seq<DirEntry>) -> Seq<EntryView> {
    Seq::new(v.len(), |i: int| entry_view(v[i]))
}

/// A row as plain values.
pub type RowView = (EntryView, nat, bool);

/// The plain values of a list of rows.
pub open spec fn rows_view(v: Seq<TreeRow>) -> Seq<RowView> {
    Seq::new(v.len(), |i: int| (entry_view(v[i].entry), v[i].depth as nat, v[i].expanded))
}

/// The key a folder is listed under: its path's components.
pub open spec fn key_of(path: Seq<char>) -> Seq<Seq<u8>> {
    components(utf8(path))
}

struct Listing {
    key: Vec<Vec<u8>>,
    entries: Vec<DirEntry>,
}

/// What a workspace holds: its root folder, if one is open, and the
/// listing of each expanded folder, by the folder's components.
pub ghost struct WorkspaceView {
    pub root: Option<Seq<char>>,
    pub listings: Map<Seq<Seq<u8>>, Seq<EntryView>>,
}

/// The open folder and the listings of the folders expanded in it.
pub struct Workspace {
    root: Option<String>,
    listings: Vec<Listing>,
}

/// The key of a stored listing.
pub open spec fn key_view(k: Seq<Vec<u8>>) -> Seq<Seq<u8>> {
    crate::paths::byte_views(k)
}

spec fn listing_map(ls: Seq<Listing>) -> Map<Seq<Seq<u8>>, Seq<EntryView>>
    decreases ls.len(),
{
    if ls.len() == 0 {
        Map::empty()
    } else {
        listing_map(ls.drop_last()).insert(key_view(ls.last().key@), entries_view(ls.last().entries@))
    }
}

spec fn unique_keys(ls: Seq<Listing>) -> bool {
    forall|i: int, j: int|
        0 <= i < j < ls.len() ==> key_view(#[trigger] ls[i].key@) != key_view(#[trigger] ls[j].key@)
}

impl View for Workspace {
    type V = WorkspaceView;

    closed spec fn view(&self) -> WorkspaceView {
        WorkspaceView {
            root: match self.root {
                Some(r) => Some(r@),
                None => None,
            },
            listings: listing_map(self.listings@),
        }
    }
}

impl Workspace {
    #[verifier::type_invariant]
    spec fn well_formed(self) -> bool {
        unique_keys(self.listings@)
    }
}

proof fn lemma_map_has(ls: Seq<Listing>, k: Seq<Seq<u8>>)
    ensures
        listing_map(ls).contains_key(k) <==> exists|i: int| 0 <= i < ls.len() && key_view(ls[i].key@) == k,
    decreases ls.len(),
{
    if ls.len() > 0 {
        lemma_map_has(ls.drop_last(), k);
        if listing_map(ls).contains_key(k) {
            if key_view(ls.last().key@) == k {
                assert(key_view(ls[ls.len() - 1].key@) == k);
            } else {
                let i = choose|i: int| 0 <= i < ls.drop_last().len() && key_view(ls.drop_last()[i].key@) == k;
                assert(key_view(ls[i].key@) == k);
            }
        }
        if exists|i: int| 0 <= i < ls.len() && key_view(ls[i].key@) == k {
            let i = choose|i: int| 0 <= i < ls.len() && key_view(ls[i].key@) == k;
            if i < ls.len() - 1 {
                assert(key_view(ls.drop_last()[i].key@) == k);
            }
        }
    }
}

proof fn lemma_map_at(ls: Seq<Listing>, i: int)
    requires
        unique_keys(ls),
        0 <= i < ls.len(),
    ensures
        listing_map(ls).contains_key(key_view(ls[i].key@)),
        listing_map(ls)[key_view(ls[i].key@)] == entries_view(ls[i].entries@),
    decreases ls.len(),
{
    if i < ls.len() - 1 {
        let t = ls.drop_last();
        assert forall|a: int, b: int| 0 <= a < b < t.len() implies key_view(#[trigger] t[a].key@) != key_view(#[trigger] t[b].key@) by {
            assert(t[a] == ls[a] && t[b] == ls[b]);
        }
        lemma_map_at(t, i);
        assert(t[i] == ls[i]);
        assert(key_view(ls[i].key@) != key_view(ls[ls.len() - 1].key@));
    }
}

/// The root folder's name, or `No project open`.
pub open spec fn display_name_of(root: Option<Seq<char>>) -> Seq<u8> {
    match root {
        Some(r) => match file_name(utf8(r)) {
            Some(range) => utf8(r).subrange(range.0, range.1),
            None => utf8("No project open"@),
        },
        None => utf8("No project open"@),
    }
}

/// Whether a folder listed in a workspace is expanded.
pub open spec fn expanded_in(m: Map<Seq<Seq<u8>>, Seq<EntryView>>, e: EntryView) -> bool {
    e.2 && m.contains_key(key_of(e.0))
}

/// The rows for `entries[i..]` at `depth`: each entry, followed by the
/// rows of its listing when it is an expanded folder, as far as `budget`
/// levels go.
pub open spec fn rows_from(
    m: Map<Seq<Seq<u8>>, Seq<EntryView>>,
    entries: Seq<EntryView>,
    i: int,
    depth: nat,
    budget: nat,
) -> Seq<RowView>
    decreases budget, entries.len() - i,
{
    if i < 0 || i >= entries.len() {
        Seq::empty()
    } else {
        let e = entries[i];
        let ex = expanded_in(m, e);
        let below = if ex && budget > 0 {
            rows_from(m, m[key_of(e.0)], 0, depth + 1, (budget - 1) as nat)
        } else {
            Seq::empty()
        };
        seq![(e, depth, ex)] + below + rows_from(m, entries, i + 1, depth, budget)
    }
}

/// Whether every expanded folder reached from `entries[i..]` lies within
/// `budget` levels (it does unless the listings make a cycle).
pub open spec fn nests_within(
    m: Map<Seq<Seq<u8>>, Seq<EntryView>>,
    entries: Seq<EntryView>,
    i: int,
    budget: nat,
) -> bool
    decreases budget, entries.len() - i,
{
    if i < 0 || i >= entries.len() {
        true
    } else {
        let e = entries[i];
        (expanded_in(m, e) ==> budget > 0 && nests_within(m, m[key_of(e.0)], 0, (budget - 1) as nat))
            && nests_within(m, entries, i + 1, budget)
    }
}

/// The rows of the project tree of a workspace.
pub open spec fn tree_rows(w: WorkspaceView) -> Seq<RowView> {
    match w.root {
        None => Seq::empty(),
        Some(r) => if w.listings.contains_key(key_of(r)) {
            rows_from(w.listings, w.listings[key_of(r)], 0, 0, w.listings.len())
        } else {
            Seq::empty()
        },
    }
}

/// Whether the expanded folders of a workspace nest within as many levels
/// as it has listings.
pub open spec fn rows_bounded(w: WorkspaceView) -> bool {
    match w.root {
        None => true,
        Some(r) => w.listings.contains_key(key_of(r)) ==> nests_within(
            w.listings,
            w.listings[key_of(r)],
            0,
            w.listings.len(),
        ),
    }
}

fn same_key(a: &Vec<Vec<u8>>, b: &Vec<Vec<u8>>) -> (res: bool)
    ensures
        res == (key_view(a@) == key_view(b@)),
{
    if a.len() != b.len() {
        proof {
            assert(key_view(a@).len() != key_view(b@).len());
        }
        return false;
    }
    let mut i: usize = 0;
    while i < a.len()
        invariant
            a@.len() == b@.len(),
            i <= a@.len(),
            forall|k: int| 0 <= k < i ==> a@[k]@ == b@[k]@,
        decreases a.len() - i,
    {
        if !crate::text::same_bytes(a[i].as_slice(), b[i].as_slice()) {
            proof {
                assert(key_view(a@)[i as int] != key_view(b@)[i as int]);
            }
            return false;
        }
        i = i + 1;
    }
    assert(key_view(a@) =~= key_view(b@));
    true
}

fn key_for(path: &str) -> (res: Vec<Vec<u8>>)
    ensures
        key_view(res@) == key_of(path@),
{
    let k = components_of(path);
    assert(key_view(k@) =~= key_of(path@));
    k
}

impl Workspace {
    /// A workspace with no folder open.
    pub fn new() -> (res: Workspace)
        ensures
            res@.root is None,
            res@.listings == Map::<Seq<Seq<u8>>, Seq<EntryView>>::empty(),
    {
        Workspace { root: None, listings: Vec::new() }
    }

    /// The workspace of the folder `root`, with its listing.
    pub fn opened(root: String, listing: Vec<DirEntry>) -> (res: Workspace)
        ensures
            res@.root == Some(root@),
            res@.listings == Map::<Seq<Seq<u8>>, Seq<EntryView>>::empty().insert(
                key_of(root@),
                entries_view(listing@),
            ),
    {
        let key = key_for(root.as_str());
        let ghost entries = entries_view(listing@);
        let ghost k = key_view(key@);
        let ghost r = root@;
        let mut listings: Vec<Listing> = Vec::new();
        listings.push(Listing { key, entries: listing });
        proof {
            let ls = listings@;
            assert(ls.drop_last() =~= Seq::<Listing>::empty());
            assert(listing_map(ls.drop_last()) == Map::<Seq<Seq<u8>>, Seq<EntryView>>::empty());
            assert(key_view(ls.last().key@) == k);
            assert(entries_view(ls.last().entries@) == entries);
            assert(listing_map(ls) == Map::<Seq<Seq<u8>>, Seq<EntryView>>::empty().insert(k, entries));
        }
        let w = Workspace { root: Some(root), listings };
        w
    }

    /// The open folder.
    pub fn root(&self) -> (res: Option<&str>)
        ensures
            match self@.root {
                Some(r) => res matches Some(s) && s@ == r,
                None => res is None,
            },
    {
        match &self.root {
            Some(r) => Some(r.as_str()),
            None => None,
        }
    }

    /// The open folder's name, or `No project open` (see
    /// [`display_name_of`]).
    pub fn display_name(&self) -> (res: &str)
        ensures
            utf8(res@) == display_name_of(self@.root),
    {
        let root = match &self.root {
            Some(r) => r.as_str(),
            None => return "No project open",
        };
        let p = root.as_bytes();
        match name_range(p) {
            None => "No project open",
            Some((a, b)) => {
                proof {
                    crate::file_icons::lemma_name_edges(p@);
                    crate::git::lemma_ascii_edges(p@, a as int, b as int);
                    crate::git::lemma_ascii_edges(p@, a as int, p@.len() as int);
                    crate::git::lemma_sub_boundary(p@, a as int, p@.len() as int, (b - a) as int);
                }
                let (_, tail) = root.split_at(a);
                let (name, _) = tail.split_at(b - a);
                assert(utf8(name@) =~= p@.subrange(a as int, b as int));
                name
            },
        }
    }

    fn find(&self, key: &Vec<Vec<u8>>) -> (res: Option<usize>)
        ensures
            match res {
                Some(i) => i < self.listings@.len() && key_view(self.listings@[i as int].key@)
                    == key_view(key@),
                None => forall|i: int|
                    0 <= i < self.listings@.len() ==> key_view(#[trigger] self.listings@[i].key@)
                        != key_view(key@),
            },
    {
        let mut i: usize = 0;
        while i < self.listings.len()
            invariant
                i <= self.listings@.len(),
                forall|j: int|
                    0 <= j < i ==> key_view(#[trigger] self.listings@[j].key@) != key_view(key@),
            decreases self.listings.len() - i,
        {
            if same_key(&self.listings[i].key, key) {
                return Some(i);
            }
            i = i + 1;
        }
        None
    }

    /// Whether `directory` is expanded: whether it has a listing.
    pub fn is_expanded(&self, directory: &str) -> (res: bool)
        ensures
            res == self@.listings.contains_key(key_of(directory@)),
    {
        let key = key_for(directory);
        proof {
            lemma_map_has(self.listings@, key_of(directory@));
        }
        match self.find(&key) {
            Some(i) => true,
            None => false,
        }
    }
}

proof fn lemma_map_update(ls: Seq<Listing>, i: int, l: Listing)
    requires
        unique_keys(ls),
        0 <= i < ls.len(),
        key_view(l.key@) == key_view(ls[i].key@),
    ensures
        listing_map(ls.update(i, l)) == listing_map(ls).insert(key_view(l.key@), entries_view(l.entries@)),
        unique_keys(ls.update(i, l)),
    decreases ls.len(),
{
    let u = ls.update(i, l);
    assert forall|a: int, b: int| 0 <= a < b < u.len() implies key_view(#[trigger] u[a].key@) != key_view(#[trigger] u[b].key@) by {
        assert(key_view(u[a].key@) == key_view(ls[a].key@));
        assert(key_view(u[b].key@) == key_view(ls[b].key@));
    }
    if i == ls.len() - 1 {
        assert(u.drop_last() =~= ls.drop_last());
        assert(listing_map(u) =~= listing_map(ls).insert(key_view(l.key@), entries_view(l.entries@)));
    } else {
        let t = ls.drop_last();
        assert forall|a: int, b: int| 0 <= a < b < t.len() implies key_view(#[trigger] t[a].key@) != key_view(#[trigger] t[b].key@) by {
            assert(t[a] == ls[a] && t[b] == ls[b]);
        }
        lemma_map_update(t, i, l);
        assert(u.drop_last() =~= t.update(i, l));
        assert(key_view(ls[i].key@) != key_view(ls[ls.len() - 1].key@));
        assert(u.last() == ls.last());
        assert(listing_map(u) =~= listing_map(ls).insert(key_view(l.key@), entries_view(l.entries@)));
    }
}

proof fn lemma_map_len(ls: Seq<Listing>)
    requires
        unique_keys(ls),
    ensures
        listing_map(ls).dom().finite(),
        listing_map(ls).len() == ls.len(),
    decreases ls.len(),
{
    if ls.len() > 0 {
        let t = ls.drop_last();
        assert forall|a: int, b: int| 0 <= a < b < t.len() implies key_view(#[trigger] t[a].key@) != key_view(#[trigger] t[b].key@) by {
            assert(t[a] == ls[a] && t[b] == ls[b]);
        }
        lemma_map_len(t);
        lemma_map_has(t, key_view(ls.last().key@));
        if listing_map(t).contains_key(key_view(ls.last().key@)) {
            let j = choose|j: int| 0 <= j < t.len() && key_view(t[j].key@) == key_view(ls.last().key@);
            assert(t[j] == ls[j]);
            assert(key_view(ls[j].key@) != key_view(ls[ls.len() - 1].key@));
        }
    }
}

/// Whether `directory` may get a listing: it is the root, or a folder
/// listed in its parent's listing.
pub open spec fn reachable(w: WorkspaceView, directory: Seq<char>) -> bool {
    let k = key_of(directory);
    (w.root matches Some(r) && key_of(r) == k) || (parent(k) matches Some(p) && w.listings.contains_key(
        p,
    ) && exists|j: int|
        0 <= j < w.listings[p].len() && (#[trigger] w.listings[p][j]).2 && key_of(w.listings[p][j].0)
            == k)
}

/// The keys under a folder: its own and its descendants'.
pub open spec fn under(d: Seq<Seq<u8>>) -> Set<Seq<Seq<u8>>> {
    Set::new(|k: Seq<Seq<u8>>| starts_with(k, d))
}

spec fn kept(ls: Seq<Listing>, d: Seq<Seq<u8>>) -> Seq<Listing>
    decreases ls.len(),
{
    if ls.len() == 0 {
        Seq::empty()
    } else if starts_with(key_view(ls.last().key@), d) {
        kept(ls.drop_last(), d)
    } else {
        kept(ls.drop_last(), d).push(ls.last())
    }
}

fn key_starts_with(k: &Vec<Vec<u8>>, d: &Vec<Vec<u8>>) -> (res: bool)
    ensures
        res == starts_with(key_view(k@), key_view(d@)),
{
    if d.len() > k.len() {
        return false;
    }
    let mut i: usize = 0;
    while i < d.len()
        invariant
            d@.len() <= k@.len(),
            i <= d@.len(),
            forall|x: int| 0 <= x < i ==> k@[x]@ == d@[x]@,
        decreases d.len() - i,
    {
        if !crate::text::same_bytes(k[i].as_slice(), d[i].as_slice()) {
            proof {
                assert(key_view(k@).subrange(0, d@.len() as int)[i as int] != key_view(d@)[i as int]);
            }
            return false;
        }
        i = i + 1;
    }
    assert(key_view(k@).subrange(0, d@.len() as int) =~= key_view(d@));
    true
}

fn dir_entry_index(entries: &Vec<DirEntry>, key: &Vec<Vec<u8>>) -> (res: Option<usize>)
    ensures
        match res {
            Some(j) => j < entries@.len() && entries@[j as int].is_dir && key_of(entries@[j as int].path@)
                == key_view(key@),
            None => forall|y: int|
                0 <= y < entries@.len() ==> !(#[trigger] entries@[y]).is_dir || key_of(entries@[y].path@)
                    != key_view(key@),
        },
{
    let mut j: usize = 0;
    while j < entries.len()
        invariant
            j <= entries@.len(),
            forall|y: int|
                0 <= y < j ==> !(#[trigger] entries@[y]).is_dir || key_of(entries@[y].path@) != key_view(
                    key@,
                ),
        decreases entries.len() - j,
    {
        if entries[j].is_dir {
            let ek = key_for(entries[j].path.as_str());
            if same_key(&ek, key) {
                return Some(j);
            }
        }
        j = j + 1;
    }
    None
}

impl Workspace {
    /// Gives `directory` its listing when it is reachable (see
    /// [`reachable`]); says whether it was.
    pub fn expand(&mut self, directory: String, listing: Vec<DirEntry>) -> (res: bool)
        ensures
            res == reachable(old(self)@, directory@),
            final(self)@.root == old(self)@.root,
            final(self)@.listings == if res {
                old(self)@.listings.insert(key_of(directory@), entries_view(listing@))
            } else {
                old(self)@.listings
            },
    {
        proof {
            use_type_invariant(&*self);
        }
        let key = key_for(directory.as_str());
        let is_root = match &self.root {
            Some(r) => {
                let rk = key_for(r.as_str());
                same_key(&rk, &key)
            },
            None => false,
        };
        let mut reachable_now = is_root;
        if !is_root && key.len() > 0 {
            let last = &key[key.len() - 1];
            let is_root_dir = last.len() == 1 && last[0] == 47;
            proof {
                assert(is_root_dir == (key_view(key@).last() == seq![47u8])) by {
                    if key_view(key@).last() == seq![47u8] {
                        assert(last@[0] == seq![47u8][0]);
                    }
                    if is_root_dir {
                        assert(last@ =~= seq![47u8]);
                    }
                }
            }
            if !is_root_dir {
                let mut pk: Vec<Vec<u8>> = Vec::new();
                let mut i: usize = 0;
                while i + 1 < key.len()
                    invariant
                        key@.len() > 0,
                        i < key@.len(),
                        pk@.len() == i,
                        forall|x: int| 0 <= x < i ==> pk@[x]@ == key@[x]@,
                    decreases key.len() - i,
                {
                    let mut c: Vec<u8> = Vec::new();
                    c.extend_from_slice(key[i].as_slice());
                    pk.push(c);
                    i = i + 1;
                }
                assert(key_view(pk@) =~= key_view(key@).drop_last());
                proof {
                    lemma_map_has(self.listings@, key_view(pk@));
                }
                match self.find(&pk) {
                    None => {},
                    Some(idx) => {
                        proof {
                            lemma_map_at(self.listings@, idx as int);
                        }
                        let entries = &self.listings[idx].entries;
                        let hit = dir_entry_index(entries, &key);
                        reachable_now = hit.is_some();
                        proof {
                            let m = listing_map(self.listings@);
                            let p = key_view(pk@);
                            assert(m[p] == entries_view(entries@));
                            if let Some(j) = hit {
                                assert(m[p][j as int] == entry_view(entries@[j as int]));
                                assert(m[p][j as int].2 && key_of(m[p][j as int].0) == key_view(key@));
                            } else {
                                assert forall|y: int| 0 <= y < m[p].len() implies !((#[trigger] m[p][y]).2
                                    && key_of(m[p][y].0) == key_view(key@)) by {
                                    assert(m[p][y] == entry_view(entries@[y]));
                                }
                            }
                        }
                    },
                }
            }
        }
        if !reachable_now {
            return false;
        }
        let ghost before = self.listings@;
        let found = self.find(&key);
        let mut ls: Vec<Listing> = Vec::new();
        std::mem::swap(&mut ls, &mut self.listings);
        assert(ls@ == before);
        match found {
            Some(i) => {
                let ghost l = Listing { key: key, entries: listing };
                proof {
                    lemma_map_update(before, i as int, l);
                }
                ls.set(i, Listing { key, entries: listing });
                assert(ls@ == before.update(i as int, l));
            },
            None => {
                let ghost l = Listing { key: key, entries: listing };
                proof {
                    let grown = before.push(l);
                    assert forall|a: int, b: int| 0 <= a < b < grown.len() implies key_view(#[trigger] grown[a].key@) != key_view(#[trigger] grown[b].key@) by {
                        if b == grown.len() - 1 {
                            assert(grown[a] == before[a]);
                        } else {
                            assert(grown[a] == before[a] && grown[b] == before[b]);
                        }
                    }
                    assert(grown.drop_last() =~= before);
                }
                ls.push(Listing { key, entries: listing });
            },
        }
        self.listings = ls;
        true
    }

    /// Forgets the listings of `directory` and the folders under it, unless
    /// it is the root.
    pub fn collapse(&mut self, directory: &str)
        ensures
            final(self)@.root == old(self)@.root,
            final(self)@.listings == if old(self)@.root matches Some(r) && key_of(r) == key_of(
                directory@,
            ) {
                old(self)@.listings
            } else {
                old(self)@.listings.remove_keys(under(key_of(directory@)))
            },
    {
        proof {
            use_type_invariant(&*self);
        }
        let key = key_for(directory);
        let is_root = match &self.root {
            Some(r) => {
                let rk = key_for(r.as_str());
                same_key(&rk, &key)
            },
            None => false,
        };
        if is_root {
            return;
        }
        let mut rest: Vec<Listing> = Vec::new();
        std::mem::swap(&mut rest, &mut self.listings);
        let ghost orig = rest@;
        let ghost d = key_view(key@);
        let mut out: Vec<Listing> = Vec::new();
        let ghost mut i: int = 0;
        assert(orig.subrange(0, 0) =~= Seq::<Listing>::empty());
        assert(listing_map(Seq::<Listing>::empty()).remove_keys(under(d)) =~= listing_map(out@));
        while rest.len() > 0
            invariant
                unique_keys(orig),
                0 <= i <= orig.len(),
                rest@ == orig.subrange(i, orig.len() as int),
                unique_keys(out@),
                forall|x: int, y: int|
                    0 <= x < out@.len() && 0 <= y < rest@.len() ==> key_view(#[trigger] out@[x].key@)
                        != key_view(#[trigger] rest@[y].key@),
                listing_map(out@) == listing_map(orig.subrange(0, i)).remove_keys(under(d)),
                d == key_view(key@),
            decreases rest.len(),
        {
            let l = rest.remove(0);
            proof {
                assert(l == orig[i]);
                assert(orig.subrange(0, i + 1).drop_last() =~= orig.subrange(0, i));
                assert(rest@ =~= orig.subrange(i + 1, orig.len() as int));
            }
            let ghost m0 = listing_map(orig.subrange(0, i));
            if !key_starts_with(&l.key, &key) {
                let ghost prev = out@;
                out.push(l);
                proof {
                    assert(out@.drop_last() =~= prev);
                    assert forall|a: int, b: int| 0 <= a < b < out@.len() implies key_view(#[trigger] out@[a].key@) != key_view(#[trigger] out@[b].key@) by {
                        if b == out@.len() - 1 {
                            assert(key_view(prev[a].key@) != key_view(orig[i].key@));
                        } else {
                            assert(out@[a] == prev[a] && out@[b] == prev[b]);
                        }
                    }
                    assert forall|x: int, y: int| 0 <= x < out@.len() && 0 <= y < rest@.len() implies key_view(#[trigger] out@[x].key@) != key_view(#[trigger] rest@[y].key@) by {
                        if x == out@.len() - 1 {
                            assert(rest@[y] == orig[i + 1 + y]);
                        } else {
                            assert(out@[x] == prev[x]);
                            assert(rest@[y] == orig[i + 1 + y]);
                        }
                    }
                    assert(listing_map(out@) =~= listing_map(orig.subrange(0, i + 1)).remove_keys(under(d)));
                }
            } else {
                proof {
                    assert forall|x: int, y: int| 0 <= x < out@.len() && 0 <= y < rest@.len() implies key_view(#[trigger] out@[x].key@) != key_view(#[trigger] rest@[y].key@) by {
                        assert(rest@[y] == orig[i + 1 + y]);
                    }
                    assert(listing_map(out@) =~= listing_map(orig.subrange(0, i + 1)).remove_keys(under(d)));
                }
            }
            proof {
                i = i + 1;
            }
        }
        proof {
            assert(orig.subrange(0, i) =~= orig);
        }
        self.listings = out;
    }
}

impl Workspace {
    fn listing_at(&self, path: &str) -> (res: Option<&Vec<DirEntry>>)
        ensures
            match res {
                Some(v) => self@.listings.contains_key(key_of(path@)) && entries_view(v@)
                    == self@.listings[key_of(path@)],
                None => !self@.listings.contains_key(key_of(path@)),
            },
    {
        proof {
            use_type_invariant(self);
        }
        let key = key_for(path);
        proof {
            lemma_map_has(self.listings@, key_of(path@));
        }
        match self.find(&key) {
            None => None,
            Some(i) => {
                proof {
                    lemma_map_at(self.listings@, i as int);
                }
                Some(&self.listings[i].entries)
            },
        }
    }

    fn push_rows(&self, entries: &Vec<DirEntry>, depth: usize, budget: usize, rows: &mut Vec<TreeRow>)
        requires
            nests_within(self@.listings, entries_view(entries@), 0, budget as nat),
            depth + budget <= usize::MAX,
        ensures
            rows_view(final(rows)@) == rows_view(old(rows)@) + rows_from(
                self@.listings,
                entries_view(entries@),
                0,
                depth as nat,
                budget as nat,
            ),
        decreases budget,
    {
        let ghost m = self@.listings;
        let ghost es = entries_view(entries@);
        let ghost start = rows_view(rows@);
        let mut i: usize = 0;
        assert(rows_view(rows@) + rows_from(m, es, 0, depth as nat, budget as nat) =~= start
            + rows_from(m, es, 0, depth as nat, budget as nat));
        while i < entries.len()
            invariant
                m == self@.listings,
                es == entries_view(entries@),
                i <= entries@.len(),
                depth + budget <= usize::MAX,
                nests_within(m, es, i as int, budget as nat),
                rows_view(rows@) + rows_from(m, es, i as int, depth as nat, budget as nat) == start
                    + rows_from(m, es, 0, depth as nat, budget as nat),
            decreases entries.len() - i,
        {
            let e = &entries[i];
            let ghost ev = entry_view(*e);
            assert(es[i as int] == ev);
            let sub = if e.is_dir {
                self.listing_at(e.path.as_str())
            } else {
                None
            };
            let expanded = sub.is_some();
            assert(expanded == expanded_in(m, ev));
            let ghost before = rows_view(rows@);
            rows.push(TreeRow { entry: e.clone(), depth, expanded });
            assert(rows_view(rows@) =~= before + seq![(ev, depth as nat, expanded)]);
            let ghost mid = rows_view(rows@);
            match sub {
                Some(child) => {
                    self.push_rows(child, depth + 1, budget - 1, rows);
                },
                None => {},
            }
            proof {
                let below = if expanded && budget > 0 {
                    rows_from(m, m[key_of(ev.0)], 0, (depth + 1) as nat, (budget - 1) as nat)
                } else {
                    Seq::empty()
                };
                assert(rows_view(rows@) == mid + below);
                assert(rows_from(m, es, i as int, depth as nat, budget as nat) == seq![
                    (ev, depth as nat, expanded),
                ] + below + rows_from(m, es, i + 1, depth as nat, budget as nat));
                assert(rows_view(rows@) + rows_from(m, es, i + 1, depth as nat, budget as nat)
                    =~= before + rows_from(m, es, i as int, depth as nat, budget as nat));
            }
            i = i + 1;
        }
        assert(rows_from(m, es, i as int, depth as nat, budget as nat) =~= Seq::<RowView>::empty());
        assert(rows_view(rows@) =~= start + rows_from(m, es, 0, depth as nat, budget as nat));
    }

    /// The rows of the project tree: the root's entries in order, each
    /// expanded folder followed by its own rows one level deeper (see
    /// [`tree_rows`]).
    pub fn rows(&self) -> (res: Vec<TreeRow>)
        requires
            rows_bounded(self@),
        ensures
            rows_view(res@) == tree_rows(self@),
    {
        proof {
            use_type_invariant(self);
            lemma_map_len(self.listings@);
        }
        let mut rows: Vec<TreeRow> = Vec::new();
        let root = match &self.root {
            None => {
                assert(rows_view(rows@) =~= tree_rows(self@));
                return rows;
            },
            Some(r) => r.as_str(),
        };
        match self.listing_at(root) {
            None => {
                assert(rows_view(rows@) =~= tree_rows(self@));
            },
            Some(entries) => {
                self.push_rows(entries, 0, self.listings.len(), &mut rows);
                assert(rows_view(rows@) =~= tree_rows(self@));
            },
        }
        rows
    }

    fn nests(&self, entries: &Vec<DirEntry>, budget: usize) -> (res: bool)
        ensures
            res == nests_within(self@.listings, entries_view(entries@), 0, budget as nat),
        decreases budget,
    {
        let ghost m = self@.listings;
        let ghost es = entries_view(entries@);
        let mut i: usize = 0;
        while i < entries.len()
            invariant
                m == self@.listings,
                es == entries_view(entries@),
                i <= entries@.len(),
                nests_within(m, es, 0, budget as nat) == nests_within(m, es, i as int, budget as nat),
            decreases entries.len() - i,
        {
            let e = &entries[i];
            assert(es[i as int] == entry_view(*e));
            if e.is_dir {
                match self.listing_at(e.path.as_str()) {
                    Some(child) => {
                        if budget == 0 || !self.nests(child, budget - 1) {
                            return false;
                        }
                    },
                    None => {},
                }
            }
            i = i + 1;
        }
        true
    }

    /// Whether the expanded folders nest within as many levels as there
    /// are listings (see [`rows_bounded`]), which [`Workspace::rows`] needs.
    pub fn rows_fit(&self) -> (res: bool)
        ensures
            res == rows_bounded(self@),
    {
        proof {
            use_type_invariant(self);
            lemma_map_len(self.listings@);
        }
        match &self.root {
            None => true,
            Some(r) => match self.listing_at(r.as_str()) {
                None => true,
                Some(entries) => self.nests(entries, self.listings.len()),
            },
        }
    }

    /// The rows of the project tree (see [`Workspace::rows`]) when its
    /// expanded folders nest within bounds, and `None` when they do not.
    pub fn bounded_rows(&self) -> (res: Option<Vec<TreeRow>>)
        ensures
            match res {
                Some(r) => rows_bounded(self@) && rows_view(r@) == tree_rows(self@),
                None => !rows_bounded(self@),
            },
    {
        if self.rows_fit() {
            Some(self.rows())
        } else {
            None
        }
    }
}

/// Whether entry `a` is listed before (or with) entry `b`: folders first,
/// then by lowered name, then by name, names compared byte by byte.
pub open spec fn listed_before(a: EntryView, b: EntryView) -> bool {
    let la = utf8(crate::search::lowercased(a.1));
    let lb = utf8(crate::search::lowercased(b.1));
    if a.2 != b.2 {
        a.2
    } else if la != lb {
        crate::git::lex_le(la, lb)
    } else {
        crate::git::lex_le(utf8(a.1), utf8(b.1))
    }
}

/// Entries inserted in listing order, after every entry listed before or
/// with them.
pub open spec fn insert_listed(s: Seq<EntryView>, e: EntryView) -> Seq<EntryView>
    decreases s.len(),
{
    if s.len() == 0 || listed_before(s.last(), e) {
        s.push(e)
    } else {
        insert_listed(s.drop_last(), e).push(s.last())
    }
}

/// Entries in listing order (see [`listed_before`]), entries that tie
/// keeping their order.
pub open spec fn sort_listed(s: Seq<EntryView>) -> Seq<EntryView>
    decreases s.len(),
{
    if s.len() == 0 {
        Seq::empty()
    } else {
        insert_listed(sort_listed(s.drop_last()), s.last())
    }
}

proof fn lemma_insert_listed(s: Seq<EntryView>, e: EntryView, pos: int)
    requires
        0 <= pos <= s.len(),
        forall|j: int| pos <= j < s.len() ==> !listed_before(#[trigger] s[j], e),
        pos == 0 || listed_before(s[pos - 1], e),
    ensures
        insert_listed(s, e) == s.insert(pos, e),
    decreases s.len(),
{
    if s.len() == 0 {
        assert(s.insert(pos, e) =~= s.push(e));
    } else if listed_before(s.last(), e) {
        assert(pos == s.len());
        assert(s.insert(pos, e) =~= s.push(e));
    } else {
        let t = s.drop_last();
        lemma_insert_listed(t, e, pos);
        assert(s.insert(pos, e) =~= t.insert(pos, e).push(s.last()));
    }
}

proof fn lemma_common_len(a: Seq<u8>, b: Seq<u8>, k: int)
    requires
        0 <= k <= a.len(),
        k <= b.len(),
    ensures
        crate::git::common_len(a, b, k) == crate::git::common_len(b, a, k),
        k <= crate::git::common_len(a, b, k) <= a.len(),
        crate::git::common_len(a, b, k) <= b.len(),
        crate::git::common_len(a, b, k) < a.len() && crate::git::common_len(a, b, k) < b.len() ==> a[crate::git::common_len(a, b, k)]
            != b[crate::git::common_len(a, b, k)],
    decreases a.len() - k,
{
    if k < a.len() && k < b.len() && a[k] == b[k] {
        lemma_common_len(a, b, k + 1);
    }
}

proof fn lemma_lex_total(a: Seq<u8>, b: Seq<u8>)
    ensures
        crate::git::lex_le(a, b) || crate::git::lex_le(b, a),
{
    lemma_common_len(a, b, 0);
}

proof fn lemma_listed_total(a: EntryView, b: EntryView)
    ensures
        listed_before(a, b) || listed_before(b, a),
{
    lemma_lex_total(utf8(crate::search::lowercased(a.1)), utf8(crate::search::lowercased(b.1)));
    lemma_lex_total(utf8(a.1), utf8(b.1));
}

/// Whether each entry of `s` is listed before or with the next.
pub open spec fn listed_in_order(s: Seq<EntryView>) -> bool {
    forall|i: int| 0 <= i < s.len() - 1 ==> listed_before(#[trigger] s[i], s[i + 1])
}

proof fn lemma_insert_listed_in_order(s: Seq<EntryView>, e: EntryView)
    requires
        listed_in_order(s),
    ensures
        listed_in_order(insert_listed(s, e)),
        insert_listed(s, e).len() == s.len() + 1,
        insert_listed(s, e).last() == e || (s.len() > 0 && insert_listed(s, e).last() == s.last()),
    decreases s.len(),
{
    if s.len() == 0 || listed_before(s.last(), e) {
        let d = s.push(e);
        assert forall|i: int| 0 <= i < d.len() - 1 implies listed_before(#[trigger] d[i], d[i + 1]) by {
            if i < s.len() - 1 {
                assert(d[i] == s[i] && d[i + 1] == s[i + 1]);
            }
        }
    } else {
        let t = s.drop_last();
        assert(listed_in_order(t)) by {
            assert forall|i: int| 0 <= i < t.len() - 1 implies listed_before(#[trigger] t[i], t[i + 1]) by {
                assert(t[i] == s[i] && t[i + 1] == s[i + 1]);
            }
        }
        lemma_insert_listed_in_order(t, e);
        let r = insert_listed(t, e);
        let d = r.push(s.last());
        lemma_listed_total(s.last(), e);
        if r.last() != e {
            assert(s[s.len() - 2] == t.last());
        }
        assert forall|i: int| 0 <= i < d.len() - 1 implies listed_before(#[trigger] d[i], d[i + 1]) by {
            if i < r.len() - 1 {
                assert(d[i] == r[i] && d[i + 1] == r[i + 1]);
            } else {
                assert(d[i] == r.last() && d[i + 1] == s.last());
            }
        }
    }
}

proof fn lemma_sort_listed_in_order(s: Seq<EntryView>)
    ensures
        listed_in_order(sort_listed(s)),
        sort_listed(s).len() == s.len(),
    decreases s.len(),
{
    if s.len() > 0 {
        lemma_sort_listed_in_order(s.drop_last());
        lemma_insert_listed_in_order(sort_listed(s.drop_last()), s.last());
    }
}

proof fn lemma_insert_listed_keeps(s: Seq<EntryView>, e: EntryView)
    ensures
        insert_listed(s, e).to_multiset() == s.to_multiset().insert(e),
    decreases s.len(),
{
    broadcast use vstd::seq_lib::group_to_multiset_ensures;
    if s.len() == 0 || listed_before(s.last(), e) {
    } else {
        let t = s.drop_last();
        lemma_insert_listed_keeps(t, e);
        assert(s =~= t.push(s.last()));
        assert(insert_listed(t, e).push(s.last()).to_multiset() =~= t.to_multiset().insert(e).insert(
            s.last(),
        ));
        assert(s.to_multiset().insert(e) =~= t.to_multiset().insert(s.last()).insert(e));
    }
}

proof fn lemma_sort_listed_keeps(s: Seq<EntryView>)
    ensures
        sort_listed(s).to_multiset() == s.to_multiset(),
    decreases s.len(),
{
    broadcast use vstd::seq_lib::group_to_multiset_ensures;
    if s.len() > 0 {
        let t = s.drop_last();
        lemma_sort_listed_keeps(t);
        lemma_insert_listed_keeps(sort_listed(t), s.last());
        assert(s =~= t.push(s.last()));
    } else {
        assert(sort_listed(s) =~= s);
    }
}

/// The listing order of a folder's entries (what [`sort_entries`] gives):
/// of two neighbouring entries, a folder never follows a file, and of two
/// of the same kind whose lowered names differ, the first has the
/// byte-wise smaller lowered name, whatever the case of the names (names
/// that lower alike go by their own bytes); and the listing holds the
/// same entries as the folder.
pub proof fn lemma_listing_order(s: Seq<EntryView>)
    ensures
        forall|i: int|
            0 <= i < sort_listed(s).len() - 1 ==> {
                let a = #[trigger] sort_listed(s)[i];
                let b = sort_listed(s)[i + 1];
                let la = utf8(crate::search::lowercased(a.1));
                let lb = utf8(crate::search::lowercased(b.1));
                &&& a.2 || !b.2
                &&& a.2 == b.2 && la != lb ==> crate::git::lex_le(la, lb)
                &&& a.2 == b.2 && la == lb ==> crate::git::lex_le(utf8(a.1), utf8(b.1))
            },
        sort_listed(s).to_multiset() == s.to_multiset(),
{
    lemma_sort_listed_in_order(s);
    lemma_sort_listed_keeps(s);
}

fn entry_before(a: &DirEntry, b: &DirEntry) -> (res: bool)
    ensures
        res == listed_before(entry_view(*a), entry_view(*b)),
{
    if a.is_dir != b.is_dir {
        return a.is_dir;
    }
    let la = crate::search::to_lowercase(a.name.as_str());
    let lb = crate::search::to_lowercase(b.name.as_str());
    let x = la.as_str().as_bytes();
    let y = lb.as_str().as_bytes();
    if !crate::text::same_bytes(x, y) {
        crate::git::bytes_le(x, y)
    } else {
        crate::git::bytes_le(a.name.as_str().as_bytes(), b.name.as_str().as_bytes())
    }
}

/// A folder's entries in listing order (see [`sort_listed`]).
pub fn sort_entries(entries: Vec<DirEntry>) -> (res: Vec<DirEntry>)
    ensures
        entries_view(res@) == sort_listed(entries_view(entries@)),
{
    let ghost all = entries_view(entries@);
    let mut rest = entries;
    let mut sorted: Vec<DirEntry> = Vec::new();
    let ghost mut taken: int = 0;
    assert(all.subrange(0, 0) =~= Seq::<EntryView>::empty());
    while rest.len() > 0
        invariant
            0 <= taken <= all.len(),
            rest@.len() == all.len() - taken,
            entries_view(rest@) == all.subrange(taken, all.len() as int),
            entries_view(sorted@) == sort_listed(all.subrange(0, taken)),
        decreases rest.len(),
    {
        assert(entries_view(rest@)[0] == entry_view(rest@[0]));
        let ghost before_rest = rest@;
        let e = rest.remove(0);
        proof {
            assert(rest@ =~= before_rest.subrange(1, before_rest.len() as int));
            assert(entries_view(rest@) =~= all.subrange(taken + 1, all.len() as int)) by {
                assert forall|k: int| 0 <= k < rest@.len() implies #[trigger] entries_view(rest@)[k]
                    == all.subrange(taken + 1, all.len() as int)[k] by {
                    assert(rest@[k] == before_rest[k + 1]);
                    assert(entries_view(before_rest)[k + 1] == entry_view(before_rest[k + 1]));
                }
            }
            assert(entry_view(e) == all[taken]);
        }
        let mut pos = sorted.len();
        while pos > 0 && !entry_before(&sorted[pos - 1], &e)
            invariant
                pos <= sorted@.len(),
                forall|k: int|
                    pos <= k < sorted@.len() ==> !listed_before(
                        #[trigger] entries_view(sorted@)[k],
                        entry_view(e),
                    ),
            decreases pos,
        {
            pos = pos - 1;
        }
        proof {
            lemma_insert_listed(entries_view(sorted@), entry_view(e), pos as int);
            assert(all.subrange(0, taken + 1).drop_last() =~= all.subrange(0, taken));
        }
        let ghost before = sorted@;
        sorted.insert(pos, e);
        proof {
            assert(entries_view(sorted@) =~= entries_view(before).insert(pos as int, entry_view(e)));
            taken = taken + 1;
        }
    }
    assert(all.subrange(0, taken) =~= all);
    sorted
}

} // verus!
