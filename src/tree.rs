//! Building the canonical tree object of one directory level from the
//! entries that a directory walker reports, each with the id of what it
//! holds: entries are ordered by name, with a directory's name read as if it
//! ended in `'/'`, and subdirectories that hold no file are left out.

use vstd::prelude::*;

use crate::codec::{bytes_equal, extend_bytes, push_tree_entry, tree_entry, ObjectKind, NUL};
use crate::error::ObjectError;
use crate::store::{encoding, object_id, Object, StoredObject};
use crate::trusted::{deflated, inflated};

verus! {

/// The byte `'/'`, which no entry name holds.
pub const SLASH: u8 = 47;

/// The execute bits of owner, group and others, `0o111`.
pub const EXECUTE_BITS: u32 = 73;

/// What a directory entry is.
#[derive(Clone, Copy, Debug, PartialEq, Eq, Structural)]
pub enum EntryKind {
    File,
    Symlink,
    Directory,
}

/// One entry of a directory, as the walker reports it, with the id of what
/// it holds: a blob for a file or a symlink, the subtree for a directory, or
/// none for a directory that holds no file.
#[derive(Clone, Debug)]
pub struct DirEntry {
    pub name: Vec<u8>,
    pub kind: EntryKind,
    /// The entry's permission bits, as the file system reports them.
    pub permissions: u32,
    pub id: Option<[u8; 20]>,
}

/// A directory entry as the contracts see it.
pub struct DirEntryView {
    pub name: Seq<u8>,
    pub kind: EntryKind,
    pub permissions: u32,
    pub id: Option<Seq<u8>>,
}

impl View for DirEntry {
    type V = DirEntryView;

    open spec fn view(&self) -> DirEntryView {
        DirEntryView {
            name: self.name@,
            kind: self.kind,
            permissions: self.permissions,
            id: match self.id {
                Some(a) => Some(a@),
                None => None,
            },
        }
    }
}

pub open spec fn entry_views(v: Seq<DirEntry>) -> Seq<DirEntryView> {
    v.map_values(|e: DirEntry| e@)
}

/// The octal mode text of an entry: a directory, a symlink, an executable
/// file (any execute bit set), or a regular file.
pub open spec fn entry_mode(kind: EntryKind, permissions: u32) -> Seq<u8> {
    match kind {
        EntryKind::Directory => seq![52u8, 48, 48, 48, 48],  // "40000"
        EntryKind::Symlink => seq![49u8, 50, 48, 48, 48, 48],  // "120000"
        EntryKind::File => if permissions & EXECUTE_BITS != 0 {
            seq![49u8, 48, 48, 55, 53, 53]  // "100755"
        } else {
            seq![49u8, 48, 48, 54, 52, 52]  // "100644"
        },
    }
}

/// The octal mode text of an entry of the given kind and permission bits.
pub fn get_mode_for_entry(kind: EntryKind, permissions: u32) -> (r: Vec<u8>)
    ensures
        r@ == entry_mode(kind, permissions),
{
    let r = match kind {
        EntryKind::Directory => vec![52u8, 48, 48, 48, 48],
        EntryKind::Symlink => vec![49u8, 50, 48, 48, 48, 48],
        EntryKind::File => if permissions & EXECUTE_BITS != 0 {
            vec![49u8, 48, 48, 55, 53, 53]
        } else {
            vec![49u8, 48, 48, 54, 52, 52]
        },
    };
    assert(r@ =~= entry_mode(kind, permissions));
    r
}

/// Byte-wise lexicographic order, a proper prefix first.
pub open spec fn lex_lt(a: Seq<u8>, b: Seq<u8>) -> bool
    decreases a.len(),
{
    if a.len() == 0 {
        b.len() > 0
    } else if b.len() == 0 {
        false
    } else if a[0] != b[0] {
        a[0] < b[0]
    } else {
        lex_lt(a.drop_first(), b.drop_first())
    }
}

pub proof fn lemma_lex_irreflexive(a: Seq<u8>)
    ensures
        !lex_lt(a, a),
    decreases a.len(),
{
    if a.len() > 0 {
        lemma_lex_irreflexive(a.drop_first());
    }
}

pub proof fn lemma_lex_transitive(a: Seq<u8>, b: Seq<u8>, c: Seq<u8>)
    requires
        lex_lt(a, b),
        lex_lt(b, c),
    ensures
        lex_lt(a, c),
    decreases a.len(),
{
    if a.len() > 0 && b.len() > 0 && c.len() > 0 && a[0] == b[0] && b[0] == c[0] {
        lemma_lex_transitive(a.drop_first(), b.drop_first(), c.drop_first());
    }
}

pub proof fn lemma_lex_total(a: Seq<u8>, b: Seq<u8>)
    requires
        a != b,
    ensures
        lex_lt(a, b) || lex_lt(b, a),
    decreases a.len(),
{
    if a.len() == 0 {
        assert(b.len() > 0) by {
            if b.len() == 0 {
                assert(a =~= b);
            }
        }
    } else if b.len() > 0 && a[0] == b[0] {
        assert(a.drop_first() != b.drop_first()) by {
            if a.drop_first() == b.drop_first() {
                assert(a =~= seq![a[0]] + a.drop_first());
                assert(b =~= seq![b[0]] + b.drop_first());
            }
        }
        lemma_lex_total(a.drop_first(), b.drop_first());
    }
}

/// Whether `a` comes before `b` in byte-wise lexicographic order.
pub fn lex_less(a: &[u8], b: &[u8]) -> (r: bool)
    ensures
        r == lex_lt(a@, b@),
{
    let mut i: usize = 0;
    assert(a@.skip(0) =~= a@);
    assert(b@.skip(0) =~= b@);
    while i < a.len() && i < b.len()
        invariant
            i <= a@.len(),
            i <= b@.len(),
            lex_lt(a@, b@) == lex_lt(a@.skip(i as int), b@.skip(i as int)),
        decreases a@.len() - i,
    {
        if a[i] != b[i] {
            return a[i] < b[i];
        }
        assert(a@.skip(i as int).drop_first() =~= a@.skip(i + 1));
        assert(b@.skip(i as int).drop_first() =~= b@.skip(i + 1));
        i = i + 1;
    }
    i < b.len()
}

/// The key that orders an entry among its siblings: its name, followed by
/// `'/'` where it is a directory.
pub open spec fn sort_key(e: DirEntryView) -> Seq<u8> {
    if e.kind == EntryKind::Directory {
        e.name.push(SLASH)
    } else {
        e.name
    }
}

/// Whether `a` comes before `b` among the entries of a tree.
pub open spec fn entry_before(a: DirEntryView, b: DirEntryView) -> bool {
    lex_lt(sort_key(a), sort_key(b))
}

/// The key that orders an entry among its siblings.
fn entry_key(e: &DirEntry) -> (r: Vec<u8>)
    ensures
        r@ == sort_key(e@),
{
    let mut k = Vec::new();
    extend_bytes(&mut k, e.name.as_slice());
    if e.kind == EntryKind::Directory {
        k.push(SLASH);
    }
    assert(k@ =~= sort_key(e@));
    k
}

/// A name that can stand in a tree: not empty, with no `'/'` and no NUL.
pub open spec fn valid_name(n: Seq<u8>) -> bool {
    n.len() > 0 && forall|i: int| 0 <= i < n.len() ==> #[trigger] n[i] != SLASH && n[i] != NUL
}

fn is_valid_name(n: &[u8]) -> (r: bool)
    ensures
        r == valid_name(n@),
{
    if n.len() == 0 {
        return false;
    }
    let mut i: usize = 0;
    while i < n.len()
        invariant
            i <= n@.len(),
            forall|j: int| 0 <= j < i ==> #[trigger] n@[j] != SLASH && n@[j] != NUL,
        decreases n@.len() - i,
    {
        if n[i] == SLASH || n[i] == NUL {
            return false;
        }
        i = i + 1;
    }
    true
}

/// A directory level that can become a tree: every name is valid, and no
/// two entries that are kept share a key.
pub open spec fn level_valid(s: Seq<DirEntryView>) -> bool {
    &&& forall|i: int| 0 <= i < s.len() ==> valid_name(#[trigger] s[i].name)
    &&& forall|i: int, j: int|
        0 <= i < j < s.len() && s[i].id is Some && s[j].id is Some ==> #[trigger] sort_key(s[i])
            != #[trigger] sort_key(s[j])
}

/// The entries that stand in the tree: those with an id.
pub open spec fn kept(s: Seq<DirEntryView>) -> Set<DirEntryView> {
    s.to_set().filter(|e: DirEntryView| e.id is Some)
}

/// Entries in strictly increasing order of their keys.
pub open spec fn sorted_entries(t: Seq<DirEntryView>) -> bool {
    forall|a: int, b: int| 0 <= a < b < t.len() ==> entry_before(#[trigger] t[a], #[trigger] t[b])
}

/// The kept entries of a level in their canonical order.
pub open spec fn canonical_order(s: Seq<DirEntryView>) -> Seq<DirEntryView> {
    choose|t: Seq<DirEntryView>| t.to_set() == kept(s) && sorted_entries(t)
}

/// The bytes of one kept entry in a tree.
pub open spec fn entry_bytes(e: DirEntryView) -> Seq<u8> {
    match e.id {
        Some(id) => tree_entry(entry_mode(e.kind, e.permissions), e.name, id),
        None => Seq::empty(),
    }
}

/// The concatenated entries of a tree.
pub open spec fn level_payload(t: Seq<DirEntryView>) -> Seq<u8>
    decreases t.len(),
{
    if t.len() == 0 {
        Seq::empty()
    } else {
        level_payload(t.drop_last()) + entry_bytes(t.last())
    }
}

/// The payload of the tree of a level, or `None` where no entry is kept.
pub open spec fn tree_spec(s: Seq<DirEntryView>) -> Result<Option<Seq<u8>>, ObjectError> {
    if !level_valid(s) {
        Err(ObjectError::MalformedTreeEntry)
    } else {
        let p = level_payload(canonical_order(s));
        if p.len() == 0 {
            Ok(None)
        } else {
            Ok(Some(p))
        }
    }
}

/// Two sequences of entries in strictly increasing order that hold the same
/// entries are the same sequence.
pub proof fn lemma_sorted_unique(a: Seq<DirEntryView>, b: Seq<DirEntryView>)
    requires
        sorted_entries(a),
        sorted_entries(b),
        a.to_set() == b.to_set(),
    ensures
        a == b,
    decreases a.len(),
{
    if a.len() == 0 {
        if b.len() > 0 {
            assert(b.to_set().contains(b[0]));
        }
        assert(a =~= b);
    } else if b.len() == 0 {
        assert(a.to_set().contains(a[0]));
    } else {
        assert(b.to_set().contains(a[0]));
        assert(a.to_set().contains(b[0]));
        let j = choose|j: int| 0 <= j < b.len() && b[j] == a[0];
        let i = choose|i: int| 0 <= i < a.len() && a[i] == b[0];
        if j > 0 {
            assert(entry_before(b[0], b[j]));
            if i > 0 {
                assert(entry_before(a[0], a[i]));
                lemma_lex_transitive(sort_key(a[0]), sort_key(a[i]), sort_key(a[0]));
                lemma_lex_irreflexive(sort_key(a[0]));
            } else {
                lemma_lex_irreflexive(sort_key(a[0]));
            }
        }
        assert(a[0] == b[0]);
        let a1 = a.drop_first();
        let b1 = b.drop_first();
        assert(sorted_entries(a1)) by {
            assert forall|x: int, y: int| 0 <= x < y < a1.len() implies entry_before(
                #[trigger] a1[x],
                #[trigger] a1[y],
            ) by {
                assert(entry_before(a[x + 1], a[y + 1]));
            }
        }
        assert(sorted_entries(b1)) by {
            assert forall|x: int, y: int| 0 <= x < y < b1.len() implies entry_before(
                #[trigger] b1[x],
                #[trigger] b1[y],
            ) by {
                assert(entry_before(b[x + 1], b[y + 1]));
            }
        }
        assert forall|e: DirEntryView| #[trigger] a1.contains(e) implies b1.contains(e) by {
            let x = choose|x: int| 0 <= x < a1.len() && a1[x] == e;
            assert(a.to_set().contains(a[x + 1]));
            assert(b.to_set().contains(e));
            let y = choose|y: int| 0 <= y < b.len() && b[y] == e;
            assert(entry_before(a[0], a[x + 1]));
            if y == 0 {
                lemma_lex_irreflexive(sort_key(a[0]));
            }
            assert(b1[y - 1] == e);
        }
        assert forall|e: DirEntryView| #[trigger] b1.contains(e) implies a1.contains(e) by {
            let y = choose|y: int| 0 <= y < b1.len() && b1[y] == e;
            assert(b.to_set().contains(b[y + 1]));
            assert(a.to_set().contains(e));
            let x = choose|x: int| 0 <= x < a.len() && a[x] == e;
            assert(entry_before(b[0], b[y + 1]));
            if x == 0 {
                lemma_lex_irreflexive(sort_key(b[0]));
            }
            assert(a1[x - 1] == e);
        }
        assert(a1.to_set() =~= b1.to_set());
        lemma_sorted_unique(a1, b1);
        assert(a =~= seq![a[0]] + a1);
        assert(b =~= seq![b[0]] + b1);
    }
}

proof fn lemma_keys_differ(a: DirEntryView, b: DirEntryView)
    requires
        entry_before(a, b) || entry_before(b, a),
    ensures
        sort_key(a) != sort_key(b),
{
    lemma_lex_irreflexive(sort_key(a));
}

/// The order in which the kept entries of `entries` stand in their tree, as
/// positions in `entries`; a repeated key is an error.
fn sort_kept(entries: &Vec<DirEntry>, keys: &Vec<Vec<u8>>) -> (r: Result<Vec<usize>, ObjectError>)
    requires
        keys@.len() == entries@.len(),
        forall|k: int| 0 <= k < keys@.len() ==> #[trigger] keys@[k]@ == sort_key(entries@[k]@),
    ensures
        match r {
            Ok(order) => {
                let s = entry_views(entries@);
                &&& forall|k: int| 0 <= k < order@.len() ==> #[trigger] order@[k] < s.len()
                    && s[order@[k] as int].id is Some
                &&& forall|j: int|
                    0 <= j < s.len() && (#[trigger] s[j]).id is Some ==> exists|k: int|
                        0 <= k < order@.len() && order@[k] == j
                &&& forall|a: int, b: int|
                    0 <= a < b < order@.len() ==> entry_before(
                        s[#[trigger] order@[a] as int],
                        s[#[trigger] order@[b] as int],
                    )
                &&& forall|i: int, j: int|
                    0 <= i < j < s.len() && s[i].id is Some && s[j].id is Some ==> #[trigger] sort_key(
                        s[i],
                    ) != #[trigger] sort_key(s[j])
            },
            Err(e) => e == ObjectError::MalformedTreeEntry && !level_valid(entry_views(entries@)),
        },
{
    let ghost s = entry_views(entries@);
    let mut order: Vec<usize> = Vec::new();
    let mut i: usize = 0;
    while i < entries.len()
        invariant
            s == entry_views(entries@),
            i <= entries@.len(),
            keys@.len() == entries@.len(),
            forall|k: int| 0 <= k < keys@.len() ==> #[trigger] keys@[k]@ == sort_key(entries@[k]@),
            forall|k: int| 0 <= k < order@.len() ==> #[trigger] order@[k] < i && s[order@[k] as int].id is Some,
            forall|j: int|
                0 <= j < i && (#[trigger] s[j]).id is Some ==> exists|k: int|
                    0 <= k < order@.len() && order@[k] == j,
            forall|a: int, b: int|
                0 <= a < b < order@.len() ==> entry_before(
                    s[#[trigger] order@[a] as int],
                    s[#[trigger] order@[b] as int],
                ),
            forall|x: int, y: int|
                0 <= x < y < i && s[x].id is Some && s[y].id is Some ==> #[trigger] sort_key(s[x])
                    != #[trigger] sort_key(s[y]),
        decreases entries@.len() - i,
    {
        if entries[i].id.is_some() {
            assert(s[i as int].id is Some);
            let mut p: usize = 0;
            let mut scanning = true;
            while scanning && p < order.len()
                invariant
                    s == entry_views(entries@),
                    i < entries@.len(),
                    keys@.len() == entries@.len(),
                    forall|k: int| 0 <= k < keys@.len() ==> #[trigger] keys@[k]@ == sort_key(entries@[k]@),
                    forall|k: int| 0 <= k < order@.len() ==> #[trigger] order@[k] < i,
                    p <= order@.len(),
                    forall|q: int| 0 <= q < p ==> entry_before(s[#[trigger] order@[q] as int], s[i as int]),
                    !scanning ==> p < order@.len() && !entry_before(s[order@[p as int] as int], s[i as int]),
                decreases order@.len() - p + (if scanning { 1int } else { 0int }),
            {
                let o = order[p];
                if lex_less(keys[o].as_slice(), keys[i].as_slice()) {
                    p = p + 1;
                } else {
                    scanning = false;
                }
            }
            if p < order.len() {
                let o = order[p];
                if bytes_equal(keys[o].as_slice(), keys[i].as_slice()) {
                    assert(sort_key(s[o as int]) == sort_key(s[i as int]));
                    assert(!level_valid(s));
                    return Err(ObjectError::MalformedTreeEntry);
                }
            }
            proof {
                assert forall|q: int| p <= q < order@.len() implies entry_before(
                    s[i as int],
                    s[#[trigger] order@[q] as int],
                ) by {
                    let first = s[order@[p as int] as int];
                    lemma_lex_total(sort_key(first), sort_key(s[i as int]));
                    if q > p {
                        lemma_lex_transitive(
                            sort_key(s[i as int]),
                            sort_key(first),
                            sort_key(s[order@[q] as int]),
                        );
                    }
                }
            }
            let ghost old_order = order@;
            order.insert(p, i);
            assert(order@ == old_order.insert(p as int, i));
            proof {
                assert forall|a: int, b: int| 0 <= a < b < order@.len() implies entry_before(
                    s[#[trigger] order@[a] as int],
                    s[#[trigger] order@[b] as int],
                ) by {
                    if b < p {
                        assert(entry_before(s[old_order[a] as int], s[old_order[b] as int]));
                    } else if b == p {
                    } else if a < p {
                        assert(entry_before(s[old_order[a] as int], s[old_order[b - 1] as int]));
                    } else if a == p {
                        assert(order@[b] == old_order[b - 1]);
                    } else {
                        assert(entry_before(s[old_order[a - 1] as int], s[old_order[b - 1] as int]));
                    }
                }
                assert forall|j: int| 0 <= j < i + 1 && (#[trigger] s[j]).id is Some implies exists|k: int|
                    0 <= k < order@.len() && order@[k] == j by {
                    if j == i {
                        assert(order@[p as int] == j);
                    } else {
                        let k = choose|k: int| 0 <= k < old_order.len() && old_order[k] == j;
                        if k < p {
                            assert(order@[k] == j);
                        } else {
                            assert(order@[k + 1] == j);
                        }
                    }
                }
                assert forall|x: int, y: int|
                    0 <= x < y < i + 1 && s[x].id is Some && s[y].id is Some implies #[trigger] sort_key(
                        s[x],
                    ) != #[trigger] sort_key(s[y]) by {
                    if y == i {
                        let k = choose|k: int| 0 <= k < old_order.len() && old_order[k] == x;
                        if k < p {
                            lemma_keys_differ(s[x], s[y]);
                        } else {
                            lemma_keys_differ(s[x], s[y]);
                        }
                    }
                }
            }
        }
        i = i + 1;
    }
    Ok(order)
}

/// The tree object of one directory level, or `None` where no entry is
/// kept (the directory holds no file, and its parent leaves it out). Entries
/// without an id are left out; the others stand in canonical order, each as
/// `"<mode> <name>\0<raw-id>"`.
pub fn build_tree(entries: &Vec<DirEntry>) -> (r: Result<Option<StoredObject>, ObjectError>)
    ensures
        match tree_spec(entry_views(entries@)) {
            Err(e) => r == Err::<Option<StoredObject>, _>(e),
            Ok(None) => r matches Ok(None),
            Ok(Some(p)) => r matches Ok(Some(o)) && o.id@ == object_id(ObjectKind::Tree, p)
                && o.compressed@ == deflated(encoding(ObjectKind::Tree, p)) && inflated(
                o.compressed@,
            ) == Some(encoding(ObjectKind::Tree, p)),
        },
{
    let ghost s = entry_views(entries@);
    let mut i: usize = 0;
    while i < entries.len()
        invariant
            s == entry_views(entries@),
            i <= entries@.len(),
            forall|k: int| 0 <= k < i ==> valid_name(#[trigger] s[k].name),
        decreases entries@.len() - i,
    {
        if !is_valid_name(entries[i].name.as_slice()) {
            assert(!valid_name(s[i as int].name));
            return Err(ObjectError::MalformedTreeEntry);
        }
        i = i + 1;
    }
    let mut keys: Vec<Vec<u8>> = Vec::new();
    let mut i: usize = 0;
    while i < entries.len()
        invariant
            i <= entries@.len(),
            keys@.len() == i,
            forall|k: int| 0 <= k < i ==> #[trigger] keys@[k]@ == sort_key(entries@[k]@),
        decreases entries@.len() - i,
    {
        keys.push(entry_key(&entries[i]));
        i = i + 1;
    }
    let order = match sort_kept(entries, &keys) {
        Ok(o) => o,
        Err(e) => return Err(e),
    };
    let ghost t = Seq::new(order@.len(), |k: int| s[order@[k] as int]);
    proof {
        assert(level_valid(s));
        assert(sorted_entries(t)) by {
            assert forall|a: int, b: int| 0 <= a < b < t.len() implies entry_before(
                #[trigger] t[a],
                #[trigger] t[b],
            ) by {
                assert(entry_before(s[order@[a] as int], s[order@[b] as int]));
            }
        }
        assert forall|e: DirEntryView| #[trigger] t.to_set().contains(e) <==> kept(s).contains(e) by {
            if t.to_set().contains(e) {
                let k = choose|k: int| 0 <= k < t.len() && t[k] == e;
                assert(order@[k] < s.len());
                assert(s.to_set().contains(s[order@[k] as int]));
            }
            if kept(s).contains(e) {
                assert(s.to_set().contains(e));
                let j = choose|j: int| 0 <= j < s.len() && s[j] == e;
                assert(s[j].id is Some);
                let k = choose|k: int| 0 <= k < order@.len() && order@[k] == j;
                assert(t.to_set().contains(t[k]));
            }
        }
        assert(t.to_set() =~= kept(s));
        let c = canonical_order(s);
        assert(c.to_set() == kept(s) && sorted_entries(c));
        lemma_sorted_unique(c, t);
    }
    let mut out: Vec<u8> = Vec::new();
    let mut m: usize = 0;
    while m < order.len()
        invariant
            s == entry_views(entries@),
            t == Seq::new(order@.len(), |k: int| s[order@[k] as int]),
            forall|k: int| 0 <= k < order@.len() ==> #[trigger] order@[k] < s.len() && s[order@[k] as int].id is Some,
            m <= order@.len(),
            out@ == level_payload(t.take(m as int)),
        decreases order@.len() - m,
    {
        let e = &entries[order[m]];
        let mode = get_mode_for_entry(e.kind, e.permissions);
        match &e.id {
            Some(id) => {
                push_tree_entry(&mut out, mode.as_slice(), e.name.as_slice(), id.as_slice());
            },
            None => {},
        }
        assert(t.take(m + 1).drop_last() =~= t.take(m as int));
        m = m + 1;
    }
    assert(t.take(order@.len() as int) =~= t);
    if out.len() == 0 {
        return Ok(None);
    }
    let object = Object::new(ObjectKind::Tree, out);
    assert(object.payload@.take(object.expected_size as int) =~= object.payload@);
    match object.write() {
        Ok(stored) => Ok(Some(stored)),
        Err(e) => Err(e),
    }
}

/// The tree object of the working directory's top level; a working
/// directory that holds no file has none.
pub fn git_write_tree(entries: &Vec<DirEntry>) -> (r: Result<StoredObject, ObjectError>)
    ensures
        match tree_spec(entry_views(entries@)) {
            Err(e) => r == Err::<StoredObject, _>(e),
            Ok(None) => r == Err::<StoredObject, _>(ObjectError::EmptyTree),
            Ok(Some(p)) => r matches Ok(o) && o.id@ == object_id(ObjectKind::Tree, p)
                && o.compressed@ == deflated(encoding(ObjectKind::Tree, p)) && inflated(o.compressed@)
                == Some(encoding(ObjectKind::Tree, p)),
        },
{
    match build_tree(entries) {
        Ok(Some(o)) => Ok(o),
        Ok(None) => Err(ObjectError::EmptyTree),
        Err(e) => Err(e),
    }
}

/// The tree of a directory level depends only on which entries it holds
/// (name, kind, permissions, id), not on the order in which the walker
/// reports them. Since a subdirectory's id is its own tree's, the same holds
/// of a whole directory tree, level by level.
pub proof fn lemma_tree_order_independent(a: Seq<DirEntryView>, b: Seq<DirEntryView>)
    requires
        level_valid(a),
        level_valid(b),
        a.to_set() == b.to_set(),
    ensures
        tree_spec(a) == tree_spec(b),
{
    assert(kept(a) == kept(b));
}

/// A directory level where no entry is kept, such as one whose
/// subdirectories hold no file, has no tree.
pub proof fn lemma_no_kept_entry_no_tree(s: Seq<DirEntryView>)
    requires
        level_valid(s),
        forall|i: int| 0 <= i < s.len() ==> (#[trigger] s[i]).id is None,
    ensures
        tree_spec(s) == Ok::<Option<Seq<u8>>, ObjectError>(None),
{
    let empty = Seq::<DirEntryView>::empty();
    assert(kept(s) =~= empty.to_set());
    assert(sorted_entries(empty));
    let c = canonical_order(s);
    assert(c.to_set() == kept(s));
    if c.len() > 0 {
        assert(c.to_set().contains(c[0]));
    }
    assert(c.len() == 0);
}

/// A subdirectory that holds no file leaves no entry in its parent's tree:
/// adding it to a level changes nothing.
pub proof fn lemma_empty_subdirectory_left_out(s: Seq<DirEntryView>, e: DirEntryView)
    requires
        valid_name(e.name),
        e.id is None,
    ensures
        tree_spec(s.push(e)) == tree_spec(s),
{
    let s2 = s.push(e);
    assert(level_valid(s2) == level_valid(s)) by {
        if level_valid(s) {
            assert forall|i: int| 0 <= i < s2.len() implies valid_name(#[trigger] s2[i].name) by {
                if i < s.len() {
                    assert(s2[i] == s[i]);
                }
            }
            assert forall|i: int, j: int|
                0 <= i < j < s2.len() && s2[i].id is Some && s2[j].id is Some implies #[trigger] sort_key(
                    s2[i],
                ) != #[trigger] sort_key(s2[j]) by {
                assert(j < s.len());
                assert(s2[i] == s[i] && s2[j] == s[j]);
            }
        }
        if level_valid(s2) {
            assert forall|i: int| 0 <= i < s.len() implies valid_name(#[trigger] s[i].name) by {
                assert(s2[i] == s[i]);
                assert(valid_name(s2[i].name));
            }
            assert forall|i: int, j: int|
                0 <= i < j < s.len() && s[i].id is Some && s[j].id is Some implies #[trigger] sort_key(
                    s[i],
                ) != #[trigger] sort_key(s[j]) by {
                assert(s2[i] == s[i] && s2[j] == s[j]);
                assert(sort_key(s2[i]) != sort_key(s2[j]));
            }
        }
    }
    assert forall|x: DirEntryView| #[trigger] kept(s2).contains(x) <==> kept(s).contains(x) by {
        if s2.to_set().contains(x) && x.id is Some {
            let k = choose|k: int| 0 <= k < s2.len() && s2[k] == x;
            assert(k < s.len());
            assert(s[k] == x);
            assert(s.to_set().contains(x));
        }
        if s.to_set().contains(x) {
            let k = choose|k: int| 0 <= k < s.len() && s[k] == x;
            assert(s2[k] == x);
            assert(s2.to_set().contains(x));
        }
    }
    assert(kept(s2) =~= kept(s));
}

} // verus!
