use vstd::prelude::*;
use crate::path::{join, join_path, NamePath};
use crate::types::{EntryKind, ObjectId, PendingDir, TreeEntry};
use crate::order::{rearranges, rows_sorted, sort_rows, taken};

verus! {

/// Every content hash seen for one file name of a directory.
pub struct FileVersions {
    name: String,
    versions: Vec<ObjectId>,
}

/// The accumulation record of one directory path.
pub struct DirNode {
    /// The path's text, as `join` builds it.
    path: String,
    /// The last name of the path (empty at the root).
    name: String,
    /// Directory snapshot hashes already folded into this record.
    seen: Vec<ObjectId>,
    /// Content hashes seen for each file name of this directory.
    files: Vec<FileVersions>,
    /// The records of the subdirectories, as indices into the arena.
    children: Vec<usize>,
    /// The record of the enclosing directory (unused at the root).
    parent: usize,
    /// The path as a sequence of names.
    names: Ghost<NamePath>,
    /// Where this record stands in its parent's `children`.
    slot: Ghost<int>,
}

/// The tree of directory records, built lazily from the root (index 0).
/// Each record is owned by the cache and reached from its parent's list of
/// children; records are only ever added.
pub struct ChurnCache {
    nodes: Vec<DirNode>,
}

/// The (path, content) pairs that the file entries of `es` bring to the
/// directory at `p`.
pub open spec fn file_contrib(p: NamePath, es: Seq<TreeEntry>) -> Set<(NamePath, ObjectId)>
    decreases es.len(),
{
    if es.len() == 0 {
        Set::empty()
    } else {
        let rest = file_contrib(p, es.drop_last());
        let e = es.last();
        if e.kind == EntryKind::File {
            rest.insert((p.push(e.name@), e.id))
        } else {
            rest
        }
    }
}

/// The (path, snapshot) pairs that the directory entries of `es` bring to
/// the directory at `p`.
pub open spec fn dir_contrib(p: NamePath, es: Seq<TreeEntry>) -> Set<(NamePath, ObjectId)>
    decreases es.len(),
{
    if es.len() == 0 {
        Set::empty()
    } else {
        let rest = dir_contrib(p, es.drop_last());
        let e = es.last();
        if e.kind == EntryKind::Dir {
            rest.insert((p.push(e.name@), e.id))
        } else {
            rest
        }
    }
}

/// `q` is the path under `p` of a directory entry among the first `n` of `es`.
pub open spec fn names_dir_entry(p: NamePath, es: Seq<TreeEntry>, n: int, q: NamePath) -> bool {
    exists|k: int| 0 <= k < n && (#[trigger] es[k]).kind == EntryKind::Dir && q == p.push(es[k].name@)
}

proof fn lemma_contrib_has(p: NamePath, es: Seq<TreeEntry>, k: int)
    requires
        0 <= k < es.len(),
    ensures
        es[k].kind == EntryKind::Dir ==> dir_contrib(p, es).contains((p.push(es[k].name@), es[k].id)),
        es[k].kind == EntryKind::File ==> file_contrib(p, es).contains((p.push(es[k].name@), es[k].id)),
    decreases es.len(),
{
    if k < es.len() - 1 {
        lemma_contrib_has(p, es.drop_last(), k);
        assert(es.drop_last()[k] == es[k]);
    }
}

proof fn lemma_push_contains<T>(s: Seq<T>, x: T)
    ensures
        forall|y: T| #[trigger] s.push(x).contains(y) <==> s.contains(y) || y == x,
{
    assert forall|y: T| #[trigger] s.push(x).contains(y) <==> s.contains(y) || y == x by {
        if s.contains(y) {
            let k = choose|k: int| 0 <= k < s.len() && s[k] == y;
            assert(s.push(x)[k] == y);
        }
        if y == x {
            assert(s.push(x)[s.len() as int] == y);
        }
        if s.push(x).contains(y) && y != x {
            let k = choose|k: int| 0 <= k < s.len() + 1 && s.push(x)[k] == y;
            assert(s[k] == y);
        }
    }
}

proof fn lemma_push_no_dup<T>(s: Seq<T>, x: T)
    requires
        s.no_duplicates(),
        !s.contains(x),
    ensures
        s.push(x).no_duplicates(),
{
    assert forall|a: int, b: int| 0 <= a < b < s.len() + 1 implies s.push(x)[a] != s.push(x)[b] by {
        if b == s.len() {
            assert(s.push(x)[a] == s[a]);
        } else {
            assert(s.push(x)[a] == s[a] && s.push(x)[b] == s[b]);
        }
    }
}

/// Whether `id` occurs in `v`.
fn contains_id(v: &Vec<ObjectId>, id: ObjectId) -> (r: bool)
    ensures
        r == v@.contains(id),
{
    let mut i: usize = 0;
    while i < v.len()
        invariant
            i <= v.len(),
            forall|k: int| 0 <= k < i ==> v@[k] != id,
        decreases v.len() - i,
    {
        if v[i] == id {
            assert(v@[i as int] == id);
            return true;
        }
        i = i + 1;
    }
    false
}

spec fn seen_pairs_of(nodes: Seq<DirNode>) -> Set<(NamePath, ObjectId)> {
    Set::new(
        |pr: (NamePath, ObjectId)|
            exists|j: int|
                0 <= j < nodes.len() && nodes[j].names@ == pr.0 && #[trigger] nodes[j].seen@.contains(pr.1),
    )
}

spec fn file_pairs_of(nodes: Seq<DirNode>) -> Set<(NamePath, ObjectId)> {
    Set::new(
        |pr: (NamePath, ObjectId)|
            exists|j: int, k: int|
                0 <= j < nodes.len() && 0 <= k < nodes[j].files.len()
                    && nodes[j].names@.push(nodes[j].files[k].name@) == pr.0
                    && #[trigger] nodes[j].files[k].versions@.contains(pr.1),
    )
}

/// Records of `a` keep their paths and contents in `b`; the records that `b`
/// adds hold nothing yet.
spec fn grows_empty(a: Seq<DirNode>, b: Seq<DirNode>) -> bool {
    &&& a.len() <= b.len()
    &&& forall|j: int|
        0 <= j < a.len() ==> b[j].names@ == a[j].names@ && b[j].seen@ == a[j].seen@ && #[trigger] b[j].files@
            == a[j].files@
    &&& forall|j: int| a.len() <= j < b.len() ==> #[trigger] b[j].seen@.len() == 0 && b[j].files@.len() == 0
}

proof fn lemma_seen_member(nodes: Seq<DirNode>, j: int, id: ObjectId)
    requires
        0 <= j < nodes.len(),
        nodes[j].seen@.contains(id),
    ensures
        seen_pairs_of(nodes).contains((nodes[j].names@, id)),
{
    let pr = (nodes[j].names@, id);
    assert(nodes[j].names@ == pr.0 && nodes[j].seen@.contains(pr.1));
}

proof fn lemma_grows_empty(a: Seq<DirNode>, b: Seq<DirNode>)
    requires
        grows_empty(a, b),
    ensures
        seen_pairs_of(b) == seen_pairs_of(a),
        file_pairs_of(b) == file_pairs_of(a),
{
    assert forall|pr: (NamePath, ObjectId)| seen_pairs_of(b).contains(pr) <==> seen_pairs_of(a).contains(pr) by {
        if seen_pairs_of(b).contains(pr) {
            let j = choose|j: int| 0 <= j < b.len() && b[j].names@ == pr.0 && #[trigger] b[j].seen@.contains(pr.1);
            if j >= a.len() {
                assert(b[j].seen@.len() == 0);
            } else {
                assert(b[j].files@ == a[j].files@);
                assert(a[j].seen@.contains(pr.1));
            }
        }
        if seen_pairs_of(a).contains(pr) {
            let j = choose|j: int| 0 <= j < a.len() && a[j].names@ == pr.0 && #[trigger] a[j].seen@.contains(pr.1);
            assert(b[j].files@ == a[j].files@);
            assert(b[j].seen@.contains(pr.1));
        }
    }
    assert(seen_pairs_of(b) =~= seen_pairs_of(a));
    assert forall|pr: (NamePath, ObjectId)| file_pairs_of(b).contains(pr) <==> file_pairs_of(a).contains(pr) by {
        if file_pairs_of(b).contains(pr) {
            let (j, k) = choose|j: int, k: int|
                0 <= j < b.len() && 0 <= k < b[j].files.len() && b[j].names@.push(b[j].files[k].name@) == pr.0
                    && #[trigger] b[j].files[k].versions@.contains(pr.1);
            if j >= a.len() {
                assert(b[j].seen@.len() == 0);
                assert(b[j].files@.len() == 0);
            } else {
                assert(b[j].files@ == a[j].files@);
                assert(b[j].files[k] == a[j].files[k]);
                assert(a[j].files[k].versions@.contains(pr.1));
            }
        }
        if file_pairs_of(a).contains(pr) {
            let (j, k) = choose|j: int, k: int|
                0 <= j < a.len() && 0 <= k < a[j].files.len() && a[j].names@.push(a[j].files[k].name@) == pr.0
                    && #[trigger] a[j].files[k].versions@.contains(pr.1);
            assert(b[j].files@ == a[j].files@);
            assert(b[j].files[k] == a[j].files[k]);
            assert(b[j].files[k].versions@.contains(pr.1));
        }
    }
    assert(file_pairs_of(b) =~= file_pairs_of(a));
}

proof fn lemma_seen_push(a: Seq<DirNode>, b: Seq<DirNode>, c: int, id: ObjectId)
    requires
        0 <= c < a.len(),
        a.len() == b.len(),
        forall|j: int| 0 <= j < a.len() ==> (#[trigger] b[j]).names@ == a[j].names@ && b[j].files@ == a[j].files@,
        forall|j: int| 0 <= j < a.len() && j != c ==> (#[trigger] b[j]).seen@ == a[j].seen@,
        b[c].seen@ == a[c].seen@.push(id),
    ensures
        seen_pairs_of(b) == seen_pairs_of(a).insert((a[c].names@, id)),
        file_pairs_of(b) == file_pairs_of(a),
{
    lemma_push_contains(a[c].seen@, id);
    let t = seen_pairs_of(a).insert((a[c].names@, id));
    assert forall|pr: (NamePath, ObjectId)| seen_pairs_of(b).contains(pr) <==> t.contains(pr) by {
        if seen_pairs_of(b).contains(pr) {
            let j = choose|j: int| 0 <= j < b.len() && b[j].names@ == pr.0 && #[trigger] b[j].seen@.contains(pr.1);
            assert(b[j].names@ == a[j].names@);
            if j != c {
                assert(b[j].seen@ == a[j].seen@);
                assert(a[j].seen@.contains(pr.1));
            } else if pr.1 != id {
                assert(a[j].seen@.contains(pr.1));
            }
        }
        if seen_pairs_of(a).contains(pr) {
            let j = choose|j: int| 0 <= j < a.len() && a[j].names@ == pr.0 && #[trigger] a[j].seen@.contains(pr.1);
            assert(b[j].names@ == a[j].names@);
            if j != c {
                assert(b[j].seen@ == a[j].seen@);
            }
            assert(b[j].seen@.contains(pr.1));
        }
        if pr == (a[c].names@, id) {
            assert(b[c].names@ == a[c].names@);
            assert(b[c].seen@.contains(id));
        }
    }
    assert(seen_pairs_of(b) =~= t);
    assert forall|pr: (NamePath, ObjectId)| file_pairs_of(b).contains(pr) <==> file_pairs_of(a).contains(pr) by {
        if file_pairs_of(b).contains(pr) {
            let (j, k) = choose|j: int, k: int|
                0 <= j < b.len() && 0 <= k < b[j].files.len() && b[j].names@.push(b[j].files[k].name@) == pr.0
                    && #[trigger] b[j].files[k].versions@.contains(pr.1);
            assert(b[j].files@ == a[j].files@ && b[j].names@ == a[j].names@);
            assert(b[j].files[k] == a[j].files[k]);
            assert(a[j].files[k].versions@.contains(pr.1));
        }
        if file_pairs_of(a).contains(pr) {
            let (j, k) = choose|j: int, k: int|
                0 <= j < a.len() && 0 <= k < a[j].files.len() && a[j].names@.push(a[j].files[k].name@) == pr.0
                    && #[trigger] a[j].files[k].versions@.contains(pr.1);
            assert(b[j].files@ == a[j].files@ && b[j].names@ == a[j].names@);
            assert(b[j].files[k] == a[j].files[k]);
            assert(b[j].files[k].versions@.contains(pr.1));
        }
    }
    assert(file_pairs_of(b) =~= file_pairs_of(a));
}

proof fn lemma_file_push(a: Seq<DirNode>, b: Seq<DirNode>, c: int, k: int, id: ObjectId)
    requires
        0 <= c < a.len(),
        0 <= k < a[c].files.len(),
        a.len() == b.len(),
        forall|j: int| 0 <= j < a.len() ==> (#[trigger] b[j]).names@ == a[j].names@ && b[j].seen@ == a[j].seen@,
        forall|j: int| 0 <= j < a.len() && j != c ==> (#[trigger] b[j]).files@ == a[j].files@,
        b[c].files.len() == a[c].files.len(),
        forall|m: int| 0 <= m < a[c].files.len() ==> (#[trigger] b[c].files[m]).name@ == a[c].files[m].name@,
        forall|m: int| 0 <= m < a[c].files.len() && m != k ==> (#[trigger] b[c].files[m]).versions@ == a[c].files[m].versions@,
        b[c].files[k].versions@ == a[c].files[k].versions@.push(id),
    ensures
        file_pairs_of(b) == file_pairs_of(a).insert((a[c].names@.push(a[c].files[k].name@), id)),
        seen_pairs_of(b) == seen_pairs_of(a),
{
    lemma_push_contains(a[c].files[k].versions@, id);
    let t = file_pairs_of(a).insert((a[c].names@.push(a[c].files[k].name@), id));
    assert forall|pr: (NamePath, ObjectId)| file_pairs_of(b).contains(pr) <==> t.contains(pr) by {
        if file_pairs_of(b).contains(pr) {
            let (j, m) = choose|j: int, m: int|
                0 <= j < b.len() && 0 <= m < b[j].files.len() && b[j].names@.push(b[j].files[m].name@) == pr.0
                    && #[trigger] b[j].files[m].versions@.contains(pr.1);
            assert(b[j].names@ == a[j].names@);
            if j != c {
                assert(b[j].files@ == a[j].files@);
                assert(b[j].files[m] == a[j].files[m]);
                assert(a[j].files[m].versions@.contains(pr.1));
            } else {
                assert(b[c].files[m].name@ == a[c].files[m].name@);
                if m != k {
                    assert(b[c].files[m].versions@ == a[c].files[m].versions@);
                    assert(a[j].files[m].versions@.contains(pr.1));
                } else if pr.1 != id {
                    assert(a[j].files[m].versions@.contains(pr.1));
                }
            }
        }
        if file_pairs_of(a).contains(pr) {
            let (j, m) = choose|j: int, m: int|
                0 <= j < a.len() && 0 <= m < a[j].files.len() && a[j].names@.push(a[j].files[m].name@) == pr.0
                    && #[trigger] a[j].files[m].versions@.contains(pr.1);
            assert(b[j].names@ == a[j].names@);
            if j != c {
                assert(b[j].files@ == a[j].files@);
                assert(b[j].files[m] == a[j].files[m]);
            } else {
                assert(b[c].files[m].name@ == a[c].files[m].name@);
                if m != k {
                    assert(b[c].files[m].versions@ == a[c].files[m].versions@);
                }
            }
            assert(b[j].files[m].versions@.contains(pr.1));
        }
        if pr == (a[c].names@.push(a[c].files[k].name@), id) {
            assert(b[c].names@ == a[c].names@);
            assert(b[c].files[k].name@ == a[c].files[k].name@);
            assert(b[c].files[k].versions@.contains(id));
        }
    }
    assert(file_pairs_of(b) =~= t);
    assert forall|pr: (NamePath, ObjectId)| seen_pairs_of(b).contains(pr) <==> seen_pairs_of(a).contains(pr) by {
        if seen_pairs_of(b).contains(pr) {
            let j = choose|j: int| 0 <= j < b.len() && b[j].names@ == pr.0 && #[trigger] b[j].seen@.contains(pr.1);
            assert(b[j].names@ == a[j].names@);
            assert(a[j].seen@.contains(pr.1));
        }
        if seen_pairs_of(a).contains(pr) {
            let j = choose|j: int| 0 <= j < a.len() && a[j].names@ == pr.0 && #[trigger] a[j].seen@.contains(pr.1);
            assert(b[j].names@ == a[j].names@);
            assert(b[j].seen@.contains(pr.1));
        }
    }
    assert(seen_pairs_of(b) =~= seen_pairs_of(a));
}

proof fn lemma_file_add_empty(a: Seq<DirNode>, b: Seq<DirNode>, c: int)
    requires
        0 <= c < a.len(),
        a.len() == b.len(),
        forall|j: int| 0 <= j < a.len() ==> (#[trigger] b[j]).names@ == a[j].names@ && b[j].seen@ == a[j].seen@,
        forall|j: int| 0 <= j < a.len() && j != c ==> (#[trigger] b[j]).files@ == a[j].files@,
        b[c].files@.len() == a[c].files@.len() + 1,
        b[c].files@.drop_last() == a[c].files@,
        b[c].files@.last().versions@.len() == 0,
    ensures
        file_pairs_of(b) == file_pairs_of(a),
        seen_pairs_of(b) == seen_pairs_of(a),
{
    assert forall|pr: (NamePath, ObjectId)| file_pairs_of(b).contains(pr) <==> file_pairs_of(a).contains(pr) by {
        if file_pairs_of(b).contains(pr) {
            let (j, m) = choose|j: int, m: int|
                0 <= j < b.len() && 0 <= m < b[j].files.len() && b[j].names@.push(b[j].files[m].name@) == pr.0
                    && #[trigger] b[j].files[m].versions@.contains(pr.1);
            assert(b[j].names@ == a[j].names@);
            if j != c {
                assert(b[j].files@ == a[j].files@);
                assert(b[j].files[m] == a[j].files[m]);
            } else {
                if m == a[c].files.len() {
                    assert(b[c].files@.last() == b[c].files[m]);
                } else {
                    assert(b[c].files@.drop_last()[m] == b[c].files[m]);
                }
            }
            assert(a[j].files[m].versions@.contains(pr.1));
        }
        if file_pairs_of(a).contains(pr) {
            let (j, m) = choose|j: int, m: int|
                0 <= j < a.len() && 0 <= m < a[j].files.len() && a[j].names@.push(a[j].files[m].name@) == pr.0
                    && #[trigger] a[j].files[m].versions@.contains(pr.1);
            assert(b[j].names@ == a[j].names@);
            if j != c {
                assert(b[j].files@ == a[j].files@);
                assert(b[j].files[m] == a[j].files[m]);
            } else {
                assert(b[c].files@.drop_last()[m] == b[c].files[m]);
            }
            assert(b[j].files[m].versions@.contains(pr.1));
        }
    }
    assert(file_pairs_of(b) =~= file_pairs_of(a));
    assert forall|pr: (NamePath, ObjectId)| seen_pairs_of(b).contains(pr) <==> seen_pairs_of(a).contains(pr) by {
        if seen_pairs_of(b).contains(pr) {
            let j = choose|j: int| 0 <= j < b.len() && b[j].names@ == pr.0 && #[trigger] b[j].seen@.contains(pr.1);
            assert(b[j].names@ == a[j].names@);
            assert(a[j].seen@.contains(pr.1));
        }
        if seen_pairs_of(a).contains(pr) {
            let j = choose|j: int| 0 <= j < a.len() && a[j].names@ == pr.0 && #[trigger] a[j].seen@.contains(pr.1);
            assert(b[j].names@ == a[j].names@);
            assert(b[j].seen@.contains(pr.1));
        }
    }
    assert(seen_pairs_of(b) =~= seen_pairs_of(a));
}

proof fn lemma_file_member(nodes: Seq<DirNode>, j: int, k: int, id: ObjectId)
    requires
        0 <= j < nodes.len(),
        0 <= k < nodes[j].files.len(),
        nodes[j].files[k].versions@.contains(id),
    ensures
        file_pairs_of(nodes).contains((nodes[j].names@.push(nodes[j].files[k].name@), id)),
{
    let pr = (nodes[j].names@.push(nodes[j].files[k].name@), id);
    assert(nodes[j].names@.push(nodes[j].files[k].name@) == pr.0 && nodes[j].files[k].versions@.contains(pr.1));
}

/// The position of the record of `name` in `files`, if it has one.
fn find_file(files: &Vec<FileVersions>, name: &String) -> (r: Option<usize>)
    ensures
        r matches Some(k) ==> k < files.len() && files@[k as int].name@ == name@,
        r is None ==> forall|k: int| 0 <= k < files.len() ==> (#[trigger] files@[k]).name@ != name@,
{
    let mut i: usize = 0;
    while i < files.len()
        invariant
            i <= files.len(),
            forall|k: int| 0 <= k < i ==> (#[trigger] files@[k]).name@ != name@,
        decreases files.len() - i,
    {
        if files[i].name == *name {
            return Some(i);
        }
        i = i + 1;
    }
    None
}

impl ChurnCache {
    /// Number of directory records.
    pub closed spec fn num_dirs(self) -> nat {
        self.nodes@.len()
    }

    /// The path of record `i`.
    pub closed spec fn path_of(self, i: int) -> NamePath {
        self.nodes[i].names@
    }

    /// Every (directory path, snapshot hash) pair folded so far.
    pub closed spec fn seen_pairs(self) -> Set<(NamePath, ObjectId)> {
        seen_pairs_of(self.nodes@)
    }

    /// Every (file path, content hash) pair observed so far.
    pub closed spec fn file_pairs(self) -> Set<(NamePath, ObjectId)> {
        file_pairs_of(self.nodes@)
    }

    /// The content hashes observed for the file at `p`: its churn count is
    /// the size of this set.
    pub open spec fn versions(self, p: NamePath) -> Set<ObjectId> {
        Set::new(|id: ObjectId| self.file_pairs().contains((p, id)))
    }

    /// The records' paths: the root at the empty path, each path held once,
    /// and each record's text built from its path.
    spec fn wf_shape(self) -> bool {
        &&& self.nodes.len() >= 1
        &&& self.nodes[0].names@ == Seq::<Seq<char>>::empty()
        &&& forall|i: int|
            0 <= i < self.nodes.len() ==> #[trigger] self.nodes[i].path@ == join_path(
                self.nodes[i].names@,
            )
        &&& forall|i: int, j: int|
            0 <= i < self.nodes.len() && 0 <= j < self.nodes.len() && i != j
                ==> self.nodes[i].names@ != self.nodes[j].names@
    }

    /// Each record but the root is listed by its parent, under its last name.
    spec fn wf_links(self) -> bool {
        forall|j: int|
            1 <= j < self.nodes.len() ==> {
                let n = #[trigger] self.nodes[j];
                let par = n.parent as int;
                &&& par < self.nodes.len()
                &&& n.names@.len() > 0
                &&& self.nodes[par].names@ == n.names@.drop_last()
                &&& n.name@ == n.names@.last()
                &&& 0 <= n.slot@ < self.nodes[par].children.len()
                &&& self.nodes[par].children[n.slot@] == j
            }
    }

    /// Each listed child names its lister as parent.
    spec fn wf_children(self) -> bool {
        forall|i: int, k: int|
            0 <= i < self.nodes.len() && 0 <= k < self.nodes[i].children.len() ==> {
                let c = #[trigger] self.nodes[i].children[k] as int;
                &&& 1 <= c < self.nodes.len()
                &&& self.nodes[c].parent == i
            }
    }

    /// Hash lists without repeats, and file names held once per record.
    spec fn wf_sets(self) -> bool {
        &&& forall|i: int|
            0 <= i < self.nodes.len() ==> (#[trigger] self.nodes[i].seen@).no_duplicates()
        &&& forall|i: int, k: int|
            0 <= i < self.nodes.len() && 0 <= k < self.nodes[i].files.len()
                ==> (#[trigger] self.nodes[i].files[k].versions@).no_duplicates()
        &&& forall|i: int, k1: int, k2: int|
            0 <= i < self.nodes.len() && 0 <= k1 < self.nodes[i].files.len() && 0 <= k2
                < self.nodes[i].files.len() && k1 != k2 ==> #[trigger] self.nodes[i].files[k1].name@
                != #[trigger] self.nodes[i].files[k2].name@
    }

    /// Every file path observed so far.
    pub open spec fn file_paths(self) -> Set<NamePath> {
        Set::new(|p: NamePath| exists|id: ObjectId| self.file_pairs().contains((p, id)))
    }

    /// A report row for the file at `p`: its text and its churn count.
    pub open spec fn row_of(self, row: (String, usize), p: NamePath) -> bool {
        &&& self.file_paths().contains(p)
        &&& row.0@ == join_path(p)
        &&& self.versions(p).finite()
        &&& row.1 == self.versions(p).len()
    }

    /// No file record is empty.
    spec fn wf_nonempty(self) -> bool {
        forall|i: int, k: int|
            0 <= i < self.nodes.len() && 0 <= k < self.nodes[i].files.len()
                ==> (#[trigger] self.nodes[i].files[k].versions@).len() > 0
    }

    #[verifier::opaque]
    pub closed spec fn wf(self) -> bool {
        &&& self.wf_nonempty()
        &&& self.wf_shape()
        &&& self.wf_links()
        &&& self.wf_children()
        &&& self.wf_sets()
    }

    /// An empty cache holding the root record alone.
    pub fn new() -> (r: ChurnCache)
        ensures
            r.wf(),
            r.num_dirs() == 1,
            r.path_of(0) == Seq::<Seq<char>>::empty(),
            r.seen_pairs() == Set::<(NamePath, ObjectId)>::empty(),
            r.file_pairs() == Set::<(NamePath, ObjectId)>::empty(),
    {
        proof {
            reveal(ChurnCache::wf);
        }
        let root = DirNode {
            path: String::new(),
            name: String::new(),
            seen: Vec::new(),
            files: Vec::new(),
            children: Vec::new(),
            parent: 0,
            names: Ghost(Seq::empty()),
            slot: Ghost(0),
        };
        let mut nodes: Vec<DirNode> = Vec::new();
        nodes.push(root);
        let r = ChurnCache { nodes };
        assert(r.seen_pairs() =~= Set::<(NamePath, ObjectId)>::empty());
        assert(r.file_pairs() =~= Set::<(NamePath, ObjectId)>::empty());
        r
    }
    /// The number of directory records.
    pub fn dir_count(&self) -> (n: usize)
        ensures
            n == self.num_dirs(),
    {
        self.nodes.len()
    }

    /// Hash lists and file records stay sound when no file record changes
    /// and the records added hold nothing.
    proof fn lemma_sets_frame(a: ChurnCache, b: ChurnCache)
        requires
            a.wf_sets(),
            a.wf_nonempty(),
            a.nodes.len() <= b.nodes.len(),
            forall|j: int| 0 <= j < a.nodes.len() ==> (#[trigger] b.nodes[j]).files@ == a.nodes[j].files@,
            forall|j: int| 0 <= j < b.nodes.len() ==> (#[trigger] b.nodes[j]).seen@.no_duplicates(),
            forall|j: int| a.nodes.len() <= j < b.nodes.len() ==> (#[trigger] b.nodes[j]).files@.len() == 0,
        ensures
            b.wf_sets(),
            b.wf_nonempty(),
    {
        assert forall|j: int, k: int|
            0 <= j < b.nodes.len() && 0 <= k < b.nodes[j].files.len() implies
                (#[trigger] b.nodes[j].files[k].versions@).no_duplicates()
                && b.nodes[j].files[k].versions@.len() > 0 by {
            assert(b.nodes[j].files[k] == a.nodes[j].files[k]);
        }
        assert forall|j: int, k1: int, k2: int|
            0 <= j < b.nodes.len() && 0 <= k1 < b.nodes[j].files.len() && 0 <= k2 < b.nodes[j].files.len()
                && k1 != k2 implies #[trigger] b.nodes[j].files[k1].name@ != #[trigger] b.nodes[j].files[k2].name@ by {
            assert(b.nodes[j].files[k1] == a.nodes[j].files[k1]);
            assert(b.nodes[j].files[k2] == a.nodes[j].files[k2]);
        }
    }

    /// Hash lists and file records stay sound when only record `i` changes
    /// its file records, and those are sound.
    proof fn lemma_sets_node_update(a: ChurnCache, b: ChurnCache, i: int)
        requires
            a.wf_sets(),
            a.wf_nonempty(),
            0 <= i < a.nodes.len(),
            a.nodes.len() == b.nodes.len(),
            forall|j: int| 0 <= j < a.nodes.len() && j != i ==> #[trigger] b.nodes[j] == a.nodes[j],
            b.nodes[i].seen@ == a.nodes[i].seen@,
            forall|k: int| 0 <= k < b.nodes[i].files.len() ==>
                (#[trigger] b.nodes[i].files[k].versions@).no_duplicates() && b.nodes[i].files[k].versions@.len() > 0,
            forall|k1: int, k2: int|
                0 <= k1 < b.nodes[i].files.len() && 0 <= k2 < b.nodes[i].files.len() && k1 != k2
                ==> #[trigger] b.nodes[i].files[k1].name@ != #[trigger] b.nodes[i].files[k2].name@,
        ensures
            b.wf_sets(),
            b.wf_nonempty(),
    {
        assert forall|j: int| 0 <= j < b.nodes.len() implies (#[trigger] b.nodes[j].seen@).no_duplicates() by {
            if j != i {
                assert(b.nodes[j] == a.nodes[j]);
            }
            assert(a.nodes[j].seen@.no_duplicates());
        }
        assert forall|j: int, k: int|
            0 <= j < b.nodes.len() && 0 <= k < b.nodes[j].files.len() implies
                (#[trigger] b.nodes[j].files[k].versions@).no_duplicates()
                && b.nodes[j].files[k].versions@.len() > 0 by {
            if j != i {
                assert(b.nodes[j] == a.nodes[j]);
                assert(a.nodes[j].files[k].versions@.no_duplicates());
            }
        }
        assert forall|j: int, k1: int, k2: int|
            0 <= j < b.nodes.len() && 0 <= k1 < b.nodes[j].files.len() && 0 <= k2 < b.nodes[j].files.len()
                && k1 != k2 implies #[trigger] b.nodes[j].files[k1].name@ != #[trigger] b.nodes[j].files[k2].name@ by {
            if j != i {
                assert(b.nodes[j] == a.nodes[j]);
                assert(a.nodes[j].files[k1].name@ != a.nodes[j].files[k2].name@);
            } else {
                assert(b.nodes[i].files[k1].name@ != b.nodes[i].files[k2].name@);
            }
        }
    }

    /// Registers `id` as folded into record `c`. Returns true exactly when it
    /// was not registered there before.
    pub fn mark_seen(&mut self, c: usize, id: ObjectId) -> (r: bool)
        requires
            old(self).wf(),
            c < old(self).num_dirs(),
        ensures
            final(self).wf(),
            final(self).num_dirs() == old(self).num_dirs(),
            forall|j: int| 0 <= j < old(self).num_dirs() ==> final(self).path_of(j) == old(self).path_of(j),
            r == !old(self).seen_pairs().contains((old(self).path_of(c as int), id)),
            final(self).seen_pairs() == old(self).seen_pairs().insert((old(self).path_of(c as int), id)),
            final(self).file_pairs() == old(self).file_pairs(),
            !r ==> *final(self) == *old(self),
    {
        proof {
            reveal(ChurnCache::wf);
        }
        let ghost a = *self;
        let found = contains_id(&self.nodes[c].seen, id);
        let ghost pa = a.path_of(c as int);
        if found {
            proof { lemma_seen_member(a.nodes@, c as int, id); }
            assert(a.seen_pairs().insert((pa, id)) =~= a.seen_pairs());
            return false;
        }
        proof {
            if a.seen_pairs().contains((pa, id)) {
                let j = choose|j: int|
                    0 <= j < a.nodes.len() && a.nodes[j].names@ == pa && #[trigger] a.nodes[j].seen@.contains(id);
                assert(j == c);
            }
        }
        self.nodes[c].seen.push(id);
        proof {
            let b = *self;
            assert(b.nodes[c as int].seen@ == a.nodes[c as int].seen@.push(id));
            lemma_push_contains(a.nodes[c as int].seen@, id);
            assert forall|j: int| 0 <= j < b.nodes.len() implies (#[trigger] b.nodes[j]).seen@.no_duplicates() by {
                if j == c {
                    assert(a.nodes[j].seen@.no_duplicates());
                } else {
                    assert(b.nodes[j] == a.nodes[j]);
                }
            }
            lemma_seen_push(a.nodes@, b.nodes@, c as int, id);
            ChurnCache::lemma_sets_frame(a, b);
        }
        true
    }

    proof fn lemma_file_pair_at(self, i: int, name: Seq<char>, id: ObjectId)
        requires
            self.wf(),
            0 <= i < self.nodes.len(),
            self.file_pairs().contains((self.nodes[i].names@.push(name), id)),
        ensures
            exists|k: int|
                0 <= k < self.nodes[i].files.len() && self.nodes[i].files[k].name@ == name
                    && #[trigger] self.nodes[i].files[k].versions@.contains(id),
    {
        reveal(ChurnCache::wf);
        let p = self.nodes[i].names@.push(name);
        let (j, m) = choose|j: int, m: int|
            0 <= j < self.nodes.len() && 0 <= m < self.nodes[j].files.len()
                && self.nodes[j].names@.push(self.nodes[j].files[m].name@) == (p, id).0
                && #[trigger] self.nodes[j].files[m].versions@.contains((p, id).1);
        assert(self.nodes[j].names@ =~= p.drop_last());
        assert(self.nodes[i].names@ =~= p.drop_last());
        assert(j == i);
        assert(self.nodes[i].files[m].name@ == p.last());
    }

    /// A folded (path, snapshot) pair has a record at its path.
    pub proof fn lemma_seen_has_record(self, p: NamePath, id: ObjectId)
        requires
            self.seen_pairs().contains((p, id)),
        ensures
            exists|j: int| 0 <= j < self.num_dirs() && self.path_of(j) == p,
    {
        let j = choose|j: int|
            0 <= j < self.nodes.len() && self.nodes[j].names@ == (p, id).0 && #[trigger] self.nodes[j].seen@.contains(
                (p, id).1,
            );
        assert(self.path_of(j) == p);
    }

    /// Registers `id` as one content seen for the file `name` of record `i`.
    pub fn record_file_version(&mut self, i: usize, name: &String, id: ObjectId)
        requires
            old(self).wf(),
            i < old(self).num_dirs(),
        ensures
            final(self).wf(),
            final(self).num_dirs() == old(self).num_dirs(),
            forall|j: int| 0 <= j < old(self).num_dirs() ==> final(self).path_of(j) == old(self).path_of(j),
            final(self).seen_pairs() == old(self).seen_pairs(),
            final(self).file_pairs() == old(self).file_pairs().insert((old(self).path_of(i as int).push(name@), id)),
            old(self).file_pairs().contains((old(self).path_of(i as int).push(name@), id)) ==> *final(self) == *old(self),
    {
        proof {
            reveal(ChurnCache::wf);
        }
        let ghost a = *self;
        let ghost p = a.path_of(i as int).push(name@);
        proof {
            if a.file_pairs().contains((p, id)) {
                a.lemma_file_pair_at(i as int, name@, id);
            }
        }
        let k = match find_file(&self.nodes[i].files, name) {
            Some(k) => k,
            None => {
                let fresh = FileVersions { name: name.clone(), versions: Vec::new() };
                self.nodes[i].files.push(fresh);
                proof {
                    let b = *self;
                    assert(b.nodes[i as int].files@.drop_last() == a.nodes[i as int].files@);
                    lemma_file_add_empty(a.nodes@, b.nodes@, i as int);
                }
                self.nodes[i].files.len() - 1
            },
        };
        let ghost m = *self;
        assert(m.nodes[i as int].files[k as int].name@ == name@);
        proof {
            // the record of `name` is the only one under that name, and the
            // others are those of `a`
            assert forall|k2: int| 0 <= k2 < m.nodes[i as int].files.len() && k2 != k implies
                #[trigger] m.nodes[i as int].files[k2] == a.nodes[i as int].files[k2]
                && m.nodes[i as int].files[k2].name@ != name@ by {
                assert(k2 < a.nodes[i as int].files.len());
                assert(m.nodes[i as int].files@[k2] == a.nodes[i as int].files@[k2]);
            }
            if (k as int) < a.nodes[i as int].files.len() {
                assert(m.nodes[i as int].files[k as int] == a.nodes[i as int].files[k as int]);
                assert(a.nodes[i as int].files[k as int].versions@.no_duplicates());
            } else {
                assert(m.nodes[i as int].files[k as int].versions@.len() == 0);
            }
        }
        if contains_id(&self.nodes[i].files[k].versions, id) {
            proof {
                lemma_file_member(m.nodes@, i as int, k as int, id);
                assert(m.file_pairs().insert((p, id)) =~= m.file_pairs());
                assert(m == a) by {
                    if (k as int) >= a.nodes[i as int].files.len() {
                        assert(m.nodes[i as int].files[k as int].versions@.len() == 0);
                    }
                }
            }
            return;
        }
        proof {
            if a.file_pairs().contains((p, id)) {
                let k2 = choose|k2: int|
                    0 <= k2 < a.nodes[i as int].files.len() && a.nodes[i as int].files[k2].name@ == name@
                        && #[trigger] a.nodes[i as int].files[k2].versions@.contains(id);
                assert(k2 == k);
                assert(false);
            }
        }
        self.nodes[i].files[k].versions.push(id);
        proof {
            let b = *self;
            lemma_file_push(m.nodes@, b.nodes@, i as int, k as int, id);
            lemma_push_contains(m.nodes[i as int].files[k as int].versions@, id);
            lemma_push_no_dup(m.nodes[i as int].files[k as int].versions@, id);
            assert forall|k2: int| 0 <= k2 < b.nodes[i as int].files.len() implies
                (#[trigger] b.nodes[i as int].files[k2].versions@).no_duplicates()
                && b.nodes[i as int].files[k2].versions@.len() > 0 by {
                if k2 != k {
                    assert(b.nodes[i as int].files[k2] == m.nodes[i as int].files[k2]);
                }
            }
            assert forall|k1: int, k2: int|
                0 <= k1 < b.nodes[i as int].files.len() && 0 <= k2 < b.nodes[i as int].files.len() && k1 != k2
                implies #[trigger] b.nodes[i as int].files[k1].name@ != #[trigger] b.nodes[i as int].files[k2].name@ by {
                if k1 != k && k2 != k {
                    assert(b.nodes[i as int].files[k1] == a.nodes[i as int].files[k1]);
                    assert(b.nodes[i as int].files[k2] == a.nodes[i as int].files[k2]);
                    assert(a.nodes[i as int].files[k1].name@ != a.nodes[i as int].files[k2].name@);
                } else if k1 == k {
                    assert(b.nodes[i as int].files[k2] == m.nodes[i as int].files[k2]);
                } else {
                    assert(b.nodes[i as int].files[k1] == m.nodes[i as int].files[k1]);
                }
            }
            ChurnCache::lemma_sets_node_update(a, b, i as int);
        }
    }

    proof fn lemma_child_of(self, i: int, k: int)
        requires
            self.wf(),
            0 <= i < self.nodes.len(),
            0 <= k < self.nodes[i].children.len(),
        ensures
            1 <= self.nodes[i].children[k] < self.nodes.len(),
            self.nodes[self.nodes[i].children[k] as int].names@ == self.nodes[i].names@.push(
                self.nodes[self.nodes[i].children[k] as int].name@,
            ),
    {
        reveal(ChurnCache::wf);
        let nc = self.nodes[self.nodes[i].children[k] as int];
        assert(nc.names@ =~= nc.names@.drop_last().push(nc.names@.last()));
    }

    proof fn lemma_absent(self, i: int, name: Seq<char>)
        requires
            self.wf(),
            0 <= i < self.nodes.len(),
            forall|m: int|
                0 <= m < self.nodes[i].children.len() ==> self.nodes[self.nodes[i].children[m] as int].name@ != name,
        ensures
            forall|j: int| 0 <= j < self.nodes.len() ==> self.nodes[j].names@ != self.nodes[i].names@.push(name),
    {
        reveal(ChurnCache::wf);
        let p = self.nodes[i].names@.push(name);
        assert forall|j: int| 0 <= j < self.nodes.len() implies self.nodes[j].names@ != p by {
            if self.nodes[j].names@ == p {
                assert(j != 0);
                let nj = self.nodes[j];
                assert(p.drop_last() =~= self.nodes[i].names@);
                assert(nj.parent == i);
                assert(self.nodes[i].children[nj.slot@] == j);
            }
        }
    }

    /// What adding record `c` as the last child of record `i` keeps.
    spec fn adds_child(a: ChurnCache, b: ChurnCache, i: int) -> bool {
        let c = a.nodes.len() as int;
        let n = b.nodes[c];
        &&& 0 <= i < a.nodes.len()
        &&& b.nodes.len() == a.nodes.len() + 1
        &&& forall|j: int| 0 <= j < a.nodes.len() && j != i ==> #[trigger] b.nodes[j] == a.nodes[j]
        &&& b.nodes[i].path == a.nodes[i].path
        &&& b.nodes[i].name == a.nodes[i].name
        &&& b.nodes[i].seen == a.nodes[i].seen
        &&& b.nodes[i].files == a.nodes[i].files
        &&& b.nodes[i].parent == a.nodes[i].parent
        &&& b.nodes[i].names == a.nodes[i].names
        &&& b.nodes[i].slot == a.nodes[i].slot
        &&& b.nodes[i].children@ == a.nodes[i].children@.push(c as usize)
        &&& n.names@ == a.nodes[i].names@.push(n.name@)
        &&& n.path@ == join_path(n.names@)
        &&& n.seen@.len() == 0
        &&& n.files@.len() == 0
        &&& n.children@.len() == 0
        &&& n.parent == i
        &&& n.slot@ == a.nodes[i].children.len()
        &&& forall|j: int| 0 <= j < a.nodes.len() ==> a.nodes[j].names@ != n.names@
    }

    proof fn lemma_add_child_shape(a: ChurnCache, b: ChurnCache, i: int)
        requires
            a.wf_shape(),
            ChurnCache::adds_child(a, b, i),
        ensures
            b.wf_shape(),
    {
    }

    #[verifier::rlimit(40)]
    proof fn lemma_add_child_links(a: ChurnCache, b: ChurnCache, i: int)
        requires
            a.wf_links(),
            ChurnCache::adds_child(a, b, i),
        ensures
            b.wf_links(),
    {
        let c = a.nodes.len() as int;
        let nc = b.nodes[c];
        assert(nc.names@.drop_last() =~= a.nodes[i].names@);
        assert forall|j: int| 1 <= j < b.nodes.len() implies {
            let n = #[trigger] b.nodes[j];
            let par = n.parent as int;
            &&& par < b.nodes.len()
            &&& n.names@.len() > 0
            &&& b.nodes[par].names@ == n.names@.drop_last()
            &&& n.name@ == n.names@.last()
            &&& 0 <= n.slot@ < b.nodes[par].children.len()
            &&& b.nodes[par].children[n.slot@] == j
        } by {
            if j < c {
                let par = a.nodes[j].parent as int;
                assert(b.nodes[j].parent == a.nodes[j].parent && b.nodes[j].names == a.nodes[j].names
                    && b.nodes[j].name == a.nodes[j].name && b.nodes[j].slot == a.nodes[j].slot);
                assert(b.nodes[par].names == a.nodes[par].names);
                if par == i {
                    assert(b.nodes[i].children[a.nodes[j].slot@] == a.nodes[i].children[a.nodes[j].slot@]);
                } else {
                    assert(b.nodes[par] == a.nodes[par]);
                }
            }
        }
    }

    proof fn lemma_add_child_children(a: ChurnCache, b: ChurnCache, i: int)
        requires
            a.wf_children(),
            ChurnCache::adds_child(a, b, i),
        ensures
            b.wf_children(),
    {
        assert forall|i2: int, k: int| 0 <= i2 < b.nodes.len() && 0 <= k < b.nodes[i2].children.len() implies {
            let ch = #[trigger] b.nodes[i2].children[k] as int;
            &&& 1 <= ch < b.nodes.len()
            &&& b.nodes[ch].parent == i2
        } by {
            if i2 == i && k < a.nodes[i].children.len() {
                assert(b.nodes[i].children[k] == a.nodes[i].children[k]);
            }
        }
    }

    proof fn lemma_add_child_sets(a: ChurnCache, b: ChurnCache, i: int)
        requires
            a.wf_sets(),
            a.wf_nonempty(),
            ChurnCache::adds_child(a, b, i),
        ensures
            b.wf_sets(),
            b.wf_nonempty(),
    {
        assert forall|j: int| 0 <= j < a.nodes.len() implies (#[trigger] b.nodes[j]).files@ == a.nodes[j].files@ by {
            if j != i {
                assert(b.nodes[j] == a.nodes[j]);
            }
        }
        assert forall|j: int| 0 <= j < b.nodes.len() implies (#[trigger] b.nodes[j]).seen@.no_duplicates() by {
            if j < a.nodes.len() && j != i {
                assert(b.nodes[j] == a.nodes[j]);
            } else if j < a.nodes.len() {
                assert(a.nodes[j].seen@.no_duplicates());
            }
        }
        ChurnCache::lemma_sets_frame(a, b);
    }

    /// The record of the subdirectory `name` of record `i`, created empty
    /// when it does not exist yet.
    pub fn get_or_create_child(&mut self, i: usize, name: &String) -> (c: usize)
        requires
            old(self).wf(),
            i < old(self).num_dirs(),
        ensures
            final(self).wf(),
            old(self).num_dirs() <= final(self).num_dirs() <= old(self).num_dirs() + 1,
            forall|j: int| 0 <= j < old(self).num_dirs() ==> final(self).path_of(j) == old(self).path_of(j),
            c < final(self).num_dirs(),
            final(self).path_of(c as int) == old(self).path_of(i as int).push(name@),
            final(self).seen_pairs() == old(self).seen_pairs(),
            final(self).file_pairs() == old(self).file_pairs(),
            final(self).num_dirs() == old(self).num_dirs() <==> exists|j: int|
                0 <= j < old(self).num_dirs() && old(self).path_of(j) == old(self).path_of(i as int).push(name@),
            (exists|j: int|
                0 <= j < old(self).num_dirs() && old(self).path_of(j) == old(self).path_of(i as int).push(name@))
                ==> *final(self) == *old(self),
    {
        let ghost a = *self;
        let ghost p = a.path_of(i as int).push(name@);
        let n = self.nodes[i].children.len();
        let mut k: usize = 0;
        while k < n
            invariant
                *self == a,
                a.wf(),
                i < a.nodes.len(),
                n == a.nodes[i as int].children.len(),
                k <= n,
                forall|m: int| 0 <= m < k ==> a.nodes[a.nodes[i as int].children[m] as int].name@ != name@,
            decreases n - k,
        {
            proof {
                a.lemma_child_of(i as int, k as int);
            }
            let ch = self.nodes[i].children[k];
            if self.nodes[ch].name == *name {
                assert(a.path_of(ch as int) == a.path_of(i as int).push(name@));
                return ch;
            }
            k = k + 1;
        }
        proof {
            a.lemma_absent(i as int, name@);
            a.lemma_root();
        }
        let c = self.nodes.len();
        let text = join(self.nodes[i].path.as_str(), name.as_str());
        let slot = self.nodes[i].children.len();
        self.nodes[i].children.push(c);
        let node = DirNode {
            path: text,
            name: name.clone(),
            seen: Vec::new(),
            files: Vec::new(),
            children: Vec::new(),
            parent: i,
            names: Ghost(p),
            slot: Ghost(slot as int),
        };
        self.nodes.push(node);
        proof {
            let b = *self;
            a.lemma_path_text(i as int);
            assert(p.drop_last() =~= a.nodes[i as int].names@);
            assert(ChurnCache::adds_child(a, b, i as int));
            reveal(ChurnCache::wf);
            ChurnCache::lemma_add_child_shape(a, b, i as int);
            ChurnCache::lemma_add_child_links(a, b, i as int);
            ChurnCache::lemma_add_child_children(a, b, i as int);
            ChurnCache::lemma_add_child_sets(a, b, i as int);
            assert(grows_empty(a.nodes@, b.nodes@));
            lemma_grows_empty(a.nodes@, b.nodes@);
        }
        c
    }

    proof fn lemma_path_text(self, i: int)
        requires
            self.wf(),
            0 <= i < self.nodes.len(),
        ensures
            self.nodes[i].path@ == join_path(self.nodes[i].names@),
    {
        reveal(ChurnCache::wf);
    }
    /// A well-formed cache holds the root record, at the empty path.
    pub proof fn lemma_root(self)
        requires
            self.wf(),
        ensures
            self.num_dirs() >= 1,
            self.path_of(0) == Seq::<Seq<char>>::empty(),
    {
        reveal(ChurnCache::wf);
    }

    /// Distinct records stand for distinct paths.
    pub proof fn lemma_paths_distinct(self, i: int, j: int)
        requires
            self.wf(),
            0 <= i < self.num_dirs(),
            0 <= j < self.num_dirs(),
            i != j,
        ensures
            self.path_of(i) != self.path_of(j),
    {
        reveal(ChurnCache::wf);
    }

    /// The (path, snapshot) pair that a pending subdirectory stands for.
    pub open spec fn pending_pair(self, q: PendingDir) -> (NamePath, ObjectId) {
        (self.path_of(q.node as int), q.id)
    }

    /// `pending` names, once each, exactly the pairs of `brought` that were
    /// not folded in `before`.
    pub open spec fn pending_exact(
        self,
        before: ChurnCache,
        brought: Set<(NamePath, ObjectId)>,
        pending: Seq<PendingDir>,
    ) -> bool {
        &&& forall|m: int| 0 <= m < pending.len() ==> {
            let q = #[trigger] pending[m];
            &&& q.node < self.num_dirs()
            &&& brought.contains(self.pending_pair(q))
            &&& !before.seen_pairs().contains(self.pending_pair(q))
        }
        &&& forall|pr: (NamePath, ObjectId)|
            brought.contains(pr) && !before.seen_pairs().contains(pr) ==> exists|m: int|
                0 <= m < pending.len() && self.pending_pair(#[trigger] pending[m]) == pr
        &&& forall|m1: int, m2: int|
            0 <= m1 < pending.len() && 0 <= m2 < pending.len() && m1 != m2 ==> self.pending_pair(
                #[trigger] pending[m1],
            ) != self.pending_pair(#[trigger] pending[m2])
    }

    proof fn lemma_pending_frame(
        self,
        later: ChurnCache,
        before: ChurnCache,
        brought: Set<(NamePath, ObjectId)>,
        pending: Seq<PendingDir>,
    )
        requires
            self.pending_exact(before, brought, pending),
            self.num_dirs() <= later.num_dirs(),
            forall|j: int| 0 <= j < self.num_dirs() ==> later.path_of(j) == self.path_of(j),
        ensures
            later.pending_exact(before, brought, pending),
    {
        assert forall|m: int| 0 <= m < pending.len() implies #[trigger] later.pending_pair(pending[m])
            == self.pending_pair(pending[m]) by {
            assert(pending[m].node < self.num_dirs());
        }
        assert forall|pr: (NamePath, ObjectId)|
            brought.contains(pr) && !before.seen_pairs().contains(pr) implies exists|m: int|
                0 <= m < pending.len() && later.pending_pair(#[trigger] pending[m]) == pr by {
            let m = choose|m: int| 0 <= m < pending.len() && self.pending_pair(#[trigger] pending[m]) == pr;
            assert(later.pending_pair(pending[m]) == pr);
        }
    }

    proof fn lemma_pending_known(
        self,
        before: ChurnCache,
        brought: Set<(NamePath, ObjectId)>,
        pending: Seq<PendingDir>,
        pr: (NamePath, ObjectId),
    )
        requires
            self.pending_exact(before, brought, pending),
            brought.contains(pr) || before.seen_pairs().contains(pr),
        ensures
            self.pending_exact(before, brought.insert(pr), pending),
    {
        let t = brought.insert(pr);
        assert forall|pr2: (NamePath, ObjectId)| t.contains(pr2) && !before.seen_pairs().contains(pr2) implies exists|m: int|
            0 <= m < pending.len() && self.pending_pair(#[trigger] pending[m]) == pr2 by {
            assert(brought.contains(pr2));
        }
    }

    proof fn lemma_pending_new(
        self,
        before: ChurnCache,
        brought: Set<(NamePath, ObjectId)>,
        pending: Seq<PendingDir>,
        q: PendingDir,
    )
        requires
            self.pending_exact(before, brought, pending),
            q.node < self.num_dirs(),
            !brought.contains(self.pending_pair(q)),
            !before.seen_pairs().contains(self.pending_pair(q)),
        ensures
            self.pending_exact(before, brought.insert(self.pending_pair(q)), pending.push(q)),
    {
        let t = brought.insert(self.pending_pair(q));
        let ps = pending.push(q);
        assert forall|m: int| 0 <= m < ps.len() implies {
            let q2 = #[trigger] ps[m];
            &&& q2.node < self.num_dirs()
            &&& t.contains(self.pending_pair(q2))
            &&& !before.seen_pairs().contains(self.pending_pair(q2))
        } by {
            if m < pending.len() {
                assert(ps[m] == pending[m]);
            }
        }
        assert forall|pr2: (NamePath, ObjectId)| t.contains(pr2) && !before.seen_pairs().contains(pr2) implies exists|m: int|
            0 <= m < ps.len() && self.pending_pair(#[trigger] ps[m]) == pr2 by {
            if pr2 == self.pending_pair(q) {
                assert(ps[pending.len() as int] == q);
            } else {
                let m = choose|m: int| 0 <= m < pending.len() && self.pending_pair(#[trigger] pending[m]) == pr2;
                assert(ps[m] == pending[m]);
            }
        }
        assert forall|m1: int, m2: int|
            0 <= m1 < ps.len() && 0 <= m2 < ps.len() && m1 != m2 implies self.pending_pair(#[trigger] ps[m1])
            != self.pending_pair(#[trigger] ps[m2]) by {
            if m1 < pending.len() {
                assert(ps[m1] == pending[m1]);
            }
            if m2 < pending.len() {
                assert(ps[m2] == pending[m2]);
            }
        }
    }

    /// Each record past the first `before.num_dirs()` stands under `p` for
    /// one of the first `n` entries of `es`, a directory entry.
    pub open spec fn added_only_dirs(self, before: ChurnCache, p: NamePath, es: Seq<TreeEntry>, n: int) -> bool {
        forall|j: int| before.num_dirs() <= j < self.num_dirs() ==> #[trigger] names_dir_entry(p, es, n, self.path_of(j))
    }

    /// Some record stands at path `q`.
    pub open spec fn has_record(self, q: NamePath) -> bool {
        exists|j: int| 0 <= j < self.num_dirs() && self.path_of(j) == q
    }

    /// Each directory entry among the first `n` of `es` has a record under `p`.
    pub open spec fn dirs_present(self, p: NamePath, es: Seq<TreeEntry>, n: int) -> bool {
        forall|k: int| 0 <= k < n && es[k].kind == EntryKind::Dir ==> #[trigger] self.has_record(p.push(es[k].name@))
    }

    /// Folds one directory snapshot, given as its entries, into record `i`.
    /// File entries are recorded at once. Each directory entry marks its
    /// hash as seen in the child record; the entries whose hash is new at
    /// their path come back, once each, and their snapshots are folded in
    /// turn by the caller. An entry whose hash was already seen there never
    /// comes back.
    pub fn fold_snapshot(&mut self, i: usize, entries: &Vec<TreeEntry>) -> (pending: Vec<PendingDir>)
        requires
            old(self).wf(),
            i < old(self).num_dirs(),
        ensures
            final(self).wf(),
            old(self).num_dirs() <= final(self).num_dirs(),
            forall|j: int| 0 <= j < old(self).num_dirs() ==> final(self).path_of(j) == old(self).path_of(j),
            final(self).file_pairs() == old(self).file_pairs() + file_contrib(old(self).path_of(i as int), entries@),
            final(self).seen_pairs() == old(self).seen_pairs() + dir_contrib(old(self).path_of(i as int), entries@),
            final(self).pending_exact(*old(self), dir_contrib(old(self).path_of(i as int), entries@), pending@),
            final(self).added_only_dirs(*old(self), old(self).path_of(i as int), entries@, entries@.len() as int),
            final(self).dirs_present(old(self).path_of(i as int), entries@, entries@.len() as int),
            dir_contrib(old(self).path_of(i as int), entries@).subset_of(old(self).seen_pairs())
                && file_contrib(old(self).path_of(i as int), entries@).subset_of(old(self).file_pairs())
                ==> *final(self) == *old(self),
    {
        let ghost a = *self;
        let ghost p = a.path_of(i as int);
        let mut pending: Vec<PendingDir> = Vec::new();
        let mut k: usize = 0;
        assert(a.seen_pairs() + dir_contrib(p, entries@.take(0)) =~= a.seen_pairs());
        assert(a.file_pairs() + file_contrib(p, entries@.take(0)) =~= a.file_pairs());
        while k < entries.len()
            invariant
                self.wf(),
                p == a.path_of(i as int),
                k <= entries.len(),
                i < a.num_dirs() <= self.num_dirs(),
                forall|j: int| 0 <= j < a.num_dirs() ==> self.path_of(j) == a.path_of(j),
                self.file_pairs() == a.file_pairs() + file_contrib(p, entries@.take(k as int)),
                self.seen_pairs() == a.seen_pairs() + dir_contrib(p, entries@.take(k as int)),
                self.pending_exact(a, dir_contrib(p, entries@.take(k as int)), pending@),
                self.added_only_dirs(a, p, entries@, k as int),
                self.dirs_present(p, entries@, k as int),
                dir_contrib(p, entries@).subset_of(a.seen_pairs()) && file_contrib(p, entries@).subset_of(a.file_pairs())
                    ==> *self == a,
            decreases entries.len() - k,
        {
            let ghost before = *self;
            let ghost dc = dir_contrib(p, entries@.take(k as int));
            let ghost fc = file_contrib(p, entries@.take(k as int));
            let e = &entries[k];
            let ghost pr = (p.push(e.name@), e.id);
            assert(self.path_of(i as int) == a.path_of(i as int));
            assert(entries@.take(k + 1).drop_last() =~= entries@.take(k as int));
            assert(entries@.take(k + 1).last() == entries@[k as int]);
            proof {
                lemma_contrib_has(p, entries@, k as int);
                if dir_contrib(p, entries@).subset_of(a.seen_pairs()) && file_contrib(p, entries@).subset_of(a.file_pairs())
                    && e.kind == EntryKind::Dir {
                    a.lemma_seen_has_record(pr.0, e.id);
                }
            }
            match e.kind {
                EntryKind::Dir => {
                    assert(dir_contrib(p, entries@.take(k + 1)) == dc.insert(pr));
                    assert(file_contrib(p, entries@.take(k + 1)) == fc);
                    let c = self.get_or_create_child(i, &e.name);
                    let ghost mid = *self;
                    assert(mid.path_of(c as int) == p.push(e.name@));
                    let fresh = self.mark_seen(c, e.id);
                    proof {
                        assert(mid.path_of(c as int) == pr.0);
                        assert(mid.seen_pairs() == a.seen_pairs() + dc);
                        before.lemma_pending_frame(*self, a, dc, pending@);
                        assert(self.seen_pairs() =~= a.seen_pairs() + dc.insert(pr));
                        assert(self.path_of(c as int) == pr.0);
                        assert forall|j: int| a.num_dirs() <= j < self.num_dirs() implies
                            #[trigger] names_dir_entry(p, entries@, k + 1, self.path_of(j)) by {
                            if j < before.num_dirs() {
                                assert(self.path_of(j) == before.path_of(j));
                                assert(names_dir_entry(p, entries@, k as int, before.path_of(j)));
                                let k2 = choose|k2: int|
                                    0 <= k2 < k && (#[trigger] entries@[k2]).kind == EntryKind::Dir
                                        && before.path_of(j) == p.push(entries@[k2].name@);
                                assert(entries@[k2].kind == EntryKind::Dir);
                            } else {
                                assert(j == c);
                                assert(entries@[k as int] == *e);
                                assert(entries@[k as int].kind == EntryKind::Dir);
                            }
                        }
                        assert forall|k2: int| 0 <= k2 < k + 1 && entries@[k2].kind == EntryKind::Dir
                            implies #[trigger] self.has_record(p.push(entries@[k2].name@)) by {
                            if k2 < k {
                                assert(before.has_record(p.push(entries@[k2].name@)));
                                let j = choose|j: int| 0 <= j < before.num_dirs() && before.path_of(j) == p.push(entries@[k2].name@);
                                assert(self.path_of(j) == before.path_of(j));
                            } else {
                                assert(entries@[k as int] == *e);
                                assert(self.path_of(c as int) == p.push(entries@[k2].name@));
                                assert(self.has_record(p.push(entries@[k2].name@)));
                            }
                        }
                    }
                    if fresh {
                        let q = PendingDir { node: c, id: e.id };
                        proof {
                            assert(self.pending_pair(q) == pr);
                            self.lemma_pending_new(a, dc, pending@, q);
                        }
                        pending.push(q);
                    } else {
                        proof {
                            self.lemma_pending_known(a, dc, pending@, pr);
                        }
                    }
                },
                EntryKind::File => {
                    assert(dir_contrib(p, entries@.take(k + 1)) == dc);
                    assert(file_contrib(p, entries@.take(k + 1)) == fc.insert(pr));
                    self.record_file_version(i, &e.name, e.id);
                    proof {
                        before.lemma_pending_frame(*self, a, dc, pending@);
                        assert(self.file_pairs() =~= a.file_pairs() + fc.insert(pr));
                        assert forall|j: int| a.num_dirs() <= j < self.num_dirs() implies
                            #[trigger] names_dir_entry(p, entries@, k + 1, self.path_of(j)) by {
                            assert(self.path_of(j) == before.path_of(j));
                            assert(names_dir_entry(p, entries@, k as int, before.path_of(j)));
                            let k2 = choose|k2: int|
                                0 <= k2 < k && (#[trigger] entries@[k2]).kind == EntryKind::Dir
                                    && before.path_of(j) == p.push(entries@[k2].name@);
                            assert(entries@[k2].kind == EntryKind::Dir);
                        }
                        assert forall|k2: int| 0 <= k2 < k + 1 && entries@[k2].kind == EntryKind::Dir
                            implies #[trigger] self.has_record(p.push(entries@[k2].name@)) by {
                            if k2 < k {
                                assert(before.has_record(p.push(entries@[k2].name@)));
                                let j = choose|j: int| 0 <= j < before.num_dirs() && before.path_of(j) == p.push(entries@[k2].name@);
                                assert(self.path_of(j) == before.path_of(j));
                            } else {
                                assert(entries@[k as int] == *e);
                            }
                        }
                    }
                },
                EntryKind::Other => {
                    assert(dir_contrib(p, entries@.take(k + 1)) == dc);
                    assert(file_contrib(p, entries@.take(k + 1)) == fc);
                    assert forall|j: int| a.num_dirs() <= j < self.num_dirs() implies
                        #[trigger] names_dir_entry(p, entries@, k + 1, self.path_of(j)) by {
                        assert(names_dir_entry(p, entries@, k as int, self.path_of(j)));
                        let k2 = choose|k2: int|
                            0 <= k2 < k && (#[trigger] entries@[k2]).kind == EntryKind::Dir
                                && self.path_of(j) == p.push(entries@[k2].name@);
                        assert(entries@[k2].kind == EntryKind::Dir);
                    }
                },
            }
            k = k + 1;
        }
        assert(entries@.take(entries.len() as int) =~= entries@);
        pending
    }

    /// Folds the root snapshot of one commit. The root record is never gated
    /// by a hash: its entries are gone through for every commit.
    pub fn fold_root(&mut self, entries: &Vec<TreeEntry>) -> (pending: Vec<PendingDir>)
        requires
            old(self).wf(),
        ensures
            final(self).wf(),
            old(self).num_dirs() <= final(self).num_dirs(),
            forall|j: int| 0 <= j < old(self).num_dirs() ==> final(self).path_of(j) == old(self).path_of(j),
            final(self).file_pairs() == old(self).file_pairs() + file_contrib(Seq::empty(), entries@),
            final(self).seen_pairs() == old(self).seen_pairs() + dir_contrib(Seq::empty(), entries@),
            final(self).pending_exact(*old(self), dir_contrib(Seq::empty(), entries@), pending@),
            final(self).added_only_dirs(*old(self), Seq::empty(), entries@, entries@.len() as int),
            final(self).dirs_present(Seq::empty(), entries@, entries@.len() as int),
            dir_contrib(Seq::empty(), entries@).subset_of(old(self).seen_pairs())
                && file_contrib(Seq::empty(), entries@).subset_of(old(self).file_pairs())
                ==> *final(self) == *old(self),
    {
        proof {
            self.lemma_root();
        }
        self.fold_snapshot(0, entries)
    }
    proof fn lemma_versions_of(self, i: int, k: int)
        requires
            self.wf(),
            0 <= i < self.nodes.len(),
            0 <= k < self.nodes[i].files.len(),
        ensures
            self.versions(self.nodes[i].names@.push(self.nodes[i].files[k].name@))
                == self.nodes[i].files[k].versions@.to_set(),
            self.file_paths().contains(self.nodes[i].names@.push(self.nodes[i].files[k].name@)),
            self.nodes[i].files[k].versions@.to_set().finite(),
            self.nodes[i].files[k].versions@.to_set().len() == self.nodes[i].files[k].versions@.len(),
    {
        reveal(ChurnCache::wf);
        let f = self.nodes[i].files[k];
        let p = self.nodes[i].names@.push(f.name@);
        assert forall|id: ObjectId| self.versions(p).contains(id) <==> f.versions@.to_set().contains(id) by {
            if self.versions(p).contains(id) {
                let (j, m) = choose|j: int, m: int|
                    0 <= j < self.nodes.len() && 0 <= m < self.nodes[j].files.len()
                        && self.nodes[j].names@.push(self.nodes[j].files[m].name@) == (p, id).0
                        && #[trigger] self.nodes[j].files[m].versions@.contains((p, id).1);
                assert(self.nodes[j].names@ =~= p.drop_last());
                assert(self.nodes[i].names@ =~= p.drop_last());
                assert(j == i);
                assert(self.nodes[j].files[m].name@ == p.last());
                assert(self.nodes[i].files[k].name@ == p.last());
                if m != k {
                    assert(self.nodes[i].files[m].name@ != self.nodes[i].files[k].name@);
                }
            }
            if f.versions@.contains(id) {
                lemma_file_member(self.nodes@, i, k, id);
            }
        }
        assert(self.versions(p) =~= f.versions@.to_set());
        f.versions@.unique_seq_to_set();
        assert(f.versions@.contains(f.versions@[0]));
        lemma_file_member(self.nodes@, i, k, f.versions@[0]);
    }

    proof fn lemma_file_path_origin(self, p: NamePath)
        requires
            self.wf(),
            self.file_paths().contains(p),
        ensures
            exists|i: int, k: int|
                0 <= i < self.nodes.len() && 0 <= k < self.nodes[i].files.len()
                    && #[trigger] self.nodes[i].files[k].name@ == p.last()
                    && self.nodes[i].names@.push(self.nodes[i].files[k].name@) == p,
    {
        let id = choose|id: ObjectId| self.file_pairs().contains((p, id));
        let (j, m) = choose|j: int, m: int|
            0 <= j < self.nodes.len() && 0 <= m < self.nodes[j].files.len()
                && self.nodes[j].names@.push(self.nodes[j].files[m].name@) == (p, id).0
                && #[trigger] self.nodes[j].files[m].versions@.contains((p, id).1);
        assert(self.nodes[j].files[m].name@ == p.last());
    }

    /// The path of file record `m` of directory record `j`.
    spec fn file_path(self, j: int, m: int) -> NamePath {
        self.nodes[j].names@.push(self.nodes[j].files[m].name@)
    }

    /// The rows report the observed file paths `origin`, row by row: each
    /// path once, and every observed path.
    pub open spec fn reports(self, rows: Seq<(String, usize)>, origin: Seq<NamePath>) -> bool {
        &&& origin.len() == rows.len()
        &&& forall|r: int| 0 <= r < rows.len() ==> #[trigger] self.row_of(rows[r], origin[r])
        &&& origin.no_duplicates()
        &&& forall|p: NamePath| self.file_paths().contains(p) ==> #[trigger] origin.contains(p)
    }

    proof fn lemma_file_paths_distinct(self, j: int, m: int, i: int, k: int)
        requires
            self.wf(),
            0 <= j < self.nodes.len(),
            0 <= m < self.nodes[j].files.len(),
            0 <= i < self.nodes.len(),
            0 <= k < self.nodes[i].files.len(),
            j != i || m != k,
        ensures
            self.file_path(j, m) != self.file_path(i, k),
    {
        reveal(ChurnCache::wf);
        if self.file_path(j, m) == self.file_path(i, k) {
            assert(self.file_path(j, m).drop_last() =~= self.nodes[j].names@);
            assert(self.file_path(i, k).drop_last() =~= self.nodes[i].names@);
            assert(j == i);
            assert(self.nodes[i].files[m].name@ == self.file_path(j, m).last());
            assert(self.nodes[i].files[k].name@ == self.file_path(i, k).last());
            assert(self.nodes[i].files[m].name@ != self.nodes[i].files[k].name@);
        }
    }

    proof fn lemma_reports_rearranged(
        self,
        unsorted: Seq<(String, usize)>,
        origin: Seq<NamePath>,
        sorted: Seq<(String, usize)>,
        perm: Seq<int>,
    )
        requires
            self.reports(unsorted, origin),
            rearranges(sorted, unsorted, perm),
        ensures
            self.reports(sorted, Seq::new(sorted.len(), |m: int| origin[perm[m]])),
    {
        let o2 = Seq::new(sorted.len(), |m: int| origin[perm[m]]);
        assert forall|r: int| 0 <= r < sorted.len() implies #[trigger] self.row_of(sorted[r], o2[r]) by {
            assert(0 <= perm[r] < unsorted.len());
            assert(self.row_of(unsorted[perm[r]], origin[perm[r]]));
        }
        assert forall|a: int, b: int| 0 <= a < o2.len() && 0 <= b < o2.len() && a != b implies o2[a] != o2[b] by {
            assert(perm[a] != perm[b]);
            assert(0 <= perm[a] < unsorted.len() && 0 <= perm[b] < unsorted.len());
        }
        assert forall|p: NamePath| self.file_paths().contains(p) implies #[trigger] o2.contains(p) by {
            assert(origin.contains(p));
            let u = choose|u: int| 0 <= u < origin.len() && origin[u] == p;
            assert(taken(perm, u));
            let m = choose|m: int| 0 <= m < perm.len() && perm[m] == u;
            assert(o2[m] == p);
        }
    }

    /// One row per file path observed: the path joined by `/` and the number
    /// of distinct contents seen there, sorted by the bytes of the path.
    pub fn flatten(&self) -> (rows: Vec<(String, usize)>)
        requires
            self.wf(),
        ensures
            rows_sorted(rows@),
            exists|origin: Seq<NamePath>| self.reports(rows@, origin),
    {
        let mut rows: Vec<(String, usize)> = Vec::new();
        let ghost mut origin: Seq<NamePath> = Seq::empty();
        let ghost mut src: Seq<(int, int)> = Seq::empty();
        let mut i: usize = 0;
        while i < self.nodes.len()
            invariant
                self.wf(),
                i <= self.nodes.len(),
                origin.len() == rows@.len(),
                src.len() == rows@.len(),
                forall|r: int| 0 <= r < rows@.len() ==> #[trigger] self.row_of(rows@[r], origin[r]),
                forall|r: int| 0 <= r < rows@.len() ==> {
                    let (j, m) = #[trigger] src[r];
                    &&& 0 <= j < i
                    &&& 0 <= m < self.nodes[j].files.len()
                    &&& origin[r] == self.file_path(j, m)
                },
                forall|a: int, b: int| 0 <= a < rows@.len() && 0 <= b < rows@.len() && a != b ==> #[trigger] src[a] != #[trigger] src[b],
                forall|j: int, m: int| #![trigger self.file_path(j, m)]
                    0 <= j < i && 0 <= m < self.nodes[j].files.len() ==> origin.contains(self.file_path(j, m)),
            decreases self.nodes.len() - i,
        {
            let node = &self.nodes[i];
            let mut k: usize = 0;
            while k < node.files.len()
                invariant
                    self.wf(),
                    i < self.nodes.len(),
                    *node == self.nodes[i as int],
                    k <= node.files.len(),
                    origin.len() == rows@.len(),
                    src.len() == rows@.len(),
                    forall|r: int| 0 <= r < rows@.len() ==> #[trigger] self.row_of(rows@[r], origin[r]),
                    forall|r: int| 0 <= r < rows@.len() ==> {
                        let (j, m) = #[trigger] src[r];
                        &&& (0 <= j < i || (j == i && m < k))
                        &&& 0 <= m < self.nodes[j].files.len()
                        &&& origin[r] == self.file_path(j, m)
                    },
                    forall|a: int, b: int| 0 <= a < rows@.len() && 0 <= b < rows@.len() && a != b ==> #[trigger] src[a] != #[trigger] src[b],
                    forall|j: int, m: int| #![trigger self.file_path(j, m)]
                        (0 <= j < i && 0 <= m < self.nodes[j].files.len()) || (j == i && 0 <= m < k)
                            ==> origin.contains(self.file_path(j, m)),
                decreases node.files.len() - k,
            {
                let f = &node.files[k];
                let text = join(node.path.as_str(), f.name.as_str());
                let row = (text, f.versions.len());
                let ghost p = node.names@.push(f.name@);
                proof {
                    self.lemma_versions_of(i as int, k as int);
                    self.lemma_path_text(i as int);
                    assert(p.drop_last() =~= node.names@);
                    assert(self.row_of(row, p));
                    assert(self.file_path(i as int, k as int) == p);
                }
                let ghost rows0 = rows@;
                let ghost origin0 = origin;
                let ghost src0 = src;
                rows.push(row);
                proof {
                    origin = origin0.push(p);
                    src = src0.push((i as int, k as int));
                    assert forall|r: int| 0 <= r < rows@.len() implies #[trigger] self.row_of(rows@[r], origin[r]) by {
                        if r < rows0.len() {
                            assert(rows@[r] == rows0[r] && origin[r] == origin0[r]);
                        }
                    }
                    assert forall|r: int| 0 <= r < rows@.len() implies {
                        let (j, m) = #[trigger] src[r];
                        &&& (0 <= j < i || (j == i && m < k + 1))
                        &&& 0 <= m < self.nodes[j].files.len()
                        &&& origin[r] == self.file_path(j, m)
                    } by {
                        if r < rows0.len() {
                            assert(src[r] == src0[r] && origin[r] == origin0[r]);
                        }
                    }
                    assert forall|a: int, b: int| 0 <= a < rows@.len() && 0 <= b < rows@.len() && a != b
                        implies #[trigger] src[a] != #[trigger] src[b] by {
                        if a < rows0.len() && b < rows0.len() {
                            assert(src[a] == src0[a] && src[b] == src0[b]);
                        } else if a < rows0.len() {
                            assert(src[a] == src0[a]);
                        } else if b < rows0.len() {
                            assert(src[b] == src0[b]);
                        }
                    }
                    assert forall|j: int, m: int| #![trigger self.file_path(j, m)]
                        (0 <= j < i && 0 <= m < self.nodes[j].files.len()) || (j == i && 0 <= m < k + 1)
                            implies origin.contains(self.file_path(j, m)) by {
                        if j == i && m == k {
                            assert(origin[rows0.len() as int] == p);
                        } else {
                            assert(origin0.contains(self.file_path(j, m)));
                            let r = choose|r: int| 0 <= r < origin0.len() && origin0[r] == self.file_path(j, m);
                            assert(origin[r] == origin0[r]);
                        }
                    }
                }
                k = k + 1;
            }
            i = i + 1;
        }
        proof {
            assert forall|a: int, b: int| 0 <= a < origin.len() && 0 <= b < origin.len() && a != b implies origin[a] != origin[b] by {
                let (j1, m1) = src[a];
                let (j2, m2) = src[b];
                assert(src[a] != src[b]);
                self.lemma_file_paths_distinct(j1, m1, j2, m2);
            }
            assert forall|p: NamePath| self.file_paths().contains(p) implies #[trigger] origin.contains(p) by {
                self.lemma_file_path_origin(p);
                let (j, m) = choose|j: int, m: int|
                    0 <= j < self.nodes.len() && 0 <= m < self.nodes[j].files.len()
                        && #[trigger] self.nodes[j].files[m].name@ == p.last()
                        && self.nodes[j].names@.push(self.nodes[j].files[m].name@) == p;
                assert(self.file_path(j, m) == p);
            }
            assert(self.reports(rows@, origin));
        }
        let ghost unsorted = rows@;
        let sorted = sort_rows(rows);
        proof {
            let perm = choose|perm: Seq<int>| rearranges(sorted@, unsorted, perm);
            self.lemma_reports_rearranged(unsorted, origin, sorted@, perm);
        }
        sorted
    }
}

} // verus!
