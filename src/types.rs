use vstd::prelude::*;

verus! {

/// A 160-bit content hash, held as three machine words (big-endian order).
#[derive(Clone, Copy, Debug, PartialEq, Eq, Hash, Structural)]
pub struct ObjectId {
    pub hi: u64,
    pub mid: u64,
    pub lo: u32,
}

/// What a directory entry refers to. Entries of other kinds (symbolic
/// links, submodules) take no part in the count.
#[derive(Clone, Copy, Debug, PartialEq, Eq, Structural)]
pub enum EntryKind {
    Dir,
    File,
    Other,
}

/// One entry of a directory snapshot.
#[derive(Clone, Debug)]
pub struct TreeEntry {
    pub name: String,
    pub id: ObjectId,
    pub kind: EntryKind,
}

/// A subdirectory snapshot whose content was seen for the first time at its
/// path: it has to be resolved and folded into the record `node`.
#[derive(Clone, Copy, Debug, PartialEq, Eq, Structural)]
pub struct PendingDir {
    pub node: usize,
    pub id: ObjectId,
}

} // verus!
