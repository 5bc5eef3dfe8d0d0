//! The work tree: the root handle and the entries the directory walkers
//! yield. The walkers themselves do file I/O and live with the caller; the
//! entry values and the path arithmetic are fixed here.

use crate::bytes::subvec;
use crate::meta::Metadata;
use vstd::prelude::*;

verus! {

/// The work-tree root path.
pub struct Workspace {
    pub root: Vec<u8>,
}

impl Workspace {
    /// A work tree rooted at `root`.
    pub fn new(root: Vec<u8>) -> (r: Workspace)
        ensures
            r.root@ == root@,
    {
        Workspace { root }
    }

    /// The root path.
    pub fn root(&self) -> (r: &Vec<u8>)
        ensures
            r == self.root,
    {
        &self.root
    }
}

/// The mathematical model of one walked entry.
pub struct WsEntryView {
    pub path: Seq<u8>,
    pub metadata: Metadata,
}

/// One walked work-tree entry: its path relative to the root and its
/// normalized metadata.
pub struct Entry {
    pub path: Vec<u8>,
    pub metadata: Metadata,
}

impl View for Entry {
    type V = WsEntryView;

    open spec fn view(&self) -> WsEntryView {
        WsEntryView { path: self.path@, metadata: self.metadata }
    }
}

impl Entry {
    /// Builds an entry from a relative path and its stat snapshot.
    pub fn new(path: Vec<u8>, metadata: Metadata) -> (r: Entry)
        ensures
            r.path@ == path@,
            r.metadata == metadata,
    {
        Entry { path, metadata }
    }

    /// The path relative to the work-tree root.
    pub fn relative_path(&self) -> (r: &Vec<u8>)
        ensures
            r == self.path,
    {
        &self.path
    }

    /// The path relative to the work-tree root.
    pub fn path(&self) -> (r: &Vec<u8>)
        ensures
            r == self.path,
    {
        &self.path
    }

    /// The entry's stat snapshot.
    pub fn metadata(&self) -> (r: &Metadata)
        ensures
            r == self.metadata,
    {
        &self.metadata
    }
}

impl Clone for Entry {
    fn clone(&self) -> (r: Entry)
        ensures
            r.path@ == self.path@,
            r.metadata == self.metadata,
    {
        let r = Entry {
            path: subvec(self.path.as_slice(), 0, self.path.len()),
            metadata: self.metadata,
        };
        proof {
            assert(self.path@.subrange(0, self.path@.len() as int) =~= self.path@);
        }
        r
    }
}

} // verus!
