//! A minimal, git-compatible local version-control core: a content-addressed
//! object store keyed by SHA-1 of a canonical serialization, a path-ordered
//! staging index in the DIRC v2 binary format with a digest trailer, a HEAD
//! reference, and a three-way status engine. All file and lock handling is
//! the embedding program's part; this crate fixes every byte, id, ordering
//! rule, and decision, and proves the central guarantees:
//!
//! - decoding inverts the canonical object encoding
//!   (`object::lemma_object_round_trip`), and a stored object loads back
//!   (`database::lemma_load_store_round_trip`);
//! - an object's id and path are functions of its content alone, so repeated
//!   stores dedup (`Database::store`, `database::lemma_store_deterministic`);
//! - a committed index reopens to the same entries in the same order
//!   (`index::lemma_index_round_trip`);
//! - the index stays strictly byte-ordered with no file/directory collisions
//!   across every insert (`Index::insert`, `index::lemma_insert_wf`,
//!   `index::lemma_path_order`);
//! - an identical HEAD, index, and work tree reconcile to an empty change
//!   set (`status::lemma_status_symmetry`, `status::lemma_no_untracked`),
//!   and empty directory chains are pruned from the untracked set
//!   (`status::lemma_trackable_pruning`);
//! - the edit-distance utility is symmetric and zero on equal inputs
//!   (`diff::lemma_myers_laws`).

pub mod bytes;
pub mod index;
pub mod database;
pub mod diff;
pub mod object;
pub mod references;
pub mod status;
pub mod repository;
pub mod tree_builder;
pub mod workspace;
pub mod hashing;
pub mod meta;
pub mod zlib;

use vstd::prelude::*;

verus! {

/// The error kinds that the engine surfaces to its caller.
#[derive(Clone, Copy, Debug, PartialEq, Eq, Structural)]
pub enum Error {
    /// A requested object or reference does not exist.
    NotFound,
    /// Another writer holds the lock on the index or a reference.
    LockContention,
    /// Bad magic, wrong version, failing checksum, or a malformed object.
    Corrupt,
    /// A work-tree entry is neither a regular file nor a directory.
    UnsupportedFileType,
    /// Any other filesystem failure.
    Io,
    /// An internal consistency check failed.
    Invariant,
}

impl Error {
    /// A short diagnostic for the error kind.
    pub fn describe(&self) -> &'static str {
        match self {
            Error::NotFound => "not found",
            Error::LockContention => "another writer holds the lock",
            Error::Corrupt => "corrupt data",
            Error::UnsupportedFileType => "unsupported file type",
            Error::Io => "input/output failure",
            Error::Invariant => "internal consistency check failed",
        }
    }
}

} // verus!
