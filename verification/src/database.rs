//! The content-addressed object store: canonical bytes, SHA-1 keying, zlib
//! wrapping, and the destination path. The caller performs the actual file
//! writes with an exclusively-created temp file renamed over the target.

use crate::bytes::{push_all, subvec};
use crate::hashing::sha1_of;
use crate::object::{Id, Object, ObjectView, spec_parse_object};
use crate::zlib::{inflate_of, zlib_compress, zlib_decompress, zlib_of};
use crate::Error;
use vstd::prelude::*;

verus! {

/// Everything the caller needs to persist one object: the destination path
/// relative to the repository root, the compressed bytes, and the id.
pub struct StoreOp {
    pub path: Vec<u8>,
    pub bytes: Vec<u8>,
    pub id: Id,
}

/// The object store rooted at an `objects` directory.
pub struct Database {
    pub root: Vec<u8>,
}

impl View for Database {
    type V = Seq<u8>;

    open spec fn view(&self) -> Seq<u8> {
        self.root@
    }
}

impl Database {
    /// A store under the given directory path.
    pub fn new(root: Vec<u8>) -> (r: Database)
        ensures
            r@ == root@,
    {
        Database { root }
    }

    /// The path of the object file for `id`, under the store's root.
    pub fn object_path(&self, id: &Id) -> (r: Vec<u8>)
        requires
            id.wf(),
        ensures
            r@ == self@ + seq![47u8] + Id::spec_rel_path(id@),
    {
        let mut path = subvec(self.root.as_slice(), 0, self.root.len());
        proof {
            assert(self.root@.subrange(0, self.root@.len() as int) =~= self.root@);
        }
        path.push(47);
        let rel = id.to_path_buf();
        push_all(&mut path, rel.as_slice());
        proof {
            assert(path@ =~= self@ + seq![47u8] + Id::spec_rel_path(id@));
        }
        path
    }

    /// Computes everything a store of `object` writes: the id is the SHA-1
    /// of the canonical bytes, the file holds their zlib stream, and the
    /// path is derived from the id. Writing is the caller's part; a
    /// destination that already exists is the same object, and skipping it
    /// is the store's dedup.
    pub fn store(&self, object: &Object) -> (r: StoreOp)
        requires
            object@.encodable(),
        ensures
            r.id@ == sha1_of(object@.spec_encode()),
            r.id.wf(),
            r.bytes@ == zlib_of(object@.spec_encode()),
            inflate_of(r.bytes@) == Some(object@.spec_encode()),
            r.path@ == self@ + seq![47u8] + Id::spec_rel_path(sha1_of(object@.spec_encode())),
    {
        let buffer = object.to_bytes();
        let id = Id::hash(buffer.as_slice());
        let bytes = zlib_compress(buffer.as_slice());
        let path = self.object_path(&id);
        StoreOp { path, bytes, id }
    }

    /// Decodes the compressed file content of an object: decompression and
    /// parsing failures are both corruption.
    pub fn load(&self, compressed: &[u8]) -> (r: Result<Object, Error>)
        ensures
            match inflate_of(compressed@) {
                None => r == Err::<Object, Error>(Error::Corrupt),
                Some(s) => match spec_parse_object(s) {
                    Some(v) => r matches Ok(o) && o@ == v,
                    None => r == Err::<Object, Error>(Error::Corrupt),
                },
            },
    {
        let raw = match zlib_decompress(compressed) {
            Some(raw) => raw,
            None => {
                return Err(Error::Corrupt);
            },
        };
        Object::read(raw.as_slice())
    }
}

/// Loading what a store wrote yields the stored object back: the compressed
/// stream decodes to the canonical bytes, and those parse to the object.
/// The hypothesis on the stream is exactly what `store` ensures of its
/// output.
pub proof fn lemma_load_store_round_trip(v: ObjectView, compressed: Seq<u8>)
    requires
        v.wf(),
        inflate_of(compressed) == Some(v.spec_encode()),
    ensures
        match inflate_of(compressed) {
            Some(s) => spec_parse_object(s) == Some(v),
            None => false,
        },
{
    crate::object::lemma_object_round_trip(v);
}

/// Storing an object is deterministic: the id and the destination path are
/// functions of the canonical bytes alone, so a second store of the same
/// object lands on the existing file and never writes a second one.
pub proof fn lemma_store_deterministic(
    root: Seq<u8>,
    v: ObjectView,
    id1: Seq<u8>,
    p1: Seq<u8>,
    id2: Seq<u8>,
    p2: Seq<u8>,
)
    requires
        id1 == sha1_of(v.spec_encode()),
        p1 == root + seq![47u8] + Id::spec_rel_path(id1),
        id2 == sha1_of(v.spec_encode()),
        p2 == root + seq![47u8] + Id::spec_rel_path(id2),
    ensures
        id1 == id2,
        p1 == p2,
{
}

} // verus!
