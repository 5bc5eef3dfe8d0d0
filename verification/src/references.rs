//! The reference store: the HEAD pointer as 40 hex characters. Locking and
//! file rotation are the caller's part; this module fixes the bytes.

use crate::bytes::hex_seq;
use crate::object::{hex_parse, Id};
use crate::Error;
use vstd::prelude::*;

verus! {

/// The refs tree root and the HEAD file path.
pub struct References {
    pub root: Vec<u8>,
    pub head: Vec<u8>,
}

impl References {
    /// A reference store with the given refs directory and HEAD path.
    pub fn new(root: Vec<u8>, head: Vec<u8>) -> (r: References)
        ensures
            r.root@ == root@,
            r.head@ == head@,
    {
        References { root, head }
    }

    /// The refs directory path.
    pub fn root_path(&self) -> (r: &Vec<u8>)
        ensures
            r == self.root,
    {
        &self.root
    }

    /// The HEAD file path.
    pub fn head_path(&self) -> (r: &Vec<u8>)
        ensures
            r == self.head,
    {
        &self.head
    }

    /// The bytes a HEAD rotation writes: the 40 lowercase hex digits.
    pub fn format_head(&self, id: &Id) -> (r: Vec<u8>)
        ensures
            r@ == hex_seq(id@),
    {
        id.to_hex()
    }

    /// Reads an id back from HEAD file content: exactly the first 40 bytes
    /// are consumed, as hex.
    pub fn parse_head(&self, bytes: &[u8]) -> (r: Result<Id, Error>)
        ensures
            bytes@.len() < 40 ==> r == Err::<Id, Error>(Error::Corrupt),
            bytes@.len() >= 40 ==> match hex_parse(bytes@.subrange(0, 40)) {
                Some(s) => r matches Ok(id) && id@ == s && id.wf(),
                None => r == Err::<Id, Error>(Error::Corrupt),
            },
    {
        let total = bytes.len();
        if total < 40 {
            return Err(Error::Corrupt);
        }
        match crate::object::read_hex_bytes(bytes, 0, 20) {
            Ok(v) => Ok(Id::new(v)),
            Err(e) => Err(e),
        }
    }
}

/// Writing HEAD and reading it back yields the same id.
pub proof fn lemma_head_round_trip(id: Seq<u8>)
    requires
        id.len() == 20,
    ensures
        hex_seq(id).len() == 40,
        hex_parse(hex_seq(id).subrange(0, 40)) == Some(id),
{
    crate::bytes::lemma_hex_seq_len(id);
    assert(hex_seq(id).subrange(0, 40) =~= hex_seq(id));
    crate::object::lemma_hex_round_trip(id);
}

} // verus!
