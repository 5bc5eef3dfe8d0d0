//! The staging index: a path-ordered set of staged entries, the DIRC v2
//! binary format sealed by a SHA-1 trailer, and the directory-aware
//! iteration that commit consumes. Locking and the file rotation are the
//! caller's part; every byte and every ordering rule is fixed here.

use crate::bytes::{
    be16, be16_val, be32, be32_val, find_byte, lemma_be16_round_trip, lemma_be32_round_trip,
    lex_lt, path_ancestor, push_all, push_be16, push_be32, read_be16, read_be32, scan_byte,
    subvec,
};
use crate::hashing::{sha1_digest, sha1_of};
use crate::meta::{Metadata, Mode};
use crate::object::Id;
use crate::Error;
use vstd::prelude::*;

verus! {

// ---------------------------------------------------------------------------
// Entries
// ---------------------------------------------------------------------------

/// The mathematical model of one staged entry.
pub struct EntryView {
    pub metadata: Metadata,
    pub id: Seq<u8>,
    pub flag: u16,
    pub path: Seq<u8>,
}

impl EntryView {
    /// The path is a non-empty relative path without NUL, and the id raw
    /// 20 bytes.
    pub open spec fn wf(self) -> bool {
        &&& self.id.len() == 20
        &&& self.path.len() >= 1
        &&& forall|i: int| 0 <= i < self.path.len() ==> #[trigger] self.path[i] != 0u8
    }

    /// The zero padding that closes an entry: up to the next multiple of
    /// eight bytes from the entry start, at least one.
    pub open spec fn pad_len(plen: int) -> int {
        8 - ((62 + plen) % 8)
    }

    /// The on-disk bytes: the stat fields, the id, the flag word, the
    /// NUL-terminated path, and zero padding.
    #[verifier::opaque]
    pub open spec fn spec_encode(self) -> Seq<u8> {
        self.metadata.spec_encode() + self.id + be16(self.flag) + self.path + Seq::new(
            EntryView::pad_len(self.path.len() as int) as nat,
            |i: int| 0u8,
        )
    }
}

/// One staged entry: stat snapshot, blob id, flag word, and path.
pub struct Entry {
    metadata: Metadata,
    id: Id,
    flag: u16,
    path: Vec<u8>,
}

impl View for Entry {
    type V = EntryView;

    closed spec fn view(&self) -> EntryView {
        EntryView { metadata: self.metadata, id: self.id@, flag: self.flag, path: self.path@ }
    }
}

impl Clone for Entry {
    fn clone(&self) -> (r: Entry)
        ensures
            r@ == self@,
    {
        let r = Entry {
            metadata: self.metadata,
            id: self.id.clone(),
            flag: self.flag,
            path: subvec(self.path.as_slice(), 0, self.path.len()),
        };
        proof {
            assert(self.path@.subrange(0, self.path@.len() as int) =~= self.path@);
        }
        r
    }
}

impl Entry {
    /// Builds an entry; the flag word holds the path length clamped to
    /// 0xFFF.
    pub fn new(metadata: Metadata, id: Id, path: Vec<u8>) -> (r: Entry)
        ensures
            r@ == (EntryView {
                metadata,
                id: id@,
                flag: (if path@.len() >= 0xFFF {
                    0xFFFu16
                } else {
                    path@.len() as u16
                }),
                path: path@,
            }),
    {
        let flag: u16 = if path.len() >= 0xFFF {
            0xFFF
        } else {
            path.len() as u16
        };
        Entry { metadata, id, flag, path }
    }

    /// The stat snapshot.
    pub fn metadata(&self) -> (r: &Metadata)
        ensures
            r == self@.metadata,
    {
        &self.metadata
    }

    /// The staged blob id.
    pub fn id(&self) -> (r: &Id)
        ensures
            r@ == self@.id,
    {
        &self.id
    }

    /// The entry's path.
    pub fn path(&self) -> (r: &Vec<u8>)
        ensures
            r@ == self@.path,
    {
        &self.path
    }

    /// The encoded length before padding.
    pub fn len(&self) -> (r: usize)
        requires
            62 + self@.path.len() <= usize::MAX,
        ensures
            r == 62 + self@.path.len(),
    {
        62 + self.path.len()
    }

    /// The number of closing zero bytes.
    pub fn padding(&self) -> (r: usize)
        requires
            62 + self@.path.len() <= usize::MAX,
        ensures
            r == EntryView::pad_len(self@.path.len() as int),
    {
        8 - ((62 + self.path.len()) % 8)
    }

    /// Appends the encoded entry to `out`.
    pub fn write(&self, out: &mut Vec<u8>)
        requires
            62 + self@.path.len() + 8 <= usize::MAX,
        ensures
            final(out)@ == old(out)@ + self@.spec_encode(),
    {
        self.metadata.write(out);
        self.id.write_bytes(out);
        push_be16(out, self.flag);
        push_all(out, self.path.as_slice());
        let pad = self.padding();
        let mut k: usize = 0;
        let ghost mid = out@;
        while k < pad
            invariant
                k <= pad,
                out@ == mid + Seq::new(k as nat, |i: int| 0u8),
            decreases pad - k,
        {
            out.push(0);
            proof {
                assert(mid + Seq::new(k as nat, |i: int| 0u8) + seq![0u8] =~= mid + Seq::new(
                    (k + 1) as nat,
                    |i: int| 0u8,
                ));
            }
            k += 1;
        }
        proof {
            reveal(EntryView::spec_encode);
            assert(final(out)@ =~= old(out)@ + self@.spec_encode());
        }
    }
}

/// What an entry at `at` denotes, given that the entry region ends at
/// `end`: the fixed fields, then the path up to its NUL, then zero padding
/// to the next multiple of eight.
#[verifier::opaque]
pub open spec fn spec_parse_entry(s: Seq<u8>, at: int, end: int) -> Option<(EntryView, int)>
    recommends
        0 <= at <= end <= s.len(),
{
    if at + 62 > end {
        None
    } else {
        match Metadata::spec_decode(s.subrange(at, at + 40)) {
            None => None,
            Some(metadata) => match find_byte(s, 0u8, at + 62) {
                None => None,
                Some(z) => {
                    let plen = z - (at + 62);
                    let next = at + 62 + plen + EntryView::pad_len(plen);
                    if plen >= 1 && next <= end && (forall|k: int|
                        z <= k < next ==> s[k] == 0u8) {
                        Some(
                            (
                                EntryView {
                                    metadata,
                                    id: s.subrange(at + 40, at + 60),
                                    flag: be16_val(s.subrange(at + 60, at + 62)),
                                    path: s.subrange(at + 62, z),
                                },
                                next,
                            ),
                        )
                    } else {
                        None
                    }
                },
            },
        }
    }
}

/// Parsing an entry in any context recovers it and consumes exactly its
/// encoding.
#[verifier::spinoff_prover]
#[verifier::rlimit(100)]
pub proof fn lemma_parse_entry(a: Seq<u8>, e: EntryView, b: Seq<u8>, end: int)
    requires
        e.wf(),
        a.len() + e.spec_encode().len() <= end <= a.len() + e.spec_encode().len() + b.len(),
    ensures
        spec_parse_entry(a + e.spec_encode() + b, a.len() as int, end) == Some(
            (e, a.len() + e.spec_encode().len() as int),
        ),
{
    reveal(spec_parse_entry);
    reveal(EntryView::spec_encode);
    let enc = e.spec_encode();
    let s = a + enc + b;
    let at = a.len() as int;
    let plen = e.path.len() as int;
    let pad = EntryView::pad_len(plen);
    assert(1 <= pad <= 8);
    assert(enc.len() == 62 + plen + pad);
    assert forall|r: int| 0 <= r < enc.len() implies s[at + r] == enc[r] by {
        assert((a + enc + b)[at + r] == (a + enc)[at + r]);
        assert((a + enc)[at + r] == enc[r]);
    }
    assert forall|r: int| 0 <= r < 40 implies enc[r] == e.metadata.spec_encode()[r] by {}
    assert forall|r: int| 0 <= r < 20 implies enc[40 + r] == e.id[r] by {}
    assert forall|r: int| 0 <= r < 2 implies enc[60 + r] == be16(e.flag)[r] by {}
    assert forall|r: int| 0 <= r < plen implies enc[62 + r] == e.path[r] by {}
    assert forall|r: int| 62 + plen <= r < enc.len() implies enc[r] == 0u8 by {}
    // the fixed fields decode back
    assert(s.subrange(at, at + 40) =~= e.metadata.spec_encode());
    crate::meta::lemma_metadata_round_trip(e.metadata);
    assert(s.subrange(at + 40, at + 60) =~= e.id);
    assert(s.subrange(at + 60, at + 62) =~= be16(e.flag));
    lemma_be16_round_trip(e.flag);
    // the NUL search lands right after the path
    assert forall|j: int| at + 62 <= j < at + 62 + plen implies s[j] != 0u8 by {
        assert(s[j] == enc[j - at]);
    }
    assert(s[at + 62 + plen] == 0u8);
    crate::bytes::lemma_find_byte_at(s, 0u8, at + 62, at + 62 + plen);
    assert(s.subrange(at + 62, at + 62 + plen) =~= e.path);
    // the padding is all zeros
    assert forall|k: int| at + 62 + plen <= k < at + enc.len() implies s[k] == 0u8 by {
        assert(s[k] == enc[k - at]);
    }
}

// ---------------------------------------------------------------------------
// The in-memory index
// ---------------------------------------------------------------------------

/// The per-entry views of a sequence of entries.
pub open spec fn entries_view(s: Seq<Entry>) -> Seq<EntryView> {
    Seq::new(s.len(), |i: int| s[i]@)
}

/// Entries are strictly ascending in the byte-wise order of their paths.
pub open spec fn entries_sorted(s: Seq<EntryView>) -> bool {
    forall|i: int, j: int|
        0 <= i < j < s.len() ==> lex_lt(#[trigger] s[i].path, #[trigger] s[j].path)
}

/// No entry's path is a proper `/`-delimited prefix of another's.
pub open spec fn entries_conflict_free(s: Seq<EntryView>) -> bool {
    forall|i: int, j: int|
        0 <= i < s.len() && 0 <= j < s.len() ==> !path_ancestor(
            #[trigger] s[i].path,
            #[trigger] s[j].path,
        )
}

/// The index invariant: well-formed entries, strictly path-ordered, with
/// no file/directory collisions.
pub open spec fn entries_wf(s: Seq<EntryView>) -> bool {
    &&& forall|i: int| 0 <= i < s.len() ==> (#[trigger] s[i]).wf()
    &&& entries_sorted(s)
    &&& entries_conflict_free(s)
}

/// Some entry has exactly this path.
pub open spec fn has_path(s: Seq<EntryView>, p: Seq<u8>) -> bool {
    exists|i: int| 0 <= i < s.len() && (#[trigger] s[i]).path == p
}

/// An existing entry survives an insert at path `p` when it neither sits at
/// `p` nor collides with it as ancestor or descendant.
pub open spec fn keeps(x: EntryView, p: Seq<u8>) -> bool {
    &&& x.path != p
    &&& !path_ancestor(x.path, p)
    &&& !path_ancestor(p, x.path)
}

/// The surviving entries on one side of the insertion point.
pub open spec fn kept_side(s: Seq<EntryView>, p: Seq<u8>, before: bool) -> Seq<EntryView>
    decreases s.len(),
{
    if s.len() == 0 {
        Seq::empty()
    } else {
        let rest = kept_side(s.skip(1), p, before);
        if keeps(s[0], p) && (if before {
            lex_lt(s[0].path, p)
        } else {
            lex_lt(p, s[0].path)
        }) {
            seq![s[0]] + rest
        } else {
            rest
        }
    }
}

/// What an insert produces: the surviving smaller entries, the new entry,
/// then the surviving larger ones.
pub open spec fn spec_insert(s: Seq<EntryView>, e: EntryView) -> Seq<EntryView> {
    kept_side(s, e.path, true) + seq![e] + kept_side(s, e.path, false)
}

/// Whether `x` survives on the given side.
pub open spec fn kept_cond(x: EntryView, p: Seq<u8>, before: bool) -> bool {
    keeps(x, p) && (if before {
        lex_lt(x.path, p)
    } else {
        lex_lt(p, x.path)
    })
}

pub proof fn lemma_kept_side_push(s: Seq<EntryView>, x: EntryView, p: Seq<u8>, before: bool)
    ensures
        kept_side(s.push(x), p, before) == kept_side(s, p, before) + (if kept_cond(x, p, before) {
            seq![x]
        } else {
            Seq::<EntryView>::empty()
        }),
    decreases s.len(),
{
    let tail: Seq<EntryView> = if kept_cond(x, p, before) {
        seq![x]
    } else {
        Seq::<EntryView>::empty()
    };
    if s.len() == 0 {
        let t = s.push(x);
        assert(t[0] == x);
        assert(t.skip(1) =~= Seq::<EntryView>::empty());
        assert(kept_side(Seq::<EntryView>::empty(), p, before) == Seq::<EntryView>::empty());
        if kept_cond(x, p, before) {
            assert(kept_side(t, p, before) == seq![x] + Seq::<EntryView>::empty());
            assert(seq![x] + Seq::<EntryView>::empty() =~= Seq::<EntryView>::empty() + seq![x]);
            assert(kept_side(s, p, before) + tail =~= Seq::<EntryView>::empty() + seq![x]);
        } else {
            assert(kept_side(t, p, before) == Seq::<EntryView>::empty());
            assert(kept_side(s, p, before) + tail =~= Seq::<EntryView>::empty());
        }
    } else {
        let t = s.push(x);
        assert(t[0] == s[0]);
        assert(t.skip(1) =~= s.skip(1).push(x));
        lemma_kept_side_push(s.skip(1), x, p, before);
        if kept_cond(s[0], p, before) {
            assert(kept_side(t, p, before) == seq![s[0]] + (kept_side(s.skip(1), p, before)
                + tail));
            assert(seq![s[0]] + (kept_side(s.skip(1), p, before) + tail) =~= (seq![s[0]]
                + kept_side(s.skip(1), p, before)) + tail);
        } else {
            assert(kept_side(t, p, before) == kept_side(s.skip(1), p, before) + tail);
        }
    }
}

/// Every kept entry comes from the original sequence and satisfies its
/// side's condition.
pub proof fn lemma_kept_side_membership(s: Seq<EntryView>, p: Seq<u8>, before: bool)
    ensures
        forall|i: int|
            0 <= i < kept_side(s, p, before).len() ==> s.contains(
                #[trigger] kept_side(s, p, before)[i],
            ) && kept_cond(kept_side(s, p, before)[i], p, before),
    decreases s.len(),
{
    if s.len() != 0 {
        lemma_kept_side_membership(s.skip(1), p, before);
        let k = kept_side(s, p, before);
        let rest = kept_side(s.skip(1), p, before);
        assert forall|i: int| 0 <= i < k.len() implies s.contains(#[trigger] k[i]) && kept_cond(
            k[i],
            p,
            before,
        ) by {
            if kept_cond(s[0], p, before) {
                if i == 0 {
                    assert(k[i] == s[0]);
                    assert(s[0] == s[0]);
                } else {
                    assert(k[i] == rest[i - 1]);
                    assert(s.skip(1).contains(rest[i - 1]));
                    let j = choose|j: int|
                        0 <= j < s.skip(1).len() && s.skip(1)[j] == rest[i - 1];
                    assert(s[j + 1] == rest[i - 1]);
                }
            } else {
                assert(k[i] == rest[i]);
                assert(s.skip(1).contains(rest[i]));
                let j = choose|j: int| 0 <= j < s.skip(1).len() && s.skip(1)[j] == rest[i];
                assert(s[j + 1] == rest[i]);
            }
        }
    }
}

/// A kept side of a sorted sequence is sorted.
pub proof fn lemma_kept_side_sorted(s: Seq<EntryView>, p: Seq<u8>, before: bool)
    requires
        entries_sorted(s),
    ensures
        entries_sorted(kept_side(s, p, before)),
    decreases s.len(),
{
    if s.len() != 0 {
        assert(entries_sorted(s.skip(1))) by {
            assert forall|i: int, j: int| 0 <= i < j < s.skip(1).len() implies lex_lt(
                #[trigger] s.skip(1)[i].path,
                #[trigger] s.skip(1)[j].path,
            ) by {
                assert(s.skip(1)[i] == s[i + 1] && s.skip(1)[j] == s[j + 1]);
            }
        }
        lemma_kept_side_sorted(s.skip(1), p, before);
        lemma_kept_side_membership(s.skip(1), p, before);
        let k = kept_side(s, p, before);
        let rest = kept_side(s.skip(1), p, before);
        if kept_cond(s[0], p, before) {
            assert forall|i: int, j: int| 0 <= i < j < k.len() implies lex_lt(
                #[trigger] k[i].path,
                #[trigger] k[j].path,
            ) by {
                if i == 0 {
                    assert(k[j] == rest[j - 1]);
                    assert(s.skip(1).contains(rest[j - 1]));
                    let m = choose|m: int|
                        0 <= m < s.skip(1).len() && s.skip(1)[m] == rest[j - 1];
                    assert(s.skip(1)[m] == s[m + 1]);
                    assert(lex_lt(s[0].path, s[m + 1].path));
                } else {
                    assert(k[i] == rest[i - 1] && k[j] == rest[j - 1]);
                }
            }
        } else {
            assert(k =~= rest);
        }
    }
}

/// Inserting into a well-formed index yields a well-formed index.
#[verifier::spinoff_prover]
#[verifier::rlimit(100)]
pub proof fn lemma_insert_wf(s: Seq<EntryView>, e: EntryView)
    requires
        entries_wf(s),
        e.wf(),
    ensures
        entries_wf(spec_insert(s, e)),
{
    let left = kept_side(s, e.path, true);
    let right = kept_side(s, e.path, false);
    let r = spec_insert(s, e);
    lemma_kept_side_membership(s, e.path, true);
    lemma_kept_side_membership(s, e.path, false);
    lemma_kept_side_sorted(s, e.path, true);
    lemma_kept_side_sorted(s, e.path, false);
    let ll = left.len() as int;
    // characterize the elements of the result
    assert forall|i: int| 0 <= i < r.len() implies (if i < ll {
        r[i] == left[i]
    } else if i == ll {
        r[i] == e
    } else {
        r[i] == right[i - ll - 1]
    }) by {}
    // each element is well formed
    assert forall|i: int| 0 <= i < r.len() implies (#[trigger] r[i]).wf() by {
        if i < ll {
            assert(s.contains(left[i]));
            let m = choose|m: int| 0 <= m < s.len() && s[m] == left[i];
            assert(s[m].wf());
        } else if i > ll {
            assert(s.contains(right[i - ll - 1]));
            let m = choose|m: int| 0 <= m < s.len() && s[m] == right[i - ll - 1];
            assert(s[m].wf());
        }
    }
    // the result is sorted: left entries are below `e`, right ones above
    assert forall|i: int, j: int| 0 <= i < j < r.len() implies lex_lt(
        #[trigger] r[i].path,
        #[trigger] r[j].path,
    ) by {
        if i < ll && j < ll {
        } else if i > ll && j > ll {
        } else if i < ll && j == ll {
            assert(kept_cond(left[i], e.path, true));
        } else if i == ll && j > ll {
            assert(kept_cond(right[j - ll - 1], e.path, false));
        } else {
            assert(i < ll && j > ll);
            assert(kept_cond(left[i], e.path, true));
            assert(kept_cond(right[j - ll - 1], e.path, false));
            crate::bytes::lemma_lex_lt_transitive(left[i].path, e.path, right[j - ll - 1].path);
        }
    }
    // no ancestor collisions: survivors were collision-free among
    // themselves, and none collides with the new path
    assert forall|i: int, j: int| 0 <= i < r.len() && 0 <= j < r.len() implies !path_ancestor(
        #[trigger] r[i].path,
        #[trigger] r[j].path,
    ) by {
        let x = r[i];
        let y = r[j];
        if i == ll && j == ll {
            assert(!path_ancestor(e.path, e.path));
        } else if i == ll {
            assert(s.contains(y) && kept_cond(y, e.path, j < ll));
        } else if j == ll {
            assert(s.contains(x) && kept_cond(x, e.path, i < ll));
        } else {
            assert(s.contains(x));
            assert(s.contains(y));
            let m = choose|m: int| 0 <= m < s.len() && s[m] == x;
            let n = choose|n: int| 0 <= n < s.len() && s[n] == y;
            assert(!path_ancestor(s[m].path, s[n].path));
        }
    }
}

/// The staging index: a path-ordered set of entries and a dirty flag that
/// marks whether a rewrite of the file is owed.
pub struct Index {
    entries: Vec<Entry>,
    changed: bool,
}

impl View for Index {
    type V = Seq<EntryView>;

    closed spec fn view(&self) -> Seq<EntryView> {
        entries_view(self.entries@)
    }
}

impl Index {
    /// The index invariant on the entry views.
    pub open spec fn wf(self) -> bool {
        entries_wf(self@)
    }

    /// Whether membership changed since the index was opened.
    pub closed spec fn spec_changed(self) -> bool {
        self.changed
    }

    /// An empty index, as an open of a missing file yields.
    pub fn new() -> (r: Index)
        ensures
            r@ == Seq::<EntryView>::empty(),
            r.wf(),
            !r.spec_changed(),
    {
        let r = Index { entries: Vec::new(), changed: false };
        proof {
            assert(r@ =~= Seq::<EntryView>::empty());
        }
        r
    }

    /// Whether a rewrite is owed.
    pub fn changed(&self) -> (r: bool)
        ensures
            r == self.spec_changed(),
    {
        self.changed
    }

    /// The number of entries.
    pub fn len(&self) -> (r: usize)
        ensures
            r == self@.len(),
    {
        self.entries.len()
    }

    /// The entries in path order.
    pub fn files(&self) -> (r: &Vec<Entry>)
        ensures
            entries_view(r@) == self@,
    {
        &self.entries
    }

    /// Whether an entry sits at exactly this path.
    pub fn contains_file(&self, path: &[u8]) -> (r: bool)
        ensures
            r == has_path(self@, path@),
    {
        let n = self.entries.len();
        let mut i: usize = 0;
        while i < n
            invariant
                i <= n,
                n == self@.len(),
                forall|j: int| 0 <= j < i ==> (#[trigger] self@[j]).path != path@,
            decreases n - i,
        {
            if crate::bytes::bytes_eq(self.entries[i].path.as_slice(), path) {
                proof {
                    assert(self@[i as int].path == path@);
                }
                return true;
            }
            proof {
                assert(self@[i as int].path != path@);
            }
            i += 1;
        }
        proof {
            assert(!has_path(self@, path@)) by {
                if has_path(self@, path@) {
                    let j = choose|j: int| 0 <= j < self@.len() && self@[j].path == path@;
                    assert(self@[j].path != path@);
                }
            }
        }
        false
    }

    /// Whether any entry lies strictly below this path.
    pub fn contains_directory(&self, path: &[u8]) -> (r: bool)
        ensures
            r == exists|i: int|
                0 <= i < self@.len() && path_ancestor(path@, (#[trigger] self@[i]).path),
    {
        let n = self.entries.len();
        let mut i: usize = 0;
        while i < n
            invariant
                i <= n,
                n == self@.len(),
                forall|j: int| 0 <= j < i ==> !path_ancestor(path@, (#[trigger] self@[j]).path),
            decreases n - i,
        {
            if crate::bytes::is_path_ancestor(path, self.entries[i].path.as_slice()) {
                proof {
                    assert(path_ancestor(path@, self@[i as int].path));
                }
                return true;
            }
            proof {
                assert(!path_ancestor(path@, self@[i as int].path));
            }
            i += 1;
        }
        proof {
            if exists|j: int| 0 <= j < self@.len() && path_ancestor(path@, (#[trigger] self@[j]).path) {
                let j = choose|j: int|
                    0 <= j < self@.len() && path_ancestor(path@, (#[trigger] self@[j]).path);
                assert(!path_ancestor(path@, self@[j].path));
            }
        }
        false
    }

    /// Whether this path is tracked, as a file or as a directory prefix.
    pub fn contains(&self, path: &[u8]) -> (r: bool)
        ensures
            r == (has_path(self@, path@) || exists|i: int|
                0 <= i < self@.len() && path_ancestor(path@, (#[trigger] self@[i]).path)),
    {
        self.contains_file(path) || self.contains_directory(path)
    }

    /// The entry at exactly this path, if any.
    pub fn get(&self, path: &[u8]) -> (r: Option<&Entry>)
        ensures
            match r {
                Some(e) => has_path(self@, path@) && e@.path == path@ && self@.contains(e@),
                None => !has_path(self@, path@),
            },
    {
        let n = self.entries.len();
        let mut i: usize = 0;
        while i < n
            invariant
                i <= n,
                n == self@.len(),
                forall|j: int| 0 <= j < i ==> (#[trigger] self@[j]).path != path@,
            decreases n - i,
        {
            if crate::bytes::bytes_eq(self.entries[i].path.as_slice(), path) {
                let e = &self.entries[i];
                proof {
                    assert(self@[i as int].path == path@);
                    assert(self@[i as int] == e@);
                }
                return Some(e);
            }
            proof {
                assert(self@[i as int].path != path@);
            }
            i += 1;
        }
        proof {
            if has_path(self@, path@) {
                let j = choose|j: int| 0 <= j < self@.len() && self@[j].path == path@;
                assert(self@[j].path != path@);
            }
        }
        None
    }

    /// Inserts or replaces the entry at `path`, removing any entry at a
    /// proper ancestor of `path` and every entry below `path`, and marks
    /// the index changed when membership changed.
    #[verifier::loop_isolation(false)]
    pub fn insert(&mut self, metadata: Metadata, id: Id, path: Vec<u8>)
        requires
            old(self).wf(),
            id.wf(),
            path@.len() >= 1,
            forall|i: int| 0 <= i < path@.len() ==> #[trigger] path@[i] != 0u8,
        ensures
            final(self)@ == spec_insert(
                old(self)@,
                EntryView {
                    metadata,
                    id: id@,
                    flag: (if path@.len() >= 0xFFF {
                        0xFFFu16
                    } else {
                        path@.len() as u16
                    }),
                    path: path@,
                },
            ),
            final(self).wf(),
            final(self).spec_changed() == (old(self).spec_changed() || !has_path(
                old(self)@,
                path@,
            )),
    {
        let is_new = !self.contains_file(path.as_slice());
        let entry = Entry::new(metadata, id, path);
        let ghost e = entry@;
        let ghost s0 = self@;
        let n = self.entries.len();
        let mut before: Vec<Entry> = Vec::new();
        let mut after: Vec<Entry> = Vec::new();
        let mut i: usize = 0;
        proof {
            assert(s0.take(0) =~= Seq::<EntryView>::empty());
            assert(entries_view(before@) =~= kept_side(s0.take(0), e.path, true));
            assert(entries_view(after@) =~= kept_side(s0.take(0), e.path, false));
        }
        while i < n
            invariant
                i <= n,
                n == self.entries@.len(),
                s0 == entries_view(self.entries@),
                entries_wf(s0),
                entries_view(before@) == kept_side(s0.take(i as int), e.path, true),
                entries_view(after@) == kept_side(s0.take(i as int), e.path, false),
            decreases n - i,
        {
            let x = &self.entries[i];
            proof {
                assert(x@ == s0[i as int]);
                assert(s0.take(i as int).push(s0[i as int]) =~= s0.take(i + 1));
                lemma_kept_side_push(s0.take(i as int), s0[i as int], e.path, true);
                lemma_kept_side_push(s0.take(i as int), s0[i as int], e.path, false);
            }
            let same = crate::bytes::bytes_eq(x.path.as_slice(), entry.path.as_slice());
            let anc = crate::bytes::is_path_ancestor(x.path.as_slice(), entry.path.as_slice());
            let desc = crate::bytes::is_path_ancestor(entry.path.as_slice(), x.path.as_slice());
            if !same && !anc && !desc {
                let ghost pre_b = entries_view(before@);
                let ghost pre_a = entries_view(after@);
                if crate::bytes::bytes_lt(x.path.as_slice(), entry.path.as_slice()) {
                    let c = x.clone();
                    before.push(c);
                    proof {
                        assert(!kept_cond(s0[i as int], e.path, false)) by {
                            if lex_lt(e.path, s0[i as int].path) {
                                crate::bytes::lemma_lex_lt_transitive(
                                    s0[i as int].path,
                                    e.path,
                                    s0[i as int].path,
                                );
                            }
                        }
                        assert(entries_view(before@) =~= pre_b.push(s0[i as int]));
                        assert(pre_b.push(s0[i as int]) =~= kept_side(
                            s0.take(i as int),
                            e.path,
                            true,
                        ) + seq![s0[i as int]]);
                        assert(entries_view(after@) =~= pre_a);
                        assert(pre_a + Seq::<EntryView>::empty() =~= pre_a);
                    }
                } else {
                    proof {
                        assert(s0[i as int].path != e.path);
                        crate::bytes::lemma_lex_le_total(s0[i as int].path, e.path);
                        assert(lex_lt(e.path, s0[i as int].path)) by {
                            if crate::bytes::lex_le(s0[i as int].path, e.path) {
                                assert(lex_lt(s0[i as int].path, e.path));
                            }
                        }
                    }
                    let c = x.clone();
                    after.push(c);
                    proof {
                        assert(!kept_cond(s0[i as int], e.path, true)) by {
                            if lex_lt(s0[i as int].path, e.path) {
                                crate::bytes::lemma_lex_lt_transitive(
                                    e.path,
                                    s0[i as int].path,
                                    e.path,
                                );
                            }
                        }
                        assert(entries_view(after@) =~= pre_a.push(s0[i as int]));
                        assert(pre_a.push(s0[i as int]) =~= kept_side(
                            s0.take(i as int),
                            e.path,
                            false,
                        ) + seq![s0[i as int]]);
                        assert(entries_view(before@) =~= pre_b);
                        assert(pre_b + Seq::<EntryView>::empty() =~= pre_b);
                    }
                }
            } else {
                proof {
                    assert(s0[i as int].path == e.path || path_ancestor(s0[i as int].path, e.path)
                        || path_ancestor(e.path, s0[i as int].path));
                    assert(!keeps(s0[i as int], e.path));
                    assert(!kept_cond(s0[i as int], e.path, true));
                    assert(!kept_cond(s0[i as int], e.path, false));
                    assert(entries_view(before@) + Seq::<EntryView>::empty() =~= entries_view(
                        before@,
                    ));
                    assert(entries_view(after@) + Seq::<EntryView>::empty() =~= entries_view(
                        after@,
                    ));
                }
            }
            i += 1;
        }
        proof {
            assert(s0.take(n as int) =~= s0);
        }
        let mut out = before;
        out.push(entry);
        let mut k: usize = 0;
        let after_len = after.len();
        proof {
            assert(entries_view(out@) =~= kept_side(s0, e.path, true).push(e));
            assert(kept_side(s0, e.path, true).push(e) =~= kept_side(s0, e.path, true) + seq![e]);
            assert(kept_side(s0, e.path, false).take(0) =~= Seq::<EntryView>::empty());
            assert(entries_view(out@) + Seq::<EntryView>::empty() =~= entries_view(out@));
        }
        let ghost mid = entries_view(out@);
        while k < after_len
            invariant
                k <= after_len,
                after_len == after@.len(),
                entries_view(after@) == kept_side(s0, e.path, false),
                entries_view(out@) == mid + kept_side(s0, e.path, false).take(k as int),
            decreases after_len - k,
        {
            let ghost pre = entries_view(out@);
            let c = after[k].clone();
            out.push(c);
            proof {
                assert(entries_view(out@) =~= pre.push(entries_view(after@)[k as int]));
                assert(kept_side(s0, e.path, false).take(k as int).push(
                    entries_view(after@)[k as int],
                ) =~= kept_side(s0, e.path, false).take(k + 1));
                assert(pre.push(entries_view(after@)[k as int]) =~= mid + kept_side(
                    s0,
                    e.path,
                    false,
                ).take(k + 1));
            }
            k += 1;
        }
        proof {
            assert(kept_side(s0, e.path, false).take(after_len as int) =~= kept_side(
                s0,
                e.path,
                false,
            ));
            assert(mid + kept_side(s0, e.path, false) =~= spec_insert(s0, e));
            lemma_insert_wf(s0, e);
        }
        self.entries = out;
        self.changed = self.changed || is_new;
    }
}

// ---------------------------------------------------------------------------
// The DIRC v2 file format
// ---------------------------------------------------------------------------

/// `"DIRC"`.
pub open spec fn lit_dirc() -> Seq<u8> {
    seq![68u8, 73u8, 82u8, 67u8]
}

fn lit_dirc_vec() -> (r: Vec<u8>)
    ensures
        r@ == lit_dirc(),
{
    let mut v: Vec<u8> = Vec::new();
    v.push(68);
    v.push(73);
    v.push(82);
    v.push(67);
    proof {
        assert(v@ =~= lit_dirc());
    }
    v
}

/// The concatenated encodings of the entries, in order.
pub open spec fn entries_body(s: Seq<EntryView>) -> Seq<u8>
    decreases s.len(),
{
    if s.len() == 0 {
        Seq::empty()
    } else {
        s[0].spec_encode() + entries_body(s.skip(1))
    }
}

pub proof fn lemma_entries_body_push(s: Seq<EntryView>, x: EntryView)
    ensures
        entries_body(s.push(x)) == entries_body(s) + x.spec_encode(),
    decreases s.len(),
{
    if s.len() == 0 {
        let t = s.push(x);
        assert(t[0] == x);
        assert(t.skip(1) =~= Seq::<EntryView>::empty());
        assert(entries_body(t) == x.spec_encode() + entries_body(Seq::<EntryView>::empty()));
        assert(x.spec_encode() + Seq::<u8>::empty() =~= Seq::<u8>::empty() + x.spec_encode());
    } else {
        let t = s.push(x);
        assert(t[0] == s[0]);
        assert(t.skip(1) =~= s.skip(1).push(x));
        lemma_entries_body_push(s.skip(1), x);
        assert(entries_body(t) == s[0].spec_encode() + (entries_body(s.skip(1))
            + x.spec_encode()));
        assert(s[0].spec_encode() + (entries_body(s.skip(1)) + x.spec_encode()) =~= (
        s[0].spec_encode() + entries_body(s.skip(1))) + x.spec_encode());
    }
}

/// The bytes before the trailer: magic, version two, the entry count, and
/// the entries.
pub open spec fn index_payload(s: Seq<EntryView>) -> Seq<u8> {
    lit_dirc() + be32(2) + be32(s.len() as u32) + entries_body(s)
}

/// The whole index file: the payload sealed by its SHA-1 digest.
pub open spec fn index_file(s: Seq<EntryView>) -> Seq<u8> {
    index_payload(s) + sha1_of(index_payload(s))
}

/// What `count` entries at `at` denote, with the entry region ending at
/// `end` and required to be filled exactly.
pub open spec fn spec_parse_entries(s: Seq<u8>, at: int, count: int, end: int) -> Option<
    Seq<EntryView>,
>
    recommends
        0 <= at <= end <= s.len(),
    decreases count,
{
    if count <= 0 {
        if at == end {
            Some(Seq::empty())
        } else {
            None
        }
    } else {
        match spec_parse_entry(s, at, end) {
            None => None,
            Some((e, next)) => match spec_parse_entries(s, next, count - 1, end) {
                None => None,
                Some(rest) => Some(seq![e] + rest),
            },
        }
    }
}

/// What a whole index file denotes: the header is checked, the entries are
/// read, and the trailer must equal the digest of everything before it.
pub open spec fn spec_parse_index(s: Seq<u8>) -> Option<Seq<EntryView>> {
    if s.len() >= 32 && s.subrange(0, 4) == lit_dirc() && be32_val(s.subrange(4, 8)) == 2 {
        let count = be32_val(s.subrange(8, 12)) as int;
        let end = s.len() - 20;
        match spec_parse_entries(s, 12, count, end) {
            None => None,
            Some(es) => if s.subrange(end, s.len() as int) == sha1_of(s.take(end)) {
                Some(es)
            } else {
                None
            },
        }
    } else {
        None
    }
}

/// A parsed entry is well formed and advances the position.
pub proof fn lemma_parse_entry_shape(s: Seq<u8>, at: int, end: int)
    requires
        0 <= at <= end <= s.len(),
    ensures
        match spec_parse_entry(s, at, end) {
            Some(q) => q.0.wf() && at + 64 <= q.1 <= end,
            None => true,
        },
{
    reveal(spec_parse_entry);
    if at + 62 <= end {
        match find_byte(s, 0u8, at + 62) {
            None => {},
            Some(z) => {
                crate::bytes::lemma_find_byte_found(s, 0u8, at + 62);
                match spec_parse_entry(s, at, end) {
                    None => {},
                    Some(q) => {
                        assert forall|i: int| 0 <= i < q.0.path.len() implies #[trigger] q.0
                            .path[i] != 0u8 by {
                            assert(q.0.path[i] == s[at + 62 + i]);
                        }
                    },
                }
            },
        }
    }
}

/// Every entry a successful parse yields is well formed.
pub proof fn lemma_entries_shape(s: Seq<u8>, at: int, count: int, end: int)
    requires
        0 <= at <= end <= s.len(),
    ensures
        match spec_parse_entries(s, at, count, end) {
            Some(es) => forall|i: int| 0 <= i < es.len() ==> (#[trigger] es[i]).wf(),
            None => true,
        },
    decreases count,
{
    if count > 0 {
        match spec_parse_entry(s, at, end) {
            None => {},
            Some((e, next)) => {
                lemma_parse_entry_shape(s, at, end);
                lemma_entries_shape(s, next, count - 1, end);
                match spec_parse_entries(s, next, count - 1, end) {
                    None => {},
                    Some(rest) => {
                        let es = seq![e] + rest;
                        assert forall|i: int| 0 <= i < es.len() implies (
                        #[trigger] es[i]).wf() by {
                            if i > 0 {
                                assert(es[i] == rest[i - 1]);
                            }
                        }
                    },
                }
            },
        }
    }
}

/// Strict order between every pair follows from strict order between
/// neighbours.
pub proof fn lemma_sorted_from_adjacent(s: Seq<EntryView>, a: int, b: int)
    requires
        forall|j: int| 0 <= j < s.len() - 1 ==> lex_lt((#[trigger] s[j]).path, s[j + 1].path),
        0 <= a < b < s.len(),
    ensures
        lex_lt(s[a].path, s[b].path),
    decreases b - a,
{
    if b == a + 1 {
    } else {
        lemma_sorted_from_adjacent(s, a, b - 1);
        crate::bytes::lemma_lex_lt_transitive(s[a].path, s[b - 1].path, s[b].path);
    }
}

/// The first entry of a body region parses out and leaves the rest.
#[verifier::spinoff_prover]
#[verifier::rlimit(100)]
pub proof fn lemma_parse_entries_step(s: Seq<u8>, at: int, es: Seq<EntryView>, end: int)
    requires
        0 <= at <= end <= s.len(),
        s.subrange(at, end) == entries_body(es),
        forall|i: int| 0 <= i < es.len() ==> (#[trigger] es[i]).wf(),
        es.len() > 0,
    ensures
        spec_parse_entry(s, at, end) == Some((es[0], at + es[0].spec_encode().len() as int)),
        at + es[0].spec_encode().len() <= end,
        s.subrange(at + es[0].spec_encode().len() as int, end) == entries_body(es.skip(1)),
{
    reveal(EntryView::spec_encode);
    let e = es[0];
    let enc = e.spec_encode();
    assert(entries_body(es) == enc + entries_body(es.skip(1)));
    assert(enc.len() <= end - at) by {
        assert(s.subrange(at, end).len() == entries_body(es).len());
    }
    let b = s.subrange(at + enc.len(), s.len() as int);
    assert(s =~= s.take(at) + enc + b) by {
        assert forall|i: int| 0 <= i < s.len() implies s[i] == (s.take(at) + enc + b)[i] by {
            if at <= i < at + enc.len() {
                assert(s[i] == s.subrange(at, end)[i - at]);
                assert(entries_body(es)[i - at] == enc[i - at]);
            }
        }
    }
    lemma_parse_entry(s.take(at), e, b, end);
    let next = at + enc.len() as int;
    assert(s.subrange(next, end) =~= entries_body(es.skip(1))) by {
        assert forall|i: int| 0 <= i < end - next implies s.subrange(next, end)[i] == entries_body(
            es.skip(1),
        )[i] by {
            assert(s[next + i] == s.subrange(at, end)[next + i - at]);
            assert(entries_body(es)[next + i - at] == entries_body(es.skip(1))[i]);
        }
    }
}

/// Parsing a buffer region holding an entry body sequence recovers it.
#[verifier::rlimit(100)]
pub proof fn lemma_parse_entries_round_trip(s: Seq<u8>, at: int, es: Seq<EntryView>, end: int)
    requires
        0 <= at <= end <= s.len(),
        s.subrange(at, end) == entries_body(es),
        forall|i: int| 0 <= i < es.len() ==> (#[trigger] es[i]).wf(),
    ensures
        spec_parse_entries(s, at, es.len() as int, end) == Some(es),
    decreases es.len(),
{
    if es.len() == 0 {
        assert(s.subrange(at, end).len() == 0);
        assert(at == end);
    } else {
        let e = es[0];
        let enc = e.spec_encode();
        lemma_parse_entries_step(s, at, es, end);
        let next = at + enc.len() as int;
        assert forall|i: int| 0 <= i < es.skip(1).len() implies (#[trigger] es.skip(
            1,
        )[i]).wf() by {
            assert(es.skip(1)[i] == es[i + 1]);
        }
        lemma_parse_entries_round_trip(s, next, es.skip(1), end);
        assert(seq![e] + es.skip(1) =~= es);
    }
}

/// Index round-trip: committing an index and opening the bytes again yields
/// the same entries in the same order, and the bytes are a function of the
/// entries alone. The digest-length hypothesis is what the hashing wrapper
/// ensures of every digest it returns.
#[verifier::spinoff_prover]
#[verifier::rlimit(100)]
pub proof fn lemma_index_round_trip(es: Seq<EntryView>)
    requires
        forall|i: int| 0 <= i < es.len() ==> (#[trigger] es[i]).wf(),
        es.len() <= u32::MAX,
        sha1_of(index_payload(es)).len() == 20,
    ensures
        spec_parse_index(index_file(es)) == Some(es),
{
    let p = index_payload(es);
    let s = index_file(es);
    let body = entries_body(es);
    let end = p.len() as int;
    assert(p.len() == 12 + body.len());
    assert(s.len() == p.len() + 20);
    assert forall|r: int| 0 <= r < p.len() implies s[r] == p[r] by {}
    assert forall|r: int| 0 <= r < 12 implies p[r] == (lit_dirc() + be32(2) + be32(
        es.len() as u32,
    ))[r] by {}
    assert forall|r: int| 0 <= r < body.len() implies p[12 + r] == body[r] by {}
    assert(s.subrange(0, 4) =~= lit_dirc());
    assert(s.subrange(4, 8) =~= be32(2));
    assert(s.subrange(8, 12) =~= be32(es.len() as u32));
    lemma_be32_round_trip(2);
    lemma_be32_round_trip(es.len() as u32);
    assert(s.subrange(12, end) =~= body) by {
        assert forall|i: int| 0 <= i < body.len() implies s.subrange(12, end)[i] == body[i] by {
            assert(s[12 + i] == p[12 + i]);
        }
    }
    lemma_parse_entries_round_trip(s, 12, es, end);
    assert(s.take(end) =~= p);
    assert(s.subrange(end, s.len() as int) =~= sha1_of(p)) by {
        assert forall|i: int| 0 <= i < 20 implies s.subrange(end, s.len() as int)[i] == sha1_of(
            p,
        )[i] by {
            assert(s[end + i] == (p + sha1_of(p))[end + i]);
        }
    }
}

/// Byte-wise path order: in a well-formed index, one entry precedes another
/// exactly when its path is byte-wise smaller.
pub proof fn lemma_path_order(s: Seq<EntryView>, i: int, j: int)
    requires
        entries_wf(s),
        0 <= i < s.len(),
        0 <= j < s.len(),
    ensures
        i < j <==> lex_lt(s[i].path, s[j].path),
{
    if i < j {
    } else if i == j {
        assert(!lex_lt(s[i].path, s[j].path));
    } else {
        assert(lex_lt(s[j].path, s[i].path));
        if lex_lt(s[i].path, s[j].path) {
            crate::bytes::lemma_lex_lt_transitive(s[i].path, s[j].path, s[i].path);
        }
    }
}

/// Parses the entry at `at`, with the entry region ending at `end`.
#[verifier::loop_isolation(false)]
fn parse_entry(bytes: &[u8], at: usize, end: usize) -> (r: Result<(Entry, usize), Error>)
    requires
        at <= end <= bytes@.len(),
    ensures
        match spec_parse_entry(bytes@, at as int, end as int) {
            Some(q) => r matches Ok(p) && p.0@ == q.0 && p.1 == q.1,
            None => r == Err::<(Entry, usize), Error>(Error::Corrupt),
        },
{
    proof {
        reveal(spec_parse_entry);
    }
    let total = bytes.len();
    if end - at < 62 {
        return Err(Error::Corrupt);
    }
    let metadata = match Metadata::read(bytes, at) {
        Ok(m) => m,
        Err(_) => {
            return Err(Error::Corrupt);
        },
    };
    let id = Id::read_bytes(bytes, at + 40);
    let flag = read_be16(bytes, at + 60);
    let z = match scan_byte(bytes, 0, at + 62) {
        Some(z) => z,
        None => {
            return Err(Error::Corrupt);
        },
    };
    let plen = z - (at + 62);
    if plen < 1 {
        return Err(Error::Corrupt);
    }
    let pad = 8 - ((62 + plen) % 8);
    if z >= end || pad > end - z {
        proof {
            assert(at + 62 + plen + EntryView::pad_len(plen as int) > end);
        }
        return Err(Error::Corrupt);
    }
    let next = z + pad;
    proof {
        assert(next == at + 62 + plen + EntryView::pad_len(plen as int));
    }
    let mut k: usize = z;
    while k < next
        invariant
            z <= k <= next,
            forall|j: int| z <= j < k ==> bytes@[j] == 0u8,
        decreases next - k,
    {
        if bytes[k] != 0 {
            proof {
                assert(!(forall|j: int| z <= j < next ==> bytes@[j] == 0u8)) by {
                    assert(bytes@[k as int] != 0u8);
                }
            }
            return Err(Error::Corrupt);
        }
        k += 1;
    }
    let path = subvec(bytes, at + 62, z);
    Ok((Entry { metadata, id, flag, path }, next))
}

/// Parses `count` entries starting at offset twelve, requiring them to
/// fill the region up to `end` exactly.
#[verifier::loop_isolation(false)]
fn parse_all_entries(bytes: &[u8], count: u32, end: usize) -> (r: Result<Vec<Entry>, Error>)
    requires
        12 <= end <= bytes@.len(),
    ensures
        match spec_parse_entries(bytes@, 12, count as int, end as int) {
            Some(es) => r matches Ok(v) && entries_view(v@) == es,
            None => r == Err::<Vec<Entry>, Error>(Error::Corrupt),
        },
{
    let mut entries: Vec<Entry> = Vec::new();
    let mut pos: usize = 12;
    let mut c: u32 = count;
    proof {
        assert(entries_view(entries@) =~= Seq::<EntryView>::empty());
    }
    while c > 0
        invariant
            12 <= pos <= end,
            c <= count,
            ({
                match spec_parse_entries(bytes@, pos as int, c as int, end as int) {
                    Some(rest) => spec_parse_entries(bytes@, 12, count as int, end as int)
                        == Some(entries_view(entries@) + rest),
                    None => spec_parse_entries(bytes@, 12, count as int, end as int) is None,
                }
            }),
        decreases c,
    {
        let (entry, next) = match parse_entry(bytes, pos, end) {
            Ok(q) => q,
            Err(_) => {
                proof {
                    assert(spec_parse_entries(bytes@, pos as int, c as int, end as int) is None);
                }
                return Err(Error::Corrupt);
            },
        };
        proof {
            lemma_parse_entry_shape(bytes@, pos as int, end as int);
        }
        let ghost pre = entries_view(entries@);
        entries.push(entry);
        proof {
            let ev = entries_view(entries@)[entries@.len() - 1];
            assert(entries_view(entries@) =~= pre.push(ev));
            match spec_parse_entries(bytes@, next as int, c - 1, end as int) {
                Some(rest2) => {
                    assert(spec_parse_entries(bytes@, pos as int, c as int, end as int) == Some(
                        seq![ev] + rest2,
                    ));
                    assert(pre + (seq![ev] + rest2) =~= pre.push(ev) + rest2);
                },
                None => {
                    assert(spec_parse_entries(bytes@, pos as int, c as int, end as int) is None);
                },
            }
        }
        pos = next;
        c = c - 1;
    }
    if pos != end {
        proof {
            assert(spec_parse_entries(bytes@, pos as int, 0, end as int) is None);
        }
        return Err(Error::Corrupt);
    }
    proof {
        assert(spec_parse_entries(bytes@, pos as int, 0, end as int) == Some(
            Seq::<EntryView>::empty(),
        ));
        assert(entries_view(entries@) + Seq::<EntryView>::empty() =~= entries_view(entries@));
    }
    Ok(entries)
}

/// Decides whether the entries are strictly path-ordered.
#[verifier::loop_isolation(false)]
#[verifier::spinoff_prover]
#[verifier::rlimit(100)]
fn check_entries_sorted(entries: &Vec<Entry>) -> (r: bool)
    ensures
        r == entries_sorted(entries_view(entries@)),
{
    let ghost es = entries_view(entries@);
    let n = entries.len();
    let mut i: usize = 0;
    while n > 0 && i < n - 1
        invariant
            i <= n,
            forall|j: int| 0 <= j < i ==> lex_lt((#[trigger] es[j]).path, es[j + 1].path),
        decreases n - i,
    {
        if !crate::bytes::bytes_lt(entries[i].path.as_slice(), entries[i + 1].path.as_slice()) {
            proof {
                assert(!entries_sorted(es)) by {
                    assert(!lex_lt(es[i as int].path, es[i + 1].path));
                }
            }
            return false;
        }
        i += 1;
    }
    proof {
        assert(entries_sorted(es)) by {
            assert forall|a: int, b: int| 0 <= a < b < es.len() implies lex_lt(
                (#[trigger] es[a]).path,
                (#[trigger] es[b]).path,
            ) by {
                lemma_sorted_from_adjacent(es, a, b);
            }
        }
    }
    true
}

/// Decides whether the entries are free of ancestor collisions.
#[verifier::loop_isolation(false)]
#[verifier::spinoff_prover]
#[verifier::rlimit(100)]
fn check_entries_conflict_free(entries: &Vec<Entry>) -> (r: bool)
    ensures
        r == entries_conflict_free(entries_view(entries@)),
{
    let ghost es = entries_view(entries@);
    let n = entries.len();
    let mut a: usize = 0;
    while a < n
        invariant
            a <= n,
            forall|x: int, y: int|
                0 <= x < a && 0 <= y < n ==> !path_ancestor(
                    (#[trigger] es[x]).path,
                    (#[trigger] es[y]).path,
                ),
        decreases n - a,
    {
        let mut b: usize = 0;
        while b < n
            invariant
                a < n,
                b <= n,
                forall|y: int|
                    0 <= y < b ==> !path_ancestor(es[a as int].path, (#[trigger] es[y]).path),
            decreases n - b,
        {
            if crate::bytes::is_path_ancestor(
                entries[a].path.as_slice(),
                entries[b].path.as_slice(),
            ) {
                proof {
                    assert(!entries_conflict_free(es)) by {
                        assert(path_ancestor(es[a as int].path, es[b as int].path));
                    }
                }
                return false;
            }
            b += 1;
        }
        a += 1;
    }
    true
}

impl Index {
    /// Opens the index from the bytes of its file: the header and trailer
    /// are checked, and the entries must satisfy the index invariant. A
    /// trailer that differs from the recomputed digest of the preceding
    /// bytes is corruption; that flipping any stored byte changes that
    /// digest is SHA-1's own strength, which no contract over an
    /// uninterpreted digest can state.
    pub fn open(bytes: &[u8]) -> (r: Result<Index, Error>)
        ensures
            match spec_parse_index(bytes@) {
                Some(es) => if entries_wf(es) {
                    r matches Ok(ix) && ix@ == es && ix.wf() && !ix.spec_changed()
                } else {
                    r == Err::<Index, Error>(Error::Corrupt)
                },
                None => r == Err::<Index, Error>(Error::Corrupt),
            },
    {
        let total = bytes.len();
        if total < 32 {
            return Err(Error::Corrupt);
        }
        let lit = lit_dirc_vec();
        if !crate::bytes::match_at(bytes, 0, lit.as_slice()) {
            proof {
                assert(bytes@.subrange(0, 4) == bytes@.subrange(0, 0 + lit_dirc().len() as int));
            }
            return Err(Error::Corrupt);
        }
        proof {
            assert(bytes@.subrange(0, 4) == bytes@.subrange(0, 0 + lit_dirc().len() as int));
        }
        if read_be32(bytes, 4) != 2 {
            return Err(Error::Corrupt);
        }
        let count = read_be32(bytes, 8);
        let end = total - 20;
        let entries = match parse_all_entries(bytes, count, end) {
            Ok(v) => v,
            Err(_) => {
                return Err(Error::Corrupt);
            },
        };
        // the trailer must be the digest of everything before it
        let payload = subvec(bytes, 0, end);
        let digest = sha1_digest(payload.as_slice());
        let trailer = subvec(bytes, end, total);
        proof {
            assert(payload@ =~= bytes@.take(end as int));
        }
        if !crate::bytes::bytes_eq(trailer.as_slice(), digest.as_slice()) {
            return Err(Error::Corrupt);
        }
        proof {
            lemma_entries_shape(bytes@, 12, be32_val(bytes@.subrange(8, 12)) as int, end as int);
        }
        if !check_entries_sorted(&entries) {
            return Err(Error::Corrupt);
        }
        if !check_entries_conflict_free(&entries) {
            return Err(Error::Corrupt);
        }
        Ok(Index { entries, changed: false })
    }

    /// The on-disk bytes of the index: header, entries in path order, and
    /// the digest trailer.
    pub fn file_bytes(&self) -> (r: Vec<u8>)
        requires
            self.wf(),
            self@.len() <= u32::MAX,
            forall|i: int| 0 <= i < self@.len() ==> (#[trigger] self@[i]).path.len() + 70
                <= usize::MAX,
        ensures
            r@ == index_file(self@),
    {
        let mut out: Vec<u8> = Vec::new();
        let lit = lit_dirc_vec();
        push_all(&mut out, lit.as_slice());
        push_be32(&mut out, 2);
        push_be32(&mut out, self.entries.len() as u32);
        let ghost hdr = lit_dirc() + be32(2) + be32(self@.len() as u32);
        proof {
            assert(out@ =~= hdr);
            assert(self@.take(0) =~= Seq::<EntryView>::empty());
            assert(hdr + entries_body(self@.take(0)) =~= hdr);
        }
        let n = self.entries.len();
        let mut i: usize = 0;
        while i < n
            invariant
                i <= n,
                n == self.entries@.len(),
                self@ == entries_view(self.entries@),
                self@.len() == n,
                forall|k: int| 0 <= k < self@.len() ==> (#[trigger] self@[k]).path.len() + 70
                    <= usize::MAX,
                out@ == hdr + entries_body(self@.take(i as int)),
            decreases n - i,
        {
            let ghost pre = out@;
            proof {
                assert(self.entries@[i as int]@ == self@[i as int]);
            }
            self.entries[i].write(&mut out);
            proof {
                lemma_entries_body_push(self@.take(i as int), self@[i as int]);
                assert(self@.take(i as int).push(self@[i as int]) =~= self@.take(i + 1));
                assert(pre + self@[i as int].spec_encode() =~= hdr + (entries_body(
                    self@.take(i as int),
                ) + self@[i as int].spec_encode()));
            }
            i += 1;
        }
        proof {
            assert(self@.take(n as int) =~= self@);
            assert(out@ == index_payload(self@));
        }
        let digest = sha1_digest(out.as_slice());
        push_all(&mut out, digest.as_slice());
        proof {
            assert(out@ =~= index_file(self@));
        }
        out
    }

    /// The commit of the staged state: the bytes to rotate over the index
    /// file when membership changed, or nothing when the rewrite is not
    /// owed and the lock is simply released.
    pub fn commit(self) -> (r: Option<Vec<u8>>)
        requires
            self.wf(),
            self@.len() <= u32::MAX,
            forall|i: int| 0 <= i < self@.len() ==> (#[trigger] self@[i]).path.len() + 70
                <= usize::MAX,
        ensures
            self.spec_changed() ==> (r matches Some(v) && v@ == index_file(self@)),
            !self.spec_changed() ==> r is None,
    {
        if !self.changed {
            return None;
        }
        Some(self.file_bytes())
    }
}

// ---------------------------------------------------------------------------
// Directory-aware iteration
// ---------------------------------------------------------------------------

/// The greatest index holding a separator, if any.
pub open spec fn last_slash(p: Seq<u8>) -> Option<int>
    decreases p.len(),
{
    if p.len() == 0 {
        None
    } else if p[p.len() - 1] == 47u8 {
        Some(p.len() - 1)
    } else {
        last_slash(p.take(p.len() - 1))
    }
}

/// The path of the enclosing directory: up to the last separator, or the
/// root for a bare name.
pub open spec fn parent_path(p: Seq<u8>) -> Seq<u8> {
    match last_slash(p) {
        Some(i) => if 0 <= i < p.len() {
            p.take(i)
        } else {
            Seq::empty()
        },
        None => Seq::empty(),
    }
}

pub proof fn lemma_last_slash(p: Seq<u8>)
    ensures
        match last_slash(p) {
            Some(i) => 0 <= i < p.len() && p[i] == 47u8 && forall|j: int|
                i < j < p.len() ==> p[j] != 47u8,
            None => forall|j: int| 0 <= j < p.len() ==> p[j] != 47u8,
        },
    decreases p.len(),
{
    if p.len() != 0 && p[p.len() - 1] != 47u8 {
        let q = p.take(p.len() - 1);
        lemma_last_slash(q);
        assert(forall|j: int| 0 <= j < q.len() ==> q[j] == p[j]);
        match last_slash(q) {
            Some(i) => {
                assert(q[i] == p[i]);
                assert forall|j: int| i < j < p.len() implies p[j] != 47u8 by {
                    if j < p.len() - 1 {
                        assert(q[j] == p[j]);
                    }
                }
            },
            None => {
                assert forall|j: int| 0 <= j < p.len() implies p[j] != 47u8 by {
                    if j < p.len() - 1 {
                        assert(q[j] == p[j]);
                    }
                }
            },
        }
    }
}

/// Component-wise prefix: the root is below everything, and otherwise a
/// directory lies on the way to `q` when it equals `q` or is a proper
/// ancestor of it.
pub open spec fn dir_prefix(d: Seq<u8>, q: Seq<u8>) -> bool {
    d.len() == 0 || d == q || path_ancestor(d, q)
}

/// The directories emitted after a file and before the next one: the
/// ancestors of the previous file, deepest first, stopping at the first
/// one that also lies on the way to the next file; after the last file the
/// chain runs down to the root.
pub open spec fn dirs_from(d: Seq<u8>, q: Option<Seq<u8>>) -> Seq<Seq<u8>>
    decreases d.len(),
{
    match q {
        Some(qq) => if dir_prefix(d, qq) {
            Seq::empty()
        } else {
            seq![d] + dirs_from(parent_path(d), q)
        },
        None => if d.len() == 0 {
            seq![Seq::<u8>::empty()]
        } else {
            seq![d] + dirs_from(parent_path(d), None)
        },
    }
}

/// The mathematical model of one iteration step: a file entry or a
/// synthesized directory boundary.
pub enum NodeView {
    File(EntryView),
    Directory(Seq<u8>),
}

/// One step of the index iteration.
pub enum Node {
    File(Entry),
    Directory(Vec<u8>),
}

impl View for Node {
    type V = NodeView;

    closed spec fn view(&self) -> NodeView {
        match self {
            Node::File(e) => NodeView::File(e@),
            Node::Directory(p) => NodeView::Directory(p@),
        }
    }
}

impl Node {
    /// The node's path: the entry path, or the directory path.
    pub fn path(&self) -> (r: &Vec<u8>)
        ensures
            match self@ {
                NodeView::File(e) => r@ == e.path,
                NodeView::Directory(p) => r@ == p,
            },
    {
        match self {
            Node::File(e) => e.path(),
            Node::Directory(p) => p,
        }
    }

    /// The node's mode: a file's own mode, or the directory mode.
    pub fn mode(&self) -> (r: Mode)
        ensures
            match self@ {
                NodeView::File(e) => r == e.metadata.mode,
                NodeView::Directory(_) => r is Directory,
            },
    {
        match self {
            Node::File(e) => e.metadata().mode,
            Node::Directory(_) => Mode::Directory,
        }
    }
}

/// The per-node views of a node sequence.
pub open spec fn nodes_view(s: Seq<Node>) -> Seq<NodeView> {
    Seq::new(s.len(), |i: int| s[i]@)
}

/// The full iteration over an index: each file in path order, and after
/// all of a directory's descendants, the directory itself; the root
/// closes a non-empty iteration.
pub open spec fn nodes_seq(s: Seq<EntryView>) -> Seq<NodeView>
    decreases s.len(),
{
    if s.len() == 0 {
        Seq::empty()
    } else {
        let q: Option<Seq<u8>> = if s.len() >= 2 {
            Some(s[1].path)
        } else {
            None
        };
        seq![NodeView::File(s[0])] + dirs_from(parent_path(s[0].path), q).map_values(
            |d: Seq<u8>| NodeView::Directory(d),
        ) + nodes_seq(s.skip(1))
    }
}

/// The enclosing directory path of `p`.
#[verifier::loop_isolation(false)]
fn parent_of(p: &[u8]) -> (r: Vec<u8>)
    ensures
        r@ == parent_path(p@),
{
    proof {
        lemma_last_slash(p@);
    }
    let n = p.len();
    let mut i: usize = n;
    while i > 0
        invariant
            i <= n,
            n == p@.len(),
            forall|j: int| i <= j < n ==> p@[j] != 47u8,
        decreases i,
    {
        if p[i - 1] == 47 {
            proof {
                crate::bytes::lemma_find_byte_found(p@, 47u8, 0);
                assert(last_slash(p@) == Some(i - 1)) by {
                    match last_slash(p@) {
                        Some(k) => {
                            lemma_last_slash(p@);
                            if k < i - 1 {
                                assert(p@[i - 1] != 47u8);
                            }
                            if k > i - 1 {
                                assert(p@[k] != 47u8);
                            }
                        },
                        None => {
                            assert(p@[i - 1] != 47u8);
                        },
                    }
                }
            }
            return subvec(p, 0, i - 1);
        }
        i -= 1;
    }
    proof {
        assert(last_slash(p@) is None) by {
            match last_slash(p@) {
                Some(k) => {
                    lemma_last_slash(p@);
                    assert(p@[k] != 47u8);
                },
                None => {},
            }
        }
    }
    Vec::new()
}

/// Appends `dirs_from(d, q)` as directory nodes.
#[verifier::loop_isolation(false)]
fn push_dirs(out: &mut Vec<Node>, d: Vec<u8>, q: Option<&Vec<u8>>)
    ensures
        nodes_view(final(out)@) == nodes_view(old(out)@) + dirs_from(
            d@,
            match q {
                Some(qq) => Some(qq@),
                None => None,
            },
        ).map_values(|p: Seq<u8>| NodeView::Directory(p)),
    decreases d@.len(),
{
    let ghost qv: Option<Seq<u8>> = match q {
        Some(qq) => Some(qq@),
        None => None,
    };
    let ghost pre = nodes_view(out@);
    match q {
        Some(qq) => {
            let stop = d.len() == 0 || crate::bytes::bytes_eq(d.as_slice(), qq.as_slice())
                || crate::bytes::is_path_ancestor(d.as_slice(), qq.as_slice());
            if stop {
                proof {
                    assert(dirs_from(d@, qv).map_values(|p: Seq<u8>| NodeView::Directory(p))
                        =~= Seq::<NodeView>::empty());
                    assert(pre + Seq::<NodeView>::empty() =~= pre);
                }
                return ;
            }
            let par = parent_of(d.as_slice());
            let ghost dv = d@;
            proof {
                lemma_parent_shorter(d@);
            }
            out.push(Node::Directory(d));
            let ghost mid = nodes_view(out@);
            proof {
                assert(mid =~= pre.push(NodeView::Directory(dv)));
            }
            push_dirs(out, par, q);
            proof {
                assert(dirs_from(dv, qv) == seq![dv] + dirs_from(parent_path(dv), qv));
                assert(pre.push(NodeView::Directory(dv)) + dirs_from(parent_path(dv), qv)
                    .map_values(|p: Seq<u8>| NodeView::Directory(p)) =~= pre + dirs_from(
                    dv,
                    qv,
                ).map_values(|p: Seq<u8>| NodeView::Directory(p)));
            }
        },
        None => {
            if d.len() == 0 {
                let ghost dv = d@;
                out.push(Node::Directory(d));
                proof {
                    assert(dv =~= Seq::<u8>::empty());
                    assert(dirs_from(dv, qv).map_values(|p: Seq<u8>| NodeView::Directory(p))
                        =~= seq![NodeView::Directory(dv)]);
                    assert(nodes_view(out@) =~= pre + dirs_from(dv, qv).map_values(
                        |p: Seq<u8>| NodeView::Directory(p),
                    ));
                }
                return ;
            }
            let par = parent_of(d.as_slice());
            let ghost dv = d@;
            proof {
                lemma_parent_shorter(d@);
            }
            out.push(Node::Directory(d));
            proof {
                assert(nodes_view(out@) =~= pre.push(NodeView::Directory(dv)));
            }
            push_dirs(out, par, q);
            proof {
                assert(dirs_from(dv, qv) == seq![dv] + dirs_from(parent_path(dv), qv));
                assert(pre.push(NodeView::Directory(dv)) + dirs_from(parent_path(dv), qv)
                    .map_values(|p: Seq<u8>| NodeView::Directory(p)) =~= pre + dirs_from(
                    dv,
                    qv,
                ).map_values(|p: Seq<u8>| NodeView::Directory(p)));
            }
        },
    }
}

/// A non-empty path's enclosing directory path is strictly shorter.
pub proof fn lemma_parent_shorter(p: Seq<u8>)
    requires
        p.len() > 0,
    ensures
        parent_path(p).len() < p.len(),
{
    lemma_last_slash(p);
}

impl Index {
    /// The full iteration: files in path order with synthesized directory
    /// boundaries, directory contents before the directory itself.
    #[verifier::loop_isolation(false)]
    pub fn nodes(&self) -> (r: Vec<Node>)
        ensures
            nodes_view(r@) == nodes_seq(self@),
    {
        let ghost s = self@;
        let n = self.entries.len();
        let mut out: Vec<Node> = Vec::new();
        let mut i: usize = 0;
        proof {
            assert(s.skip(0) =~= s);
            assert(nodes_view(out@) =~= Seq::<NodeView>::empty());
            assert(Seq::<NodeView>::empty() + nodes_seq(s) =~= nodes_seq(s));
        }
        while i < n
            invariant
                i <= n,
                nodes_view(out@) + nodes_seq(s.skip(i as int)) == nodes_seq(s),
            decreases n - i,
        {
            let ghost pre = nodes_view(out@);
            let ghost si = s.skip(i as int);
            proof {
                assert(si.len() == n - i >= 1);
                assert(si[0] == s[i as int]);
            }
            let entry = self.entries[i].clone();
            let ghost ev = entry@;
            out.push(Node::File(entry));
            proof {
                assert(nodes_view(out@) =~= pre.push(NodeView::File(ev)));
            }
            let parent = parent_of(self.entries[i].path.as_slice());
            let ghost mid = nodes_view(out@);
            if i + 1 < n {
                let next = &self.entries[i + 1];
                proof {
                    assert(si.len() >= 2 && si[1] == s[i + 1]);
                }
                push_dirs(&mut out, parent, Some(&next.path));
            } else {
                proof {
                    assert(si.len() < 2);
                }
                push_dirs(&mut out, parent, None);
            }
            proof {
                let ghost q: Option<Seq<u8>> = if si.len() >= 2 {
                    Some(si[1].path)
                } else {
                    None
                };
                let dirs = dirs_from(parent_path(si[0].path), q).map_values(
                    |p: Seq<u8>| NodeView::Directory(p),
                );
                assert(nodes_view(out@) =~= mid + dirs);
                assert(nodes_seq(si) == seq![NodeView::File(si[0])] + dirs + nodes_seq(
                    si.skip(1),
                ));
                assert(si.skip(1) =~= s.skip(i + 1));
                assert(pre.push(NodeView::File(ev)) + dirs + nodes_seq(s.skip(i + 1)) =~= pre + (
                seq![NodeView::File(ev)] + dirs + nodes_seq(s.skip(i + 1))));
            }
            i += 1;
        }
        proof {
            assert(s.skip(n as int) =~= Seq::<EntryView>::empty());
            assert(nodes_view(out@) + Seq::<NodeView>::empty() =~= nodes_view(out@));
        }
        out
    }
}


} // verus!
