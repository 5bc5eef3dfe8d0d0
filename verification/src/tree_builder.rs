//! The commit-side consumer of the index: one tree object per directory,
//! subdirectories stored before their parents and the root tree last. The
//! whole construction is defined as a specification function over the
//! entries, and the executable builder returns exactly its value.

use crate::bytes::{is_prefix, find_byte, scan_byte, subvec};
use crate::database::{Database, StoreOp};
use crate::hashing::sha1_of;
use crate::index::{entries_view, Entry, EntryView, Index};
use crate::meta::Mode;
use crate::object::{Id, Object, ObjectView, Tree, TreeNode, TreeNodeView};
use crate::zlib::{inflate_of, zlib_of};
use vstd::prelude::*;

verus! {

/// One stored tree: the object itself and the write that persists it.
pub struct StoredTree {
    pub object: Object,
    pub op: StoreOp,
}

/// The node sequences of the stored trees, in storage order.
pub open spec fn trees_of(s: Seq<StoredTree>) -> Seq<Seq<TreeNodeView>> {
    Seq::new(
        s.len(),
        |k: int|
            match s[k].object@ {
                ObjectView::Tree(nodes) => nodes,
                _ => Seq::empty(),
            },
    )
}

/// Every stored element is a tree whose id, compressed bytes, and
/// destination path are exactly what a store of it computes.
pub open spec fn stored_ok(s: Seq<StoredTree>, db_root: Seq<u8>) -> bool {
    forall|k: int|
        0 <= k < s.len() ==> {
            let st = #[trigger] s[k];
            &&& st.object@ is Tree
            &&& st.op.id.wf()
            &&& st.op.id@ == sha1_of(st.object@.spec_encode())
            &&& st.op.bytes@ == zlib_of(st.object@.spec_encode())
            &&& inflate_of(st.op.bytes@) == Some(st.object@.spec_encode())
            &&& st.op.path@ == db_root + seq![47u8] + Id::spec_rel_path(st.op.id@)
        }
}

/// The end of the run of entries from `j` on, below `hi`, whose paths
/// start with `pref`; paths with a common prefix are contiguous in the
/// index's byte-wise order.
pub open spec fn run_end(s: Seq<EntryView>, j: int, hi: int, pref: Seq<u8>) -> int
    decreases hi - j,
{
    if j >= hi || !is_prefix(pref, s[j].path) {
        j
    } else {
        run_end(s, j + 1, hi, pref)
    }
}

pub proof fn lemma_run_end_bounds(s: Seq<EntryView>, j: int, hi: int, pref: Seq<u8>)
    requires
        j <= hi,
    ensures
        j <= run_end(s, j, hi, pref) <= hi,
    decreases hi - j,
{
    if j < hi && is_prefix(pref, s[j].path) {
        lemma_run_end_bounds(s, j + 1, hi, pref);
    }
}

/// The recursion measure: how many path bytes of the first entry lie
/// beyond the current prefix.
pub open spec fn build_measure(s: Seq<EntryView>, lo: int, hi: int, plen: int) -> int {
    if lo < hi && s[lo].path.len() >= plen {
        s[lo].path.len() - plen
    } else {
        0
    }
}

/// The trees stored while committing the directory whose entries occupy
/// `[lo, hi)` under a prefix of `plen` bytes — subdirectories first, the
/// directory's own tree last — and that tree's id: the SHA-1 of its
/// canonical bytes.
pub open spec fn spec_build(s: Seq<EntryView>, lo: int, hi: int, plen: int) -> (Seq<
    Seq<TreeNodeView>,
>, Seq<u8>)
    decreases hi - lo, build_measure(s, lo, hi, plen), 1int,
{
    let c = spec_children(s, lo, hi, plen);
    (c.0.push(c.1), sha1_of(ObjectView::Tree(c.1).spec_encode()))
}

/// One step of the construction: the trees its subdirectories store, the
/// child nodes of this directory, and the leaves the whole step covers.
/// An entry with no further separator is a file child named by the rest of
/// its path, and one leaf; a run of entries sharing the next component is
/// a subdirectory, built recursively and entered as a directory child
/// carrying its tree's id, its leaves re-prefixed with that component.
pub open spec fn spec_children(s: Seq<EntryView>, i: int, hi: int, plen: int) -> (Seq<
    Seq<TreeNodeView>,
>, Seq<TreeNodeView>, Seq<(Seq<u8>, Seq<u8>, Mode)>)
    decreases hi - i, build_measure(s, i, hi, plen), 0int,
    via spec_children_decreases
{
    if i >= hi {
        (Seq::empty(), Seq::empty(), Seq::empty())
    } else {
        let p = s[i].path;
        match find_byte(p, 47u8, plen) {
            None => {
                let name = if plen <= p.len() {
                    p.skip(plen)
                } else {
                    Seq::empty()
                };
                let node = TreeNodeView { name, id: s[i].id, mode: s[i].metadata.mode };
                let rest = spec_children(s, i + 1, hi, plen);
                (
                    rest.0,
                    seq![node] + rest.1,
                    seq![(name, s[i].id, s[i].metadata.mode)] + rest.2,
                )
            },
            Some(q) => {
                let pref = p.take(q + 1);
                let stop = run_end(s, i + 1, hi, pref);
                let sub = spec_build(s, i, stop, q + 1);
                let comp = p.subrange(plen, q);
                let node = TreeNodeView { name: comp, id: sub.1, mode: Mode::Directory };
                let rest = spec_children(s, stop, hi, plen);
                let sub_leaves = spec_children(s, i, stop, q + 1).2.map_values(
                    |t: (Seq<u8>, Seq<u8>, Mode)| (comp + seq![47u8] + t.0, t.1, t.2),
                );
                (sub.0 + rest.0, seq![node] + rest.1, sub_leaves + rest.2)
            },
        }
    }
}

/// The leaves an index range denotes directly: each entry's path below the
/// prefix, with its id and mode, in order.
pub open spec fn entry_leaves(s: Seq<EntryView>, lo: int, hi: int, plen: int) -> Seq<
    (Seq<u8>, Seq<u8>, Mode),
> {
    Seq::new(
        (hi - lo) as nat,
        |k: int| (s[lo + k].path.skip(plen), s[lo + k].id, s[lo + k].metadata.mode),
    )
}

/// Every entry of a run shares the run's prefix.
pub proof fn lemma_run_end_members(s: Seq<EntryView>, j: int, hi: int, pref: Seq<u8>)
    requires
        j <= hi,
    ensures
        forall|t: int|
            j <= t < run_end(s, j, hi, pref) ==> is_prefix(pref, (#[trigger] s[t]).path),
    decreases hi - j,
{
    if j < hi && is_prefix(pref, s[j].path) {
        lemma_run_end_members(s, j + 1, hi, pref);
    }
}

/// Every staged entry is a file entry with a clean relative path.
pub open spec fn staged_clean(s: Seq<EntryView>) -> bool {
    forall|k: int|
        0 <= k < s.len() ==> path_clean((#[trigger] s[k]).path) && !(s[k].metadata.mode
            is Directory)
}

/// A clean relative path: non-empty, with no leading, trailing, or
/// doubled separator.
pub open spec fn path_clean(p: Seq<u8>) -> bool {
    &&& p.len() > 0
    &&& p[0] != 47u8
    &&& p[p.len() - 1] != 47u8
    &&& forall|t: int| 0 <= t < p.len() - 1 ==> !(#[trigger] p[t] == 47u8 && p[t + 1] == 47u8)
}

/// Every node of a tree carries a valid component name: non-empty, free of
/// separators and NUL bytes.
pub open spec fn names_wf(nodes: Seq<TreeNodeView>) -> bool {
    forall|m: int|
        0 <= m < nodes.len() ==> {
            let nd = #[trigger] nodes[m];
            &&& nd.name.len() >= 1
            &&& forall|t: int| 0 <= t < nd.name.len() ==> #[trigger] nd.name[t] != 47u8
            &&& forall|t: int| 0 <= t < nd.name.len() ==> #[trigger] nd.name[t] != 0u8
        }
}

/// When every entry's path is clean, every tree the construction stores
/// carries valid component names.
#[verifier::spinoff_prover]
#[verifier::rlimit(100)]
pub proof fn lemma_build_names_wf(s: Seq<EntryView>, lo: int, hi: int, plen: int)
    requires
        0 <= lo <= hi <= s.len(),
        0 <= plen,
        forall|k: int| lo <= k < hi ==> (#[trigger] s[k]).wf(),
        forall|k: int| lo <= k < hi ==> path_clean((#[trigger] s[k]).path),
        forall|k: int| lo <= k < hi ==> (#[trigger] s[k]).path.len() > plen,
        forall|k: int| lo <= k < hi && plen > 0 ==> (#[trigger] s[k]).path[plen - 1] == 47u8,
    ensures
        names_wf(spec_children(s, lo, hi, plen).1),
        forall|t: int|
            0 <= t < spec_children(s, lo, hi, plen).0.len() ==> names_wf(
                #[trigger] spec_children(s, lo, hi, plen).0[t],
            ),
    decreases hi - lo, build_measure(s, lo, hi, plen),
{
    if lo < hi {
        let p = s[lo].path;
        match find_byte(p, 47u8, plen) {
            None => {
                crate::bytes::lemma_find_byte_found(p, 47u8, plen);
                lemma_build_names_wf(s, lo + 1, hi, plen);
                let c = spec_children(s, lo, hi, plen);
                let rest = spec_children(s, lo + 1, hi, plen);
                assert(names_wf(c.1)) by {
                    assert forall|m: int| 0 <= m < c.1.len() implies {
                        let nd = #[trigger] c.1[m];
                        &&& nd.name.len() >= 1
                        &&& forall|t: int| 0 <= t < nd.name.len() ==> #[trigger] nd.name[t]
                            != 47u8
                        &&& forall|t: int| 0 <= t < nd.name.len() ==> #[trigger] nd.name[t]
                            != 0u8
                    } by {
                        if m == 0 {
                            assert forall|t: int|
                                0 <= t < c.1[0].name.len() implies #[trigger] c.1[0].name[t]
                                != 47u8 && c.1[0].name[t] != 0u8 by {
                                assert(c.1[0].name[t] == p[plen + t]);
                            }
                        } else {
                            assert(c.1[m] == rest.1[m - 1]);
                        }
                    }
                }
            },
            Some(q) => {
                assert(0 <= plen < p.len()) by {
                    if plen >= p.len() {
                        assert(find_byte(p, 47u8, plen) is None);
                    }
                }
                crate::bytes::lemma_find_byte_found(p, 47u8, plen);
                let pref = p.take(q + 1);
                let stop = run_end(s, lo + 1, hi, pref);
                lemma_run_end_bounds(s, lo + 1, hi, pref);
                lemma_run_end_members(s, lo + 1, hi, pref);
                assert forall|t: int| lo <= t < stop implies is_prefix(
                    pref,
                    (#[trigger] s[t]).path,
                ) by {
                    if t == lo {
                        assert(p.take(q + 1) =~= pref);
                    }
                }
                // the component is non-empty: a separator right at the
                // prefix would be a leading or doubled one
                assert(q > plen) by {
                    if q == plen {
                        if plen == 0 {
                            assert(p[0] == 47u8);
                        } else {
                            assert(p[plen - 1] == 47u8 && p[plen] == 47u8);
                        }
                    }
                }
                // the run's entries continue past the separator, cleanly
                assert forall|t: int| lo <= t < stop implies (#[trigger] s[t]).path.len() > q
                    + 1 by {
                    assert(s[t].path.take(q + 1)[q] == pref[q]);
                    assert(pref[q] == p[q]);
                    if s[t].path.len() == q + 1 {
                        assert(s[t].path[s[t].path.len() - 1] == 47u8);
                    }
                }
                assert forall|t: int| lo <= t < stop implies (#[trigger] s[t]).path[q + 1 - 1]
                    == 47u8 by {
                    assert(s[t].path.take(q + 1)[q] == pref[q]);
                    assert(pref[q] == p[q]);
                }
                lemma_build_names_wf(s, lo, stop, q + 1);
                lemma_build_names_wf(s, stop, hi, plen);
                let c = spec_children(s, lo, hi, plen);
                let sub = spec_build(s, lo, stop, q + 1);
                let subc = spec_children(s, lo, stop, q + 1);
                let rest = spec_children(s, stop, hi, plen);
                assert(names_wf(c.1)) by {
                    assert forall|m: int| 0 <= m < c.1.len() implies {
                        let nd = #[trigger] c.1[m];
                        &&& nd.name.len() >= 1
                        &&& forall|t: int| 0 <= t < nd.name.len() ==> #[trigger] nd.name[t]
                            != 47u8
                        &&& forall|t: int| 0 <= t < nd.name.len() ==> #[trigger] nd.name[t]
                            != 0u8
                    } by {
                        if m == 0 {
                            assert forall|t: int|
                                0 <= t < c.1[0].name.len() implies #[trigger] c.1[0].name[t]
                                != 47u8 && c.1[0].name[t] != 0u8 by {
                                assert(c.1[0].name[t] == p[plen + t]);
                            }
                        } else {
                            assert(c.1[m] == rest.1[m - 1]);
                        }
                    }
                }
                assert forall|t: int| 0 <= t < c.0.len() implies names_wf(
                    #[trigger] c.0[t],
                ) by {
                    if t < sub.0.len() {
                        assert(c.0[t] == sub.0[t]);
                        if t < subc.0.len() {
                            assert(sub.0[t] == subc.0[t]);
                        } else {
                            assert(sub.0[t] == subc.1);
                        }
                    } else {
                        assert(c.0[t] == rest.0[t - sub.0.len()]);
                    }
                }
            },
        }
    }
}

/// A tree's children in canonical order: strictly ascending by the
/// directory-suffix ordering key, with no duplicate names.
pub open spec fn tree_ordered(nodes: Seq<TreeNodeView>) -> bool {
    &&& forall|a: int, b: int|
        0 <= a < b < nodes.len() ==> crate::bytes::lex_lt(
            (#[trigger] nodes[a]).order_key(),
            (#[trigger] nodes[b]).order_key(),
        )
    &&& forall|a: int, b: int|
        0 <= a < b < nodes.len() ==> (#[trigger] nodes[a]).name != (#[trigger] nodes[b]).name
}

/// How a child's ordering key arises from an entry: the key begins the
/// entry's path below the prefix, and is either the whole of it,
/// separator-free, or closed by its only separator.
pub open spec fn key_from(s: Seq<EntryView>, k: int, plen: int, key: Seq<u8>) -> bool {
    let rem = s[k].path.skip(plen);
    &&& is_prefix(key, rem)
    &&& key.len() >= 1
    &&& ((key == rem && (forall|t: int| 0 <= t < key.len() ==> #[trigger] key[t] != 47u8)) || (
    key[key.len() - 1] == 47u8 && (forall|t: int|
        0 <= t < key.len() - 1 ==> #[trigger] key[t] != 47u8)))
}

/// Every child's ordering key arises from the range entry its witness
/// names.
pub open spec fn keys_witnessed(
    s: Seq<EntryView>,
    lo: int,
    hi: int,
    plen: int,
    nodes: Seq<TreeNodeView>,
    wit: Seq<int>,
) -> bool {
    &&& wit.len() == nodes.len()
    &&& forall|m: int| 0 <= m < nodes.len() ==> lo <= #[trigger] wit[m] < hi
    &&& forall|m: int|
        0 <= m < nodes.len() ==> key_from(
            s,
            #[trigger] wit[m],
            plen,
            (#[trigger] nodes[m]).order_key(),
        )
}

/// The entry a run stops at does not share the run's prefix.
pub proof fn lemma_run_end_stop(s: Seq<EntryView>, j: int, hi: int, pref: Seq<u8>)
    requires
        j <= hi,
    ensures
        run_end(s, j, hi, pref) < hi ==> !is_prefix(pref, s[run_end(s, j, hi, pref)].path),
    decreases hi - j,
{
    if j < hi && is_prefix(pref, s[j].path) {
        lemma_run_end_stop(s, j + 1, hi, pref);
    }
}

/// A later entry's child key lies strictly above an earlier entry's: the
/// keys inherit the entries' byte-wise order.
#[verifier::spinoff_prover]
#[verifier::rlimit(100)]
proof fn lemma_key_order_step(
    s: Seq<EntryView>,
    lo: int,
    k: int,
    plen: int,
    key0: Seq<u8>,
    keym: Seq<u8>,
)
    requires
        0 <= plen,
        0 <= lo < k < s.len(),
        s[lo].path.len() > plen,
        s[k].path.len() > plen,
        crate::bytes::lex_lt(s[lo].path, s[k].path),
        s[lo].path.take(plen) == s[k].path.take(plen),
        key_from(s, lo, plen, key0),
        key_from(s, k, plen, keym),
        key0[key0.len() - 1] == 47u8 ==> !is_prefix(key0, s[k].path.skip(plen)),
    ensures
        crate::bytes::lex_lt(key0, keym),
{
    let rem0 = s[lo].path.skip(plen);
    let remk = s[k].path.skip(plen);
    crate::bytes::lemma_lex_lt_skip_common(s[lo].path, s[k].path, plen);
    assert(crate::bytes::lex_lt(rem0, remk));
    crate::bytes::lemma_is_prefix_le(key0, rem0);
    // the head key sits at or below its own remainder, hence below the
    // later remainder
    assert(crate::bytes::lex_lt(key0, remk)) by {
        crate::bytes::lemma_lex_le_transitive(key0, rem0, remk);
        if key0 == remk {
            assert(remk.take(key0.len() as int) =~= key0);
            assert(is_prefix(key0, remk));
            if key0[key0.len() - 1] == 47u8 {
                assert(false);
            } else {
                // a separator-free key is the whole head remainder
                assert(key0 == rem0);
                crate::bytes::lemma_is_prefix_le(remk, rem0);
                crate::bytes::lemma_lex_le_antisymmetric(rem0, remk);
            }
        }
    }
    crate::bytes::lemma_lex_lt_front(key0, remk, keym);
    if is_prefix(keym, key0) {
        if keym[keym.len() - 1] == 47u8 {
            assert(key0[keym.len() - 1] == 47u8) by {
                assert(key0.take(keym.len() as int)[keym.len() - 1] == keym[keym.len() - 1]);
            }
            if key0[key0.len() - 1] == 47u8 {
                // separators only close a key, so the keys coincide
                assert(keym.len() == key0.len());
                assert(keym =~= key0) by {
                    assert forall|t: int| 0 <= t < key0.len() implies keym[t] == key0[t] by {
                        assert(key0.take(keym.len() as int)[t] == keym[t]);
                    }
                }
                assert(is_prefix(key0, remk));
                assert(false);
            } else {
                assert(false);
            }
        } else {
            // a separator-free later key is its whole remainder
            assert(keym == remk);
            assert(is_prefix(remk, rem0)) by {
                assert(rem0.take(remk.len() as int) =~= remk) by {
                    assert forall|t: int| 0 <= t < remk.len() implies rem0.take(
                        remk.len() as int,
                    )[t] == remk[t] by {
                        assert(key0.take(keym.len() as int)[t] == keym[t]);
                        assert(rem0.take(key0.len() as int)[t] == key0[t]);
                    }
                }
            }
            crate::bytes::lemma_is_prefix_le(remk, rem0);
            crate::bytes::lemma_lex_le_antisymmetric(rem0, remk);
            assert(false);
        }
    }
}

/// An entry whose remainder is exactly `name`, beside an entry whose
/// remainder opens with `name` and a separator, is its ancestor.
#[verifier::spinoff_prover]
#[verifier::rlimit(100)]
proof fn lemma_name_collision(s: Seq<EntryView>, a: int, b: int, plen: int, name: Seq<u8>)
    requires
        0 <= plen,
        0 <= a < s.len(),
        0 <= b < s.len(),
        s[a].path.len() > plen,
        s[b].path.len() > plen,
        s[a].path.take(plen) == s[b].path.take(plen),
        name.len() >= 1,
        s[a].path.skip(plen) == name,
        is_prefix(name + seq![47u8], s[b].path.skip(plen)),
    ensures
        crate::bytes::path_ancestor(s[a].path, s[b].path),
{
    let pa = s[a].path;
    let pb = s[b].path;
    let remb = pb.skip(plen);
    assert(pa.len() == plen + name.len());
    assert(pb.len() >= plen + name.len() + 1) by {
        assert(remb.len() >= name.len() + 1);
    }
    assert(pb[pa.len() as int] == 47u8) by {
        assert(remb.take((name.len() + 1) as int)[name.len() as int] == (name + seq![47u8])[
            name.len() as int
        ]);
        assert(remb[name.len() as int] == pb[plen + name.len()]);
    }
    assert(pb.take(pa.len() as int) =~= pa) by {
        assert forall|t: int| 0 <= t < pa.len() implies pb.take(pa.len() as int)[t]
            == pa[t] by {
            if t < plen {
                assert(pa.take(plen)[t] == pb.take(plen)[t]);
            } else {
                assert(remb.take((name.len() + 1) as int)[t - plen] == (name + seq![47u8])[t
                    - plen]);
                assert(remb[t - plen] == pb[t]);
                assert(name[t - plen] == pa.skip(plen)[t - plen]);
            }
        }
    }
}

/// Joins the head child with the already-ordered later children: the head
/// key lies strictly below every later key, and a repeated name would be a
/// file/directory collision among the entries.
#[verifier::spinoff_prover]
#[verifier::rlimit(100)]
proof fn lemma_children_combine(
    s: Seq<EntryView>,
    lo: int,
    hi: int,
    plen: int,
    next: int,
    key0: Seq<u8>,
    children: Seq<TreeNodeView>,
    restc: Seq<TreeNodeView>,
    rest_wit: Seq<int>,
) -> (wit: Seq<int>)
    requires
        0 <= lo < next <= hi <= s.len(),
        0 <= plen,
        children.len() == restc.len() + 1,
        children[0].order_key() == key0,
        forall|m: int| 1 <= m < children.len() ==> #[trigger] children[m] == restc[m - 1],
        key_from(s, lo, plen, key0),
        tree_ordered(restc),
        names_wf(children),
        keys_witnessed(s, next, hi, plen, restc, rest_wit),
        forall|k: int| lo <= k < hi ==> (#[trigger] s[k]).path.len() > plen,
        forall|a: int, b: int|
            lo <= a < b < hi ==> crate::bytes::lex_lt(
                (#[trigger] s[a]).path,
                (#[trigger] s[b]).path,
            ),
        forall|a: int, b: int|
            lo <= a < hi && lo <= b < hi ==> !crate::bytes::path_ancestor(
                (#[trigger] s[a]).path,
                (#[trigger] s[b]).path,
            ),
        forall|a: int, b: int|
            lo <= a < hi && lo <= b < hi ==> (#[trigger] s[a]).path.take(plen) == (
            #[trigger] s[b]).path.take(plen),
        key0[key0.len() - 1] == 47u8 ==> forall|k: int|
            next <= k < hi ==> !is_prefix(key0, (#[trigger] s[k]).path.skip(plen)),
    ensures
        tree_ordered(children),
        keys_witnessed(s, lo, hi, plen, children, wit),
{
    let wit = seq![lo] + rest_wit;
    // each child's key arises from an entry of the whole range
    assert forall|m: int| 0 <= m < children.len() implies lo <= #[trigger] wit[m] < hi by {
        if m >= 1 {
            assert(wit[m] == rest_wit[m - 1]);
        }
    }
    assert forall|m: int| 0 <= m < children.len() implies key_from(
        s,
        #[trigger] wit[m],
        plen,
        (#[trigger] children[m]).order_key(),
    ) by {
        if m >= 1 {
            assert(wit[m] == rest_wit[m - 1]);
            assert(children[m] == restc[m - 1]);
        }
    }
    // the keys ascend strictly
    assert forall|m1: int, m2: int| 0 <= m1 < m2 < children.len() implies crate::bytes::lex_lt(
        (#[trigger] children[m1]).order_key(),
        (#[trigger] children[m2]).order_key(),
    ) by {
        if m1 == 0 {
            let keym = children[m2].order_key();
            let k = rest_wit[m2 - 1];
            assert(next <= k < hi && key_from(s, k, plen, restc[m2 - 1].order_key()));
            lemma_key_order_step(s, lo, k, plen, key0, keym);
        } else {
            assert(crate::bytes::lex_lt(restc[m1 - 1].order_key(), restc[m2 - 1].order_key()));
        }
    }
    // names repeat only through a file/directory collision, which the
    // entries exclude
    assert forall|m1: int, m2: int| 0 <= m1 < m2 < children.len() implies (
    #[trigger] children[m1]).name != (#[trigger] children[m2]).name by {
        if m1 == 0 && children[0].name == children[m2].name {
            let name0 = children[0].name;
            let keym = children[m2].order_key();
            let k = rest_wit[m2 - 1];
            assert(next <= k < hi && key_from(s, k, plen, restc[m2 - 1].order_key()));
            assert(key_from(s, k, plen, keym));
            // the names are valid components, so each key is the name,
            // possibly closed by a separator
            assert(name0.len() >= 1 && forall|t: int|
                0 <= t < name0.len() ==> #[trigger] name0[t] != 47u8);
            let head_dir = children[0].mode is Directory;
            let m_dir = children[m2].mode is Directory;
            if head_dir == m_dir {
                assert(key0 == keym);
                assert(crate::bytes::lex_lt(key0, keym)) by {
                    lemma_key_order_step(s, lo, k, plen, key0, keym);
                }
                assert(false);
            } else if !head_dir {
                // a file child beside a directory child of the same name
                assert(key0 == name0);
                assert(keym == name0 + seq![47u8]);
                assert(key0 == s[lo].path.skip(plen)) by {
                    if key0[key0.len() - 1] == 47u8 {
                        assert(name0[name0.len() - 1] != 47u8);
                    }
                }
                assert(is_prefix(name0 + seq![47u8], s[k].path.skip(plen)));
                lemma_name_collision(s, lo, k, plen, name0);
                assert(false);
            } else {
                // a directory child beside a file child of the same name
                assert(key0 == name0 + seq![47u8]);
                assert(keym == name0);
                assert(keym == s[k].path.skip(plen)) by {
                    if keym[keym.len() - 1] == 47u8 {
                        assert(name0[name0.len() - 1] != 47u8);
                    }
                }
                assert(is_prefix(name0 + seq![47u8], s[lo].path.skip(plen))) by {
                    assert(is_prefix(key0, s[lo].path.skip(plen)));
                }
                lemma_name_collision(s, k, lo, plen, name0);
                assert(false);
            }
        } else if m1 >= 1 {
            assert(restc[m1 - 1].name != restc[m2 - 1].name);
        }
    }
    assert(wit.len() == children.len());
    assert(keys_witnessed(s, lo, hi, plen, children, wit));
    wit
}

/// Committed trees are canonically ordered: when the entries of a range
/// are strictly byte-ordered, free of file/directory collisions, and
/// slash-clean, every tree the construction stores lists its children
/// strictly ascending by the directory-suffix ordering key, with no
/// duplicate names; and each child's key arises from an entry of the
/// range.
#[verifier::spinoff_prover]
#[verifier::rlimit(100)]
pub proof fn lemma_build_ordered(s: Seq<EntryView>, lo: int, hi: int, plen: int) -> (wit: Seq<
    int,
>)
    requires
        0 <= lo <= hi <= s.len(),
        0 <= plen,
        forall|k: int| lo <= k < hi ==> (#[trigger] s[k]).wf(),
        forall|k: int| lo <= k < hi ==> path_clean((#[trigger] s[k]).path),
        forall|k: int| lo <= k < hi ==> !((#[trigger] s[k]).metadata.mode is Directory),
        forall|k: int| lo <= k < hi ==> (#[trigger] s[k]).path.len() > plen,
        forall|k: int| lo <= k < hi && plen > 0 ==> (#[trigger] s[k]).path[plen - 1] == 47u8,
        forall|a: int, b: int|
            lo <= a < b < hi ==> crate::bytes::lex_lt(
                (#[trigger] s[a]).path,
                (#[trigger] s[b]).path,
            ),
        forall|a: int, b: int|
            lo <= a < hi && lo <= b < hi ==> !crate::bytes::path_ancestor(
                (#[trigger] s[a]).path,
                (#[trigger] s[b]).path,
            ),
        forall|a: int, b: int|
            lo <= a < hi && lo <= b < hi ==> (#[trigger] s[a]).path.take(plen) == (
            #[trigger] s[b]).path.take(plen),
    ensures
        tree_ordered(spec_children(s, lo, hi, plen).1),
        forall|t: int|
            0 <= t < spec_children(s, lo, hi, plen).0.len() ==> tree_ordered(
                #[trigger] spec_children(s, lo, hi, plen).0[t],
            ),
        keys_witnessed(s, lo, hi, plen, spec_children(s, lo, hi, plen).1, wit),
    decreases hi - lo, build_measure(s, lo, hi, plen),
{
    if lo >= hi {
        return Seq::empty();
    }
    lemma_build_names_wf(s, lo, hi, plen);
    let p = s[lo].path;
    let c = spec_children(s, lo, hi, plen);
    let node0 = c.1[0];
    let key0 = node0.order_key();
    match find_byte(p, 47u8, plen) {
        None => {
            crate::bytes::lemma_find_byte_found(p, 47u8, plen);
            let rest_wit = lemma_build_ordered(s, lo + 1, hi, plen);
            let rest = spec_children(s, lo + 1, hi, plen);
            // the head is a file child: its key is the whole remainder
            assert(key0 == p.skip(plen)) by {
                assert(!(node0.mode is Directory));
            }
            assert(key_from(s, lo, plen, key0)) by {
                assert(p.skip(plen).take(p.skip(plen).len() as int) =~= p.skip(plen));
                assert forall|t: int| 0 <= t < key0.len() implies #[trigger] key0[t]
                    != 47u8 by {
                    assert(p.skip(plen)[t] == p[plen + t]);
                }
            }
            let wit = lemma_children_combine(
                s,
                lo,
                hi,
                plen,
                lo + 1,
                key0,
                c.1,
                rest.1,
                rest_wit,
            );
            assert(forall|t: int|
                0 <= t < c.0.len() ==> tree_ordered(#[trigger] c.0[t])) by {
                assert(c.0 == rest.0);
            }
            return wit;
        },
        Some(q) => {
            assert(0 <= plen < p.len()) by {
                if plen >= p.len() {
                    assert(find_byte(p, 47u8, plen) is None);
                }
            }
            crate::bytes::lemma_find_byte_found(p, 47u8, plen);
            let pref = p.take(q + 1);
            let stop = run_end(s, lo + 1, hi, pref);
            lemma_run_end_bounds(s, lo + 1, hi, pref);
            lemma_run_end_members(s, lo + 1, hi, pref);
            lemma_run_end_stop(s, lo + 1, hi, pref);
            assert forall|t: int| lo <= t < stop implies is_prefix(
                pref,
                (#[trigger] s[t]).path,
            ) by {
                if t == lo {
                    assert(p.take(q + 1) =~= pref);
                }
            }
            assert(q > plen) by {
                if q == plen {
                    if plen == 0 {
                        assert(p[0] == 47u8);
                    } else {
                        assert(p[plen - 1] == 47u8 && p[plen] == 47u8);
                    }
                }
            }
            assert forall|t: int| lo <= t < stop implies (#[trigger] s[t]).path.len() > q
                + 1 by {
                assert(s[t].path.take(q + 1)[q] == pref[q]);
                assert(pref[q] == p[q]);
                if s[t].path.len() == q + 1 {
                    assert(s[t].path[s[t].path.len() - 1] == 47u8);
                }
            }
            assert forall|t: int| lo <= t < stop implies (#[trigger] s[t]).path[q + 1 - 1]
                == 47u8 by {
                assert(s[t].path.take(q + 1)[q] == pref[q]);
                assert(pref[q] == p[q]);
            }
            assert forall|a: int, b: int|
                lo <= a < stop && lo <= b < stop implies (#[trigger] s[a]).path.take(q + 1) == (
                #[trigger] s[b]).path.take(q + 1) by {
                assert(s[a].path.take(q + 1) =~= pref);
                assert(s[b].path.take(q + 1) =~= pref);
            }
            let _sub_wit = lemma_build_ordered(s, lo, stop, q + 1);
            let rest_wit = lemma_build_ordered(s, stop, hi, plen);
            let sub = spec_build(s, lo, stop, q + 1);
            let subc = spec_children(s, lo, stop, q + 1);
            let rest = spec_children(s, stop, hi, plen);
            // the head is a directory child: its key is the component and
            // its separator
            let comp = p.subrange(plen, q);
            assert(key0 == comp + seq![47u8]);
            assert(key_from(s, lo, plen, key0)) by {
                assert(p.skip(plen).take(key0.len() as int) =~= key0) by {
                    assert forall|t: int| 0 <= t < key0.len() implies p.skip(plen).take(
                        key0.len() as int,
                    )[t] == key0[t] by {
                        assert(p.skip(plen)[t] == p[plen + t]);
                        if t < q - plen {
                            assert(key0[t] == comp[t]);
                        }
                    }
                }
                assert(key0[key0.len() - 1] == 47u8);
                assert forall|t: int| 0 <= t < key0.len() - 1 implies #[trigger] key0[t]
                    != 47u8 by {
                    assert(key0[t] == comp[t]);
                    assert(comp[t] == p[plen + t]);
                }
            }
            // later entries have left the run, so the head key does not
            // begin their remainders
            assert forall|k: int| stop <= k < hi implies !is_prefix(
                key0,
                (#[trigger] s[k]).path.skip(plen),
            ) by {
                if is_prefix(key0, s[k].path.skip(plen)) {
                    assert(is_prefix(pref, s[k].path)) by {
                        assert(s[k].path.take(q + 1) =~= pref) by {
                            assert forall|t: int| 0 <= t < q + 1 implies s[k].path.take(
                                q + 1,
                            )[t] == pref[t] by {
                                if t < plen {
                                    assert(s[k].path.take(plen)[t] == s[lo].path.take(plen)[t]);
                                } else {
                                    assert(s[k].path.skip(plen).take(key0.len() as int)[t - plen]
                                        == key0[t - plen]);
                                    assert(s[k].path.skip(plen)[t - plen] == s[k].path[t]);
                                    assert(p.skip(plen).take(key0.len() as int)[t - plen]
                                        == key0[t - plen]);
                                    assert(p.skip(plen)[t - plen] == p[t]);
                                }
                            }
                        }
                    }
                    if k == stop {
                        assert(false);
                    } else {
                        crate::bytes::lemma_prefix_interval(
                            pref,
                            s[lo].path,
                            s[stop].path,
                            s[k].path,
                        );
                        assert(false);
                    }
                }
            }
            let wit = lemma_children_combine(
                s,
                lo,
                hi,
                plen,
                stop,
                key0,
                c.1,
                rest.1,
                rest_wit,
            );
            // every stored tree is ordered: the subtrees, the
            // subdirectory's own children, and the rest
            assert forall|t: int| 0 <= t < c.0.len() implies tree_ordered(
                #[trigger] c.0[t],
            ) by {
                if t < sub.0.len() {
                    assert(c.0[t] == sub.0[t]);
                    if t < subc.0.len() {
                        assert(sub.0[t] == subc.0[t]);
                    } else {
                        assert(sub.0[t] == subc.1);
                    }
                } else {
                    assert(c.0[t] == rest.0[t - sub.0.len()]);
                }
            }
            return wit;
        },
    }
}

/// Committed tree leaves are index entries: the construction's leaves over
/// a range are exactly that range's entries — each path below the shared
/// prefix, with its id and mode, in index order.
#[verifier::spinoff_prover]
#[verifier::rlimit(100)]
pub proof fn lemma_build_leaves(s: Seq<EntryView>, lo: int, hi: int, plen: int)
    requires
        0 <= lo <= hi <= s.len(),
        0 <= plen,
        forall|k: int| lo <= k < hi ==> (#[trigger] s[k]).path.len() >= plen,
    ensures
        spec_children(s, lo, hi, plen).2 == entry_leaves(s, lo, hi, plen),
    decreases hi - lo, build_measure(s, lo, hi, plen),
{
    if lo >= hi {
        assert(spec_children(s, lo, hi, plen).2 =~= entry_leaves(s, lo, hi, plen));
    } else {
        let p = s[lo].path;
        match find_byte(p, 47u8, plen) {
            None => {
                lemma_build_leaves(s, lo + 1, hi, plen);
                let name = if plen <= p.len() {
                    p.skip(plen)
                } else {
                    Seq::empty()
                };
                assert(spec_children(s, lo, hi, plen).2 =~= entry_leaves(s, lo, hi, plen)) by {
                    assert forall|k: int| 0 <= k < hi - lo implies spec_children(
                        s,
                        lo,
                        hi,
                        plen,
                    ).2[k] == entry_leaves(s, lo, hi, plen)[k] by {
                        if k > 0 {
                            assert(spec_children(s, lo, hi, plen).2[k] == entry_leaves(
                                s,
                                lo + 1,
                                hi,
                                plen,
                            )[k - 1]);
                        }
                    }
                }
            },
            Some(q) => {
                assert(0 <= plen < p.len()) by {
                    if plen >= p.len() {
                        assert(find_byte(p, 47u8, plen) is None);
                    }
                }
                crate::bytes::lemma_find_byte_found(p, 47u8, plen);
                let pref = p.take(q + 1);
                let stop = run_end(s, lo + 1, hi, pref);
                lemma_run_end_bounds(s, lo + 1, hi, pref);
                lemma_run_end_members(s, lo + 1, hi, pref);
                let comp = p.subrange(plen, q);
                // every entry of the run carries the prefix, so its path
                // below `plen` opens with the component and a separator
                assert forall|t: int| lo <= t < stop implies is_prefix(
                    pref,
                    (#[trigger] s[t]).path,
                ) by {
                    if t == lo {
                        assert(p.take(q + 1) =~= pref);
                    }
                }
                assert forall|t: int| lo <= t < stop implies (#[trigger] s[t]).path.len() >= q
                    + 1 by {}
                lemma_build_leaves(s, lo, stop, q + 1);
                lemma_build_leaves(s, stop, hi, plen);
                let subl = spec_children(s, lo, stop, q + 1).2.map_values(
                    |t: (Seq<u8>, Seq<u8>, Mode)| (comp + seq![47u8] + t.0, t.1, t.2),
                );
                assert(spec_children(s, lo, hi, plen).2 =~= entry_leaves(s, lo, hi, plen)) by {
                    assert forall|k: int| 0 <= k < hi - lo implies spec_children(
                        s,
                        lo,
                        hi,
                        plen,
                    ).2[k] == entry_leaves(s, lo, hi, plen)[k] by {
                        if k < stop - lo {
                            assert(spec_children(s, lo, hi, plen).2[k] == subl[k]);
                            assert(subl[k] == (
                                comp + seq![47u8] + entry_leaves(s, lo, stop, q + 1)[k].0,
                                entry_leaves(s, lo, stop, q + 1)[k].1,
                                entry_leaves(s, lo, stop, q + 1)[k].2,
                            ));
                            let e = s[lo + k];
                            assert(is_prefix(pref, e.path));
                            assert(comp + seq![47u8] + e.path.skip(q + 1) =~= e.path.skip(
                                plen,
                            )) by {
                                assert forall|r: int|
                                    0 <= r < e.path.len() - plen implies (comp + seq![47u8]
                                    + e.path.skip(q + 1))[r] == e.path.skip(plen)[r] by {
                                    if r < q - plen {
                                        assert(e.path.take(q + 1)[plen + r] == pref[plen + r]);
                                        assert(pref[plen + r] == p[plen + r]);
                                    } else if r == q - plen {
                                        assert(e.path.take(q + 1)[q] == pref[q]);
                                        assert(pref[q] == p[q]);
                                        assert(p[q] == 47u8);
                                    }
                                }
                            }
                        } else {
                            assert(spec_children(s, lo, hi, plen).2[k] == entry_leaves(
                                s,
                                stop,
                                hi,
                                plen,
                            )[k - (stop - lo)]);
                        }
                    }
                }
            },
        }
    }
}

#[via_fn]
proof fn spec_children_decreases(s: Seq<EntryView>, i: int, hi: int, plen: int) {
    if i < hi {
        let p = s[i].path;
        match find_byte(p, 47u8, plen) {
            None => {},
            Some(q) => {
                assert(0 <= plen < p.len()) by {
                    if plen < 0 || plen >= p.len() {
                        assert(find_byte(p, 47u8, plen) is None);
                    }
                }
                crate::bytes::lemma_find_byte_found(p, 47u8, plen);
                let pref = p.take(q + 1);
                lemma_run_end_bounds(s, i + 1, hi, pref);
            },
        }
    }
}

/// Finds the end of the run of entries starting at `j` whose paths begin
/// with `pref`.
fn scan_run(entries: &Vec<Entry>, j: usize, hi: usize, pref: &[u8]) -> (r: usize)
    requires
        j <= hi <= entries@.len(),
    ensures
        j <= r <= hi,
        r == run_end(entries_view(entries@), j as int, hi as int, pref@),
    decreases hi - j,
{
    let ghost s = entries_view(entries@);
    if j == hi {
        return j;
    }
    let e = &entries[j];
    proof {
        assert(e@ == s[j as int]);
    }
    if crate::bytes::match_at(e.path().as_slice(), 0, pref) {
        proof {
            assert(e@.path.take(pref@.len() as int) == e@.path.subrange(
                0,
                0 + pref@.len() as int,
            ));
        }
        scan_run(entries, j + 1, hi, pref)
    } else {
        proof {
            if is_prefix(pref@, s[j as int].path) {
                assert(e@.path.subrange(0, 0 + pref@.len() as int) == e@.path.take(
                    pref@.len() as int,
                ));
            }
        }
        j
    }
}

/// Builds and stores the tree for the directory whose entries occupy
/// `[lo, hi)` under a prefix of `plen` bytes, appending the stored
/// subtrees and then the directory's own tree; returns that tree's id.
#[verifier::loop_isolation(false)]
#[verifier::spinoff_prover]
#[verifier::rlimit(100)]
fn build_dir(
    database: &Database,
    entries: &Vec<Entry>,
    lo: usize,
    hi: usize,
    plen: usize,
    out: &mut Vec<StoredTree>,
) -> (r: Id)
    requires
        lo < hi <= entries@.len(),
        stored_ok(old(out)@, database@),
    ensures
        ({
            let b = spec_build(entries_view(entries@), lo as int, hi as int, plen as int);
            &&& final(out)@.len() == old(out)@.len() + b.0.len()
            &&& final(out)@.take(old(out)@.len() as int) == old(out)@
            &&& trees_of(final(out)@.skip(old(out)@.len() as int)) == b.0
            &&& stored_ok(final(out)@, database@)
            &&& r@ == b.1
            &&& r.wf()
        }),
    decreases hi - lo, build_measure(entries_view(entries@), lo as int, hi as int, plen as int),
{
    let ghost s = entries_view(entries@);
    let ghost base = out@;
    let ghost whole = spec_children(s, lo as int, hi as int, plen as int);
    let mut children: Vec<TreeNode> = Vec::new();
    let mut i: usize = lo;
    proof {
        assert(trees_of(out@.skip(base.len() as int)) =~= Seq::<Seq<TreeNodeView>>::empty());
        assert(Seq::<Seq<TreeNodeView>>::empty() + whole.0 =~= whole.0);
        assert(crate::object::tree_nodes_view(children@) =~= Seq::<TreeNodeView>::empty());
        assert(Seq::<TreeNodeView>::empty() + whole.1 =~= whole.1);
        assert(out@.take(base.len() as int) =~= base);
    }
    while i < hi
        invariant
            lo <= i <= hi,
            out@.len() >= base.len(),
            out@.take(base.len() as int) == base,
            stored_ok(out@, database@),
            trees_of(out@.skip(base.len() as int)) + spec_children(
                s,
                i as int,
                hi as int,
                plen as int,
            ).0 == whole.0,
            crate::object::tree_nodes_view(children@) + spec_children(
                s,
                i as int,
                hi as int,
                plen as int,
            ).1 == whole.1,
        decreases hi - i,
    {
        let ghost rest = spec_children(s, i as int, hi as int, plen as int);
        let ghost done_trees = trees_of(out@.skip(base.len() as int));
        let ghost done_children = crate::object::tree_nodes_view(children@);
        let e = &entries[i];
        proof {
            assert(e@ == s[i as int]);
        }
        let plength = e.path().len();
        let slash = if plen >= plength {
            proof {
                assert(find_byte(s[i as int].path, 47u8, plen as int) is None);
            }
            None
        } else {
            scan_byte(e.path().as_slice(), 47, plen)
        };
        match slash {
            None => {
                // a file child: the rest of the path is its name
                let name = if plen >= plength {
                    Vec::new()
                } else {
                    subvec(e.path().as_slice(), plen, plength)
                };
                proof {
                    if plen < plength {
                        assert(name@ =~= s[i as int].path.skip(plen as int));
                    } else {
                        assert(name@ =~= Seq::<u8>::empty());
                        if plen == plength {
                            assert(s[i as int].path.skip(plen as int) =~= Seq::<u8>::empty());
                        }
                    }
                }
                let node = TreeNode::new(name, e.id().clone(), *e.metadata().mode());
                let ghost nodev = node@;
                children.push(node);
                proof {
                    let step = spec_children(s, i + 1, hi as int, plen as int);
                    assert(nodev == (TreeNodeView {
                        name: if plen <= s[i as int].path.len() {
                            s[i as int].path.skip(plen as int)
                        } else {
                            Seq::empty()
                        },
                        id: s[i as int].id,
                        mode: s[i as int].metadata.mode,
                    }));
                    assert(rest.0 == step.0 && rest.1 == seq![nodev] + step.1);
                    assert(crate::object::tree_nodes_view(children@) =~= done_children.push(
                        nodev,
                    ));
                    assert(done_children + (seq![nodev] + step.1) =~= done_children.push(nodev)
                        + step.1);
                }
                i += 1;
            },
            Some(q) => {
                // a run of entries sharing the next component: a subdirectory
                let pref = subvec(e.path().as_slice(), 0, q + 1);
                proof {
                    assert(pref@ =~= s[i as int].path.take(q + 1));
                }
                let stop = scan_run(entries, i + 1, hi, pref.as_slice());
                let ghost sub = spec_build(s, i as int, stop as int, q + 1);
                let ghost pre_call = out@;
                let sub_id = build_dir(database, entries, i, stop, q + 1, out);
                let name = subvec(e.path().as_slice(), plen, q);
                proof {
                    assert(name@ =~= s[i as int].path.subrange(plen as int, q as int));
                }
                let node = TreeNode::new(name, sub_id, Mode::Directory);
                let ghost nodev = node@;
                children.push(node);
                proof {
                    let step = spec_children(s, stop as int, hi as int, plen as int);
                    assert(rest.0 == sub.0 + step.0 && rest.1 == seq![nodev] + step.1);
                    // the recursion appended exactly the subtrees
                    assert(out@.take(base.len() as int) =~= base) by {
                        assert(out@.take(pre_call.len() as int) == pre_call);
                        assert forall|k: int| 0 <= k < base.len() implies out@.take(
                            base.len() as int,
                        )[k] == base[k] by {
                            assert(out@[k] == out@.take(pre_call.len() as int)[k]);
                            assert(pre_call[k] == pre_call.take(base.len() as int)[k]);
                        }
                    }
                    assert(trees_of(out@.skip(base.len() as int)) =~= done_trees + sub.0) by {
                        assert(out@.take(pre_call.len() as int) == pre_call);
                        assert(trees_of(out@.skip(pre_call.len() as int)) == sub.0);
                        assert forall|k: int|
                            0 <= k < out@.len() - base.len() implies trees_of(
                            out@.skip(base.len() as int),
                        )[k] == (done_trees + sub.0)[k] by {
                            if k < done_trees.len() {
                                assert(out@[base.len() + k] == out@.take(
                                    pre_call.len() as int,
                                )[base.len() + k]);
                                assert(pre_call.skip(base.len() as int)[k] == pre_call[base.len()
                                    + k]);
                                assert(done_trees[k] == trees_of(
                                    pre_call.skip(base.len() as int),
                                )[k]);
                            } else {
                                assert(out@.skip(pre_call.len() as int)[k - done_trees.len()]
                                    == out@[base.len() + k]);
                                assert(sub.0[k - done_trees.len()] == trees_of(
                                    out@.skip(pre_call.len() as int),
                                )[k - done_trees.len()]);
                            }
                        }
                    }
                    assert(done_trees + sub.0 + step.0 =~= done_trees + (sub.0 + step.0));
                    assert(crate::object::tree_nodes_view(children@) =~= done_children.push(
                        nodev,
                    ));
                    assert(done_children + (seq![nodev] + step.1) =~= done_children.push(nodev)
                        + step.1);
                }
                i = stop;
            },
        }
    }
    proof {
        assert(spec_children(s, hi as int, hi as int, plen as int).0
            =~= Seq::<Seq<TreeNodeView>>::empty());
        assert(spec_children(s, hi as int, hi as int, plen as int).1
            =~= Seq::<TreeNodeView>::empty());
        assert(trees_of(out@.skip(base.len() as int)) + Seq::<Seq<TreeNodeView>>::empty()
            =~= trees_of(out@.skip(base.len() as int)));
        assert(crate::object::tree_nodes_view(children@) + Seq::<TreeNodeView>::empty()
            =~= crate::object::tree_nodes_view(children@));
    }
    let ghost pre_push = out@;
    let tree = Tree::new(children);
    let object = Object::Tree(tree);
    let op = database.store(&object);
    let id = op.id.clone();
    out.push(StoredTree { object, op });
    proof {
        let b = spec_build(s, lo as int, hi as int, plen as int);
        assert(out@.last().object@ == ObjectView::Tree(whole.1));
        assert(out@.take(base.len() as int) =~= base) by {
            assert forall|k: int| 0 <= k < base.len() implies out@.take(base.len() as int)[k]
                == base[k] by {
                assert(out@[k] == pre_push[k]);
                assert(pre_push[k] == pre_push.take(base.len() as int)[k]);
            }
        }
        assert(trees_of(out@.skip(base.len() as int)) =~= b.0) by {
            assert forall|k: int| 0 <= k < out@.len() - base.len() implies trees_of(
                out@.skip(base.len() as int),
            )[k] == b.0[k] by {
                if k < whole.0.len() {
                    assert(out@[base.len() + k] == pre_push[base.len() + k]);
                    assert(trees_of(pre_push.skip(base.len() as int))[k] == whole.0[k]);
                    assert(pre_push.skip(base.len() as int)[k] == pre_push[base.len() + k]);
                } else {
                    assert(out@[base.len() + k] == out@.last());
                }
            }
        }
        assert(stored_ok(out@, database@)) by {
            assert forall|k: int| 0 <= k < out@.len() implies {
                let st = #[trigger] out@[k];
                &&& st.object@ is Tree
                &&& st.op.id.wf()
                &&& st.op.id@ == sha1_of(st.object@.spec_encode())
                &&& st.op.bytes@ == zlib_of(st.object@.spec_encode())
                &&& inflate_of(st.op.bytes@) == Some(st.object@.spec_encode())
                &&& st.op.path@ == database@ + seq![47u8] + Id::spec_rel_path(st.op.id@)
            } by {
                if k < pre_push.len() {
                    assert(out@[k] == pre_push[k]);
                }
            }
        }
    }
    id
}

/// Consumes a non-empty index and stores one tree per directory,
/// subdirectories before their parents: the result is exactly the
/// specification-level construction over the entries, the returned id is
/// the root tree's — the id of the last stored tree — and the
/// construction's leaves are exactly the index's path, id, and mode
/// triples, in index order.
pub fn build_tree(database: &Database, index: &Index) -> (r: (Vec<StoredTree>, Id))
    requires
        index.wf(),
        index@.len() > 0,
    ensures
        ({
            let b = spec_build(index@, 0, index@.len() as int, 0);
            &&& trees_of(r.0@) == b.0
            &&& r.0@.len() == b.0.len()
            &&& r.0@.len() >= 1
            &&& stored_ok(r.0@, database@)
            &&& r.1@ == b.1
            &&& r.1@ == r.0@.last().op.id@
            &&& r.0@.last().object@ == ObjectView::Tree(
                spec_children(index@, 0, index@.len() as int, 0).1,
            )
            &&& r.1.wf()
            &&& spec_children(index@, 0, index@.len() as int, 0).2 == Seq::new(
                index@.len(),
                |k: int| (index@[k].path, index@[k].id, index@[k].metadata.mode),
            )
            &&& staged_clean(index@) ==> forall|t: int|
                0 <= t < trees_of(r.0@).len() ==> tree_ordered(#[trigger] trees_of(r.0@)[t])
                    && names_wf(trees_of(r.0@)[t])
        }),
{
    let entries = index.files();
    let mut out: Vec<StoredTree> = Vec::new();
    proof {
        assert(stored_ok(out@, database@));
    }
    let id = build_dir(database, entries, 0, entries.len(), 0, &mut out);
    proof {
        let s = entries_view(entries@);
        let b = spec_build(s, 0, s.len() as int, 0);
        assert(out@.skip(0) =~= out@);
        assert(trees_of(out@) == b.0);
        assert(out@.len() == b.0.len());
        assert(b.0.len() >= 1);
        let last = out@.last();
        assert(trees_of(out@)[out@.len() - 1] == b.0[b.0.len() - 1]);
        assert(b.0.last() == spec_children(s, 0, s.len() as int, 0).1);
        assert(last.object@ is Tree);
        assert(last.object@ == ObjectView::Tree(spec_children(s, 0, s.len() as int, 0).1));
        assert(last.op.id@ == sha1_of(last.object@.spec_encode()));
        assert(id@ == b.1);
        lemma_build_leaves(s, 0, s.len() as int, 0);
        assert(entry_leaves(s, 0, s.len() as int, 0) =~= Seq::new(
            s.len(),
            |k: int| (s[k].path, s[k].id, s[k].metadata.mode),
        )) by {
            assert forall|k: int| 0 <= k < s.len() implies entry_leaves(
                s,
                0,
                s.len() as int,
                0,
            )[k] == (s[k].path, s[k].id, s[k].metadata.mode) by {
                assert(s[k].path.skip(0) =~= s[k].path);
            }
        }
        if staged_clean(s) {
            assert forall|a: int, b: int|
                0 <= a < s.len() && 0 <= b < s.len() implies (#[trigger] s[a]).path.take(0) == (
                #[trigger] s[b]).path.take(0) by {
                assert(s[a].path.take(0) =~= Seq::<u8>::empty());
                assert(s[b].path.take(0) =~= Seq::<u8>::empty());
            }
            let _wit = lemma_build_ordered(s, 0, s.len() as int, 0);
            lemma_build_names_wf(s, 0, s.len() as int, 0);
            let c = spec_children(s, 0, s.len() as int, 0);
            assert forall|t: int| 0 <= t < trees_of(out@).len() implies tree_ordered(
                #[trigger] trees_of(out@)[t],
            ) && names_wf(trees_of(out@)[t]) by {
                assert(trees_of(out@)[t] == b.0[t]);
                if t < c.0.len() {
                    assert(b.0[t] == c.0[t]);
                } else {
                    assert(b.0[t] == c.1);
                }
            }
        }
    }
    (out, id)
}

} // verus!
