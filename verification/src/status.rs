//! The status engine: the three-way reconciliation of the HEAD snapshot,
//! the staging index, and the working tree, and the pruning of untracked
//! directories. The walking and the object loads are the caller's part;
//! every decision is fixed here.

use crate::bytes::{lex_lt, path_ancestor};
use crate::index::{has_path, Index};
use crate::meta::{Metadata, Mode};
use crate::object::Id;
use crate::workspace::{Entry as WsEntry, WsEntryView};
use crate::Error;
use vstd::prelude::*;

verus! {

/// One flattened HEAD file: full path, blob id, and mode.
pub struct HeadNodeView {
    pub path: Seq<u8>,
    pub id: Seq<u8>,
    pub mode: Mode,
}

/// One flattened HEAD file, as the walk over the commit's trees yields it.
pub struct HeadNode {
    pub path: Vec<u8>,
    pub id: Id,
    pub mode: Mode,
}

impl View for HeadNode {
    type V = HeadNodeView;

    open spec fn view(&self) -> HeadNodeView {
        HeadNodeView { path: self.path@, id: self.id@, mode: self.mode }
    }
}

/// A change between the index and the HEAD commit.
#[derive(Clone, Copy, Debug, PartialEq, Eq, Structural)]
pub enum IndexHeadChange {
    Added,
    Deleted,
    Modified,
}

/// A change between the working tree and the index.
#[derive(Clone, Copy, Debug, PartialEq, Eq, Structural)]
pub enum WorkspaceIndexChange {
    Deleted,
    Modified,
}

/// The two path-keyed ordered change mappings.
pub struct Changes {
    pub index_head: Vec<(Vec<u8>, IndexHeadChange)>,
    pub workspace_index: Vec<(Vec<u8>, WorkspaceIndexChange)>,
}

/// The views of head nodes.
pub open spec fn head_view(s: Seq<HeadNode>) -> Seq<HeadNodeView> {
    Seq::new(s.len(), |i: int| s[i]@)
}

/// The views of walked entries.
pub open spec fn ws_view(s: Seq<WsEntry>) -> Seq<WsEntryView> {
    Seq::new(s.len(), |i: int| s[i]@)
}

/// The views of fresh content hashes.
pub open spec fn fresh_view(s: Seq<(Vec<u8>, Id)>) -> Seq<(Seq<u8>, Seq<u8>)> {
    Seq::new(s.len(), |i: int| (s[i].0@, s[i].1@))
}

/// The views of one change list.
pub open spec fn ih_view(s: Seq<(Vec<u8>, IndexHeadChange)>) -> Seq<(Seq<u8>, IndexHeadChange)> {
    Seq::new(s.len(), |i: int| (s[i].0@, s[i].1))
}

/// The views of the other change list.
pub open spec fn wi_view(s: Seq<(Vec<u8>, WorkspaceIndexChange)>) -> Seq<
    (Seq<u8>, WorkspaceIndexChange),
> {
    Seq::new(s.len(), |i: int| (s[i].0@, s[i].1))
}

/// The first work_files metadata recorded for `p`.
pub open spec fn tracked_lookup(s: Seq<WsEntryView>, p: Seq<u8>) -> Option<Metadata>
    decreases s.len(),
{
    if s.len() == 0 {
        None
    } else if s[0].path == p {
        Some(s[0].metadata)
    } else {
        tracked_lookup(s.skip(1), p)
    }
}

/// The first fresh content hash recorded for `p`.
pub open spec fn fresh_lookup(s: Seq<(Seq<u8>, Seq<u8>)>, p: Seq<u8>) -> Option<Seq<u8>>
    decreases s.len(),
{
    if s.len() == 0 {
        None
    } else if s[0].0 == p {
        Some(s[0].1)
    } else {
        fresh_lookup(s.skip(1), p)
    }
}

/// What an index entry's working-tree comparison yields: gone from the
/// tree, changed size or mode, or — when the metadata short-cut is
/// inconclusive — decided by the recorded content hash. The outer `None`
/// means a needed content hash was not supplied.
pub open spec fn work_change(
    e: crate::index::EntryView,
    work_files: Seq<WsEntryView>,
    fresh: Seq<(Seq<u8>, Seq<u8>)>,
) -> Option<Option<WorkspaceIndexChange>> {
    match tracked_lookup(work_files, e.path) {
        None => Some(Some(WorkspaceIndexChange::Deleted)),
        Some(md) => if md.mode != e.metadata.mode || md.size != e.metadata.size {
            Some(Some(WorkspaceIndexChange::Modified))
        } else {
            match fresh_lookup(fresh, e.path) {
                None => None,
                Some(fid) => if fid == e.id {
                    Some(None)
                } else {
                    Some(Some(WorkspaceIndexChange::Modified))
                },
            }
        },
    }
}

/// The full reconciliation, walking the path-ordered index and HEAD side
/// by side: an index path missing from HEAD is `Added`, one whose id or
/// mode differs is `Modified`, a HEAD path missing from the index is
/// `Deleted`; each index entry is also compared against the working tree.
/// `None` means a needed content hash was not supplied.
pub open spec fn spec_reconcile(
    ix: Seq<crate::index::EntryView>,
    hd: Seq<HeadNodeView>,
    work_files: Seq<WsEntryView>,
    fresh: Seq<(Seq<u8>, Seq<u8>)>,
) -> Option<(Seq<(Seq<u8>, IndexHeadChange)>, Seq<(Seq<u8>, WorkspaceIndexChange)>)>
    decreases ix.len() + hd.len(),
{
    if ix.len() == 0 && hd.len() == 0 {
        Some((Seq::empty(), Seq::empty()))
    } else if ix.len() == 0 || (hd.len() > 0 && lex_lt(hd[0].path, ix[0].path)) {
        match spec_reconcile(ix, hd.skip(1), work_files, fresh) {
            None => None,
            Some(r) => Some(
                (seq![(hd[0].path, IndexHeadChange::Deleted)] + r.0, r.1),
            ),
        }
    } else if hd.len() == 0 || lex_lt(ix[0].path, hd[0].path) {
        let e = ix[0];
        match work_change(e, work_files, fresh) {
            None => None,
            Some(w) => match spec_reconcile(ix.skip(1), hd, work_files, fresh) {
                None => None,
                Some(r) => Some(
                    (
                        seq![(e.path, IndexHeadChange::Added)] + r.0,
                        match w {
                            Some(c) => seq![(e.path, c)] + r.1,
                            None => r.1,
                        },
                    ),
                ),
            },
        }
    } else {
        let e = ix[0];
        let h = hd[0];
        match work_change(e, work_files, fresh) {
            None => None,
            Some(w) => match spec_reconcile(ix.skip(1), hd.skip(1), work_files, fresh) {
                None => None,
                Some(r) => Some(
                    (
                        if h.id != e.id || h.mode != e.metadata.mode {
                            seq![(e.path, IndexHeadChange::Modified)] + r.0
                        } else {
                            r.0
                        },
                        match w {
                            Some(c) => seq![(e.path, c)] + r.1,
                            None => r.1,
                        },
                    ),
                ),
            },
        }
    }
}

/// Looks up the first work_files metadata for `p`.
fn tracked_get(work_files: &Vec<WsEntry>, p: &[u8]) -> (r: Option<Metadata>)
    ensures
        r == tracked_lookup(ws_view(work_files@), p@),
    decreases work_files@.len(),
{
    let r = tracked_get_from(work_files, p, 0);
    proof {
        assert(ws_view(work_files@).skip(0) =~= ws_view(work_files@));
    }
    r
}

fn tracked_get_from(work_files: &Vec<WsEntry>, p: &[u8], at: usize) -> (r: Option<Metadata>)
    requires
        at <= work_files@.len(),
    ensures
        r == tracked_lookup(ws_view(work_files@).skip(at as int), p@),
    decreases work_files@.len() - at,
{
    let ghost s = ws_view(work_files@).skip(at as int);
    if at == work_files.len() {
        proof {
            assert(s.len() == 0);
        }
        return None;
    }
    proof {
        assert(s[0] == ws_view(work_files@)[at as int]);
        assert(s.skip(1) =~= ws_view(work_files@).skip(at + 1));
    }
    if crate::bytes::bytes_eq(work_files[at].path.as_slice(), p) {
        Some(work_files[at].metadata)
    } else {
        tracked_get_from(work_files, p, at + 1)
    }
}

/// Looks up the first fresh content hash for `p`.
fn fresh_get(fresh: &Vec<(Vec<u8>, Id)>, p: &[u8]) -> (r: Option<Id>)
    ensures
        match r {
            Some(id) => fresh_lookup(fresh_view(fresh@), p@) == Some(id@),
            None => fresh_lookup(fresh_view(fresh@), p@) is None,
        },
{
    let r = fresh_get_from(fresh, p, 0);
    proof {
        assert(fresh_view(fresh@).skip(0) =~= fresh_view(fresh@));
    }
    r
}

fn fresh_get_from(fresh: &Vec<(Vec<u8>, Id)>, p: &[u8], at: usize) -> (r: Option<Id>)
    requires
        at <= fresh@.len(),
    ensures
        match r {
            Some(id) => fresh_lookup(fresh_view(fresh@).skip(at as int), p@) == Some(id@),
            None => fresh_lookup(fresh_view(fresh@).skip(at as int), p@) is None,
        },
    decreases fresh@.len() - at,
{
    let ghost s = fresh_view(fresh@).skip(at as int);
    if at == fresh.len() {
        proof {
            assert(s.len() == 0);
        }
        return None;
    }
    proof {
        assert(s[0] == fresh_view(fresh@)[at as int]);
        assert(s.skip(1) =~= fresh_view(fresh@).skip(at + 1));
    }
    if crate::bytes::bytes_eq(fresh[at].0.as_slice(), p) {
        Some(fresh[at].1.clone())
    } else {
        fresh_get_from(fresh, p, at + 1)
    }
}

/// Decides one index entry's working-tree change, mirroring `work_change`.
fn work_change_of(
    e: &crate::index::Entry,
    work_files: &Vec<WsEntry>,
    fresh: &Vec<(Vec<u8>, Id)>,
) -> (r: Result<Option<WorkspaceIndexChange>, Error>)
    ensures
        match work_change(e@, ws_view(work_files@), fresh_view(fresh@)) {
            None => r == Err::<Option<WorkspaceIndexChange>, Error>(Error::Invariant),
            Some(w) => r matches Ok(c) && c == w,
        },
{
    let md = match tracked_get(work_files, e.path().as_slice()) {
        None => {
            return Ok(Some(WorkspaceIndexChange::Deleted));
        },
        Some(md) => md,
    };
    let e_md = *e.metadata();
    if md.mode != e_md.mode || md.size != e_md.size {
        return Ok(Some(WorkspaceIndexChange::Modified));
    }
    match fresh_get(fresh, e.path().as_slice()) {
        None => Err(Error::Invariant),
        Some(fid) => {
            if crate::bytes::bytes_eq(fid.as_bytes().as_slice(), e.id().as_bytes().as_slice()) {
                Ok(None)
            } else {
                Ok(Some(WorkspaceIndexChange::Modified))
            }
        },
    }
}

/// The three-way reconciliation: the index entries against the flattened
/// HEAD and the working tree. `head` is expected in the same path order as
/// the index; a needed content hash missing from `fresh` is an
/// internal-consistency failure.
#[verifier::loop_isolation(false)]
#[verifier::spinoff_prover]
#[verifier::rlimit(100)]
pub fn detect_changes(
    index: &Index,
    head: &Vec<HeadNode>,
    work_files: &Vec<WsEntry>,
    fresh: &Vec<(Vec<u8>, Id)>,
) -> (r: Result<Changes, Error>)
    ensures
        match spec_reconcile(index@, head_view(head@), ws_view(work_files@), fresh_view(fresh@)) {
            Some(q) => r matches Ok(c) && ih_view(c.index_head@) == q.0 && wi_view(
                c.workspace_index@,
            ) == q.1,
            None => r == Err::<Changes, Error>(Error::Invariant),
        },
{
    let ghost ix = index@;
    let ghost hd = head_view(head@);
    let ghost tr = ws_view(work_files@);
    let ghost fr = fresh_view(fresh@);
    let entries = index.files();
    let n = entries.len();
    let m = head.len();
    let mut out_ih: Vec<(Vec<u8>, IndexHeadChange)> = Vec::new();
    let mut out_wi: Vec<(Vec<u8>, WorkspaceIndexChange)> = Vec::new();
    let mut i: usize = 0;
    let mut j: usize = 0;
    proof {
        assert(ix.skip(0) =~= ix);
        assert(hd.skip(0) =~= hd);
        assert(ih_view(out_ih@) =~= Seq::<(Seq<u8>, IndexHeadChange)>::empty());
        assert(wi_view(out_wi@) =~= Seq::<(Seq<u8>, WorkspaceIndexChange)>::empty());
        match spec_reconcile(ix, hd, tr, fr) {
            Some(q) => {
                assert(ih_view(out_ih@) + q.0 =~= q.0);
                assert(wi_view(out_wi@) + q.1 =~= q.1);
            },
            None => {},
        }
    }
    while i < n || j < m
        invariant
            i <= n,
            j <= m,
            n == ix.len(),
            m == hd.len(),
            ix == crate::index::entries_view(entries@),
            ({
                match spec_reconcile(ix.skip(i as int), hd.skip(j as int), tr, fr) {
                    Some(rest) => spec_reconcile(ix, hd, tr, fr) == Some(
                        ((ih_view(out_ih@) + rest.0), (wi_view(out_wi@) + rest.1)),
                    ),
                    None => spec_reconcile(ix, hd, tr, fr) is None,
                }
            }),
        decreases n - i + m - j,
    {
        let ghost six = ix.skip(i as int);
        let ghost shd = hd.skip(j as int);
        proof {
            if i < n {
                assert(six[0] == ix[i as int]);
                assert(six.skip(1) =~= ix.skip(i + 1));
            }
            if j < m {
                assert(shd[0] == hd[j as int]);
                assert(shd.skip(1) =~= hd.skip(j + 1));
            }
        }
        let head_first = if i == n {
            true
        } else if j == m {
            false
        } else {
            crate::bytes::bytes_lt(head[j].path.as_slice(), entries[i].path().as_slice())
        };
        if head_first {
            // a HEAD path missing from the index: deleted
            let ghost pre = ih_view(out_ih@);
            let p = crate::bytes::subvec(head[j].path.as_slice(), 0, head[j].path.len());
            proof {
                assert(p@ =~= hd[j as int].path);
            }
            out_ih.push((p, IndexHeadChange::Deleted));
            proof {
                assert(ih_view(out_ih@) =~= pre.push((shd[0].path, IndexHeadChange::Deleted)));
                match spec_reconcile(six, shd.skip(1), tr, fr) {
                    Some(rest2) => {
                        assert(spec_reconcile(six, shd, tr, fr) == Some(
                            ((seq![(shd[0].path, IndexHeadChange::Deleted)] + rest2.0), rest2.1),
                        ));
                        assert(pre + (seq![(shd[0].path, IndexHeadChange::Deleted)] + rest2.0)
                            =~= pre.push((shd[0].path, IndexHeadChange::Deleted)) + rest2.0);
                    },
                    None => {
                        assert(spec_reconcile(six, shd, tr, fr) is None);
                    },
                }
            }
            j += 1;
        } else {
            let entry = &entries[i];
            let ghost e = six[0];
            let w = match work_change_of(entry, work_files, fresh) {
                Ok(w) => w,
                Err(err) => {
                    proof {
                        assert(spec_reconcile(six, shd, tr, fr) is None);
                    }
                    return Err(Error::Invariant);
                },
            };
            let index_first = if j == m {
                true
            } else {
                crate::bytes::bytes_lt(entry.path().as_slice(), head[j].path.as_slice())
            };
            let ghost pre_ih = ih_view(out_ih@);
            let ghost pre_wi = wi_view(out_wi@);
            if index_first {
                // an index path missing from HEAD: added
                let p = crate::bytes::subvec(entry.path().as_slice(), 0, entry.path().len());
                proof {
                    assert(p@ =~= e.path);
                }
                out_ih.push((p, IndexHeadChange::Added));
                proof {
                    assert(ih_view(out_ih@) =~= pre_ih.push((e.path, IndexHeadChange::Added)));
                }
            } else {
                // the same path on both sides: compare id and mode
                let hn = &head[j];
                let same_id = crate::bytes::bytes_eq(
                    hn.id.as_bytes().as_slice(),
                    entry.id().as_bytes().as_slice(),
                );
                let same_mode = hn.mode == entry.metadata().mode;
                if !same_id || !same_mode {
                    let p = crate::bytes::subvec(entry.path().as_slice(), 0, entry.path().len());
                    proof {
                        assert(p@ =~= e.path);
                    }
                    out_ih.push((p, IndexHeadChange::Modified));
                    proof {
                        assert(ih_view(out_ih@) =~= pre_ih.push(
                            (e.path, IndexHeadChange::Modified),
                        ));
                    }
                }
                j += 1;
            }
            match w {
                Some(c) => {
                    let p = crate::bytes::subvec(entry.path().as_slice(), 0, entry.path().len());
                    proof {
                        assert(p@ =~= e.path);
                    }
                    out_wi.push((p, c));
                    proof {
                        assert(wi_view(out_wi@) =~= pre_wi.push((e.path, c)));
                    }
                },
                None => {},
            }
            proof {
                let ghost shd2 = if index_first {
                    shd
                } else {
                    shd.skip(1)
                };
                match spec_reconcile(six.skip(1), shd2, tr, fr) {
                    Some(rest2) => {
                        let ihadd: Seq<(Seq<u8>, IndexHeadChange)> = if index_first {
                            seq![(e.path, IndexHeadChange::Added)]
                        } else if shd[0].id != e.id || shd[0].mode != e.metadata.mode {
                            seq![(e.path, IndexHeadChange::Modified)]
                        } else {
                            Seq::empty()
                        };
                        let wiadd: Seq<(Seq<u8>, WorkspaceIndexChange)> = match w {
                            Some(c) => seq![(e.path, c)],
                            None => Seq::empty(),
                        };
                        assert(spec_reconcile(six, shd, tr, fr) == Some(
                            ((ihadd + rest2.0), (wiadd + rest2.1)),
                        ));
                        assert(pre_ih + (ihadd + rest2.0) =~= ih_view(out_ih@) + rest2.0);
                        assert(pre_wi + (wiadd + rest2.1) =~= wi_view(out_wi@) + rest2.1);
                    },
                    None => {
                        assert(spec_reconcile(six, shd, tr, fr) is None);
                    },
                }
            }
            i += 1;
        }
    }
    proof {
        assert(ix.skip(n as int).len() == 0 && hd.skip(m as int).len() == 0);
        assert(spec_reconcile(ix.skip(n as int), hd.skip(m as int), tr, fr) == Some((
            Seq::<(Seq<u8>, IndexHeadChange)>::empty(),
            Seq::<(Seq<u8>, WorkspaceIndexChange)>::empty(),
        )));
        assert(ih_view(out_ih@) + Seq::<(Seq<u8>, IndexHeadChange)>::empty() =~= ih_view(
            out_ih@,
        ));
        assert(wi_view(out_wi@) + Seq::<(Seq<u8>, WorkspaceIndexChange)>::empty() =~= wi_view(
            out_wi@,
        ));
    }
    Ok(Changes { index_head: out_ih, workspace_index: out_wi })
}

// ---------------------------------------------------------------------------
// Flattening HEAD trees
// ---------------------------------------------------------------------------

/// A full path under a directory prefix: the root prefix adds nothing,
/// any other is followed by a separator.
pub open spec fn join_path(prefix: Seq<u8>, name: Seq<u8>) -> Seq<u8> {
    if prefix.len() == 0 {
        name
    } else {
        prefix + seq![47u8] + name
    }
}

/// What one tree contributes to the HEAD walk: each node as its full path
/// with id and mode, in tree order. A directory-mode row names a subtree
/// still to be loaded; a file-mode row is a leaf of the HEAD state.
pub open spec fn spec_flatten_step(
    prefix: Seq<u8>,
    nodes: Seq<crate::object::TreeNodeView>,
) -> Seq<HeadNodeView> {
    Seq::new(
        nodes.len(),
        |k: int|
            HeadNodeView {
                path: join_path(prefix, nodes[k].name),
                id: nodes[k].id,
                mode: nodes[k].mode,
            },
    )
}

/// Joins a directory prefix and a name component.
fn join_exec(prefix: &[u8], name: &[u8]) -> (r: Vec<u8>)
    ensures
        r@ == join_path(prefix@, name@),
{
    if prefix.len() == 0 {
        let r = crate::bytes::subvec(name, 0, name.len());
        proof {
            assert(r@ =~= name@);
        }
        r
    } else {
        let mut r = crate::bytes::subvec(prefix, 0, prefix.len());
        proof {
            assert(r@ =~= prefix@);
        }
        r.push(47);
        crate::bytes::push_all(&mut r, name);
        proof {
            assert(r@ =~= prefix@ + seq![47u8] + name@);
        }
        r
    }
}

/// One step of the HEAD walk: renders a loaded tree's nodes as full paths
/// in tree order. The caller only loads each directory-mode row's subtree
/// and calls again in its place, which keeps the flattened state in path
/// order.
#[verifier::loop_isolation(false)]
pub fn flatten_step(prefix: &[u8], tree: &crate::object::Tree) -> (r: Vec<HeadNode>)
    ensures
        head_view(r@) == spec_flatten_step(prefix@, tree@),
{
    let nodes = tree.nodes();
    let n = nodes.len();
    let mut out: Vec<HeadNode> = Vec::new();
    let mut i: usize = 0;
    proof {
        assert(head_view(out@) =~= spec_flatten_step(prefix@, tree@).take(0));
    }
    while i < n
        invariant
            i <= n,
            n == tree@.len(),
            crate::object::tree_nodes_view(nodes@) == tree@,
            head_view(out@) == spec_flatten_step(prefix@, tree@).take(i as int),
        decreases n - i,
    {
        let node = &nodes[i];
        proof {
            assert(node@ == tree@[i as int]);
        }
        let full = join_exec(prefix, node.path().as_slice());
        let hn = HeadNode { path: full, id: node.id().clone(), mode: *node.mode() };
        let ghost pre = head_view(out@);
        out.push(hn);
        proof {
            assert(head_view(out@) =~= pre.push(spec_flatten_step(prefix@, tree@)[i as int]));
            assert(spec_flatten_step(prefix@, tree@).take(i as int).push(
                spec_flatten_step(prefix@, tree@)[i as int],
            ) =~= spec_flatten_step(prefix@, tree@).take(i + 1));
        }
        i += 1;
    }
    proof {
        assert(spec_flatten_step(prefix@, tree@).take(n as int) =~= spec_flatten_step(
            prefix@,
            tree@,
        ));
    }
    out
}

// ---------------------------------------------------------------------------
// Merging the two change maps
// ---------------------------------------------------------------------------

/// The merged rendering order of the two path-keyed change maps: the
/// smaller path first, equal paths fused into one row with both columns.
pub open spec fn spec_merge_changes(
    ih: Seq<(Seq<u8>, IndexHeadChange)>,
    wi: Seq<(Seq<u8>, WorkspaceIndexChange)>,
) -> Seq<(Seq<u8>, Option<IndexHeadChange>, Option<WorkspaceIndexChange>)>
    decreases ih.len() + wi.len(),
{
    if ih.len() == 0 && wi.len() == 0 {
        Seq::empty()
    } else if wi.len() == 0 || (ih.len() > 0 && lex_lt(ih[0].0, wi[0].0)) {
        seq![(ih[0].0, Some(ih[0].1), Option::<WorkspaceIndexChange>::None)]
            + spec_merge_changes(ih.skip(1), wi)
    } else if ih.len() == 0 || lex_lt(wi[0].0, ih[0].0) {
        seq![(wi[0].0, Option::<IndexHeadChange>::None, Some(wi[0].1))] + spec_merge_changes(
            ih,
            wi.skip(1),
        )
    } else {
        seq![(ih[0].0, Some(ih[0].1), Some(wi[0].1))] + spec_merge_changes(
            ih.skip(1),
            wi.skip(1),
        )
    }
}

/// The views of merged rows.
pub open spec fn merged_view(s: Seq<(Vec<u8>, Option<IndexHeadChange>, Option<WorkspaceIndexChange>)>)
    -> Seq<(Seq<u8>, Option<IndexHeadChange>, Option<WorkspaceIndexChange>)> {
    Seq::new(s.len(), |i: int| (s[i].0@, s[i].1, s[i].2))
}

/// Merges the two path-ordered change maps by key for rendering: one row
/// per path, with the staged and working-tree columns side by side.
#[verifier::loop_isolation(false)]
pub fn merge_changes(
    ih: &Vec<(Vec<u8>, IndexHeadChange)>,
    wi: &Vec<(Vec<u8>, WorkspaceIndexChange)>,
) -> (r: Vec<(Vec<u8>, Option<IndexHeadChange>, Option<WorkspaceIndexChange>)>)
    ensures
        merged_view(r@) == spec_merge_changes(ih_view(ih@), wi_view(wi@)),
{
    let ghost ihv = ih_view(ih@);
    let ghost wiv = wi_view(wi@);
    let ghost whole = spec_merge_changes(ihv, wiv);
    let n = ih.len();
    let m = wi.len();
    let mut out: Vec<(Vec<u8>, Option<IndexHeadChange>, Option<WorkspaceIndexChange>)> =
        Vec::new();
    let mut i: usize = 0;
    let mut j: usize = 0;
    proof {
        assert(ihv.skip(0) =~= ihv);
        assert(wiv.skip(0) =~= wiv);
        assert(merged_view(out@) =~= Seq::<
            (Seq<u8>, Option<IndexHeadChange>, Option<WorkspaceIndexChange>),
        >::empty());
        assert(merged_view(out@) + whole =~= whole);
    }
    while i < n || j < m
        invariant
            i <= n,
            j <= m,
            n == ihv.len(),
            m == wiv.len(),
            merged_view(out@) + spec_merge_changes(ihv.skip(i as int), wiv.skip(j as int))
                == whole,
        decreases n - i + m - j,
    {
        let ghost sih = ihv.skip(i as int);
        let ghost swi = wiv.skip(j as int);
        proof {
            if i < n {
                assert(sih[0] == ihv[i as int]);
                assert(sih.skip(1) =~= ihv.skip(i + 1));
            }
            if j < m {
                assert(swi[0] == wiv[j as int]);
                assert(swi.skip(1) =~= wiv.skip(j + 1));
            }
        }
        let ghost pre = merged_view(out@);
        let take_ih = if j == m {
            true
        } else if i == n {
            false
        } else {
            crate::bytes::bytes_lt(ih[i].0.as_slice(), wi[j].0.as_slice())
        };
        let both = if take_ih || i == n {
            false
        } else if j == m {
            false
        } else {
            !crate::bytes::bytes_lt(wi[j].0.as_slice(), ih[i].0.as_slice())
        };
        if take_ih {
            // only the staged side has this path
            let p = crate::bytes::subvec(ih[i].0.as_slice(), 0, ih[i].0.len());
            proof {
                assert(p@ =~= sih[0].0);
            }
            out.push((p, Some(ih[i].1), None));
            proof {
                let row = (sih[0].0, Some(sih[0].1), Option::<WorkspaceIndexChange>::None);
                assert(merged_view(out@) =~= pre.push(row));
                assert(pre + (seq![row] + spec_merge_changes(sih.skip(1), swi)) =~= merged_view(
                    out@,
                ) + spec_merge_changes(sih.skip(1), swi));
            }
            i += 1;
        } else if both {
            // the same path on both sides: one fused row
            let p = crate::bytes::subvec(ih[i].0.as_slice(), 0, ih[i].0.len());
            proof {
                assert(p@ =~= sih[0].0);
            }
            out.push((p, Some(ih[i].1), Some(wi[j].1)));
            proof {
                let row = (sih[0].0, Some(sih[0].1), Some(swi[0].1));
                assert(merged_view(out@) =~= pre.push(row));
                assert(pre + (seq![row] + spec_merge_changes(sih.skip(1), swi.skip(1)))
                    =~= merged_view(out@) + spec_merge_changes(sih.skip(1), swi.skip(1)));
            }
            i += 1;
            j += 1;
        } else {
            // only the working-tree side has this path
            let p = crate::bytes::subvec(wi[j].0.as_slice(), 0, wi[j].0.len());
            proof {
                assert(p@ =~= swi[0].0);
            }
            out.push((p, None, Some(wi[j].1)));
            proof {
                let row = (swi[0].0, Option::<IndexHeadChange>::None, Some(swi[0].1));
                assert(merged_view(out@) =~= pre.push(row));
                assert(pre + (seq![row] + spec_merge_changes(sih, swi.skip(1))) =~= merged_view(
                    out@,
                ) + spec_merge_changes(sih, swi.skip(1)));
            }
            j += 1;
        }
    }
    proof {
        assert(spec_merge_changes(ihv.skip(n as int), wiv.skip(m as int)) =~= Seq::<
            (Seq<u8>, Option<IndexHeadChange>, Option<WorkspaceIndexChange>),
        >::empty());
        assert(merged_view(out@) + Seq::<
            (Seq<u8>, Option<IndexHeadChange>, Option<WorkspaceIndexChange>),
        >::empty() =~= merged_view(out@));
    }
    out
}

// ---------------------------------------------------------------------------
// Untracked paths
// ---------------------------------------------------------------------------

/// Whether `p` is tracked: the index holds an entry at `p`, or entries
/// below `p`.
pub open spec fn ws_tracked(ix: Seq<crate::index::EntryView>, p: Seq<u8>) -> bool {
    has_path(ix, p) || exists|i: int|
        0 <= i < ix.len() && path_ancestor(p, (#[trigger] ix[i]).path)
}

/// Every proper ancestor directory of `p` is tracked, so the walk reaches
/// `p` itself.
pub open spec fn ancestors_tracked(ix: Seq<crate::index::EntryView>, p: Seq<u8>) -> bool {
    forall|i: int| 0 <= i < p.len() && #[trigger] p[i] == 47u8 ==> ws_tracked(ix, p.take(i))
}

/// A file is trackable when it is untracked; a directory is trackable when
/// some file below it is untracked, which prunes chains of empty
/// directories.
pub open spec fn ws_trackable(
    full: Seq<WsEntryView>,
    ix: Seq<crate::index::EntryView>,
    e: WsEntryView,
) -> bool {
    if e.metadata.mode is Directory {
        exists|j: int|
            0 <= j < full.len() && !((#[trigger] full[j]).metadata.mode is Directory)
                && path_ancestor(e.path, full[j].path) && !ws_tracked(ix, full[j].path)
    } else {
        !ws_tracked(ix, e.path)
    }
}

/// A walked entry lands in the untracked set when it is itself untracked,
/// reachable through tracked directories, and trackable.
pub open spec fn ws_reported(
    full: Seq<WsEntryView>,
    ix: Seq<crate::index::EntryView>,
    e: WsEntryView,
) -> bool {
    !ws_tracked(ix, e.path) && ancestors_tracked(ix, e.path) && ws_trackable(full, ix, e)
}

/// How an untracked path is rendered: directories carry a trailing
/// separator.
pub open spec fn display_path(e: WsEntryView) -> Seq<u8> {
    if e.metadata.mode is Directory {
        e.path + seq![47u8]
    } else {
        e.path
    }
}

/// The views of a path list.
pub open spec fn paths_view(s: Seq<Vec<u8>>) -> Seq<Seq<u8>> {
    Seq::new(s.len(), |i: int| s[i]@)
}

/// The untracked paths among the walked entries, in walk order.
pub open spec fn spec_untracked(
    full: Seq<WsEntryView>,
    snap: Seq<WsEntryView>,
    ix: Seq<crate::index::EntryView>,
) -> Seq<Seq<u8>>
    decreases snap.len(),
{
    if snap.len() == 0 {
        Seq::empty()
    } else {
        (if ws_reported(full, ix, snap[0]) {
            seq![display_path(snap[0])]
        } else {
            Seq::empty()
        }) + spec_untracked(full, snap.skip(1), ix)
    }
}

/// Decides `ws_tracked` for one path.
fn is_ws_tracked(index: &Index, p: &[u8]) -> (r: bool)
    ensures
        r == ws_tracked(index@, p@),
{
    index.contains(p)
}

/// Decides `ancestors_tracked` for one path.
#[verifier::loop_isolation(false)]
fn are_ancestors_tracked(index: &Index, p: &[u8]) -> (r: bool)
    ensures
        r == ancestors_tracked(index@, p@),
{
    let n = p.len();
    let mut i: usize = 0;
    while i < n
        invariant
            i <= n,
            n == p@.len(),
            forall|j: int|
                0 <= j < i && #[trigger] p@[j] == 47u8 ==> ws_tracked(index@, p@.take(j)),
        decreases n - i,
    {
        if p[i] == 47 {
            let prefix = crate::bytes::subvec(p, 0, i);
            proof {
                assert(prefix@ =~= p@.take(i as int));
            }
            if !index.contains(prefix.as_slice()) {
                proof {
                    assert(!ws_tracked(index@, p@.take(i as int)));
                }
                return false;
            }
        }
        i += 1;
    }
    true
}

/// Decides `ws_trackable` for one walked entry.
#[verifier::loop_isolation(false)]
fn is_ws_trackable(snapshot: &Vec<WsEntry>, index: &Index, e: &WsEntry) -> (r: bool)
    ensures
        r == ws_trackable(ws_view(snapshot@), index@, e@),
{
    if !e.metadata.mode.is_directory() {
        let t = is_ws_tracked(index, e.path.as_slice());
        return !t;
    }
    let ghost full = ws_view(snapshot@);
    let n = snapshot.len();
    let mut j: usize = 0;
    while j < n
        invariant
            j <= n,
            n == full.len(),
            forall|k: int|
                0 <= k < j ==> !(!((#[trigger] full[k]).metadata.mode is Directory)
                    && path_ancestor(e@.path, full[k].path) && !ws_tracked(
                    index@,
                    full[k].path,
                )),
        decreases n - j,
    {
        let c = &snapshot[j];
        proof {
            assert(c@ == full[j as int]);
        }
        if !c.metadata.mode.is_directory() && crate::bytes::is_path_ancestor(
            e.path.as_slice(),
            c.path.as_slice(),
        ) && !is_ws_tracked(index, c.path.as_slice()) {
            return true;
        }
        j += 1;
    }
    false
}

/// The untracked paths of a walked snapshot: each entry that is untracked,
/// reachable, and trackable, rendered with a trailing separator for
/// directories, in the snapshot's order.
#[verifier::loop_isolation(false)]
pub fn compute_untracked(snapshot: &Vec<WsEntry>, index: &Index) -> (r: Vec<Vec<u8>>)
    ensures
        paths_view(r@) == spec_untracked(ws_view(snapshot@), ws_view(snapshot@), index@),
{
    let ghost full = ws_view(snapshot@);
    let n = snapshot.len();
    let mut out: Vec<Vec<u8>> = Vec::new();
    let mut i: usize = 0;
    proof {
        assert(full.skip(0) =~= full);
        assert(paths_view(out@) =~= Seq::<Seq<u8>>::empty());
        assert(Seq::<Seq<u8>>::empty() + spec_untracked(full, full, index@) =~= spec_untracked(
            full,
            full,
            index@,
        ));
    }
    while i < n
        invariant
            i <= n,
            n == full.len(),
            paths_view(out@) + spec_untracked(full, full.skip(i as int), index@)
                == spec_untracked(full, full, index@),
        decreases n - i,
    {
        let ghost si = full.skip(i as int);
        let e = &snapshot[i];
        proof {
            assert(si[0] == full[i as int]);
            assert(si.skip(1) =~= full.skip(i + 1));
            assert(e@ == full[i as int]);
        }
        let tracked_here = is_ws_tracked(index, e.path.as_slice());
        let ghost pre = paths_view(out@);
        if !tracked_here && are_ancestors_tracked(index, e.path.as_slice()) && is_ws_trackable(
            snapshot,
            index,
            e,
        ) {
            let mut p = crate::bytes::subvec(e.path.as_slice(), 0, e.path.len());
            proof {
                assert(p@ =~= e@.path);
            }
            if e.metadata.mode.is_directory() {
                p.push(47);
            }
            proof {
                assert(p@ =~= display_path(si[0]));
            }
            out.push(p);
            proof {
                assert(paths_view(out@) =~= pre.push(display_path(si[0])));
                assert(pre + (seq![display_path(si[0])] + spec_untracked(
                    full,
                    si.skip(1),
                    index@,
                )) =~= pre.push(display_path(si[0])) + spec_untracked(full, si.skip(1), index@));
            }
        } else {
            proof {
                assert(!ws_reported(full, index@, si[0]));
                assert(Seq::<Seq<u8>>::empty() + spec_untracked(full, si.skip(1), index@)
                    =~= spec_untracked(full, si.skip(1), index@));
            }
        }
        i += 1;
    }
    proof {
        assert(full.skip(n as int).len() == 0);
        assert(paths_view(out@) + Seq::<Seq<u8>>::empty() =~= paths_view(out@));
    }
    out
}

/// Inserts a walked entry into a path-sorted snapshot: before the first
/// entry whose path is byte-wise greater.
pub open spec fn spec_sorted_insert(s: Seq<WsEntryView>, e: WsEntryView) -> Seq<WsEntryView>
    decreases s.len(),
{
    if s.len() == 0 {
        seq![e]
    } else if lex_lt(e.path, s[0].path) {
        seq![e] + s
    } else {
        seq![s[0]] + spec_sorted_insert(s.skip(1), e)
    }
}

proof fn lemma_sorted_insert_at(s: Seq<WsEntryView>, e: WsEntryView, i: int)
    requires
        0 <= i <= s.len(),
        forall|j: int| 0 <= j < i ==> !lex_lt(e.path, (#[trigger] s[j]).path),
        i < s.len() ==> lex_lt(e.path, s[i].path),
    ensures
        spec_sorted_insert(s, e) == s.take(i) + seq![e] + s.skip(i),
    decreases s.len(),
{
    if s.len() == 0 {
        assert(spec_sorted_insert(s, e) =~= s.take(i) + seq![e] + s.skip(i));
    } else if lex_lt(e.path, s[0].path) {
        assert(i == 0) by {
            if i > 0 {
                assert(!lex_lt(e.path, s[0].path));
            }
        }
        assert(seq![e] + s =~= s.take(0) + seq![e] + s.skip(0));
    } else {
        assert(i >= 1);
        assert forall|j: int| 0 <= j < i - 1 implies !lex_lt(e.path, (#[trigger] s.skip(
            1,
        )[j]).path) by {
            assert(s.skip(1)[j] == s[j + 1]);
        }
        if i - 1 < s.skip(1).len() {
            assert(s.skip(1)[i - 1] == s[i]);
        }
        lemma_sorted_insert_at(s.skip(1), e, i - 1);
        assert(seq![s[0]] + (s.skip(1).take(i - 1) + seq![e] + s.skip(1).skip(i - 1)) =~= s.take(
            i,
        ) + seq![e] + s.skip(i));
    }
}

/// Inserts a walked entry at its sorted position.
#[verifier::loop_isolation(false)]
pub fn insert_sorted(v: &mut Vec<WsEntry>, e: WsEntry)
    ensures
        ws_view(final(v)@) == spec_sorted_insert(ws_view(old(v)@), e@),
{
    let ghost s = ws_view(v@);
    let n = v.len();
    let mut i: usize = 0;
    while i < n
        invariant
            i <= n,
            n == s.len(),
            s == ws_view(v@),
            forall|j: int| 0 <= j < i ==> !lex_lt(e@.path, (#[trigger] s[j]).path),
        decreases n - i,
    {
        if crate::bytes::bytes_lt(e.path.as_slice(), v[i].path.as_slice()) {
            proof {
                lemma_sorted_insert_at(s, e@, i as int);
            }
            v.insert(i, e);
            proof {
                assert(ws_view(v@) =~= s.take(i as int) + seq![e@] + s.skip(i as int));
            }
            return ;
        }
        i += 1;
    }
    proof {
        lemma_sorted_insert_at(s, e@, n as int);
        assert(s.skip(n as int) =~= Seq::<WsEntryView>::empty());
    }
    v.push(e);
    proof {
        assert(ws_view(v@) =~= s.take(n as int) + seq![e@] + s.skip(n as int));
    }
}

// ---------------------------------------------------------------------------
// Laws
// ---------------------------------------------------------------------------

/// Status symmetry: when HEAD, index, and working tree are identical —
/// HEAD lists the same paths with the same ids and modes, and the working
/// tree matches every entry's stat data and content hash — the change set
/// is empty.
pub proof fn lemma_status_symmetry(
    ix: Seq<crate::index::EntryView>,
    hd: Seq<HeadNodeView>,
    tr: Seq<WsEntryView>,
    fr: Seq<(Seq<u8>, Seq<u8>)>,
)
    requires
        ix.len() == hd.len(),
        forall|k: int|
            0 <= k < ix.len() ==> (#[trigger] hd[k]).path == (#[trigger] ix[k]).path && hd[k].id
                == ix[k].id && hd[k].mode == ix[k].metadata.mode,
        forall|k: int|
            0 <= k < ix.len() ==> tracked_lookup(tr, (#[trigger] ix[k]).path) == Some(
                ix[k].metadata,
            ),
        forall|k: int|
            0 <= k < ix.len() ==> fresh_lookup(fr, (#[trigger] ix[k]).path) == Some(ix[k].id),
    ensures
        spec_reconcile(ix, hd, tr, fr) == Some(
            (Seq::<(Seq<u8>, IndexHeadChange)>::empty(), Seq::<
                (Seq<u8>, WorkspaceIndexChange),
            >::empty()),
        ),
    decreases ix.len(),
{
    if ix.len() != 0 {
        let e = ix[0];
        let h = hd[0];
        assert(h.path == e.path);
        assert(!lex_lt(h.path, e.path) && !lex_lt(e.path, h.path));
        assert(work_change(e, tr, fr) == Some(Option::<WorkspaceIndexChange>::None));
        assert forall|k: int| 0 <= k < ix.skip(1).len() implies (#[trigger] hd.skip(
            1,
        )[k]).path == (#[trigger] ix.skip(1)[k]).path && hd.skip(1)[k].id == ix.skip(1)[k].id
            && hd.skip(1)[k].mode == ix.skip(1)[k].metadata.mode by {
            assert(hd.skip(1)[k] == hd[k + 1] && ix.skip(1)[k] == ix[k + 1]);
        }
        assert forall|k: int| 0 <= k < ix.skip(1).len() implies tracked_lookup(
            tr,
            (#[trigger] ix.skip(1)[k]).path,
        ) == Some(ix.skip(1)[k].metadata) && fresh_lookup(fr, ix.skip(1)[k].path) == Some(
            ix.skip(1)[k].id,
        ) by {
            assert(ix.skip(1)[k] == ix[k + 1]);
        }
        lemma_status_symmetry(ix.skip(1), hd.skip(1), tr, fr);
    }
}

/// When every walked entry is tracked, the untracked set is empty.
pub proof fn lemma_no_untracked(
    full: Seq<WsEntryView>,
    snap: Seq<WsEntryView>,
    ix: Seq<crate::index::EntryView>,
)
    requires
        forall|k: int| 0 <= k < snap.len() ==> ws_tracked(ix, (#[trigger] snap[k]).path),
    ensures
        spec_untracked(full, snap, ix) == Seq::<Seq<u8>>::empty(),
    decreases snap.len(),
{
    if snap.len() != 0 {
        assert(!ws_reported(full, ix, snap[0]));
        assert forall|k: int| 0 <= k < snap.skip(1).len() implies ws_tracked(
            ix,
            (#[trigger] snap.skip(1)[k]).path,
        ) by {
            assert(snap.skip(1)[k] == snap[k + 1]);
        }
        lemma_no_untracked(full, snap.skip(1), ix);
        assert(Seq::<Seq<u8>>::empty() + Seq::<Seq<u8>>::empty() =~= Seq::<Seq<u8>>::empty());
    }
}

/// Trackable pruning: a directory with no file anywhere below it is never
/// trackable, so it is not reported.
pub proof fn lemma_trackable_pruning(
    full: Seq<WsEntryView>,
    ix: Seq<crate::index::EntryView>,
    d: WsEntryView,
)
    requires
        d.metadata.mode is Directory,
        forall|j: int|
            0 <= j < full.len() ==> !(!((#[trigger] full[j]).metadata.mode is Directory)
                && path_ancestor(d.path, full[j].path)),
    ensures
        !ws_trackable(full, ix, d),
        !ws_reported(full, ix, d),
{
}

/// Only reported entries reach the untracked set: everything in it is the
/// rendering of some walked entry that was untracked, reachable, and
/// trackable.
pub proof fn lemma_untracked_only_reported(
    full: Seq<WsEntryView>,
    snap: Seq<WsEntryView>,
    ix: Seq<crate::index::EntryView>,
    p: Seq<u8>,
)
    requires
        spec_untracked(full, snap, ix).contains(p),
    ensures
        exists|k: int|
            0 <= k < snap.len() && ws_reported(full, ix, #[trigger] snap[k]) && p == display_path(
                snap[k],
            ),
    decreases snap.len(),
{
    if snap.len() != 0 {
        let rest = spec_untracked(full, snap.skip(1), ix);
        if ws_reported(full, ix, snap[0]) && p == display_path(snap[0]) {
            assert(0 <= 0 < snap.len() && ws_reported(full, ix, snap[0]) && p == display_path(
                snap[0],
            ));
        } else {
            assert(rest.contains(p)) by {
                let whole = spec_untracked(full, snap, ix);
                let t = choose|t: int| 0 <= t < whole.len() && whole[t] == p;
                if ws_reported(full, ix, snap[0]) {
                    assert(whole[t] == rest[t - 1]);
                } else {
                    assert(whole =~= rest);
                }
            }
            lemma_untracked_only_reported(full, snap.skip(1), ix, p);
            let k = choose|k: int|
                0 <= k < snap.skip(1).len() && ws_reported(full, ix, #[trigger] snap.skip(
                    1,
                )[k]) && p == display_path(snap.skip(1)[k]);
            assert(snap.skip(1)[k] == snap[k + 1]);
        }
    } else {
        assert(false);
    }
}

} // verus!
