use grit::index::Index;
use grit::meta::{Metadata, Mode};
use grit::object::{Blob, Id, Object};
use grit::status::{
    compute_untracked, detect_changes, flatten_step, merge_changes, HeadNode, IndexHeadChange,
    WorkspaceIndexChange,
};
use grit::object::{Tree, TreeNode};
use grit::workspace::Entry;

fn meta(mode: Mode, size: u32, mtime: u32) -> Metadata {
    Metadata {
        ctime: 10,
        ctime_nsec: 0,
        mtime,
        mtime_nsec: 0,
        dev: 1,
        ino: 2,
        mode,
        uid: 3,
        gid: 4,
        size,
    }
}

fn blob_id(data: &[u8]) -> Id {
    let blob = Object::Blob(Blob::new(data.to_vec()));
    Id::hash(blob.to_bytes().as_slice())
}

/// One staged file `hello.txt` holding `hello\n`, matching HEAD.
fn fixture() -> (Index, Vec<HeadNode>) {
    let id = blob_id(b"hello\n");
    let mut ix = Index::new();
    ix.insert(meta(Mode::Regular, 6, 100), id.clone(), b"hello.txt".to_vec());
    let head = vec![HeadNode { path: b"hello.txt".to_vec(), id, mode: Mode::Regular }];
    (ix, head)
}

#[test]
fn clean_tree_reports_nothing() {
    let (ix, head) = fixture();
    let work = vec![Entry::new(b"hello.txt".to_vec(), meta(Mode::Regular, 6, 100))];
    let fresh = vec![(b"hello.txt".to_vec(), blob_id(b"hello\n"))];
    let changes = detect_changes(&ix, &head, &work, &fresh).expect("hashes supplied");
    assert!(changes.index_head.is_empty());
    assert!(changes.workspace_index.is_empty());
}

#[test]
fn touched_file_with_same_content_reports_nothing() {
    // only the mtime differs: the metadata short-cut falls through to the
    // content hash, which matches
    let (ix, head) = fixture();
    let work = vec![Entry::new(b"hello.txt".to_vec(), meta(Mode::Regular, 6, 999))];
    let fresh = vec![(b"hello.txt".to_vec(), blob_id(b"hello\n"))];
    let changes = detect_changes(&ix, &head, &work, &fresh).expect("hashes supplied");
    assert!(changes.index_head.is_empty());
    assert!(changes.workspace_index.is_empty());
}

#[test]
fn overwritten_file_reports_workspace_modified() {
    // `world\n` has the same length as `hello\n`, so only the hash differs
    let (ix, head) = fixture();
    let work = vec![Entry::new(b"hello.txt".to_vec(), meta(Mode::Regular, 6, 999))];
    let fresh = vec![(b"hello.txt".to_vec(), blob_id(b"world\n"))];
    let changes = detect_changes(&ix, &head, &work, &fresh).expect("hashes supplied");
    assert!(changes.index_head.is_empty());
    assert_eq!(changes.workspace_index.len(), 1);
    assert_eq!(changes.workspace_index[0].0, b"hello.txt".to_vec());
    assert_eq!(changes.workspace_index[0].1, WorkspaceIndexChange::Modified);
}

#[test]
fn missing_file_reports_workspace_deleted() {
    let (ix, head) = fixture();
    let work: Vec<Entry> = Vec::new();
    let fresh: Vec<(Vec<u8>, Id)> = Vec::new();
    let changes = detect_changes(&ix, &head, &work, &fresh).expect("no hash needed");
    assert!(changes.index_head.is_empty());
    assert_eq!(changes.workspace_index.len(), 1);
    assert_eq!(changes.workspace_index[0].1, WorkspaceIndexChange::Deleted);
}

#[test]
fn staged_file_missing_from_head_reports_added() {
    let id = blob_id(b"new\n");
    let mut ix = Index::new();
    ix.insert(meta(Mode::Regular, 4, 5), id, b"new.txt".to_vec());
    let head: Vec<HeadNode> = Vec::new();
    let work = vec![Entry::new(b"new.txt".to_vec(), meta(Mode::Regular, 4, 5))];
    let fresh = vec![(b"new.txt".to_vec(), blob_id(b"new\n"))];
    let changes = detect_changes(&ix, &head, &work, &fresh).expect("hash supplied");
    assert_eq!(changes.index_head.len(), 1);
    assert_eq!(changes.index_head[0].0, b"new.txt".to_vec());
    assert_eq!(changes.index_head[0].1, IndexHeadChange::Added);
}

#[test]
fn head_file_missing_from_index_reports_deleted() {
    let ix = Index::new();
    let head = vec![HeadNode {
        path: b"gone.txt".to_vec(),
        id: blob_id(b"gone\n"),
        mode: Mode::Regular,
    }];
    let changes = detect_changes(&ix, &head, &Vec::new(), &Vec::new()).expect("no hash needed");
    assert_eq!(changes.index_head.len(), 1);
    assert_eq!(changes.index_head[0].0, b"gone.txt".to_vec());
    assert_eq!(changes.index_head[0].1, IndexHeadChange::Deleted);
}

#[test]
fn missing_content_hash_is_an_invariant_failure() {
    let (ix, head) = fixture();
    let work = vec![Entry::new(b"hello.txt".to_vec(), meta(Mode::Regular, 6, 999))];
    let fresh: Vec<(Vec<u8>, Id)> = Vec::new();
    assert!(matches!(
        detect_changes(&ix, &head, &work, &fresh),
        Err(grit::Error::Invariant)
    ));
}

#[test]
fn untracked_file_is_reported() {
    let ix = Index::new();
    let snapshot = vec![Entry::new(b"loose.txt".to_vec(), meta(Mode::Regular, 1, 1))];
    let untracked = compute_untracked(&snapshot, &ix);
    assert_eq!(untracked, vec![b"loose.txt".to_vec()]);
}

#[test]
fn untracked_directory_gets_trailing_separator() {
    let ix = Index::new();
    let snapshot = vec![
        Entry::new(b"dir".to_vec(), meta(Mode::Directory, 0, 1)),
        Entry::new(b"dir/file.txt".to_vec(), meta(Mode::Regular, 1, 1)),
    ];
    let untracked = compute_untracked(&snapshot, &ix);
    // the directory is maximal: its contents are not listed separately
    assert_eq!(untracked, vec![b"dir/".to_vec()]);
}

#[test]
fn empty_directories_are_pruned() {
    let ix = Index::new();
    let snapshot = vec![
        Entry::new(b"empty".to_vec(), meta(Mode::Directory, 0, 1)),
        Entry::new(b"empty/inner".to_vec(), meta(Mode::Directory, 0, 1)),
    ];
    let untracked = compute_untracked(&snapshot, &ix);
    assert!(untracked.is_empty());
}

#[test]
fn tracked_paths_are_not_untracked() {
    let id = blob_id(b"x");
    let mut ix = Index::new();
    ix.insert(meta(Mode::Regular, 1, 1), id, b"dir/a.txt".to_vec());
    let snapshot = vec![
        Entry::new(b"dir".to_vec(), meta(Mode::Directory, 0, 1)),
        Entry::new(b"dir/a.txt".to_vec(), meta(Mode::Regular, 1, 1)),
    ];
    let untracked = compute_untracked(&snapshot, &ix);
    assert!(untracked.is_empty());
}

#[test]
fn merge_changes_orders_and_fuses_rows() {
    let ih = vec![
        (b"a.txt".to_vec(), IndexHeadChange::Added),
        (b"c.txt".to_vec(), IndexHeadChange::Modified),
    ];
    let wi = vec![
        (b"b.txt".to_vec(), WorkspaceIndexChange::Deleted),
        (b"c.txt".to_vec(), WorkspaceIndexChange::Modified),
    ];
    let rows = merge_changes(&ih, &wi);
    assert_eq!(
        rows,
        vec![
            (b"a.txt".to_vec(), Some(IndexHeadChange::Added), None),
            (b"b.txt".to_vec(), None, Some(WorkspaceIndexChange::Deleted)),
            (
                b"c.txt".to_vec(),
                Some(IndexHeadChange::Modified),
                Some(WorkspaceIndexChange::Modified)
            ),
        ]
    );
}

#[test]
fn flatten_step_joins_paths_in_tree_order() {
    let fid = blob_id(b"f");
    let did = blob_id(b"d");
    let tree = Tree::new(vec![
        TreeNode::new(b"a.txt".to_vec(), fid.clone(), Mode::Regular),
        TreeNode::new(b"sub".to_vec(), did.clone(), Mode::Directory),
    ]);
    let rows = flatten_step(b"top", &tree);
    assert_eq!(rows.len(), 2);
    assert_eq!(rows[0].path, b"top/a.txt".to_vec());
    assert!(matches!(rows[0].mode, Mode::Regular));
    assert_eq!(rows[1].path, b"top/sub".to_vec());
    assert!(matches!(rows[1].mode, Mode::Directory));
    let root_rows = flatten_step(b"", &tree);
    assert_eq!(root_rows[0].path, b"a.txt".to_vec());
}
