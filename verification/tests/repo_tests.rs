use grit::index::Index;
use grit::meta::{Metadata, Mode};
use grit::object::Id;
use grit::repository::Repository;
use grit::tree_builder::build_tree;

fn meta(mode: Mode, size: u32) -> Metadata {
    Metadata {
        ctime: 1,
        ctime_nsec: 0,
        mtime: 2,
        mtime_nsec: 0,
        dev: 3,
        ino: 4,
        mode,
        uid: 5,
        gid: 6,
        size,
    }
}

#[test]
fn repository_paths() {
    let repo = Repository::new(b"/work".to_vec());
    assert_eq!(repo.root(), &b"/work".to_vec());
    assert_eq!(repo.index_path(), b"/work/.git/index".to_vec());
    let refs = repo.references();
    assert_eq!(refs.root, b"/work/.git/refs".to_vec());
    assert_eq!(refs.head, b"/work/.git/HEAD".to_vec());
    assert_eq!(repo.workspace().root(), &b"/work".to_vec());
}

#[test]
fn head_round_trip() {
    let repo = Repository::new(b"/work".to_vec());
    let refs = repo.references();
    let id = Id::hash(b"some commit");
    let written = refs.format_head(&id);
    assert_eq!(written.len(), 40);
    let back = refs.parse_head(written.as_slice()).expect("written head parses");
    assert_eq!(back.as_bytes(), id.as_bytes());
}

#[test]
fn head_parse_rejects_garbage() {
    let repo = Repository::new(b"/w".to_vec());
    let refs = repo.references();
    assert!(matches!(refs.parse_head(b"short"), Err(grit::Error::Corrupt)));
    assert!(matches!(
        refs.parse_head(b"zzzzzzzzzzzzzzzzzzzzzzzzzzzzzzzzzzzzzzzz"),
        Err(grit::Error::Corrupt)
    ));
}

#[test]
fn build_tree_stores_one_tree_per_directory() {
    let mut ix = Index::new();
    ix.insert(meta(Mode::Regular, 6), Id::hash(b"one"), b"hello.txt".to_vec());
    ix.insert(meta(Mode::Regular, 3), Id::hash(b"two"), b"sub/a.txt".to_vec());
    let repo = Repository::new(b"/work".to_vec());
    let database = repo.database();
    let (stored, root) = build_tree(&database, &ix);
    // one tree for `sub`, one for the root
    assert_eq!(stored.len(), 2);
    assert_eq!(root.as_bytes(), stored[1].op.id.as_bytes());
    // the root tree id is the hash of its canonical bytes
    let expected = Id::hash(stored[1].object.to_bytes().as_slice());
    assert_eq!(root.as_bytes(), expected.as_bytes());
}

#[test]
fn build_tree_matches_expected_root_bytes() {
    let mut ix = Index::new();
    let blob_id = Id::hash(b"blob bytes");
    ix.insert(meta(Mode::Regular, 6), blob_id.clone(), b"hello.txt".to_vec());
    let repo = Repository::new(b"/work".to_vec());
    let database = repo.database();
    let (stored, _root) = build_tree(&database, &ix);
    assert_eq!(stored.len(), 1);
    let mut body = b"100644 hello.txt\0".to_vec();
    body.extend_from_slice(blob_id.as_bytes());
    let mut expected = b"tree 37\0".to_vec();
    expected.extend_from_slice(&body);
    assert_eq!(stored[0].object.to_bytes(), expected);
}

#[test]
fn build_tree_nested_directories() {
    let mut ix = Index::new();
    ix.insert(meta(Mode::Regular, 1), Id::hash(b"x"), b"a/b/x.txt".to_vec());
    ix.insert(meta(Mode::Regular, 2), Id::hash(b"y"), b"a/y.txt".to_vec());
    ix.insert(meta(Mode::Regular, 3), Id::hash(b"z"), b"z.txt".to_vec());
    let repo = Repository::new(b"/work".to_vec());
    let database = repo.database();
    let (stored, root) = build_tree(&database, &ix);
    // one tree per directory: a/b first, then a, then the root
    assert_eq!(stored.len(), 3);
    let names: Vec<Vec<Vec<u8>>> = stored
        .iter()
        .map(|st| match &st.object {
            grit::object::Object::Tree(t) => {
                t.nodes().iter().map(|n| n.path().clone()).collect()
            }
            _ => panic!("expected a tree"),
        })
        .collect();
    assert_eq!(names[0], vec![b"x.txt".to_vec()]);
    assert_eq!(names[1], vec![b"b".to_vec(), b"y.txt".to_vec()]);
    assert_eq!(names[2], vec![b"a".to_vec(), b"z.txt".to_vec()]);
    assert_eq!(root.as_bytes(), stored[2].op.id.as_bytes());
}
