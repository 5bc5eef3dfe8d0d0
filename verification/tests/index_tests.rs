use grit::index::{Index, Node};
use grit::meta::{Metadata, Mode};
use grit::object::Id;

fn meta(mode: Mode, size: u32) -> Metadata {
    Metadata {
        ctime: 1,
        ctime_nsec: 2,
        mtime: 3,
        mtime_nsec: 4,
        dev: 5,
        ino: 6,
        mode,
        uid: 7,
        gid: 8,
        size,
    }
}

fn sample(paths: &[&[u8]]) -> Index {
    let mut ix = Index::new();
    for p in paths {
        ix.insert(meta(Mode::Regular, 6), Id::hash(p), p.to_vec());
    }
    ix
}

#[test]
fn index_round_trip() {
    let ix = sample(&[b"a.txt", b"dir/b.txt", b"dir/sub/c.txt"]);
    let bytes = ix.file_bytes();
    let reopened = Index::open(bytes.as_slice()).expect("a committed index opens");
    assert_eq!(reopened.len(), 3);
    let paths: Vec<Vec<u8>> = reopened.files().iter().map(|e| e.path().clone()).collect();
    assert_eq!(
        paths,
        vec![b"a.txt".to_vec(), b"dir/b.txt".to_vec(), b"dir/sub/c.txt".to_vec()]
    );
    // the re-committed bytes are identical
    let again = reopened.file_bytes();
    assert_eq!(bytes, again);
}

#[test]
fn trailer_integrity() {
    let ix = sample(&[b"a.txt", b"b.txt"]);
    let bytes = ix.file_bytes();
    // flipping any byte before the trailer corrupts the file
    for i in 0..bytes.len() - 20 {
        let mut bad = bytes.clone();
        bad[i] ^= 0x01;
        assert!(
            matches!(Index::open(bad.as_slice()), Err(grit::Error::Corrupt)),
            "byte {} did not corrupt the index",
            i
        );
    }
}

#[test]
fn insert_removes_descendants() {
    // after staging `sub/a.txt`, staging `sub` as a file must leave only `sub`
    let mut ix = sample(&[b"sub/a.txt"]);
    ix.insert(meta(Mode::Regular, 6), Id::hash(b"sub"), b"sub".to_vec());
    assert_eq!(ix.len(), 1);
    assert_eq!(ix.files()[0].path(), &b"sub".to_vec());
}

#[test]
fn insert_removes_ancestors_but_not_siblings() {
    let mut ix = sample(&[b"foo", b"foo.sh"]);
    ix.insert(meta(Mode::Regular, 6), Id::hash(b"x"), b"foo/a.txt".to_vec());
    let paths: Vec<Vec<u8>> = ix.files().iter().map(|e| e.path().clone()).collect();
    assert_eq!(paths, vec![b"foo.sh".to_vec(), b"foo/a.txt".to_vec()]);
}

#[test]
fn insert_keeps_byte_wise_order() {
    let ix = sample(&[b"foo/a.txt", b"foo.sh", b"foo-x", b"fon"]);
    let paths: Vec<Vec<u8>> = ix.files().iter().map(|e| e.path().clone()).collect();
    assert_eq!(
        paths,
        vec![b"fon".to_vec(), b"foo-x".to_vec(), b"foo.sh".to_vec(), b"foo/a.txt".to_vec()]
    );
}

#[test]
fn changed_tracks_membership() {
    let mut ix = Index::new();
    assert!(!ix.changed());
    ix.insert(meta(Mode::Regular, 1), Id::hash(b"1"), b"a".to_vec());
    assert!(ix.changed());
    let bytes = ix.file_bytes();
    let mut reopened = Index::open(bytes.as_slice()).expect("opens");
    assert!(!reopened.changed());
    // replacing an existing path does not change membership
    reopened.insert(meta(Mode::Regular, 2), Id::hash(b"2"), b"a".to_vec());
    assert!(!reopened.changed());
    reopened.insert(meta(Mode::Regular, 3), Id::hash(b"3"), b"b".to_vec());
    assert!(reopened.changed());
}

#[test]
fn commit_skips_unchanged() {
    let ix = sample(&[b"a"]);
    let bytes = ix.file_bytes();
    let reopened = Index::open(bytes.as_slice()).expect("opens");
    assert!(reopened.commit().is_none());
    let mut dirty = Index::open(bytes.as_slice()).expect("opens");
    dirty.insert(meta(Mode::Regular, 9), Id::hash(b"n"), b"new".to_vec());
    assert!(dirty.commit().is_some());
}

#[test]
fn nodes_emit_directories_after_contents() {
    let ix = sample(&[b"a/b/1.txt", b"a/b/2.txt", b"a/c.txt", b"top.txt"]);
    let nodes = ix.nodes();
    let rendered: Vec<(bool, Vec<u8>)> = nodes
        .iter()
        .map(|n| (matches!(n, Node::Directory(_)), n.path().clone()))
        .collect();
    assert_eq!(
        rendered,
        vec![
            (false, b"a/b/1.txt".to_vec()),
            (false, b"a/b/2.txt".to_vec()),
            (true, b"a/b".to_vec()),
            (false, b"a/c.txt".to_vec()),
            (true, b"a".to_vec()),
            (false, b"top.txt".to_vec()),
            (true, b"".to_vec()),
        ]
    );
}

#[test]
fn open_rejects_bad_magic() {
    let ix = sample(&[b"a"]);
    let mut bytes = ix.file_bytes();
    bytes[0] = b'X';
    assert!(matches!(Index::open(bytes.as_slice()), Err(grit::Error::Corrupt)));
}

#[test]
fn lookups() {
    let ix = sample(&[b"dir/a.txt"]);
    assert!(ix.contains_file(b"dir/a.txt"));
    assert!(!ix.contains_file(b"dir"));
    assert!(ix.contains_directory(b"dir"));
    assert!(ix.contains(b"dir"));
    assert!(!ix.contains(b"nope"));
    assert!(ix.get(b"dir/a.txt").is_some());
    assert!(ix.get(b"dir").is_none());
}

#[test]
fn metadata_survives_the_codec() {
    let ix = sample(&[b"file"]);
    let bytes = ix.file_bytes();
    let reopened = Index::open(bytes.as_slice()).expect("opens");
    let entry = &reopened.files()[0];
    let m = entry.metadata();
    assert_eq!((m.ctime, m.ctime_nsec, m.mtime, m.mtime_nsec), (1, 2, 3, 4));
    assert_eq!((m.dev, m.ino, m.uid, m.gid, m.size), (5, 6, 7, 8, 6));
    assert!(matches!(m.mode, Mode::Regular));
    assert_eq!(entry.id().as_bytes(), Id::hash(b"file").as_bytes());
}
