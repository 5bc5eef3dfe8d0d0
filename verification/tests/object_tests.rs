use grit::database::Database;
use grit::meta::Mode;
use grit::object::{Blob, Commit, Id, Object, Person, Tree, TreeNode};

fn db() -> Database {
    Database::new(b".git/objects".to_vec())
}

#[test]
fn blob_store_load_round_trip() {
    let blob = Object::Blob(Blob::new(b"hello\n".to_vec()));
    let op = db().store(&blob);
    let loaded = db().load(op.bytes.as_slice()).expect("stored object loads");
    match loaded {
        Object::Blob(b) => assert_eq!(b.0, b"hello\n".to_vec()),
        _ => panic!("expected a blob"),
    }
}

#[test]
fn blob_id_matches_git() {
    // SHA-1 of `blob 6\0hello\n`
    let blob = Object::Blob(Blob::new(b"hello\n".to_vec()));
    let op = db().store(&blob);
    let hex = op.id.to_hex();
    assert_eq!(hex, b"ce013625030ba8dba906f756967f9e9ca394464a".to_vec());
}

#[test]
fn store_is_deduplicating() {
    let blob = Object::Blob(Blob::new(b"hello\n".to_vec()));
    let op1 = db().store(&blob);
    let op2 = db().store(&blob);
    assert_eq!(op1.id.as_bytes(), op2.id.as_bytes());
    assert_eq!(op1.path, op2.path);
    assert_eq!(op1.bytes, op2.bytes);
}

#[test]
fn object_path_layout() {
    let blob = Object::Blob(Blob::new(b"hello\n".to_vec()));
    let op = db().store(&blob);
    assert_eq!(
        op.path,
        b".git/objects/ce/013625030ba8dba906f756967f9e9ca394464a".to_vec()
    );
}

#[test]
fn tree_bytes_match_git() {
    let blob = Object::Blob(Blob::new(b"hello\n".to_vec()));
    let blob_id = db().store(&blob).id;
    let node = TreeNode::new(b"hello.txt".to_vec(), blob_id.clone(), Mode::Regular);
    let tree = Tree::new(vec![node]);
    let mut body = Vec::new();
    tree.write(&mut body);
    let mut expected = b"100644 hello.txt\0".to_vec();
    expected.extend_from_slice(blob_id.as_bytes());
    assert_eq!(body, expected);
}

#[test]
fn tree_store_load_round_trip() {
    let blob_id = Id::hash(b"anything");
    let node = TreeNode::new(b"a.txt".to_vec(), blob_id, Mode::Executable);
    let tree = Object::Tree(Tree::new(vec![node]));
    let op = db().store(&tree);
    let loaded = db().load(op.bytes.as_slice()).expect("stored tree loads");
    match loaded {
        Object::Tree(t) => {
            assert_eq!(t.nodes().len(), 1);
            assert_eq!(t.nodes()[0].path(), &b"a.txt".to_vec());
            assert!(matches!(*t.nodes()[0].mode(), Mode::Executable));
        }
        _ => panic!("expected a tree"),
    }
}

#[test]
fn commit_store_load_round_trip() {
    let tree_id = Id::hash(b"tree bytes");
    let parent_id = Id::hash(b"parent bytes");
    let author = Person::new(b"Ada Lovelace".to_vec(), b"ada@example.com".to_vec(), 1234567890, 90);
    let committer = Person::new(b"Alan Turing".to_vec(), b"alan@example.com".to_vec(), -42, -330);
    let commit = Object::Commit(Commit::new(
        tree_id.clone(),
        Some(parent_id.clone()),
        author,
        committer,
        b"first\n\nbody\n".to_vec(),
    ));
    let op = db().store(&commit);
    let loaded = db().load(op.bytes.as_slice()).expect("stored commit loads");
    match loaded {
        Object::Commit(c) => {
            assert_eq!(c.tree().as_bytes(), tree_id.as_bytes());
            match c.parent() {
                Some(p) => assert_eq!(p.as_bytes(), parent_id.as_bytes()),
                None => panic!("expected a parent"),
            }
            assert_eq!(c.message(), &b"first\n\nbody\n".to_vec());
        }
        _ => panic!("expected a commit"),
    }
}

#[test]
fn commit_without_parent_round_trip() {
    let tree_id = Id::hash(b"t");
    let author = Person::new(b"A".to_vec(), b"a@b".to_vec(), 0, 0);
    let committer = Person::new(b"A".to_vec(), b"a@b".to_vec(), 0, 0);
    let commit = Object::Commit(Commit::new(tree_id, None, author, committer, b"m".to_vec()));
    let op = db().store(&commit);
    let loaded = db().load(op.bytes.as_slice()).expect("stored commit loads");
    match loaded {
        Object::Commit(c) => {
            assert!(c.parent().is_none());
            assert_eq!(c.message(), &b"m".to_vec());
        }
        _ => panic!("expected a commit"),
    }
}

#[test]
fn corrupt_stream_is_rejected() {
    assert!(matches!(db().load(b"not zlib at all"), Err(grit::Error::Corrupt)));
}

#[test]
fn corrupt_header_is_rejected() {
    // an unknown type word in the object header
    let blob = Object::Blob(Blob::new(b"x".to_vec()));
    let mut bytes = blob.to_bytes();
    bytes[0] = b'q';
    let parsed = Object::read(bytes.as_slice());
    assert!(matches!(parsed, Err(grit::Error::Corrupt)));
}

#[test]
fn hex_round_trip() {
    let id = Id::hash(b"some bytes");
    let hex = id.to_hex();
    let back = grit::object::read_hex_bytes(hex.as_slice(), 0, 20).expect("hex decodes");
    assert_eq!(&back, id.as_bytes());
}

#[test]
fn id_read_hex_round_trip() {
    let id = Id::hash(b"abc");
    let hex = id.to_hex();
    let back = Id::read_hex(hex.as_slice(), 0).expect("own hex parses");
    assert_eq!(back.as_bytes(), id.as_bytes());
    assert!(Id::read_hex(b"zz013625030ba8dba906f756967f9e9ca394464a", 0).is_err());
}

#[test]
fn person_read_round_trip() {
    let person = Person::new(b"Grace Hopper".to_vec(), b"grace@example.com".to_vec(), 77, -60);
    let mut buf = Vec::new();
    person.write(&mut buf);
    let (parsed, consumed) = Person::read(buf.as_slice(), 0).expect("own encoding parses");
    assert_eq!(consumed, buf.len());
    assert_eq!(parsed.name, b"Grace Hopper".to_vec());
    assert_eq!(parsed.email, b"grace@example.com".to_vec());
    assert_eq!(parsed.time, 77);
    assert_eq!(parsed.offset, -60);
}

#[test]
fn tree_node_read_round_trip() {
    let node = TreeNode::new(b"name.txt".to_vec(), Id::hash(b"n"), Mode::Regular);
    let mut buf = Vec::new();
    node.write(&mut buf);
    let (parsed, consumed) = TreeNode::read(buf.as_slice(), 0).expect("own encoding parses");
    assert_eq!(consumed, buf.len());
    assert_eq!(parsed.path(), node.path());
    assert_eq!(parsed.id().as_bytes(), node.id().as_bytes());
}

#[test]
fn blob_read_is_identity() {
    let blob = Blob::read(b"raw body");
    assert_eq!(blob.0, b"raw body".to_vec());
}

#[test]
fn error_descriptions() {
    assert_eq!(grit::Error::Corrupt.describe(), "corrupt data");
    assert_eq!(grit::Error::LockContention.describe(), "another writer holds the lock");
}

#[test]
fn commit_bytes_are_canonical() {
    let tree_id = Id::hash(b"tree");
    let author = Person::new(b"A".to_vec(), b"a@b".to_vec(), 0, 0);
    let committer = Person::new(b"A".to_vec(), b"a@b".to_vec(), 0, 0);
    let commit = Commit::new(tree_id.clone(), None, author, committer, b"m".to_vec());
    let mut body = Vec::new();
    commit.write(&mut body);
    let mut expected = b"tree ".to_vec();
    expected.extend_from_slice(&tree_id.to_hex());
    expected.extend_from_slice(b"\nauthor A <a@b> 0 +0000\ncommitter A <a@b> 0 +0000\n\nm");
    assert_eq!(body, expected);
}

#[test]
fn person_line_renders_negative_time_and_offset() {
    let person = Person::new(b"N".to_vec(), b"n@x".to_vec(), -5, -90);
    let mut buf = Vec::new();
    person.write(&mut buf);
    assert_eq!(buf, b"N <n@x> -5 -0130".to_vec());
}

#[test]
fn mode_literals() {
    assert_eq!(Mode::Directory.as_str(), "40000");
    assert_eq!(Mode::Regular.as_str(), "100644");
    assert_eq!(Mode::Executable.as_str(), "100755");
}

#[test]
fn mode_from_stat_values() {
    assert!(matches!(Mode::mode_of(true, 0o755), Mode::Directory));
    assert!(matches!(Mode::mode_of(false, 0o755), Mode::Executable));
    assert!(matches!(Mode::mode_of(false, 0o644), Mode::Regular));
}
