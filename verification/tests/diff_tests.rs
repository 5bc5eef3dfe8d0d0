use grit::diff::myers;

#[test]
fn smoke() {
    assert_eq!(myers(b"ABCABBA", b"CBABAC"), 5);
}

#[test]
fn myers_symmetry() {
    assert_eq!(myers(b"ABCABBA", b"CBABAC"), myers(b"CBABAC", b"ABCABBA"));
    assert_eq!(myers(b"kitten", b"sitting"), myers(b"sitting", b"kitten"));
}

#[test]
fn myers_identity() {
    assert_eq!(myers(b"", b""), 0);
    assert_eq!(myers(b"same", b"same"), 0);
}

#[test]
fn myers_simple_edits() {
    assert_eq!(myers(b"", b"abc"), 3);
    assert_eq!(myers(b"abc", b""), 3);
    assert_eq!(myers(b"abc", b"abd"), 2);
}
