//! File modes and the normalized stat snapshot that index entries carry.

use crate::bytes::{be32, be32_val, push_be32, read_be32, lemma_be32_round_trip};
use vstd::prelude::*;

verus! {

/// The three file modes an entry may have.
#[derive(Clone, Copy, Debug, PartialEq, Eq, Hash, Structural)]
pub enum Mode {
    Directory,
    Regular,
    Executable,
}

/// A mode word that is none of the three accepted values.
#[derive(Clone, Copy, Debug, PartialEq, Eq, Structural)]
pub struct InvalidMode(pub u32);

impl Mode {
    /// The literal mode string used inside tree bodies; no leading zero on
    /// the directory mode.
    pub open spec fn spec_literal(self) -> Seq<u8> {
        match self {
            Mode::Directory => seq![52u8, 48u8, 48u8, 48u8, 48u8],
            Mode::Regular => seq![49u8, 48u8, 48u8, 54u8, 52u8, 52u8],
            Mode::Executable => seq![49u8, 48u8, 48u8, 55u8, 53u8, 53u8],
        }
    }

    /// The 32-bit object mode stored in index entries.
    pub open spec fn spec_u32(self) -> u32 {
        match self {
            Mode::Directory => 0o040000u32,
            Mode::Regular => 0o100644u32,
            Mode::Executable => 0o100755u32,
        }
    }

    /// The mode, if any, that a 32-bit mode word denotes.
    pub open spec fn spec_of_u32(x: u32) -> Option<Mode> {
        if x == 0o040000u32 {
            Some(Mode::Directory)
        } else if x == 0o100644u32 {
            Some(Mode::Regular)
        } else if x == 0o100755u32 {
            Some(Mode::Executable)
        } else {
            None
        }
    }

    /// The mode, if any, that a literal mode string denotes.
    pub open spec fn spec_of_literal(b: Seq<u8>) -> Option<Mode> {
        if b == Mode::Directory.spec_literal() {
            Some(Mode::Directory)
        } else if b == Mode::Regular.spec_literal() {
            Some(Mode::Regular)
        } else if b == Mode::Executable.spec_literal() {
            Some(Mode::Executable)
        } else {
            None
        }
    }

    /// The three literals denote their own modes and nothing else's.
    pub proof fn lemma_literal_round_trip(m: Mode)
        ensures
            Mode::spec_of_literal(m.spec_literal()) == Some(m),
    {
        assert(Mode::Directory.spec_literal() != Mode::Regular.spec_literal());
        assert(Mode::Directory.spec_literal() != Mode::Executable.spec_literal());
        assert(Mode::Regular.spec_literal() != Mode::Executable.spec_literal()) by {
            assert(Mode::Regular.spec_literal()[3] != Mode::Executable.spec_literal()[3]);
        }
    }

    /// The literal mode string, as in-memory text; no leading zero on the
    /// directory mode.
    pub fn as_str(&self) -> (r: &'static str)
        ensures
            self is Directory ==> r@ == "40000"@,
            self is Regular ==> r@ == "100644"@,
            self is Executable ==> r@ == "100755"@,
    {
        match self {
            Mode::Directory => "40000",
            Mode::Regular => "100644",
            Mode::Executable => "100755",
        }
    }

    /// The mode derived from OS metadata: a directory, else executable when
    /// any execute bit is set, else regular.
    pub fn mode_of(is_dir: bool, perm: u32) -> (m: Mode)
        ensures
            m == (if is_dir {
                Mode::Directory
            } else if perm & 0o111u32 != 0 {
                Mode::Executable
            } else {
                Mode::Regular
            }),
    {
        if is_dir {
            Mode::Directory
        } else if perm & 0o111u32 != 0 {
            Mode::Executable
        } else {
            Mode::Regular
        }
    }

    /// Appends the literal mode string bytes to `out`.
    pub fn push_literal(&self, out: &mut Vec<u8>)
        ensures
            final(out)@ == old(out)@ + self.spec_literal(),
    {
        match self {
            Mode::Directory => {
                out.push(52);
                out.push(48);
                out.push(48);
                out.push(48);
                out.push(48);
            },
            Mode::Regular => {
                out.push(49);
                out.push(48);
                out.push(48);
                out.push(54);
                out.push(52);
                out.push(52);
            },
            Mode::Executable => {
                out.push(49);
                out.push(48);
                out.push(48);
                out.push(55);
                out.push(53);
                out.push(53);
            },
        }
        proof {
            assert(final(out)@ =~= old(out)@ + self.spec_literal());
        }
    }

    /// The 32-bit object mode.
    pub fn as_u32(&self) -> (r: u32)
        ensures
            r == self.spec_u32(),
    {
        match self {
            Mode::Directory => 0o040000,
            Mode::Regular => 0o100644,
            Mode::Executable => 0o100755,
        }
    }

    /// The mode denoted by a 32-bit mode word, or the invalid word.
    pub fn try_from_u32(x: u32) -> (r: Result<Mode, InvalidMode>)
        ensures
            match Mode::spec_of_u32(x) {
                Some(m) => r == Ok::<Mode, InvalidMode>(m),
                None => r == Err::<Mode, InvalidMode>(InvalidMode(x)),
            },
    {
        if x == 0o040000 {
            Ok(Mode::Directory)
        } else if x == 0o100644 {
            Ok(Mode::Regular)
        } else if x == 0o100755 {
            Ok(Mode::Executable)
        } else {
            Err(InvalidMode(x))
        }
    }

    /// Whether this is the directory mode.
    pub fn is_directory(&self) -> (r: bool)
        ensures
            r == (self is Directory),
    {
        matches!(self, Mode::Directory)
    }

    /// Whether this is one of the two file modes.
    pub fn is_file(&self) -> (r: bool)
        ensures
            r == (self is Regular || self is Executable),
    {
        matches!(self, Mode::Regular | Mode::Executable)
    }
}

/// The stat snapshot persisted with each index entry, every field narrowed
/// to 32 bits.
#[derive(Clone, Copy, Debug, PartialEq, Eq, Hash, Structural)]
pub struct Metadata {
    /// Change time (whole seconds)
    pub ctime: u32,
    /// Change time (fractional nanoseconds)
    pub ctime_nsec: u32,
    /// Modified time (whole seconds)
    pub mtime: u32,
    /// Modified time (fractional nanoseconds)
    pub mtime_nsec: u32,
    /// Device ID
    pub dev: u32,
    /// `inode` number
    pub ino: u32,
    /// Permission mode
    pub mode: Mode,
    /// User ID
    pub uid: u32,
    /// Group ID
    pub gid: u32,
    /// File size (bytes)
    pub size: u32,
}

impl Metadata {
    /// The ten big-endian fields, 40 bytes, in index-entry order.
    pub open spec fn spec_encode(self) -> Seq<u8> {
        be32(self.ctime) + be32(self.ctime_nsec) + be32(self.mtime) + be32(self.mtime_nsec) + be32(
            self.dev,
        ) + be32(self.ino) + be32(self.mode.spec_u32()) + be32(self.uid) + be32(self.gid) + be32(
            self.size,
        )
    }

    /// What 40 bytes decode to: fails only on an unaccepted mode word.
    pub open spec fn spec_decode(s: Seq<u8>) -> Option<Metadata>
        recommends
            s.len() == 40,
    {
        match Mode::spec_of_u32(be32_val(s.subrange(24, 28))) {
            None => None,
            Some(mode) => Some(
                Metadata {
                    ctime: be32_val(s.subrange(0, 4)),
                    ctime_nsec: be32_val(s.subrange(4, 8)),
                    mtime: be32_val(s.subrange(8, 12)),
                    mtime_nsec: be32_val(s.subrange(12, 16)),
                    dev: be32_val(s.subrange(16, 20)),
                    ino: be32_val(s.subrange(20, 24)),
                    mode,
                    uid: be32_val(s.subrange(28, 32)),
                    gid: be32_val(s.subrange(32, 36)),
                    size: be32_val(s.subrange(36, 40)),
                },
            ),
        }
    }

    /// The mode field.
    pub fn mode(&self) -> (r: &Mode)
        ensures
            r == self.mode,
    {
        &self.mode
    }

    /// The encoded length of the stat fields.
    pub fn len(&self) -> (r: usize)
        ensures
            r == self.spec_encode().len(),
    {
        proof {
            assert(self.spec_encode().len() == 40);
        }
        40
    }

    /// Appends the 40 encoded bytes to `out`.
    #[verifier::rlimit(50)]
    pub fn write(&self, out: &mut Vec<u8>)
        ensures
            final(out)@ == old(out)@ + self.spec_encode(),
    {
        push_be32(out, self.ctime);
        push_be32(out, self.ctime_nsec);
        push_be32(out, self.mtime);
        push_be32(out, self.mtime_nsec);
        push_be32(out, self.dev);
        push_be32(out, self.ino);
        push_be32(out, self.mode.as_u32());
        push_be32(out, self.uid);
        push_be32(out, self.gid);
        push_be32(out, self.size);
        proof {
            assert(final(out)@ =~= old(out)@ + self.spec_encode());
        }
    }

    /// Decodes the 40 bytes at `at`.
    #[verifier::rlimit(50)]
    pub fn read(bytes: &[u8], at: usize) -> (r: Result<Metadata, InvalidMode>)
        requires
            at + 40 <= bytes@.len(),
        ensures
            match Metadata::spec_decode(bytes@.subrange(at as int, at + 40)) {
                Some(m) => r == Ok::<Metadata, InvalidMode>(m),
                None => r matches Err(_),
            },
    {
        let n = bytes.len();
        let ghost s = bytes@.subrange(at as int, at + 40);
        proof {
            assert(s.subrange(0, 4) =~= bytes@.subrange(at as int, at + 4));
            assert(s.subrange(4, 8) =~= bytes@.subrange(at + 4, at + 8));
            assert(s.subrange(8, 12) =~= bytes@.subrange(at + 8, at + 12));
            assert(s.subrange(12, 16) =~= bytes@.subrange(at + 12, at + 16));
            assert(s.subrange(16, 20) =~= bytes@.subrange(at + 16, at + 20));
            assert(s.subrange(20, 24) =~= bytes@.subrange(at + 20, at + 24));
            assert(s.subrange(24, 28) =~= bytes@.subrange(at + 24, at + 28));
            assert(s.subrange(28, 32) =~= bytes@.subrange(at + 28, at + 32));
            assert(s.subrange(32, 36) =~= bytes@.subrange(at + 32, at + 36));
            assert(s.subrange(36, 40) =~= bytes@.subrange(at + 36, at + 40));
        }
        let mode = match Mode::try_from_u32(read_be32(bytes, at + 24)) {
            Ok(mode) => mode,
            Err(invalid) => {
                return Err(invalid);
            },
        };
        Ok(
            Metadata {
                ctime: read_be32(bytes, at),
                ctime_nsec: read_be32(bytes, at + 4),
                mtime: read_be32(bytes, at + 8),
                mtime_nsec: read_be32(bytes, at + 12),
                dev: read_be32(bytes, at + 16),
                ino: read_be32(bytes, at + 20),
                mode,
                uid: read_be32(bytes, at + 28),
                gid: read_be32(bytes, at + 32),
                size: read_be32(bytes, at + 36),
            },
        )
    }
}

/// The stat codec is the identity on well-formed values.
#[verifier::rlimit(50)]
pub proof fn lemma_metadata_round_trip(m: Metadata)
    ensures
        Metadata::spec_encode(m).len() == 40,
        Metadata::spec_decode(Metadata::spec_encode(m)) == Some(m),
{
    let s = m.spec_encode();
    assert(s.len() == 40);
    assert(s.subrange(0, 4) =~= be32(m.ctime));
    assert(s.subrange(4, 8) =~= be32(m.ctime_nsec));
    assert(s.subrange(8, 12) =~= be32(m.mtime));
    assert(s.subrange(12, 16) =~= be32(m.mtime_nsec));
    assert(s.subrange(16, 20) =~= be32(m.dev));
    assert(s.subrange(20, 24) =~= be32(m.ino));
    assert(s.subrange(24, 28) =~= be32(m.mode.spec_u32()));
    assert(s.subrange(28, 32) =~= be32(m.uid));
    assert(s.subrange(32, 36) =~= be32(m.gid));
    assert(s.subrange(36, 40) =~= be32(m.size));
    lemma_be32_round_trip(m.ctime);
    lemma_be32_round_trip(m.ctime_nsec);
    lemma_be32_round_trip(m.mtime);
    lemma_be32_round_trip(m.mtime_nsec);
    lemma_be32_round_trip(m.dev);
    lemma_be32_round_trip(m.ino);
    lemma_be32_round_trip(m.mode.spec_u32());
    lemma_be32_round_trip(m.uid);
    lemma_be32_round_trip(m.gid);
    lemma_be32_round_trip(m.size);
}

} // verus!
