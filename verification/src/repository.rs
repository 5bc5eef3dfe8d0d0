//! The repository handle: the work-tree root and the derived paths of the
//! stores under `.git`.

use crate::bytes::{push_all, subvec};
use crate::database::Database;
use crate::references::References;
use crate::workspace::Workspace;
use vstd::prelude::*;

verus! {

/// `"/.git/"`.
pub open spec fn lit_git_dir() -> Seq<u8> {
    seq![47u8, 46u8, 103u8, 105u8, 116u8, 47u8]
}

/// A repository rooted at a work-tree directory.
pub struct Repository {
    pub root: Vec<u8>,
}

impl Repository {
    /// A repository at `root`.
    pub fn new(root: Vec<u8>) -> (r: Repository)
        ensures
            r.root@ == root@,
    {
        Repository { root }
    }

    /// The work-tree root path.
    pub fn root(&self) -> (r: &Vec<u8>)
        ensures
            r == self.root,
    {
        &self.root
    }

    /// The path of a file directly under `.git`.
    fn git_path(&self, name: &[u8]) -> (r: Vec<u8>)
        ensures
            r@ == self.root@ + lit_git_dir() + name@,
    {
        let mut path = subvec(self.root.as_slice(), 0, self.root.len());
        proof {
            assert(self.root@.subrange(0, self.root@.len() as int) =~= self.root@);
        }
        path.push(47);
        path.push(46);
        path.push(103);
        path.push(105);
        path.push(116);
        path.push(47);
        push_all(&mut path, name);
        proof {
            assert(path@ =~= self.root@ + lit_git_dir() + name@);
        }
        path
    }

    /// The object store under `.git/objects`.
    pub fn database(&self) -> (r: Database)
        ensures
            r@ == self.root@ + lit_git_dir() + seq![
                111u8,
                98u8,
                106u8,
                101u8,
                99u8,
                116u8,
                115u8,
            ],
    {
        let mut name: Vec<u8> = Vec::new();
        name.push(111);
        name.push(98);
        name.push(106);
        name.push(101);
        name.push(99);
        name.push(116);
        name.push(115);
        proof {
            assert(name@ =~= seq![111u8, 98u8, 106u8, 101u8, 99u8, 116u8, 115u8]);
        }
        Database::new(self.git_path(name.as_slice()))
    }

    /// The path of the index file, `.git/index`.
    pub fn index_path(&self) -> (r: Vec<u8>)
        ensures
            r@ == self.root@ + lit_git_dir() + seq![105u8, 110u8, 100u8, 101u8, 120u8],
    {
        let mut name: Vec<u8> = Vec::new();
        name.push(105);
        name.push(110);
        name.push(100);
        name.push(101);
        name.push(120);
        proof {
            assert(name@ =~= seq![105u8, 110u8, 100u8, 101u8, 120u8]);
        }
        self.git_path(name.as_slice())
    }

    /// The reference store: `.git/refs` and `.git/HEAD`.
    pub fn references(&self) -> (r: References)
        ensures
            r.root@ == self.root@ + lit_git_dir() + seq![114u8, 101u8, 102u8, 115u8],
            r.head@ == self.root@ + lit_git_dir() + seq![72u8, 69u8, 65u8, 68u8],
    {
        let mut refs: Vec<u8> = Vec::new();
        refs.push(114);
        refs.push(101);
        refs.push(102);
        refs.push(115);
        let mut head: Vec<u8> = Vec::new();
        head.push(72);
        head.push(69);
        head.push(65);
        head.push(68);
        proof {
            assert(refs@ =~= seq![114u8, 101u8, 102u8, 115u8]);
            assert(head@ =~= seq![72u8, 69u8, 65u8, 68u8]);
        }
        let root = self.git_path(refs.as_slice());
        let head_path = self.git_path(head.as_slice());
        References::new(root, head_path)
    }

    /// The work tree at the repository root.
    pub fn workspace(&self) -> (r: Workspace)
        ensures
            r.root@ == self.root@,
    {
        let root = subvec(self.root.as_slice(), 0, self.root.len());
        proof {
            assert(self.root@.subrange(0, self.root@.len() as int) =~= self.root@);
        }
        Workspace::new(root)
    }
}

} // verus!
