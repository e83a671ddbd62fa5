//! The workspace: the directory whose files are staged.  The walk itself
//! is directory I/O and lives in the driver; the decisions it takes — what
//! to skip and how a file's path is made relative to the root — are here.

use vstd::prelude::*;

use crate::paths::in_dir;
use vstd::slice::{slice_subrange, slice_to_vec};

verus! {

/// The directory-entry name `.git`.
pub open spec fn git_dir_name() -> Seq<u8> {
    seq![46u8, 103u8, 105u8, 116u8]
}

/// The directory-entry name `target`.
pub open spec fn build_dir_name() -> Seq<u8> {
    seq![116u8, 97u8, 114u8, 103u8, 101u8, 116u8]
}

/// The workspace rooted at a directory.
pub struct Workspace {
    pathname: Vec<u8>,
}

impl Workspace {
    /// The workspace root.
    pub closed spec fn pathname_spec(&self) -> Seq<u8> {
        self.pathname@
    }

    /// A workspace rooted at `pathname`.
    pub fn new(pathname: Vec<u8>) -> (r: Workspace)
        ensures
            r.pathname_spec() == pathname@,
    {
        Workspace { pathname }
    }

    /// The workspace root.
    pub fn pathname(&self) -> (r: &Vec<u8>)
        ensures
            r@ == self.pathname_spec(),
    {
        &self.pathname
    }

    /// Whether a directory entry is left out of the listing: the repository
    /// itself and the build-artifact directory are.
    pub fn is_ignored(name: &Vec<u8>) -> (r: bool)
        ensures
            r == (name@ == git_dir_name() || name@ == build_dir_name()),
    {
        let mut git: Vec<u8> = Vec::new();
        git.push(46);
        git.push(103);
        git.push(105);
        git.push(116);
        let mut tgt: Vec<u8> = Vec::new();
        tgt.push(116);
        tgt.push(97);
        tgt.push(114);
        tgt.push(103);
        tgt.push(101);
        tgt.push(116);
        proof {
            assert(git@ =~= git_dir_name());
            assert(tgt@ =~= build_dir_name());
        }
        crate::paths::byte_vecs_equal(name, &git) || crate::paths::byte_vecs_equal(name, &tgt)
    }

    /// The path of a workspace file relative to `root`: the part after the
    /// root and its separator, or `None` when `path` does not lie below
    /// `root`.
    pub fn relativize(root: &Vec<u8>, path: &Vec<u8>) -> (r: Option<Vec<u8>>)
        ensures
            match r {
                Some(rest) => in_dir(root@, path@) && rest@ == path@.skip(root@.len() + 1 as int),
                None => !in_dir(root@, path@),
            },
    {
        if crate::paths::in_dir_exec(root, path) {
            let rl = root.len();
            let pl = path.len();
            let rest = slice_to_vec(slice_subrange(path.as_slice(), rl + 1, pl));
            proof {
                assert(rest@ =~= path@.skip(root@.len() + 1 as int));
            }
            Some(rest)
        } else {
            None
        }
    }
}

} // verus!
