//! Commit objects: a root tree, an optional parent, the author identity
//! repeated as committer, and the message.

use vstd::prelude::*;

use crate::author::{ident_bytes, Author};
use crate::database::Storable;
use crate::hashing::is_hex_lower;

verus! {

/// The payload of a commit: ASCII header lines, a blank line, the message.
pub open spec fn commit_payload(
    parent: Option<Seq<u8>>,
    tree: Seq<u8>,
    ident: Seq<u8>,
    message: Seq<u8>,
) -> Seq<u8> {
    let tree_line = seq![116u8, 114u8, 101u8, 101u8, 32u8] + tree + seq![10u8];
    let parent_lines = match parent {
        Some(p) => seq![112u8, 97u8, 114u8, 101u8, 110u8, 116u8, 32u8] + p + seq![10u8],
        None => Seq::<u8>::empty(),
    };
    let author_line = seq![97u8, 117u8, 116u8, 104u8, 111u8, 114u8, 32u8] + ident + seq![10u8];
    let committer_line = seq![
        99u8,
        111u8,
        109u8,
        109u8,
        105u8,
        116u8,
        116u8,
        101u8,
        114u8,
        32u8,
    ] + ident + seq![10u8];
    tree_line + parent_lines + author_line + committer_line + seq![10u8] + message
}

/// A commit object, not yet stored.
pub struct Commit {
    oid: Option<Vec<u8>>,
    parent: Option<Vec<u8>>,
    tree: Vec<u8>,
    author: Author,
    message: Vec<u8>,
}

impl Commit {
    /// A commit of the given root tree, parent, author and message.
    pub fn new(parent: Option<Vec<u8>>, tree: Vec<u8>, author: Author, message: Vec<u8>) -> (r:
        Commit)
        ensures
            r.oid_spec() is None,
            r.parent_spec() == match parent {
                Some(p) => Some(p@),
                None => None::<Seq<u8>>,
            },
            r.tree_spec() == tree@,
            r.payload_spec() == commit_payload(
                r.parent_spec(),
                tree@,
                ident_bytes(
                    author.name@,
                    author.email@,
                    author.timestamp as int,
                    author.offset_seconds as int,
                ),
                message@,
            ),
            r.serial_ready() == author.wf(),
    {
        Commit { oid: None, parent, tree, author, message }
    }

    /// The parent commit's name, if any.
    pub closed spec fn parent_spec(&self) -> Option<Seq<u8>> {
        match self.parent {
            Some(p) => Some(p@),
            None => None,
        }
    }

    /// The root tree's name.
    pub closed spec fn tree_spec(&self) -> Seq<u8> {
        self.tree@
    }
}

impl Storable for Commit {
    closed spec fn oid_spec(&self) -> Option<Seq<u8>> {
        match self.oid {
            Some(v) => Some(v@),
            None => None,
        }
    }

    /// The type name `commit`.
    closed spec fn type_spec(&self) -> Seq<u8> {
        seq![99u8, 111u8, 109u8, 109u8, 105u8, 116u8]
    }

    closed spec fn payload_spec(&self) -> Seq<u8> {
        commit_payload(
            self.parent_spec(),
            self.tree@,
            ident_bytes(
                self.author.name@,
                self.author.email@,
                self.author.timestamp as int,
                self.author.offset_seconds as int,
            ),
            self.message@,
        )
    }

    closed spec fn serial_ready(&self) -> bool {
        self.author.wf()
    }

    closed spec fn same_except_oid(&self, other: &Self) -> bool {
        &&& self.parent_spec() == other.parent_spec()
        &&& self.tree@ == other.tree@
        &&& self.message@ == other.message@
        &&& self.author.name@ == other.author.name@
        &&& self.author.email@ == other.author.email@
        &&& self.author.timestamp == other.author.timestamp
        &&& self.author.offset_seconds == other.author.offset_seconds
    }

    fn oid(&self) -> (r: Option<&Vec<u8>>) {
        match &self.oid {
            Some(v) => Some(v),
            None => None,
        }
    }

    fn set_oid(&mut self, oid: Vec<u8>) {
        self.oid = Some(oid);
    }

    fn type_(&self) -> &'static str {
        "commit"
    }

    fn type_bytes(&self) -> (r: Vec<u8>) {
        let mut v: Vec<u8> = Vec::new();
        v.push(99);
        v.push(111);
        v.push(109);
        v.push(109);
        v.push(105);
        v.push(116);
        proof {
            assert(v@ =~= self.type_spec());
        }
        v
    }

    #[verifier::rlimit(100)]
    fn to_string(&self) -> (r: Vec<u8>) {
        let ident = self.author.to_string();
        let mut out: Vec<u8> = Vec::new();
        out.push(116);
        out.push(114);
        out.push(101);
        out.push(101);
        out.push(32);
        out.extend_from_slice(self.tree.as_slice());
        out.push(10);
        match &self.parent {
            Some(p) => {
                out.push(112);
                out.push(97);
                out.push(114);
                out.push(101);
                out.push(110);
                out.push(116);
                out.push(32);
                out.extend_from_slice(p.as_slice());
                out.push(10);
            },
            None => {},
        }
        out.push(97);
        out.push(117);
        out.push(116);
        out.push(104);
        out.push(111);
        out.push(114);
        out.push(32);
        out.extend_from_slice(ident.as_slice());
        out.push(10);
        out.push(99);
        out.push(111);
        out.push(109);
        out.push(109);
        out.push(105);
        out.push(116);
        out.push(116);
        out.push(101);
        out.push(114);
        out.push(32);
        out.extend_from_slice(ident.as_slice());
        out.push(10);
        out.push(10);
        out.extend_from_slice(self.message.as_slice());
        proof {
            assert(out@ =~= self.payload_spec());
        }
        out
    }
}

} // verus!
