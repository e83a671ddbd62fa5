//! Blob objects: the raw contents of a workspace file.

use vstd::prelude::*;

use crate::database::Storable;
use vstd::string::StrSliceExecFns;

verus! {

/// A blob holds file contents; its payload is the UTF-8 bytes of the text
/// it was created from.
pub struct Blob {
    oid: Option<Vec<u8>>,
    data: Vec<u8>,
}

impl Blob {
    /// A blob of the given file contents, not yet stored.
    pub fn new(data: String) -> (r: Blob)
        ensures
            r.oid_spec() is None,
            r.payload_spec() == vstd::utf8::encode_utf8(data@),
    {
        let bytes = data.as_str().as_bytes_vec();
        Blob { oid: None, data: bytes }
    }

    /// A blob of the given raw bytes, not yet stored.
    pub fn from_bytes(data: Vec<u8>) -> (r: Blob)
        ensures
            r.oid_spec() is None,
            r.payload_spec() == data@,
    {
        Blob { oid: None, data }
    }
}

impl Storable for Blob {
    closed spec fn oid_spec(&self) -> Option<Seq<u8>> {
        match self.oid {
            Some(v) => Some(v@),
            None => None,
        }
    }

    /// The type name `blob`.
    closed spec fn type_spec(&self) -> Seq<u8> {
        seq![98u8, 108u8, 111u8, 98u8]
    }

    closed spec fn payload_spec(&self) -> Seq<u8> {
        self.data@
    }

    closed spec fn serial_ready(&self) -> bool {
        true
    }

    closed spec fn same_except_oid(&self, other: &Self) -> bool {
        self.data@ == other.data@
    }

    fn oid(&self) -> (r: Option<&Vec<u8>>) {
        match &self.oid {
            Some(v) => Some(v),
            None => None,
        }
    }

    fn set_oid(&mut self, oid: Vec<u8>) {
        self.oid = Some(oid);
    }

    fn type_(&self) -> &'static str {
        "blob"
    }

    fn type_bytes(&self) -> (r: Vec<u8>) {
        let mut v: Vec<u8> = Vec::new();
        v.push(98);
        v.push(108);
        v.push(111);
        v.push(98);
        proof {
            assert(v@ =~= self.type_spec());
        }
        v
    }

    fn to_string(&self) -> (r: Vec<u8>) {
        let r = vstd::slice::slice_to_vec(self.data.as_slice());
        r
    }
}

} // verus!
