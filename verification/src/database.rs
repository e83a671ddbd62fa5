//! The object database: frames an object's payload, names it by the SHA-1
//! of the framed bytes, and prepares the compressed, content-addressed file
//! write that the driver performs.

use vstd::prelude::*;

use rand::Rng;
use std::io::Write;

use crate::encoding::{dec_of, push_dec_u64};
use crate::hashing::{hash_bytes, hex_sha1_of, is_hex_lower};

verus! {

/// The zlib stream of a byte sequence at the fast compression level.
/// Named only: the stream is a pure function of the input bytes, computed
/// by the `flate2` crate.
pub uninterp spec fn zlib_fast_of(bytes: Seq<u8>) -> Seq<u8>;

/// Relies on `flate2::write::ZlibEncoder` with `Compression::fast`: the
/// stream is a deterministic function of the input bytes.
#[verifier::external_body]
fn zlib_compress(bytes: &Vec<u8>) -> (r: Vec<u8>)
    ensures
        r@ == zlib_fast_of(bytes@),
{
    let mut encoder = flate2::write::ZlibEncoder::new(Vec::new(), flate2::Compression::fast());
    encoder.write_all(bytes.as_slice()).expect("compression cannot fail on a Vec sink");
    encoder.finish().expect("compression cannot fail on a Vec sink")
}

/// Relies on `rand::Rng::gen_range` over `thread_rng`: a value below `n`.
#[verifier::external_body]
fn random_below(n: u32) -> (r: u32)
    requires
        n > 0,
    ensures
        r < n,
{
    rand::thread_rng().gen_range(0..n)
}

/// An object is framed as `<type> SP <payload-length-decimal> NUL
/// <payload>`; the frame is what is hashed and stored.
pub open spec fn frame_bytes(kind: Seq<u8>, payload: Seq<u8>) -> Seq<u8> {
    kind + seq![32u8] + dec_of(payload.len()) + seq![0u8] + payload
}

/// The 40-byte hexadecimal name of an object.
pub open spec fn oid_of(kind: Seq<u8>, payload: Seq<u8>) -> Seq<u8> {
    hex_sha1_of(frame_bytes(kind, payload))
}

/// The directory an object lives in: the database root plus the two-byte
/// fan-out taken from the front of the object's name.
pub open spec fn object_dir_of(root: Seq<u8>, oid: Seq<u8>) -> Seq<u8> {
    root + seq![47u8] + oid.take(2)
}

/// The path of an object file: fan-out directory, then the remaining 38
/// name bytes.
pub open spec fn object_path_of(root: Seq<u8>, oid: Seq<u8>) -> Seq<u8> {
    object_dir_of(root, oid) + seq![47u8] + oid.skip(2)
}

/// A temporary-file name `tmp_obj_` followed by six random alphanumeric
/// bytes.
pub open spec fn temp_name_wf(name: Seq<u8>) -> bool {
    &&& name.len() == 14
    &&& name.take(8) == seq![116u8, 109u8, 112u8, 95u8, 111u8, 98u8, 106u8, 95u8]
    &&& forall|i: int| 8 <= i < 14 ==> is_alnum(#[trigger] name[i])
}

/// ASCII letters and digits.
pub open spec fn is_alnum(c: u8) -> bool {
    (97 <= c <= 122) || (65 <= c <= 90) || (48 <= c <= 57)
}

/// Draws a fresh temporary-file name for an object write in progress.
pub fn generate_temp_name() -> (r: Vec<u8>)
    ensures
        temp_name_wf(r@),
{
    let mut name: Vec<u8> = Vec::new();
    name.push(116);
    name.push(109);
    name.push(112);
    name.push(95);
    name.push(111);
    name.push(98);
    name.push(106);
    name.push(95);
    proof {
        assert(name@.take(8) =~= seq![116u8, 109u8, 112u8, 95u8, 111u8, 98u8, 106u8, 95u8]);
    }
    let mut k: usize = 0;
    while k < 6
        invariant
            k <= 6,
            name@.len() == 8 + k,
            name@.take(8) == seq![116u8, 109u8, 112u8, 95u8, 111u8, 98u8, 106u8, 95u8],
            forall|i: int| 8 <= i < name@.len() ==> is_alnum(#[trigger] name@[i]),
        decreases 6 - k,
    {
        let idx = random_below(62);
        let c: u8 = if idx < 26 {
            97 + idx as u8
        } else if idx < 52 {
            (65 + (idx - 26)) as u8
        } else {
            (48 + (idx - 52)) as u8
        };
        name.push(c);
        proof {
            assert(name@.take(8) =~= name@.drop_last().take(8));
        }
        k = k + 1;
    }
    name
}

/// Anything the database can store: it has a type name, serializes to a
/// payload, and carries the name the database assigns.
pub trait Storable: Sized {
    /// The name assigned by the database, once stored.
    spec fn oid_spec(&self) -> Option<Seq<u8>>;

    /// The object's type name inside the frame.
    spec fn type_spec(&self) -> Seq<u8>;

    /// The object's payload bytes.
    spec fn payload_spec(&self) -> Seq<u8>;

    /// Whether the object is ready to serialize.
    spec fn serial_ready(&self) -> bool;

    /// Everything about the object other than its assigned name; assigning
    /// the name must leave this alone.
    spec fn same_except_oid(&self, other: &Self) -> bool;

    /// The assigned name, if any.
    fn oid(&self) -> (r: Option<&Vec<u8>>)
        ensures
            match r {
                Some(v) => self.oid_spec() == Some(v@),
                None => self.oid_spec() is None,
            },
    ;

    /// Assigns the name; everything else about the object is unchanged.
    fn set_oid(&mut self, oid: Vec<u8>)
        ensures
            final(self).oid_spec() == Some(oid@),
            final(self).type_spec() == old(self).type_spec(),
            final(self).payload_spec() == old(self).payload_spec(),
            final(self).serial_ready() == old(self).serial_ready(),
            final(self).same_except_oid(old(self)),
    ;

    /// The type name as text.
    fn type_(&self) -> &'static str;

    /// The type name as the bytes framed before the payload.
    fn type_bytes(&self) -> (r: Vec<u8>)
        ensures
            r@ == self.type_spec(),
    ;

    /// The payload bytes.
    fn to_string(&self) -> (r: Vec<u8>)
        requires
            self.serial_ready(),
        ensures
            r@ == self.payload_spec(),
    ;
}

/// One prepared object write: the driver creates `temp_path` exclusively
/// under `dirname`, streams `content` into it, and renames it to
/// `object_path` — unless `object_path` already exists, in which case the
/// write-once store needs nothing.
pub struct ObjectWrite {
    pub oid: Vec<u8>,
    pub dirname: Vec<u8>,
    pub object_path: Vec<u8>,
    pub temp_path: Vec<u8>,
    pub content: Vec<u8>,
}

/// The object database rooted at a directory.
pub struct Database {
    pathname: Vec<u8>,
}

impl Database {
    /// The database root directory.
    pub closed spec fn pathname_spec(&self) -> Seq<u8> {
        self.pathname@
    }

    /// A database rooted at `pathname`.
    pub fn new(pathname: Vec<u8>) -> (r: Database)
        ensures
            r.pathname_spec() == pathname@,
    {
        Database { pathname }
    }

    /// Serializes and frames `object`, names it by the SHA-1 of the framed
    /// bytes, records the name on the object, and returns the prepared
    /// compressed write.  Equal payloads of equal type always yield the
    /// same name, path and content.
    pub fn store<T: Storable>(&self, object: &mut T) -> (w: ObjectWrite)
        requires
            old(object).serial_ready(),
        ensures
            final(object).oid_spec() == Some(
                oid_of(old(object).type_spec(), old(object).payload_spec()),
            ),
            final(object).type_spec() == old(object).type_spec(),
            final(object).payload_spec() == old(object).payload_spec(),
            final(object).serial_ready(),
            final(object).same_except_oid(old(object)),
            w.oid@ == oid_of(old(object).type_spec(), old(object).payload_spec()),
            w.oid@.len() == 40,
            is_hex_lower(w.oid@),
            w.dirname@ == object_dir_of(self.pathname_spec(), w.oid@),
            w.object_path@ == object_path_of(self.pathname_spec(), w.oid@),
            w.content@ == zlib_fast_of(
                frame_bytes(old(object).type_spec(), old(object).payload_spec()),
            ),
            w.temp_path@.len() == w.dirname@.len() + 15,
            w.temp_path@.take(w.dirname@.len() as int) == w.dirname@,
            w.temp_path@[w.dirname@.len() as int] == 47,
            temp_name_wf(w.temp_path@.skip(w.dirname@.len() + 1 as int)),
    {
        let mut payload = object.to_string();
        let mut content = object.type_bytes();
        content.push(32);
        push_dec_u64(&mut content, payload.len() as u64);
        content.push(0);
        content.append(&mut payload);
        proof {
            assert(content@ =~= frame_bytes(old(object).type_spec(), old(object).payload_spec()));
        }
        let oid = hash_bytes(&content);
        object.set_oid(oid.clone());
        let compressed = zlib_compress(&content);

        let mut dirname = self.pathname.clone();
        dirname.push(47);
        dirname.push(oid[0]);
        dirname.push(oid[1]);
        proof {
            assert(dirname@ =~= object_dir_of(self.pathname_spec(), oid@)) by {
                assert(oid@.take(2) =~= seq![oid@[0], oid@[1]]);
            }
        }

        let mut object_path = dirname.clone();
        object_path.push(47);
        let mut i: usize = 2;
        while i < oid.len()
            invariant
                2 <= i <= oid@.len(),
                oid@.len() == 40,
                object_path@ == dirname@ + seq![47u8] + oid@.subrange(2, i as int),
            decreases oid@.len() - i,
        {
            object_path.push(oid[i]);
            i = i + 1;
            proof {
                assert(object_path@ =~= dirname@ + seq![47u8] + oid@.subrange(2, i as int));
            }
        }
        proof {
            assert(oid@.subrange(2, 40) =~= oid@.skip(2));
        }

        let mut temp_path = dirname.clone();
        temp_path.push(47);
        let mut temp_name = generate_temp_name();
        let ghost tn = temp_name@;
        temp_path.append(&mut temp_name);
        proof {
            assert(temp_path@.take(dirname@.len() as int) =~= dirname@);
            assert(temp_path@.skip(dirname@.len() + 1 as int) =~= tn);
        }
        ObjectWrite { oid, dirname, object_path, temp_path, content: compressed }
    }
}

/// Content-addressed determinism: the name, the final path and the stored
/// bytes are functions of the object's type and payload alone, so two
/// stores of equal content collide on a byte-identical file, whatever
/// temporary names they drew.
pub proof fn lemma_store_deterministic(root: Seq<u8>, t: Seq<u8>, p1: Seq<u8>, p2: Seq<u8>)
    requires
        p1 == p2,
    ensures
        oid_of(t, p1) == oid_of(t, p2),
        object_path_of(root, oid_of(t, p1)) == object_path_of(root, oid_of(t, p2)),
        zlib_fast_of(frame_bytes(t, p1)) == zlib_fast_of(frame_bytes(t, p2)),
{
}

} // verus!
