//! One staged entry of the index: fixed 62-byte big-endian header, the
//! NUL-terminated path, and NUL padding to an 8-byte multiple.

use vstd::prelude::*;

use crate::encoding::{
    be2, be4, from_be2, from_be4, lemma_be2_roundtrip, lemma_be4_roundtrip,
    lemma_trim_zeros_padded, push_be2, push_be4, trim_zeros, zeros,
};
use crate::hashing::{
    hex_decode, hex_of, is_hex_lower, lemma_hex_unhex, lemma_unhex_hex, unhex_of,
};

verus! {

/// Mode of a subtree inside a tree object.
pub const TREE_MODE: u32 = 0o40000;

/// Mode of a regular staged file.
pub const REGULAR_MODE: u32 = 0o100644;

/// Mode of an executable staged file.
pub const EXECUTABLE_MODE: u32 = 0o100755;

/// Largest path length representable in the entry flags.
pub const MAX_PATH_SIZE: u16 = 0xfff;

/// Entry records are padded to a multiple of this many bytes.
pub const ENTRY_BLOCK: usize = 8;

/// The size of the fixed entry header.
pub const ENTRY_HEADER_SIZE: usize = 62;

/// The file metadata captured in an entry header, as plain 32-bit values.
/// The driver truncates the platform's stat results into this shape.
#[derive(Clone, Copy, PartialEq, Eq, Structural, Debug)]
pub struct FileStat {
    pub ctime: u32,
    pub ctime_nsec: u32,
    pub mtime: u32,
    pub mtime_nsec: u32,
    pub dev: u32,
    pub ino: u32,
    pub mode: u32,
    pub uid: u32,
    pub gid: u32,
    pub size: u32,
}

/// A staged index entry.  The object id is held as its 40-byte lowercase
/// hexadecimal name; the path is raw bytes.
#[derive(Clone, Debug)]
pub struct Entry {
    pub ctime: u32,
    pub ctime_nsec: u32,
    pub mtime: u32,
    pub mtime_nsec: u32,
    pub dev: u32,
    pub ino: u32,
    pub mode: u32,
    pub uid: u32,
    pub gid: u32,
    pub size: u32,
    pub oid: Vec<u8>,
    pub flags: u16,
    pub path: Vec<u8>,
}

/// The mathematical value of an entry.
pub struct EntryV {
    pub ctime: u32,
    pub ctime_nsec: u32,
    pub mtime: u32,
    pub mtime_nsec: u32,
    pub dev: u32,
    pub ino: u32,
    pub mode: u32,
    pub uid: u32,
    pub gid: u32,
    pub size: u32,
    pub oid: Seq<u8>,
    pub flags: u16,
    pub path: Seq<u8>,
}

impl View for Entry {
    type V = EntryV;

    open spec fn view(&self) -> EntryV {
        EntryV {
            ctime: self.ctime,
            ctime_nsec: self.ctime_nsec,
            mtime: self.mtime,
            mtime_nsec: self.mtime_nsec,
            dev: self.dev,
            ino: self.ino,
            mode: self.mode,
            uid: self.uid,
            gid: self.gid,
            size: self.size,
            oid: self.oid@,
            flags: self.flags,
            path: self.path@,
        }
    }
}

/// A well-formed entry: a non-empty, NUL-free path and a 40-byte lowercase
/// hexadecimal object id.
pub open spec fn entry_wf(e: EntryV) -> bool {
    &&& e.path.len() > 0
    &&& forall|i: int| 0 <= i < e.path.len() ==> e.path[i] != 0
    &&& e.oid.len() == 40
    &&& is_hex_lower(e.oid)
}

/// The flags field an entry is built with: the path's byte length, capped
/// at `MAX_PATH_SIZE`.
pub open spec fn flags_of(path_len: nat) -> u16 {
    if path_len < 0xfff {
        path_len as u16
    } else {
        0xfff
    }
}

/// The fixed 62-byte header of an entry record.
pub open spec fn entry_header(e: EntryV) -> Seq<u8> {
    be4(e.ctime) + be4(e.ctime_nsec) + be4(e.mtime) + be4(e.mtime_nsec) + be4(e.dev) + be4(e.ino)
        + be4(e.mode) + be4(e.uid) + be4(e.gid) + be4(e.size) + unhex_of(e.oid) + be2(e.flags)
}

/// The length of the serialized record for a path of `path_len` bytes: the
/// smallest multiple of 8 that leaves room for the header, the path and at
/// least one terminating NUL.
pub open spec fn record_len(path_len: nat) -> nat {
    ((62 + path_len) / 8) * 8 + 8
}

/// The serialized record of an entry: header, path, NUL padding.
pub open spec fn entry_record(e: EntryV) -> Seq<u8> {
    entry_header(e) + e.path + zeros((record_len(e.path.len()) - 62 - e.path.len()) as nat)
}

/// The entry read back from a serialized record: big-endian header fields,
/// the hexadecimal name of the raw 20-byte object id, and the path with
/// NUL padding trimmed.
pub open spec fn entry_of_record(rec: Seq<u8>) -> EntryV {
    EntryV {
        ctime: from_be4(rec.subrange(0, 4)),
        ctime_nsec: from_be4(rec.subrange(4, 8)),
        mtime: from_be4(rec.subrange(8, 12)),
        mtime_nsec: from_be4(rec.subrange(12, 16)),
        dev: from_be4(rec.subrange(16, 20)),
        ino: from_be4(rec.subrange(20, 24)),
        mode: from_be4(rec.subrange(24, 28)),
        uid: from_be4(rec.subrange(28, 32)),
        gid: from_be4(rec.subrange(32, 36)),
        size: from_be4(rec.subrange(36, 40)),
        oid: hex_of(rec.subrange(40, 60)),
        flags: from_be2(rec.subrange(60, 62)),
        path: trim_zeros(rec.skip(62)),
    }
}

/// Parsing inverts serialization on well-formed entries.
pub proof fn lemma_entry_record_roundtrip(e: EntryV)
    requires
        entry_wf(e),
    ensures
        entry_record(e).len() == record_len(e.path.len()),
        entry_record(e).len() % 8 == 0,
        entry_record(e).len() >= 64,
        entry_of_record(entry_record(e)) == e,
{
    let rec = entry_record(e);
    let plen = e.path.len();
    let pad = (record_len(plen) - 62 - plen) as nat;
    lemma_unhex_hex(e.oid);
    assert(unhex_of(e.oid).len() == 20);
    assert(entry_header(e).len() == 62);
    assert((62 + plen) / 8 * 8 + 8 > 62 + plen) by (nonlinear_arith);
    assert(rec.len() == record_len(plen));
    assert(record_len(plen) % 8 == 0) by (nonlinear_arith);
    let r = entry_of_record(rec);
    assert(rec.subrange(0, 4) =~= be4(e.ctime));
    assert(rec.subrange(4, 8) =~= be4(e.ctime_nsec));
    assert(rec.subrange(8, 12) =~= be4(e.mtime));
    assert(rec.subrange(12, 16) =~= be4(e.mtime_nsec));
    assert(rec.subrange(16, 20) =~= be4(e.dev));
    assert(rec.subrange(20, 24) =~= be4(e.ino));
    assert(rec.subrange(24, 28) =~= be4(e.mode));
    assert(rec.subrange(28, 32) =~= be4(e.uid));
    assert(rec.subrange(32, 36) =~= be4(e.gid));
    assert(rec.subrange(36, 40) =~= be4(e.size));
    assert(rec.subrange(40, 60) =~= unhex_of(e.oid));
    assert(rec.subrange(60, 62) =~= be2(e.flags));
    assert(rec.skip(62) =~= e.path + zeros(pad));
    lemma_be4_roundtrip(e.ctime);
    lemma_be4_roundtrip(e.ctime_nsec);
    lemma_be4_roundtrip(e.mtime);
    lemma_be4_roundtrip(e.mtime_nsec);
    lemma_be4_roundtrip(e.dev);
    lemma_be4_roundtrip(e.ino);
    lemma_be4_roundtrip(e.mode);
    lemma_be4_roundtrip(e.uid);
    lemma_be4_roundtrip(e.gid);
    lemma_be4_roundtrip(e.size);
    lemma_be2_roundtrip(e.flags);
    lemma_hex_unhex(e.oid);
    lemma_trim_zeros_padded(e.path, pad);
}

impl Entry {
    /// Builds the entry staged for `pathname` with object id `oid` and the
    /// captured file metadata.  The mode is normalized: executable files
    /// keep `EXECUTABLE_MODE`, everything else becomes `REGULAR_MODE`.
    pub fn new(pathname: Vec<u8>, oid: &Vec<u8>, stat: FileStat) -> (r: Entry)
        ensures
            r@.path == pathname@,
            r@.oid == oid@,
            r@.mode == if stat.mode == EXECUTABLE_MODE {
                EXECUTABLE_MODE
            } else {
                REGULAR_MODE
            },
            r@.flags == flags_of(pathname@.len()),
            r@.ctime == stat.ctime && r@.ctime_nsec == stat.ctime_nsec,
            r@.mtime == stat.mtime && r@.mtime_nsec == stat.mtime_nsec,
            r@.dev == stat.dev && r@.ino == stat.ino,
            r@.uid == stat.uid && r@.gid == stat.gid && r@.size == stat.size,
    {
        let mode: u32 = if stat.mode == EXECUTABLE_MODE {
            EXECUTABLE_MODE
        } else {
            REGULAR_MODE
        };
        let flags: u16 = if pathname.len() < 0xfff {
            pathname.len() as u16
        } else {
            MAX_PATH_SIZE
        };
        Entry {
            ctime: stat.ctime,
            ctime_nsec: stat.ctime_nsec,
            mtime: stat.mtime,
            mtime_nsec: stat.mtime_nsec,
            dev: stat.dev,
            ino: stat.ino,
            mode,
            uid: stat.uid,
            gid: stat.gid,
            size: stat.size,
            oid: oid.clone(),
            flags,
            path: pathname,
        }
    }

    /// Reads an entry back from one serialized record.
    pub fn from(entry: Vec<u8>) -> (r: Entry)
        requires
            entry@.len() >= 62,
        ensures
            r@ == entry_of_record(entry@),
    {
        let ctime = crate::encoding::read_be4(&entry, 0);
        let ctime_nsec = crate::encoding::read_be4(&entry, 4);
        let mtime = crate::encoding::read_be4(&entry, 8);
        let mtime_nsec = crate::encoding::read_be4(&entry, 12);
        let dev = crate::encoding::read_be4(&entry, 16);
        let ino = crate::encoding::read_be4(&entry, 20);
        let mode = crate::encoding::read_be4(&entry, 24);
        let uid = crate::encoding::read_be4(&entry, 28);
        let gid = crate::encoding::read_be4(&entry, 32);
        let size = crate::encoding::read_be4(&entry, 36);
        let mut raw_oid: Vec<u8> = Vec::new();
        let mut i: usize = 40;
        while i < 60
            invariant
                40 <= i <= 60,
                entry@.len() >= 62,
                raw_oid@ =~= entry@.subrange(40, i as int),
            decreases 60 - i,
        {
            raw_oid.push(entry[i]);
            i = i + 1;
            proof {
                assert(raw_oid@ =~= entry@.subrange(40, i as int));
            }
        }
        let oid = crate::hashing::hex_encode(&raw_oid);
        let flags = crate::encoding::read_be2(&entry, 60);

        // the path: bytes after the header with NUL padding trimmed
        let n = entry.len();
        let mut start: usize = 62;
        let mut end: usize = n;
        proof {
            assert(entry@.skip(62) =~= entry@.subrange(62, n as int));
        }
        while end > start && entry[end - 1] == 0
            invariant
                62 <= start <= end <= n,
                n == entry@.len(),
                trim_zeros(entry@.skip(62)) == trim_zeros(entry@.subrange(62, end as int)),
            decreases end,
        {
            proof {
                let s = entry@.subrange(62, end as int);
                assert(s.last() == 0);
                assert(s.drop_last() =~= entry@.subrange(62, end - 1));
            }
            end = end - 1;
        }
        proof {
            let s = entry@.subrange(62, end as int);
            assert(crate::encoding::trim_end_zeros(s) == s);
        }
        while start < end && entry[start] == 0
            invariant
                62 <= start <= end <= n,
                n == entry@.len(),
                crate::encoding::trim_end_zeros(entry@.subrange(62, end as int))
                    == entry@.subrange(62, end as int),
                trim_zeros(entry@.skip(62)) == trim_zeros(entry@.subrange(start as int, end as int)),
                crate::encoding::trim_end_zeros(entry@.subrange(start as int, end as int))
                    == entry@.subrange(start as int, end as int),
            decreases end - start,
        {
            proof {
                let s = entry@.subrange(start as int, end as int);
                let t = entry@.subrange(start + 1, end as int);
                assert(s[0] == 0);
                assert(s.skip(1) =~= t);
                // s does not end in NUL (it is its own end-trim), so neither does t
                if t.len() > 0 && t.last() == 0 {
                    assert(s.last() == 0);
                    crate::encoding::lemma_trim_end_len(s.drop_last());
                }
            }
            start = start + 1;
        }
        let mut path: Vec<u8> = Vec::new();
        let mut j: usize = start;
        while j < end
            invariant
                start <= j <= end <= n,
                n == entry@.len(),
                path@ =~= entry@.subrange(start as int, j as int),
            decreases end - j,
        {
            path.push(entry[j]);
            j = j + 1;
            proof {
                assert(path@ =~= entry@.subrange(start as int, j as int));
            }
        }
        proof {
            let s = entry@.subrange(start as int, end as int);
            assert(trim_zeros(s) == s);
            assert(path@ =~= s);
        }
        Entry {
            ctime,
            ctime_nsec,
            mtime,
            mtime_nsec,
            dev,
            ino,
            mode,
            uid,
            gid,
            size,
            oid,
            flags,
            path,
        }
    }

    /// An entry with the same value.
    pub fn duplicate(&self) -> (r: Entry)
        ensures
            r@ == self@,
    {
        Entry {
            ctime: self.ctime,
            ctime_nsec: self.ctime_nsec,
            mtime: self.mtime,
            mtime_nsec: self.mtime_nsec,
            dev: self.dev,
            ino: self.ino,
            mode: self.mode,
            uid: self.uid,
            gid: self.gid,
            size: self.size,
            oid: self.oid.clone(),
            flags: self.flags,
            path: self.path.clone(),
        }
    }

    /// The final component of the staged path.
    pub fn basename(&self) -> (r: Vec<u8>)
        ensures
            r@ == crate::paths::basename_of(self@.path),
    {
        let mut comps = crate::paths::split_components(&self.path);
        let ghost full = comps@.map_values(|c: Vec<u8>| c@);
        match comps.pop() {
            Some(last) => {
                proof {
                    assert(last@ == full.last());
                }
                last
            },
            None => {
                proof {
                    assert(false);
                }
                Vec::new()
            },
        }
    }

    /// The directory components of the staged path, outermost first.
    pub fn parent_directories(&self) -> (r: Vec<Vec<u8>>)
        ensures
            r@.map_values(|c: Vec<u8>| c@) == crate::paths::parent_components_of(self@.path),
    {
        let mut comps = crate::paths::split_components(&self.path);
        let ghost full = comps@.map_values(|c: Vec<u8>| c@);
        let _last = comps.pop();
        proof {
            assert(comps@.map_values(|c: Vec<u8>| c@) =~= full.drop_last());
        }
        comps
    }

    /// The staged path.
    pub fn path(&self) -> (r: &Vec<u8>)
        ensures
            r@ == self@.path,
    {
        &self.path
    }

    /// The serialized record of this entry.
    pub fn to_string(&self) -> (r: Vec<u8>)
        requires
            entry_wf(self@),
        ensures
            r@ == entry_record(self@),
    {
        let mut out: Vec<u8> = Vec::new();
        push_be4(&mut out, self.ctime);
        push_be4(&mut out, self.ctime_nsec);
        push_be4(&mut out, self.mtime);
        push_be4(&mut out, self.mtime_nsec);
        push_be4(&mut out, self.dev);
        push_be4(&mut out, self.ino);
        push_be4(&mut out, self.mode);
        push_be4(&mut out, self.uid);
        push_be4(&mut out, self.gid);
        push_be4(&mut out, self.size);
        let mut raw_oid = match hex_decode(&self.oid) {
            Some(raw) => raw,
            None => {
                proof {
                    assert(false);
                }
                Vec::new()
            },
        };
        out.append(&mut raw_oid);
        push_be2(&mut out, self.flags);
        out.extend_from_slice(self.path.as_slice());
        proof {
            assert(unhex_of(self@.oid).len() == 20);
            assert(out@ =~= entry_header(self@) + self@.path);
        }
        out.push(0);
        let ghost plen = self@.path.len();
        let ghost target = record_len(plen);
        proof {
            assert((62 + plen) / 8 * 8 + 8 > 62 + plen) by (nonlinear_arith);
            assert((62 + plen) / 8 * 8 + 8 <= 62 + plen + 8) by (nonlinear_arith);
            assert(record_len(plen) % 8 == 0) by (nonlinear_arith);
            assert(out@ =~= entry_header(self@) + self@.path + zeros(1));
        }
        while out.len() % ENTRY_BLOCK != 0
            invariant
                entry_wf(self@),
                out@.len() > 62 + plen,
                out@.len() <= target,
                out@ =~= entry_header(self@) + self@.path + zeros(
                    (out@.len() - 62 - plen) as nat,
                ),
                target % 8 == 0,
                target > 62 + plen,
                target <= 62 + plen + 8,
                target == record_len(plen),
            decreases target - out@.len(),
        {
            proof {
                // below the target, so pushing one more NUL stays within it
                assert(out@.len() < target) by {
                    if out@.len() == target {
                        assert(target % 8 == 0);
                    }
                }
            }
            out.push(0);
            proof {
                assert(out@ =~= entry_header(self@) + self@.path + zeros(
                    (out@.len() - 62 - plen) as nat,
                ));
            }
        }
        proof {
            // a multiple of 8 in (62 + plen, 62 + plen + 8] is record_len
            assert(out@.len() == target) by (nonlinear_arith)
                requires
                    out@.len() % 8 == 0,
                    62 + plen < out@.len() <= target,
                    target % 8 == 0,
                    target <= 62 + plen + 8,
            ;
        }
        out
    }
}

} // verus!
