//! The staging index: a sorted set of entries, the conflict-discard rules
//! that keep a path and its ancestor directories from coexisting, and the
//! checksummed binary file format.

use vstd::prelude::*;

use crate::encoding::{be4, from_be4, lemma_lex_connected, lemma_lex_trans, lex_less, lex_lt};
use crate::hashing::{sha1_digest, sha1_of};
use crate::index_entry::{entry_of_record, entry_record, entry_wf, lemma_entry_record_roundtrip, Entry, EntryV, FileStat};
use crate::lockfile::{LockAttempt, Lockfile, StaleLock};
use crate::paths::{in_dir, paths_conflict, paths_conflict_exec, byte_vecs_equal};
use vstd::slice::{slice_subrange, slice_to_vec};

verus! {

// ---------------------------------------------------------------------------
// The mathematical model of the entry list
// ---------------------------------------------------------------------------

/// The values of a list of entries.
pub open spec fn views_of(s: Seq<Entry>) -> Seq<EntryV> {
    s.map_values(|e: Entry| e@)
}

/// Paths strictly ascend in byte-lexicographic order.
pub open spec fn sorted_strict(s: Seq<EntryV>) -> bool {
    forall|i: int, j: int| 0 <= i < j < s.len() ==> lex_lt(#[trigger] s[i].path, #[trigger] s[j].path)
}

/// No entry path lies strictly below another entry's path.
pub open spec fn cohab_free(s: Seq<EntryV>) -> bool {
    forall|i: int, j: int|
        0 <= i < s.len() && 0 <= j < s.len() && i != j ==> !in_dir(
            #[trigger] s[i].path,
            #[trigger] s[j].path,
        )
}

/// Whether some entry stages path `p`.
pub open spec fn contains_path(s: Seq<EntryV>, p: Seq<u8>) -> bool {
    exists|i: int| 0 <= i < s.len() && #[trigger] s[i].path == p
}

/// Strictly sorted entries have pairwise distinct paths.
pub proof fn lemma_sorted_unique(s: Seq<EntryV>)
    requires
        sorted_strict(s),
    ensures
        forall|i: int, j: int|
            0 <= i < s.len() && 0 <= j < s.len() && i != j ==> #[trigger] s[i].path
                != #[trigger] s[j].path,
{
    assert forall|i: int, j: int|
        0 <= i < s.len() && 0 <= j < s.len() && i != j implies #[trigger] s[i].path
        != #[trigger] s[j].path by {
        if i < j {
            lemma_lex_connected(s[i].path, s[j].path);
        } else {
            lemma_lex_connected(s[j].path, s[i].path);
        }
    }
}

// ---------------------------------------------------------------------------
// Conflict discard
// ---------------------------------------------------------------------------

/// The entries of `s` that survive staging a new entry at path `p`: those
/// whose paths do not conflict with `p`.
pub open spec fn discard(s: Seq<EntryV>, p: Seq<u8>) -> Seq<EntryV>
    decreases s.len(),
{
    if s.len() == 0 {
        s
    } else if paths_conflict(p, s.last().path) {
        discard(s.drop_last(), p)
    } else {
        discard(s.drop_last(), p) + seq![s.last()]
    }
}

/// What survives the discard: exactly the non-conflicting entries, in their
/// original order.
pub proof fn lemma_discard(s: Seq<EntryV>, p: Seq<u8>)
    ensures
        forall|x: EntryV| #[trigger] discard(s, p).contains(x) ==> s.contains(x)
            && !paths_conflict(p, x.path),
        forall|x: EntryV| #[trigger] s.contains(x) && !paths_conflict(p, x.path) ==> discard(
            s,
            p,
        ).contains(x),
        sorted_strict(s) ==> sorted_strict(discard(s, p)),
        !contains_path(discard(s, p), p),
    decreases s.len(),
{
    let d = discard(s, p);
    if s.len() == 0 {
    } else {
        let butlast = s.drop_last();
        lemma_discard(butlast, p);
        assert(forall|x: EntryV| #[trigger] butlast.contains(x) ==> s.contains(x));
        assert forall|x: EntryV| #[trigger] s.contains(x) && !paths_conflict(p, x.path)
            implies d.contains(x) by {
            if x == s.last() {
                assert(d.last() == x);
                assert(d.contains(x));
            } else {
                let i = choose|i: int| 0 <= i < s.len() && s[i] == x;
                assert(butlast[i] == x);
                assert(butlast.contains(x));
                let db = discard(butlast, p);
                assert(db.contains(x));
                let k = choose|k: int| 0 <= k < db.len() && db[k] == x;
                if paths_conflict(p, s.last().path) {
                    assert(d[k] == x);
                } else {
                    assert(d[k] == x);
                }
                assert(d.contains(x));
            }
        }
        assert forall|x: EntryV| #[trigger] d.contains(x) implies s.contains(x)
            && !paths_conflict(p, x.path) by {
            if !paths_conflict(p, s.last().path) {
                let i = choose|i: int| 0 <= i < d.len() && d[i] == x;
                if i < d.len() - 1 {
                    assert(discard(butlast, p)[i] == x);
                    assert(discard(butlast, p).contains(x));
                } else {
                    assert(x == s.last());
                }
            }
        }
        if sorted_strict(s) {
            assert(sorted_strict(butlast));
            let db = discard(butlast, p);
            if !paths_conflict(p, s.last().path) {
                assert forall|i: int, j: int| 0 <= i < j < d.len() implies lex_lt(
                    #[trigger] d[i].path,
                    #[trigger] d[j].path,
                ) by {
                    if j < d.len() - 1 {
                        assert(d[i] == db[i] && d[j] == db[j]);
                    } else {
                        assert(d[i] == db[i]);
                        assert(db.contains(db[i]));
                        let k = choose|k: int| 0 <= k < butlast.len() && butlast[k] == db[i];
                        assert(s[k] == db[i]);
                        assert(lex_lt(s[k].path, s.last().path));
                        assert(d[j] == s.last());
                    }
                }
            }
        }
        // p itself always conflicts with p
        if contains_path(d, p) {
            let i = choose|i: int| 0 <= i < d.len() && d[i].path == p;
            assert(d.contains(d[i]));
        }
    }
}

// ---------------------------------------------------------------------------
// Sorted insertion
// ---------------------------------------------------------------------------

/// `s` with `e` inserted at its sorted position; an entry already staging
/// the same path is replaced.
pub open spec fn insert_sorted(s: Seq<EntryV>, e: EntryV) -> Seq<EntryV>
    decreases s.len(),
{
    if s.len() == 0 {
        seq![e]
    } else if lex_lt(s[0].path, e.path) {
        seq![s[0]] + insert_sorted(s.skip(1), e)
    } else if s[0].path == e.path {
        seq![e] + s.skip(1)
    } else {
        seq![e] + s
    }
}

/// Where the insertion lands: at the first position whose path does not
/// sort before the new entry's.
pub proof fn lemma_insert_sorted_position(s: Seq<EntryV>, e: EntryV, pos: int)
    requires
        0 <= pos <= s.len(),
        forall|k: int| 0 <= k < pos ==> lex_lt(#[trigger] s[k].path, e.path),
        pos < s.len() ==> !lex_lt(s[pos].path, e.path),
    ensures
        pos < s.len() && s[pos].path == e.path ==> insert_sorted(s, e) == s.update(pos, e),
        !(pos < s.len() && s[pos].path == e.path) ==> insert_sorted(s, e) == s.take(pos)
            + seq![e] + s.skip(pos),
    decreases pos,
{
    if pos == 0 {
        if s.len() == 0 {
            assert(insert_sorted(s, e) =~= s.take(0) + seq![e] + s.skip(0));
        } else if s[0].path == e.path {
            lemma_lex_connected(s[0].path, e.path);
            assert(insert_sorted(s, e) =~= s.update(0, e));
        } else {
            assert(insert_sorted(s, e) =~= s.take(0) + seq![e] + s.skip(0));
        }
    } else {
        assert(lex_lt(s[0].path, e.path));
        let t = s.skip(1);
        assert(forall|k: int| 0 <= k < pos - 1 ==> lex_lt(#[trigger] t[k].path, e.path));
        lemma_insert_sorted_position(t, e, pos - 1);
        if pos < s.len() && s[pos].path == e.path {
            assert(t[pos - 1] == s[pos]);
            assert(insert_sorted(s, e) == seq![s[0]] + t.update(pos - 1, e));
            assert(seq![s[0]] + t.update(pos - 1, e) =~= s.update(pos, e));
        } else {
            assert(insert_sorted(s, e) == seq![s[0]] + (t.take(pos - 1) + seq![e] + t.skip(
                pos - 1,
            )));
            assert(seq![s[0]] + (t.take(pos - 1) + seq![e] + t.skip(pos - 1)) =~= s.take(pos)
                + seq![e] + s.skip(pos));
        }
    }
}

/// Insertion keeps the list sorted, stages exactly the new path on top of
/// the old ones, and leaves other entries alone.
pub proof fn lemma_insert_sorted_props(s: Seq<EntryV>, e: EntryV)
    requires
        sorted_strict(s),
    ensures
        sorted_strict(insert_sorted(s, e)),
        forall|x: EntryV| #[trigger] insert_sorted(s, e).contains(x) ==> x == e || s.contains(x),
        insert_sorted(s, e).contains(e),
        forall|x: EntryV| #[trigger] s.contains(x) && x.path != e.path ==> insert_sorted(
            s,
            e,
        ).contains(x),
    decreases s.len(),
{
    let r = insert_sorted(s, e);
    if s.len() == 0 {
        assert(r[0] == e);
    } else if lex_lt(s[0].path, e.path) {
        let t = s.skip(1);
        lemma_insert_sorted_props(t, e);
        let rt = insert_sorted(t, e);
        assert(r == seq![s[0]] + rt);
        assert(rt.contains(e));
        let ie = choose|i: int| 0 <= i < rt.len() && rt[i] == e;
        assert(r[ie + 1] == e);
        assert(r.contains(e));
        assert forall|i: int, j: int| 0 <= i < j < r.len() implies lex_lt(
            #[trigger] r[i].path,
            #[trigger] r[j].path,
        ) by {
            if i == 0 {
                let x = r[j];
                assert(rt[j - 1] == x);
                assert(rt.contains(x));
                if x == e {
                } else {
                    let k = choose|k: int| 0 <= k < t.len() && t[k] == x;
                    assert(s[k + 1] == x);
                    assert(lex_lt(s[0].path, s[k + 1].path));
                }
            } else {
                assert(rt[i - 1] == r[i] && rt[j - 1] == r[j]);
            }
        }
        assert forall|x: EntryV| #[trigger] r.contains(x) implies x == e || s.contains(x) by {
            let i = choose|i: int| 0 <= i < r.len() && r[i] == x;
            if i == 0 {
                assert(s.contains(s[0]));
            } else {
                assert(rt[i - 1] == x);
                assert(rt.contains(x));
                if x != e {
                    let k = choose|k: int| 0 <= k < t.len() && t[k] == x;
                    assert(s[k + 1] == x);
                }
            }
        }
        assert forall|x: EntryV| #[trigger] s.contains(x) && x.path != e.path implies r.contains(
            x,
        ) by {
            let i = choose|i: int| 0 <= i < s.len() && s[i] == x;
            if i == 0 {
                assert(r[0] == x);
            } else {
                assert(t[i - 1] == x);
                assert(t.contains(x));
                assert(rt.contains(x));
                let k = choose|k: int| 0 <= k < rt.len() && rt[k] == x;
                assert(r[k + 1] == x);
            }
        }
    } else if s[0].path == e.path {
        assert(r == seq![e] + s.skip(1));
        assert(r[0] == e);
        lemma_lex_connected(s[0].path, e.path);
        assert forall|i: int, j: int| 0 <= i < j < r.len() implies lex_lt(
            #[trigger] r[i].path,
            #[trigger] r[j].path,
        ) by {
            assert(r[j] == s[j]);
            if i == 0 {
                assert(lex_lt(s[0].path, s[j].path));
            } else {
                assert(r[i] == s[i]);
            }
        }
        assert forall|x: EntryV| #[trigger] r.contains(x) implies x == e || s.contains(x) by {
            let i = choose|i: int| 0 <= i < r.len() && r[i] == x;
            if i > 0 {
                assert(s[i] == x);
            }
        }
        assert forall|x: EntryV| #[trigger] s.contains(x) && x.path != e.path implies r.contains(
            x,
        ) by {
            let i = choose|i: int| 0 <= i < s.len() && s[i] == x;
            assert(i > 0);
            assert(r[i] == x);
        }
    } else {
        lemma_lex_connected(s[0].path, e.path);
        assert(lex_lt(e.path, s[0].path));
        assert(r == seq![e] + s);
        assert(r[0] == e);
        assert forall|i: int, j: int| 0 <= i < j < r.len() implies lex_lt(
            #[trigger] r[i].path,
            #[trigger] r[j].path,
        ) by {
            assert(r[j] == s[j - 1]);
            if i == 0 {
                if j == 1 {
                } else {
                    lemma_lex_trans(e.path, s[0].path, s[j - 1].path);
                }
            } else {
                assert(r[i] == s[i - 1]);
            }
        }
        assert forall|x: EntryV| #[trigger] r.contains(x) implies x == e || s.contains(x) by {
            let i = choose|i: int| 0 <= i < r.len() && r[i] == x;
            if i > 0 {
                assert(s[i - 1] == x);
            }
        }
        assert forall|x: EntryV| #[trigger] s.contains(x) && x.path != e.path implies r.contains(
            x,
        ) by {
            let i = choose|i: int| 0 <= i < s.len() && s[i] == x;
            assert(r[i + 1] == x);
        }
    }
}

// ---------------------------------------------------------------------------
// The index
// ---------------------------------------------------------------------------

/// The entry an `add` call stages.
pub open spec fn new_entry_view(pathname: Seq<u8>, oid: Seq<u8>, stat: FileStat) -> EntryV {
    EntryV {
        ctime: stat.ctime,
        ctime_nsec: stat.ctime_nsec,
        mtime: stat.mtime,
        mtime_nsec: stat.mtime_nsec,
        dev: stat.dev,
        ino: stat.ino,
        mode: if stat.mode == crate::index_entry::EXECUTABLE_MODE {
            crate::index_entry::EXECUTABLE_MODE
        } else {
            crate::index_entry::REGULAR_MODE
        },
        uid: stat.uid,
        gid: stat.gid,
        size: stat.size,
        oid: oid,
        flags: crate::index_entry::flags_of(pathname.len()),
        path: pathname,
    }
}

/// The in-memory staging index, guarded by a lockfile on its backing file.
pub struct Index {
    entries: Vec<Entry>,
    lockfile: Lockfile,
    changed: bool,
}

impl Index {
    /// The staged entries, in order.
    pub closed spec fn entries_spec(&self) -> Seq<EntryV> {
        views_of(self.entries@)
    }

    /// Whether the in-memory state differs from what was loaded.
    pub closed spec fn is_changed(&self) -> bool {
        self.changed
    }

    /// Whether the index lockfile is held.
    pub closed spec fn lock_held(&self) -> bool {
        self.lockfile.is_held()
    }

    /// The path of the backing index file.
    pub closed spec fn pathname_spec(&self) -> Seq<u8> {
        self.lockfile.file_path_spec()
    }

    /// The index is well formed: entries strictly sorted by path and no
    /// bytes buffered in the lockfile between updates.
    pub closed spec fn inv(&self) -> bool {
        &&& sorted_strict(self.entries_spec())
        &&& self.lockfile.pending_spec() == Seq::<u8>::empty()
    }

    /// A fresh, empty index backed by the file at `pathname`.
    pub fn new(pathname: Vec<u8>) -> (r: Index)
        ensures
            r.inv(),
            r.entries_spec() == Seq::<EntryV>::empty(),
            !r.is_changed(),
            !r.lock_held(),
            r.pathname_spec() == pathname@,
    {
        let r = Index { entries: Vec::new(), lockfile: Lockfile::new(pathname), changed: false };
        proof {
            assert(r.entries_spec() =~= Seq::<EntryV>::empty());
        }
        r
    }

    /// Stages `pathname` with object id `oid` and metadata `stat`.  Any
    /// entry at the same path, at an ancestor directory of it, or anywhere
    /// below it is discarded first, so that no staged path is a directory
    /// of another (and in particular no two entries share a path).
    pub fn add(&mut self, pathname: Vec<u8>, oid: Vec<u8>, stat: FileStat)
        requires
            old(self).inv(),
        ensures
            final(self).inv(),
            final(self).entries_spec() == insert_sorted(
                discard(old(self).entries_spec(), pathname@),
                new_entry_view(pathname@, oid@, stat),
            ),
            final(self).is_changed(),
            final(self).lock_held() == old(self).lock_held(),
            final(self).pathname_spec() == old(self).pathname_spec(),
            // every surviving entry was staged before, unchanged
            forall|x: EntryV| #[trigger] final(self).entries_spec().contains(x) ==> x
                == new_entry_view(pathname@, oid@, stat) || old(self).entries_spec().contains(x),
            // the new path is staged
            contains_path(final(self).entries_spec(), pathname@),
            // entries that do not conflict with the new path survive
            forall|x: EntryV|
                #[trigger] old(self).entries_spec().contains(x) && !paths_conflict(
                    pathname@,
                    x.path,
                ) ==> final(self).entries_spec().contains(x),
            // no path/directory cohabitation is ever introduced
            cohab_free(old(self).entries_spec()) ==> cohab_free(final(self).entries_spec()),
    {
        proof {
            lemma_discard(old(self).entries_spec(), pathname@);
        }
        let ghost pre = old(self).entries_spec();
        let ghost ev = new_entry_view(pathname@, oid@, stat);
        let entry = Entry::new(pathname, &oid, stat);
        assert(entry@ == ev);
        self.discard_conflicts(&entry);
        proof {
            lemma_insert_sorted_props(self.entries_spec(), ev);
        }
        self.store_entry(entry);
        self.changed = true;
        proof {
            let now = self.entries_spec();
            let dd = discard(pre, ev.path);
            assert forall|x: EntryV| #[trigger] now.contains(x) implies x == ev || pre.contains(
                x,
            ) by {
                if x != ev {
                    assert(dd.contains(x));
                }
            }
            if cohab_free(pre) {
                assert forall|i: int, j: int|
                    0 <= i < now.len() && 0 <= j < now.len() && i != j implies !in_dir(
                    #[trigger] now[i].path,
                    #[trigger] now[j].path,
                ) by {
                    let x = now[i];
                    let y = now[j];
                    assert(now.contains(x) && now.contains(y));
                    lemma_sorted_unique(now);
                    if x == ev {
                        if y != ev {
                            assert(dd.contains(y));
                            assert(!paths_conflict(ev.path, y.path));
                        }
                    } else if y == ev {
                        assert(dd.contains(x));
                        assert(!paths_conflict(ev.path, x.path));
                    } else {
                        assert(dd.contains(x) && dd.contains(y));
                        let ki = choose|k: int| 0 <= k < pre.len() && pre[k] == x;
                        let kj = choose|k: int| 0 <= k < pre.len() && pre[k] == y;
                        if ki == kj {
                            assert(x == y);
                            assert(!in_dir(x.path, y.path));
                        }
                    }
                }
            }
        }
    }

    /// Removes every entry whose path conflicts with the new entry's.
    fn discard_conflicts(&mut self, entry: &Entry)
        requires
            old(self).inv(),
        ensures
            final(self).inv(),
            final(self).entries_spec() == discard(old(self).entries_spec(), entry@.path),
            final(self).is_changed() == old(self).is_changed(),
            final(self).lock_held() == old(self).lock_held(),
            final(self).lockfile == old(self).lockfile,
            final(self).pathname_spec() == old(self).pathname_spec(),
    {
        let ghost pre = self.entries_spec();
        let mut kept: Vec<Entry> = Vec::new();
        let mut i: usize = 0;
        proof {
            assert(views_of(kept@) =~= discard(pre.take(0), entry@.path));
        }
        while i < self.entries.len()
            invariant
                i <= self.entries@.len(),
                views_of(self.entries@) == pre,
                views_of(kept@) == discard(pre.take(i as int), entry@.path),
            decreases self.entries@.len() - i,
        {
            let keep = !paths_conflict_exec(entry.path(), self.entries[i].path());
            proof {
                assert(pre.take(i + 1).drop_last() =~= pre.take(i as int));
                assert(pre.take(i + 1).last() == pre[i as int]);
                assert(pre[i as int] == self.entries@[i as int]@);
            }
            if keep {
                let d = self.entries[i].duplicate();
                kept.push(d);
                proof {
                    assert(views_of(kept@) =~= discard(pre.take(i + 1), entry@.path));
                }
            } else {
                proof {
                    assert(views_of(kept@) =~= discard(pre.take(i + 1), entry@.path));
                }
            }
            i = i + 1;
        }
        proof {
            assert(pre.take(pre.len() as int) =~= pre);
            lemma_discard(pre, entry@.path);
        }
        self.entries = kept;
    }

    /// Inserts `entry` at its sorted position, replacing any entry that
    /// already stages the same path.
    fn store_entry(&mut self, entry: Entry)
        requires
            old(self).inv(),
        ensures
            final(self).inv(),
            final(self).entries_spec() == insert_sorted(old(self).entries_spec(), entry@),
            final(self).is_changed() == old(self).is_changed(),
            final(self).lock_held() == old(self).lock_held(),
            final(self).lockfile == old(self).lockfile,
            final(self).pathname_spec() == old(self).pathname_spec(),
    {
        let ghost pre = self.entries_spec();
        let mut pos: usize = 0;
        while pos < self.entries.len() && lex_less(self.entries[pos].path(), entry.path())
            invariant
                pos <= self.entries@.len(),
                views_of(self.entries@) == pre,
                forall|k: int| 0 <= k < pos ==> lex_lt(#[trigger] pre[k].path, entry@.path),
            decreases self.entries@.len() - pos,
        {
            proof {
                assert(pre[pos as int] == self.entries@[pos as int]@);
            }
            pos = pos + 1;
        }
        proof {
            if pos < self.entries@.len() {
                assert(pre[pos as int] == self.entries@[pos as int]@);
            }
            lemma_insert_sorted_position(pre, entry@, pos as int);
            lemma_insert_sorted_props(pre, entry@);
        }
        if pos < self.entries.len() && byte_vecs_equal(self.entries[pos].path(), entry.path()) {
            let ghost ev = entry@;
            self.entries.set(pos, entry);
            proof {
                assert(views_of(self.entries@) =~= pre.update(pos as int, ev));
            }
        } else {
            let ghost ev = entry@;
            self.entries.insert(pos, entry);
            proof {
                assert(views_of(self.entries@) =~= pre.take(pos as int) + seq![ev] + pre.skip(
                    pos as int,
                ));
            }
        }
    }

    /// The staged entries in ascending path order.
    pub fn entries(&self) -> (r: &Vec<Entry>)
        ensures
            views_of(r@) == self.entries_spec(),
    {
        &self.entries
    }
}

// ---------------------------------------------------------------------------
// The binary file format
// ---------------------------------------------------------------------------

/// Reading the index back can fail three ways.
#[derive(Clone, Copy, PartialEq, Eq, Structural, Debug)]
pub enum LoadError {
    /// The signature or version does not match.
    Invalid,
    /// The file ends before a header, record or checksum is complete.
    EndOfFile,
    /// The trailing digest does not match the preceding bytes.
    ChecksumMismatch,
}

/// The four signature bytes, `DIRC`.
pub open spec fn index_signature() -> Seq<u8> {
    seq![68u8, 73u8, 82u8, 67u8]
}

/// The 12-byte file header: signature, version 2, entry count.
pub open spec fn index_header(count: u32) -> Seq<u8> {
    index_signature() + be4(2) + be4(count)
}

/// The concatenated records of the entries, in order.
pub open spec fn records_bytes(s: Seq<EntryV>) -> Seq<u8>
    decreases s.len(),
{
    if s.len() == 0 {
        Seq::<u8>::empty()
    } else {
        records_bytes(s.drop_last()) + entry_record(s.last())
    }
}

/// Header and records, before the trailing digest.
pub open spec fn index_body(s: Seq<EntryV>) -> Seq<u8> {
    index_header(s.len() as u32) + records_bytes(s)
}

/// The complete serialized index: body plus its SHA-1 digest.
pub open spec fn index_file_bytes(s: Seq<EntryV>) -> Seq<u8> {
    index_body(s) + sha1_of(index_body(s))
}

/// Every entry can be serialized.
pub open spec fn all_wf(s: Seq<EntryV>) -> bool {
    forall|i: int| 0 <= i < s.len() ==> entry_wf(#[trigger] s[i])
}

/// The length of the record that starts at `pos`, found by extending an
/// initial claim of `l` bytes in 8-byte blocks until the record ends in a
/// NUL; `None` when the data runs out first.
pub open spec fn record_extent(bytes: Seq<u8>, pos: int, l: int) -> Option<int>
    decreases bytes.len() - pos - l + 8,
{
    if pos + l > bytes.len() {
        None::<int>
    } else if bytes[pos + l - 1] == 0 {
        Some(l)
    } else {
        record_extent(bytes, pos, l + 8)
    }
}

/// Parses `count` records starting at `pos`: the entries read and the
/// offset just past them, or the error the read protocol reports.
pub open spec fn parse_entries(bytes: Seq<u8>, pos: int, count: int) -> Result<
    (Seq<EntryV>, int),
    LoadError,
>
    decreases count,
{
    if count <= 0 {
        Ok((Seq::<EntryV>::empty(), pos))
    } else {
        match record_extent(bytes, pos, 64) {
            None => Err(LoadError::EndOfFile),
            Some(l) => match parse_entries(bytes, pos + l, count - 1) {
                Ok(rest) => Ok(
                    (seq![entry_of_record(bytes.subrange(pos, pos + l))] + rest.0, rest.1),
                ),
                Err(e) => Err(e),
            },
        }
    }
}

/// The read protocol over a whole file: 12-byte header with signature and
/// version checks, `count` records, then a 20-byte digest of everything
/// before it.  Returns the entries in file order.
pub open spec fn parse_index(bytes: Seq<u8>) -> Result<Seq<EntryV>, LoadError> {
    if bytes.len() < 12 {
        Err(LoadError::EndOfFile)
    } else if bytes.subrange(0, 4) != index_signature() || from_be4(bytes.subrange(4, 8)) != 2 {
        Err(LoadError::Invalid)
    } else {
        match parse_entries(bytes, 12, from_be4(bytes.subrange(8, 12)) as int) {
            Err(e) => Err(e),
            Ok(res) => if res.1 + 20 > bytes.len() {
                Err(LoadError::EndOfFile)
            } else if bytes.subrange(res.1, res.1 + 20) != sha1_of(bytes.take(res.1)) {
                Err(LoadError::ChecksumMismatch)
            } else {
                Ok(res.0)
            },
        }
    }
}

/// `es` inserted into `acc` one after the other, each at its sorted
/// position, later entries replacing earlier ones with the same path.
pub open spec fn insert_all(acc: Seq<EntryV>, es: Seq<EntryV>) -> Seq<EntryV>
    decreases es.len(),
{
    if es.len() == 0 {
        acc
    } else {
        insert_all(insert_sorted(acc, es[0]), es.skip(1))
    }
}

/// Splitting the records off at the head instead of the tail.
pub proof fn lemma_records_head(es: Seq<EntryV>)
    requires
        es.len() > 0,
    ensures
        records_bytes(es) == entry_record(es[0]) + records_bytes(es.skip(1)),
    decreases es.len(),
{
    if es.len() == 1 {
        assert(es.drop_last() =~= Seq::<EntryV>::empty());
        assert(es.skip(1) =~= Seq::<EntryV>::empty());
        assert(records_bytes(es) =~= entry_record(es[0]) + records_bytes(es.skip(1)));
    } else {
        let butlast = es.drop_last();
        lemma_records_head(butlast);
        assert(butlast[0] == es[0]);
        assert(butlast.skip(1) =~= es.skip(1).drop_last());
        assert(es.skip(1).last() == es.last());
        assert(records_bytes(es.skip(1)) == records_bytes(es.skip(1).drop_last()) + entry_record(
            es.last(),
        ));
        assert(records_bytes(es) =~= entry_record(es[0]) + records_bytes(es.skip(1)));
    }
}

/// The scan in 8-byte blocks finds exactly the record's length: padding
/// ends the record in a NUL, and every earlier block boundary falls inside
/// the NUL-free path.
#[verifier::rlimit(50)]
proof fn lemma_record_extent_finds(bytes: Seq<u8>, pos: int, e: EntryV, l: int)
    requires
        entry_wf(e),
        0 <= pos,
        pos + crate::index_entry::record_len(e.path.len()) <= bytes.len(),
        bytes.subrange(pos, pos + crate::index_entry::record_len(e.path.len()) as int)
            == entry_record(e),
        64 <= l <= crate::index_entry::record_len(e.path.len()),
        l % 8 == 0,
    ensures
        record_extent(bytes, pos, l) == Some(crate::index_entry::record_len(e.path.len()) as int),
    decreases crate::index_entry::record_len(e.path.len()) - l,
{
    let plen = e.path.len();
    let rl = crate::index_entry::record_len(plen) as int;
    let rec = entry_record(e);
    lemma_entry_record_roundtrip(e);
    assert(rl % 8 == 0);
    assert(bytes[pos + l - 1] == rec[l - 1]);
    if l == rl {
        // the final byte is padding
        assert(rec[l - 1] == 0);
    } else {
        // l - 1 indexes into the NUL-free path
        assert(l + 8 <= rl) by (nonlinear_arith)
            requires
                l < rl,
                l % 8 == 0,
                rl % 8 == 0,
        ;
        let q = (62 + plen) as int / 8;
        assert(rl == q * 8 + 8);
        assert(q * 8 <= 62 + plen);
        assert(rl <= 62 + plen + 8);
        assert(l - 1 < 62 + plen);
        assert(rec[l - 1] == e.path[l - 1 - 62]);
        assert(rec[l - 1] != 0);
        lemma_record_extent_finds(bytes, pos, e, l + 8);
    }
}

/// Sorted, well-formed records parse back exactly, in order.
#[verifier::rlimit(50)]
proof fn lemma_parse_records(bytes: Seq<u8>, pos: int, es: Seq<EntryV>)
    requires
        all_wf(es),
        0 <= pos,
        pos + records_bytes(es).len() <= bytes.len(),
        bytes.subrange(pos, pos + records_bytes(es).len() as int) == records_bytes(es),
    ensures
        parse_entries(bytes, pos, es.len() as int) == Ok::<(Seq<EntryV>, int), LoadError>(
            (es, pos + records_bytes(es).len() as int),
        ),
    decreases es.len(),
{
    if es.len() == 0 {
        assert(parse_entries(bytes, pos, 0) == Ok::<(Seq<EntryV>, int), LoadError>(
            (Seq::<EntryV>::empty(), pos),
        ));
        assert(es =~= Seq::<EntryV>::empty());
    } else {
        let e = es[0];
        assert(all_wf(es.skip(1))) by {
            assert(forall|i: int| 0 <= i < es.skip(1).len() ==> es.skip(1)[i] == es[i + 1]);
        }
        lemma_records_head(es);
        lemma_entry_record_roundtrip(e);
        let rl = crate::index_entry::record_len(e.path.len()) as int;
        assert(bytes.subrange(pos, pos + rl) =~= entry_record(e));
        lemma_record_extent_finds(bytes, pos, e, 64);
        assert(record_extent(bytes, pos, 64) == Some(rl));
        let rest = records_bytes(es.skip(1));
        assert(records_bytes(es).len() == rl + rest.len());
        assert forall|j: int| 0 <= j < rest.len() implies bytes[pos + rl + j] == rest[j] by {
            assert(records_bytes(es)[rl + j] == rest[j]);
            assert(bytes.subrange(pos, pos + records_bytes(es).len() as int)[rl + j] == bytes[pos
                + rl + j]);
        }
        assert(bytes.subrange(pos + rl, pos + rl + rest.len()) =~= rest);
        lemma_parse_records(bytes, pos + rl, es.skip(1));
        assert(entry_of_record(bytes.subrange(pos, pos + rl)) == e);
        assert(seq![e] + es.skip(1) =~= es);
        assert(records_bytes(es).len() == rl + rest.len());
    }
}

/// Re-inserting an already sorted list, in order, rebuilds it unchanged.
pub proof fn lemma_insert_all_sorted(es: Seq<EntryV>, k: int)
    requires
        sorted_strict(es),
        0 <= k <= es.len(),
    ensures
        insert_all(es.take(k), es.skip(k)) == es,
    decreases es.len() - k,
{
    if k == es.len() {
        assert(es.take(k) =~= es);
        assert(es.skip(k) =~= Seq::<EntryV>::empty());
    } else {
        let e = es[k];
        let pre = es.take(k);
        assert(forall|i: int| 0 <= i < pre.len() ==> pre[i] == es[i]);
        assert(forall|i: int| 0 <= i < k ==> lex_lt(#[trigger] pre[i].path, e.path));
        lemma_insert_sorted_position(pre, e, k);
        assert(insert_sorted(pre, e) =~= es.take(k + 1)) by {
            assert(pre.take(k) =~= pre);
            assert(pre.skip(k) =~= Seq::<EntryV>::empty());
        }
        lemma_insert_all_sorted(es, k + 1);
        assert(es.skip(k)[0] == e);
        assert(es.skip(k).skip(1) =~= es.skip(k + 1));
    }
}

/// What `write_updates` publishes, `load` reads back unchanged: parsing
/// the serialized file recovers the staged entries exactly, and staging
/// them again in order rebuilds the same index.
pub proof fn lemma_index_round_trip(es: Seq<EntryV>)
    requires
        sorted_strict(es),
        all_wf(es),
        es.len() <= 0xffff_ffff,
        sha1_of(index_body(es)).len() == 20,
    ensures
        parse_index(index_file_bytes(es)) == Ok::<Seq<EntryV>, LoadError>(es),
        insert_all(Seq::<EntryV>::empty(), es) == es,
{
    let body = index_body(es);
    let bytes = index_file_bytes(es);
    assert(bytes.subrange(0, 4) =~= index_signature());
    assert(bytes.subrange(4, 8) =~= be4(2));
    assert(bytes.subrange(8, 12) =~= be4(es.len() as u32));
    crate::encoding::lemma_be4_roundtrip(2);
    crate::encoding::lemma_be4_roundtrip(es.len() as u32);
    let recs = records_bytes(es);
    assert(bytes.subrange(12, 12 + recs.len() as int) =~= recs);
    lemma_parse_records(bytes, 12, es);
    let end = 12 + recs.len() as int;
    assert(bytes.take(end) =~= body);
    assert(bytes.subrange(end, end + 20) =~= sha1_of(body));
    lemma_insert_all_sorted(es, 0);
    assert(es.take(0) =~= Seq::<EntryV>::empty());
    assert(es.skip(0) =~= es);
}

/// Corrupting any byte of the stored digest is detected: the file no
/// longer loads.
pub proof fn lemma_flip_in_checksum_detected(es: Seq<EntryV>, bad: Seq<u8>, i: int)
    requires
        sorted_strict(es),
        all_wf(es),
        es.len() <= 0xffff_ffff,
        sha1_of(index_body(es)).len() == 20,
        bad.len() == index_file_bytes(es).len(),
        index_body(es).len() <= i < bad.len(),
        bad[i] != index_file_bytes(es)[i],
        forall|j: int| 0 <= j < bad.len() && j != i ==> bad[j] == index_file_bytes(es)[j],
    ensures
        parse_index(bad) == Err::<Seq<EntryV>, LoadError>(LoadError::ChecksumMismatch),
{
    let body = index_body(es);
    let bytes = index_file_bytes(es);
    assert(bad.subrange(0, 4) =~= index_signature());
    assert(bad.subrange(4, 8) =~= be4(2));
    assert(bad.subrange(8, 12) =~= be4(es.len() as u32));
    crate::encoding::lemma_be4_roundtrip(2);
    crate::encoding::lemma_be4_roundtrip(es.len() as u32);
    let recs = records_bytes(es);
    assert(bad.subrange(12, 12 + recs.len() as int) =~= recs);
    lemma_parse_records(bad, 12, es);
    let end = 12 + recs.len() as int;
    assert(bad.take(end) =~= body);
    assert(bad.subrange(end, end + 20)[i - end] != sha1_of(body)[i - end]);
}

/// Corrupting any byte of the signature or version is detected.
pub proof fn lemma_flip_in_header_detected(es: Seq<EntryV>, bad: Seq<u8>, i: int)
    requires
        es.len() <= 0xffff_ffff,
        sha1_of(index_body(es)).len() == 20,
        bad.len() == index_file_bytes(es).len(),
        0 <= i < 8,
        bad[i] != index_file_bytes(es)[i],
        forall|j: int| 0 <= j < bad.len() && j != i ==> bad[j] == index_file_bytes(es)[j],
    ensures
        parse_index(bad) == Err::<Seq<EntryV>, LoadError>(LoadError::Invalid),
{
    let bytes = index_file_bytes(es);
    assert(bytes.len() >= 32);
    if i < 4 {
        assert(bytes.subrange(0, 4) =~= index_signature());
        assert(bad.subrange(0, 4)[i] != index_signature()[i]);
    } else {
        assert(bytes.subrange(4, 8) =~= be4(2));
        crate::encoding::lemma_be4_roundtrip(2);
        assert(bad.subrange(0, 4) =~= index_signature());
        let s = bad.subrange(4, 8);
        assert(s[i - 4] != be4(2)[i - 4]);
        if from_be4(s) == 2 {
            crate::encoding::lemma_be4_of_bytes(s);
            assert(s == be4(2));
        }
    }
}

/// A reader over the bytes of an index file that remembers how far it has
/// read, so that the trailing digest can be checked against exactly the
/// bytes consumed.
pub struct Checksum {
    data: Vec<u8>,
    pos: usize,
}

impl Checksum {
    /// The bytes being read.
    pub closed spec fn data_spec(&self) -> Seq<u8> {
        self.data@
    }

    /// The offset of the next unread byte; everything before it feeds the
    /// digest.
    pub closed spec fn pos_spec(&self) -> int {
        self.pos as int
    }

    /// A reader positioned at the start of `data`.
    pub fn new(data: Vec<u8>) -> (r: Checksum)
        ensures
            r.data_spec() == data@,
            r.pos_spec() == 0,
    {
        Checksum { data, pos: 0 }
    }

    /// Reads the next `size` bytes, or reports a short read.
    pub fn read(&mut self, size: usize) -> (r: Result<Vec<u8>, LoadError>)
        ensures
            final(self).data_spec() == old(self).data_spec(),
            old(self).pos_spec() + size <= old(self).data_spec().len() ==> (r matches Ok(v)
                && v@ == old(self).data_spec().subrange(
                old(self).pos_spec(),
                old(self).pos_spec() + size,
            ) && final(self).pos_spec() == old(self).pos_spec() + size),
            old(self).pos_spec() + size > old(self).data_spec().len() ==> r == Err::<
                Vec<u8>,
                LoadError,
            >(LoadError::EndOfFile) && final(self).pos_spec() == old(self).pos_spec(),
    {
        if self.pos <= self.data.len() && size <= self.data.len() - self.pos {
            let chunk = slice_to_vec(slice_subrange(self.data.as_slice(), self.pos, self.pos + size));
            self.pos = self.pos + size;
            Ok(chunk)
        } else {
            Err(LoadError::EndOfFile)
        }
    }

    /// Reads the final 20 bytes and compares them with the SHA-1 digest of
    /// everything read before them.
    pub fn verify_checksum(&mut self) -> (r: Result<(), LoadError>)
        ensures
            final(self).data_spec() == old(self).data_spec(),
            old(self).pos_spec() + 20 > old(self).data_spec().len() ==> r == Err::<(), LoadError>(
                LoadError::EndOfFile,
            ),
            old(self).pos_spec() + 20 <= old(self).data_spec().len() ==> r == (
            if old(self).data_spec().subrange(old(self).pos_spec(), old(self).pos_spec() + 20)
                == sha1_of(old(self).data_spec().take(old(self).pos_spec())) {
                Ok::<(), LoadError>(())
            } else {
                Err::<(), LoadError>(LoadError::ChecksumMismatch)
            }),
    {
        if self.pos > self.data.len() {
            return Err(LoadError::EndOfFile);
        }
        let prefix = slice_to_vec(slice_subrange(self.data.as_slice(), 0, self.pos));
        proof {
            assert(prefix@ =~= self.data@.take(self.pos as int));
        }
        let digest = sha1_digest(&prefix);
        let stored = match self.read(20) {
            Ok(v) => v,
            Err(e) => {
                return Err(e);
            },
        };
        if byte_vecs_equal(&stored, &digest) {
            Ok(())
        } else {
            Err(LoadError::ChecksumMismatch)
        }
    }
}

/// A writer that accumulates the bytes of an index file and can append the
/// SHA-1 digest of everything written so far.
pub struct ChecksumWriter {
    out: Vec<u8>,
}

impl ChecksumWriter {
    /// The bytes written so far.
    pub closed spec fn out_spec(&self) -> Seq<u8> {
        self.out@
    }

    /// An empty writer.
    pub fn new() -> (r: ChecksumWriter)
        ensures
            r.out_spec() == Seq::<u8>::empty(),
    {
        ChecksumWriter { out: Vec::new() }
    }

    /// Appends `bytes`.
    pub fn write(&mut self, bytes: &Vec<u8>)
        ensures
            final(self).out_spec() == old(self).out_spec() + bytes@,
    {
        self.out.extend_from_slice(bytes.as_slice());
        proof {
            assert(self.out@ =~= old(self).out_spec() + bytes@);
        }
    }

    /// Appends the SHA-1 digest of everything written so far.
    pub fn write_checksum(&mut self)
        ensures
            final(self).out_spec() == old(self).out_spec() + sha1_of(old(self).out_spec()),
    {
        let digest = sha1_digest(&self.out);
        self.out.append(&mut { digest });
        proof {
            assert(self.out@ =~= old(self).out_spec() + sha1_of(old(self).out_spec()));
        }
    }

    /// Hands the accumulated bytes back.
    pub fn into_inner(self) -> (r: Vec<u8>)
        ensures
            r@ == self.out_spec(),
    {
        self.out
    }
}

impl Index {
    /// Publishes the staged entries through the lockfile.  When nothing
    /// changed, the lock is rolled back and nothing is written; otherwise
    /// the serialized index — header, sorted records, trailing digest — is
    /// committed, and the returned bytes are what the driver publishes to
    /// the index file.  Both paths fail with `StaleLock` when the lock is
    /// not held.
    pub fn write_updates(&mut self) -> (r: Result<Option<Vec<u8>>, StaleLock>)
        requires
            old(self).inv(),
            all_wf(old(self).entries_spec()),
            old(self).entries_spec().len() <= 0xffff_ffff,
        ensures
            final(self).inv(),
            final(self).entries_spec() == old(self).entries_spec(),
            final(self).pathname_spec() == old(self).pathname_spec(),
            !old(self).lock_held() ==> r == Err::<Option<Vec<u8>>, StaleLock>(StaleLock),
            old(self).lock_held() ==> !final(self).lock_held() && !final(self).is_changed()
                && (if old(self).is_changed() {
                r matches Ok(c) && c matches Some(bytes) && bytes@ == index_file_bytes(
                    old(self).entries_spec(),
                )
            } else {
                r == Ok::<Option<Vec<u8>>, StaleLock>(None)
            }),
    {
        if !self.changed {
            match self.lockfile.rollback() {
                Ok(_u) => Ok(None),
                Err(e) => Err(e),
            }
        } else {
            let ghost es = self.entries_spec();
            let mut writer = ChecksumWriter::new();
            let mut header: Vec<u8> = Vec::new();
            header.push(68);
            header.push(73);
            header.push(82);
            header.push(67);
            crate::encoding::push_be4(&mut header, 2);
            crate::encoding::push_be4(&mut header, self.entries.len() as u32);
            proof {
                assert(header@ =~= index_header(es.len() as u32));
            }
            writer.write(&header);
            let mut i: usize = 0;
            proof {
                assert(writer.out_spec() =~= index_header(es.len() as u32) + records_bytes(
                    es.take(0),
                ));
            }
            while i < self.entries.len()
                invariant
                    i <= self.entries@.len(),
                    views_of(self.entries@) == es,
                    all_wf(es),
                    writer.out_spec() == index_header(es.len() as u32) + records_bytes(
                        es.take(i as int),
                    ),
                decreases self.entries@.len() - i,
            {
                proof {
                    assert(es[i as int] == self.entries@[i as int]@);
                }
                let record = self.entries[i].to_string();
                writer.write(&record);
                proof {
                    assert(es.take(i + 1).drop_last() =~= es.take(i as int));
                    assert(es.take(i + 1).last() == es[i as int]);
                    assert(writer.out_spec() =~= index_header(es.len() as u32) + records_bytes(
                        es.take(i + 1),
                    ));
                }
                i = i + 1;
            }
            proof {
                assert(es.take(es.len() as int) =~= es);
            }
            writer.write_checksum();
            let bytes = writer.into_inner();
            match self.lockfile.write(&bytes) {
                Ok(_u) => {},
                Err(e) => {
                    return Err(e);
                },
            }
            match self.lockfile.commit() {
                Ok(content) => {
                    self.changed = false;
                    proof {
                        assert(content@ =~= index_file_bytes(es));
                    }
                    Ok(Some(content))
                },
                Err(e) => Err(e),
            }
        }
    }

    /// Forgets the in-memory state.
    fn clear(&mut self)
        ensures
            final(self).entries_spec() == Seq::<EntryV>::empty(),
            !final(self).is_changed(),
            final(self).lockfile == old(self).lockfile,
            final(self).inv() == (old(self).lockfile.pending_spec() == Seq::<u8>::empty()),
    {
        self.entries = Vec::new();
        self.changed = false;
        proof {
            assert(self.entries_spec() =~= Seq::<EntryV>::empty());
        }
    }

    /// Reads the 12-byte header: checks the signature and version, returns
    /// the entry count.
    fn read_header(&self, reader: &mut Checksum) -> (r: Result<u32, LoadError>)
        requires
            old(reader).pos_spec() == 0,
        ensures
            final(reader).data_spec() == old(reader).data_spec(),
            old(reader).data_spec().len() < 12 ==> r == Err::<u32, LoadError>(LoadError::EndOfFile),
            old(reader).data_spec().len() >= 12 ==> (
            if old(reader).data_spec().subrange(0, 4) != index_signature() || from_be4(
                old(reader).data_spec().subrange(4, 8),
            ) != 2 {
                r == Err::<u32, LoadError>(LoadError::Invalid)
            } else {
                r == Ok::<u32, LoadError>(from_be4(old(reader).data_spec().subrange(8, 12)))
                    && final(reader).pos_spec() == 12
            }),
    {
        let data = match reader.read(12) {
            Ok(v) => v,
            Err(e) => {
                return Err(e);
            },
        };
        proof {
            let d = reader.data_spec();
            assert(data@.subrange(0, 4) =~= d.subrange(0, 4));
            assert(data@.subrange(4, 8) =~= d.subrange(4, 8));
            assert(data@.subrange(8, 12) =~= d.subrange(8, 12));
        }
        let sig_ok = data[0] == 68 && data[1] == 73 && data[2] == 82 && data[3] == 67;
        proof {
            let d = reader.data_spec();
            if sig_ok {
                assert(d.subrange(0, 4) =~= index_signature());
            } else {
                if d.subrange(0, 4) == index_signature() {
                    assert(data@[0] == d.subrange(0, 4)[0]);
                    assert(data@[1] == d.subrange(0, 4)[1]);
                    assert(data@[2] == d.subrange(0, 4)[2]);
                    assert(data@[3] == d.subrange(0, 4)[3]);
                }
            }
        }
        let version = crate::encoding::read_be4(&data, 4);
        let count = crate::encoding::read_be4(&data, 8);
        if !sig_ok || version != 2 {
            return Err(LoadError::Invalid);
        }
        Ok(count)
    }

    /// Reads `count` records, staging each entry as it is read.
    fn read_entries(&mut self, reader: &mut Checksum, count: u32) -> (r: Result<(), LoadError>)
        requires
            old(self).inv(),
        ensures
            final(self).inv(),
            !final(self).is_changed() == !old(self).is_changed(),
            final(self).lockfile == old(self).lockfile,
            final(reader).data_spec() == old(reader).data_spec(),
            match parse_entries(old(reader).data_spec(), old(reader).pos_spec(), count as int) {
                Ok(res) => r == Ok::<(), LoadError>(()) && final(reader).pos_spec() == res.1
                    && final(self).entries_spec() == insert_all(old(self).entries_spec(), res.0),
                Err(e) => r == Err::<(), LoadError>(e),
            },
    {
        let ghost data = reader.data_spec();
        let ghost pos0 = reader.pos_spec();
        let ghost entries0 = self.entries_spec();
        let mut k: u32 = 0;
        while k < count
            invariant
                k <= count,
                self.inv(),
                self.is_changed() == old(self).is_changed(),
                self.lockfile == old(self).lockfile,
                reader.data_spec() == data,
                data == old(reader).data_spec(),
                pos0 == old(reader).pos_spec(),
                entries0 == old(self).entries_spec(),
                match parse_entries(data, reader.pos_spec(), (count - k) as int) {
                    Ok(res2) => parse_entries(data, pos0, count as int) matches Ok(res)
                        && res.1 == res2.1 && insert_all(self.entries_spec(), res2.0)
                        == insert_all(entries0, res.0),
                    Err(e) => parse_entries(data, pos0, count as int) == Err::<
                        (Seq<EntryV>, int),
                        LoadError,
                    >(e),
                },
            decreases count - k,
        {
            let ghost pos = reader.pos_spec();
            let mut record = match reader.read(64) {
                Ok(v) => v,
                Err(e) => {
                    proof {
                        assert(record_extent(data, pos, 64) is None);
                    }
                    return Err(LoadError::EndOfFile);
                },
            };
            #[verifier::loop_isolation(false)]
            while record[record.len() - 1] != 0
                invariant
                    reader.data_spec() == data,
                    0 <= pos,
                    record@.len() >= 64,
                    record@.len() % 8 == 0,
                    pos + record@.len() == reader.pos_spec(),
                    reader.pos_spec() <= data.len(),
                    record@ == data.subrange(pos, pos + record@.len()),
                    record_extent(data, pos, 64) == record_extent(
                        data,
                        pos,
                        record@.len() as int,
                    ),
                decreases data.len() - reader.pos_spec(),
            {
                proof {
                    assert(record@.last() == data[pos + record@.len() - 1]);
                }
                let mut block = match reader.read(8) {
                    Ok(v) => v,
                    Err(e) => {
                        proof {
                            assert(record_extent(data, pos, record@.len() as int)
                                == record_extent(data, pos, record@.len() + 8int));
                            assert(record_extent(data, pos, record@.len() + 8int) is None);
                        }
                        return Err(LoadError::EndOfFile);
                    },
                };
                record.append(&mut block);
                proof {
                    assert(record@ =~= data.subrange(pos, pos + record@.len()));
                }
            }
            let ghost l = record@.len() as int;
            proof {
                assert(record@.last() == data[pos + l - 1]);
                assert(record_extent(data, pos, 64) == Some(l));
            }
            let entry = Entry::from(record);
            proof {
                lemma_insert_sorted_props(self.entries_spec(), entry@);
            }
            let ghost before = self.entries_spec();
            self.store_entry(entry);
            k = k + 1;
            proof {
                let rem = parse_entries(data, pos, (count - (k - 1)) as int);
                let now = parse_entries(data, reader.pos_spec(), (count - k) as int);
                assert(rem is Ok ==> now is Ok);
                if now is Ok {
                    let res2 = now->Ok_0;
                    let prev = rem->Ok_0;
                    assert(prev.0 =~= seq![entry_of_record(data.subrange(pos, pos + l))]
                        + res2.0);
                    assert(prev.0.skip(1) =~= res2.0);
                    assert(insert_all(before, prev.0) == insert_all(
                        insert_sorted(before, prev.0[0]),
                        prev.0.skip(1),
                    ));
                }
            }
        }
        proof {
            assert(parse_entries(data, reader.pos_spec(), 0) == Ok::<(Seq<EntryV>, int), LoadError>(
                (Seq::<EntryV>::empty(), reader.pos_spec()),
            ));
            match parse_entries(data, pos0, count as int) {
                Ok(res) => {
                    assert(insert_all(self.entries_spec(), Seq::<EntryV>::empty())
                        == self.entries_spec());
                },
                Err(_e) => {},
            }
        }
        Ok(())
    }

    /// Replaces the in-memory state with what the backing file holds:
    /// `data` is the file's bytes, or `None` when the file is absent, in
    /// which case the index starts empty.  Entries are staged in file
    /// order, so the result is sorted even if the file was not.
    pub fn load(&mut self, data: Option<&Vec<u8>>) -> (r: Result<(), LoadError>)
        requires
            old(self).inv(),
        ensures
            final(self).inv(),
            !final(self).is_changed(),
            final(self).lock_held() == old(self).lock_held(),
            final(self).pathname_spec() == old(self).pathname_spec(),
            match data {
                None => r == Ok::<(), LoadError>(()) && final(self).entries_spec()
                    == Seq::<EntryV>::empty(),
                Some(bytes) => match parse_index(bytes@) {
                    Ok(es) => r == Ok::<(), LoadError>(()) && final(self).entries_spec()
                        == insert_all(Seq::<EntryV>::empty(), es),
                    Err(e) => r == Err::<(), LoadError>(e),
                },
            },
    {
        self.clear();
        match data {
            None => Ok(()),
            Some(bytes) => {
                let owned = slice_to_vec(bytes.as_slice());
                let mut reader = Checksum::new(owned);
                let count = match self.read_header(&mut reader) {
                    Ok(c) => c,
                    Err(e) => {
                        return Err(e);
                    },
                };
                match self.read_entries(&mut reader, count) {
                    Ok(_u) => {},
                    Err(e) => {
                        return Err(e);
                    },
                }
                match reader.verify_checksum() {
                    Ok(_u) => {},
                    Err(e) => {
                        return Err(e);
                    },
                }
                Ok(())
            },
        }
    }

    /// Acquires the index lockfile given the driver's creation outcome and,
    /// on success, loads the backing file (whose bytes the driver passes
    /// in, `None` when absent).  Returns `false` without loading when the
    /// lock is busy or refused.
    pub fn load_for_update(&mut self, attempt: LockAttempt, data: Option<&Vec<u8>>) -> (r: Result<
        bool,
        LoadError,
    >)
        requires
            old(self).inv(),
            !old(self).lock_held(),
        ensures
            final(self).inv(),
            final(self).pathname_spec() == old(self).pathname_spec(),
            attempt != LockAttempt::Created ==> r == Ok::<bool, LoadError>(false)
                && !final(self).lock_held()
                && final(self).entries_spec() == old(self).entries_spec(),
            attempt == LockAttempt::Created ==> final(self).lock_held() && match data {
                None => r == Ok::<bool, LoadError>(true) && final(self).entries_spec()
                    == Seq::<EntryV>::empty(),
                Some(bytes) => match parse_index(bytes@) {
                    Ok(es) => r == Ok::<bool, LoadError>(true) && final(self).entries_spec()
                        == insert_all(Seq::<EntryV>::empty(), es),
                    Err(e) => r == Err::<bool, LoadError>(e),
                },
            },
    {
        let acquired = match self.lockfile.hold_for_update(attempt) {
            Ok(b) => b,
            Err(_e) => false,
        };
        if acquired {
            match self.load(data) {
                Ok(_u) => Ok(true),
                Err(e) => Err(e),
            }
        } else {
            Ok(false)
        }
    }
}

} // verus!
