use jit::index::{Index, LoadError};
use jit::index_entry::FileStat;
use jit::lockfile::LockAttempt;

use rand::Rng;

fn index() -> Index {
    Index::new(b"../tmp/index".to_vec())
}

fn stat() -> FileStat {
    FileStat {
        ctime: 1,
        ctime_nsec: 2,
        mtime: 3,
        mtime_nsec: 4,
        dev: 5,
        ino: 6,
        mode: 0o100644,
        uid: 7,
        gid: 8,
        size: 9,
    }
}

fn random_hex(length: usize) -> Vec<u8> {
    const CHARSET: &[u8] = b"0123456789abcdef";
    let mut rng = rand::thread_rng();
    (0..length).map(|_| CHARSET[rng.gen_range(0..CHARSET.len())]).collect()
}

fn paths(index: &Index) -> Vec<Vec<u8>> {
    index.entries().iter().map(|e| e.path().clone()).collect()
}

#[test]
fn it_adds_a_single_file() {
    let mut index: Index = index();
    let stat = stat();
    let oid = random_hex(20);

    index.add(b"alice.txt".to_vec(), oid, stat);

    assert_eq!(vec![b"alice.txt".to_vec()], paths(&index));
}

#[test]
fn it_replaces_a_file_with_a_directory() {
    let mut index: Index = index();

    index.add(b"alice.txt".to_vec(), random_hex(20), stat());
    index.add(b"bob.txt".to_vec(), random_hex(20), stat());

    index.add(b"alice.txt/nested.txt".to_vec(), random_hex(20), stat());

    assert_eq!(
        vec![b"alice.txt/nested.txt".to_vec(), b"bob.txt".to_vec()],
        paths(&index)
    );
}

#[test]
fn it_replaces_a_directory_with_a_file() {
    let mut index: Index = index();

    index.add(b"alice.txt".to_vec(), random_hex(20), stat());
    index.add(b"nested/bob.txt".to_vec(), random_hex(20), stat());

    index.add(b"nested".to_vec(), random_hex(20), stat());

    assert_eq!(vec![b"alice.txt".to_vec(), b"nested".to_vec()], paths(&index));
}

#[test]
fn it_recursively_replaces_a_directory_with_a_file() {
    let mut index: Index = index();

    index.add(b"alice.txt".to_vec(), random_hex(20), stat());
    index.add(b"nested/bob.txt".to_vec(), random_hex(20), stat());
    index.add(b"nested/inner/claire.txt".to_vec(), random_hex(20), stat());

    index.add(b"nested".to_vec(), random_hex(20), stat());

    assert_eq!(vec![b"alice.txt".to_vec(), b"nested".to_vec()], paths(&index));
}

#[test]
fn entries_stay_sorted_after_many_adds() {
    let mut index: Index = index();
    for p in [&b"zeta"[..], b"alpha/one", b"mid.txt", b"alpha/two", b"beta"] {
        index.add(p.to_vec(), random_hex(40), stat());
    }
    let ps = paths(&index);
    for w in ps.windows(2) {
        assert!(w[0] < w[1], "paths must strictly ascend");
    }
}

#[test]
fn no_entry_lives_under_another() {
    let mut index: Index = index();
    for p in [&b"a"[..], b"a/b", b"a/b/c", b"a/b/c/d", b"a/b"] {
        index.add(p.to_vec(), random_hex(40), stat());
    }
    let ps = paths(&index);
    for x in &ps {
        for y in &ps {
            if x != y {
                let mut prefix = x.clone();
                prefix.push(b'/');
                assert!(!y.starts_with(&prefix[..]), "cohabiting paths staged");
            }
        }
    }
}

#[test]
fn serialized_index_has_expected_bytes() {
    let mut index: Index = index();
    assert_eq!(Ok(true), index.load_for_update(LockAttempt::Created, None));
    let oid = b"ce013625030ba8dba906f756967f9e9ca394464a".to_vec();
    let stat = FileStat {
        ctime: 0,
        ctime_nsec: 0,
        mtime: 0,
        mtime_nsec: 0,
        dev: 0,
        ino: 0,
        mode: 0o100644,
        uid: 0,
        gid: 0,
        size: 0,
    };
    index.add(b"a".to_vec(), oid, stat);
    let written = index.write_updates().unwrap().unwrap();
    let expected = {
        let mut v = hex::decode(
            "444952430000000200000001000000000000000000000000000000000000000000000000000081a4\
             000000000000000000000000ce013625030ba8dba906f756967f9e9ca394464a00016100",
        )
        .unwrap();
        v.extend_from_slice(&hex::decode("e4a3abab47030da20b0022a6758c1357e301c7d2").unwrap());
        v
    };
    assert_eq!(expected, written);
}

#[test]
fn index_round_trips_through_its_file_form() {
    let mut index: Index = index();
    assert_eq!(Ok(true), index.load_for_update(LockAttempt::Created, None));
    index.add(b"b/deep/file".to_vec(), random_hex(40), stat());
    index.add(b"a.txt".to_vec(), random_hex(40), stat());
    index.add(b"c".to_vec(), random_hex(40), stat());
    let before: Vec<Vec<u8>> = paths(&index);
    let written = index.write_updates().unwrap().unwrap();

    let mut reloaded = Index::new(b"../tmp/index".to_vec());
    assert_eq!(Ok(()), reloaded.load(Some(&written)));
    assert_eq!(before, paths(&reloaded));
    for (a, b) in index.entries().iter().zip(reloaded.entries().iter()) {
        assert_eq!(a.oid, b.oid);
        assert_eq!(a.mode, b.mode);
        assert_eq!(a.flags, b.flags);
    }
}

#[test]
fn a_flipped_checksum_bit_is_detected() {
    let mut index: Index = index();
    assert_eq!(Ok(true), index.load_for_update(LockAttempt::Created, None));
    index.add(b"alice.txt".to_vec(), random_hex(40), stat());
    let mut written = index.write_updates().unwrap().unwrap();
    let last = written.len() - 1;
    written[last] ^= 1;

    let mut reloaded = Index::new(b"../tmp/index".to_vec());
    assert_eq!(Err(LoadError::ChecksumMismatch), reloaded.load(Some(&written)));
}

#[test]
fn a_flipped_signature_bit_is_detected() {
    let mut index: Index = index();
    assert_eq!(Ok(true), index.load_for_update(LockAttempt::Created, None));
    index.add(b"alice.txt".to_vec(), random_hex(40), stat());
    let mut written = index.write_updates().unwrap().unwrap();
    written[0] ^= 1;

    let mut reloaded = Index::new(b"../tmp/index".to_vec());
    assert_eq!(Err(LoadError::Invalid), reloaded.load(Some(&written)));
}

#[test]
fn a_short_file_reports_end_of_file() {
    let mut reloaded = Index::new(b"../tmp/index".to_vec());
    assert_eq!(Err(LoadError::EndOfFile), reloaded.load(Some(&b"DIRC".to_vec())));
}

#[test]
fn loading_nothing_gives_an_empty_index() {
    let mut index = Index::new(b"../tmp/index".to_vec());
    assert_eq!(Ok(()), index.load(None));
    assert!(index.entries().is_empty());
}

#[test]
fn an_unheld_lock_cannot_publish() {
    let mut index: Index = index();
    index.add(b"alice.txt".to_vec(), random_hex(40), stat());
    assert!(index.write_updates().is_err());
}

#[test]
fn a_busy_lock_reports_false() {
    let mut index: Index = index();
    assert_eq!(Ok(false), index.load_for_update(LockAttempt::AlreadyExists, None));
}
