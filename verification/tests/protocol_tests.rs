use jit::index_entry::{Entry, FileStat};
use jit::lockfile::{LockAttempt, LockError, Lockfile, StaleLock};
use jit::refs::Refs;
use jit::workspace::Workspace;

#[test]
fn a_lockfile_acquires_writes_and_publishes() {
    let mut lock = Lockfile::new(b"repo/index".to_vec());
    assert_eq!(b"repo/index".to_vec(), *lock.file_path());
    assert_eq!(b"repo/index.lock".to_vec(), *lock.lock_path());

    assert_eq!(Ok(true), lock.hold_for_update(LockAttempt::Created));
    assert_eq!(Ok(()), lock.write(&b"one ".to_vec()));
    assert_eq!(Ok(()), lock.write(&b"two".to_vec()));
    assert_eq!(Ok(b"one two".to_vec()), lock.commit());
}

#[test]
fn a_busy_sentinel_denies_the_lock() {
    let mut lock = Lockfile::new(b"repo/index".to_vec());
    assert_eq!(Ok(false), lock.hold_for_update(LockAttempt::AlreadyExists));
    assert_eq!(
        Err(LockError::MissingParent),
        lock.hold_for_update(LockAttempt::MissingParent)
    );
    assert_eq!(
        Err(LockError::NoPermission),
        lock.hold_for_update(LockAttempt::PermissionDenied)
    );
}

#[test]
fn an_unheld_lock_is_stale() {
    let mut lock = Lockfile::new(b"repo/index".to_vec());
    assert_eq!(Err(StaleLock), lock.write(&b"data".to_vec()));
    assert_eq!(Err(StaleLock), lock.commit());
    assert_eq!(Err(StaleLock), lock.rollback());
}

#[test]
fn rolling_back_discards_pending_bytes() {
    let mut lock = Lockfile::new(b"repo/index".to_vec());
    assert_eq!(Ok(true), lock.hold_for_update(LockAttempt::Created));
    assert_eq!(Ok(()), lock.write(&b"doomed".to_vec()));
    assert_eq!(Ok(()), lock.rollback());
    assert_eq!(Err(StaleLock), lock.commit());
}

#[test]
fn update_head_appends_a_newline() {
    let refs = Refs::new(b".git".to_vec());
    let oid = b"ce013625030ba8dba906f756967f9e9ca394464a".to_vec();
    let published = refs.update_head(&oid, LockAttempt::Created).unwrap();
    let mut expected = oid.clone();
    expected.push(b'\n');
    assert_eq!(expected, published);
}

#[test]
fn update_head_surfaces_contention_as_denied() {
    let refs = Refs::new(b".git".to_vec());
    let oid = b"ce013625030ba8dba906f756967f9e9ca394464a".to_vec();
    assert!(refs.update_head(&oid, LockAttempt::AlreadyExists).is_err());
    assert!(refs.update_head(&oid, LockAttempt::MissingParent).is_err());
}

#[test]
fn read_head_trims_the_stored_reference() {
    let refs = Refs::new(b".git".to_vec());
    assert_eq!(None, refs.read_head(None));
    let contents = b"ce013625030ba8dba906f756967f9e9ca394464a\n".to_vec();
    assert_eq!(
        Some(b"ce013625030ba8dba906f756967f9e9ca394464a".to_vec()),
        refs.read_head(Some(&contents))
    );
}

#[test]
fn the_workspace_skips_repository_and_build_directories() {
    assert!(Workspace::is_ignored(&b".git".to_vec()));
    assert!(Workspace::is_ignored(&b"target".to_vec()));
    assert!(!Workspace::is_ignored(&b"src".to_vec()));
}

#[test]
fn workspace_paths_become_relative_to_the_root() {
    let root = b"/home/me/project".to_vec();
    let inside = b"/home/me/project/src/main.rs".to_vec();
    assert_eq!(Some(b"src/main.rs".to_vec()), Workspace::relativize(&root, &inside));
    let outside = b"/etc/passwd".to_vec();
    assert_eq!(None, Workspace::relativize(&root, &outside));
    let w = Workspace::new(root.clone());
    assert_eq!(&root, w.pathname());
}

#[test]
fn an_entry_serializes_to_its_padded_record() {
    let stat = FileStat {
        ctime: 0,
        ctime_nsec: 0,
        mtime: 0,
        mtime_nsec: 0,
        dev: 0,
        ino: 0,
        mode: 0o100644,
        uid: 0,
        gid: 0,
        size: 0,
    };
    let oid = b"ce013625030ba8dba906f756967f9e9ca394464a".to_vec();
    let entry = Entry::new(b"a".to_vec(), &oid, stat);
    let record = entry.to_string();
    let expected = hex::decode(
        "000000000000000000000000000000000000000000000000000081a4000000000000000000000000\
         ce013625030ba8dba906f756967f9e9ca394464a00016100",
    )
    .unwrap();
    assert_eq!(expected, record);
    assert_eq!(64, record.len());
}

#[test]
fn an_entry_reads_back_from_its_record() {
    let stat = FileStat {
        ctime: 11,
        ctime_nsec: 12,
        mtime: 13,
        mtime_nsec: 14,
        dev: 15,
        ino: 16,
        mode: 0o100755,
        uid: 17,
        gid: 18,
        size: 19,
    };
    let oid = b"ce013625030ba8dba906f756967f9e9ca394464a".to_vec();
    let entry = Entry::new(b"src/lib.rs".to_vec(), &oid, stat);
    let record = entry.to_string();
    assert_eq!(0, record.len() % 8);

    let back = Entry::from(record);
    assert_eq!(entry.path(), back.path());
    assert_eq!(entry.oid, back.oid);
    assert_eq!(entry.mode, back.mode);
    assert_eq!(entry.flags, back.flags);
    assert_eq!(entry.ctime, back.ctime);
    assert_eq!(entry.size, back.size);
}

#[test]
fn long_paths_cap_the_flags_field() {
    let stat = FileStat {
        ctime: 0,
        ctime_nsec: 0,
        mtime: 0,
        mtime_nsec: 0,
        dev: 0,
        ino: 0,
        mode: 0o100644,
        uid: 0,
        gid: 0,
        size: 0,
    };
    let oid = b"ce013625030ba8dba906f756967f9e9ca394464a".to_vec();
    let long_path = vec![b'x'; 5000];
    let entry = Entry::new(long_path, &oid, stat);
    assert_eq!(0xfff, entry.flags);
    let short = Entry::new(b"ab".to_vec(), &oid, stat);
    assert_eq!(2, short.flags);
}

#[test]
fn entry_parents_and_basename_follow_the_separators() {
    let stat = FileStat {
        ctime: 0,
        ctime_nsec: 0,
        mtime: 0,
        mtime_nsec: 0,
        dev: 0,
        ino: 0,
        mode: 0o100644,
        uid: 0,
        gid: 0,
        size: 0,
    };
    let oid = b"ce013625030ba8dba906f756967f9e9ca394464a".to_vec();
    let entry = Entry::new(b"a/b/c.txt".to_vec(), &oid, stat);
    assert_eq!(b"c.txt".to_vec(), entry.basename());
    assert_eq!(vec![b"a".to_vec(), b"b".to_vec()], entry.parent_directories());
    let top = Entry::new(b"c.txt".to_vec(), &oid, stat);
    assert_eq!(b"c.txt".to_vec(), top.basename());
    assert!(top.parent_directories().is_empty());
}
