use std::io::Read;

use jit::author::Author;
use jit::blob::Blob;
use jit::commit::Commit;
use jit::database::{Database, Storable};
use jit::hashing::hash_bytes;
use jit::index::Index;
use jit::index_entry::FileStat;
use jit::tree::{OidAndMode, Tree};

fn stat() -> FileStat {
    FileStat {
        ctime: 0,
        ctime_nsec: 0,
        mtime: 0,
        mtime_nsec: 0,
        dev: 0,
        ino: 0,
        mode: 0o100644,
        uid: 0,
        gid: 0,
        size: 6,
    }
}

fn author() -> Author {
    Author::new(b"A U Thor".to_vec(), b"author@example.com".to_vec(), 0, 0)
}

#[test]
fn hash_of_empty_input_matches_sha1() {
    let digest = hash_bytes(&Vec::new());
    assert_eq!(b"da39a3ee5e6b4b0d3255bfef95601890afd80709".to_vec(), digest);
}

#[test]
fn a_stored_blob_gets_its_content_address() {
    let database = Database::new(b".git/objects".to_vec());
    let mut blob = Blob::new(String::from("hello\n"));
    assert!(blob.oid().is_none());
    let write = database.store(&mut blob);
    assert_eq!(b"ce013625030ba8dba906f756967f9e9ca394464a".to_vec(), write.oid);
    assert_eq!(Some(&write.oid), blob.oid());
    assert_eq!(
        b".git/objects/ce/013625030ba8dba906f756967f9e9ca394464a".to_vec(),
        write.object_path
    );
    assert_eq!(b".git/objects/ce".to_vec(), write.dirname);
    assert!(write.temp_path.starts_with(b".git/objects/ce/tmp_obj_"));
    assert_eq!(write.dirname.len() + 15, write.temp_path.len());
}

#[test]
fn stored_bytes_decompress_to_the_framed_object() {
    let database = Database::new(b"objects".to_vec());
    let mut blob = Blob::new(String::from("hello\n"));
    let write = database.store(&mut blob);
    let mut decoder = flate2::read::ZlibDecoder::new(&write.content[..]);
    let mut raw = Vec::new();
    decoder.read_to_end(&mut raw).unwrap();
    assert_eq!(b"blob 6\x00hello\n".to_vec(), raw);
}

#[test]
fn storing_equal_content_twice_collides_on_the_same_file() {
    let database = Database::new(b"objects".to_vec());
    let mut one = Blob::new(String::from("same"));
    let mut two = Blob::new(String::from("same"));
    let w1 = database.store(&mut one);
    let w2 = database.store(&mut two);
    assert_eq!(w1.oid, w2.oid);
    assert_eq!(w1.object_path, w2.object_path);
    assert_eq!(w1.content, w2.content);
}

#[test]
fn a_root_commit_flows_from_index_to_head() {
    // stage foo.txt containing "hello\n", build and store the tree, commit
    let database = Database::new(b".git/objects".to_vec());
    let mut blob = Blob::new(String::from("hello\n"));
    let blob_write = database.store(&mut blob);

    let mut index = Index::new(b".git/index".to_vec());
    index.add(b"foo.txt".to_vec(), blob_write.oid.clone(), stat());

    let mut root = Tree::build(index.entries()).unwrap();
    let mut writes = Vec::new();
    root.traverse(&database, &mut writes);
    assert_eq!(1, writes.len());
    let tree_write = &writes[0];
    assert_eq!(b"f269b7cd59094d5365ef6b5618098cbcbeee0c43".to_vec(), tree_write.oid);
    assert_eq!(tree_write.oid, *OidAndMode::oid(&root));

    let mut decoder = flate2::read::ZlibDecoder::new(&tree_write.content[..]);
    let mut raw = Vec::new();
    decoder.read_to_end(&mut raw).unwrap();
    let mut expected = b"tree 35\x00100644 foo.txt\x00".to_vec();
    expected.extend_from_slice(&hex::decode("ce013625030ba8dba906f756967f9e9ca394464a").unwrap());
    assert_eq!(expected, raw);

    let mut commit = Commit::new(None, OidAndMode::oid(&root).clone(), author(), b"first\n".to_vec());
    let commit_write = database.store(&mut commit);
    assert_eq!(b"bc02ca42eac49da3a2e1727a239a52e3661d29f9".to_vec(), commit_write.oid);

    let refs = jit::refs::Refs::new(b".git".to_vec());
    let head = refs
        .update_head(&commit_write.oid, jit::lockfile::LockAttempt::Created)
        .unwrap();
    assert_eq!(b"bc02ca42eac49da3a2e1727a239a52e3661d29f9\n".to_vec(), head);
}

#[test]
fn a_second_commit_links_its_parent() {
    let tree_oid = b"f269b7cd59094d5365ef6b5618098cbcbeee0c43".to_vec();
    let parent = b"bc02ca42eac49da3a2e1727a239a52e3661d29f9".to_vec();
    let database = Database::new(b".git/objects".to_vec());
    let mut commit = Commit::new(Some(parent.clone()), tree_oid, author(), b"second\n".to_vec());
    let write = database.store(&mut commit);
    assert_eq!(b"f843dfc5540f42c976e7794adf91cb24aa8f3466".to_vec(), write.oid);

    let payload = commit.to_string();
    let needle = b"\nparent bc02ca42eac49da3a2e1727a239a52e3661d29f9\n";
    assert!(payload.windows(needle.len()).any(|w| w == &needle[..]));
}

#[test]
fn commit_payload_lays_out_its_lines() {
    let commit = Commit::new(
        None,
        b"f269b7cd59094d5365ef6b5618098cbcbeee0c43".to_vec(),
        author(),
        b"first\n".to_vec(),
    );
    let expected = b"tree f269b7cd59094d5365ef6b5618098cbcbeee0c43\n\
                     author A U Thor <author@example.com> 0 +0000\n\
                     committer A U Thor <author@example.com> 0 +0000\n\
                     \nfirst\n"
        .to_vec();
    assert_eq!(expected, commit.to_string());
}

#[test]
fn author_line_shows_timestamp_and_offset() {
    let a = Author::new(b"A".to_vec(), b"a@b.c".to_vec(), 1700000000, -4500);
    assert_eq!(b"A <a@b.c> 1700000000 -0115".to_vec(), a.to_string());
    let b = Author::new(b"B".to_vec(), b"b@c.d".to_vec(), -1, 3600);
    assert_eq!(b"B <b@c.d> -1 +0100".to_vec(), b.to_string());
}

#[test]
fn building_the_same_entries_twice_gives_identical_trees() {
    let database = Database::new(b"objects".to_vec());
    let oid = b"ce013625030ba8dba906f756967f9e9ca394464a".to_vec();
    let mut index = Index::new(b"index".to_vec());
    index.add(b"lib/inner/file.txt".to_vec(), oid.clone(), stat());
    index.add(b"lib/other.txt".to_vec(), oid.clone(), stat());
    index.add(b"top.txt".to_vec(), oid, stat());

    let mut writes1 = Vec::new();
    let mut root1 = Tree::build(index.entries()).unwrap();
    root1.traverse(&database, &mut writes1);

    let mut writes2 = Vec::new();
    let mut root2 = Tree::build(index.entries()).unwrap();
    root2.traverse(&database, &mut writes2);

    assert_eq!(OidAndMode::oid(&root1), OidAndMode::oid(&root2));
    assert_eq!(writes1.len(), writes2.len());
    for (a, b) in writes1.iter().zip(writes2.iter()) {
        assert_eq!(a.oid, b.oid);
        assert_eq!(a.content, b.content);
        assert_eq!(a.object_path, b.object_path);
    }
    // post-order: the root is stored last, after its subtrees
    assert_eq!(3, writes1.len());
    assert_eq!(&writes1[2].oid, OidAndMode::oid(&root1));
}

#[test]
fn a_file_under_a_file_cannot_become_a_tree() {
    let oid = b"ce013625030ba8dba906f756967f9e9ca394464a".to_vec();
    let mut index = Index::new(b"index".to_vec());
    index.add(b"a".to_vec(), oid.clone(), stat());
    // bypass the index's conflict discard by handing the entries directly
    let mut bad = Index::new(b"index".to_vec());
    bad.add(b"a/b".to_vec(), oid.clone(), stat());
    let mut entries: Vec<jit::index_entry::Entry> = index.entries().clone();
    entries.extend(bad.entries().iter().cloned());
    assert!(Tree::build(&entries).is_err());
}

#[test]
fn executable_entries_keep_their_mode() {
    let oid = b"ce013625030ba8dba906f756967f9e9ca394464a".to_vec();
    let mut exec_stat = stat();
    exec_stat.mode = 0o100755;
    let database = Database::new(b"objects".to_vec());
    let mut index = Index::new(b"index".to_vec());
    index.add(b"run.sh".to_vec(), oid, exec_stat);
    let mut root = Tree::build(index.entries()).unwrap();
    let mut writes = Vec::new();
    root.traverse(&database, &mut writes);
    let mut decoder = flate2::read::ZlibDecoder::new(&writes[0].content[..]);
    let mut raw = Vec::new();
    decoder.read_to_end(&mut raw).unwrap();
    assert!(raw.windows(b"100755 run.sh".len()).any(|w| w == &b"100755 run.sh"[..]));
}
