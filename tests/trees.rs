use sha1::Digest;

use minigit::codec::{decode_tree_entries, ObjectKind};
use minigit::error::ObjectError;
use minigit::listing::{git_cat_file, git_ls_tree, git_read_tree_content};
use minigit::store::{git_hash_object, Object};
use minigit::tree::{build_tree, get_mode_for_entry, git_write_tree, DirEntry, EntryKind};

fn file(name: &str, content: &[u8], permissions: u32) -> DirEntry {
    DirEntry {
        name: name.as_bytes().to_vec(),
        kind: EntryKind::File,
        permissions,
        id: Some(git_hash_object(content.to_vec()).id),
    }
}

fn dir(name: &str, id: Option<[u8; 20]>) -> DirEntry {
    DirEntry { name: name.as_bytes().to_vec(), kind: EntryKind::Directory, permissions: 0o755, id }
}

fn names_of(payload: &[u8]) -> Vec<Vec<u8>> {
    decode_tree_entries(payload).unwrap().into_iter().map(|e| e.name).collect()
}

fn payload_of(stored: &minigit::store::StoredObject) -> Vec<u8> {
    let o = Object::read_git_object(&stored.compressed).unwrap();
    assert_eq!(o.kind, ObjectKind::Tree);
    o.payload
}

#[test]
fn modes_of_entries() {
    assert_eq!(get_mode_for_entry(EntryKind::Directory, 0o755), b"40000".to_vec());
    assert_eq!(get_mode_for_entry(EntryKind::Symlink, 0o777), b"120000".to_vec());
    assert_eq!(get_mode_for_entry(EntryKind::File, 0o755), b"100755".to_vec());
    assert_eq!(get_mode_for_entry(EntryKind::File, 0o744), b"100755".to_vec());
    assert_eq!(get_mode_for_entry(EntryKind::File, 0o100644), b"100644".to_vec());
}

#[test]
fn directory_sorts_after_file_with_dot() {
    let sub = build_tree(&vec![file("x", b"x", 0o644)]).unwrap().unwrap();
    let entries = vec![dir("foo", Some(sub.id)), file("foo.txt", b"t", 0o644), file("fooz", b"z", 0o644)];
    let tree = build_tree(&entries).unwrap().unwrap();
    assert_eq!(
        names_of(&payload_of(&tree)),
        vec![b"foo.txt".to_vec(), b"foo".to_vec(), b"fooz".to_vec()]
    );
}

#[test]
fn file_sorts_before_longer_names() {
    let entries = vec![file("ab", b"1", 0o644), file("a", b"2", 0o644), file("a-b", b"3", 0o644)];
    let tree = build_tree(&entries).unwrap().unwrap();
    assert_eq!(names_of(&payload_of(&tree)), vec![b"a".to_vec(), b"a-b".to_vec(), b"ab".to_vec()]);
}

#[test]
fn order_of_walk_does_not_matter() {
    let sub = build_tree(&vec![file("inner", b"i", 0o644)]).unwrap().unwrap();
    let a = vec![file("b", b"B", 0o644), dir("d", Some(sub.id)), file("a", b"A", 0o755)];
    let b = vec![dir("d", Some(sub.id)), file("a", b"A", 0o755), file("b", b"B", 0o644)];
    let c = vec![file("a", b"A", 0o755), file("b", b"B", 0o644), dir("d", Some(sub.id))];
    let ta = build_tree(&a).unwrap().unwrap();
    assert_eq!(ta.id, build_tree(&b).unwrap().unwrap().id);
    assert_eq!(ta.id, build_tree(&c).unwrap().unwrap().id);
}

#[test]
fn empty_subdirectory_is_left_out() {
    let empty = build_tree(&vec![dir("deeper", None)]).unwrap();
    assert!(empty.is_none());
    let with = vec![file("a", b"A", 0o644), dir("empty", None)];
    let without = vec![file("a", b"A", 0o644)];
    let t1 = build_tree(&with).unwrap().unwrap();
    let t2 = build_tree(&without).unwrap().unwrap();
    assert_eq!(t1.id, t2.id);
    assert_eq!(names_of(&payload_of(&t1)), vec![b"a".to_vec()]);
}

#[test]
fn empty_working_tree_has_no_tree() {
    assert!(build_tree(&Vec::new()).unwrap().is_none());
    assert_eq!(git_write_tree(&Vec::new()).err(), Some(ObjectError::EmptyTree));
}

#[test]
fn single_file_tree_is_canonical_and_reproducible() {
    let entries = vec![file("hello.txt", b"hello world\n", 0o644)];
    let t1 = git_write_tree(&entries).unwrap();
    let t2 = git_write_tree(&entries).unwrap();
    assert_eq!(t1.id, t2.id);
    let mut expected = b"100644 hello.txt\0".to_vec();
    expected.extend(hex::decode("3b18e512dba79e4c8300dd08aeb37f8e728b8dad").unwrap());
    assert_eq!(payload_of(&t1), expected);
    let mut encoded = format!("tree {}\0", expected.len()).into_bytes();
    encoded.extend(&expected);
    let digest: [u8; 20] = sha1::Sha1::digest(&encoded).into();
    assert_eq!(t1.id, digest);
}

#[test]
fn invalid_names_are_rejected() {
    assert_eq!(build_tree(&vec![file("a/b", b"1", 0o644)]).err(), Some(ObjectError::MalformedTreeEntry));
    assert_eq!(build_tree(&vec![file("", b"1", 0o644)]).err(), Some(ObjectError::MalformedTreeEntry));
    assert_eq!(build_tree(&vec![file("a\0", b"1", 0o644)]).err(), Some(ObjectError::MalformedTreeEntry));
    assert_eq!(
        build_tree(&vec![file("same", b"1", 0o644), file("same", b"2", 0o644)]).err(),
        Some(ObjectError::MalformedTreeEntry)
    );
}

#[test]
fn tree_listing_lines() {
    let sub = build_tree(&vec![file("x", b"x", 0o644)]).unwrap().unwrap();
    let entries = vec![file("run.sh", b"#!/bin/sh\n", 0o755), dir("src", Some(sub.id))];
    let tree = build_tree(&entries).unwrap().unwrap();
    let object = Object::read_git_object(&tree.compressed).unwrap();
    let blob = hex::encode(git_hash_object(b"#!/bin/sh\n".to_vec()).id);
    let full = format!(
        "100755 blob {}    run.sh\n040000 tree {}    src\n",
        blob,
        hex::encode(sub.id)
    );
    assert_eq!(git_ls_tree(false, &object), Ok(full.clone().into_bytes()));
    assert_eq!(git_ls_tree(true, &object), Ok(b"run.sh\nsrc\n".to_vec()));
    assert_eq!(git_cat_file(true, &object), Ok(full.into_bytes()));
}

#[test]
fn listing_errors() {
    let blob = Object::new(ObjectKind::Blob, b"hi".to_vec());
    assert_eq!(git_ls_tree(false, &blob), Err(ObjectError::NotATree));
    assert_eq!(git_cat_file(true, &blob), Ok(b"hi".to_vec()));
    assert_eq!(git_cat_file(false, &blob), Err(ObjectError::Unsupported));
    let mut bad_mode = b"10064x a\0".to_vec();
    bad_mode.extend([0u8; 20]);
    let tree = Object::new(ObjectKind::Tree, bad_mode);
    assert_eq!(git_ls_tree(true, &tree), Err(ObjectError::UnknownMode));
    let truncated = Object::new(ObjectKind::Tree, b"100644 a\0abc".to_vec());
    assert_eq!(git_ls_tree(false, &truncated), Err(ObjectError::MalformedTreeEntry));
    let lying = Object { kind: ObjectKind::Blob, expected_size: 9, payload: b"hi".to_vec() };
    assert_eq!(git_cat_file(true, &lying), Err(ObjectError::SizeMismatch { expected: 9, actual: 2 }));
}

#[test]
fn listing_reads_only_the_declared_size() {
    let trailing = Object { kind: ObjectKind::Tree, expected_size: 0, payload: b"A".to_vec() };
    assert_eq!(git_ls_tree(false, &trailing), Ok(Vec::new()));
    let mut two = b"100644 a\0".to_vec();
    two.extend([1u8; 20]);
    let first_len = two.len() as u64;
    two.extend(b"100644 b\0");
    two.extend([2u8; 20]);
    let one_declared = Object { kind: ObjectKind::Tree, expected_size: first_len, payload: two };
    assert_eq!(git_ls_tree(true, &one_declared), Ok(b"a\n".to_vec()));
    assert_eq!(git_read_tree_content(&one_declared, true), Ok(b"a\n".to_vec()));
    let short = Object { kind: ObjectKind::Tree, expected_size: 40, payload: b"100644".to_vec() };
    assert_eq!(git_ls_tree(true, &short), Err(ObjectError::SizeMismatch { expected: 40, actual: 6 }));
}

#[test]
fn cat_file_prints_only_the_declared_size() {
    let long = Object { kind: ObjectKind::Blob, expected_size: 3, payload: b"abcdef".to_vec() };
    assert_eq!(git_cat_file(true, &long), Ok(b"abc".to_vec()));
    let commit = Object { kind: ObjectKind::Commit, expected_size: 0, payload: b"x".to_vec() };
    assert_eq!(git_cat_file(true, &commit), Ok(Vec::new()));
}
