use sha1::Digest;

use minigit::codec::ObjectKind;
use minigit::commit::{commit_body, git_write_commit};
use minigit::store::Object;

#[test]
fn commit_text_without_parent() {
    let body = commit_body(
        "4b825dc642cb6eb9a060e54bf8d69288fbee4904",
        None,
        "Initial commit",
        "Alice",
        "alice@example.com",
        1697750400,
        19800,
    );
    assert_eq!(
        String::from_utf8(body).unwrap(),
        "tree 4b825dc642cb6eb9a060e54bf8d69288fbee4904\n\
         author Alice <alice@example.com> 1697750400 +0530\n\
         committer Alice <alice@example.com> 1697750400 +0530\n\
         \n\
         Initial commit\n"
    );
}

#[test]
fn commit_text_with_parent_and_negative_zone() {
    let body = commit_body("t", Some("p"), "m", "Bob", "b@x", 5, -1800);
    assert_eq!(
        String::from_utf8(body).unwrap(),
        "tree t\nparent p\nauthor Bob <b@x> 5 -0030\ncommitter Bob <b@x> 5 -0030\n\nm\n"
    );
    let west = commit_body("t", None, "m", "B", "e", -7, -36000);
    assert!(String::from_utf8(west).unwrap().contains("author B <e> -7 -1000\n"));
    let utc = commit_body("t", None, "", "B", "e", 0, 0);
    assert!(String::from_utf8(utc).unwrap().ends_with("committer B <e> 0 +0000\n\n\n"));
}

#[test]
fn commit_object_id_and_contents() {
    let stored = git_write_commit("abc", None, "msg", "A", "a@b", 10, 3600);
    let text = b"tree abc\nauthor A <a@b> 10 +0100\ncommitter A <a@b> 10 +0100\n\nmsg\n".to_vec();
    let mut encoded = format!("commit {}\0", text.len()).into_bytes();
    encoded.extend(&text);
    let digest: [u8; 20] = sha1::Sha1::digest(&encoded).into();
    assert_eq!(stored.id, digest);
    let back = Object::read_git_object(&stored.compressed).unwrap();
    assert_eq!(back.kind, ObjectKind::Commit);
    assert_eq!(back.payload, text);
}
