use std::io::Write;

use sha1::Digest;

use minigit::codec::{
    decode_header, decode_tree_entries, encode_header, encode_tree_entry, ObjectKind,
};
use minigit::error::ObjectError;
use minigit::listing::git_cat_file;
use minigit::store::{fanout_dir, git_hash_object, object_location, resolve_reference, Object};

fn zlib(bytes: &[u8]) -> Vec<u8> {
    let mut e = flate2::write::ZlibEncoder::new(Vec::new(), flate2::Compression::default());
    e.write_all(bytes).unwrap();
    e.finish().unwrap()
}

#[test]
fn kind_tokens_round_trip() {
    for k in [ObjectKind::Blob, ObjectKind::Tree, ObjectKind::Commit] {
        assert_eq!(ObjectKind::from_str(k.to_str()), Ok(k));
    }
    assert_eq!(ObjectKind::Blob.to_str(), "blob");
    assert_eq!(ObjectKind::Tree.to_str(), "tree");
    assert_eq!(ObjectKind::Commit.to_str(), "commit");
    assert_eq!(ObjectKind::from_str("tag"), Err(ObjectError::UnknownObjectKind));
    assert_eq!(ObjectKind::from_str("Blob"), Err(ObjectError::UnknownObjectKind));
}

#[test]
fn modes_map_to_kinds() {
    assert_eq!(ObjectKind::from_mode("40000"), Ok(ObjectKind::Tree));
    assert_eq!(ObjectKind::from_mode("160000"), Ok(ObjectKind::Commit));
    assert_eq!(ObjectKind::from_mode("100644"), Ok(ObjectKind::Blob));
    assert_eq!(ObjectKind::from_mode("100755"), Ok(ObjectKind::Blob));
    assert_eq!(ObjectKind::from_mode("120000"), Ok(ObjectKind::Blob));
    assert_eq!(ObjectKind::from_mode("100648"), Err(ObjectError::UnknownMode));
    assert_eq!(ObjectKind::from_mode(""), Err(ObjectError::UnknownMode));
    assert_eq!(ObjectKind::from_mode("77777777777"), Err(ObjectError::UnknownMode));
}

#[test]
fn header_encoding_is_exact() {
    assert_eq!(encode_header(ObjectKind::Blob, 12), b"blob 12\0".to_vec());
    assert_eq!(encode_header(ObjectKind::Tree, 0), b"tree 0\0".to_vec());
    assert_eq!(
        encode_header(ObjectKind::Commit, u64::MAX),
        b"commit 18446744073709551615\0".to_vec()
    );
}

#[test]
fn header_decoding() {
    assert_eq!(decode_header(b"blob 12\0hello"), Ok((ObjectKind::Blob, 12, 8)));
    assert_eq!(decode_header(b"commit 0\0"), Ok((ObjectKind::Commit, 0, 9)));
    assert_eq!(decode_header(b"blob 12"), Err(ObjectError::MalformedHeader));
    assert_eq!(decode_header(b"blob12\0"), Err(ObjectError::MalformedHeader));
    assert_eq!(decode_header(b"blub 12\0"), Err(ObjectError::MalformedHeader));
    assert_eq!(decode_header(b"blob 1 2\0"), Err(ObjectError::MalformedHeader));
    assert_eq!(decode_header(b"blob -1\0"), Err(ObjectError::MalformedHeader));
    assert_eq!(decode_header(b"blob \0"), Err(ObjectError::MalformedHeader));
    assert_eq!(
        decode_header(b"blob 18446744073709551616\0"),
        Err(ObjectError::MalformedHeader)
    );
}

#[test]
fn tree_entry_encoding_round_trips() {
    let id = [7u8; 20];
    let mut bytes = encode_tree_entry(b"100644", b"a.txt", &id);
    assert_eq!(&bytes[..13], b"100644 a.txt\0");
    bytes.extend(encode_tree_entry(b"40000", b"dir", &[9u8; 20]));
    let es = decode_tree_entries(&bytes).unwrap();
    assert_eq!(es.len(), 2);
    assert_eq!(es[0].mode, b"100644".to_vec());
    assert_eq!(es[0].name, b"a.txt".to_vec());
    assert_eq!(es[0].id, id.to_vec());
    assert_eq!(es[1].name, b"dir".to_vec());
    assert_eq!(es[1].id, vec![9u8; 20]);
}

#[test]
fn malformed_tree_entries_are_rejected() {
    let good = encode_tree_entry(b"100644", b"a", &[1u8; 20]);
    assert_eq!(decode_tree_entries(&good[..good.len() - 1]).err(), Some(ObjectError::MalformedTreeEntry));
    assert_eq!(decode_tree_entries(b"100644a\0aaaaaaaaaaaaaaaaaaaa").err(), Some(ObjectError::MalformedTreeEntry));
    assert_eq!(decode_tree_entries(b"100644 a").err(), Some(ObjectError::MalformedTreeEntry));
    let bad_text = encode_tree_entry(b"100644", &[0xff, 0xfe], &[1u8; 20]);
    assert_eq!(decode_tree_entries(&bad_text).err(), Some(ObjectError::MalformedTreeEntry));
    assert_eq!(decode_tree_entries(b"").unwrap().len(), 0);
}

#[test]
fn hello_world_blob_id() {
    let stored = git_hash_object(b"hello world\n".to_vec());
    let digest: [u8; 20] = sha1::Sha1::digest(b"blob 12\0hello world\n").into();
    assert_eq!(stored.id, digest);
    assert_eq!(hex::encode(stored.id), "3b18e512dba79e4c8300dd08aeb37f8e728b8dad");
    let capitalised = git_hash_object(b"Hello World\n".to_vec());
    assert_eq!(hex::encode(capitalised.id), "557db03de997c86a4a028e1ebd3a1ceb225be238");
    let (dir, file) = object_location(&capitalised.id);
    assert_eq!(dir, b"55".to_vec());
    assert_eq!(file, b"7db03de997c86a4a028e1ebd3a1ceb225be238".to_vec());
}

#[test]
fn empty_blob_id() {
    let stored = git_hash_object(Vec::new());
    assert_eq!(hex::encode(stored.id), "e69de29bb2d1d6434b8b29ae775ad8c2e48c5391");
}

#[test]
fn written_object_reads_back() {
    for (kind, payload) in [
        (ObjectKind::Blob, b"hello world\n".to_vec()),
        (ObjectKind::Commit, b"tree abc\n\nmsg\n".to_vec()),
        (ObjectKind::Tree, Vec::new()),
        (ObjectKind::Blob, (0..=255u8).cycle().take(100_000).collect()),
    ] {
        let object = Object::new(kind, payload.clone());
        let stored = object.write().unwrap();
        let back = Object::read_git_object(&stored.compressed).unwrap();
        assert_eq!(back.kind, kind);
        assert_eq!(back.expected_size, payload.len() as u64);
        assert_eq!(back.payload, payload);
    }
}

#[test]
fn write_uses_exactly_the_declared_size() {
    let object = Object { kind: ObjectKind::Blob, expected_size: 5, payload: b"hello world\n".to_vec() };
    let stored = object.write().unwrap();
    let back = Object::read_git_object(&stored.compressed).unwrap();
    assert_eq!(back.payload, b"hello".to_vec());
    let short = Object { kind: ObjectKind::Blob, expected_size: 20, payload: b"hello".to_vec() };
    assert_eq!(short.write().err(), Some(ObjectError::SizeMismatch { expected: 20, actual: 5 }));
}

#[test]
fn read_stops_at_declared_size() {
    let stored = zlib(b"blob 3\0abcdefghijklmnop");
    let o = Object::read_git_object(&stored).unwrap();
    assert_eq!(o.kind, ObjectKind::Blob);
    assert_eq!(o.expected_size, 3);
    assert_eq!(o.payload, b"abc".to_vec());
}

#[test]
fn read_of_short_payload_keeps_what_is_there() {
    let stored = zlib(b"blob 10\0abc");
    let o = Object::read_git_object(&stored).unwrap();
    assert_eq!(o.kind, ObjectKind::Blob);
    assert_eq!(o.expected_size, 10);
    assert_eq!(o.payload, b"abc".to_vec());
    assert_eq!(git_cat_file(true, &o), Err(ObjectError::SizeMismatch { expected: 10, actual: 3 }));
}

#[test]
fn header_with_long_zero_padded_size_reads() {
    let mut bytes = b"blob ".to_vec();
    bytes.extend(vec![b'0'; 300]);
    bytes.extend(b"3\0abcdef");
    let o = Object::read_git_object(&zlib(&bytes)).unwrap();
    assert_eq!(o.expected_size, 3);
    assert_eq!(o.payload, b"abc".to_vec());
}

#[test]
fn read_errors() {
    assert_eq!(Object::read_git_object(b"not zlib at all").err(), Some(ObjectError::CorruptStream));
    assert_eq!(Object::read_git_object(&zlib(b"blob 3")).err(), Some(ObjectError::MalformedHeader));
    assert_eq!(Object::read_git_object(&zlib(b"note 3\0abc")).err(), Some(ObjectError::MalformedHeader));
    let mut header_only_long = b"blob ".to_vec();
    header_only_long.extend(vec![b'1'; 100]);
    assert_eq!(Object::read_git_object(&zlib(&header_only_long)).err(), Some(ObjectError::MalformedHeader));
}

#[test]
fn reference_resolution() {
    let names = vec![
        b"7db03de997c86a4a028e1ebd3a1ceb225be238".to_vec(),
        b"7dc0000000000000000000000000000000000000".to_vec(),
        b"0123".to_vec(),
    ];
    assert_eq!(fanout_dir("557db"), Ok(b"55".to_vec()));
    assert_eq!(fanout_dir("55"), Err(ObjectError::InvalidReference));
    assert_eq!(resolve_reference("55", &names), Err(ObjectError::InvalidReference));
    assert_eq!(resolve_reference("557db", &names), Ok(0));
    assert_eq!(resolve_reference("557dc", &names), Ok(1));
    assert_eq!(resolve_reference("55fff", &names), Err(ObjectError::ObjectNotFound));
}

#[test]
fn shared_prefix_is_ambiguous() {
    let names = vec![
        b"7db03de997c86a4a028e1ebd3a1ceb225be238".to_vec(),
        b"7dc0000000000000000000000000000000000000".to_vec(),
        b"7d00".to_vec(),
    ];
    assert_eq!(resolve_reference("557d", &names), Err(ObjectError::AmbiguousReference(3)));
    assert_eq!(resolve_reference("557", &names), Err(ObjectError::AmbiguousReference(3)));
    assert_eq!(resolve_reference("557db", &names), Ok(0));
}

#[test]
fn streams_from_other_compression_levels_read() {
    for level in [flate2::Compression::none(), flate2::Compression::fast(), flate2::Compression::best()] {
        let mut e = flate2::write::ZlibEncoder::new(Vec::new(), level);
        e.write_all(b"blob 5\0hello").unwrap();
        let stored = e.finish().unwrap();
        let o = Object::read_git_object(&stored).unwrap();
        assert_eq!(o.kind, ObjectKind::Blob);
        assert_eq!(o.payload, b"hello".to_vec());
    }
}

#[test]
fn truncated_stream_is_corrupt() {
    let stored = zlib(b"blob 5\0hello");
    assert_eq!(
        Object::read_git_object(&stored[..stored.len() / 2]).err(),
        Some(ObjectError::CorruptStream)
    );
}
