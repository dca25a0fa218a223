use turborepo_core::blob::{hash_blob, BlobHashError, BlobHasher};
use turborepo_core::oid::OidHash;

fn hex(oid: &OidHash) -> String {
    oid.to_hex_string()
}

fn streamed(content: &[u8], chunk: usize) -> String {
    let mut h = BlobHasher::new(content.len() as u64);
    for part in content.chunks(chunk) {
        h = h.update(part);
    }
    hex(&h.finish().unwrap())
}

#[test]
fn empty_blob_matches_git() {
    assert_eq!(hex(&hash_blob(b"").unwrap()), "e69de29bb2d1d6434b8b29ae775ad8c2e48c5391");
}

#[test]
fn small_blob_matches_git() {
    assert_eq!(
        hex(&hash_blob(b"hello world\n").unwrap()),
        "3b18e512dba79e4c8300dd08aeb37f8e728b8dad"
    );
}

#[test]
fn binary_blob_matches_git() {
    assert_eq!(
        hex(&hash_blob(&[0u8, 1, 2, 255, 254, 253]).unwrap()),
        "292756e9be951d0293d3976f7df6a377f75be5a3"
    );
}

#[test]
fn large_blob_matches_git() {
    assert_eq!(
        hex(&hash_blob(&vec![b'x'; 10_000]).unwrap()),
        "f2776bdd898efa83318efbab7e2b183836ab69ea"
    );
}

#[test]
fn streamed_blob_over_several_buffers_matches_git() {
    let content = vec![b'A'; 128 * 1024];
    assert_eq!(streamed(&content, 64 * 1024), "20d19dce1a76ed786a2ed987939bbc69a0aac58e");
    assert_eq!(streamed(&content, 1000), "20d19dce1a76ed786a2ed987939bbc69a0aac58e");
}

#[test]
fn streamed_blob_of_exactly_one_buffer_matches_git() {
    let content = vec![b'B'; 64 * 1024];
    assert_eq!(streamed(&content, 64 * 1024), "d565ad4793766725a445344c2b1d05423b79428f");
}

#[test]
fn edited_input_changes_the_blob_id() {
    let before = hex(&hash_blob(b"hello world\n").unwrap());
    let after = hex(&hash_blob(b"hello world\nchanged!\n").unwrap());
    assert_eq!(after, "fe9ca9502b0cfe311560aa43d953a88b112609ce");
    assert_ne!(before, after);
    assert_eq!(hex(&hash_blob(b"hello world\n").unwrap()), before);
}

#[test]
fn short_content_is_refused() {
    let h = BlobHasher::new(5).update(b"abc");
    assert_eq!(h.finish().err(), Some(BlobHashError::LengthMismatch));
    let h = BlobHasher::new(2).update(b"abc");
    assert_eq!(h.finish().err(), Some(BlobHashError::LengthMismatch));
}

#[test]
fn oid_from_str_round_trips() {
    let oid = OidHash::from_hex_str("e69de29bb2d1d6434b8b29ae775ad8c2e48c5391");
    assert_eq!(oid.to_hex_string(), "e69de29bb2d1d6434b8b29ae775ad8c2e48c5391");
    assert!(oid.eq_str("e69de29bb2d1d6434b8b29ae775ad8c2e48c5391"));
    assert!(!oid.eq_str("e69de29bb2d1d6434b8b29ae775ad8c2e48c5392"));
    assert!(!oid.eq_str("e69d"));
    assert_eq!(oid, hash_blob(b"").unwrap());
    let mut buf = [0u8; 40];
    buf.copy_from_slice(b"3b18e512dba79e4c8300dd08aeb37f8e728b8dad");
    assert_eq!(OidHash::from_hex_buf(buf).as_bytes(), &buf);
}
