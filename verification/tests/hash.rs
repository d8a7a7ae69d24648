use micromedia::hash::{hash_bytes, ContentHasher};

#[test]
fn the_empty_content_has_the_known_hash() {
    assert_eq!(hash_bytes(&Vec::new()), 0x2d06800538d394c2);
}

#[test]
fn hashes_are_those_of_the_library() {
    let bytes: Vec<u8> = (0..5000u32).map(|i| (i % 251) as u8).collect();
    assert_eq!(hash_bytes(&bytes), xxhash_rust::xxh3::xxh3_64(&bytes));
}

#[test]
fn pieces_hash_like_the_whole() {
    let bytes: Vec<u8> = (0..3000u32).map(|i| (i * 7 % 256) as u8).collect();
    let mut h = ContentHasher::new();
    for piece in bytes.chunks(777) {
        let mut buf = piece.to_vec();
        buf.extend_from_slice(b"left over from an earlier read");
        assert!(h.take(&buf, piece.len()));
    }
    assert!(!h.take(&vec![1, 2, 3], 0));
    assert_eq!(h.finish(), hash_bytes(&bytes));
}

#[test]
fn other_contents_have_other_hashes() {
    assert_ne!(hash_bytes(&b"content-a".to_vec()), hash_bytes(&b"content-b".to_vec()));
}
