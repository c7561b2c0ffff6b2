use treecat::hashing::{digest_of_sized, FileHasher};

#[test]
fn digest_matches_reference_hash() {
    let content = b"The quick brown fox jumps over the lazy dog".to_vec();
    let digest = digest_of_sized(&content, content.len() as u64).expect("sizes match");
    assert_eq!(digest[..], lsx::sha256::hash(&content)[..]);
}

#[test]
fn known_digest_value() {
    let content = b"The quick brown fox jumps over the lazy dog".to_vec();
    let digest = digest_of_sized(&content, content.len() as u64).expect("sizes match");
    assert_eq!(
        digest,
        vec![
            0xd7, 0xa8, 0xfb, 0xb3, 0x07, 0xd7, 0x80, 0x94, 0x69, 0xca, 0x9a, 0xbc, 0xb0, 0x08,
            0x2e, 0x4f, 0x8d, 0x56, 0x51, 0xe4, 0x6d, 0x3c, 0xdb, 0x76, 0x2d, 0x02, 0xd0, 0xbf,
            0x37, 0xc9, 0xe5, 0x92,
        ]
    );
}

#[test]
fn empty_content_digests_when_size_matches() {
    let content: Vec<u8> = Vec::new();
    let digest = digest_of_sized(&content, 0).expect("sizes match");
    assert_eq!(digest[..], lsx::sha256::hash(&[])[..]);
}

#[test]
fn grown_file_is_rejected() {
    // The content turned out longer than the metadata declared.
    let content = vec![7u8; 100];
    assert!(digest_of_sized(&content, 40).is_err());
}

#[test]
fn shrunk_file_is_rejected() {
    // The content turned out shorter than the metadata declared.
    let content = vec![7u8; 40];
    assert!(digest_of_sized(&content, 100).is_err());
}

#[test]
fn chunked_feeding_matches_one_shot_hash() {
    let first = b"Here is a piece of text";
    let second = b" and here is the rest of it.";
    let mut whole = Vec::new();
    whole.extend_from_slice(first);
    whole.extend_from_slice(second);

    let mut hasher = FileHasher::new(whole.len() as u64);
    hasher.absorb(first);
    hasher.absorb(second);
    let digest = hasher.finish().expect("sizes match");
    assert_eq!(digest[..], lsx::sha256::hash(&whole)[..]);
}

#[test]
fn file_hasher_rejects_wrong_total() {
    let mut hasher = FileHasher::new(5);
    hasher.absorb(b"abc");
    assert!(hasher.finish().is_err());
}

#[test]
fn large_content_crosses_chunk_boundaries() {
    let content = vec![0xA5u8; 70_000];
    let digest = digest_of_sized(&content, 70_000).expect("sizes match");
    assert_eq!(digest[..], lsx::sha256::hash(&content)[..]);
}
