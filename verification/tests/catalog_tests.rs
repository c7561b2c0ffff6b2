use std::io::Read;

use treecat::catalog::{build_catalog, decode_catalog, encode_catalog};
use treecat::codec::encode_payload;
use treecat::record::FileRecord;

fn rec(path: &[u8], digest_byte: u8, size: u64) -> FileRecord {
    FileRecord { path: path.to_vec(), digest: vec![digest_byte; 32], size }
}

fn sample_records() -> Vec<FileRecord> {
    vec![rec(b"a/keep.txt", 0x42, 2), rec(b"a/other.bin", 0x01, 7)]
}

#[test]
fn catalog_layout_checksum_and_payload() {
    let records = sample_records();
    let payload = encode_payload(&records);
    let catalog = encode_catalog(&records).expect("payload fits in 32 bits");

    assert_eq!(&catalog[0..4], &[0xFF, b'T', b'C', b'a']);
    let expected_checksum = lsx::sha256::hash(&payload);
    assert_eq!(&catalog[4..36], &expected_checksum[..]);
    let len = u32::from_be_bytes([catalog[36], catalog[37], catalog[38], catalog[39]]);
    assert_eq!(len as usize, payload.len());

    let mut decompressed = Vec::new();
    let mut decoder = flate2::read::ZlibDecoder::new(&catalog[40..]);
    decoder
        .read_to_end(&mut decompressed)
        .expect("compressed payload must decompress");
    assert_eq!(decompressed, payload);
    assert_eq!(lsx::sha256::hash(&decompressed)[..], catalog[4..36]);
}

#[test]
fn catalog_round_trip_returns_records_and_consistent_header() {
    let records = sample_records();
    let payload = encode_payload(&records);
    let catalog = encode_catalog(&records).expect("payload fits in 32 bits");
    let decoded = decode_catalog(&catalog).expect("own catalog must decode");
    assert_eq!(decoded.records.len(), records.len());
    for (d, r) in decoded.records.iter().zip(records.iter()) {
        assert_eq!(d.path, r.path);
        assert_eq!(d.digest, r.digest);
        assert_eq!(d.size, r.size);
    }
    assert_eq!(decoded.payload_len as usize, payload.len());
    assert_eq!(decoded.checksum[..], lsx::sha256::hash(&payload)[..]);
}

#[test]
fn round_trip_helper_returns_the_records() {
    let records = sample_records();
    let back = treecat::catalog::catalog_round_trip(&records).expect("round trip must succeed");
    assert_eq!(back.len(), records.len());
    for (d, r) in back.iter().zip(records.iter()) {
        assert_eq!(d.path, r.path);
        assert_eq!(d.digest, r.digest);
        assert_eq!(d.size, r.size);
    }
}

#[test]
fn corrupted_catalog_is_rejected() {
    let records = sample_records();
    let mut catalog = encode_catalog(&records).expect("payload fits in 32 bits");
    // Flip one checksum byte: the recomputed digest no longer matches.
    catalog[5] ^= 0xFF;
    assert!(decode_catalog(&catalog).is_none());
}

#[test]
fn catalog_is_deterministic_across_worker_orders() {
    let a = rec(b"a/keep.txt", 0x42, 2);
    let b = rec(b"b/zoo.txt", 0x10, 9);
    let c = rec(b"a/other.bin", 0x01, 7);
    let one = build_catalog(vec![Some(a), None, Some(b), Some(c)]).unwrap();
    let a = rec(b"a/keep.txt", 0x42, 2);
    let b = rec(b"b/zoo.txt", 0x10, 9);
    let c = rec(b"a/other.bin", 0x01, 7);
    let other = build_catalog(vec![Some(c), Some(b), None, Some(a)]).unwrap();
    assert_eq!(one, other);
}

#[test]
fn catalog_records_are_sorted_by_path() {
    let one = build_catalog(vec![
        Some(rec(b"zebra", 1, 1)),
        Some(rec(b"alpha", 2, 2)),
        Some(rec(b"beta", 3, 3)),
    ])
    .unwrap();
    let decoded = decode_catalog(&one).expect("own catalog must decode");
    let paths: Vec<&[u8]> = decoded.records.iter().map(|r| r.path.as_slice()).collect();
    assert_eq!(paths, vec![&b"alpha"[..], &b"beta"[..], &b"zebra"[..]]);
}

#[test]
fn record_count_equals_successful_results() {
    let results = vec![
        Some(rec(b"one", 1, 1)),
        None,
        Some(rec(b"two", 2, 2)),
        None,
        None,
        Some(rec(b"three", 3, 3)),
    ];
    let catalog = build_catalog(results).unwrap();
    let decoded = decode_catalog(&catalog).expect("own catalog must decode");
    assert_eq!(decoded.records.len(), 3);
}

#[test]
fn empty_scan_yields_a_decodable_empty_catalog() {
    let catalog = build_catalog(Vec::new()).unwrap();
    let decoded = decode_catalog(&catalog).expect("empty catalog must decode");
    assert_eq!(decoded.records.len(), 0);
    assert_eq!(decoded.payload_len, 0);
}
