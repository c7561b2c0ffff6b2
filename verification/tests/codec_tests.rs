use treecat::codec::{decode_payload, encode_payload};
use treecat::record::FileRecord;

fn rec(path: &[u8], digest_byte: u8, size: u64) -> FileRecord {
    FileRecord { path: path.to_vec(), digest: vec![digest_byte; 32], size }
}

#[test]
fn encode_payload_layout_is_exact() {
    let records = vec![rec(b"a", 0x11, 5)];
    let payload = encode_payload(&records);
    let mut expected = Vec::new();
    expected.extend_from_slice(b"a");
    expected.push(b'\n');
    expected.extend_from_slice(&[0x11; 32]);
    expected.extend_from_slice(&[0, 0, 0, 0, 0, 0, 0, 5]);
    expected.extend_from_slice(&[0, 0]);
    assert_eq!(payload, expected);
}

#[test]
fn encode_payload_concatenates_records_in_order() {
    let records = vec![rec(b"a", 1, 1), rec(b"b", 2, 2)];
    let payload = encode_payload(&records);
    assert_eq!(payload.len(), 2 * (1 + 43));
    assert_eq!(payload[0], b'a');
    assert_eq!(payload[44], b'b');
}

#[test]
fn payload_round_trip_returns_the_records() {
    let records = vec![
        rec(b"dir/alpha.txt", 0xAB, 42),
        rec(b"dir/beta.bin", 0xCD, 0),
        rec(b"", 0xEF, u64::MAX),
    ];
    let payload = encode_payload(&records);
    let decoded = decode_payload(&payload).expect("payload must decode");
    assert_eq!(decoded.len(), records.len());
    for (d, r) in decoded.iter().zip(records.iter()) {
        assert_eq!(d.path, r.path);
        assert_eq!(d.digest, r.digest);
        assert_eq!(d.size, r.size);
    }
}

#[test]
fn empty_payload_decodes_to_no_records() {
    let payload: Vec<u8> = Vec::new();
    let decoded = decode_payload(&payload).expect("empty payload is valid");
    assert_eq!(decoded.len(), 0);
}

#[test]
fn truncated_payload_is_rejected() {
    let records = vec![rec(b"a", 0x11, 5)];
    let mut payload = encode_payload(&records);
    payload.pop();
    assert!(decode_payload(&payload).is_none());
}

#[test]
fn payload_without_delimiter_is_rejected() {
    let payload = vec![b'x'; 50];
    assert!(decode_payload(&payload).is_none());
}

#[test]
fn payload_with_nonzero_reserved_bytes_is_rejected() {
    let records = vec![rec(b"a", 0x11, 5)];
    let mut payload = encode_payload(&records);
    let last = payload.len() - 1;
    payload[last] = 7;
    assert!(decode_payload(&payload).is_none());
}
