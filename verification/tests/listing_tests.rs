use treecat::listing::{listing_line, to_decimal, to_hex_upper};
use treecat::record::FileRecord;

#[test]
fn hex_is_uppercase_two_digits_per_byte() {
    let data = vec![0x00, 0x0F, 0xA5, 0xFF];
    assert_eq!(to_hex_upper(&data), b"000FA5FF".to_vec());
}

#[test]
fn decimal_formats_exact_values() {
    assert_eq!(to_decimal(0), b"0".to_vec());
    assert_eq!(to_decimal(7), b"7".to_vec());
    assert_eq!(to_decimal(1234567890), b"1234567890".to_vec());
    assert_eq!(to_decimal(u64::MAX), b"18446744073709551615".to_vec());
}

#[test]
fn listing_line_has_path_hex_digest_and_size() {
    let rec = FileRecord { path: b"dir/file".to_vec(), digest: vec![0xAB; 32], size: 42 };
    let line = listing_line(&rec);
    let mut expected = Vec::new();
    expected.extend_from_slice(b"dir/file;");
    expected.extend_from_slice("AB".repeat(32).as_bytes());
    expected.extend_from_slice(b";42\n");
    assert_eq!(line, expected);
}

#[test]
fn listing_digest_matches_reference_hex() {
    let content = b"hi".to_vec();
    let digest = lsx::sha256::hash(&content).to_vec();
    let rec = FileRecord { path: b"a/keep.txt".to_vec(), digest: digest.clone(), size: 2 };
    let line = listing_line(&rec);
    let expected_hex: String = digest.iter().map(|b| format!("{:02X}", b)).collect();
    let text = String::from_utf8(line).expect("listing line is text here");
    assert_eq!(text, format!("a/keep.txt;{};2\n", expected_hex));
}
