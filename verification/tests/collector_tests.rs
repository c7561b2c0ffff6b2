use treecat::collector::{gather, sort_records};
use treecat::record::{cmp_bytes, Cmp, FileRecord};

fn rec(path: &[u8], size: u64) -> FileRecord {
    FileRecord { path: path.to_vec(), digest: vec![0; 32], size }
}

#[test]
fn gather_keeps_successes_in_arrival_order() {
    let results = vec![None, Some(rec(b"b", 1)), Some(rec(b"a", 2)), None];
    let gathered = gather(results);
    assert_eq!(gathered.len(), 2);
    assert_eq!(gathered[0].path, b"b".to_vec());
    assert_eq!(gathered[1].path, b"a".to_vec());
}

#[test]
fn sort_orders_paths_byte_wise() {
    // Byte-wise: a shorter prefix sorts first, and bytes compare unsigned.
    let input = vec![rec(b"b", 0), rec(b"a/x", 0), rec(b"a", 0), rec(b"a!", 0)];
    let sorted = sort_records(input);
    let paths: Vec<&[u8]> = sorted.iter().map(|r| r.path.as_slice()).collect();
    assert_eq!(paths, vec![&b"a"[..], &b"a!"[..], &b"a/x"[..], &b"b"[..]]);
}

#[test]
fn sort_is_a_permutation() {
    let input = vec![rec(b"z", 1), rec(b"y", 2), rec(b"z", 3)];
    let sorted = sort_records(input);
    assert_eq!(sorted.len(), 3);
    let sizes: Vec<u64> = sorted.iter().map(|r| r.size).collect();
    assert_eq!(sizes, vec![2, 1, 3]);
}

#[test]
fn cmp_bytes_is_three_way() {
    assert!(matches!(cmp_bytes(&b"abc".to_vec(), &b"abd".to_vec()), Cmp::Lt));
    assert!(matches!(cmp_bytes(&b"abc".to_vec(), &b"abc".to_vec()), Cmp::Eq));
    assert!(matches!(cmp_bytes(&b"abd".to_vec(), &b"abc".to_vec()), Cmp::Gt));
    assert!(matches!(cmp_bytes(&b"ab".to_vec(), &b"abc".to_vec()), Cmp::Lt));
}
