use pgfdb::errors::{FdbErrorExt, KvStoreError};
use pgfdb::subspace::{index, table, table_row_key};

#[test]
fn table_prefix_exact_bytes() {
    // The kind label as a text element, then the id as an integer element.
    let mut expected = vec![3u8];
    expected.extend_from_slice(b"tables");
    expected.push(0);
    expected.extend_from_slice(&[1, 0x80, 0, 0, 0, 0, 0, 0, 0]);
    assert_eq!(table(0), expected);
}

fn is_prefix(p: &[u8], s: &[u8]) -> bool {
    s.len() >= p.len() && &s[..p.len()] == p
}

#[test]
fn distinct_tables_have_disjoint_keyspaces() {
    let a = table_row_key(1, 500);
    let b = table_row_key(2, 500);
    assert!(!is_prefix(&a, &b));
    assert!(!is_prefix(&b, &a));
    assert_ne!(a, b);
}

#[test]
fn table_and_index_keyspaces_are_disjoint() {
    // Even for the same numeric id, the kind label separates the spaces.
    let t = table(9);
    let i = index(9);
    assert!(!is_prefix(&t, &i));
    assert!(!is_prefix(&i, &t));
}

#[test]
fn table_prefix_is_no_raw_concatenation() {
    // A table id never bleeds into the neighbouring id's keyspace: the id
    // is a delimited element, so id 1 is not a byte prefix of id 256's key.
    let a = table(1);
    let b = table(256);
    assert!(!is_prefix(&a, &b));
}

#[test]
fn row_keys_stay_inside_their_table_space() {
    let prefix = table(31);
    for rid in [0u32, 1, 77, u32::MAX] {
        let k = table_row_key(31, rid);
        assert!(is_prefix(&prefix, &k));
    }
}

#[test]
fn row_keys_order_matches_row_id_order() {
    let ids = [0u32, 1, 2, 255, 256, 65_536, u32::MAX];
    for w in ids.windows(2) {
        assert!(table_row_key(3, w[0]) < table_row_key(3, w[1]));
    }
}

#[test]
fn successful_store_results_unwrap() {
    let r: Result<u32, KvStoreError> = Ok(5);
    assert_eq!(r.unwrap_or_pg_error(), 5);
}
