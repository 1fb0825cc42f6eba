use std::collections::BTreeMap;

use pgfdb::element::Element;
use pgfdb::errors::UnsupportedTypeError;
use pgfdb::indexing::{
    build_key_from_index_values, encode_datum_for_index, index_update_keys, row_id_of_entry,
    select_indexed_datums, PgDatum,
};

const IDX: u32 = 4;

/// The entry keys in the store that refer to the given row of this index.
fn entries_for_row(store: &BTreeMap<Vec<u8>, Vec<u8>>, index_id: u32, row_id: u32) -> Vec<Vec<u8>> {
    let prefix = pgfdb::subspace::index(index_id);
    store
        .keys()
        .filter(|k| k.starts_with(&prefix) && row_id_of_entry(k) == Some(row_id))
        .cloned()
        .collect()
}

#[test]
fn update_leaves_exactly_one_entry_for_the_row() {
    let mut store: BTreeMap<Vec<u8>, Vec<u8>> = BTreeMap::new();
    let rid = 12;
    let old_vals = vec![Element::Int(5)];
    let new_vals = vec![Element::Int(9)];
    // Insert writes the entry keyed by the row's values.
    let old_key = build_key_from_index_values(IDX, &old_vals, rid);
    store.insert(old_key.clone(), vec![]);
    // A neighbouring row's entry, which the update must not touch.
    let other_key = build_key_from_index_values(IDX, &old_vals, 99);
    store.insert(other_key.clone(), vec![]);
    assert_eq!(entries_for_row(&store, IDX, rid), vec![old_key.clone()]);
    // Update: clear the entry keyed by the pre-update values, write the
    // entry keyed by the post-update values.
    let (clear_key, set_key) = index_update_keys(IDX, &old_vals, &new_vals, rid);
    assert_eq!(clear_key, old_key);
    store.remove(&clear_key);
    store.insert(set_key.clone(), vec![]);
    assert_eq!(entries_for_row(&store, IDX, rid), vec![set_key]);
    assert_eq!(entries_for_row(&store, IDX, 99), vec![other_key]);
}

#[test]
fn update_with_unchanged_values_is_idempotent() {
    let mut store: BTreeMap<Vec<u8>, Vec<u8>> = BTreeMap::new();
    let rid = 3;
    let vals = vec![Element::Text(b"same".to_vec())];
    let (clear_key, set_key) = index_update_keys(IDX, &vals, &vals, rid);
    assert_eq!(clear_key, set_key);
    store.insert(clear_key.clone(), vec![]);
    store.remove(&clear_key);
    store.insert(set_key.clone(), vec![]);
    assert_eq!(entries_for_row(&store, IDX, rid), vec![set_key]);
}

#[test]
fn entry_keys_of_distinct_rows_and_values_differ() {
    let a = build_key_from_index_values(IDX, &vec![Element::Int(1)], 1);
    let b = build_key_from_index_values(IDX, &vec![Element::Int(1)], 2);
    let c = build_key_from_index_values(IDX, &vec![Element::Int(2)], 1);
    let d = build_key_from_index_values(IDX + 1, &vec![Element::Int(1)], 1);
    assert_ne!(a, b);
    assert_ne!(a, c);
    assert_ne!(a, d);
}

#[test]
fn select_indexed_datums_maps_columns_and_pads_with_null() {
    let datums = vec![Some(vec![1u8]), None, Some(vec![3u8])];
    let picked = select_indexed_datums(&datums, &vec![2, 0, 1, 9]);
    assert_eq!(picked, vec![Some(vec![3u8]), Some(vec![1u8]), None, None]);
}

#[test]
fn datum_encoding_follows_the_type_table() {
    assert_eq!(
        encode_datum_for_index(&PgDatum::SmallInt(-2), 21),
        Ok(Element::Int(-2))
    );
    assert_eq!(encode_datum_for_index(&PgDatum::Integer(7), 23), Ok(Element::Int(7)));
    assert_eq!(
        encode_datum_for_index(&PgDatum::BigInt(i64::MIN), 20),
        Ok(Element::Int(i64::MIN))
    );
    assert_eq!(
        encode_datum_for_index(&PgDatum::Text(b"t".to_vec()), 25),
        Ok(Element::Text(b"t".to_vec()))
    );
    assert_eq!(
        encode_datum_for_index(&PgDatum::Text(b"v".to_vec()), 1043),
        Ok(Element::Text(b"v".to_vec()))
    );
    let bits = 2.5f64.to_bits();
    assert_eq!(
        encode_datum_for_index(&PgDatum::Float8Bits(bits), 701),
        Ok(Element::Double(bits))
    );
    assert_eq!(
        encode_datum_for_index(&PgDatum::Float8Bits(bits), 700),
        Ok(Element::Double(bits))
    );
    assert_eq!(
        encode_datum_for_index(&PgDatum::Uuid(123), 2950),
        Ok(Element::Uuid(123))
    );
}

#[test]
fn unsupported_type_is_rejected_with_its_oid() {
    assert_eq!(
        encode_datum_for_index(&PgDatum::Integer(1), 16),
        Err(UnsupportedTypeError { type_oid: 16 })
    );
    // A datum whose shape does not match the declared type is rejected too.
    assert_eq!(
        encode_datum_for_index(&PgDatum::Integer(1), 20),
        Err(UnsupportedTypeError { type_oid: 20 })
    );
}
