use pgfdb::element::Element;
use pgfdb::indexing::{build_key_from_index_values, row_id_of_entry};
use pgfdb::planner::{plan_index_scan, KeyRange, ScanKey, Strategy};

const IDX: u32 = 77;

/// The ids of the stored entries the ranges select, in key order — the
/// order a range scan streams them back, ranges consumed in sequence.
fn scan(entries: &[(Vec<u8>, u32)], ranges: &[KeyRange]) -> Vec<u32> {
    let mut sorted: Vec<(Vec<u8>, u32)> = entries.to_vec();
    sorted.sort();
    let mut out = Vec::new();
    for r in ranges {
        for (k, id) in &sorted {
            if *k >= r.begin && *k < r.end {
                out.push(*id);
            }
        }
    }
    out
}

fn single_column_entries() -> Vec<(Vec<u8>, u32)> {
    // Indexed column values [NULL, 1, 2, 3, 3] with row ids 10..14.
    let vals = vec![
        (Element::Nil, 10),
        (Element::Int(1), 11),
        (Element::Int(2), 12),
        (Element::Int(3), 13),
        (Element::Int(3), 14),
    ];
    vals.into_iter()
        .map(|(v, id)| (build_key_from_index_values(IDX, &vec![v], id), id))
        .collect()
}

fn one_key(strategy: Strategy, bound: Element) -> Vec<ScanKey> {
    vec![ScanKey { column: 0, strategy, bound }]
}

#[test]
fn less_than_scan_returns_exactly_the_smaller_row() {
    let entries = single_column_entries();
    let ranges = plan_index_scan(IDX, &one_key(Strategy::Less, Element::Int(2))).unwrap();
    assert_eq!(scan(&entries, &ranges), vec![11]);
}

#[test]
fn is_null_scan_returns_exactly_the_null_row() {
    let entries = single_column_entries();
    let ranges = plan_index_scan(IDX, &one_key(Strategy::IsNull, Element::Nil)).unwrap();
    assert_eq!(scan(&entries, &ranges), vec![10]);
}

#[test]
fn greater_or_equal_scan_returns_the_larger_rows_in_order() {
    let entries = single_column_entries();
    let ranges = plan_index_scan(IDX, &one_key(Strategy::GreaterEqual, Element::Int(2))).unwrap();
    assert_eq!(scan(&entries, &ranges), vec![12, 13, 14]);
}

#[test]
fn equality_scan_returns_duplicates_in_row_id_order() {
    let entries = single_column_entries();
    let ranges = plan_index_scan(IDX, &one_key(Strategy::Equal, Element::Int(3))).unwrap();
    assert_eq!(scan(&entries, &ranges), vec![13, 14]);
}

#[test]
fn not_equal_scan_skips_nulls_and_the_bound() {
    let entries = single_column_entries();
    let keys = one_key(Strategy::NotEqual, Element::Int(2));
    let ranges = plan_index_scan(IDX, &keys).unwrap();
    assert_eq!(ranges.len(), 2);
    assert!(ranges[0].end <= ranges[1].begin, "the two ranges must be emitted in order");
    assert_eq!(scan(&entries, &ranges), vec![11, 13, 14]);
}

#[test]
fn is_not_null_scan_returns_all_non_null_rows() {
    let entries = single_column_entries();
    let ranges = plan_index_scan(IDX, &one_key(Strategy::IsNotNull, Element::Nil)).unwrap();
    assert_eq!(scan(&entries, &ranges), vec![11, 12, 13, 14]);
}

#[test]
fn less_or_equal_and_greater_scans() {
    let entries = single_column_entries();
    let le = plan_index_scan(IDX, &one_key(Strategy::LessEqual, Element::Int(2))).unwrap();
    assert_eq!(scan(&entries, &le), vec![11, 12]);
    let gt = plan_index_scan(IDX, &one_key(Strategy::Greater, Element::Int(2))).unwrap();
    assert_eq!(scan(&entries, &gt), vec![13, 14]);
}

#[test]
fn no_constraints_scans_the_whole_index() {
    let entries = single_column_entries();
    let ranges = plan_index_scan(IDX, &vec![]).unwrap();
    assert_eq!(scan(&entries, &ranges), vec![10, 11, 12, 13, 14]);
}

#[test]
fn composite_index_equality_prefix() {
    // Index on (a, b): rows (1,2), (1,3), (2,2).
    let rows = vec![
        (Element::Int(1), Element::Int(2), 21),
        (Element::Int(1), Element::Int(3), 22),
        (Element::Int(2), Element::Int(2), 23),
    ];
    let entries: Vec<(Vec<u8>, u32)> = rows
        .into_iter()
        .map(|(a, b, id)| (build_key_from_index_values(IDX, &vec![a, b], id), id))
        .collect();
    // a = 1 AND b = 2 returns exactly the matching row.
    let keys = vec![
        ScanKey { column: 0, strategy: Strategy::Equal, bound: Element::Int(1) },
        ScanKey { column: 1, strategy: Strategy::Equal, bound: Element::Int(2) },
    ];
    let ranges = plan_index_scan(IDX, &keys).unwrap();
    assert_eq!(scan(&entries, &ranges), vec![21]);
    // a = 1 alone returns both rows with a = 1.
    let keys_a = vec![ScanKey { column: 0, strategy: Strategy::Equal, bound: Element::Int(1) }];
    let ranges_a = plan_index_scan(IDX, &keys_a).unwrap();
    assert_eq!(scan(&entries, &ranges_a), vec![21, 22]);
    // a = 1 AND b < 3: the final column may use an inequality.
    let keys_lt = vec![
        ScanKey { column: 0, strategy: Strategy::Equal, bound: Element::Int(1) },
        ScanKey { column: 1, strategy: Strategy::Less, bound: Element::Int(3) },
    ];
    let ranges_lt = plan_index_scan(IDX, &keys_lt).unwrap();
    assert_eq!(scan(&entries, &ranges_lt), vec![21]);
}

#[test]
fn composite_index_rejects_missing_leading_column() {
    // b = 2 alone, with no constraint on a, must be rejected.
    let keys = vec![ScanKey { column: 1, strategy: Strategy::Equal, bound: Element::Int(2) }];
    assert_eq!(plan_index_scan(IDX, &keys), Err(pgfdb::errors::PlannerError::NonLeadingColumn));
}

#[test]
fn composite_index_rejects_non_final_inequality() {
    let keys = vec![
        ScanKey { column: 0, strategy: Strategy::Less, bound: Element::Int(1) },
        ScanKey { column: 1, strategy: Strategy::Equal, bound: Element::Int(2) },
    ];
    assert_eq!(plan_index_scan(IDX, &keys), Err(pgfdb::errors::PlannerError::NonFinalInequality));
}

#[test]
fn scans_touch_only_their_own_index() {
    // An entry of another index never falls into this index's ranges.
    let foreign = build_key_from_index_values(IDX + 1, &vec![Element::Int(2)], 99);
    let ranges = plan_index_scan(IDX, &one_key(Strategy::Equal, Element::Int(2))).unwrap();
    assert_eq!(scan(&[(foreign, 99)], &ranges), Vec::<u32>::new());
}

#[test]
fn row_id_comes_back_out_of_every_entry_key() {
    for (k, id) in single_column_entries() {
        assert_eq!(row_id_of_entry(&k), Some(id));
    }
    let composite =
        build_key_from_index_values(5, &vec![Element::Text(b"k\x00ey".to_vec()), Element::Nil], u32::MAX);
    assert_eq!(row_id_of_entry(&composite), Some(u32::MAX));
    assert_eq!(row_id_of_entry(&vec![1, 2, 3]), None);
}
