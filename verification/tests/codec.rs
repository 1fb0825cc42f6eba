use pgfdb::coding::Tuple;
use pgfdb::errors::DecodeError;

fn roundtrip(t: &Tuple) -> Tuple {
    let bytes = t.serialize();
    Tuple::deserialize(&bytes).expect("a serialized row must decode")
}

#[test]
fn roundtrip_no_columns() {
    let t = Tuple { id: 7, datums: vec![] };
    assert_eq!(roundtrip(&t), t);
}

#[test]
fn roundtrip_all_null() {
    let t = Tuple { id: 0xDEAD_BEEF, datums: vec![None, None, None] };
    assert_eq!(roundtrip(&t), t);
}

#[test]
fn roundtrip_mixed() {
    let t = Tuple {
        id: 42,
        datums: vec![
            Some(vec![1, 2, 3]),
            None,
            Some(vec![0xFF]),
            Some((0..200u8).collect()),
            None,
        ],
    };
    assert_eq!(roundtrip(&t), t);
}

#[test]
fn roundtrip_max_id() {
    let t = Tuple { id: u32::MAX, datums: vec![Some(vec![0])] };
    assert_eq!(roundtrip(&t), t);
}

#[test]
fn serialize_exact_bytes() {
    let t = Tuple { id: 0x0102_0304, datums: vec![None, Some(vec![0xAA, 0xBB])] };
    let expected: Vec<u8> = vec![
        0x04, 0x03, 0x02, 0x01, // id, little endian
        2, 0, 0, 0, 0, 0, 0, 0, // two columns
        0, 0, 0, 0, 0, 0, 0, 0, // first column: null
        2, 0, 0, 0, 0, 0, 0, 0, // second column: two bytes
        0xAA, 0xBB,
    ];
    assert_eq!(t.serialize(), expected);
}

#[test]
fn deserialize_rejects_short_header() {
    assert_eq!(Tuple::deserialize(&[1, 2, 3]), Err(DecodeError::Truncated));
    assert_eq!(Tuple::deserialize(&[]), Err(DecodeError::Truncated));
}

#[test]
fn deserialize_rejects_truncated_datum_length() {
    // Header promises one column but no length field follows.
    let mut b = vec![1, 0, 0, 0];
    b.extend_from_slice(&1u64.to_le_bytes());
    b.extend_from_slice(&[0, 0, 0]); // partial length field
    assert_eq!(Tuple::deserialize(&b), Err(DecodeError::Truncated));
}

#[test]
fn deserialize_rejects_overrunning_payload() {
    // A datum length that runs past the end of the buffer.
    let mut b = vec![1, 0, 0, 0];
    b.extend_from_slice(&1u64.to_le_bytes());
    b.extend_from_slice(&5u64.to_le_bytes());
    b.extend_from_slice(&[9, 9]); // only two of five payload bytes
    assert_eq!(Tuple::deserialize(&b), Err(DecodeError::Truncated));
}

#[test]
fn deserialize_rejects_trailing_bytes() {
    let t = Tuple { id: 3, datums: vec![Some(vec![7])] };
    let mut b = t.serialize();
    b.push(0);
    assert_eq!(Tuple::deserialize(&b), Err(DecodeError::TrailingBytes));
}

#[test]
fn deserialize_rejects_undercounted_columns() {
    // The count field says one column, but two datums follow.
    let mut b = vec![1, 0, 0, 0];
    b.extend_from_slice(&1u64.to_le_bytes());
    b.extend_from_slice(&0u64.to_le_bytes());
    b.extend_from_slice(&0u64.to_le_bytes());
    assert_eq!(Tuple::deserialize(&b), Err(DecodeError::TrailingBytes));
}

#[test]
fn deserialize_rejects_overcounted_columns() {
    // The count field says two columns, but only one datum follows.
    let mut b = vec![1, 0, 0, 0];
    b.extend_from_slice(&2u64.to_le_bytes());
    b.extend_from_slice(&0u64.to_le_bytes());
    assert_eq!(Tuple::deserialize(&b), Err(DecodeError::Truncated));
}

#[test]
fn row_write_pairs_key_and_value() {
    let t = Tuple { id: 9, datums: vec![Some(vec![1])] };
    let (key, value) = pgfdb::coding::row_write(31, &t);
    assert_eq!(key, {
        let mut k = pgfdb::subspace::table(31);
        let mut enc = Vec::new();
        pgfdb::element::encode_element(&pgfdb::element::Element::Int(9), &mut enc);
        k.extend_from_slice(&enc);
        k
    });
    assert_eq!(value, t.serialize());
}
