use pgfdb::element::{encode_element, Element};

fn enc(e: &Element) -> Vec<u8> {
    let mut out = Vec::new();
    encode_element(e, &mut out);
    out
}

#[test]
fn nil_sorts_before_every_non_null_value() {
    let nil = enc(&Element::Nil);
    let others = vec![
        Element::Int(i64::MIN),
        Element::Double((-1.0f64).to_bits()),
        Element::Text(b"".to_vec()),
        Element::Bool(false),
        Element::Uuid(0),
    ];
    for e in &others {
        assert!(nil < enc(e), "nil must sort before {:?}", e);
    }
}

#[test]
fn integer_order_is_preserved() {
    let values: Vec<i64> = vec![i64::MIN, -1_000_000, -1, 0, 1, 42, 1_000_000, i64::MAX];
    for w in values.windows(2) {
        assert!(enc(&Element::Int(w[0])) < enc(&Element::Int(w[1])), "{} < {}", w[0], w[1]);
    }
}

#[test]
fn cross_width_integers_compare_correctly() {
    // A 16-bit value and a 64-bit value meet in the same 64-bit element.
    let small = -3i16 as i64;
    let big = 70_000i64;
    assert!(enc(&Element::Int(small)) < enc(&Element::Int(big)));
    assert_eq!(enc(&Element::Int(5i16 as i64)), enc(&Element::Int(5i64)));
}

#[test]
fn text_order_is_preserved() {
    let values: Vec<&[u8]> = vec![
        b"",
        b"\x00",
        b"\x00a",
        b"a",
        b"a\x00",
        b"a\x00b",
        b"aa",
        b"ab",
        b"b",
    ];
    for w in values.windows(2) {
        assert!(
            enc(&Element::Text(w[0].to_vec())) < enc(&Element::Text(w[1].to_vec())),
            "{:?} < {:?}",
            w[0],
            w[1]
        );
    }
}

#[test]
fn text_with_nul_bytes_round_trip_distinct() {
    // The escape keeps a value with an embedded zero distinct from its prefix.
    let a = enc(&Element::Text(b"".to_vec()));
    let b = enc(&Element::Text(b"\x00".to_vec()));
    assert_ne!(a, b);
}

#[test]
fn double_order_is_preserved() {
    let values: Vec<f64> = vec![
        f64::NEG_INFINITY,
        -1.0e300,
        -5.5,
        -1.0,
        -f64::MIN_POSITIVE,
        1.25,
        2.5,
        1.0e300,
        f64::INFINITY,
    ];
    for w in values.windows(2) {
        assert!(
            enc(&Element::Double(w[0].to_bits())) < enc(&Element::Double(w[1].to_bits())),
            "{} < {}",
            w[0],
            w[1]
        );
    }
    // The two IEEE-754 zeroes stay distinct and ordered by sign.
    assert!(enc(&Element::Double((-0.0f64).to_bits())) < enc(&Element::Double(0.0f64.to_bits())));
}

#[test]
fn bool_order_is_preserved() {
    assert!(enc(&Element::Bool(false)) < enc(&Element::Bool(true)));
}

#[test]
fn uuid_order_is_preserved() {
    let values: Vec<u128> = vec![0, 1, 0xFFFF, 1 << 64, (1 << 64) + 5, u128::MAX];
    for w in values.windows(2) {
        assert!(enc(&Element::Uuid(w[0])) < enc(&Element::Uuid(w[1])));
    }
}

#[test]
fn encodings_carry_their_type_tag() {
    assert_eq!(enc(&Element::Nil), vec![0u8]);
    assert_eq!(enc(&Element::Int(0))[0], 1);
    assert_eq!(enc(&Element::Double(0))[0], 2);
    assert_eq!(enc(&Element::Text(b"hi".to_vec()))[0], 3);
    assert_eq!(enc(&Element::Bool(true)), vec![4u8, 1u8]);
    assert_eq!(enc(&Element::Uuid(7))[0], 5);
}

#[test]
fn integer_encoding_exact_bytes() {
    // Zero maps to the offset pattern 0x80 00 .. 00 after the tag.
    assert_eq!(enc(&Element::Int(0)), vec![1, 0x80, 0, 0, 0, 0, 0, 0, 0]);
    assert_eq!(enc(&Element::Int(-1)), vec![1, 0x7F, 0xFF, 0xFF, 0xFF, 0xFF, 0xFF, 0xFF, 0xFF]);
    assert_eq!(enc(&Element::Int(1)), vec![1, 0x80, 0, 0, 0, 0, 0, 0, 1]);
}

#[test]
fn text_encoding_exact_bytes() {
    // An embedded zero byte is escaped as 00 FF; an unescaped 00 terminates.
    assert_eq!(enc(&Element::Text(b"a\x00b".to_vec())), vec![3, 0x61, 0x00, 0xFF, 0x62, 0x00]);
    assert_eq!(enc(&Element::Text(b"".to_vec())), vec![3, 0x00]);
}
