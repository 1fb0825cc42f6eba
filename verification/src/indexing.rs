//! Secondary index entries and their maintenance.
//!
//! An index entry is a key alone: the index's subspace prefix, the encoded
//! indexed column values (nil for SQL NULL), and the row id as the final
//! element; its stored value is empty. Entries are written on row insert,
//! cleared on row delete, and on an update the entry keyed by the pre-update
//! values is cleared while the entry keyed by the post-update values is
//! written, so that after any successful mutation exactly one entry per
//! index refers to the row.

use vstd::prelude::*;

use crate::element::{
    elem_enc, enc_seq, encode_element, lemma_enc_seq_inj, lemma_enc_seq_push, Element, ElementV,
};
use crate::errors::UnsupportedTypeError;
use crate::subspace::{index, index_prefix, lemma_index_prefix_shape};

verus! {

/// The elements of one index entry: the indexed values, then the row id.
pub open spec fn entry_elems(vals: Seq<ElementV>, row_id: u32) -> Seq<ElementV> {
    vals.push(ElementV::Int(row_id as i64))
}

/// The key of one index entry.
pub open spec fn spec_entry_key(index_id: u32, vals: Seq<ElementV>, row_id: u32) -> Seq<u8> {
    index_prefix(index_id) + enc_seq(entry_elems(vals, row_id))
}

/// Builds the index entry key for a row: the index subspace, the encoded
/// values, and the row id as the final element.
pub fn build_key_from_index_values(index_id: u32, values: &Vec<Element>, row_id: u32) -> (k: Vec<
    u8,
>)
    ensures
        k@ == spec_entry_key(index_id, values.deep_view(), row_id),
{
    let mut k = index(index_id);
    let mut i: usize = 0;
    while i < values.len()
        invariant
            i <= values.len(),
            k@ == index_prefix(index_id) + enc_seq(values.deep_view().take(i as int)),
        decreases values.len() - i,
    {
        encode_element(&values[i], &mut k);
        proof {
            let dv = values.deep_view();
            assert(dv.take(i + 1) =~= dv.take(i as int).push(dv[i as int]));
            lemma_enc_seq_push(dv.take(i as int), dv[i as int]);
            assert(dv[i as int] == values[i as int].deep_view());
            assert((index_prefix(index_id) + enc_seq(dv.take(i as int))) + elem_enc(dv[i as int])
                =~= index_prefix(index_id) + (enc_seq(dv.take(i as int)) + elem_enc(
                dv[i as int],
            )));
        }
        i = i + 1;
    }
    encode_element(&Element::Int(row_id as i64), &mut k);
    proof {
        let dv = values.deep_view();
        assert(dv.take(dv.len() as int) =~= dv);
        lemma_enc_seq_push(dv, ElementV::Int(row_id as i64));
        assert((index_prefix(index_id) + enc_seq(dv)) + elem_enc(ElementV::Int(row_id as i64))
            =~= index_prefix(index_id) + enc_seq(entry_elems(dv, row_id)));
    }
    k
}

/// The pair of keys an update touches: the entry keyed by the pre-update
/// values, to clear, and the entry keyed by the post-update values, to write
/// with an empty value.
pub fn index_update_keys(
    index_id: u32,
    old_values: &Vec<Element>,
    new_values: &Vec<Element>,
    row_id: u32,
) -> (r: (Vec<u8>, Vec<u8>))
    ensures
        r.0@ == spec_entry_key(index_id, old_values.deep_view(), row_id),
        r.1@ == spec_entry_key(index_id, new_values.deep_view(), row_id),
{
    let clear_key = build_key_from_index_values(index_id, old_values, row_id);
    let set_key = build_key_from_index_values(index_id, new_values, row_id);
    (clear_key, set_key)
}

/// Entry keys are injective: equal keys come from the same index, the same
/// values, and the same row.
pub proof fn lemma_entry_key_injective(
    i1: u32,
    v1: Seq<ElementV>,
    r1: u32,
    i2: u32,
    v2: Seq<ElementV>,
    r2: u32,
)
    requires
        spec_entry_key(i1, v1, r1) == spec_entry_key(i2, v2, r2),
    ensures
        i1 == i2,
        v1 == v2,
        r1 == r2,
{
    lemma_index_prefix_shape(i1);
    lemma_index_prefix_shape(i2);
    crate::order::lemma_concat_split(
        index_prefix(i1),
        enc_seq(entry_elems(v1, r1)),
        index_prefix(i2),
        enc_seq(entry_elems(v2, r2)),
    );
    lemma_enc_seq_inj(
        crate::subspace::index_prefix_elems(i1),
        crate::subspace::index_prefix_elems(i2),
    );
    assert(crate::subspace::index_prefix_elems(i1)[1]
        == crate::subspace::index_prefix_elems(i2)[1]);
    lemma_enc_seq_inj(entry_elems(v1, r1), entry_elems(v2, r2));
    let f1 = entry_elems(v1, r1);
    let f2 = entry_elems(v2, r2);
    assert(f1[f1.len() - 1] == f2[f2.len() - 1]);
    assert(v1 =~= v2) by {
        assert(forall|j: int| 0 <= j < v1.len() ==> f1[j] == v1[j] && f2[j] == v2[j]);
    }
}

/// Index maintenance on update, over a model of the store as a map from
/// keys to values: clearing the entry keyed by the pre-update values and
/// writing the entry keyed by the post-update values leaves exactly one
/// entry for the row — the new one — and touches no other key. Together
/// with [`lemma_entry_key_injective`], which separates the entries of other
/// rows and other indexes, this is the index maintenance invariant: after
/// the mutation, the set of entries referring to the row is exactly the
/// entry built from its current values.
pub proof fn lemma_update_maintains_single_entry(
    m: Map<Seq<u8>, Seq<u8>>,
    index_id: u32,
    old_vals: Seq<ElementV>,
    new_vals: Seq<ElementV>,
    row_id: u32,
)
    ensures
        ({
            let old_key = spec_entry_key(index_id, old_vals, row_id);
            let new_key = spec_entry_key(index_id, new_vals, row_id);
            let m2 = m.remove(old_key).insert(new_key, Seq::<u8>::empty());
            &&& m2.dom().contains(new_key)
            &&& (old_vals != new_vals ==> !m2.dom().contains(old_key))
            &&& (forall|k: Seq<u8>|
                k != old_key && k != new_key ==> (m2.dom().contains(k) <==> m.dom().contains(k)))
        }),
{
    let old_key = spec_entry_key(index_id, old_vals, row_id);
    let new_key = spec_entry_key(index_id, new_vals, row_id);
    if old_key == new_key {
        lemma_entry_key_injective(index_id, old_vals, row_id, index_id, new_vals, row_id);
    }
}

/// Entry keys sort by the indexed values first and by row id last: a range
/// scan that streams entries in key order hands rows back in ascending
/// value order, duplicates tie-broken deterministically by row id.
pub proof fn lemma_entry_key_order(
    index_id: u32,
    v1: Seq<ElementV>,
    r1: u32,
    v2: Seq<ElementV>,
    r2: u32,
)
    requires
        v1.len() == v2.len(),
    ensures
        crate::order::lex_lt(
            spec_entry_key(index_id, v1, r1),
            spec_entry_key(index_id, v2, r2),
        ) <==> (crate::element::elems_lt(v1, v2) || (v1 == v2 && r1 < r2)),
{
    let ip = index_prefix(index_id);
    let c = elem_enc(ElementV::Int(r1 as i64));
    let d = elem_enc(ElementV::Int(r2 as i64));
    lemma_enc_seq_push(v1, ElementV::Int(r1 as i64));
    lemma_enc_seq_push(v2, ElementV::Int(r2 as i64));
    crate::element::lemma_elem_enc_shape(ElementV::Int(r1 as i64));
    crate::element::lemma_elem_enc_shape(ElementV::Int(r2 as i64));
    assert(spec_entry_key(index_id, v1, r1) =~= ip + (enc_seq(v1) + c));
    assert(spec_entry_key(index_id, v2, r2) =~= ip + (enc_seq(v2) + d));
    crate::order::lemma_lex_cancel(ip, enc_seq(v1) + c, enc_seq(v2) + d);
    crate::element::lemma_enc_seq_rel(v1, v2, c, d);
    crate::element::lemma_encode_order_preserving(
        ElementV::Int(r1 as i64),
        ElementV::Int(r2 as i64),
    );
    assert(crate::order::lex_lt(c, d) <==> crate::element::elem_lt(
        ElementV::Int(r1 as i64),
        ElementV::Int(r2 as i64),
    ));
    assert(((r1 as i64) < (r2 as i64)) <==> r1 < r2);
    crate::element::lemma_elems_lt_irrefl(v1);
}

/// Reads the row id back out of an index entry key: the final element of
/// every entry is the row id.
pub fn row_id_of_entry(key: &Vec<u8>) -> (r: Option<u32>)
    ensures
        forall|idx: u32, vals: Seq<ElementV>, rid: u32|
            key@ == #[trigger] spec_entry_key(idx, vals, rid) ==> r == Some(rid),
{
    let n = key.len();
    if n < 9 {
        proof {
            assert forall|idx: u32, vals: Seq<ElementV>, rid: u32|
                key@ == #[trigger] spec_entry_key(idx, vals, rid) implies false by {
                lemma_entry_tail_shape(idx, vals, rid);
            }
        }
        return None;
    }
    if key[n - 9] != 1u8 {
        proof {
            assert forall|idx: u32, vals: Seq<ElementV>, rid: u32|
                key@ == #[trigger] spec_entry_key(idx, vals, rid) implies false by {
                lemma_entry_tail_shape(idx, vals, rid);
                let e = elem_enc(ElementV::Int(rid as i64));
                assert(e =~= seq![1u8] + crate::element::be8(crate::element::int_key(
                    rid as i64,
                )));
                assert(key@.subrange(key@.len() - 9, key@.len() as int)[0] == key@[key@.len()
                    - 9]);
            }
        }
        return None;
    }
    let k: u64 = ((key[n - 8] as u64) << 56) | ((key[n - 7] as u64) << 48) | ((key[n
        - 6] as u64) << 40) | ((key[n - 5] as u64) << 32) | ((key[n - 4] as u64) << 24) | ((key[n
        - 3] as u64) << 16) | ((key[n - 2] as u64) << 8) | (key[n - 1] as u64);
    if k < 0x8000_0000_0000_0000u64 || k - 0x8000_0000_0000_0000u64 > 0xFFFF_FFFFu64 {
        proof {
            assert forall|idx: u32, vals: Seq<ElementV>, rid: u32|
                key@ == #[trigger] spec_entry_key(idx, vals, rid) implies false by {
                lemma_entry_tail_shape(idx, vals, rid);
                lemma_rid_decode(key@, rid, k);
            }
        }
        return None;
    }
    let r = (k ^ 0x8000_0000_0000_0000u64) as u32;
    proof {
        assert forall|idx: u32, vals: Seq<ElementV>, rid: u32|
            key@ == #[trigger] spec_entry_key(idx, vals, rid) implies Some(r) == Some(rid) by {
            lemma_entry_tail_shape(idx, vals, rid);
            lemma_rid_decode(key@, rid, k);
        }
    }
    Some(r)
}

/// Every entry key ends in the nine bytes that encode the row id element.
proof fn lemma_entry_tail_shape(idx: u32, vals: Seq<ElementV>, rid: u32)
    ensures
        spec_entry_key(idx, vals, rid).len() >= 9,
        spec_entry_key(idx, vals, rid).subrange(
            spec_entry_key(idx, vals, rid).len() - 9,
            spec_entry_key(idx, vals, rid).len() as int,
        ) == elem_enc(ElementV::Int(rid as i64)),
{
    let k = spec_entry_key(idx, vals, rid);
    lemma_enc_seq_push(vals, ElementV::Int(rid as i64));
    let e = elem_enc(ElementV::Int(rid as i64));
    assert(e.len() == 9);
    assert(k =~= (index_prefix(idx) + enc_seq(vals)) + e);
    assert(k.subrange(k.len() - 9, k.len() as int) =~= e);
}

/// Reassembling the last eight bytes of an entry key gives the row id's
/// offset payload.
proof fn lemma_rid_decode(key: Seq<u8>, rid: u32, k: u64)
    requires
        key.len() >= 9,
        key.subrange(key.len() - 9, key.len() as int) == elem_enc(ElementV::Int(rid as i64)),
        k == (((key[key.len() - 8] as u64) << 56) | ((key[key.len() - 7] as u64) << 48) | ((
        key[key.len() - 6] as u64) << 40) | ((key[key.len() - 5] as u64) << 32) | ((key[key.len()
            - 4] as u64) << 24) | ((key[key.len() - 3] as u64) << 16) | ((key[key.len()
            - 2] as u64) << 8) | (key[key.len() - 1] as u64)),
    ensures
        k == crate::element::int_key(rid as i64),
        k >= 0x8000_0000_0000_0000,
        k - 0x8000_0000_0000_0000 <= 0xFFFF_FFFF,
        (k ^ 0x8000_0000_0000_0000) as u32 == rid,
{
    let e = elem_enc(ElementV::Int(rid as i64));
    let ik = crate::element::int_key(rid as i64);
    assert(e =~= seq![1u8] + crate::element::be8(ik));
    let s = key.subrange(key.len() - 9, key.len() as int);
    assert(s[1] == key[key.len() - 8]);
    assert(s[2] == key[key.len() - 7]);
    assert(s[3] == key[key.len() - 6]);
    assert(s[4] == key[key.len() - 5]);
    assert(s[5] == key[key.len() - 4]);
    assert(s[6] == key[key.len() - 3]);
    assert(s[7] == key[key.len() - 2]);
    assert(s[8] == key[key.len() - 1]);
    assert(s[1] == (ik >> 56) as u8);
    assert(s[2] == (ik >> 48) as u8);
    assert(s[3] == (ik >> 40) as u8);
    assert(s[4] == (ik >> 32) as u8);
    assert(s[5] == (ik >> 24) as u8);
    assert(s[6] == (ik >> 16) as u8);
    assert(s[7] == (ik >> 8) as u8);
    assert(s[8] == ik as u8);
    assert(k == ((((ik >> 56) as u8) as u64) << 56) | ((((ik >> 48) as u8) as u64) << 48) | ((((ik
        >> 40) as u8) as u64) << 40) | ((((ik >> 32) as u8) as u64) << 32) | ((((ik
        >> 24) as u8) as u64) << 24) | ((((ik >> 16) as u8) as u64) << 16) | ((((ik
        >> 8) as u8) as u64) << 8) | ((ik as u8) as u64));
    assert(((((ik >> 56) as u8) as u64) << 56) | ((((ik >> 48) as u8) as u64) << 48) | ((((ik
        >> 40) as u8) as u64) << 40) | ((((ik >> 32) as u8) as u64) << 32) | ((((ik
        >> 24) as u8) as u64) << 24) | ((((ik >> 16) as u8) as u64) << 16) | ((((ik
        >> 8) as u8) as u64) << 8) | ((ik as u8) as u64) == ik) by (bit_vector);
    let rid64 = rid as i64;
    assert(ik == ((rid64 as u64) ^ 0x8000_0000_0000_0000));
    assert(rid64 == rid as i64 && 0 <= rid <= 0xFFFF_FFFFu32);
    assert({
        let v = ((rid64 as u64) ^ 0x8000_0000_0000_0000);
        &&& v >= 0x8000_0000_0000_0000
        &&& v - 0x8000_0000_0000_0000 <= 0xFFFF_FFFF
        &&& (v ^ 0x8000_0000_0000_0000) as u32 == rid
    }) by (bit_vector)
        requires
            rid64 == rid as i64,
    ;
}

/// Selects, for each indexed column position, the matching column datum of
/// a decoded row; a position outside the row yields NULL.
pub fn select_indexed_datums(datums: &Vec<Option<Vec<u8>>>, attnums: &Vec<usize>) -> (r: Vec<
    Option<Vec<u8>>,
>)
    ensures
        r@.len() == attnums@.len(),
        forall|i: int|
            0 <= i < attnums@.len() ==> r.deep_view()[i] == (if attnums@[i] < datums@.len() {
                datums.deep_view()[attnums@[i] as int]
            } else {
                None
            }),
{
    let mut r: Vec<Option<Vec<u8>>> = Vec::new();
    let mut i: usize = 0;
    while i < attnums.len()
        invariant
            i <= attnums@.len(),
            r@.len() == i,
            forall|j: int|
                0 <= j < i as int ==> (#[trigger] r@[j]).deep_view() == (if attnums@[j]
                    < datums@.len() {
                    datums@[attnums@[j] as int].deep_view()
                } else {
                    None
                }),
        decreases attnums.len() - i,
    {
        let a = attnums[i];
        let item: Option<Vec<u8>> = if a < datums.len() {
            match &datums[a] {
                Option::None => Option::None,
                Option::Some(d) => Option::Some(crate::element::copy_bytes(d)),
            }
        } else {
            Option::None
        };
        proof {
            if a < datums.len() {
                assert(item.deep_view() == datums@[a as int].deep_view());
            }
        }
        r.push(item);
        i = i + 1;
    }
    proof {
        assert forall|i2: int| 0 <= i2 < attnums@.len() implies r.deep_view()[i2] == (if attnums@[i2]
            < datums@.len() {
            datums.deep_view()[attnums@[i2] as int]
        } else {
            None
        }) by {
            assert(r.deep_view()[i2] == r@[i2].deep_view());
            if attnums@[i2] < datums@.len() {
                assert(datums.deep_view()[attnums@[i2] as int] == datums@[attnums@[i2] as int].deep_view());
            }
        }
    }
    r
}

/// The plain value of one column datum, as the host adapter hands it over:
/// integers by width, text as UTF-8 bytes, floating values as the IEEE-754
/// bit pattern of the double they widen to, a UUID as one 128-bit integer.
#[derive(Debug, PartialEq, Eq)]
pub enum PgDatum {
    SmallInt(i16),
    Integer(i32),
    BigInt(i64),
    Text(Vec<u8>),
    Float8Bits(u64),
    Uuid(u128),
}

/// The element a datum of a given column type encodes to, when the type is
/// supported and the datum has the type's shape.
pub open spec fn spec_datum_element(d: PgDatum, type_oid: u32) -> Option<ElementV> {
    match d {
        PgDatum::SmallInt(x) => (if type_oid == 21 {
            Some(ElementV::Int(x as i64))
        } else {
            None
        }),
        PgDatum::Integer(x) => (if type_oid == 23 {
            Some(ElementV::Int(x as i64))
        } else {
            None
        }),
        PgDatum::BigInt(x) => (if type_oid == 20 {
            Some(ElementV::Int(x))
        } else {
            None
        }),
        PgDatum::Text(s) => (if type_oid == 25 || type_oid == 1043 {
            Some(ElementV::Text(s@))
        } else {
            None
        }),
        PgDatum::Float8Bits(b) => (if type_oid == 700 || type_oid == 701 {
            Some(ElementV::Double(b))
        } else {
            None
        }),
        PgDatum::Uuid(u) => (if type_oid == 2950 {
            Some(ElementV::Uuid(u))
        } else {
            None
        }),
    }
}

/// Encodes one column datum as a tuple element for an index key. Narrow
/// integers are sign-extended into the common 64-bit integer element, so
/// comparisons across integer column widths stay correct; text becomes a
/// text element; floating values arrive already widened to double bits; a
/// column type outside the supported set fails rather than miscoding.
pub fn encode_datum_for_index(datum: &PgDatum, type_oid: u32) -> (r: Result<
    Element,
    UnsupportedTypeError,
>)
    ensures
        match r {
            Result::Ok(e) => spec_datum_element(*datum, type_oid) == Some(e@),
            Result::Err(e) => spec_datum_element(*datum, type_oid) is None && e.type_oid
                == type_oid,
        },
{
    let unsupported = UnsupportedTypeError { type_oid };
    match datum {
        PgDatum::SmallInt(x) => {
            if type_oid == 21 {
                Result::Ok(Element::Int(*x as i64))
            } else {
                Result::Err(unsupported)
            }
        },
        PgDatum::Integer(x) => {
            if type_oid == 23 {
                Result::Ok(Element::Int(*x as i64))
            } else {
                Result::Err(unsupported)
            }
        },
        PgDatum::BigInt(x) => {
            if type_oid == 20 {
                Result::Ok(Element::Int(*x))
            } else {
                Result::Err(unsupported)
            }
        },
        PgDatum::Text(s) => {
            if type_oid == 25 || type_oid == 1043 {
                Result::Ok(Element::Text(crate::element::copy_bytes(s)))
            } else {
                Result::Err(unsupported)
            }
        },
        PgDatum::Float8Bits(b) => {
            if type_oid == 700 || type_oid == 701 {
                Result::Ok(Element::Double(*b))
            } else {
                Result::Err(unsupported)
            }
        },
        PgDatum::Uuid(u) => {
            if type_oid == 2950 {
                Result::Ok(Element::Uuid(*u))
            } else {
                Result::Err(unsupported)
            }
        },
    }
}

} // verus!
