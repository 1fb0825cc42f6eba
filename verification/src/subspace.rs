//! Byte-prefix keyspace partitioning per table and per index.
//!
//! Every table and every index owns a subspace: the byte prefix obtained by
//! encoding a kind label and the entity's numeric id as two tuple elements.
//! Because the prefix is built from delimited elements and never by raw
//! concatenation, no entity's keyspace is a prefix of another's, so all keys
//! of one entity are contiguous and an exact prefix scan per entity exists.

use vstd::prelude::*;

use crate::element::{
    elem_enc, enc_seq, encode_element, lemma_enc_seq_inj, lemma_enc_seq_push,
    lemma_enc_seq_singleton, Element, ElementV,
};
use crate::order::{first_difference, is_prefix};

verus! {

/// The bytes of the label naming the tables partition.
pub open spec fn tables_label() -> Seq<u8> {
    seq![0x74u8, 0x61u8, 0x62u8, 0x6Cu8, 0x65u8, 0x73u8]
}

/// The bytes of the label naming the indexes partition.
pub open spec fn indexes_label() -> Seq<u8> {
    seq![0x69u8, 0x6Eu8, 0x64u8, 0x65u8, 0x78u8, 0x65u8, 0x73u8]
}

/// The elements whose encoding is a table's subspace prefix.
pub open spec fn table_prefix_elems(table_id: u32) -> Seq<ElementV> {
    seq![ElementV::Text(tables_label()), ElementV::Int(table_id as i64)]
}

/// The elements whose encoding is an index's subspace prefix.
pub open spec fn index_prefix_elems(index_id: u32) -> Seq<ElementV> {
    seq![ElementV::Text(indexes_label()), ElementV::Int(index_id as i64)]
}

/// The byte prefix of a table's subspace.
pub open spec fn table_prefix(table_id: u32) -> Seq<u8> {
    enc_seq(table_prefix_elems(table_id))
}

/// The byte prefix of an index's subspace.
pub open spec fn index_prefix(index_id: u32) -> Seq<u8> {
    enc_seq(index_prefix_elems(index_id))
}

/// Encoding of a two-element sequence, spelled out.
proof fn lemma_enc_seq_pair(a: ElementV, b: ElementV)
    ensures
        enc_seq(seq![a, b]) == elem_enc(a) + elem_enc(b),
{
    assert(seq![a, b] =~= seq![a].push(b));
    lemma_enc_seq_push(seq![a], b);
    lemma_enc_seq_singleton(a);
}

/// Builds the subspace prefix of a table.
pub fn table(table_id: u32) -> (r: Vec<u8>)
    ensures
        r@ == table_prefix(table_id),
{
    let mut label: Vec<u8> = Vec::new();
    label.push(0x74u8);
    label.push(0x61u8);
    label.push(0x62u8);
    label.push(0x6Cu8);
    label.push(0x65u8);
    label.push(0x73u8);
    assert(label@ =~= tables_label());
    let mut r: Vec<u8> = Vec::new();
    encode_element(&Element::Text(label), &mut r);
    encode_element(&Element::Int(table_id as i64), &mut r);
    proof {
        lemma_enc_seq_pair(ElementV::Text(tables_label()), ElementV::Int(table_id as i64));
    }
    r
}

/// Builds the subspace prefix of an index.
pub fn index(index_id: u32) -> (r: Vec<u8>)
    ensures
        r@ == index_prefix(index_id),
{
    let mut label: Vec<u8> = Vec::new();
    label.push(0x69u8);
    label.push(0x6Eu8);
    label.push(0x64u8);
    label.push(0x65u8);
    label.push(0x78u8);
    label.push(0x65u8);
    label.push(0x73u8);
    assert(label@ =~= indexes_label());
    let mut r: Vec<u8> = Vec::new();
    encode_element(&Element::Text(label), &mut r);
    encode_element(&Element::Int(index_id as i64), &mut r);
    proof {
        lemma_enc_seq_pair(ElementV::Text(indexes_label()), ElementV::Int(index_id as i64));
    }
    r
}

/// The storage key of one table row: the table's subspace prefix followed
/// by the row id element.
pub open spec fn spec_table_row_key(table_id: u32, row_id: u32) -> Seq<u8> {
    table_prefix(table_id) + elem_enc(ElementV::Int(row_id as i64))
}

/// Builds the storage key of one table row.
pub fn table_row_key(table_id: u32, row_id: u32) -> (k: Vec<u8>)
    ensures
        k@ == spec_table_row_key(table_id, row_id),
{
    let mut k = table(table_id);
    encode_element(&Element::Int(row_id as i64), &mut k);
    k
}

/// Keys extending prefixes that disagree at some position cannot stand in a
/// prefix relation.
proof fn lemma_diverging_extensions(p1: Seq<u8>, p2: Seq<u8>, i: int, a: Seq<u8>, b: Seq<u8>)
    requires
        0 <= i < p1.len(),
        i < p2.len(),
        p1[i] != p2[i],
        is_prefix(p1, a),
        is_prefix(p2, b),
    ensures
        !is_prefix(a, b),
        a != b,
{
    assert(a[i] == p1[i]) by {
        assert(a.subrange(0, p1.len() as int)[i] == a[i]);
    }
    assert(b[i] == p2[i]) by {
        assert(b.subrange(0, p2.len() as int)[i] == b[i]);
    }
    if is_prefix(a, b) {
        assert(b.subrange(0, a.len() as int)[i] == b[i]);
        assert(a[i] == b[i]);
    }
}

/// The two prefix element sequences of distinct entities differ.
proof fn lemma_prefix_elems_differ(e1: Seq<ElementV>, e2: Seq<ElementV>)
    requires
        e1.len() == 2,
        e2.len() == 2,
        e1 != e2,
    ensures
        enc_seq(e1) != enc_seq(e2),
{
    if enc_seq(e1) == enc_seq(e2) {
        lemma_enc_seq_inj(e1, e2);
    }
}

/// Keyspace isolation: a key in one table's subspace is never a prefix of,
/// nor equal to, a key in another table's subspace, nor a key in any index's
/// subspace. Subspaces of distinct entities are therefore disjoint, and each
/// is contiguous under its own prefix.
pub proof fn lemma_keyspace_isolation(t1: u32, t2: u32, idx: u32, a: Seq<u8>, b: Seq<u8>, c: Seq<u8>)
    requires
        t1 != t2,
        is_prefix(table_prefix(t1), a),
        is_prefix(table_prefix(t2), b),
        is_prefix(index_prefix(idx), c),
    ensures
        !is_prefix(a, b),
        a != b,
        !is_prefix(a, c),
        a != c,
{
    let p1 = table_prefix(t1);
    let p2 = table_prefix(t2);
    let q = index_prefix(idx);
    assert(table_prefix_elems(t1) != table_prefix_elems(t2)) by {
        assert(table_prefix_elems(t1)[1] != table_prefix_elems(t2)[1]) by {
            assert(t1 as i64 != t2 as i64);
        }
    }
    lemma_prefix_elems_differ(table_prefix_elems(t1), table_prefix_elems(t2));
    assert(p1.len() == p2.len()) by {
        lemma_table_prefix_shape(t1);
        lemma_table_prefix_shape(t2);
    }
    let i = first_difference(p1, p2);
    lemma_diverging_extensions(p1, p2, i, a, b);
    lemma_table_prefix_shape(t1);
    lemma_index_prefix_shape(idx);
    lemma_diverging_extensions(p1, q, 1, a, c);
}

/// The byte length and second byte of a table prefix: the label opens with
/// the letter that distinguishes the partitions.
pub proof fn lemma_table_prefix_shape(t: u32)
    ensures
        table_prefix(t).len() == 17,
        table_prefix(t)[1] == 0x74,
{
    lemma_enc_seq_pair(ElementV::Text(tables_label()), ElementV::Int(t as i64));
    lemma_escape_all_nonzero(tables_label());
    assert(elem_enc(ElementV::Text(tables_label())) =~= seq![3u8] + crate::element::escape(
        tables_label(),
    ) + seq![0u8]);
    assert(crate::element::escape(tables_label())[0] == 0x74);
    assert(elem_enc(ElementV::Text(tables_label())).len() == 8);
    assert(table_prefix(t)[1] == elem_enc(ElementV::Text(tables_label()))[1]);
}

/// The byte length and second byte of an index prefix.
pub proof fn lemma_index_prefix_shape(i: u32)
    ensures
        index_prefix(i).len() == 18,
        index_prefix(i)[1] == 0x69,
{
    lemma_enc_seq_pair(ElementV::Text(indexes_label()), ElementV::Int(i as i64));
    lemma_escape_all_nonzero(indexes_label());
    assert(elem_enc(ElementV::Text(indexes_label())) =~= seq![3u8] + crate::element::escape(
        indexes_label(),
    ) + seq![0u8]);
    assert(crate::element::escape(indexes_label())[0] == 0x69);
    assert(elem_enc(ElementV::Text(indexes_label())).len() == 9);
    assert(index_prefix(i)[1] == elem_enc(ElementV::Text(indexes_label()))[1]);
}

/// Escaping a text without zero bytes keeps it byte for byte.
proof fn lemma_escape_all_nonzero(s: Seq<u8>)
    requires
        forall|j: int| 0 <= j < s.len() ==> s[j] != 0,
    ensures
        crate::element::escape(s) == s,
    decreases s.len(),
{
    if s.len() == 0 {
        assert(crate::element::escape(s) =~= s);
    } else {
        lemma_escape_all_nonzero(s.drop_first());
        assert(crate::element::escape(s) =~= seq![s[0]] + s.drop_first());
        assert(seq![s[0]] + s.drop_first() =~= s);
    }
}

} // verus!
