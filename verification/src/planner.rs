//! The scan planner: from a list of per-column constraints to key ranges.
//!
//! An index scan arrives as an ordered list of per-column constraints, one
//! per leading index column. Composite indexes support only a leading
//! equality prefix: every constraint except the last must be an equality,
//! and the constraints must cover the leading columns in order; anything
//! else is a [`PlannerError`] before any range is built. The planner
//! narrows the index subspace by the leading equality values and turns the
//! final constraint into one contiguous half-open key range — two for a
//! not-equals scan, emitted in ascending order so that consuming them in
//! sequence yields keys in ascending order throughout.
//!
//! The planner's contract is exact: an index entry key falls inside the
//! returned ranges precisely when its column values satisfy the constraint
//! list — a NULL value satisfying IS NULL and an equality against the nil
//! element, but no order comparison against a non-null bound — and every
//! key the ranges can select lies inside this index's own subspace.

use vstd::prelude::*;

use crate::element::{
    bound_tail_ok, copy_bytes, elem_enc, elem_le, elem_lt, elem_tag, enc_seq,
    encode_element, lemma_elem_enc_shape, lemma_elem_rel, lemma_elem_trichotomy,
    lemma_enc_seq_push, lemma_enc_seq_rel, lemma_enc_seq_shape, lemma_single_byte_bound,
    push_bytes, Element, ElementV,
};
use crate::errors::PlannerError;
use crate::indexing::{entry_elems, spec_entry_key};
use crate::order::{lemma_lex_cancel, lemma_lex_total, lex_le, lex_lt};
use crate::subspace::index_prefix;

verus! {

/// The comparison operator of one scan constraint.
#[derive(Debug, Clone, Copy, PartialEq, Eq, Structural)]
pub enum Strategy {
    Less,
    LessEqual,
    Equal,
    GreaterEqual,
    Greater,
    NotEqual,
    IsNull,
    IsNotNull,
}

/// One per-column constraint of an index scan: the index column it binds,
/// counted from zero, the operator, and the bound value. For `IsNull` and
/// `IsNotNull` the bound is ignored and the nil element is compared.
#[derive(Debug, PartialEq, Eq)]
pub struct ScanKey {
    pub column: usize,
    pub strategy: Strategy,
    pub bound: Element,
}

/// One contiguous key range, half-open: the keys `k` with
/// `begin <= k < end` byte-lexicographically.
#[derive(Debug, PartialEq, Eq)]
pub struct KeyRange {
    pub begin: Vec<u8>,
    pub end: Vec<u8>,
}

/// Whether a key lies in one range.
pub open spec fn in_range(r: KeyRange, k: Seq<u8>) -> bool {
    lex_le(r.begin@, k) && lex_lt(k, r.end@)
}

/// Whether a key lies in any of the ranges.
pub open spec fn in_ranges(rs: Seq<KeyRange>, k: Seq<u8>) -> bool {
    exists|i: int| 0 <= i < rs.len() && in_range(#[trigger] rs[i], k)
}

/// A well-formed constraint list: the constraints cover the index's
/// leading columns in order, and every constraint except the last is an
/// equality.
pub open spec fn wf_scan_keys(ks: Seq<ScanKey>) -> bool {
    forall|i: int|
        0 <= i < ks.len() ==> (#[trigger] ks[i]).column == i && (i < ks.len() - 1 ==> ks[i].strategy
            == Strategy::Equal)
}

/// The element the final constraint compares against: the nil element for
/// the null tests, the given bound otherwise.
pub open spec fn spec_bound(k: ScanKey) -> ElementV {
    match k.strategy {
        Strategy::IsNull => ElementV::Nil,
        Strategy::IsNotNull => ElementV::Nil,
        _ => k.bound@,
    }
}

/// Whether one column value satisfies the final constraint, under SQL
/// comparison semantics: NULL satisfies IS NULL — equivalently an equality
/// against the nil element — while against a non-null bound it fails every
/// order comparison and every not-equals test.
pub open spec fn sat_final(strat: Strategy, v: ElementV, w: ElementV) -> bool {
    match strat {
        Strategy::Equal => w == v,
        Strategy::IsNull => w == ElementV::Nil,
        Strategy::Less => w != ElementV::Nil && elem_lt(w, v),
        Strategy::LessEqual => w != ElementV::Nil && elem_le(w, v),
        Strategy::GreaterEqual => elem_le(v, w),
        Strategy::Greater => elem_lt(v, w),
        Strategy::NotEqual => w != ElementV::Nil && w != v,
        Strategy::IsNotNull => w != ElementV::Nil,
    }
}

/// Whether a row's indexed column values pass the whole constraint list:
/// every leading equality matches its bound, and the final constraint is
/// satisfied by the value of the column it binds.
pub open spec fn keys_permit(ks: Seq<ScanKey>, vals: Seq<ElementV>) -> bool {
    ks.len() == 0 || ((forall|i: int|
        0 <= i < ks.len() - 1 ==> vals[i] == (#[trigger] ks[i]).bound@) && sat_final(
        ks[ks.len() - 1].strategy,
        spec_bound(ks[ks.len() - 1]),
        vals[ks.len() - 1],
    ))
}

/// The bounds of the leading equality constraints, in column order.
pub open spec fn head_bounds(ks: Seq<ScanKey>) -> Seq<ElementV> {
    if ks.len() == 0 {
        Seq::empty()
    } else {
        Seq::new((ks.len() - 1) as nat, |j: int| ks[j].bound@)
    }
}

/// How the encoding of one entry column value with its tail compares
/// against each bound tail a range can end in.
proof fn lemma_cfull_bounds(w: ElementV, t: Seq<u8>, v: ElementV)
    requires
        t.len() > 0,
        t[0] < 0xFF,
    ensures
        !lex_lt(elem_enc(w) + t, seq![0u8]),
        lex_lt(elem_enc(w) + t, seq![0x01u8]) <==> w == ElementV::Nil,
        lex_lt(elem_enc(w) + t, seq![0xFFu8]),
        lex_lt(elem_enc(w) + t, elem_enc(v) + seq![0u8]) <==> elem_lt(w, v),
        lex_lt(elem_enc(w) + t, elem_enc(v) + seq![0xFFu8]) <==> elem_le(w, v),
{
    lemma_elem_enc_shape(w);
    let c = elem_enc(w) + t;
    assert(c.len() > 0);
    assert(c[0] == elem_tag(w));
    lemma_single_byte_bound(c, 0);
    lemma_single_byte_bound(c, 1);
    lemma_single_byte_bound(c, 0xFF);
    assert(elem_tag(w) == 0 <==> w == ElementV::Nil) by {
        match w {
            ElementV::Nil => {},
            _ => {},
        }
    }
    assert(bound_tail_ok(seq![0u8]));
    assert(bound_tail_ok(seq![0xFFu8]));
    lemma_elem_rel(w, v, t, seq![0u8]);
    lemma_elem_rel(w, v, t, seq![0xFFu8]);
    lemma_elem_trichotomy(w, v);
    lemma_single_byte_bound(t, 0);
    lemma_single_byte_bound(t, 0xFF);
}

/// Membership of one entry key in one range below the planner's base
/// prefix: when the entry's leading values match the leading bounds, the
/// bound tails decide against the entry's own tail; when they differ, the
/// entry lies outside the range altogether.
proof fn lemma_range_membership(
    index_id: u32,
    hb: Seq<ElementV>,
    vals: Seq<ElementV>,
    rid: u32,
    dlo: Seq<u8>,
    dhi: Seq<u8>,
)
    requires
        vals.len() > hb.len(),
        dlo.len() > 0,
        dlo[0] < 0xFF,
        bound_tail_ok(dhi),
    ensures
        ({
            let k = spec_entry_key(index_id, vals, rid);
            let base0 = index_prefix(index_id) + enc_seq(hb);
            let m = hb.len() as int;
            let cfull = elem_enc(vals[m]) + enc_seq(entry_elems(vals, rid).skip(m + 1));
            (lex_le(base0 + dlo, k) && lex_lt(k, base0 + dhi)) == (if vals.take(m) == hb {
                !lex_lt(cfull, dlo) && lex_lt(cfull, dhi)
            } else {
                false
            })
        }),
{
    let k = spec_entry_key(index_id, vals, rid);
    let ip = index_prefix(index_id);
    let m = hb.len() as int;
    let full = entry_elems(vals, rid);
    let head = vals.take(m);
    let tail2 = enc_seq(full.skip(m + 1));
    let cfull = elem_enc(vals[m]) + tail2;
    assert(full.len() == vals.len() + 1);
    assert(full.skip(m).len() >= 2);
    assert(full.skip(m)[0] == vals[m]);
    assert(full.skip(m).drop_first() =~= full.skip(m + 1));
    assert(enc_seq(full.skip(m)) == cfull);
    assert(full.take(m) =~= head);
    assert(full =~= full.take(m) + full.skip(m));
    crate::element::lemma_enc_seq_app(full.take(m), full.skip(m));
    assert(k =~= ip + (enc_seq(head) + cfull));
    assert(full.skip(m + 1).len() >= 1);
    lemma_enc_seq_shape(full.skip(m + 1));
    lemma_elem_enc_shape(vals[m]);
    assert(cfull.len() > 0);
    assert(cfull[0] == elem_tag(vals[m]) && cfull[0] < 0xFF);
    let lo = (ip + enc_seq(hb)) + dlo;
    let hi = (ip + enc_seq(hb)) + dhi;
    assert(lo =~= ip + (enc_seq(hb) + dlo));
    assert(hi =~= ip + (enc_seq(hb) + dhi));
    lemma_lex_cancel(ip, enc_seq(head) + cfull, enc_seq(hb) + dlo);
    lemma_lex_cancel(ip, enc_seq(head) + cfull, enc_seq(hb) + dhi);
    lemma_enc_seq_rel(head, hb, cfull, dlo);
    lemma_enc_seq_rel(head, hb, cfull, dhi);
    lemma_lex_total(lo, k);
}

/// Membership below the base prefix, with the leading-equality clause
/// spelled out pointwise.
proof fn lemma_membership_common(
    index_id: u32,
    ks: Seq<ScanKey>,
    vals: Seq<ElementV>,
    rid: u32,
    dlo: Seq<u8>,
    dhi: Seq<u8>,
)
    requires
        ks.len() >= 1,
        vals.len() >= ks.len(),
        dlo.len() > 0,
        dlo[0] < 0xFF,
        bound_tail_ok(dhi),
    ensures
        ({
            let m = ks.len() - 1;
            let k = spec_entry_key(index_id, vals, rid);
            let base0 = index_prefix(index_id) + enc_seq(head_bounds(ks));
            let cfull = elem_enc(vals[m]) + enc_seq(entry_elems(vals, rid).skip(m + 1));
            (lex_le(base0 + dlo, k) && lex_lt(k, base0 + dhi)) == ((forall|i: int|
                0 <= i < m ==> vals[i] == (#[trigger] ks[i]).bound@) && !lex_lt(cfull, dlo)
                && lex_lt(cfull, dhi))
        }),
{
    let m = ks.len() - 1;
    let hb = head_bounds(ks);
    assert(hb.len() == m);
    lemma_range_membership(index_id, hb, vals, rid, dlo, dhi);
    if vals.take(m as int) == hb {
        assert forall|i: int| 0 <= i < m implies vals[i] == (#[trigger] ks[i]).bound@ by {
            assert(vals.take(m as int)[i] == vals[i]);
            assert(hb[i] == ks[i].bound@);
        }
    }
    if forall|i: int| 0 <= i < m ==> vals[i] == (#[trigger] ks[i]).bound@ {
        assert(vals.take(m as int) =~= hb) by {
            assert(forall|i: int| 0 <= i < m ==> vals.take(m as int)[i] == vals[i]);
            assert(forall|i: int| 0 <= i < m ==> hb[i] == (#[trigger] ks[i]).bound@);
        }
    }
}

/// No element is below nil in the logical order.
proof fn lemma_nothing_below_nil(v: ElementV)
    ensures
        !elem_lt(v, ElementV::Nil),
{
    match v {
        ElementV::Nil => {},
        _ => {},
    }
}

/// The one or two ranges of the final constraint accept exactly the entry
/// keys whose values pass the whole constraint list.
#[verifier::rlimit(100)]
proof fn lemma_final_range(index_id: u32, ks: Seq<ScanKey>, vals: Seq<ElementV>, rid: u32)
    requires
        ks.len() >= 1,
        vals.len() >= ks.len(),
    ensures
        ({
            let m = ks.len() - 1;
            let st = ks[m as int].strategy;
            let ve = spec_bound(ks[m as int]);
            let k = spec_entry_key(index_id, vals, rid);
            let base0 = index_prefix(index_id) + enc_seq(head_bounds(ks));
            match st {
                Strategy::Less => (lex_le(base0 + seq![0x01u8], k) && lex_lt(
                    k,
                    base0 + (elem_enc(ve) + seq![0u8]),
                )) == keys_permit(ks, vals),
                Strategy::LessEqual => (lex_le(base0 + seq![0x01u8], k) && lex_lt(
                    k,
                    base0 + (elem_enc(ve) + seq![0xFFu8]),
                )) == keys_permit(ks, vals),
                Strategy::Equal => (lex_le(base0 + (elem_enc(ve) + seq![0u8]), k) && lex_lt(
                    k,
                    base0 + (elem_enc(ve) + seq![0xFFu8]),
                )) == keys_permit(ks, vals),
                Strategy::IsNull => (lex_le(base0 + (elem_enc(ve) + seq![0u8]), k) && lex_lt(
                    k,
                    base0 + (elem_enc(ve) + seq![0xFFu8]),
                )) == keys_permit(ks, vals),
                Strategy::GreaterEqual => (lex_le(base0 + (elem_enc(ve) + seq![0u8]), k)
                    && lex_lt(k, base0 + seq![0xFFu8])) == keys_permit(ks, vals),
                Strategy::Greater => (lex_le(base0 + (elem_enc(ve) + seq![0xFFu8]), k) && lex_lt(
                    k,
                    base0 + seq![0xFFu8],
                )) == keys_permit(ks, vals),
                Strategy::NotEqual => ((lex_le(base0 + seq![0x01u8], k) && lex_lt(
                    k,
                    base0 + (elem_enc(ve) + seq![0u8]),
                )) || (lex_le(base0 + (elem_enc(ve) + seq![0xFFu8]), k) && lex_lt(
                    k,
                    base0 + seq![0xFFu8],
                ))) == keys_permit(ks, vals),
                Strategy::IsNotNull => ((lex_le(base0 + seq![0x01u8], k) && lex_lt(
                    k,
                    base0 + (elem_enc(ve) + seq![0u8]),
                )) || (lex_le(base0 + (elem_enc(ve) + seq![0xFFu8]), k) && lex_lt(
                    k,
                    base0 + seq![0xFFu8],
                ))) == keys_permit(ks, vals),
            }
        }),
{
    let m = ks.len() - 1;
    let st = ks[m as int].strategy;
    let ve = spec_bound(ks[m as int]);
    let w = vals[m as int];
    let t = enc_seq(entry_elems(vals, rid).skip(m + 1));
    let full = entry_elems(vals, rid);
    assert(full.skip(m + 1).len() >= 1);
    lemma_enc_seq_shape(full.skip(m + 1));
    assert(t.len() > 0 && t[0] < 0xFF);
    lemma_elem_enc_shape(ve);
    let d_lo1 = seq![0x01u8];
    let d_ff = seq![0xFFu8];
    let d_eq0 = elem_enc(ve) + seq![0u8];
    let d_eqff = elem_enc(ve) + seq![0xFFu8];
    assert(d_eq0[0] == elem_tag(ve) && d_eqff[0] == elem_tag(ve));
    assert(bound_tail_ok(d_eq0) && bound_tail_ok(d_eqff) && bound_tail_ok(d_ff) && bound_tail_ok(
        d_lo1,
    ));
    lemma_cfull_bounds(w, t, ve);
    lemma_elem_trichotomy(w, ve);
    lemma_nothing_below_nil(ve);
    match st {
        Strategy::Less => {
            lemma_membership_common(index_id, ks, vals, rid, d_lo1, d_eq0);
        },
        Strategy::LessEqual => {
            lemma_membership_common(index_id, ks, vals, rid, d_lo1, d_eqff);
        },
        Strategy::Equal => {
            lemma_membership_common(index_id, ks, vals, rid, d_eq0, d_eqff);
        },
        Strategy::IsNull => {
            lemma_membership_common(index_id, ks, vals, rid, d_eq0, d_eqff);
        },
        Strategy::GreaterEqual => {
            lemma_membership_common(index_id, ks, vals, rid, d_eq0, d_ff);
        },
        Strategy::Greater => {
            lemma_membership_common(index_id, ks, vals, rid, d_eqff, d_ff);
        },
        Strategy::NotEqual => {
            lemma_membership_common(index_id, ks, vals, rid, d_lo1, d_eq0);
            lemma_membership_common(index_id, ks, vals, rid, d_eqff, d_ff);
        },
        Strategy::IsNotNull => {
            lemma_membership_common(index_id, ks, vals, rid, d_lo1, d_eq0);
            lemma_membership_common(index_id, ks, vals, rid, d_eqff, d_ff);
        },
    }
}

/// Plans an index scan: validates the constraint list, narrows the index
/// subspace by the leading equality bounds, and turns the final constraint
/// into its key ranges. Exactly the entry keys whose column values satisfy
/// every constraint fall inside the returned ranges; with no constraints
/// the single range covers the whole index subspace. A constraint list
/// that skips a leading column or puts a non-equality before the last
/// constraint is rejected.
#[verifier::rlimit(100)]
pub fn plan_index_scan(index_id: u32, keys: &Vec<ScanKey>) -> (r: Result<
    Vec<KeyRange>,
    PlannerError,
>)
    ensures
        (r is Err) <==> !wf_scan_keys(keys@),
        match r {
            Result::Ok(ranges) => {
                &&& 1 <= ranges@.len() <= 2
                &&& (forall|vals: Seq<ElementV>, rid: u32|
                    vals.len() >= keys@.len() ==> (in_ranges(
                        ranges@,
                        #[trigger] spec_entry_key(index_id, vals, rid),
                    ) <==> keys_permit(keys@, vals)))
                &&& (ranges@.len() == 2 ==> lex_le(ranges@[0].end@, ranges@[1].begin@))
                &&& (forall|k: Seq<u8>|
                    #[trigger] in_ranges(ranges@, k) ==> crate::order::is_prefix(
                        index_prefix(index_id),
                        k,
                    ))
            },
            Result::Err(_) => true,
        },
{
    let n = keys.len();
    let mut vi: usize = 0;
    while vi < n
        invariant
            vi <= n,
            n == keys@.len(),
            forall|j: int|
                0 <= j < vi ==> (#[trigger] keys@[j]).column == j && (j < n - 1 ==> keys@[j].strategy
                    == Strategy::Equal),
        decreases n - vi,
    {
        if keys[vi].column != vi {
            proof {
                assert(!wf_scan_keys(keys@)) by {
                    if wf_scan_keys(keys@) {
                        assert(keys@[vi as int].column == vi as int);
                    }
                }
            }
            return Result::Err(PlannerError::NonLeadingColumn);
        }
        if vi + 1 < n {
            match keys[vi].strategy {
                Strategy::Equal => {},
                _ => {
                    proof {
                        assert(!wf_scan_keys(keys@)) by {
                            if wf_scan_keys(keys@) {
                                assert(keys@[vi as int].column == vi as int);
                            }
                        }
                    }
                    return Result::Err(PlannerError::NonFinalInequality);
                },
            }
        }
        vi = vi + 1;
    }
    assert(wf_scan_keys(keys@));
    let mut base = crate::subspace::index(index_id);
    let ghost ks = keys@;
    let ghost hb = head_bounds(ks);
    if n == 0 {
        let mut lo = copy_bytes(&base);
        lo.push(0u8);
        let mut hi = copy_bytes(&base);
        hi.push(0xFFu8);
        let mut ranges: Vec<KeyRange> = Vec::new();
        ranges.push(KeyRange { begin: lo, end: hi });
        proof {
            let ip = index_prefix(index_id);
            assert(ranges@[0].begin@ =~= ip + seq![0u8]);
            assert(ranges@[0].end@ =~= ip + seq![0xFFu8]);
            lemma_prefix_bound(ip, seq![0u8], ranges@[0].begin@);
            lemma_prefix_bound(ip, seq![0xFFu8], ranges@[0].end@);
            lemma_ranges_in_subspace(ip, ranges@);
            assert forall|vals: Seq<ElementV>, rid: u32| vals.len() >= ks.len() implies (in_ranges(
                ranges@,
                #[trigger] spec_entry_key(index_id, vals, rid),
            ) <==> keys_permit(ks, vals)) by {
                let k = spec_entry_key(index_id, vals, rid);
                let full = entry_elems(vals, rid);
                assert(full.len() >= 1);
                lemma_enc_seq_shape(full);
                lemma_lex_cancel(ip, enc_seq(full), seq![0u8]);
                lemma_lex_cancel(ip, enc_seq(full), seq![0xFFu8]);
                lemma_single_byte_bound(enc_seq(full), 0);
                lemma_single_byte_bound(enc_seq(full), 0xFF);
                lemma_lex_total(ip + seq![0u8], k);
                assert(lex_le(ip + seq![0u8], k));
                assert(lex_lt(k, ip + seq![0xFFu8]));
                lemma_in_ranges_single(ranges@, k);
                assert(keys_permit(ks, vals));
            }
        }
        return Result::Ok(ranges);
    }
    let ghost m = (n - 1) as int;
    let mut bi: usize = 0;
    proof {
        assert(base@ =~= index_prefix(index_id) + enc_seq(hb.take(0)));
    }
    while bi + 1 < n
        invariant
            n == keys@.len(),
            1 <= n,
            ks == keys@,
            hb == head_bounds(ks),
            hb.len() == n - 1,
            bi <= n - 1,
            base@ == index_prefix(index_id) + enc_seq(hb.take(bi as int)),
        decreases n - bi,
    {
        encode_element(&keys[bi].bound, &mut base);
        proof {
            assert(hb[bi as int] == ks[bi as int].bound@);
            assert(hb.take(bi + 1) =~= hb.take(bi as int).push(hb[bi as int]));
            lemma_enc_seq_push(hb.take(bi as int), hb[bi as int]);
            assert((index_prefix(index_id) + enc_seq(hb.take(bi as int))) + elem_enc(
                hb[bi as int],
            ) =~= index_prefix(index_id) + enc_seq(hb.take(bi + 1)));
        }
        bi = bi + 1;
    }
    let ghost base0 = index_prefix(index_id) + enc_seq(hb);
    proof {
        assert(bi == n - 1);
        assert(hb.take(m) =~= hb);
        assert(base@ == base0);
    }
    let mut encv: Vec<u8> = Vec::new();
    match keys[n - 1].strategy {
        Strategy::IsNull => encode_element(&Element::Nil, &mut encv),
        Strategy::IsNotNull => encode_element(&Element::Nil, &mut encv),
        _ => encode_element(&keys[n - 1].bound, &mut encv),
    }
    let ghost ve = spec_bound(ks[m]);
    proof {
        assert(encv@ == elem_enc(ve));
    }
    let mut ranges: Vec<KeyRange> = Vec::new();
    match keys[n - 1].strategy {
        Strategy::Equal | Strategy::IsNull => {
            let mut lo = copy_bytes(&base);
            push_bytes(&mut lo, &encv);
            lo.push(0u8);
            let mut hi = copy_bytes(&base);
            push_bytes(&mut hi, &encv);
            hi.push(0xFFu8);
            ranges.push(KeyRange { begin: lo, end: hi });
            proof {
                assert(ranges@[0].begin@ =~= base0 + (elem_enc(ve) + seq![0u8]));
                assert(ranges@[0].end@ =~= base0 + (elem_enc(ve) + seq![0xFFu8]));
                assert(ranges@[0].begin@ =~= index_prefix(index_id) + (enc_seq(hb) + (elem_enc(ve) + seq![0u8])));
                assert(ranges@[0].end@ =~= index_prefix(index_id) + (enc_seq(hb) + (elem_enc(ve) + seq![0xFFu8])));
                lemma_prefix_bound(index_prefix(index_id), enc_seq(hb) + (elem_enc(ve) + seq![0u8]), ranges@[0].begin@);
                lemma_prefix_bound(index_prefix(index_id), enc_seq(hb) + (elem_enc(ve) + seq![0xFFu8]), ranges@[0].end@);
                lemma_ranges_in_subspace(index_prefix(index_id), ranges@);
                assert forall|vals: Seq<ElementV>, rid: u32|
                    vals.len() >= ks.len() implies (in_ranges(
                    ranges@,
                    #[trigger] spec_entry_key(index_id, vals, rid),
                ) <==> keys_permit(ks, vals)) by {
                    let k = spec_entry_key(index_id, vals, rid);
                    lemma_final_range(index_id, ks, vals, rid);
                    lemma_in_ranges_single(ranges@, k);
                }
            }
        },
        Strategy::Less => {
            let mut lo = copy_bytes(&base);
            lo.push(0x01u8);
            let mut hi = copy_bytes(&base);
            push_bytes(&mut hi, &encv);
            hi.push(0u8);
            ranges.push(KeyRange { begin: lo, end: hi });
            proof {
                assert(ranges@[0].begin@ =~= base0 + seq![0x01u8]);
                assert(ranges@[0].end@ =~= base0 + (elem_enc(ve) + seq![0u8]));
                assert(ranges@[0].begin@ =~= index_prefix(index_id) + (enc_seq(hb) + seq![0x01u8]));
                assert(ranges@[0].end@ =~= index_prefix(index_id) + (enc_seq(hb) + (elem_enc(ve) + seq![0u8])));
                lemma_prefix_bound(index_prefix(index_id), enc_seq(hb) + seq![0x01u8], ranges@[0].begin@);
                lemma_prefix_bound(index_prefix(index_id), enc_seq(hb) + (elem_enc(ve) + seq![0u8]), ranges@[0].end@);
                lemma_ranges_in_subspace(index_prefix(index_id), ranges@);
                assert forall|vals: Seq<ElementV>, rid: u32|
                    vals.len() >= ks.len() implies (in_ranges(
                    ranges@,
                    #[trigger] spec_entry_key(index_id, vals, rid),
                ) <==> keys_permit(ks, vals)) by {
                    let k = spec_entry_key(index_id, vals, rid);
                    lemma_final_range(index_id, ks, vals, rid);
                    lemma_in_ranges_single(ranges@, k);
                }
            }
        },
        Strategy::LessEqual => {
            let mut lo = copy_bytes(&base);
            lo.push(0x01u8);
            let mut hi = copy_bytes(&base);
            push_bytes(&mut hi, &encv);
            hi.push(0xFFu8);
            ranges.push(KeyRange { begin: lo, end: hi });
            proof {
                assert(ranges@[0].begin@ =~= base0 + seq![0x01u8]);
                assert(ranges@[0].end@ =~= base0 + (elem_enc(ve) + seq![0xFFu8]));
                assert(ranges@[0].begin@ =~= index_prefix(index_id) + (enc_seq(hb) + seq![0x01u8]));
                assert(ranges@[0].end@ =~= index_prefix(index_id) + (enc_seq(hb) + (elem_enc(ve) + seq![0xFFu8])));
                lemma_prefix_bound(index_prefix(index_id), enc_seq(hb) + seq![0x01u8], ranges@[0].begin@);
                lemma_prefix_bound(index_prefix(index_id), enc_seq(hb) + (elem_enc(ve) + seq![0xFFu8]), ranges@[0].end@);
                lemma_ranges_in_subspace(index_prefix(index_id), ranges@);
                assert forall|vals: Seq<ElementV>, rid: u32|
                    vals.len() >= ks.len() implies (in_ranges(
                    ranges@,
                    #[trigger] spec_entry_key(index_id, vals, rid),
                ) <==> keys_permit(ks, vals)) by {
                    let k = spec_entry_key(index_id, vals, rid);
                    lemma_final_range(index_id, ks, vals, rid);
                    lemma_in_ranges_single(ranges@, k);
                }
            }
        },
        Strategy::GreaterEqual => {
            let mut lo = copy_bytes(&base);
            push_bytes(&mut lo, &encv);
            lo.push(0u8);
            let mut hi = copy_bytes(&base);
            hi.push(0xFFu8);
            ranges.push(KeyRange { begin: lo, end: hi });
            proof {
                assert(ranges@[0].begin@ =~= base0 + (elem_enc(ve) + seq![0u8]));
                assert(ranges@[0].end@ =~= base0 + seq![0xFFu8]);
                assert(ranges@[0].begin@ =~= index_prefix(index_id) + (enc_seq(hb) + (elem_enc(ve) + seq![0u8])));
                assert(ranges@[0].end@ =~= index_prefix(index_id) + (enc_seq(hb) + seq![0xFFu8]));
                lemma_prefix_bound(index_prefix(index_id), enc_seq(hb) + (elem_enc(ve) + seq![0u8]), ranges@[0].begin@);
                lemma_prefix_bound(index_prefix(index_id), enc_seq(hb) + seq![0xFFu8], ranges@[0].end@);
                lemma_ranges_in_subspace(index_prefix(index_id), ranges@);
                assert forall|vals: Seq<ElementV>, rid: u32|
                    vals.len() >= ks.len() implies (in_ranges(
                    ranges@,
                    #[trigger] spec_entry_key(index_id, vals, rid),
                ) <==> keys_permit(ks, vals)) by {
                    let k = spec_entry_key(index_id, vals, rid);
                    lemma_final_range(index_id, ks, vals, rid);
                    lemma_in_ranges_single(ranges@, k);
                }
            }
        },
        Strategy::Greater => {
            let mut lo = copy_bytes(&base);
            push_bytes(&mut lo, &encv);
            lo.push(0xFFu8);
            let mut hi = copy_bytes(&base);
            hi.push(0xFFu8);
            ranges.push(KeyRange { begin: lo, end: hi });
            proof {
                assert(ranges@[0].begin@ =~= base0 + (elem_enc(ve) + seq![0xFFu8]));
                assert(ranges@[0].end@ =~= base0 + seq![0xFFu8]);
                assert(ranges@[0].begin@ =~= index_prefix(index_id) + (enc_seq(hb) + (elem_enc(ve) + seq![0xFFu8])));
                assert(ranges@[0].end@ =~= index_prefix(index_id) + (enc_seq(hb) + seq![0xFFu8]));
                lemma_prefix_bound(index_prefix(index_id), enc_seq(hb) + (elem_enc(ve) + seq![0xFFu8]), ranges@[0].begin@);
                lemma_prefix_bound(index_prefix(index_id), enc_seq(hb) + seq![0xFFu8], ranges@[0].end@);
                lemma_ranges_in_subspace(index_prefix(index_id), ranges@);
                assert forall|vals: Seq<ElementV>, rid: u32|
                    vals.len() >= ks.len() implies (in_ranges(
                    ranges@,
                    #[trigger] spec_entry_key(index_id, vals, rid),
                ) <==> keys_permit(ks, vals)) by {
                    let k = spec_entry_key(index_id, vals, rid);
                    lemma_final_range(index_id, ks, vals, rid);
                    lemma_in_ranges_single(ranges@, k);
                }
            }
        },
        Strategy::NotEqual | Strategy::IsNotNull => {
            let mut lo = copy_bytes(&base);
            lo.push(0x01u8);
            let mut hi = copy_bytes(&base);
            push_bytes(&mut hi, &encv);
            hi.push(0u8);
            ranges.push(KeyRange { begin: lo, end: hi });
            let mut lo2 = copy_bytes(&base);
            push_bytes(&mut lo2, &encv);
            lo2.push(0xFFu8);
            let mut hi2 = copy_bytes(&base);
            hi2.push(0xFFu8);
            ranges.push(KeyRange { begin: lo2, end: hi2 });
            proof {
                assert(ranges@[0].begin@ =~= base0 + seq![0x01u8]);
                assert(ranges@[0].end@ =~= base0 + (elem_enc(ve) + seq![0u8]));
                assert(ranges@[1].begin@ =~= base0 + (elem_enc(ve) + seq![0xFFu8]));
                assert(ranges@[1].end@ =~= base0 + seq![0xFFu8]);
                assert(ranges@[0].begin@ =~= index_prefix(index_id) + (enc_seq(hb)
                    + seq![0x01u8]));
                assert(ranges@[0].end@ =~= index_prefix(index_id) + (enc_seq(hb) + (elem_enc(ve)
                    + seq![0u8])));
                assert(ranges@[1].begin@ =~= index_prefix(index_id) + (enc_seq(hb) + (elem_enc(
                    ve,
                ) + seq![0xFFu8])));
                assert(ranges@[1].end@ =~= index_prefix(index_id) + (enc_seq(hb)
                    + seq![0xFFu8]));
                lemma_prefix_bound(
                    index_prefix(index_id),
                    enc_seq(hb) + seq![0x01u8],
                    ranges@[0].begin@,
                );
                lemma_prefix_bound(
                    index_prefix(index_id),
                    enc_seq(hb) + (elem_enc(ve) + seq![0u8]),
                    ranges@[0].end@,
                );
                lemma_prefix_bound(
                    index_prefix(index_id),
                    enc_seq(hb) + (elem_enc(ve) + seq![0xFFu8]),
                    ranges@[1].begin@,
                );
                lemma_prefix_bound(
                    index_prefix(index_id),
                    enc_seq(hb) + seq![0xFFu8],
                    ranges@[1].end@,
                );
                lemma_ranges_in_subspace(index_prefix(index_id), ranges@);
                assert forall|vals: Seq<ElementV>, rid: u32|
                    vals.len() >= ks.len() implies (in_ranges(
                    ranges@,
                    #[trigger] spec_entry_key(index_id, vals, rid),
                ) <==> keys_permit(ks, vals)) by {
                    let k = spec_entry_key(index_id, vals, rid);
                    lemma_final_range(index_id, ks, vals, rid);
                    lemma_in_ranges_pair(ranges@, k);
                }
                assert(lex_le(ranges@[0].end@, ranges@[1].begin@)) by {
                    assert(ranges@[0].end@ =~= (base0 + elem_enc(ve)) + seq![0u8]);
                    assert(ranges@[1].begin@ =~= (base0 + elem_enc(ve)) + seq![0xFFu8]);
                    lemma_lex_cancel(base0 + elem_enc(ve), seq![0u8], seq![0xFFu8]);
                }
            }
        },
    }
    Result::Ok(ranges)
}


/// A bound built as the base prefix plus a nonempty tail extends the
/// index prefix.
proof fn lemma_prefix_bound(ip: Seq<u8>, x: Seq<u8>, v: Seq<u8>)
    requires
        v == ip + x,
        x.len() > 0,
    ensures
        crate::order::is_prefix(ip, v),
        v.len() > ip.len(),
{
    crate::order::lemma_prefix_of_concat(ip, x);
}

/// Every key inside ranges whose bounds extend the index prefix extends
/// the index prefix itself.
proof fn lemma_ranges_in_subspace(ip: Seq<u8>, rs: Seq<KeyRange>)
    requires
        forall|i: int|
            0 <= i < rs.len() ==> crate::order::is_prefix(ip, (#[trigger] rs[i]).begin@)
                && rs[i].begin@.len() > ip.len() && crate::order::is_prefix(ip, rs[i].end@),
    ensures
        forall|k: Seq<u8>| #[trigger] in_ranges(rs, k) ==> crate::order::is_prefix(ip, k),
{
    assert forall|k: Seq<u8>| #[trigger] in_ranges(rs, k) implies crate::order::is_prefix(
        ip,
        k,
    ) by {
        let i = choose|i: int| 0 <= i < rs.len() && in_range(#[trigger] rs[i], k);
        crate::order::lemma_range_within_prefix(ip, rs[i].begin@, rs[i].end@, k);
    }
}

/// Membership in a one-range list is membership in its only range.
proof fn lemma_in_ranges_single(rs: Seq<KeyRange>, k: Seq<u8>)
    requires
        rs.len() == 1,
    ensures
        in_ranges(rs, k) <==> in_range(rs[0], k),
{
    if in_ranges(rs, k) {
        let i = choose|i: int| 0 <= i < rs.len() && in_range(#[trigger] rs[i], k);
        assert(i == 0);
    }
    if in_range(rs[0], k) {
        assert(0 <= 0 < rs.len() && in_range(rs[0], k));
    }
}

/// Membership in a two-range list is membership in either range.
proof fn lemma_in_ranges_pair(rs: Seq<KeyRange>, k: Seq<u8>)
    requires
        rs.len() == 2,
    ensures
        in_ranges(rs, k) <==> (in_range(rs[0], k) || in_range(rs[1], k)),
{
    if in_ranges(rs, k) {
        let i = choose|i: int| 0 <= i < rs.len() && in_range(#[trigger] rs[i], k);
        assert(i == 0 || i == 1);
    }
    if in_range(rs[0], k) {
        assert(0 <= 0 < rs.len() && in_range(rs[0], k));
    }
    if in_range(rs[1], k) {
        assert(0 <= 1 < rs.len() && in_range(rs[1], k));
    }
}

} // verus!
