//! The binary row codec.
//!
//! A row is a 32-bit surrogate id plus one optional binary datum per table
//! column, in table-column order. Its stored form is, bit-exactly: the id as
//! four little-endian bytes, the column count as eight little-endian bytes,
//! and for each column its byte length as eight little-endian bytes followed
//! by the payload — a length of zero standing for SQL NULL with no payload.
//! Because a zero length is the null marker, a non-null datum is never
//! empty; decoding rejects any buffer that is not exactly the stored form
//! of a row.

use vstd::prelude::*;

use crate::errors::DecodeError;
use crate::subspace::{spec_table_row_key, table_row_key};

verus! {

/// A decoded row: the surrogate id and one optional datum per column.
#[derive(Debug, PartialEq, Eq)]
pub struct Tuple {
    /// The 32-bit surrogate row id.
    pub id: u32,
    /// One encoded datum per table column, `None` for SQL NULL.
    pub datums: Vec<Option<Vec<u8>>>,
}

/// Four little-endian bytes of a 32-bit integer.
pub open spec fn le4(x: u32) -> Seq<u8> {
    seq![x as u8, (x >> 8) as u8, (x >> 16) as u8, (x >> 24) as u8]
}

/// Eight little-endian bytes of a 64-bit integer.
pub open spec fn le8(x: u64) -> Seq<u8> {
    seq![
        x as u8,
        (x >> 8) as u8,
        (x >> 16) as u8,
        (x >> 24) as u8,
        (x >> 32) as u8,
        (x >> 40) as u8,
        (x >> 48) as u8,
        (x >> 56) as u8,
    ]
}

/// The 32-bit value read from four little-endian bytes.
pub open spec fn le4_val(b0: u8, b1: u8, b2: u8, b3: u8) -> u32 {
    (b0 as u32) | ((b1 as u32) << 8) | ((b2 as u32) << 16) | ((b3 as u32) << 24)
}

/// The 64-bit value read from eight little-endian bytes.
pub open spec fn le8_val(
    b0: u8,
    b1: u8,
    b2: u8,
    b3: u8,
    b4: u8,
    b5: u8,
    b6: u8,
    b7: u8,
) -> u64 {
    (b0 as u64) | ((b1 as u64) << 8) | ((b2 as u64) << 16) | ((b3 as u64) << 24) | ((
    b4 as u64) << 32) | ((b5 as u64) << 40) | ((b6 as u64) << 48) | ((b7 as u64) << 56)
}

/// The stored form of one column datum: its length, then its payload; a
/// zero length stands for NULL.
pub open spec fn enc_datum(d: Option<Seq<u8>>) -> Seq<u8> {
    match d {
        Option::None => le8(0),
        Option::Some(p) => le8(p.len() as u64) + p,
    }
}

/// The stored form of a row's datums, in column order.
pub open spec fn enc_datums(ds: Seq<Option<Seq<u8>>>) -> Seq<u8>
    decreases ds.len(),
{
    if ds.len() == 0 {
        Seq::empty()
    } else {
        enc_datum(ds[0]) + enc_datums(ds.drop_first())
    }
}

/// The stored form of a whole row.
pub open spec fn spec_serialize(id: u32, ds: Seq<Option<Seq<u8>>>) -> Seq<u8> {
    le4(id) + le8(ds.len() as u64) + enc_datums(ds)
}

/// Well-formed datums: every non-null datum is nonempty — a zero length is
/// the null marker — and all counts fit the stored width.
pub open spec fn datums_wf(ds: Seq<Option<Seq<u8>>>) -> bool {
    &&& ds.len() < 0x1_0000_0000_0000_0000
    &&& forall|i: int|
        0 <= i < ds.len() ==> ((#[trigger] ds[i]) matches Option::Some(p) ==> 0 < p.len()
            < 0x1_0000_0000_0000_0000)
}

/// Datum encoding distributes over concatenation.
proof fn lemma_enc_datums_app(a: Seq<Option<Seq<u8>>>, b: Seq<Option<Seq<u8>>>)
    ensures
        enc_datums(a + b) == enc_datums(a) + enc_datums(b),
    decreases a.len(),
{
    if a.len() == 0 {
        assert(a + b =~= b);
        assert(enc_datums(a) + enc_datums(b) =~= enc_datums(b));
    } else {
        assert((a + b).drop_first() =~= a.drop_first() + b);
        lemma_enc_datums_app(a.drop_first(), b);
        assert((a + b)[0] == a[0]);
        assert(enc_datum(a[0]) + (enc_datums(a.drop_first()) + enc_datums(b)) =~= (enc_datum(a[0])
            + enc_datums(a.drop_first())) + enc_datums(b));
    }
}

/// Pushing one datum appends its stored form.
proof fn lemma_enc_datums_push(ds: Seq<Option<Seq<u8>>>, d: Option<Seq<u8>>)
    ensures
        enc_datums(ds.push(d)) == enc_datums(ds) + enc_datum(d),
{
    assert(ds.push(d) =~= ds + seq![d]);
    lemma_enc_datums_app(ds, seq![d]);
    assert(seq![d].drop_first() =~= Seq::<Option<Seq<u8>>>::empty());
    assert(enc_datums(seq![d].drop_first()) =~= Seq::<u8>::empty());
    assert(enc_datums(seq![d]) =~= enc_datum(d) + Seq::<u8>::empty());
    assert(enc_datum(d) + Seq::<u8>::empty() =~= enc_datum(d));
}

/// Appends the eight little-endian bytes of `x`.
fn push_le8(out: &mut Vec<u8>, x: u64)
    ensures
        final(out)@ == old(out)@ + le8(x),
{
    out.push(x as u8);
    out.push((x >> 8) as u8);
    out.push((x >> 16) as u8);
    out.push((x >> 24) as u8);
    out.push((x >> 32) as u8);
    out.push((x >> 40) as u8);
    out.push((x >> 48) as u8);
    out.push((x >> 56) as u8);
    assert(out@ =~= old(out)@ + le8(x));
}

impl Tuple {
    /// The row's datums as their mathematical form.
    pub open spec fn datums_view(&self) -> Seq<Option<Seq<u8>>> {
        self.datums.deep_view()
    }

    /// Encodes the row into its stored form.
    pub fn serialize(&self) -> (r: Vec<u8>)
        ensures
            r@ == spec_serialize(self.id, self.datums_view()),
    {
        let mut r: Vec<u8> = Vec::new();
        r.push(self.id as u8);
        r.push((self.id >> 8) as u8);
        r.push((self.id >> 16) as u8);
        r.push((self.id >> 24) as u8);
        assert(r@ =~= le4(self.id));
        push_le8(&mut r, self.datums.len() as u64);
        let ghost dv = self.datums.deep_view();
        assert(dv.len() == self.datums@.len());
        assert(r@ =~= le4(self.id) + le8(dv.len() as u64) + enc_datums(dv.take(0)));
        let mut i: usize = 0;
        while i < self.datums.len()
            invariant
                i <= self.datums@.len(),
                dv == self.datums.deep_view(),
                dv.len() == self.datums@.len(),
                r@ == le4(self.id) + le8(dv.len() as u64) + enc_datums(dv.take(i as int)),
            decreases self.datums@.len() - i,
        {
            match &self.datums[i] {
                Option::None => {
                    push_le8(&mut r, 0u64);
                    proof {
                        assert(dv[i as int] is None);
                    }
                },
                Option::Some(d) => {
                    push_le8(&mut r, d.len() as u64);
                    crate::element::push_bytes(&mut r, d);
                    proof {
                        assert(dv[i as int] matches Option::Some(p) && p == d@);
                        assert(le8(d@.len() as u64) + d@ =~= enc_datum(dv[i as int]));
                    }
                },
            }
            proof {
                assert(dv.take(i + 1) =~= dv.take(i as int).push(dv[i as int]));
                lemma_enc_datums_push(dv.take(i as int), dv[i as int]);
                assert(r@ =~= le4(self.id) + le8(dv.len() as u64) + enc_datums(dv.take(i + 1)));
            }
            i = i + 1;
        }
        proof {
            assert(dv.take(dv.len() as int) =~= dv);
        }
        r
    }
}

/// Reading back the little-endian bytes of a value gives the value.
proof fn lemma_le8_roundtrip(x: u64)
    ensures
        le8_val(
            x as u8,
            (x >> 8) as u8,
            (x >> 16) as u8,
            (x >> 24) as u8,
            (x >> 32) as u8,
            (x >> 40) as u8,
            (x >> 48) as u8,
            (x >> 56) as u8,
        ) == x,
{
    assert((x as u8 as u64) | (((x >> 8) as u8 as u64) << 8) | (((x >> 16) as u8 as u64) << 16) | ((
    (x >> 24) as u8 as u64) << 24) | (((x >> 32) as u8 as u64) << 32) | (((x
        >> 40) as u8 as u64) << 40) | (((x >> 48) as u8 as u64) << 48) | (((x
        >> 56) as u8 as u64) << 56) == x) by (bit_vector);
}

/// Writing back the value read from eight bytes gives the bytes.
proof fn lemma_le8_bytes(b0: u8, b1: u8, b2: u8, b3: u8, b4: u8, b5: u8, b6: u8, b7: u8)
    ensures
        le8(le8_val(b0, b1, b2, b3, b4, b5, b6, b7)) == seq![b0, b1, b2, b3, b4, b5, b6, b7],
{
    let v = le8_val(b0, b1, b2, b3, b4, b5, b6, b7);
    assert({
        let w = (b0 as u64) | ((b1 as u64) << 8) | ((b2 as u64) << 16) | ((b3 as u64) << 24) | ((
        b4 as u64) << 32) | ((b5 as u64) << 40) | ((b6 as u64) << 48) | ((b7 as u64) << 56);
        &&& w as u8 == b0
        &&& (w >> 8) as u8 == b1
        &&& (w >> 16) as u8 == b2
        &&& (w >> 24) as u8 == b3
        &&& (w >> 32) as u8 == b4
        &&& (w >> 40) as u8 == b5
        &&& (w >> 48) as u8 == b6
        &&& (w >> 56) as u8 == b7
    }) by (bit_vector);
    assert(le8(v) =~= seq![b0, b1, b2, b3, b4, b5, b6, b7]);
}

/// Reading back the little-endian bytes of a 32-bit value gives the value.
proof fn lemma_le4_roundtrip(x: u32)
    ensures
        le4_val(x as u8, (x >> 8) as u8, (x >> 16) as u8, (x >> 24) as u8) == x,
{
    assert((x as u8 as u32) | (((x >> 8) as u8 as u32) << 8) | (((x >> 16) as u8 as u32) << 16) | ((
    (x >> 24) as u8 as u32) << 24) == x) by (bit_vector);
}

/// Writing back the value read from four bytes gives the bytes.
proof fn lemma_le4_bytes(b0: u8, b1: u8, b2: u8, b3: u8)
    ensures
        le4(le4_val(b0, b1, b2, b3)) == seq![b0, b1, b2, b3],
{
    let v = le4_val(b0, b1, b2, b3);
    assert({
        let w = (b0 as u32) | ((b1 as u32) << 8) | ((b2 as u32) << 16) | ((b3 as u32) << 24);
        &&& w as u8 == b0
        &&& (w >> 8) as u8 == b1
        &&& (w >> 16) as u8 == b2
        &&& (w >> 24) as u8 == b3
    }) by (bit_vector);
    assert(le4(v) =~= seq![b0, b1, b2, b3]);
}

/// The length value opening a buffer's first datum.
spec fn head_len(b: Seq<u8>) -> u64
    recommends
        b.len() >= 8,
{
    le8_val(b[0], b[1], b[2], b[3], b[4], b[5], b[6], b[7])
}

/// Decodes `n` datums from a buffer, accepting exactly the stored form and
/// nothing after it.
spec fn spec_decode_datums(b: Seq<u8>, n: nat) -> Option<Seq<Option<Seq<u8>>>>
    decreases n,
{
    if n == 0 {
        if b.len() == 0 {
            Option::Some(Seq::empty())
        } else {
            Option::None
        }
    } else if b.len() < 8 {
        Option::None
    } else {
        let l = head_len(b);
        if l == 0 {
            match spec_decode_datums(b.skip(8), (n - 1) as nat) {
                Option::None => Option::None,
                Option::Some(rest) => Option::Some(seq![Option::None].add(rest)),
            }
        } else if b.len() < 8 + l {
            Option::None
        } else {
            match spec_decode_datums(b.skip(8 + l as int), (n - 1) as nat) {
                Option::None => Option::None,
                Option::Some(rest) => Option::Some(
                    seq![Option::Some(b.subrange(8, 8 + l as int))].add(rest),
                ),
            }
        }
    }
}

/// Decodes a whole buffer into a row, accepting exactly stored row forms.
spec fn spec_decode(b: Seq<u8>) -> Option<(u32, Seq<Option<Seq<u8>>>)> {
    if b.len() < 12 {
        Option::None
    } else {
        let id = le4_val(b[0], b[1], b[2], b[3]);
        let n = le8_val(b[4], b[5], b[6], b[7], b[8], b[9], b[10], b[11]);
        match spec_decode_datums(b.skip(12), n as nat) {
            Option::None => Option::None,
            Option::Some(ds) => Option::Some((id, ds)),
        }
    }
}

/// Decoding inverts encoding: the stored form of well-formed datums decodes
/// back to exactly those datums.
#[verifier::rlimit(60)]
proof fn lemma_decode_datums_of_enc(ds: Seq<Option<Seq<u8>>>)
    requires
        datums_wf(ds),
    ensures
        spec_decode_datums(enc_datums(ds), ds.len()) == Option::Some(ds),
    decreases ds.len(),
{
    let b = enc_datums(ds);
    if ds.len() == 0 {
        assert(b.len() == 0);
        assert(spec_decode_datums(b, 0) == Option::Some(Seq::<Option<Seq<u8>>>::empty()));
        assert(Seq::<Option<Seq<u8>>>::empty() =~= ds);
    } else {
        let rest = ds.drop_first();
        assert(datums_wf(rest)) by {
            assert(forall|j: int| 0 <= j < rest.len() ==> rest[j] == ds[j + 1]);
        }
        lemma_decode_datums_of_enc(rest);
        match ds[0] {
            Option::None => {
                assert(b =~= le8(0) + enc_datums(rest));
                assert(b.len() >= 8);
                assert(b[0] == 0 && b[1] == 0 && b[2] == 0 && b[3] == 0 && b[4] == 0 && b[5] == 0
                    && b[6] == 0 && b[7] == 0) by {
                    assert(forall|j: int| 0 <= j < 8 ==> b[j] == le8(0)[j]);
                    assert((0u64 >> 8) == 0u64 && (0u64 >> 16) == 0u64 && (0u64 >> 24) == 0u64 && (
                    0u64 >> 32) == 0u64 && (0u64 >> 40) == 0u64 && (0u64 >> 48) == 0u64 && (0u64
                        >> 56) == 0u64) by (bit_vector);
                }
                assert(head_len(b) == 0) by {
                    lemma_le8_roundtrip(0);
                }
                assert(b.skip(8) =~= enc_datums(rest));
                assert(seq![Option::None].add(rest) =~= ds);
            },
            Option::Some(p) => {
                let lv = p.len() as u64;
                assert(0 < lv) by {
                    assert(0 < p.len() < 0x1_0000_0000_0000_0000);
                }
                assert(b =~= le8(lv) + (p + enc_datums(rest)));
                assert(b.len() >= 8);
                assert(head_len(b) == lv) by {
                    assert(forall|j: int| 0 <= j < 8 ==> b[j] == le8(lv)[j]);
                    lemma_le8_roundtrip(lv);
                }
                assert(b.len() >= 8 + lv);
                assert(b.subrange(8, 8 + lv as int) =~= p);
                assert(b.skip(8 + lv as int) =~= enc_datums(rest));
                assert(seq![Option::Some(b.subrange(8, 8 + lv as int))].add(rest) =~= ds);
            },
        }
    }
}

/// Decoding is sound: whatever decodes is the stored form of what it
/// decodes to, and that is well-formed.
#[verifier::rlimit(60)]
proof fn lemma_decode_datums_sound(b: Seq<u8>, n: nat)
    ensures
        match spec_decode_datums(b, n) {
            Option::Some(ds) => enc_datums(ds) == b && ds.len() == n && (forall|i: int|
                0 <= i < ds.len() ==> ((#[trigger] ds[i]) matches Option::Some(p) ==> 0 < p.len()
                    < 0x1_0000_0000_0000_0000)),
            Option::None => true,
        },
    decreases n,
{
    if spec_decode_datums(b, n) is Some {
        let ds = spec_decode_datums(b, n)->Some_0;
        if n == 0 {
            assert(b.len() == 0);
            assert(enc_datums(ds) =~= b);
        } else {
            let l = head_len(b);
            if l == 0 {
                let rest = spec_decode_datums(b.skip(8), (n - 1) as nat)->Some_0;
                lemma_decode_datums_sound(b.skip(8), (n - 1) as nat);
                assert(ds == seq![Option::<Seq<u8>>::None].add(rest));
                assert(ds[0] is None);
                assert(ds.drop_first() =~= rest);
                assert(le8(0) =~= seq![b[0], b[1], b[2], b[3], b[4], b[5], b[6], b[7]]) by {
                    lemma_le8_bytes(b[0], b[1], b[2], b[3], b[4], b[5], b[6], b[7]);
                }
                assert(enc_datums(ds) =~= le8(0) + enc_datums(rest));
                assert(enc_datums(ds) =~= b) by {
                    assert(b =~= seq![b[0], b[1], b[2], b[3], b[4], b[5], b[6], b[7]] + b.skip(8));
                }
            } else {
                let p = b.subrange(8, 8 + l as int);
                let rest = spec_decode_datums(b.skip(8 + l as int), (n - 1) as nat)->Some_0;
                lemma_decode_datums_sound(b.skip(8 + l as int), (n - 1) as nat);
                assert(ds == seq![Option::Some(p)].add(rest));
                assert(ds[0] == Option::Some(p));
                assert(ds.drop_first() =~= rest);
                assert(le8(l) =~= seq![b[0], b[1], b[2], b[3], b[4], b[5], b[6], b[7]]) by {
                    lemma_le8_bytes(b[0], b[1], b[2], b[3], b[4], b[5], b[6], b[7]);
                }
                assert(p.len() as u64 == l);
                assert(enc_datum(ds[0]) =~= le8(l) + p);
                assert(enc_datums(ds) =~= (le8(l) + p) + enc_datums(rest));
                assert(enc_datums(ds) =~= b) by {
                    assert(b =~= (seq![b[0], b[1], b[2], b[3], b[4], b[5], b[6], b[7]] + p)
                        + b.skip(8 + l as int));
                }
                assert forall|i: int|
                    0 <= i < ds.len() implies ((#[trigger] ds[i]) matches Option::Some(q) ==> 0
                    < q.len() < 0x1_0000_0000_0000_0000) by {
                    if i > 0 {
                        assert(ds[i] == rest[i - 1]);
                    }
                }
            }
        }
    }
}

/// A stored row decodes back to exactly that row.
proof fn lemma_decode_of_serialize(id: u32, ds: Seq<Option<Seq<u8>>>)
    requires
        datums_wf(ds),
    ensures
        spec_decode(spec_serialize(id, ds)) == Option::Some((id, ds)),
{
    let b = spec_serialize(id, ds);
    let n = ds.len() as u64;
    assert(b =~= (le4(id) + le8(n)) + enc_datums(ds));
    assert(b.len() >= 12);
    assert(b[0] == id as u8 && b[1] == (id >> 8) as u8 && b[2] == (id >> 16) as u8 && b[3] == (id
        >> 24) as u8) by {
        assert(forall|j: int| 0 <= j < 4 ==> b[j] == le4(id)[j]);
    }
    assert(b[4] == n as u8 && b[5] == (n >> 8) as u8 && b[6] == (n >> 16) as u8 && b[7] == (n
        >> 24) as u8 && b[8] == (n >> 32) as u8 && b[9] == (n >> 40) as u8 && b[10] == (n
        >> 48) as u8 && b[11] == (n >> 56) as u8) by {
        assert(forall|j: int| 0 <= j < 8 ==> b[4 + j] == le8(n)[j]);
    }
    lemma_le4_roundtrip(id);
    lemma_le8_roundtrip(n);
    assert(le4_val(b[0], b[1], b[2], b[3]) == id);
    assert(le8_val(b[4], b[5], b[6], b[7], b[8], b[9], b[10], b[11]) == n);
    assert(b.skip(12) =~= enc_datums(ds));
    lemma_decode_datums_of_enc(ds);
}

/// The stored form determines the row: two well-formed rows with one stored
/// form are the same row. Together with the codec contracts this is the
/// round-trip law: decoding the stored form of any well-formed row yields
/// exactly that row, its id, its nulls and its payloads unchanged.
pub proof fn lemma_serialize_injective(
    id1: u32,
    ds1: Seq<Option<Seq<u8>>>,
    id2: u32,
    ds2: Seq<Option<Seq<u8>>>,
)
    requires
        datums_wf(ds1),
        datums_wf(ds2),
        spec_serialize(id1, ds1) == spec_serialize(id2, ds2),
    ensures
        id1 == id2,
        ds1 == ds2,
{
    lemma_decode_of_serialize(id1, ds1);
    lemma_decode_of_serialize(id2, ds2);
}

/// Reads eight little-endian bytes at `pos`.
fn read_le8(s: &[u8], pos: usize) -> (r: u64)
    requires
        pos + 8 <= s@.len(),
    ensures
        r == le8_val(
            s@[pos as int],
            s@[pos as int + 1],
            s@[pos as int + 2],
            s@[pos as int + 3],
            s@[pos as int + 4],
            s@[pos as int + 5],
            s@[pos as int + 6],
            s@[pos as int + 7],
        ),
{
    (s[pos] as u64) | ((s[pos + 1] as u64) << 8) | ((s[pos + 2] as u64) << 16) | ((s[pos
        + 3] as u64) << 24) | ((s[pos + 4] as u64) << 32) | ((s[pos + 5] as u64) << 40) | ((s[pos
        + 6] as u64) << 48) | ((s[pos + 7] as u64) << 56)
}

/// Copies `n` bytes starting at `start`.
fn copy_range(src: &[u8], start: usize, n: usize) -> (r: Vec<u8>)
    requires
        start + n <= src@.len(),
    ensures
        r@ == src@.subrange(start as int, start as int + n as int),
{
    let total = src.len();
    let mut r: Vec<u8> = Vec::new();
    let mut j: usize = 0;
    while j < n
        invariant
            j <= n,
            total == src@.len(),
            start + n <= total,
            r@ == src@.subrange(start as int, start as int + j as int),
        decreases n - j,
    {
        r.push(src[start + j]);
        proof {
            assert(src@.subrange(start as int, start as int + j + 1) =~= src@.subrange(
                start as int,
                start as int + j as int,
            ).push(src@[start as int + j]));
        }
        j = j + 1;
    }
    r
}

/// Parses `count` datums from byte 12 onward, exactly to the buffer's end.
#[verifier::rlimit(100)]
#[verifier::loop_isolation(false)]
fn decode_datums_from(b: &[u8], count: u64) -> (r: Result<Vec<Option<Vec<u8>>>, DecodeError>)
    requires
        b@.len() >= 12,
    ensures
        match r {
            Result::Ok(ds) => spec_decode_datums(b@.skip(12), count as nat) == Option::Some(
                ds.deep_view(),
            ) && datums_wf(ds.deep_view()),
            Result::Err(_) => spec_decode_datums(b@.skip(12), count as nat) is None,
        },
{
    let ghost bs = b@;
    let mut pos: usize = 12;
    let mut datums: Vec<Option<Vec<u8>>> = Vec::new();
    let mut i: u64 = 0;
    while i < count
        invariant
            12 <= pos <= bs.len(),
            datums@.len() == i,
            i <= count,
            datums_wf(datums.deep_view()),
            spec_decode_datums(bs.skip(12), count as nat) == (match spec_decode_datums(
                bs.skip(pos as int),
                (count - i) as nat,
            ) {
                Option::None => Option::<Seq<Option<Seq<u8>>>>::None,
                Option::Some(rest) => Option::Some(datums.deep_view() + rest),
            }),
        decreases count - i,
    {
        let ghost cur = bs.skip(pos as int);
        let ghost remaining = (count - i) as nat;
        if b.len() - pos < 8 {
            proof {
                assert(cur.len() < 8);
                assert(spec_decode_datums(cur, remaining) is None);
            }
            return Result::Err(DecodeError::Truncated);
        }
        let l: u64 = read_le8(b, pos);
        proof {
            assert(forall|j: int| 0 <= j < 8 ==> cur[j] == bs[pos + j]);
            assert(head_len(cur) == l);
        }
        if l == 0 {
            let ghost prev = datums.deep_view();
            datums.push(Option::None);
            pos = pos + 8;
            proof {
                assert(datums.deep_view() =~= prev.push(Option::None)) by {
                    assert forall|j: int|
                        0 <= j < datums@.len() implies #[trigger] datums.deep_view()[j]
                        == prev.push(Option::None)[j] by {
                        assert(datums.deep_view()[j] == datums@[j].deep_view());
                        if j < prev.len() {
                            assert(prev[j] == datums@[j].deep_view());
                        }
                    }
                }
                assert(bs.skip(pos as int) =~= cur.skip(8));
                lemma_prepend_shift(prev, Option::None, cur, remaining);
            }
        } else {
            let rem = b.len() - pos - 8;
            if l > rem as u64 {
                proof {
                    assert(cur.len() < 8 + l);
                    assert(spec_decode_datums(cur, remaining) is None);
                }
                return Result::Err(DecodeError::Truncated);
            }
            let lu = l as usize;
            let ghost pos0 = pos as int;
            proof {
                assert(lu as u64 == l);
            }
            let payload = copy_range(b, pos + 8, lu);
            proof {
                assert(payload@ =~= cur.subrange(8, 8 + l as int)) by {
                    assert(payload@ == bs.subrange(pos0 + 8, pos0 + 8 + lu as int));
                    assert forall|t: int|
                        0 <= t < l as int implies #[trigger] cur.subrange(8, 8 + l as int)[t]
                        == bs[pos0 + 8 + t] by {
                        assert(cur.subrange(8, 8 + l as int)[t] == cur[8 + t]);
                        assert(cur[8 + t] == bs[pos0 + 8 + t]);
                    }
                }
            }
            let ghost prev = datums.deep_view();
            datums.push(Option::Some(payload));
            pos = pos + 8 + lu;
            proof {
                assert(datums.deep_view() =~= prev.push(Option::Some(payload@))) by {
                    assert forall|j: int|
                        0 <= j < datums@.len() implies #[trigger] datums.deep_view()[j]
                        == prev.push(Option::Some(payload@))[j] by {
                        assert(datums.deep_view()[j] == datums@[j].deep_view());
                        if j < prev.len() {
                            assert(prev[j] == datums@[j].deep_view());
                        }
                    }
                }
                assert(bs.skip(pos as int) =~= cur.skip(8 + l as int));
                lemma_prepend_shift(prev, Option::Some(payload@), cur, remaining);
                assert(datums_wf(datums.deep_view())) by {
                    assert(forall|j: int| 0 <= j < prev.len() ==> datums.deep_view()[j] == prev[j]);
                }
            }
        }
        i = i + 1;
    }
    if pos != b.len() {
        proof {
            assert(bs.skip(pos as int).len() > 0);
            assert(spec_decode_datums(bs.skip(pos as int), 0) is None);
        }
        return Result::Err(DecodeError::TrailingBytes);
    }
    proof {
        assert(bs.skip(pos as int).len() == 0);
        assert(spec_decode_datums(bs.skip(pos as int), 0) == Option::Some(
            Seq::<Option<Seq<u8>>>::empty(),
        ));
        assert(datums.deep_view() + Seq::<Option<Seq<u8>>>::empty() =~= datums.deep_view());
    }
    Result::Ok(datums)
}

impl Tuple {
    /// Decodes a stored row. Exactly the stored forms of well-formed rows
    /// are accepted: any truncated, overrunning, miscounted or trailing
    /// buffer is rejected with a [`DecodeError`].
    pub fn deserialize(encoded: &[u8]) -> (r: Result<Tuple, DecodeError>)
        ensures
            match r {
                Result::Ok(t) => encoded@ == spec_serialize(t.id, t.datums_view()) && datums_wf(
                    t.datums_view(),
                ),
                Result::Err(_) => forall|id: u32, ds: Seq<Option<Seq<u8>>>|
                    datums_wf(ds) ==> encoded@ != spec_serialize(id, ds),
            },
    {
        let b = encoded;
        let ghost bs = encoded@;
        if b.len() < 12 {
            proof {
                lemma_no_decode_no_row(bs);
            }
            return Result::Err(DecodeError::Truncated);
        }
        let id: u32 = (b[0] as u32) | ((b[1] as u32) << 8) | ((b[2] as u32) << 16) | ((
        b[3] as u32) << 24);
        let count: u64 = read_le8(b, 4);
        proof {
            assert(le4_val(bs[0], bs[1], bs[2], bs[3]) == id);
            assert(le8_val(bs[4], bs[5], bs[6], bs[7], bs[8], bs[9], bs[10], bs[11]) == count);
        }
        match decode_datums_from(b, count) {
            Result::Err(e) => {
                proof {
                    assert(spec_decode(bs) is None);
                    lemma_no_decode_no_row(bs);
                }
                Result::Err(e)
            },
            Result::Ok(datums) => {
                proof {
                    assert(spec_decode(bs) == Option::Some((id, datums.deep_view())));
                    lemma_decode_datums_sound(bs.skip(12), count as nat);
                    assert(bs =~= (le4(id) + le8(count)) + bs.skip(12)) by {
                        lemma_le4_bytes(bs[0], bs[1], bs[2], bs[3]);
                        lemma_le8_bytes(bs[4], bs[5], bs[6], bs[7], bs[8], bs[9], bs[10], bs[11]);
                    }
                }
                Result::Ok(Tuple { id, datums })
            },
        }
    }
}

/// When the whole-buffer decode fails, the buffer is the stored form of no
/// well-formed row.
proof fn lemma_no_decode_no_row(b: Seq<u8>)
    requires
        spec_decode(b) is None,
    ensures
        forall|id: u32, ds: Seq<Option<Seq<u8>>>| datums_wf(ds) ==> b != spec_serialize(id, ds),
{
    assert forall|id: u32, ds: Seq<Option<Seq<u8>>>| datums_wf(ds) implies b != spec_serialize(
        id,
        ds,
    ) by {
        if b == spec_serialize(id, ds) {
            lemma_decode_of_serialize(id, ds);
        }
    }
}

/// Consuming one datum shifts the decode by that datum.
proof fn lemma_prepend_shift(
    prev: Seq<Option<Seq<u8>>>,
    d: Option<Seq<u8>>,
    cur: Seq<u8>,
    remaining: nat,
)
    requires
        remaining > 0,
        cur.len() >= 8,
        match d {
            Option::None => head_len(cur) == 0,
            Option::Some(p) => head_len(cur) != 0 && cur.len() >= 8 + head_len(cur) && p
                == cur.subrange(8, 8 + head_len(cur) as int),
        },
    ensures
        (match spec_decode_datums(cur, remaining) {
            Option::None => Option::<Seq<Option<Seq<u8>>>>::None,
            Option::Some(rest) => Option::Some(prev + rest),
        }) == (match spec_decode_datums(
            (if d is None {
                cur.skip(8)
            } else {
                cur.skip(8 + head_len(cur) as int)
            }),
            (remaining - 1) as nat,
        ) {
            Option::None => Option::<Seq<Option<Seq<u8>>>>::None,
            Option::Some(rest) => Option::Some(prev.push(d) + rest),
        }),
{
    let l = head_len(cur);
    match d {
        Option::None => {
            match spec_decode_datums(cur.skip(8), (remaining - 1) as nat) {
                Option::None => {},
                Option::Some(rest) => {
                    assert(prev + (seq![Option::<Seq<u8>>::None].add(rest)) =~= prev.push(
                        Option::None,
                    ) + rest);
                },
            }
        },
        Option::Some(p) => {
            match spec_decode_datums(cur.skip(8 + l as int), (remaining - 1) as nat) {
                Option::None => {},
                Option::Some(rest) => {
                    assert(prev + (seq![Option::Some(cur.subrange(8, 8 + l as int))].add(rest))
                        =~= prev.push(d) + rest);
                },
            }
        },
    }
}

/// The write command for storing a row under its table: the row's storage
/// key and its encoded form, as insert and update hand them to the store.
pub fn row_write(table_id: u32, tuple: &Tuple) -> (kv: (Vec<u8>, Vec<u8>))
    ensures
        kv.0@ == spec_table_row_key(table_id, tuple.id),
        kv.1@ == spec_serialize(tuple.id, tuple.datums_view()),
{
    let key = table_row_key(table_id, tuple.id);
    let value = tuple.serialize();
    (key, value)
}

} // verus!
