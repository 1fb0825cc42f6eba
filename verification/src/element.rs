//! Order-preserving encoding of typed scalar values.
//!
//! A tuple element is one typed scalar: a signed 64-bit integer (narrower
//! integer columns are sign-extended into it), a double given by its IEEE-754
//! bit pattern, a UTF-8 text value given by its bytes, a boolean, a 128-bit
//! UUID, or the distinguished nil marker standing for SQL NULL.
//!
//! Every element is encoded as a type tag byte followed by a payload, so that
//! comparing two encodings byte-lexicographically agrees with the logical
//! order [`elem_lt`] on the values: nil sorts before every non-null value,
//! integers are offset so that the sign flips into the top bit, doubles are
//! bit-flipped by sign, text is escape-delimited (a zero byte becomes
//! `00 FF`, and an unescaped zero byte terminates the value) so that a text
//! encoding never runs past its value inside a composite key.

use vstd::prelude::*;

use crate::order::lex_lt;

verus! {

/// A typed scalar value carried through keys, as an executable value.
#[derive(Debug, PartialEq, Eq)]
pub enum Element {
    /// The distinguished marker for SQL NULL; sorts before everything.
    Nil,
    /// A signed integer, the common form of every integer column width.
    Int(i64),
    /// A double, held as its IEEE-754 bit pattern.
    Double(u64),
    /// A UTF-8 text value, held as its bytes.
    Text(Vec<u8>),
    /// A boolean.
    Bool(bool),
    /// A 128-bit UUID, held big-endian in one integer.
    Uuid(u128),
}

/// The mathematical form of an [`Element`].
pub enum ElementV {
    Nil,
    Int(i64),
    Double(u64),
    Text(Seq<u8>),
    Bool(bool),
    Uuid(u128),
}

impl View for Element {
    type V = ElementV;

    open spec fn view(&self) -> ElementV {
        match self {
            Element::Nil => ElementV::Nil,
            Element::Int(x) => ElementV::Int(*x),
            Element::Double(b) => ElementV::Double(*b),
            Element::Text(t) => ElementV::Text(t@),
            Element::Bool(b) => ElementV::Bool(*b),
            Element::Uuid(u) => ElementV::Uuid(*u),
        }
    }
}

impl DeepView for Element {
    type V = ElementV;

    open spec fn deep_view(&self) -> ElementV {
        self.view()
    }
}

/// The type tag that opens an element's encoding.
pub open spec fn elem_tag(e: ElementV) -> u8 {
    match e {
        ElementV::Nil => 0,
        ElementV::Int(_) => 1,
        ElementV::Double(_) => 2,
        ElementV::Text(_) => 3,
        ElementV::Bool(_) => 4,
        ElementV::Uuid(_) => 5,
    }
}

/// The integer payload: the two's-complement bits with the sign bit flipped,
/// so that unsigned order on the result is signed order on the value.
pub open spec fn int_key(x: i64) -> u64 {
    (x as u64) ^ 0x8000_0000_0000_0000
}

/// The double payload: a negative pattern (sign bit set) has all bits
/// inverted, a non-negative one has the sign bit set, so that unsigned order
/// on the result is the IEEE-754 total order on the patterns.
pub open spec fn double_key(b: u64) -> u64 {
    if b >= 0x8000_0000_0000_0000 {
        !b
    } else {
        b ^ 0x8000_0000_0000_0000
    }
}

/// Eight big-endian bytes of a 64-bit integer.
pub open spec fn be8(x: u64) -> Seq<u8> {
    seq![
        (x >> 56) as u8,
        (x >> 48) as u8,
        (x >> 40) as u8,
        (x >> 32) as u8,
        (x >> 24) as u8,
        (x >> 16) as u8,
        (x >> 8) as u8,
        x as u8,
    ]
}

/// Sixteen big-endian bytes of a 128-bit integer.
pub open spec fn be16(x: u128) -> Seq<u8> {
    be8((x >> 64) as u64) + be8(x as u64)
}

/// The escaped form of one text byte.
pub open spec fn esc_byte(b: u8) -> Seq<u8> {
    if b == 0 {
        seq![0u8, 0xFFu8]
    } else {
        seq![b]
    }
}

/// The escaped form of a text value, without the terminator.
pub open spec fn escape(s: Seq<u8>) -> Seq<u8>
    decreases s.len(),
{
    if s.len() == 0 {
        Seq::empty()
    } else {
        esc_byte(s[0]) + escape(s.drop_first())
    }
}

/// The order-preserving encoding of one element.
pub open spec fn elem_enc(e: ElementV) -> Seq<u8> {
    match e {
        ElementV::Nil => seq![0u8],
        ElementV::Int(x) => seq![1u8] + be8(int_key(x)),
        ElementV::Double(b) => seq![2u8] + be8(double_key(b)),
        ElementV::Text(s) => seq![3u8] + escape(s) + seq![0u8],
        ElementV::Bool(b) => (if b {
            seq![4u8, 1u8]
        } else {
            seq![4u8, 0u8]
        }),
        ElementV::Uuid(u) => seq![5u8] + be16(u),
    }
}

/// The concatenated encoding of a sequence of elements.
pub open spec fn enc_seq(vs: Seq<ElementV>) -> Seq<u8>
    decreases vs.len(),
{
    if vs.len() == 0 {
        Seq::empty()
    } else {
        elem_enc(vs[0]) + enc_seq(vs.drop_first())
    }
}

/// The logical order on elements: by type tag first, then within one type by
/// the value's own order. Nil has the least tag, so it sorts before every
/// non-null value of any type.
pub open spec fn elem_lt(a: ElementV, b: ElementV) -> bool {
    if elem_tag(a) != elem_tag(b) {
        elem_tag(a) < elem_tag(b)
    } else {
        match (a, b) {
            (ElementV::Int(x), ElementV::Int(y)) => x < y,
            (ElementV::Double(x), ElementV::Double(y)) => double_key(x) < double_key(y),
            (ElementV::Text(s), ElementV::Text(t)) => lex_lt(s, t),
            (ElementV::Bool(x), ElementV::Bool(y)) => !x && y,
            (ElementV::Uuid(x), ElementV::Uuid(y)) => x < y,
            _ => false,
        }
    }
}

/// The reflexive closure of [`elem_lt`].
pub open spec fn elem_le(a: ElementV, b: ElementV) -> bool {
    a == b || elem_lt(a, b)
}

/// Escaping a single byte is escaping that byte.
proof fn lemma_escape_one(b: u8)
    ensures
        escape(seq![b]) == esc_byte(b),
{
    let s = seq![b];
    assert(s.len() == 1);
    assert(s[0] == b);
    assert(s.drop_first() =~= Seq::<u8>::empty());
    assert(escape(s.drop_first()) =~= Seq::<u8>::empty());
    assert(escape(s) == esc_byte(s[0]) + escape(s.drop_first()));
    assert(esc_byte(b) + Seq::<u8>::empty() =~= esc_byte(b));
}

/// Escaping distributes over concatenation.
pub proof fn lemma_escape_app(a: Seq<u8>, b: Seq<u8>)
    ensures
        escape(a + b) == escape(a) + escape(b),
    decreases a.len(),
{
    if a.len() == 0 {
        assert(a + b =~= b);
        assert(escape(a) + escape(b) =~= escape(b));
    } else {
        assert((a + b).drop_first() =~= a.drop_first() + b);
        lemma_escape_app(a.drop_first(), b);
        assert((a + b)[0] == a[0]);
        assert(esc_byte(a[0]) + (escape(a.drop_first()) + escape(b)) =~= (esc_byte(a[0])
            + escape(a.drop_first())) + escape(b));
    }
}

/// Element sequence encoding distributes over concatenation.
pub proof fn lemma_enc_seq_app(a: Seq<ElementV>, b: Seq<ElementV>)
    ensures
        enc_seq(a + b) == enc_seq(a) + enc_seq(b),
    decreases a.len(),
{
    if a.len() == 0 {
        assert(a + b =~= b);
        assert(enc_seq(a) + enc_seq(b) =~= enc_seq(b));
    } else {
        assert((a + b).drop_first() =~= a.drop_first() + b);
        lemma_enc_seq_app(a.drop_first(), b);
        assert((a + b)[0] == a[0]);
        assert(elem_enc(a[0]) + (enc_seq(a.drop_first()) + enc_seq(b)) =~= (elem_enc(a[0])
            + enc_seq(a.drop_first())) + enc_seq(b));
    }
}

/// The encoding of a one-element sequence is that element's encoding.
pub proof fn lemma_enc_seq_singleton(e: ElementV)
    ensures
        enc_seq(seq![e]) == elem_enc(e),
{
    let s = seq![e];
    assert(s.drop_first() =~= Seq::<ElementV>::empty());
    assert(enc_seq(s.drop_first()) =~= Seq::<u8>::empty());
    assert(enc_seq(s) == elem_enc(s[0]) + enc_seq(s.drop_first()));
    assert(elem_enc(e) + Seq::<u8>::empty() =~= elem_enc(e));
}

/// Pushing one element appends its encoding.
pub proof fn lemma_enc_seq_push(vs: Seq<ElementV>, e: ElementV)
    ensures
        enc_seq(vs.push(e)) == enc_seq(vs) + elem_enc(e),
{
    assert(vs.push(e) =~= vs + seq![e]);
    lemma_enc_seq_app(vs, seq![e]);
    lemma_enc_seq_singleton(e);
}

/// The order-preservation law: the byte-lexicographic order of two encoded
/// elements is exactly the logical order of the values, so in particular,
/// for two values of one type, `a < b` holds exactly when `encode(a)` comes
/// before `encode(b)` byte for byte.
pub proof fn lemma_encode_order_preserving(a: ElementV, b: ElementV)
    ensures
        lex_lt(elem_enc(a), elem_enc(b)) <==> elem_lt(a, b),
{
    crate::order::lemma_append_zero(elem_enc(a), elem_enc(b));
    lemma_elem_rel(a, b, seq![0u8], seq![0u8]);
    lemma_elem_trichotomy(a, b);
    if a == b {
        crate::order::lemma_lex_trichotomy(seq![0u8], seq![0u8]);
    }
}

/// Every element encoding is nonempty, opens with the element's type tag,
/// and no tag exceeds 5.
pub proof fn lemma_elem_enc_shape(e: ElementV)
    ensures
        elem_enc(e).len() >= 1,
        elem_enc(e)[0] == elem_tag(e),
        elem_tag(e) <= 5,
{
}

/// A nonempty element sequence encoding is nonempty and opens with the first
/// element's tag.
pub proof fn lemma_enc_seq_shape(vs: Seq<ElementV>)
    requires
        vs.len() > 0,
    ensures
        enc_seq(vs).len() >= 1,
        enc_seq(vs)[0] == elem_tag(vs[0]),
        enc_seq(vs)[0] <= 5,
{
    lemma_elem_enc_shape(vs[0]);
    assert(enc_seq(vs)[0] == elem_enc(vs[0])[0]);
}

/// Comparing a nonempty sequence against a single byte looks only at the
/// first byte.
pub proof fn lemma_single_byte_bound(c: Seq<u8>, b: u8)
    requires
        c.len() > 0,
    ensures
        lex_lt(c, seq![b]) <==> c[0] < b,
{
    if c[0] == b {
        assert(c.drop_first().len() == c.len() - 1);
        assert(!lex_lt(c.drop_first(), seq![b].drop_first()));
    }
}

/// Big-endian bytes are injective.
proof fn lemma_be8_eq(p: u64, q: u64)
    ensures
        (be8(p) == be8(q)) <==> p == q,
{
    if be8(p) == be8(q) {
        assert(be8(p)[0] == be8(q)[0]);
        assert(be8(p)[1] == be8(q)[1]);
        assert(be8(p)[2] == be8(q)[2]);
        assert(be8(p)[3] == be8(q)[3]);
        assert(be8(p)[4] == be8(q)[4]);
        assert(be8(p)[5] == be8(q)[5]);
        assert(be8(p)[6] == be8(q)[6]);
        assert(be8(p)[7] == be8(q)[7]);
        assert(p == q) by (bit_vector)
            requires
                (p >> 56) as u8 == (q >> 56) as u8,
                (p >> 48) as u8 == (q >> 48) as u8,
                (p >> 40) as u8 == (q >> 40) as u8,
                (p >> 32) as u8 == (q >> 32) as u8,
                (p >> 24) as u8 == (q >> 24) as u8,
                (p >> 16) as u8 == (q >> 16) as u8,
                (p >> 8) as u8 == (q >> 8) as u8,
                p as u8 == q as u8,
        ;
    }
}

/// Big-endian bytes compare as the integers do.
proof fn lemma_be8_lt(p: u64, q: u64)
    ensures
        lex_lt(be8(p), be8(q)) <==> p < q,
{
    lemma_be8_eq(p, q);
    if p == q {
        crate::order::lemma_lex_trichotomy(be8(p), be8(q));
    } else {
        let s = be8(p);
        let t = be8(q);
        let i = crate::order::first_difference(s, t);
        crate::order::lemma_lex_at(s, t, i);
        if i == 0 {
            assert(s[0] == (p >> 56) as u8 && t[0] == (q >> 56) as u8);
            assert((((p >> 56) as u8) < ((q >> 56) as u8)) <==> p < q) by (bit_vector)
                requires
                    (p >> 56) as u8 != (q >> 56) as u8,
            ;
        } else if i == 1 {
            assert(s[1] == (p >> 48) as u8 && t[1] == (q >> 48) as u8);
            assert((((p >> 48) as u8) < ((q >> 48) as u8)) <==> p < q) by (bit_vector)
                requires
                    (p >> 56) as u8 == (q >> 56) as u8,
                    (p >> 48) as u8 != (q >> 48) as u8,
            ;
        } else if i == 2 {
            assert(s[2] == (p >> 40) as u8 && t[2] == (q >> 40) as u8);
            assert((((p >> 40) as u8) < ((q >> 40) as u8)) <==> p < q) by (bit_vector)
                requires
                    (p >> 56) as u8 == (q >> 56) as u8,
                    (p >> 48) as u8 == (q >> 48) as u8,
                    (p >> 40) as u8 != (q >> 40) as u8,
            ;
        } else if i == 3 {
            assert(s[3] == (p >> 32) as u8 && t[3] == (q >> 32) as u8);
            assert((((p >> 32) as u8) < ((q >> 32) as u8)) <==> p < q) by (bit_vector)
                requires
                    (p >> 56) as u8 == (q >> 56) as u8,
                    (p >> 48) as u8 == (q >> 48) as u8,
                    (p >> 40) as u8 == (q >> 40) as u8,
                    (p >> 32) as u8 != (q >> 32) as u8,
            ;
        } else if i == 4 {
            assert(s[4] == (p >> 24) as u8 && t[4] == (q >> 24) as u8);
            assert((((p >> 24) as u8) < ((q >> 24) as u8)) <==> p < q) by (bit_vector)
                requires
                    (p >> 56) as u8 == (q >> 56) as u8,
                    (p >> 48) as u8 == (q >> 48) as u8,
                    (p >> 40) as u8 == (q >> 40) as u8,
                    (p >> 32) as u8 == (q >> 32) as u8,
                    (p >> 24) as u8 != (q >> 24) as u8,
            ;
        } else if i == 5 {
            assert(s[5] == (p >> 16) as u8 && t[5] == (q >> 16) as u8);
            assert((((p >> 16) as u8) < ((q >> 16) as u8)) <==> p < q) by (bit_vector)
                requires
                    (p >> 56) as u8 == (q >> 56) as u8,
                    (p >> 48) as u8 == (q >> 48) as u8,
                    (p >> 40) as u8 == (q >> 40) as u8,
                    (p >> 32) as u8 == (q >> 32) as u8,
                    (p >> 24) as u8 == (q >> 24) as u8,
                    (p >> 16) as u8 != (q >> 16) as u8,
            ;
        } else if i == 6 {
            assert(s[6] == (p >> 8) as u8 && t[6] == (q >> 8) as u8);
            assert((((p >> 8) as u8) < ((q >> 8) as u8)) <==> p < q) by (bit_vector)
                requires
                    (p >> 56) as u8 == (q >> 56) as u8,
                    (p >> 48) as u8 == (q >> 48) as u8,
                    (p >> 40) as u8 == (q >> 40) as u8,
                    (p >> 32) as u8 == (q >> 32) as u8,
                    (p >> 24) as u8 == (q >> 24) as u8,
                    (p >> 16) as u8 == (q >> 16) as u8,
                    (p >> 8) as u8 != (q >> 8) as u8,
            ;
        } else {
            assert(s[7] == p as u8 && t[7] == q as u8);
            assert(((p as u8) < (q as u8)) <==> p < q) by (bit_vector)
                requires
                    (p >> 56) as u8 == (q >> 56) as u8,
                    (p >> 48) as u8 == (q >> 48) as u8,
                    (p >> 40) as u8 == (q >> 40) as u8,
                    (p >> 32) as u8 == (q >> 32) as u8,
                    (p >> 24) as u8 == (q >> 24) as u8,
                    (p >> 16) as u8 == (q >> 16) as u8,
                    (p >> 8) as u8 == (q >> 8) as u8,
                    p as u8 != q as u8,
            ;
        }
    }
}

/// The integer payload preserves signed order and is injective.
proof fn lemma_int_key(x: i64, y: i64)
    ensures
        (int_key(x) == int_key(y)) <==> x == y,
        (int_key(x) < int_key(y)) <==> x < y,
{
    assert((((x as u64) ^ 0x8000_0000_0000_0000) == ((y as u64) ^ 0x8000_0000_0000_0000)) <==> x
        == y) by (bit_vector);
    assert((((x as u64) ^ 0x8000_0000_0000_0000) < ((y as u64) ^ 0x8000_0000_0000_0000)) <==> x
        < y) by (bit_vector);
}

/// The double payload is injective.
proof fn lemma_double_key_inj(x: u64, y: u64)
    ensures
        (double_key(x) == double_key(y)) <==> x == y,
{
    if x >= 0x8000_0000_0000_0000 && y >= 0x8000_0000_0000_0000 {
        assert((!x == !y) <==> x == y) by (bit_vector);
    } else if x < 0x8000_0000_0000_0000 && y < 0x8000_0000_0000_0000 {
        assert(((x ^ 0x8000_0000_0000_0000) == (y ^ 0x8000_0000_0000_0000)) <==> x == y)
            by (bit_vector);
    } else if x >= 0x8000_0000_0000_0000 {
        assert(!x != (y ^ 0x8000_0000_0000_0000)) by (bit_vector)
            requires
                x >= 0x8000_0000_0000_0000 && y < 0x8000_0000_0000_0000,
        ;
    } else {
        assert((x ^ 0x8000_0000_0000_0000) != !y) by (bit_vector)
            requires
                x < 0x8000_0000_0000_0000 && y >= 0x8000_0000_0000_0000,
        ;
    }
}

/// A 128-bit integer splits into two 64-bit halves that decide equality and
/// order.
proof fn lemma_u128_halves(a: u128, b: u128)
    ensures
        ((a >> 64) as u64 == (b >> 64) as u64 && a as u64 == b as u64) <==> a == b,
        (a < b) <==> (((a >> 64) as u64) < ((b >> 64) as u64) || ((a >> 64) as u64 == (
        b >> 64) as u64 && ((a as u64) < (b as u64)))),
{
    assert(((a >> 64) as u64 == (b >> 64) as u64 && a as u64 == b as u64) <==> a == b)
        by (bit_vector);
    assert((a < b) <==> (((a >> 64) as u64) < ((b >> 64) as u64) || ((a >> 64) as u64 == (
    b >> 64) as u64 && ((a as u64) < (b as u64))))) by (bit_vector);
}

/// The terminated escape encoding of a text value.
spec fn tenc(s: Seq<u8>) -> Seq<u8> {
    escape(s) + seq![0u8]
}

/// An admissible tail for a range bound: nonempty, and opening with `0xFF`
/// only as the single guard byte that closes a subspace.
pub open spec fn bound_tail_ok(d: Seq<u8>) -> bool {
    d.len() > 0 && (d[0] < 0xFF || d == seq![0xFFu8])
}

/// Shape of the terminated escape encoding: how it opens, and how it peels
/// one text byte off the front.
proof fn lemma_tenc_shape(s: Seq<u8>)
    ensures
        tenc(s).len() >= 1,
        s.len() == 0 ==> tenc(s) == seq![0u8],
        s.len() > 0 && s[0] == 0 ==> tenc(s) == seq![0u8, 0xFFu8] + tenc(s.drop_first()),
        s.len() > 0 && s[0] != 0 ==> tenc(s) == seq![s[0]] + tenc(s.drop_first()),
{
    if s.len() == 0 {
        assert(escape(s) =~= Seq::<u8>::empty());
        assert(tenc(s) =~= seq![0u8]);
    } else {
        assert(escape(s) == esc_byte(s[0]) + escape(s.drop_first()));
        assert(tenc(s) =~= esc_byte(s[0]) + tenc(s.drop_first()));
        if s[0] == 0 {
            assert(tenc(s) =~= seq![0u8, 0xFFu8] + tenc(s.drop_first()));
        } else {
            assert(tenc(s) =~= seq![s[0]] + tenc(s.drop_first()));
        }
    }
}

/// How two terminated text encodings with tails compare: when the text
/// values differ, the texts' own order decides, whatever the tails; when
/// they are equal, the tails decide.
proof fn lemma_tenc_rel(s: Seq<u8>, t: Seq<u8>, c: Seq<u8>, d: Seq<u8>)
    requires
        c.len() > 0,
        c[0] < 0xFF,
        bound_tail_ok(d),
    ensures
        s != t ==> (lex_lt(tenc(s) + c, tenc(t) + d) <==> lex_lt(s, t)),
        s == t ==> (lex_lt(tenc(s) + c, tenc(t) + d) <==> lex_lt(c, d)),
    decreases s.len() + t.len(),
{
    lemma_tenc_shape(s);
    lemma_tenc_shape(t);
    let el = tenc(s) + c;
    let r = tenc(t) + d;
    if s.len() == 0 && t.len() == 0 {
        assert(s =~= t);
        assert(el =~= seq![0u8] + c);
        assert(r =~= seq![0u8] + d);
        crate::order::lemma_lex_cancel(seq![0u8], c, d);
    } else if s.len() == 0 {
        assert(lex_lt(s, t));
        if t[0] == 0 {
            assert(r =~= seq![0u8, 0xFFu8] + (tenc(t.drop_first()) + d));
            assert(el[0] == 0 && r[0] == 0);
            assert(el[1] == c[0] && r[1] == 0xFF);
            crate::order::lemma_lex_at(el, r, 1);
        } else {
            assert(el[0] == 0 && r[0] == t[0]);
            crate::order::lemma_lex_at(el, r, 0);
        }
    } else if t.len() == 0 {
        assert(!lex_lt(s, t));
        assert(s != t);
        assert(r =~= seq![0u8] + d);
        if s[0] == 0 {
            assert(el =~= seq![0u8, 0xFFu8] + (tenc(s.drop_first()) + c));
            if d == seq![0xFFu8] {
                assert(r =~= seq![0u8, 0xFFu8]);
                assert(el =~= r + (tenc(s.drop_first()) + c));
                crate::order::lemma_lex_extend(r, tenc(s.drop_first()) + c);
                crate::order::lemma_lex_trichotomy(el, r);
            } else {
                assert(el[1] == 0xFF && r[1] == d[0]);
                assert(el[0] == 0 && r[0] == 0);
                crate::order::lemma_lex_at(el, r, 1);
            }
        } else {
            assert(el[0] == s[0] && r[0] == 0);
            crate::order::lemma_lex_at(el, r, 0);
        }
    } else if s[0] == t[0] {
        assert(el =~= esc_byte(s[0]) + (tenc(s.drop_first()) + c));
        assert(r =~= esc_byte(t[0]) + (tenc(t.drop_first()) + d));
        crate::order::lemma_lex_cancel(
            esc_byte(s[0]),
            tenc(s.drop_first()) + c,
            tenc(t.drop_first()) + d,
        );
        lemma_tenc_rel(s.drop_first(), t.drop_first(), c, d);
        assert(lex_lt(s, t) == lex_lt(s.drop_first(), t.drop_first()));
        if s.drop_first() == t.drop_first() {
            crate::order::lemma_head_tail_eq(s, t);
        }
        if s == t {
            assert(s.drop_first() == t.drop_first());
        }
    } else {
        assert(s != t);
        assert(lex_lt(s, t) <==> s[0] < t[0]);
        if s[0] == 0 {
            assert(el[0] == 0 && r[0] == t[0]);
            crate::order::lemma_lex_at(el, r, 0);
        } else if t[0] == 0 {
            assert(el[0] == s[0] && r[0] == 0);
            crate::order::lemma_lex_at(el, r, 0);
        } else {
            assert(el[0] == s[0] && r[0] == t[0]);
            crate::order::lemma_lex_at(el, r, 0);
        }
    }
}

/// How two element encodings with tails compare: when the elements differ,
/// the elements' logical order decides, whatever the tails; when they are
/// equal, the tails decide.
pub proof fn lemma_elem_rel(w: ElementV, v: ElementV, c: Seq<u8>, d: Seq<u8>)
    requires
        c.len() > 0,
        c[0] < 0xFF,
        bound_tail_ok(d),
    ensures
        w != v ==> (lex_lt(elem_enc(w) + c, elem_enc(v) + d) <==> elem_lt(w, v)),
        w == v ==> (lex_lt(elem_enc(w) + c, elem_enc(v) + d) <==> lex_lt(c, d)),
{
    lemma_elem_enc_shape(w);
    lemma_elem_enc_shape(v);
    let el = elem_enc(w) + c;
    let r = elem_enc(v) + d;
    if w == v {
        crate::order::lemma_lex_cancel(elem_enc(w), c, d);
    } else if elem_tag(w) != elem_tag(v) {
        assert(el[0] == elem_tag(w) && r[0] == elem_tag(v));
        crate::order::lemma_lex_at(el, r, 0);
    } else {
        match (w, v) {
            (ElementV::Int(x), ElementV::Int(y)) => {
                lemma_int_key(x, y);
                lemma_be8_eq(int_key(x), int_key(y));
                lemma_be8_lt(int_key(x), int_key(y));
                assert(el =~= seq![1u8] + (be8(int_key(x)) + c));
                assert(r =~= seq![1u8] + (be8(int_key(y)) + d));
                crate::order::lemma_lex_cancel(
                    seq![1u8],
                    be8(int_key(x)) + c,
                    be8(int_key(y)) + d,
                );
                crate::order::lemma_lex_append_eqlen(be8(int_key(x)), be8(int_key(y)), c, d);
            },
            (ElementV::Double(x), ElementV::Double(y)) => {
                lemma_double_key_inj(x, y);
                lemma_be8_eq(double_key(x), double_key(y));
                lemma_be8_lt(double_key(x), double_key(y));
                assert(el =~= seq![2u8] + (be8(double_key(x)) + c));
                assert(r =~= seq![2u8] + (be8(double_key(y)) + d));
                crate::order::lemma_lex_cancel(
                    seq![2u8],
                    be8(double_key(x)) + c,
                    be8(double_key(y)) + d,
                );
                crate::order::lemma_lex_append_eqlen(be8(double_key(x)), be8(double_key(y)), c, d);
            },
            (ElementV::Text(s), ElementV::Text(t)) => {
                assert(el =~= seq![3u8] + (tenc(s) + c));
                assert(r =~= seq![3u8] + (tenc(t) + d));
                crate::order::lemma_lex_cancel(seq![3u8], tenc(s) + c, tenc(t) + d);
                lemma_tenc_rel(s, t, c, d);
            },
            (ElementV::Bool(p), ElementV::Bool(q)) => {
                let bp = elem_enc(w);
                let bq = elem_enc(v);
                assert(bp.len() == 2 && bq.len() == 2);
                assert(bp[1] != bq[1] && bp[0] == bq[0]);
                crate::order::lemma_lex_append_eqlen(bp, bq, c, d);
                crate::order::lemma_lex_at(bp, bq, 1);
            },
            (ElementV::Uuid(x), ElementV::Uuid(y)) => {
                lemma_u128_halves(x, y);
                let xh = (x >> 64) as u64;
                let xl = x as u64;
                let yh = (y >> 64) as u64;
                let yl = y as u64;
                assert(el =~= seq![5u8] + (be8(xh) + (be8(xl) + c)));
                assert(r =~= seq![5u8] + (be8(yh) + (be8(yl) + d)));
                crate::order::lemma_lex_cancel(
                    seq![5u8],
                    be8(xh) + (be8(xl) + c),
                    be8(yh) + (be8(yl) + d),
                );
                if xh != yh {
                    lemma_be8_eq(xh, yh);
                    lemma_be8_lt(xh, yh);
                    crate::order::lemma_lex_append_eqlen(
                        be8(xh),
                        be8(yh),
                        be8(xl) + c,
                        be8(yl) + d,
                    );
                } else {
                    assert(xl != yl);
                    lemma_be8_eq(xl, yl);
                    lemma_be8_lt(xl, yl);
                    crate::order::lemma_lex_cancel(be8(xh), be8(xl) + c, be8(yl) + d);
                    crate::order::lemma_lex_append_eqlen(be8(xl), be8(yl), c, d);
                }
            },
            _ => {},
        }
    }
}

/// The logical order on element sequences of equal length: the first
/// differing element decides.
pub open spec fn elems_lt(a: Seq<ElementV>, b: Seq<ElementV>) -> bool
    decreases a.len(),
{
    if a.len() == 0 || b.len() == 0 {
        false
    } else if a[0] != b[0] {
        elem_lt(a[0], b[0])
    } else {
        elems_lt(a.drop_first(), b.drop_first())
    }
}

/// No element sequence is below itself.
pub proof fn lemma_elems_lt_irrefl(v: Seq<ElementV>)
    ensures
        !elems_lt(v, v),
    decreases v.len(),
{
    if v.len() > 0 {
        lemma_elems_lt_irrefl(v.drop_first());
    }
}

/// How the encodings of two element sequences of equal length, each followed
/// by a tail, compare: when the sequences differ, their element order
/// decides, whatever the tails; when they are equal, the tails decide.
pub proof fn lemma_enc_seq_rel(h1: Seq<ElementV>, h2: Seq<ElementV>, c: Seq<u8>, d: Seq<u8>)
    requires
        h1.len() == h2.len(),
        c.len() > 0,
        c[0] < 0xFF,
        bound_tail_ok(d),
    ensures
        h1 != h2 ==> (lex_lt(enc_seq(h1) + c, enc_seq(h2) + d) <==> elems_lt(h1, h2)),
        h1 == h2 ==> (lex_lt(enc_seq(h1) + c, enc_seq(h2) + d) <==> lex_lt(c, d)),
    decreases h1.len(),
{
    let el = enc_seq(h1) + c;
    let r = enc_seq(h2) + d;
    if h1.len() == 0 {
        assert(h1 =~= h2);
        assert(el =~= c);
        assert(r =~= d);
    } else if h1[0] == h2[0] {
        assert(el =~= elem_enc(h1[0]) + (enc_seq(h1.drop_first()) + c));
        assert(r =~= elem_enc(h2[0]) + (enc_seq(h2.drop_first()) + d));
        crate::order::lemma_lex_cancel(
            elem_enc(h1[0]),
            enc_seq(h1.drop_first()) + c,
            enc_seq(h2.drop_first()) + d,
        );
        lemma_enc_seq_rel(h1.drop_first(), h2.drop_first(), c, d);
        if h1.drop_first() == h2.drop_first() {
            crate::order::lemma_head_tail_eq(h1, h2);
        }
        if h1 == h2 {
            assert(h1.drop_first() == h2.drop_first());
        }
    } else {
        assert(h1 != h2);
        assert(elems_lt(h1, h2) == elem_lt(h1[0], h2[0]));
        let c2 = enc_seq(h1.drop_first()) + c;
        let d2 = enc_seq(h2.drop_first()) + d;
        assert(el =~= elem_enc(h1[0]) + c2);
        assert(r =~= elem_enc(h2[0]) + d2);
        if h1.drop_first().len() > 0 {
            lemma_enc_seq_shape(h1.drop_first());
            assert(c2[0] == enc_seq(h1.drop_first())[0]);
        } else {
            assert(c2 =~= c);
        }
        if h2.drop_first().len() > 0 {
            lemma_enc_seq_shape(h2.drop_first());
            assert(d2[0] == enc_seq(h2.drop_first())[0]);
            assert(bound_tail_ok(d2));
        } else {
            assert(d2 =~= d);
        }
        lemma_elem_rel(h1[0], h2[0], c2, d2);
    }
}

/// A tail that can follow one element inside an encoded key: empty, or not
/// opening with the escape continuation byte.
pub open spec fn elem_tail_ok(x: Seq<u8>) -> bool {
    x.len() == 0 || x[0] != 0xFF
}

/// Terminated text encodings parse unambiguously: equal concatenations with
/// admissible tails have equal texts and equal tails.
proof fn lemma_tenc_unique(s: Seq<u8>, t: Seq<u8>, x: Seq<u8>, y: Seq<u8>)
    requires
        tenc(s) + x == tenc(t) + y,
        elem_tail_ok(x),
        elem_tail_ok(y),
    ensures
        s == t,
        x == y,
    decreases s.len() + t.len(),
{
    lemma_tenc_shape(s);
    lemma_tenc_shape(t);
    let el = tenc(s) + x;
    let r = tenc(t) + y;
    if s.len() == 0 && t.len() == 0 {
        assert(s =~= t);
        assert(el =~= seq![0u8] + x);
        assert(r =~= seq![0u8] + y);
        crate::order::lemma_concat_split(seq![0u8], x, seq![0u8], y);
    } else if s.len() == 0 {
        if t[0] == 0 {
            assert(r =~= seq![0u8, 0xFFu8] + (tenc(t.drop_first()) + y));
            assert(r.len() >= 3);
            if x.len() == 0 {
                assert(el.len() == 1);
            } else {
                assert(el[1] == x[0]);
                assert(r[1] == 0xFF);
            }
        } else {
            assert(el[0] == 0);
            assert(r[0] == t[0]);
        }
    } else if t.len() == 0 {
        if s[0] == 0 {
            assert(el =~= seq![0u8, 0xFFu8] + (tenc(s.drop_first()) + x));
            assert(el.len() >= 3);
            if y.len() == 0 {
                assert(r.len() == 1);
            } else {
                assert(r[1] == y[0]);
                assert(el[1] == 0xFF);
            }
        } else {
            assert(r[0] == 0);
            assert(el[0] == s[0]);
        }
    } else {
        assert(el[0] == s[0] || (s[0] == 0 && el[0] == 0));
        assert(el[0] == s[0]);
        assert(r[0] == t[0]);
        assert(s[0] == t[0]);
        assert(el =~= esc_byte(s[0]) + (tenc(s.drop_first()) + x));
        assert(r =~= esc_byte(t[0]) + (tenc(t.drop_first()) + y));
        crate::order::lemma_concat_split(
            esc_byte(s[0]),
            tenc(s.drop_first()) + x,
            esc_byte(t[0]),
            tenc(t.drop_first()) + y,
        );
        lemma_tenc_unique(s.drop_first(), t.drop_first(), x, y);
        crate::order::lemma_head_tail_eq(s, t);
    }
}

/// Element encodings parse unambiguously: equal concatenations with
/// admissible tails have equal elements and equal tails.
pub proof fn lemma_elem_unique(a: ElementV, b: ElementV, x: Seq<u8>, y: Seq<u8>)
    requires
        elem_enc(a) + x == elem_enc(b) + y,
        elem_tail_ok(x),
        elem_tail_ok(y),
    ensures
        a == b,
        x == y,
{
    lemma_elem_enc_shape(a);
    lemma_elem_enc_shape(b);
    let el = elem_enc(a) + x;
    let r = elem_enc(b) + y;
    assert(el[0] == elem_tag(a));
    assert(r[0] == elem_tag(b));
    assert(elem_tag(a) == elem_tag(b));
    match (a, b) {
        (ElementV::Nil, ElementV::Nil) => {
            crate::order::lemma_concat_split(elem_enc(a), x, elem_enc(b), y);
        },
        (ElementV::Int(p), ElementV::Int(q)) => {
            assert(elem_enc(a).len() == 9 && elem_enc(b).len() == 9);
            crate::order::lemma_concat_split(elem_enc(a), x, elem_enc(b), y);
            assert(be8(int_key(p)) =~= elem_enc(a).subrange(1, 9));
            assert(be8(int_key(q)) =~= elem_enc(b).subrange(1, 9));
            lemma_be8_eq(int_key(p), int_key(q));
            lemma_int_key(p, q);
        },
        (ElementV::Double(p), ElementV::Double(q)) => {
            assert(elem_enc(a).len() == 9 && elem_enc(b).len() == 9);
            crate::order::lemma_concat_split(elem_enc(a), x, elem_enc(b), y);
            assert(be8(double_key(p)) =~= elem_enc(a).subrange(1, 9));
            assert(be8(double_key(q)) =~= elem_enc(b).subrange(1, 9));
            lemma_be8_eq(double_key(p), double_key(q));
            lemma_double_key_inj(p, q);
        },
        (ElementV::Text(s), ElementV::Text(t)) => {
            assert(el =~= seq![3u8] + (tenc(s) + x));
            assert(r =~= seq![3u8] + (tenc(t) + y));
            crate::order::lemma_concat_split(seq![3u8], tenc(s) + x, seq![3u8], tenc(t) + y);
            lemma_tenc_unique(s, t, x, y);
        },
        (ElementV::Bool(p), ElementV::Bool(q)) => {
            assert(elem_enc(a).len() == 2 && elem_enc(b).len() == 2);
            crate::order::lemma_concat_split(elem_enc(a), x, elem_enc(b), y);
            assert(elem_enc(a)[1] == elem_enc(b)[1]);
        },
        (ElementV::Uuid(p), ElementV::Uuid(q)) => {
            assert(elem_enc(a).len() == 17 && elem_enc(b).len() == 17);
            crate::order::lemma_concat_split(elem_enc(a), x, elem_enc(b), y);
            let ph = (p >> 64) as u64;
            let pl = p as u64;
            let qh = (q >> 64) as u64;
            let ql = q as u64;
            assert(be8(ph) =~= elem_enc(a).subrange(1, 9));
            assert(be8(pl) =~= elem_enc(a).subrange(9, 17));
            assert(be8(qh) =~= elem_enc(b).subrange(1, 9));
            assert(be8(ql) =~= elem_enc(b).subrange(9, 17));
            lemma_be8_eq(ph, qh);
            lemma_be8_eq(pl, ql);
            lemma_u128_halves(p, q);
        },
        _ => {},
    }
}

/// The concatenated encoding of an element sequence determines the sequence.
pub proof fn lemma_enc_seq_inj(v1: Seq<ElementV>, v2: Seq<ElementV>)
    requires
        enc_seq(v1) == enc_seq(v2),
    ensures
        v1 == v2,
    decreases v1.len(),
{
    if v1.len() == 0 && v2.len() == 0 {
        assert(v1 =~= v2);
    } else if v1.len() == 0 {
        lemma_enc_seq_shape(v2);
    } else if v2.len() == 0 {
        lemma_enc_seq_shape(v1);
    } else {
        let x = enc_seq(v1.drop_first());
        let y = enc_seq(v2.drop_first());
        if v1.drop_first().len() > 0 {
            lemma_enc_seq_shape(v1.drop_first());
        }
        if v2.drop_first().len() > 0 {
            lemma_enc_seq_shape(v2.drop_first());
        }
        lemma_elem_unique(v1[0], v2[0], x, y);
        lemma_enc_seq_inj(v1.drop_first(), v2.drop_first());
        crate::order::lemma_head_tail_eq(v1, v2);
    }
}

/// The logical order on elements is total: exactly one of `a < b`, `a == b`,
/// `b < a` holds.
pub proof fn lemma_elem_trichotomy(a: ElementV, b: ElementV)
    ensures
        elem_lt(a, b) || elem_lt(b, a) || a == b,
        elem_lt(a, b) ==> !elem_lt(b, a),
        elem_lt(a, b) ==> a != b,
{
    match (a, b) {
        (ElementV::Double(x), ElementV::Double(y)) => {
            lemma_double_key_inj(x, y);
        },
        (ElementV::Text(s), ElementV::Text(t)) => {
            crate::order::lemma_lex_trichotomy(s, t);
        },
        _ => {},
    }
}

/// Appends the eight big-endian bytes of `x`.
pub fn push_be8(out: &mut Vec<u8>, x: u64)
    ensures
        final(out)@ == old(out)@ + be8(x),
{
    out.push((x >> 56) as u8);
    out.push((x >> 48) as u8);
    out.push((x >> 40) as u8);
    out.push((x >> 32) as u8);
    out.push((x >> 24) as u8);
    out.push((x >> 16) as u8);
    out.push((x >> 8) as u8);
    out.push(x as u8);
    assert(out@ =~= old(out)@ + be8(x));
}

/// Appends the escaped form of `s`, without the terminator.
fn push_escaped(out: &mut Vec<u8>, s: &Vec<u8>)
    ensures
        final(out)@ == old(out)@ + escape(s@),
{
    let ghost start = out@;
    let mut i: usize = 0;
    while i < s.len()
        invariant
            i <= s.len(),
            out@ == start + escape(s@.take(i as int)),
        decreases s.len() - i,
    {
        let b = s[i];
        proof {
            assert(s@.take(i + 1) =~= s@.take(i as int) + seq![s@[i as int]]);
            lemma_escape_app(s@.take(i as int), seq![s@[i as int]]);
            lemma_escape_one(s@[i as int]);
        }
        if b == 0 {
            out.push(0u8);
            out.push(0xFFu8);
        } else {
            out.push(b);
        }
        proof {
            assert(out@ =~= start + escape(s@.take(i + 1)));
        }
        i = i + 1;
    }
    proof {
        assert(s@.take(s@.len() as int) =~= s@);
    }
}

/// Copies a byte vector.
pub fn copy_bytes(src: &Vec<u8>) -> (r: Vec<u8>)
    ensures
        r@ == src@,
{
    let mut r: Vec<u8> = Vec::new();
    let mut i: usize = 0;
    while i < src.len()
        invariant
            i <= src.len(),
            r@ == src@.take(i as int),
        decreases src.len() - i,
    {
        r.push(src[i]);
        proof {
            assert(src@.take(i + 1) =~= src@.take(i as int).push(src@[i as int]));
        }
        i = i + 1;
    }
    proof {
        assert(src@.take(src@.len() as int) =~= src@);
    }
    r
}

/// Appends all bytes of `src` to `out`.
pub fn push_bytes(out: &mut Vec<u8>, src: &Vec<u8>)
    ensures
        final(out)@ == old(out)@ + src@,
{
    let ghost start = out@;
    let mut i: usize = 0;
    while i < src.len()
        invariant
            i <= src.len(),
            out@ == start + src@.take(i as int),
        decreases src.len() - i,
    {
        out.push(src[i]);
        proof {
            assert(src@.take(i + 1) =~= src@.take(i as int).push(src@[i as int]));
            assert(start + src@.take(i + 1) =~= (start + src@.take(i as int)).push(
                src@[i as int],
            ));
        }
        i = i + 1;
    }
    proof {
        assert(src@.take(src@.len() as int) =~= src@);
    }
}

/// Appends the order-preserving encoding of one element.
pub fn encode_element(e: &Element, out: &mut Vec<u8>)
    ensures
        final(out)@ == old(out)@ + elem_enc(e@),
{
    match e {
        Element::Nil => {
            out.push(0u8);
        },
        Element::Int(x) => {
            out.push(1u8);
            push_be8(out, (*x as u64) ^ 0x8000_0000_0000_0000u64);
        },
        Element::Double(b) => {
            out.push(2u8);
            let k: u64 = if *b >= 0x8000_0000_0000_0000u64 {
                !*b
            } else {
                *b ^ 0x8000_0000_0000_0000u64
            };
            push_be8(out, k);
        },
        Element::Text(t) => {
            out.push(3u8);
            push_escaped(out, t);
            out.push(0u8);
        },
        Element::Bool(b) => {
            out.push(4u8);
            out.push(if *b {
                1u8
            } else {
                0u8
            });
        },
        Element::Uuid(u) => {
            out.push(5u8);
            push_be8(out, (*u >> 64) as u64);
            push_be8(out, *u as u64);
        },
    }
    assert(out@ =~= old(out)@ + elem_enc(e@));
}

} // verus!
