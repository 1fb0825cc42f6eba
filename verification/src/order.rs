//! Byte-lexicographic order on keys.
//!
//! Keys handed to the key-value store are compared byte by byte; every
//! contract about key ranges in this crate is stated over the order defined
//! here, together with a small toolkit of lemmas about how concatenation
//! interacts with it.

use vstd::prelude::*;

verus! {

/// `a` comes strictly before `b` in byte-lexicographic order.
pub open spec fn lex_lt(a: Seq<u8>, b: Seq<u8>) -> bool
    decreases a.len(),
{
    if b.len() == 0 {
        false
    } else if a.len() == 0 {
        true
    } else if a[0] < b[0] {
        true
    } else if a[0] > b[0] {
        false
    } else {
        lex_lt(a.drop_first(), b.drop_first())
    }
}

/// `a` comes before `b`, or the two are equal.
pub open spec fn lex_le(a: Seq<u8>, b: Seq<u8>) -> bool {
    lex_lt(a, b) || a == b
}

/// `p` is a prefix of `s`.
pub open spec fn is_prefix(p: Seq<u8>, s: Seq<u8>) -> bool {
    p.len() <= s.len() && p == s.subrange(0, p.len() as int)
}

/// Two sequences with equal heads and equal tails are equal.
pub proof fn lemma_head_tail_eq<T>(a: Seq<T>, b: Seq<T>)
    requires
        a.len() > 0,
        b.len() > 0,
        a[0] == b[0],
        a.drop_first() == b.drop_first(),
    ensures
        a == b,
{
    assert(a.len() == b.len()) by {
        assert(a.drop_first().len() == a.len() - 1);
        assert(b.drop_first().len() == b.len() - 1);
    }
    assert forall|i: int| 0 <= i < a.len() implies a[i] == b[i] by {
        if i >= 1 {
            assert(a[i] == a.drop_first()[i - 1]);
            assert(b[i] == b.drop_first()[i - 1]);
        }
    }
    assert(a =~= b);
}

/// The order is total: exactly one of `a < b`, `a == b`, `b < a` holds.
pub proof fn lemma_lex_trichotomy(a: Seq<u8>, b: Seq<u8>)
    ensures
        lex_lt(a, b) || lex_lt(b, a) || a == b,
        lex_lt(a, b) ==> !lex_lt(b, a),
        lex_lt(a, b) ==> a != b,
    decreases a.len(),
{
    if a.len() == 0 && b.len() == 0 {
        assert(a =~= b);
    } else if a.len() > 0 && b.len() > 0 && a[0] == b[0] {
        lemma_lex_trichotomy(a.drop_first(), b.drop_first());
        if a.drop_first() == b.drop_first() {
            lemma_head_tail_eq(a, b);
        }
        if a == b {
            assert(a.drop_first() == b.drop_first());
        }
    } else {
        if a == b && a.len() > 0 {
            assert(a[0] == b[0]);
        }
    }
}

/// `a <= b` exactly when `b` is not strictly before `a`.
pub proof fn lemma_lex_total(a: Seq<u8>, b: Seq<u8>)
    ensures
        lex_le(a, b) <==> !lex_lt(b, a),
{
    lemma_lex_trichotomy(a, b);
    lemma_lex_trichotomy(b, a);
}

/// The order between two sequences that agree up to position `i` and differ
/// there is decided by the bytes at position `i`.
pub proof fn lemma_lex_at(a: Seq<u8>, b: Seq<u8>, i: int)
    requires
        0 <= i < a.len(),
        i < b.len(),
        forall|j: int| 0 <= j < i ==> a[j] == b[j],
        a[i] != b[i],
    ensures
        lex_lt(a, b) <==> a[i] < b[i],
    decreases i,
{
    if i == 0 {
    } else {
        assert(a[0] == b[0]);
        assert(forall|j: int| 0 <= j < i - 1 ==> a.drop_first()[j] == b.drop_first()[j]);
        assert(a.drop_first()[i - 1] != b.drop_first()[i - 1]);
        lemma_lex_at(a.drop_first(), b.drop_first(), i - 1);
    }
}

/// Concatenation on the left cancels: `p + a` and `p + b` compare as `a`
/// and `b` do, and are equal exactly when `a` and `b` are.
pub proof fn lemma_lex_cancel(p: Seq<u8>, a: Seq<u8>, b: Seq<u8>)
    ensures
        lex_lt(p + a, p + b) <==> lex_lt(a, b),
        (p + a == p + b) <==> a == b,
    decreases p.len(),
{
    if p.len() == 0 {
        assert(p + a =~= a);
        assert(p + b =~= b);
    } else {
        lemma_lex_cancel(p.drop_first(), a, b);
        assert((p + a).drop_first() =~= p.drop_first() + a);
        assert((p + b).drop_first() =~= p.drop_first() + b);
        assert((p + a)[0] == p[0]);
        assert((p + b)[0] == p[0]);
        if p.drop_first() + a == p.drop_first() + b {
            lemma_head_tail_eq(p + a, p + b);
        }
        if p + a == p + b {
            assert((p + a).drop_first() == (p + b).drop_first());
        }
    }
}

/// When `x` and `y` have equal length and differ, appending anything to
/// either side does not change how they compare.
pub proof fn lemma_lex_append_eqlen(x: Seq<u8>, y: Seq<u8>, a: Seq<u8>, b: Seq<u8>)
    requires
        x.len() == y.len(),
        x != y,
    ensures
        lex_lt(x + a, y + b) <==> lex_lt(x, y),
    decreases x.len(),
{
    if x.len() == 0 {
        assert(x =~= y);
    } else if x[0] == y[0] {
        assert(x.drop_first() != y.drop_first()) by {
            if x.drop_first() == y.drop_first() {
                lemma_head_tail_eq(x, y);
            }
        }
        lemma_lex_append_eqlen(x.drop_first(), y.drop_first(), a, b);
        assert((x + a).drop_first() =~= x.drop_first() + a);
        assert((y + b).drop_first() =~= y.drop_first() + b);
        assert((x + a)[0] == (y + b)[0]);
    } else {
        assert((x + a)[0] == x[0]);
        assert((y + b)[0] == y[0]);
    }
}

/// A proper extension of `a` comes strictly after `a`.
pub proof fn lemma_lex_extend(a: Seq<u8>, b: Seq<u8>)
    requires
        b.len() > 0,
    ensures
        lex_lt(a, a + b),
    decreases a.len(),
{
    if a.len() == 0 {
        assert(a + b =~= b);
    } else {
        lemma_lex_extend(a.drop_first(), b);
        assert((a + b).drop_first() =~= a.drop_first() + b);
        assert((a + b)[0] == a[0]);
    }
}

/// Concatenation splits: when the left parts have equal length, equal
/// concatenations have equal parts.
pub proof fn lemma_concat_split<T>(p: Seq<T>, x: Seq<T>, q: Seq<T>, y: Seq<T>)
    requires
        p.len() == q.len(),
        p + x == q + y,
    ensures
        p == q,
        x == y,
{
    assert forall|i: int| 0 <= i < p.len() implies p[i] == q[i] by {
        assert((p + x)[i] == p[i]);
        assert((q + y)[i] == q[i]);
    }
    assert(p =~= q);
    assert((p + x).len() == (q + y).len());
    assert((p + x).len() == p.len() + x.len());
    assert((q + y).len() == q.len() + y.len());
    assert(x.len() == y.len());
    assert forall|i: int| 0 <= i < x.len() implies x[i] == y[i] by {
        assert((p + x)[p.len() + i] == x[i]);
        assert((q + y)[q.len() + i] == y[i]);
    }
    assert(x =~= y);
}

/// Appending one zero byte to both sides leaves the order unchanged.
pub proof fn lemma_append_zero(x: Seq<u8>, y: Seq<u8>)
    ensures
        lex_lt(x + seq![0u8], y + seq![0u8]) <==> lex_lt(x, y),
    decreases x.len() + y.len(),
{
    let el = x + seq![0u8];
    let r = y + seq![0u8];
    if x.len() == 0 && y.len() == 0 {
        assert(el =~= seq![0u8]);
        assert(r =~= seq![0u8]);
        lemma_lex_trichotomy(el, r);
    } else if x.len() == 0 {
        assert(el =~= seq![0u8]);
        assert(lex_lt(x, y));
        if y[0] > 0 {
            lemma_lex_at(el, r, 0);
        } else {
            assert(el[0] == r[0]);
            assert(el.drop_first() =~= Seq::<u8>::empty());
            assert(r.drop_first() =~= y.drop_first() + seq![0u8]);
            assert(r.drop_first().len() > 0);
            assert(lex_lt(el, r) == lex_lt(el.drop_first(), r.drop_first()));
        }
    } else if y.len() == 0 {
        assert(r =~= seq![0u8]);
        assert(!lex_lt(x, y));
        if x[0] > 0 {
            lemma_lex_at(el, r, 0);
        } else {
            assert(el[0] == r[0]);
            assert(r.drop_first() =~= Seq::<u8>::empty());
            assert(el.drop_first() =~= x.drop_first() + seq![0u8]);
            assert(lex_lt(el, r) == lex_lt(el.drop_first(), r.drop_first()));
            assert(!lex_lt(el.drop_first(), r.drop_first()));
        }
    } else if x[0] == y[0] {
        assert(el.drop_first() =~= x.drop_first() + seq![0u8]);
        assert(r.drop_first() =~= y.drop_first() + seq![0u8]);
        lemma_append_zero(x.drop_first(), y.drop_first());
        assert(el[0] == r[0]);
        assert(lex_lt(el, r) == lex_lt(el.drop_first(), r.drop_first()));
        assert(lex_lt(x, y) == lex_lt(x.drop_first(), y.drop_first()));
    } else {
        assert(el[0] == x[0] && r[0] == y[0]);
        lemma_lex_at(el, r, 0);
        lemma_lex_at(x, y, 0);
    }
}

/// A sequence is a prefix of itself extended.
pub proof fn lemma_prefix_of_concat(p: Seq<u8>, x: Seq<u8>)
    ensures
        is_prefix(p, p + x),
{
    assert((p + x).subrange(0, p.len() as int) =~= p);
}

/// A key between two bounds that extend one prefix extends that prefix
/// itself.
pub proof fn lemma_range_within_prefix(p: Seq<u8>, b: Seq<u8>, e: Seq<u8>, k: Seq<u8>)
    requires
        is_prefix(p, b),
        b.len() > p.len(),
        is_prefix(p, e),
        lex_le(b, k),
        lex_lt(k, e),
    ensures
        is_prefix(p, k),
{
    if !is_prefix(p, k) {
        assert(forall|i: int| 0 <= i < p.len() ==> b[i] == p[i]) by {
            assert(forall|i: int|
                0 <= i < p.len() ==> b.subrange(0, p.len() as int)[i] == b[i]);
        }
        assert(forall|i: int| 0 <= i < p.len() ==> e[i] == p[i]) by {
            assert(forall|i: int|
                0 <= i < p.len() ==> e.subrange(0, p.len() as int)[i] == e[i]);
        }
        if k.len() >= p.len() && k.subrange(0, p.len() as int) == p {
            assert(is_prefix(p, k));
        } else if k.len() >= p.len() {
            let kp = k.subrange(0, p.len() as int);
            let j = first_difference(p, kp);
            assert(k[j] == kp[j]);
            assert(forall|i: int| 0 <= i < j ==> k[i] == #[trigger] kp[i]);
            if k[j] < p[j] {
                lemma_lex_at(k, b, j);
                lemma_lex_trichotomy(b, k);
            } else {
                lemma_lex_at(k, e, j);
                lemma_lex_trichotomy(k, e);
            }
        } else {
            if k == b.subrange(0, k.len() as int) {
                assert(b =~= k + b.subrange(k.len() as int, b.len() as int));
                lemma_lex_extend(k, b.subrange(k.len() as int, b.len() as int));
                lemma_lex_trichotomy(k, b);
            } else {
                let j = first_difference(k, b.subrange(0, k.len() as int));
                assert(b[j] == b.subrange(0, k.len() as int)[j]);
                assert(forall|i: int|
                    0 <= i < j ==> b[i] == #[trigger] b.subrange(0, k.len() as int)[i]);
                assert(b[j] == p[j] && e[j] == p[j]);
                if k[j] < p[j] {
                    lemma_lex_at(k, b, j);
                    lemma_lex_trichotomy(b, k);
                } else {
                    lemma_lex_at(k, e, j);
                    lemma_lex_trichotomy(k, e);
                }
            }
        }
    }
}

/// Two sequences of equal length that differ, differ first at some position.
pub proof fn first_difference(x: Seq<u8>, y: Seq<u8>) -> (i: int)
    requires
        x.len() == y.len(),
        x != y,
    ensures
        0 <= i < x.len(),
        x[i] != y[i],
        forall|j: int| 0 <= j < i ==> x[j] == y[j],
    decreases x.len(),
{
    if x.len() == 0 {
        assert(x =~= y);
        0
    } else if x[0] != y[0] {
        0
    } else {
        assert(x.drop_first() != y.drop_first()) by {
            if x.drop_first() == y.drop_first() {
                lemma_head_tail_eq(x, y);
            }
        }
        let k = first_difference(x.drop_first(), y.drop_first());
        assert(x[k + 1] == x.drop_first()[k]);
        assert(y[k + 1] == y.drop_first()[k]);
        assert forall|j: int| 0 <= j < k + 1 implies x[j] == y[j] by {
            if j >= 1 {
                assert(x[j] == x.drop_first()[j - 1]);
                assert(y[j] == y.drop_first()[j - 1]);
            }
        }
        k + 1
    }
}

} // verus!
