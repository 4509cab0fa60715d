//! Lexicographic order on account keys.
//!
//! An account key is a byte sequence, totally ordered by byte comparison.
//! The migration cursor and the ordered backends both rely on this order.

use vstd::prelude::*;

verus! {

/// Strict lexicographic order on byte sequences.
pub open spec fn lex_lt(a: Seq<u8>, b: Seq<u8>) -> bool
    decreases a.len(),
{
    if b.len() == 0 {
        false
    } else if a.len() == 0 {
        true
    } else if a[0] < b[0] {
        true
    } else if a[0] > b[0] {
        false
    } else {
        lex_lt(a.skip(1), b.skip(1))
    }
}

/// Non-strict lexicographic order.
pub open spec fn lex_le(a: Seq<u8>, b: Seq<u8>) -> bool {
    lex_lt(a, b) || a == b
}

pub proof fn lemma_lex_lt_irreflexive(a: Seq<u8>)
    ensures
        !lex_lt(a, a),
    decreases a.len(),
{
    if a.len() > 0 {
        lemma_lex_lt_irreflexive(a.skip(1));
    }
}

/// Any two byte sequences are comparable.
pub proof fn lemma_lex_lt_total(a: Seq<u8>, b: Seq<u8>)
    ensures
        lex_lt(a, b) || lex_lt(b, a) || a == b,
    decreases a.len(),
{
    if a.len() == 0 && b.len() == 0 {
        assert(a =~= b);
    } else if a.len() > 0 && b.len() > 0 && a[0] == b[0] {
        lemma_lex_lt_total(a.skip(1), b.skip(1));
        if a.skip(1) == b.skip(1) {
            assert(a.skip(1).len() == a.len() - 1);
            assert(b.skip(1).len() == b.len() - 1);
            assert forall|i: int| 0 <= i < a.len() implies a[i] == b[i] by {
                if i >= 1 {
                    assert(a[i] == a.skip(1)[i - 1]);
                    assert(b[i] == b.skip(1)[i - 1]);
                }
            }
            assert(a =~= b);
        }
    }
}

pub proof fn lemma_lex_lt_transitive(a: Seq<u8>, b: Seq<u8>, c: Seq<u8>)
    requires
        lex_lt(a, b),
        lex_lt(b, c),
    ensures
        lex_lt(a, c),
    decreases a.len(),
{
    if a.len() > 0 && b.len() > 0 && c.len() > 0 && a[0] == b[0] && b[0] == c[0] {
        lemma_lex_lt_transitive(a.skip(1), b.skip(1), c.skip(1));
    }
}

/// Strictly ordered keys are distinct.
pub proof fn lemma_lex_lt_neq(a: Seq<u8>, b: Seq<u8>)
    requires
        lex_lt(a, b),
    ensures
        a != b,
{
    lemma_lex_lt_irreflexive(a);
}

pub proof fn lemma_lex_le_lt_trans(a: Seq<u8>, b: Seq<u8>, c: Seq<u8>)
    requires
        lex_le(a, b),
        lex_lt(b, c),
    ensures
        lex_lt(a, c),
{
    if a != b {
        lemma_lex_lt_transitive(a, b, c);
    }
}

/// Whether `k` lies within the given inclusive key bounds; a missing bound
/// is unbounded on that side.
pub open spec fn in_key_bounds(k: Seq<u8>, lower: Option<Seq<u8>>, upper: Option<Seq<u8>>) -> bool {
    &&& match lower {
        Some(l) => lex_le(l, k),
        None => true,
    }
    &&& match upper {
        Some(u) => lex_le(k, u),
        None => true,
    }
}

/// The view of an optional borrowed key bound.
pub open spec fn opt_key_view(k: Option<&Vec<u8>>) -> Option<Seq<u8>> {
    match k {
        Some(v) => Some(v@),
        None => None,
    }
}

/// `a <= b` and `b < a` exclude each other.
pub proof fn lemma_lex_le_asym(a: Seq<u8>, b: Seq<u8>)
    ensures
        !(lex_le(a, b) && lex_lt(b, a)),
{
    if lex_le(a, b) && lex_lt(b, a) {
        lemma_lex_le_lt_trans(a, b, a);
        lemma_lex_lt_irreflexive(a);
    }
}

/// If two sequences agree on their first `i` bytes, their order is decided by
/// the remainders.
proof fn lemma_lex_lt_common_prefix(a: Seq<u8>, b: Seq<u8>, i: int)
    requires
        0 <= i <= a.len(),
        i <= b.len(),
        forall|j: int| 0 <= j < i ==> a[j] == b[j],
    ensures
        lex_lt(a, b) == lex_lt(a.skip(i), b.skip(i)),
    decreases i,
{
    if i == 0 {
        assert(a.skip(0) =~= a);
        assert(b.skip(0) =~= b);
    } else {
        assert(a.len() > 0 && b.len() > 0 && a[0] == b[0]);
        lemma_lex_lt_common_prefix(a.skip(1), b.skip(1), i - 1);
        assert(a.skip(1).skip(i - 1) =~= a.skip(i));
        assert(b.skip(1).skip(i - 1) =~= b.skip(i));
    }
}

/// Decides the strict lexicographic order on two keys.
pub fn key_lt(a: &Vec<u8>, b: &Vec<u8>) -> (r: bool)
    ensures
        r == lex_lt(a@, b@),
{
    let alen = a.len();
    let blen = b.len();
    let mut i: usize = 0;
    while i < alen && i < blen
        invariant
            i <= alen,
            i <= blen,
            alen == a@.len(),
            blen == b@.len(),
            forall|j: int| 0 <= j < i ==> a@[j] == b@[j],
        decreases alen - i,
    {
        let x = a[i];
        let y = b[i];
        if x != y {
            proof {
                lemma_lex_lt_common_prefix(a@, b@, i as int);
                assert(a@.skip(i as int)[0] == x);
                assert(b@.skip(i as int)[0] == y);
            }
            return x < y;
        }
        i += 1;
    }
    proof {
        lemma_lex_lt_common_prefix(a@, b@, i as int);
    }
    alen < blen
}

/// Decides the non-strict lexicographic order on two keys.
pub fn key_le(a: &Vec<u8>, b: &Vec<u8>) -> (r: bool)
    ensures
        r == lex_le(a@, b@),
{
    let r = !key_lt(b, a);
    proof {
        lemma_lex_lt_total(a@, b@);
        lemma_lex_lt_irreflexive(a@);
        if lex_lt(a@, b@) && lex_lt(b@, a@) {
            lemma_lex_lt_transitive(a@, b@, a@);
        }
    }
    r
}

/// Decides equality of two keys.
pub fn key_eq(a: &Vec<u8>, b: &Vec<u8>) -> (r: bool)
    ensures
        r == (a@ == b@),
{
    let alen = a.len();
    let blen = b.len();
    if alen != blen {
        return false;
    }
    let mut i: usize = 0;
    while i < alen
        invariant
            i <= alen,
            alen == a@.len(),
            alen == b@.len(),
            forall|j: int| 0 <= j < i ==> a@[j] == b@[j],
        decreases alen - i,
    {
        if a[i] != b[i] {
            return false;
        }
        i += 1;
    }
    proof {
        assert(a@ =~= b@);
    }
    true
}

} // verus!
