//! Total byte-wise (lexicographic) order on keys, with an executable
//! comparison and the order-theoretic lemmas the rest of the crate needs.

use vstd::prelude::*;

verus! {

/// Strict lexicographic order on byte sequences: `a` sorts before `b`.
pub open spec fn key_lt(a: Seq<u8>, b: Seq<u8>) -> bool
    decreases a.len(),
{
    if b.len() == 0 {
        false
    } else if a.len() == 0 {
        true
    } else if a[0] < b[0] {
        true
    } else if b[0] < a[0] {
        false
    } else {
        key_lt(a.drop_first(), b.drop_first())
    }
}

/// Non-strict counterpart of `key_lt`.
pub open spec fn key_le(a: Seq<u8>, b: Seq<u8>) -> bool {
    key_lt(a, b) || a == b
}

pub proof fn lemma_key_lt_irrefl(a: Seq<u8>)
    ensures
        !key_lt(a, a),
    decreases a.len(),
{
    if a.len() > 0 {
        lemma_key_lt_irrefl(a.drop_first());
    }
}

/// The order is total: two keys are comparable or equal.
pub proof fn lemma_key_lt_total(a: Seq<u8>, b: Seq<u8>)
    ensures
        key_lt(a, b) || key_lt(b, a) || a == b,
    decreases a.len(),
{
    if a.len() == 0 && b.len() == 0 {
        assert(a =~= b);
    } else if a.len() > 0 && b.len() > 0 && a[0] == b[0] {
        lemma_key_lt_total(a.drop_first(), b.drop_first());
        if !key_lt(a, b) && !key_lt(b, a) {
            assert(a.drop_first() =~= b.drop_first());
            assert forall|j: int| 0 <= j < a.len() implies a[j] == b[j] by {
                if j > 0 {
                    assert(a[j] == a.drop_first()[j - 1]);
                    assert(b[j] == b.drop_first()[j - 1]);
                }
            }
            assert(a =~= b);
        }
    }
}

pub proof fn lemma_key_lt_trans(a: Seq<u8>, b: Seq<u8>, c: Seq<u8>)
    requires
        key_lt(a, b),
        key_lt(b, c),
    ensures
        key_lt(a, c),
    decreases a.len(),
{
    if a.len() > 0 && b.len() > 0 && c.len() > 0 && a[0] == b[0] && b[0] == c[0] {
        lemma_key_lt_trans(a.drop_first(), b.drop_first(), c.drop_first());
    }
}

/// Two keys that agree on their first `i` bytes compare the same way as
/// their remainders past `i`.
pub proof fn lemma_key_lt_common_prefix(a: Seq<u8>, b: Seq<u8>, i: int)
    requires
        0 <= i <= a.len(),
        i <= b.len(),
        forall|j: int| 0 <= j < i ==> a[j] == b[j],
    ensures
        key_lt(a, b) == key_lt(a.skip(i), b.skip(i)),
    decreases i,
{
    if i == 0 {
        assert(a.skip(0) =~= a);
        assert(b.skip(0) =~= b);
    } else {
        assert(a[0] == b[0]);
        assert(key_lt(a, b) == key_lt(a.drop_first(), b.drop_first()));
        assert(a.drop_first().skip(i - 1) =~= a.skip(i));
        assert(b.drop_first().skip(i - 1) =~= b.skip(i));
        lemma_key_lt_common_prefix(a.drop_first(), b.drop_first(), i - 1);
    }
}

/// Executable byte-wise comparison, proved equivalent to `key_lt`.
pub fn key_lt_exec(a: &Vec<u8>, b: &Vec<u8>) -> (r: bool)
    ensures
        r == key_lt(a@, b@),
{
    let mut i: usize = 0;
    while i < a.len() && i < b.len()
        invariant
            0 <= i <= a@.len(),
            i <= b@.len(),
            forall|j: int| 0 <= j < i ==> a@[j] == b@[j],
        decreases a@.len() - i,
    {
        if a[i] < b[i] {
            proof {
                lemma_key_lt_common_prefix(a@, b@, i as int);
            }
            return true;
        }
        if b[i] < a[i] {
            proof {
                lemma_key_lt_common_prefix(a@, b@, i as int);
            }
            return false;
        }
        i = i + 1;
    }
    proof {
        lemma_key_lt_common_prefix(a@, b@, i as int);
        if i == a@.len() && i == b@.len() {
            assert(a@ =~= b@);
            lemma_key_lt_irrefl(a@);
        }
    }
    a.len() < b.len()
}

/// Executable key equality, proved equivalent to view equality.
pub fn key_eq_exec(a: &Vec<u8>, b: &Vec<u8>) -> (r: bool)
    ensures
        r == (a@ == b@),
{
    if a.len() != b.len() {
        return false;
    }
    let mut i: usize = 0;
    while i < a.len()
        invariant
            0 <= i <= a@.len(),
            a@.len() == b@.len(),
            forall|j: int| 0 <= j < i ==> a@[j] == b@[j],
        decreases a@.len() - i,
    {
        if a[i] != b[i] {
            return false;
        }
        i = i + 1;
    }
    proof {
        assert(a@ =~= b@);
    }
    true
}

/// Copies a byte string, preserving its view.
pub fn clone_bytes(a: &Vec<u8>) -> (r: Vec<u8>)
    ensures
        r@ == a@,
{
    let mut r: Vec<u8> = Vec::new();
    let mut i: usize = 0;
    while i < a.len()
        invariant
            0 <= i <= a@.len(),
            r@ == a@.take(i as int),
        decreases a@.len() - i,
    {
        r.push(a[i]);
        proof {
            assert(r@ =~= a@.take(i + 1));
        }
        i = i + 1;
    }
    proof {
        assert(a@.take(a@.len() as int) =~= a@);
    }
    r
}

} // verus!
