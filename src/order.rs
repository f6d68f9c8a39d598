//! Lexicographic comparison of integer sequences, the order under both the
//! version identifiers and the byte strings of flag names.

use vstd::prelude::*;
use std::cmp::Ordering;

verus! {

/// The opposite outcome of a comparison.
pub open spec fn flip(o: Ordering) -> Ordering {
    match o {
        Ordering::Less => Ordering::Greater,
        Ordering::Equal => Ordering::Equal,
        Ordering::Greater => Ordering::Less,
    }
}

/// Compares `a` and `b` from position `i` on: the first unequal pair decides,
/// and if one runs out first, the shorter one is less.
pub open spec fn cmp_from(a: Seq<int>, b: Seq<int>, i: int) -> Ordering
    decreases a.len() - i,
{
    if i < 0 || i >= a.len() || i >= b.len() {
        if a.len() < b.len() {
            Ordering::Less
        } else if a.len() > b.len() {
            Ordering::Greater
        } else {
            Ordering::Equal
        }
    } else if a[i] < b[i] {
        Ordering::Less
    } else if a[i] > b[i] {
        Ordering::Greater
    } else {
        cmp_from(a, b, i + 1)
    }
}

/// Lexicographic order on integer sequences, a proper prefix first.
pub open spec fn seq_cmp(a: Seq<int>, b: Seq<int>) -> Ordering {
    cmp_from(a, b, 0)
}

pub open spec fn seq_le(a: Seq<int>, b: Seq<int>) -> bool {
    seq_cmp(a, b) != Ordering::Greater
}

pub open spec fn seq_lt(a: Seq<int>, b: Seq<int>) -> bool {
    seq_cmp(a, b) == Ordering::Less
}

proof fn lemma_cmp_from_props(a: Seq<int>, b: Seq<int>, i: int)
    requires
        0 <= i,
    ensures
        cmp_from(a, b, i) == flip(cmp_from(b, a, i)),
        cmp_from(a, b, i) == Ordering::Equal <==> (a.len() == b.len() && forall|k: int|
            i <= k < a.len() ==> a[k] == b[k]),
    decreases a.len() - i,
{
    if i < a.len() && i < b.len() && a[i] == b[i] {
        lemma_cmp_from_props(a, b, i + 1);
        if a.len() == b.len() && forall|k: int| i + 1 <= k < a.len() ==> a[k] == b[k] {
            assert(forall|k: int| i <= k < a.len() ==> a[k] == b[k]) by {
                assert forall|k: int| i <= k < a.len() implies a[k] == b[k] by {
                    if k > i {
                    }
                }
            }
        }
    }
}

proof fn lemma_cmp_from_trans(a: Seq<int>, b: Seq<int>, c: Seq<int>, i: int)
    requires
        0 <= i,
        cmp_from(a, b, i) != Ordering::Greater,
        cmp_from(b, c, i) != Ordering::Greater,
    ensures
        cmp_from(a, c, i) != Ordering::Greater,
        (cmp_from(a, b, i) == Ordering::Less || cmp_from(b, c, i) == Ordering::Less) ==> cmp_from(
            a,
            c,
            i,
        ) == Ordering::Less,
    decreases a.len() - i,
{
    if i < a.len() && i < b.len() && i < c.len() && a[i] == b[i] && b[i] == c[i] {
        lemma_cmp_from_trans(a, b, c, i + 1);
    }
}

/// `seq_cmp` is a total order: reflexive, antisymmetric up to `flip`, and
/// transitive, with `Equal` exactly on equal sequences.
pub proof fn lemma_seq_cmp_order(a: Seq<int>, b: Seq<int>, c: Seq<int>)
    ensures
        seq_cmp(a, a) == Ordering::Equal,
        seq_cmp(a, b) == flip(seq_cmp(b, a)),
        seq_cmp(a, b) == Ordering::Equal <==> a == b,
        seq_le(a, b) && seq_le(b, c) ==> seq_le(a, c),
        seq_lt(a, b) && seq_le(b, c) ==> seq_lt(a, c),
        seq_le(a, b) && seq_lt(b, c) ==> seq_lt(a, c),
{
    lemma_cmp_from_props(a, a, 0);
    lemma_cmp_from_props(a, b, 0);
    if seq_cmp(a, b) == Ordering::Equal {
        assert(a =~= b);
    }
    if seq_le(a, b) && seq_le(b, c) {
        lemma_cmp_from_trans(a, b, c, 0);
    }
}

} // verus!
