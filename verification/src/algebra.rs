//! The mathematical model of a bit set: a `Seq<bool>`, together with the
//! boolean-algebra operations that the board's contracts are stated over,
//! and the laws those operations obey.

use vstd::prelude::*;

verus! {

/// The all-zero bit pattern of length `n`: the state of a fresh board.
pub open spec fn empty_bits(n: nat) -> Seq<bool> {
    Seq::new(n, |i: int| false)
}

/// Pointwise union of two equal-length bit patterns.
pub open spec fn union_bits(a: Seq<bool>, b: Seq<bool>) -> Seq<bool> {
    Seq::new(a.len(), |i: int| a[i] || b[i])
}

/// Pointwise set difference: the bits of `a` that are not in `b`.
pub open spec fn diff_bits(a: Seq<bool>, b: Seq<bool>) -> Seq<bool> {
    Seq::new(a.len(), |i: int| a[i] && !b[i])
}

/// A pattern of length `n` whose one-bits are exactly `[start, start + size)`.
pub open spec fn line_bits(n: nat, start: int, size: int) -> Seq<bool> {
    Seq::new(n, |i: int| start <= i < start + size)
}

/// Two patterns share no one-bit.
pub open spec fn disjoint_bits(a: Seq<bool>, b: Seq<bool>) -> bool {
    forall|i: int| 0 <= i < a.len() ==> !(#[trigger] a[i] && b[i])
}

/// Every bit of a fresh board reads as zero.
pub proof fn lemma_fresh_all_unset(n: nat, i: int)
    requires
        0 <= i < n,
    ensures
        !empty_bits(n)[i],
{
}

/// Setting bit `i` makes it read as one, a subsequent clear makes it read
/// as zero again, and neither touches any other bit `j`.
pub proof fn lemma_set_bit_reads(a: Seq<bool>, i: int, j: int)
    requires
        0 <= i < a.len(),
        0 <= j < a.len(),
        j != i,
    ensures
        a.update(i, true)[i],
        !a.update(i, true).update(i, false)[i],
        a.update(i, true)[j] == a[j],
        a.update(i, false)[j] == a[j],
{
}

/// A board is never empty right after a bit was set.
pub proof fn lemma_set_not_empty(a: Seq<bool>, i: int)
    requires
        0 <= i < a.len(),
    ensures
        a.update(i, true) != empty_bits(a.len()),
{
    assert(a.update(i, true)[i] != empty_bits(a.len())[i]);
}

/// Union is commutative: `A ∪ B == B ∪ A`.
pub proof fn lemma_union_commutative(a: Seq<bool>, b: Seq<bool>)
    requires
        a.len() == b.len(),
    ensures
        union_bits(a, b) == union_bits(b, a),
{
    assert(union_bits(a, b) =~= union_bits(b, a));
}

/// Union is idempotent: `A ∪ A == A`.
pub proof fn lemma_union_idempotent(a: Seq<bool>)
    ensures
        union_bits(a, a) == a,
{
    assert(union_bits(a, a) =~= a);
}

/// The empty pattern is a unit for union: `A ∪ ∅ == A`.
pub proof fn lemma_union_empty(a: Seq<bool>)
    ensures
        union_bits(a, empty_bits(a.len())) == a,
{
    assert(union_bits(a, empty_bits(a.len())) =~= a);
}

/// `(A ∪ B) − B` keeps exactly the bits of `A` that are not in `B`.
pub proof fn lemma_diff_of_union(a: Seq<bool>, b: Seq<bool>)
    requires
        a.len() == b.len(),
    ensures
        diff_bits(union_bits(a, b), b) == diff_bits(a, b),
{
    assert(diff_bits(union_bits(a, b), b) =~= diff_bits(a, b));
}

/// `A − A == ∅`.
pub proof fn lemma_diff_self(a: Seq<bool>)
    ensures
        diff_bits(a, a) == empty_bits(a.len()),
{
    assert(diff_bits(a, a) =~= empty_bits(a.len()));
}

/// `A − ∅ == A`.
pub proof fn lemma_diff_empty(a: Seq<bool>)
    ensures
        diff_bits(a, empty_bits(a.len())) == a,
{
    assert(diff_bits(a, empty_bits(a.len())) =~= a);
}

/// Adding `B` and then subtracting it restores `A` exactly when the two were
/// disjoint; `lemma_diff_of_union` shows that otherwise the overlap is lost.
pub proof fn lemma_union_diff_disjoint(a: Seq<bool>, b: Seq<bool>)
    requires
        a.len() == b.len(),
        disjoint_bits(a, b),
    ensures
        diff_bits(union_bits(a, b), b) == a,
{
    assert(diff_bits(union_bits(a, b), b) =~= a);
}

} // verus!
