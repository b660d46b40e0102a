//! Arithmetic of a radix-32 index: which slot of a branch an index falls into,
//! and how many elements a subtree at a given shift can hold.

use vstd::arithmetic::div_mod::{lemma_breakdown, lemma_mod_mod, lemma_small_mod};
use vstd::arithmetic::power2::{
    lemma2_to64, lemma_pow2_adds, lemma_pow2_pos, lemma_pow2_strictly_increases, pow2,
};
use vstd::prelude::*;

verus! {

/// Fan-out of a branch, and the number of elements in a leaf.
pub const BRANCH_FACTOR: usize = 32;

/// Bits of an index consumed by one level of the trie.
pub const BITS_PER_LEVEL: usize = 5;

/// Number of elements below one child of a branch whose shift is `shift`.
pub open spec fn child_span(shift: nat) -> nat {
    pow2(shift)
}

/// Number of elements a full subtree holds when its root has shift `shift`.
pub open spec fn capacity(shift: nat) -> nat {
    pow2(shift + 5)
}

/// The child slot that index `i` selects in a branch whose shift is `shift`.
pub open spec fn slot(i: int, shift: nat) -> int {
    (i / (pow2(shift) as int)) % 32
}

/// The offset of index `i` within the subtree, rooted at `shift`, that holds it.
pub open spec fn local(i: int, shift: nat) -> int {
    i % (capacity(shift) as int)
}

/// A shift that a node of the trie can have on this machine: a whole number of
/// levels, with a capacity that fits in `usize`.
pub open spec fn level_shift(shift: nat) -> bool {
    shift % 5 == 0 && capacity(shift) <= usize::MAX
}

pub proof fn lemma_capacity(shift: nat)
    ensures
        capacity(shift) == 32 * child_span(shift),
        child_span(shift) > 0,
        shift >= 5 ==> child_span(shift) == capacity((shift - 5) as nat),
        shift >= 5 ==> child_span(shift) % 32 == 0 && child_span(shift) >= 32,
        capacity(0) == 32,
{
    lemma2_to64();
    lemma_pow2_pos(shift);
    lemma_pow2_adds(shift, 5);
    if shift >= 5 {
        lemma_pow2_adds((shift - 5) as nat, 5);
        lemma_pow2_pos((shift - 5) as nat);
    }
}

/// A level shift is a valid shift amount for `usize`.
pub proof fn lemma_level_shift_small(shift: nat)
    requires
        capacity(shift) <= usize::MAX,
    ensures
        shift + 5 < usize::BITS,
{
    lemma2_to64();
    vstd::arithmetic::power2::lemma2_to64_rest();
    if shift + 5 >= usize::BITS {
        if shift + 5 > usize::BITS {
            lemma_pow2_strictly_increases(usize::BITS as nat, shift + 5);
        }
        assert(pow2(usize::BITS as nat) > usize::MAX);
    }
}

/// The slot of an index is its local offset divided by the child span.
pub proof fn lemma_slot(i: int, shift: nat)
    requires
        0 <= i,
    ensures
        0 <= slot(i, shift) < 32,
        local(i, shift) == slot(i, shift) * child_span(shift) + i % (child_span(shift) as int),
        0 <= i % (child_span(shift) as int) < child_span(shift),
        0 <= local(i, shift) < capacity(shift),
        shift >= 5 ==> local(i, (shift - 5) as nat) == i % (child_span(shift) as int),
        local(i, shift) % 32 == i % 32,
{
    lemma_capacity(shift);
    let p = pow2(shift) as int;
    lemma_breakdown(i, p, 32);
    assert(p * 32 == capacity(shift));
    assert(p * slot(i, shift) == slot(i, shift) * p) by (nonlinear_arith);
    lemma_mod_mod(i, 32, p);
    assert(32 * p == capacity(shift));
}

/// An index within the capacity is its own local offset.
pub proof fn lemma_local_small(i: int, shift: nat)
    requires
        0 <= i < capacity(shift),
    ensures
        local(i, shift) == i,
{
    lemma_small_mod(i as nat, capacity(shift));
}

} // verus!
