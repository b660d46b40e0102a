//! A chain is shorter than the store is long.

use crate::vec::model::{avoids, chain, lemma_no_cycle, Slot};
use vstd::prelude::*;

verus! {

/// The cells on the chain of cell `c`, of `d` steps.
pub open spec fn trail<T>(slots: Seq<Slot<T>>, c: nat, d: nat) -> Set<int>
    decreases d,
{
    match slots[c as int] {
        Slot::Diff(neighbor, _) => if d > 0 {
            trail(slots, neighbor, (d - 1) as nat).insert(c as int)
        } else {
            set![c as int]
        },
        _ => set![c as int],
    }
}

/// A chain of `d` steps runs through `d + 1` cells of the store, each once.
proof fn lemma_trail<T>(slots: Seq<Slot<T>>, c: nat, d: nat)
    requires
        chain(slots, c, d),
    ensures
        trail(slots, c, d).finite(),
        trail(slots, c, d).len() == d + 1,
        trail(slots, c, d).subset_of(vstd::set_lib::set_int_range(0, slots.len() as int)),
        forall|x: nat| avoids(slots, c, d, x) ==> !trail(slots, c, d).contains(x as int),
    decreases d,
{
    match slots[c as int] {
        Slot::Diff(neighbor, _) => {
            assert(d > 0 && chain(slots, neighbor, (d - 1) as nat));
            lemma_trail(slots, neighbor, (d - 1) as nat);
            lemma_no_cycle(slots, c, d, neighbor, (d - 1) as nat);
            let below = trail(slots, neighbor, (d - 1) as nat);
            assert(trail(slots, c, d) == below.insert(c as int));
            assert(!below.contains(c as int));
            assert forall|x: nat| avoids(slots, c, d, x) implies !trail(slots, c, d).contains(
                x as int,
            ) by {
                assert(avoids(slots, neighbor, (d - 1) as nat, x));
            }
        },
        _ => {
            assert(d == 0);
            assert(trail(slots, c, d) == set![c as int]);
        },
    }
}

/// A chain has fewer steps than the store has cells.
pub proof fn lemma_depth_below_len<T>(slots: Seq<Slot<T>>, c: nat, d: nat)
    requires
        chain(slots, c, d),
    ensures
        d < slots.len(),
{
    lemma_trail(slots, c, d);
    vstd::set_lib::lemma_int_range(0, slots.len() as int);
    vstd::set_lib::lemma_len_subset(
        trail(slots, c, d),
        vstd::set_lib::set_int_range(0, slots.len() as int),
    );
}

} // verus!
