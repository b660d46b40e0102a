//! Giving up the cells that nothing refers to any longer.

use crate::vec::model::{
    chain, consistent, content, depth, inbound, is_version, lemma_depth, lemma_frame,
    lemma_no_cycle, lemma_unlinked_avoided, sound, value, Slot,
};
use vstd::prelude::*;

verus! {

/// The slots after cell `c`, whose chain has `d` steps, was emptied if no
/// handle is counted for it and no cell is an edit against it, and after it
/// in the same way its neighbor, which lost an edit against it, and so on
/// along the chain.
pub open spec fn reclaimed<T>(slots: Seq<Slot<T>>, counts: Seq<usize>, c: nat, d: nat) -> Seq<
    Slot<T>,
>
    decreases d,
{
    if counts[c as int] == 0 && inbound(slots, c) == 0 {
        match slots[c as int] {
            Slot::Diff(neighbor, _) => if d > 0 {
                reclaimed(slots.update(c as int, Slot::Empty), counts, neighbor, (d - 1) as nat)
            } else {
                slots.update(c as int, Slot::Empty)
            },
            _ => slots.update(c as int, Slot::Empty),
        }
    } else {
        slots
    }
}

/// The cells of `after` are those of `before`, but for cells without a
/// handle that were emptied; a version that was not emptied is the version
/// it was, at the depth it had.
pub open spec fn outlived<T>(before: Seq<Slot<T>>, counts: Seq<usize>, after: Seq<Slot<T>>) -> bool {
    &&& after.len() == before.len()
    &&& forall|x: nat|
        x < before.len() && #[trigger] after[x as int] != before[x as int] ==> after[x as int] is Empty
            && counts[x as int] == 0
    &&& forall|x: nat|
        x < before.len() && is_version(before, x) && !(after[x as int] is Empty)
            ==> #[trigger] is_version(after, x)
    &&& forall|x: nat|
        x < before.len() && is_version(before, x) && !(after[x as int] is Empty) ==> #[trigger] value(
            after,
            x,
        ) == value(before, x)
    &&& forall|x: nat|
        x < before.len() && is_version(before, x) && !(after[x as int] is Empty) ==> #[trigger] depth(
            after,
            x,
        ) == depth(before, x)
}

/// Emptying a cell that no cell is an edit against leaves every other
/// version as it is.
proof fn lemma_drop_leaf<T>(slots: Seq<Slot<T>>, c: nat, x: nat, dx: nat)
    requires
        c < slots.len(),
        inbound(slots, c) == 0,
        chain(slots, x, dx),
        x != c,
    ensures
        chain(slots.update(c as int, Slot::Empty), x, dx),
        content(slots.update(c as int, Slot::Empty), x, dx) == content(slots, x, dx),
{
    lemma_unlinked_avoided(slots, c, x, dx);
    lemma_frame(slots, x, dx, c, Slot::Empty);
}

/// Reclaiming keeps the store consistent and every version that was not
/// emptied, and empties no cell with a handle.
pub proof fn law_reclaim<T>(slots: Seq<Slot<T>>, counts: Seq<usize>, c: nat, d: nat)
    requires
        consistent(slots),
        counts.len() == slots.len(),
        chain(slots, c, d),
    ensures
        consistent(reclaimed(slots, counts, c, d)),
        outlived(slots, counts, reclaimed(slots, counts, c, d)),
    decreases d,
{
    let after = reclaimed(slots, counts, c, d);
    if counts[c as int] == 0 && inbound(slots, c) == 0 {
        let dropped = slots.update(c as int, Slot::Empty);
        assert forall|x: nat| x < slots.len() implies #[trigger] sound(dropped, x) by {
            assert(sound(slots, x));
            if x != c && is_version(slots, x) {
                lemma_drop_leaf(slots, c, x, depth(slots, x));
            }
        }
        assert forall|x: nat| x < slots.len() && x != c && is_version(slots, x) implies is_version(
            dropped,
            x,
        ) && value(dropped, x) == value(slots, x) && depth(dropped, x) == depth(slots, x) by {
            lemma_drop_leaf(slots, c, x, depth(slots, x));
            lemma_depth(dropped, x, depth(slots, x));
        }
        match slots[c as int] {
            Slot::Diff(neighbor, _) => {
                assert(d > 0 && chain(slots, neighbor, (d - 1) as nat));
                lemma_no_cycle(slots, c, d, neighbor, (d - 1) as nat);
                lemma_drop_leaf(slots, c, neighbor, (d - 1) as nat);
                law_reclaim(dropped, counts, neighbor, (d - 1) as nat);
                assert(after == reclaimed(dropped, counts, neighbor, (d - 1) as nat));
                assert forall|x: nat|
                    x < slots.len() && is_version(slots, x) && !(after[x as int] is Empty) implies (
                #[trigger] is_version(after, x)) by {
                    assert(x != c);
                    assert(is_version(dropped, x));
                }
                assert forall|x: nat|
                    x < slots.len() && is_version(slots, x) && !(after[x as int] is Empty) implies (
                #[trigger] value(after, x)) == value(slots, x) by {
                    assert(x != c);
                    assert(is_version(dropped, x));
                    assert(value(dropped, x) == value(slots, x));
                }
                assert forall|x: nat|
                    x < slots.len() && is_version(slots, x) && !(after[x as int] is Empty) implies (
                #[trigger] depth(after, x)) == depth(slots, x) by {
                    assert(x != c);
                    assert(is_version(dropped, x));
                    assert(depth(dropped, x) == depth(slots, x));
                }
            },
            _ => {
                assert(after == dropped);
            },
        }
    }
}

/// Reclaiming leaves every version for which a handle is counted the
/// version it was, at the depth it had.
pub proof fn law_reclaim_holders<T>(slots: Seq<Slot<T>>, counts: Seq<usize>, c: nat, d: nat)
    requires
        consistent(slots),
        counts.len() == slots.len(),
        chain(slots, c, d),
    ensures
        reclaimed(slots, counts, c, d).len() == slots.len(),
        forall|x: nat|
            x < slots.len() && counts[x as int] >= 1 && is_version(slots, x) ==> #[trigger] is_version(
                reclaimed(slots, counts, c, d),
                x,
            ),
        forall|x: nat|
            x < slots.len() && counts[x as int] >= 1 && is_version(slots, x) ==> #[trigger] value(
                reclaimed(slots, counts, c, d),
                x,
            ) == value(slots, x),
        forall|x: nat|
            x < slots.len() && counts[x as int] >= 1 && is_version(slots, x) ==> #[trigger] depth(
                reclaimed(slots, counts, c, d),
                x,
            ) == depth(slots, x),
{
    let after = reclaimed(slots, counts, c, d);
    law_reclaim(slots, counts, c, d);
    assert forall|x: nat|
        x < slots.len() && counts[x as int] >= 1 && is_version(slots, x) implies !(
    after[x as int] is Empty) by {
        assert(chain(slots, x, depth(slots, x)));
        if after[x as int] != slots[x as int] {
        }
    }
}

} // verus!
