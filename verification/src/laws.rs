//! What holds of every indexed sequence that is filled by pushes and copied
//! by clones, stated over plain sequences.

use vstd::prelude::*;

verus! {

/// The sequence after each of `items` was pushed to `start`, in order.
pub open spec fn pushed_all<T>(start: Seq<T>, items: Seq<T>) -> Seq<T>
    decreases items.len(),
{
    if items.len() == 0 {
        start
    } else {
        pushed_all(start.push(items[0]), items.drop_first())
    }
}

/// `copy` has the length of `source` and holds, position by position, the
/// element of `source` or a clone of it.
pub open spec fn copy_of<T: Clone>(source: Seq<T>, copy: Seq<T>) -> bool {
    &&& copy.len() == source.len()
    &&& forall|i: int| 0 <= i < source.len() ==> cloned::<T>(source[i], #[trigger] copy[i])
}

/// Pushes put the items behind what was there.
pub proof fn lemma_pushed_all<T>(start: Seq<T>, items: Seq<T>)
    ensures
        pushed_all(start, items) == start + items,
    decreases items.len(),
{
    if items.len() == 0 {
        assert(start + items =~= start);
    } else {
        lemma_pushed_all(start.push(items[0]), items.drop_first());
        assert(start.push(items[0]) + items.drop_first() =~= start + items);
    }
}

/// After `n` pushes to an empty sequence its length is `n`, and at each
/// index stands the item that was pushed at that turn.
pub proof fn law_pushes<T>(items: Seq<T>)
    ensures
        pushed_all(Seq::<T>::empty(), items).len() == items.len(),
        forall|i: int|
            0 <= i < items.len() ==> #[trigger] pushed_all(Seq::<T>::empty(), items)[i] == items[i],
{
    lemma_pushed_all(Seq::<T>::empty(), items);
    assert(Seq::<T>::empty() + items =~= items);
}

/// Pushes to the source after a copy was taken leave the copy at the
/// length it had, position by position a copy of what the source holds
/// there.
pub proof fn law_fork_then_push<T: Clone>(source: Seq<T>, copy: Seq<T>, items: Seq<T>)
    requires
        copy_of(source, copy),
    ensures
        copy.len() == source.len(),
        forall|i: int|
            0 <= i < copy.len() ==> cloned::<T>(pushed_all(source, items)[i], #[trigger] copy[i]),
{
    lemma_pushed_all(source, items);
}

} // verus!
