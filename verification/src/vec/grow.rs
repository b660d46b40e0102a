//! Putting a new version into a vacant cell of the store.

use crate::vec::model::{
    avoids, chain, consistent, content, depth, flipped, inbound, is_version, keeps,
    law_rebase_keeps_versions, lemma_depth, lemma_empty_avoided, lemma_flip, lemma_frame,
    lemma_links_update, lemma_rebased_len, links, origin, points_to, rebased, rebased_at, sound,
    value, Action, Slot,
};
use vstd::prelude::*;

verus! {

/// Cell `r` can take a new version: it is an empty cell, or the place
/// behind the last cell.
pub open spec fn vacant<T>(slots: Seq<Slot<T>>, r: nat) -> bool {
    r <= slots.len() && (r < slots.len() ==> slots[r as int] is Empty)
}

/// The sequence with `entry` at place `r`: in place of what is there, or
/// behind the last entry.
pub open spec fn grown<A>(entries: Seq<A>, r: nat, entry: A) -> Seq<A> {
    if r < entries.len() {
        entries.update(r as int, entry)
    } else {
        entries.push(entry)
    }
}

/// The slots after a new version was put into the vacant cell `r` as the
/// root: the array of the version in cell `h` with `action` made to it.
/// Cell `h` is left as the inverse edit against the new cell.
pub open spec fn forked<T>(slots: Seq<Slot<T>>, h: nat, action: Action<T>, r: nat) -> Seq<Slot<T>> {
    grown(
        rebased(slots, h).update(h as int, Slot::Diff(r, action.inverse(value(slots, h)))),
        r,
        Slot::Root(action.effect(value(slots, h))),
    )
}

/// A new cell at the end adds to the count where it points to `c`.
proof fn lemma_links_push<T>(slots: Seq<Slot<T>>, slot: Slot<T>, c: nat, upto: nat)
    requires
        upto <= slots.len(),
    ensures
        links(slots.push(slot), c, upto) == links(slots, c, upto),
        upto == slots.len() ==> inbound(slots.push(slot), c) == inbound(slots, c) + (if points_to(
            slot,
            c,
        ) {
            1int
        } else {
            0int
        }),
    decreases upto,
{
    if upto > 0 {
        lemma_links_push(slots, slot, c, (upto - 1) as nat);
    }
    if upto == slots.len() {
        assert(slots.push(slot)[slots.len() as int] == slot);
    }
}

/// A new cell at the end leaves every chain as it is.
proof fn lemma_push_frame<T>(slots: Seq<Slot<T>>, slot: Slot<T>, c: nat, d: nat)
    requires
        chain(slots, c, d),
    ensures
        chain(slots.push(slot), c, d),
        content(slots.push(slot), c, d) == content(slots, c, d),
        origin(slots.push(slot), c, d) == origin(slots, c, d),
        avoids(slots.push(slot), c, d, slots.len()),
        rebased_at(slots.push(slot), c, d) == rebased_at(slots, c, d).push(slot),
    decreases d,
{
    match slots[c as int] {
        Slot::Diff(neighbor, _) => {
            assert(d > 0 && chain(slots, neighbor, (d - 1) as nat));
            lemma_push_frame(slots, slot, neighbor, (d - 1) as nat);
            lemma_rebased_len(slots, neighbor, (d - 1) as nat);
            assert(rebased_at(slots.push(slot), c, d) =~= rebased_at(slots, c, d).push(slot));
        },
        _ => {},
    }
}

/// What is put into a vacant cell adds to the count of the cell it points
/// to, and to no other.
pub proof fn lemma_links_grown<T>(slots: Seq<Slot<T>>, r: nat, slot: Slot<T>, c: nat)
    requires
        vacant(slots, r),
    ensures
        inbound(grown(slots, r, slot), c) == inbound(slots, c) + (if points_to(slot, c) {
            1int
        } else {
            0int
        }),
{
    if r < slots.len() {
        lemma_links_update(slots, r, slot, c, slots.len());
    } else {
        lemma_links_push(slots, slot, c, slots.len());
    }
}

/// What is put into a vacant cell leaves every chain as it is.
pub proof fn lemma_grown_frame<T>(slots: Seq<Slot<T>>, r: nat, slot: Slot<T>, c: nat, d: nat)
    requires
        vacant(slots, r),
        chain(slots, c, d),
    ensures
        chain(grown(slots, r, slot), c, d),
        content(grown(slots, r, slot), c, d) == content(slots, c, d),
        origin(grown(slots, r, slot), c, d) == origin(slots, c, d),
        avoids(grown(slots, r, slot), c, d, r),
        rebased_at(grown(slots, r, slot), c, d) == grown(rebased_at(slots, c, d), r, slot),
{
    lemma_rebased_len(slots, c, d);
    if r < slots.len() {
        lemma_empty_avoided(slots, c, d, r);
        lemma_frame(slots, c, d, r, slot);
    } else {
        lemma_push_frame(slots, slot, c, d);
    }
}

/// A new root in a vacant cell is a version at depth 0 that stands for its
/// array, and every version stays what it was.
pub proof fn law_new_root<T>(slots: Seq<Slot<T>>, r: nat, data: Seq<T>)
    requires
        consistent(slots),
        vacant(slots, r),
    ensures
        consistent(grown(slots, r, Slot::Root(data))),
        keeps(slots, grown(slots, r, Slot::Root(data))),
        is_version(grown(slots, r, Slot::Root(data)), r),
        value(grown(slots, r, Slot::Root(data)), r) == data,
        depth(grown(slots, r, Slot::Root(data)), r) == 0,
{
    let after = grown(slots, r, Slot::Root(data));
    assert(chain(after, r, 0));
    lemma_depth(after, r, 0);
    assert forall|x: nat| x < slots.len() && is_version(slots, x) implies #[trigger] is_version(
        after,
        x,
    ) by {
        lemma_grown_frame(slots, r, Slot::Root(data), x, depth(slots, x));
    }
    assert forall|x: nat| x < slots.len() && is_version(slots, x) implies #[trigger] value(after, x)
        == value(slots, x) by {
        lemma_grown_frame(slots, r, Slot::Root(data), x, depth(slots, x));
        lemma_depth(after, x, depth(slots, x));
    }
    assert forall|x: nat| x < after.len() implies #[trigger] sound(after, x) by {
        if x != r {
            assert(sound(slots, x));
        }
    }
}

/// Putting an edited version into a vacant cell as the new root keeps every
/// version, with the array it stood for; the new version stands for the
/// edited array, and the version it was made from is one step away from it.
pub proof fn law_fork_keeps_versions<T>(slots: Seq<Slot<T>>, h: nat, action: Action<T>, r: nat)
    requires
        consistent(slots),
        is_version(slots, h),
        action.applies(value(slots, h)),
        vacant(slots, r),
    ensures
        forked(slots, h, action, r).len() == grown(slots, r, Slot::Empty).len(),
        consistent(forked(slots, h, action, r)),
        keeps(slots, forked(slots, h, action, r)),
        is_version(forked(slots, h, action, r), r),
        value(forked(slots, h, action, r), r) == action.effect(value(slots, h)),
        depth(forked(slots, h, action, r), r) == 0,
        depth(forked(slots, h, action, r), h) == 1,
{
    let middle = rebased(slots, h);
    let added = grown(middle, r, Slot::Diff(h, action));
    let after = forked(slots, h, action, r);
    law_rebase_keeps_versions(slots, h);
    assert(vacant(middle, r));
    assert(chain(middle, h, 0));
    assert(h != r);
    lemma_grown_frame(middle, r, Slot::Diff(h, action), h, 0);
    assert(added[r as int] == Slot::Diff(h, action));
    assert(chain(added, r, 1));
    assert(after =~= flipped(added, h, r));
    assert forall|x: nat| x < slots.len() && is_version(slots, x) implies #[trigger] is_version(
        after,
        x,
    ) by {
        assert(is_version(middle, x));
        lemma_grown_frame(middle, r, Slot::Diff(h, action), x, depth(middle, x));
        let d2 = lemma_flip(added, h, r, x, depth(middle, x));
    }
    assert forall|x: nat| x < slots.len() && is_version(slots, x) implies #[trigger] value(after, x)
        == value(slots, x) by {
        assert(is_version(middle, x));
        assert(value(middle, x) == value(slots, x));
        lemma_grown_frame(middle, r, Slot::Diff(h, action), x, depth(middle, x));
        let d2 = lemma_flip(added, h, r, x, depth(middle, x));
        lemma_depth(after, x, d2);
    }
    assert(value(middle, h) == value(slots, h));
    let dr = lemma_flip(added, h, r, r, 1);
    lemma_depth(after, r, dr);
    let dh = lemma_flip(added, h, r, h, 0);
    lemma_depth(after, h, dh);
    assert forall|x: nat| x < after.len() implies #[trigger] sound(after, x) by {
        if x != r && x < slots.len() {
            assert(sound(slots, x));
            if slots[x as int] is Empty {
                assert(middle[x as int] is Empty);
            }
        }
    }
}

} // verus!
