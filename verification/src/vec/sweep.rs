//! Where the root that a family had stands once another version was made
//! the root: at the far end of the chain, where reclaiming starts.

use crate::vec::family::lemma_origin_is_root;
use crate::vec::grow::{forked, grown, lemma_grown_frame, vacant};
use crate::vec::model::{
    avoids, chain, consistent, depth, edited, flipped, is_version, law_rebase_keeps_versions,
    lemma_flip, lemma_grow, lemma_rebase_depth, lemma_rebased_len, origin, rebased, value, Action,
    Slot,
};
use vstd::prelude::*;

verus! {

/// The root of the family of the version in cell `h`.
pub open spec fn root_of<T>(slots: Seq<Slot<T>>, h: nat) -> nat {
    origin(slots, h, depth(slots, h))
}

/// After a rebase the old root is as far from the new one as the new one
/// was from it.
pub proof fn lemma_old_root_after_rebase<T>(slots: Seq<Slot<T>>, h: nat)
    requires
        is_version(slots, h),
    ensures
        chain(rebased(slots, h), root_of(slots, h), depth(slots, h)),
        origin(rebased(slots, h), root_of(slots, h), depth(slots, h)) == h,
        root_of(slots, h) < slots.len(),
{
    let dh = depth(slots, h);
    let r = root_of(slots, h);
    lemma_origin_is_root(slots, h, dh);
    assert(chain(slots, r, 0));
    assert forall|y: nat| !avoids(slots, r, 0, y) && !#[trigger] avoids(
        slots,
        h,
        dh,
        y,
    ) implies slots[y as int] is Root by {
        assert(y == r);
    }
    lemma_rebase_depth(slots, h, dh, r, 0);
}

/// After an edit in place the old root is as far from the edited version
/// as that was from it.
pub proof fn lemma_old_root_after_edit<T>(slots: Seq<Slot<T>>, h: nat, action: Action<T>)
    requires
        consistent(slots),
        is_version(slots, h),
        action.applies(value(slots, h)),
        action !is Pop,
    ensures
        chain(edited(slots, h, action), root_of(slots, h), depth(slots, h)),
{
    lemma_old_root_after_rebase(slots, h);
    law_rebase_keeps_versions(slots, h);
    lemma_grow(
        rebased(slots, h),
        h,
        action.effect(value(slots, h)),
        root_of(slots, h),
        depth(slots, h),
    );
}

/// After a fork the old root is one step further from the new root than
/// the forked version was from it.
pub proof fn lemma_old_root_after_fork<T>(slots: Seq<Slot<T>>, h: nat, action: Action<T>, r: nat)
    requires
        consistent(slots),
        is_version(slots, h),
        action.applies(value(slots, h)),
        vacant(slots, r),
    ensures
        chain(forked(slots, h, action, r), root_of(slots, h), depth(slots, h) + 1),
{
    let middle = rebased(slots, h);
    let r0 = root_of(slots, h);
    let d = depth(slots, h);
    let added = grown(middle, r, Slot::Diff(h, action));
    lemma_old_root_after_rebase(slots, h);
    law_rebase_keeps_versions(slots, h);
    lemma_rebased_len(slots, h, d);
    assert(vacant(middle, r));
    assert(h != r);
    lemma_grown_frame(middle, r, Slot::Diff(h, action), r0, d);
    lemma_grown_frame(middle, r, Slot::Diff(h, action), h, 0);
    assert(added[r as int] == Slot::Diff(h, action));
    assert(forked(slots, h, action, r) =~= flipped(added, h, r));
    let d2 = lemma_flip(added, h, r, r0, d);
}

} // verus!
